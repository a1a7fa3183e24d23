//! The store's error taxonomy.  Every error is terminal to the operation
//! that raised it; there is no local recovery.

use vstd::prelude::*;

verus! {

/// Everything that can go wrong in the store or in the operations around it.
#[derive(Debug, Clone, PartialEq, Eq)]
pub enum RepoError {
    /// No repository is discoverable from the working directory.
    RepositoryNotFound,
    /// Initialization was asked for inside an existing repository.
    AlreadyInRepository,
    /// A path given to `add` is not a regular file.
    PathNotFound,
    /// A file given to `add` has zero length.
    EmptyFile,
    /// A hash prefix is shorter than four characters and not a full hash.
    InvalidPrefix,
    /// A hash prefix matches more than one stored object; the conflicting
    /// full hashes are carried for diagnostic reporting.
    AmbiguousHash(Vec<Vec<u8>>),
    /// No stored object has the given hash, or none matches the prefix.
    ObjectNotFound,
    /// A stored payload does not decode as a manifest.
    MalformedManifest,
    /// An underlying filesystem or compression failure.
    IOFailure,
}

} // verus!
