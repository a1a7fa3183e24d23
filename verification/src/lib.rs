//! A content-addressed object store with deduplicating content-defined
//! chunking.
//!
//! Files are split into variable-length chunks by a rolling-hash rule, each
//! chunk is stored under its own content hash, and a manifest listing the
//! chunk hashes in order is stored under the whole file's hash.  Short hash
//! prefixes are expanded to the unique full hash they identify.

pub mod bytes;
pub mod chunking;
pub mod compress;
pub mod digest;
pub mod error;
pub mod manifest;
pub mod store;
