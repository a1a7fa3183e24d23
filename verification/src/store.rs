//! The object store and the operations over it.
//!
//! A store maps content hashes to payloads.  Payloads are compressed at
//! rest; a hash that is already present is never written again (first write
//! wins).  `add` splits a buffer into content-defined chunks, stores each
//! chunk under its digest, and stores a manifest naming the chunks under the
//! whole buffer's digest.  `cat_blob` and `cat_file` retrieve by full hash
//! or by unambiguous prefix.

use vstd::prelude::*;
use crate::bytes::{
    bytes_eq, copy_bytes, is_hex, is_prefix_of, lemma_hex_of_props, lemma_views_push, starts_with,
    views_of,
};
use crate::bytes::bytes_range;
use crate::chunking::{
    chunk_file, chunk_pairs_cover, chunk_sizes_ok, chunk_views, concat_pieces, lemma_chunks_concat,
    lemma_cover_ends, piece, spec_chunks, CHUNK_MAX, CHUNK_MIN,
};
use crate::compress::{unzlib_of, zlib_compress, zlib_decompress};
use crate::digest::{digest_hex, sha1_hex_of, sha1_of};
use crate::error::RepoError;
use crate::manifest::{
    decode_manifest, decode_model, encode_manifest, encode_model, lemma_manifest_round_trip,
};

verus! {

/// The abstract contents of a store: hash/payload pairs in insertion order,
/// payloads uncompressed.
pub type Entries = Seq<(Seq<u8>, Seq<u8>)>;

/// Whether some entry bears the hash `h`.
pub open spec fn has_key(es: Entries, h: Seq<u8>) -> bool
    decreases es.len(),
{
    if es.len() == 0 {
        false
    } else {
        es.last().0 == h || has_key(es.drop_last(), h)
    }
}

/// The payload stored under `h`.
pub open spec fn lookup(es: Entries, h: Seq<u8>) -> Seq<u8>
    decreases es.len(),
{
    if es.len() == 0 {
        Seq::empty()
    } else if es.last().0 == h {
        es.last().1
    } else {
        lookup(es.drop_last(), h)
    }
}

/// No two entries bear the same hash.
pub open spec fn keys_distinct(es: Entries) -> bool {
    forall|i: int, j: int|
        0 <= i < j < es.len() ==> (#[trigger] es[i]).0 != (#[trigger] es[j]).0
}

/// A store after writing `p` under `h`: unchanged when `h` is present.
pub open spec fn put_m(es: Entries, h: Seq<u8>, p: Seq<u8>) -> Entries {
    if has_key(es, h) {
        es
    } else {
        es.push((h, p))
    }
}

/// A store after writing each pair of `ps` in order.
pub open spec fn put_seq(es: Entries, ps: Entries) -> Entries
    decreases ps.len(),
{
    if ps.len() == 0 {
        es
    } else {
        put_m(put_seq(es, ps.drop_last()), ps.last().0, ps.last().1)
    }
}

/// The hashes of a store's entries, in insertion order.
pub open spec fn keys_of(es: Entries) -> Seq<Seq<u8>> {
    Seq::new(es.len(), |i: int| es[i].0)
}

/// The hashes among `ks` that begin with `p`, in order.
pub open spec fn matching_keys(ks: Seq<Seq<u8>>, p: Seq<u8>) -> Seq<Seq<u8>>
    decreases ks.len(),
{
    if ks.len() == 0 {
        Seq::empty()
    } else {
        let r = matching_keys(ks.drop_last(), p);
        if is_prefix_of(p, ks.last()) {
            r.push(ks.last())
        } else {
            r
        }
    }
}

/// The model-level outcome of expanding a hash-or-prefix argument.
pub enum ResolveModel {
    /// A unique full hash was determined.
    Resolved(Seq<u8>),
    /// The argument is shorter than four characters and not a full hash.
    TooShort,
    /// No stored hash matches the prefix.
    NotFound,
    /// Several stored hashes match; all of them, in order.
    Ambiguous(Seq<Seq<u8>>),
}

/// Expand a hash-or-prefix over the stored hashes `ks`.  A 40-character
/// argument is taken as already full, unexamined; shorter than 4 is
/// rejected; otherwise the matches decide.
pub open spec fn resolve_m(ks: Seq<Seq<u8>>, p: Seq<u8>) -> ResolveModel {
    if p.len() == 40 {
        ResolveModel::Resolved(p)
    } else if p.len() < 4 {
        ResolveModel::TooShort
    } else {
        let m = matching_keys(ks, p);
        if m.len() == 0 {
            ResolveModel::NotFound
        } else if m.len() == 1 {
            ResolveModel::Resolved(m[0])
        } else {
            ResolveModel::Ambiguous(m)
        }
    }
}

/// The model-level outcome of a retrieval.
pub enum CatModel {
    /// The retrieved payload.
    Bytes(Seq<u8>),
    /// The argument is shorter than four characters and not a full hash.
    TooShort,
    /// No object matches.
    NotFound,
    /// Several stored hashes match the prefix; all of them, in order.
    Ambiguous(Seq<Seq<u8>>),
    /// The retrieved payload does not decode as a manifest.
    BadManifest,
}

/// Retrieving a raw payload by hash-or-prefix: resolve, then look up.
pub open spec fn cat_blob_m(es: Entries, p: Seq<u8>) -> CatModel {
    match resolve_m(keys_of(es), p) {
        ResolveModel::Resolved(h) => if has_key(es, h) {
            CatModel::Bytes(lookup(es, h))
        } else {
            CatModel::NotFound
        },
        ResolveModel::TooShort => CatModel::TooShort,
        ResolveModel::NotFound => CatModel::NotFound,
        ResolveModel::Ambiguous(c) => CatModel::Ambiguous(c),
    }
}

/// Retrieving each chunk hash in order and concatenating the payloads; the
/// first failure is the result.
pub open spec fn cat_chunks_m(es: Entries, hs: Seq<Seq<u8>>) -> CatModel
    decreases hs.len(),
{
    if hs.len() == 0 {
        CatModel::Bytes(Seq::empty())
    } else {
        match cat_chunks_m(es, hs.drop_last()) {
            CatModel::Bytes(b) => match cat_blob_m(es, hs.last()) {
                CatModel::Bytes(c) => CatModel::Bytes(b + c),
                o => o,
            },
            o => o,
        }
    }
}

/// Reconstructing a file by hash-or-prefix: retrieve the manifest, decode
/// it, then retrieve every chunk in order.
pub open spec fn cat_file_m(es: Entries, p: Seq<u8>) -> CatModel {
    match cat_blob_m(es, p) {
        CatModel::Bytes(man) => match decode_model(man) {
            Some(hs) => cat_chunks_m(es, hs),
            None => CatModel::BadManifest,
        },
        o => o,
    }
}

/// How a model outcome shows up at the executable interface.
pub open spec fn outcome_matches(m: CatModel, r: Result<Vec<u8>, RepoError>) -> bool {
    match m {
        CatModel::Bytes(b) => r matches Ok(v) && v@ == b,
        CatModel::TooShort => r matches Err(RepoError::InvalidPrefix),
        CatModel::NotFound => r matches Err(RepoError::ObjectNotFound),
        CatModel::Ambiguous(c) => r matches Err(RepoError::AmbiguousHash(v)) && views_of(v@)
            == c,
        CatModel::BadManifest => r matches Err(RepoError::MalformedManifest),
    }
}

pub proof fn lemma_has_key_index(es: Entries, h: Seq<u8>)
    ensures
        has_key(es, h) <==> exists|i: int| 0 <= i < es.len() && (#[trigger] es[i]).0 == h,
    decreases es.len(),
{
    if es.len() > 0 {
        let es2 = es.drop_last();
        lemma_has_key_index(es2, h);
        if has_key(es, h) {
            if es.last().0 == h {
                assert(es[es.len() - 1].0 == h);
            } else {
                let i = choose|i: int| 0 <= i < es2.len() && (#[trigger] es2[i]).0 == h;
                assert(es[i].0 == h);
            }
        }
        if exists|i: int| 0 <= i < es.len() && (#[trigger] es[i]).0 == h {
            let i = choose|i: int| 0 <= i < es.len() && (#[trigger] es[i]).0 == h;
            if i < es.len() - 1 {
                assert(es2[i].0 == h);
            }
        }
    }
}

pub proof fn lemma_lookup_index(es: Entries, h: Seq<u8>, i: int)
    requires
        keys_distinct(es),
        0 <= i < es.len(),
        es[i].0 == h,
    ensures
        has_key(es, h),
        lookup(es, h) == es[i].1,
    decreases es.len(),
{
    let es2 = es.drop_last();
    if i == es.len() - 1 {
    } else {
        assert(es.last().0 != h);
        assert forall|a: int, b: int| 0 <= a < b < es2.len() implies (#[trigger] es2[a]).0 != (
        #[trigger] es2[b]).0 by {
            assert(es2[a] == es[a]);
            assert(es2[b] == es[b]);
        }
        assert(es2[i] == es[i]);
        lemma_lookup_index(es2, h, i);
    }
}

/// An object store: payloads kept under their content hash, deduplicated,
/// compressed at rest.
pub struct Repo {
    hashes: Vec<Vec<u8>>,
    blobs: Vec<Vec<u8>>,
}

impl Repo {
    /// The store's abstract contents.
    pub closed spec fn entries(self) -> Entries {
        Seq::new(
            self.hashes@.len(),
            |i: int| (self.hashes@[i]@, unzlib_of(self.blobs@[i]@).unwrap()),
        )
    }

    /// Structural soundness: one compressed payload per hash, hashes
    /// distinct, every stored payload a well-formed compressed stream.
    pub closed spec fn wf(self) -> bool {
        &&& self.blobs@.len() == self.hashes@.len()
        &&& keys_distinct(self.entries())
        &&& forall|i: int|
            0 <= i < self.blobs@.len() ==> (#[trigger] unzlib_of(self.blobs@[i]@)) is Some
    }

    /// Create an empty store.
    pub fn new() -> (r: Repo)
        ensures
            r.wf(),
            r.entries() == Seq::<(Seq<u8>, Seq<u8>)>::empty(),
    {
        let r = Repo { hashes: Vec::new(), blobs: Vec::new() };
        proof {
            assert(r.entries() =~= Seq::<(Seq<u8>, Seq<u8>)>::empty());
        }
        r
    }

    /// The number of objects held.
    pub fn object_count(&self) -> (n: usize)
        ensures
            n == self.entries().len(),
    {
        self.hashes.len()
    }

    fn find_index(&self, h: &[u8]) -> (r: Option<usize>)
        requires
            self.wf(),
        ensures
            match r {
                Some(i) => i < self.entries().len() && self.entries()[i as int].0 == h@
                    && has_key(self.entries(), h@),
                None => !has_key(self.entries(), h@),
            },
    {
        let ghost es = self.entries();
        let mut i: usize = 0;
        while i < self.hashes.len()
            invariant
                self.wf(),
                es == self.entries(),
                i <= self.hashes@.len(),
                forall|j: int| 0 <= j < i ==> (#[trigger] es[j]).0 != h@,
            decreases self.hashes@.len() - i,
        {
            if bytes_eq(self.hashes[i].as_slice(), h) {
                proof {
                    assert(es[i as int].0 == h@);
                    lemma_has_key_index(es, h@);
                }
                return Some(i);
            }
            i = i + 1;
        }
        proof {
            lemma_has_key_index(es, h@);
        }
        None
    }

    /// Whether an object with this full hash is stored.
    pub fn contains(&self, hash: &[u8]) -> (r: bool)
        requires
            self.wf(),
        ensures
            r == has_key(self.entries(), hash@),
    {
        self.find_index(hash).is_some()
    }

    /// Store `data` under `hash`.  If the hash is already present this is a
    /// no-op and the store is unchanged (first write wins; the existing
    /// payload is assumed to match and is not re-examined).
    pub fn put(&mut self, hash: &[u8], data: &[u8])
        requires
            old(self).wf(),
        ensures
            final(self).wf(),
            final(self).entries() == put_m(old(self).entries(), hash@, data@),
            has_key(old(self).entries(), hash@) ==> final(self).entries() == old(self).entries(),
    {
        let ghost es = old(self).entries();
        if self.find_index(hash).is_some() {
            return;
        }
        let hv = copy_bytes(hash);
        let cz = zlib_compress(data);
        self.hashes.push(hv);
        self.blobs.push(cz);
        proof {
            assert(self.entries() =~= es.push((hash@, data@)));
            lemma_has_key_index(es, hash@);
            assert forall|i: int, j: int| 0 <= i < j < self.entries().len() implies (
            #[trigger] self.entries()[i]).0 != (#[trigger] self.entries()[j]).0 by {
                if j < es.len() {
                    assert(self.entries()[i] == es[i]);
                    assert(self.entries()[j] == es[j]);
                } else {
                    assert(self.entries()[j].0 == hash@);
                    assert(self.entries()[i] == es[i]);
                }
            }
        }
    }

    /// Retrieve the payload stored under a full hash.
    pub fn get(&self, hash: &[u8]) -> (r: Result<Vec<u8>, RepoError>)
        requires
            self.wf(),
        ensures
            match r {
                Ok(v) => has_key(self.entries(), hash@) && v@ == lookup(self.entries(), hash@),
                Err(e) => e == RepoError::ObjectNotFound && !has_key(self.entries(), hash@),
            },
    {
        match self.find_index(hash) {
            Some(i) => {
                match zlib_decompress(self.blobs[i].as_slice()) {
                    Some(v) => {
                        proof {
                            lemma_lookup_index(self.entries(), hash@, i as int);
                        }
                        Ok(v)
                    },
                    None => {
                        proof {
                            assert(false);
                        }
                        Err(RepoError::ObjectNotFound)
                    },
                }
            },
            None => Err(RepoError::ObjectNotFound),
        }
    }
}

/// Expand a hash-or-prefix to the unique full hash it identifies among
/// `hashes`.  A 40-character argument is returned as-is, unexamined;
/// anything shorter than 4 characters is rejected before any scan;
/// otherwise the hashes that begin with the prefix decide: none is
/// not-found, one resolves, several are ambiguous and all are reported.
pub fn full_hash_from_prefix(prefix: &[u8], hashes: &Vec<Vec<u8>>) -> (r: Result<
    Vec<u8>,
    RepoError,
>)
    ensures
        match resolve_m(views_of(hashes@), prefix@) {
            ResolveModel::Resolved(h) => r matches Ok(v) && v@ == h,
            ResolveModel::TooShort => r matches Err(RepoError::InvalidPrefix),
            ResolveModel::NotFound => r matches Err(RepoError::ObjectNotFound),
            ResolveModel::Ambiguous(c) => r matches Err(RepoError::AmbiguousHash(v)) && views_of(
                v@,
            ) == c,
        },
{
    if prefix.len() == 40 {
        return Ok(copy_bytes(prefix));
    }
    if prefix.len() < 4 {
        return Err(RepoError::InvalidPrefix);
    }
    let ghost ks = views_of(hashes@);
    let mut ms: Vec<Vec<u8>> = Vec::new();
    let mut i: usize = 0;
    proof {
        assert(views_of(ms@) =~= matching_keys(ks.take(0), prefix@));
    }
    while i < hashes.len()
        invariant
            i <= hashes@.len(),
            ks == views_of(hashes@),
            views_of(ms@) == matching_keys(ks.take(i as int), prefix@),
        decreases hashes@.len() - i,
    {
        proof {
            assert(ks.take(i + 1 as int).drop_last() =~= ks.take(i as int));
            assert(ks.take(i + 1 as int).last() == hashes@[i as int]@);
        }
        if starts_with(hashes[i].as_slice(), prefix) {
            let c = copy_bytes(hashes[i].as_slice());
            let ghost pre = ms@;
            let ghost cv = c@;
            ms.push(c);
            proof {
                lemma_views_push(pre, ms@, cv);
            }
        }
        i = i + 1;
    }
    proof {
        assert(ks.take(hashes@.len() as int) =~= ks);
    }
    if ms.len() == 0 {
        Err(RepoError::ObjectNotFound)
    } else if ms.len() == 1 {
        let h = copy_bytes(ms[0].as_slice());
        proof {
            assert(h@ == views_of(ms@)[0]);
        }
        Ok(h)
    } else {
        Err(RepoError::AmbiguousHash(ms))
    }
}

/// The two path components of an object's sharded location: the first two
/// hash characters name the shard directory, the remaining characters the
/// file inside it.
pub fn shard_parts(hash: &[u8]) -> (r: (Vec<u8>, Vec<u8>))
    requires
        hash@.len() >= 2,
    ensures
        r.0@ == hash@.take(2),
        r.1@ == hash@.skip(2),
{
    let d = bytes_range(hash, 0, 2);
    let f = bytes_range(hash, 2, hash.len());
    proof {
        assert(hash@.subrange(0, 2) =~= hash@.take(2));
        assert(hash@.subrange(2, hash@.len() as int) =~= hash@.skip(2));
    }
    (d, f)
}

impl Repo {
    /// Expand a hash-or-prefix against this store's hashes.
    pub fn resolve(&self, prefix: &[u8]) -> (r: Result<Vec<u8>, RepoError>)
        requires
            self.wf(),
        ensures
            match resolve_m(keys_of(self.entries()), prefix@) {
                ResolveModel::Resolved(h) => r matches Ok(v) && v@ == h,
                ResolveModel::TooShort => r matches Err(RepoError::InvalidPrefix),
                ResolveModel::NotFound => r matches Err(RepoError::ObjectNotFound),
                ResolveModel::Ambiguous(c) => r matches Err(RepoError::AmbiguousHash(v))
                    && views_of(v@) == c,
            },
    {
        proof {
            assert(views_of(self.hashes@) =~= keys_of(self.entries()));
        }
        full_hash_from_prefix(prefix, &self.hashes)
    }

    /// Retrieve the raw payload a hash-or-prefix identifies, with no
    /// manifest interpretation.
    pub fn cat_blob(&self, hash_or_prefix: &[u8]) -> (r: Result<Vec<u8>, RepoError>)
        requires
            self.wf(),
        ensures
            outcome_matches(cat_blob_m(self.entries(), hash_or_prefix@), r),
    {
        let full = match self.resolve(hash_or_prefix) {
            Ok(h) => h,
            Err(e) => {
                return Err(e);
            },
        };
        self.get(full.as_slice())
    }
}

proof fn lemma_cat_chunks_prefix_err(es: Entries, hs: Seq<Seq<u8>>, i: int)
    requires
        0 <= i < hs.len(),
        cat_chunks_m(es, hs.take(i)) is Bytes,
        !(cat_blob_m(es, hs[i]) is Bytes),
    ensures
        cat_chunks_m(es, hs) == cat_blob_m(es, hs[i]),
    decreases hs.len(),
{
    if i == hs.len() - 1 {
        assert(hs.take(i) =~= hs.drop_last());
    } else {
        assert(hs.drop_last().take(i) =~= hs.take(i));
        assert(hs.drop_last()[i] == hs[i]);
        lemma_cat_chunks_prefix_err(es, hs.drop_last(), i);
    }
}

impl Repo {
    /// Reconstruct the original file a hash-or-prefix identifies: retrieve
    /// its manifest, decode it, and stream every chunk payload in order.
    pub fn cat_file(&self, hash_or_prefix: &[u8]) -> (r: Result<Vec<u8>, RepoError>)
        requires
            self.wf(),
        ensures
            outcome_matches(cat_file_m(self.entries(), hash_or_prefix@), r),
    {
        let ghost es = self.entries();
        let manifest = match self.cat_blob(hash_or_prefix) {
            Ok(m) => m,
            Err(e) => {
                return Err(e);
            },
        };
        let hs = match decode_manifest(manifest.as_slice()) {
            Ok(hs) => hs,
            Err(_) => {
                return Err(RepoError::MalformedManifest);
            },
        };
        let ghost hsv = views_of(hs@);
        let mut out: Vec<u8> = Vec::new();
        let mut i: usize = 0;
        proof {
            assert(out@ =~= Seq::<u8>::empty());
            assert(hsv.take(0) =~= Seq::<Seq<u8>>::empty());
        }
        while i < hs.len()
            invariant
                self.wf(),
                es == self.entries(),
                i <= hs@.len(),
                hsv == views_of(hs@),
                cat_chunks_m(es, hsv.take(i as int)) == CatModel::Bytes(out@),
                cat_file_m(es, hash_or_prefix@) == cat_chunks_m(es, hsv),
            decreases hs@.len() - i,
        {
            proof {
                assert(hsv[i as int] == hs@[i as int]@);
            }
            let mut piece_v = match self.cat_blob(hs[i].as_slice()) {
                Ok(v) => v,
                Err(e) => {
                    proof {
                        lemma_cat_chunks_prefix_err(es, hsv, i as int);
                    }
                    return Err(e);
                },
            };
            out.append(&mut piece_v);
            proof {
                assert(hsv.take(i + 1 as int).drop_last() =~= hsv.take(i as int));
                assert(hsv.take(i + 1 as int).last() == hsv[i as int]);
            }
            i = i + 1;
        }
        proof {
            assert(hsv.take(hs@.len() as int) =~= hsv);
        }
        Ok(out)
    }
}

/// The digests of a buffer's chunks, in order.
pub open spec fn chunk_hash_list(b: Seq<u8>) -> Seq<Seq<u8>> {
    Seq::new(spec_chunks(b).len(), |i: int| sha1_hex_of(piece(b, spec_chunks(b)[i])))
}

/// The manifest payload of a buffer: its chunk digests, encoded.
pub open spec fn manifest_of(b: Seq<u8>) -> Seq<u8> {
    encode_model(chunk_hash_list(b))
}

/// Each chunk of `b` under its digest, in order.
pub open spec fn chunk_pair_list(b: Seq<u8>) -> Entries {
    Seq::new(
        spec_chunks(b).len(),
        |i: int| (sha1_hex_of(piece(b, spec_chunks(b)[i])), piece(b, spec_chunks(b)[i])),
    )
}

/// The hash/payload pairs an `add` of `b` writes: each chunk under its
/// digest, then the manifest under the whole buffer's digest.
pub open spec fn add_pairs(b: Seq<u8>) -> Entries {
    chunk_pair_list(b).push((sha1_hex_of(b), manifest_of(b)))
}

/// What a store holds after adding `b`.
pub open spec fn add_m(es: Entries, b: Seq<u8>) -> Entries {
    put_seq(es, add_pairs(b))
}

/// Facts that every successful `add` of `b` establishes about the ambient
/// chunking and digest functions: the chunk list partitions the buffer
/// within the size bounds, and every digest involved has the fixed width.
pub open spec fn add_facts(b: Seq<u8>) -> bool {
    &&& chunk_pairs_cover(spec_chunks(b), b.len() as int)
    &&& chunk_sizes_ok(spec_chunks(b), CHUNK_MIN, CHUNK_MAX)
    &&& sha1_of(b).len() == 20
    &&& forall|i: int|
        0 <= i < spec_chunks(b).len() ==> (#[trigger] sha1_of(
            piece(b, spec_chunks(b)[i]),
        )).len() == 20
}

impl Repo {
    /// Add a buffer as a file: reject it if empty, otherwise chunk it,
    /// store each chunk under its digest (deduplicated), store the manifest
    /// under the whole buffer's digest, and return that digest.
    pub fn add(&mut self, data: &[u8]) -> (r: Result<Vec<u8>, RepoError>)
        requires
            old(self).wf(),
        ensures
            final(self).wf(),
            data@.len() == 0 ==> (r matches Err(RepoError::EmptyFile) && final(self).entries()
                == old(self).entries()),
            data@.len() > 0 ==> (r matches Ok(h) && h@ == sha1_hex_of(data@)
                && final(self).entries() == add_m(old(self).entries(), data@)
                && add_facts(data@)),
    {
        if data.len() == 0 {
            return Err(RepoError::EmptyFile);
        }
        let ghost oldes = old(self).entries();
        let ghost cs = spec_chunks(data@);
        let file_hash = digest_hex(data);
        let chunks = chunk_file(data);
        let mut chunk_hashes: Vec<Vec<u8>> = Vec::new();
        let mut i: usize = 0;
        proof {
            assert(chunk_pair_list(data@).take(0) =~= Seq::<(Seq<u8>, Seq<u8>)>::empty());
            assert(views_of(chunk_hashes@) =~= chunk_hash_list(data@).take(0));
        }
        while i < chunks.len()
            invariant
                self.wf(),
                i <= chunks@.len(),
                chunk_views(chunks@) == cs,
                cs == spec_chunks(data@),
                chunk_pairs_cover(cs, data@.len() as int),
                self.entries() == put_seq(oldes, chunk_pair_list(data@).take(i as int)),
                views_of(chunk_hashes@) == chunk_hash_list(data@).take(i as int),
                forall|j: int|
                    0 <= j < i ==> (#[trigger] sha1_of(piece(data@, cs[j]))).len() == 20,
            decreases chunks@.len() - i,
        {
            let c = chunks[i];
            let dl = data.len();
            proof {
                assert(data@.len() == dl);
                lemma_cover_ends(cs, data@.len() as int);
                assert(cs[i as int] == (c.offset, c.length));
                assert(cs[i as int].0 + cs[i as int].1 <= data@.len());
                assert(c.offset + c.length <= data@.len());
            }
            let piece_v = bytes_range(data, c.offset, c.offset + c.length);
            proof {
                assert(piece_v@ == piece(data@, cs[i as int]));
            }
            let h = digest_hex(piece_v.as_slice());
            self.put(h.as_slice(), piece_v.as_slice());
            let ghost pre_ch = chunk_hashes@;
            let ghost hv = h@;
            chunk_hashes.push(h);
            proof {
                lemma_views_push(pre_ch, chunk_hashes@, hv);
                let cpl = chunk_pair_list(data@);
                assert(cpl.take(i + 1 as int).drop_last() =~= cpl.take(i as int));
                assert(cpl.take(i + 1 as int).last() == cpl[i as int]);
                assert(self.entries() == put_seq(oldes, cpl.take(i + 1 as int)));
                let chl = chunk_hash_list(data@);
                assert(chl.take(i + 1 as int).drop_last() =~= chl.take(i as int));
                assert(chl.take(i + 1 as int).last() == chl[i as int]);
                assert(views_of(chunk_hashes@) =~= chl.take(i + 1 as int));
            }
            i = i + 1;
        }
        proof {
            assert(chunk_pair_list(data@).take(chunks@.len() as int) =~= chunk_pair_list(data@));
            assert(chunk_hash_list(data@).take(chunks@.len() as int) =~= chunk_hash_list(data@));
        }
        let manifest = encode_manifest(&chunk_hashes);
        proof {
            assert(manifest@ == manifest_of(data@));
        }
        self.put(file_hash.as_slice(), manifest.as_slice());
        proof {
            assert(add_pairs(data@).drop_last() =~= chunk_pair_list(data@));
            assert(add_pairs(data@).last() == (sha1_hex_of(data@), manifest_of(data@)));
            assert(self.entries() == add_m(oldes, data@));
        }
        Ok(file_hash)
    }
}

proof fn lemma_has_key_push(es: Entries, e: (Seq<u8>, Seq<u8>), h: Seq<u8>)
    ensures
        has_key(es.push(e), h) == (has_key(es, h) || e.0 == h),
{
    assert(es.push(e).drop_last() =~= es);
    assert(es.push(e).last() == e);
}

proof fn lemma_put_m_has(es: Entries, h0: Seq<u8>, p0: Seq<u8>, h: Seq<u8>)
    ensures
        has_key(put_m(es, h0, p0), h) == (has_key(es, h) || h0 == h),
{
    if !has_key(es, h0) {
        lemma_has_key_push(es, (h0, p0), h);
    }
}

proof fn lemma_lookup_push(es: Entries, e: (Seq<u8>, Seq<u8>), h: Seq<u8>)
    ensures
        lookup(es.push(e), h) == if e.0 == h {
            e.1
        } else {
            lookup(es, h)
        },
{
    assert(es.push(e).drop_last() =~= es);
    assert(es.push(e).last() == e);
}

proof fn lemma_put_m_lookup(es: Entries, h0: Seq<u8>, p0: Seq<u8>, h: Seq<u8>)
    ensures
        has_key(put_m(es, h0, p0), h) == (has_key(es, h) || h0 == h),
        has_key(es, h) ==> lookup(put_m(es, h0, p0), h) == lookup(es, h),
        !has_key(es, h) && h0 == h ==> lookup(put_m(es, h0, p0), h) == p0,
{
    lemma_put_m_has(es, h0, p0, h);
    if !has_key(es, h0) {
        lemma_lookup_push(es, (h0, p0), h);
    }
}

proof fn lemma_put_seq_has(es: Entries, ps: Entries, h: Seq<u8>)
    ensures
        has_key(put_seq(es, ps), h) == (has_key(es, h) || exists|k: int|
            0 <= k < ps.len() && (#[trigger] ps[k]).0 == h),
    decreases ps.len(),
{
    if ps.len() > 0 {
        let ps2 = ps.drop_last();
        lemma_put_seq_has(es, ps2, h);
        lemma_put_m_has(put_seq(es, ps2), ps.last().0, ps.last().1, h);
        if exists|k: int| 0 <= k < ps2.len() && (#[trigger] ps2[k]).0 == h {
            let k = choose|k: int| 0 <= k < ps2.len() && (#[trigger] ps2[k]).0 == h;
            assert(ps[k].0 == h);
        }
        if ps.last().0 == h {
            assert(ps[ps.len() - 1].0 == h);
        }
        if exists|k: int| 0 <= k < ps.len() && (#[trigger] ps[k]).0 == h {
            let k = choose|k: int| 0 <= k < ps.len() && (#[trigger] ps[k]).0 == h;
            if k < ps.len() - 1 {
                assert(ps2[k].0 == h);
            }
        }
    }
}

proof fn lemma_put_seq_noop(es: Entries, ps: Entries)
    requires
        forall|k: int| 0 <= k < ps.len() ==> has_key(es, (#[trigger] ps[k]).0),
    ensures
        put_seq(es, ps) == es,
    decreases ps.len(),
{
    if ps.len() > 0 {
        let ps2 = ps.drop_last();
        assert forall|k: int| 0 <= k < ps2.len() implies has_key(es, (#[trigger] ps2[k]).0) by {
            assert(ps2[k] == ps[k]);
        }
        lemma_put_seq_noop(es, ps2);
        assert(ps[ps.len() - 1].0 == ps.last().0);
    }
}

/// Dedup idempotence: every hash an `add` writes is already present after
/// that add, so adding the same buffer a second time stores nothing and
/// leaves exactly the store that the first add left.
pub proof fn lemma_add_idempotent(es: Entries, b: Seq<u8>)
    ensures
        add_m(add_m(es, b), b) == add_m(es, b),
{
    let ps = add_pairs(b);
    let es2 = add_m(es, b);
    assert forall|k: int| 0 <= k < ps.len() implies has_key(es2, (#[trigger] ps[k]).0) by {
        lemma_put_seq_has(es, ps, ps[k].0);
    }
    lemma_put_seq_noop(es2, ps);
}

/// `es` does not contradict the pair (`h`, `p`): if `h` is present at all,
/// it holds `p`.
pub open spec fn agrees(es: Entries, h: Seq<u8>, p: Seq<u8>) -> bool {
    has_key(es, h) ==> lookup(es, h) == p
}

proof fn lemma_put_seq_agrees(es: Entries, ps: Entries, h: Seq<u8>, p: Seq<u8>)
    requires
        agrees(es, h, p),
        forall|k: int| 0 <= k < ps.len() && (#[trigger] ps[k]).0 == h ==> ps[k].1 == p,
    ensures
        agrees(put_seq(es, ps), h, p),
    decreases ps.len(),
{
    if ps.len() > 0 {
        let ps2 = ps.drop_last();
        assert forall|k: int| 0 <= k < ps2.len() && (#[trigger] ps2[k]).0 == h implies ps2[k].1
            == p by {
            assert(ps2[k] == ps[k]);
        }
        lemma_put_seq_agrees(es, ps2, h, p);
        let x = put_seq(es, ps2);
        lemma_put_m_lookup(x, ps.last().0, ps.last().1, h);
        if ps.last().0 == h {
            assert(ps[ps.len() - 1].1 == p);
        }
    }
}

proof fn lemma_cat_chunks_pieces(es: Entries, b: Seq<u8>, n: int)
    requires
        0 <= n <= spec_chunks(b).len(),
        forall|i: int|
            0 <= i < n ==> cat_blob_m(es, chunk_hash_list(b)[i]) == CatModel::Bytes(
                piece(b, spec_chunks(b)[i]),
            ),
    ensures
        cat_chunks_m(es, chunk_hash_list(b).take(n)) == CatModel::Bytes(
            concat_pieces(b, spec_chunks(b).take(n)),
        ),
    decreases n,
{
    let chl = chunk_hash_list(b);
    let cs = spec_chunks(b);
    if n == 0 {
        assert(chl.take(0) =~= Seq::<Seq<u8>>::empty());
        assert(cs.take(0) =~= Seq::<(usize, usize)>::empty());
    } else {
        lemma_cat_chunks_pieces(es, b, n - 1);
        assert(chl.take(n).drop_last() =~= chl.take(n - 1));
        assert(cs.take(n).drop_last() =~= cs.take(n - 1));
        assert(chl.take(n).last() == chl[n - 1]);
        assert(cs.take(n).last() == cs[n - 1]);
    }
}

/// Round trip: after adding a non-empty buffer, reconstructing from the
/// returned whole-file hash yields exactly the buffer's bytes.
///
/// The hypotheses are what the executable operations establish and what a
/// content hash's role as an identifier presumes: `add_facts` comes with
/// every successful `add`; the agreement hypothesis says no stored object
/// already holds different bytes under one of the hashes this add writes
/// (such an object would be a digest collision, which the store treats as
/// negligible); the consistency hypothesis says the written pairs do not
/// collide among themselves.
pub proof fn lemma_add_round_trip(es: Entries, b: Seq<u8>)
    requires
        b.len() > 0,
        add_facts(b),
        forall|k: int|
            0 <= k < add_pairs(b).len() ==> agrees(
                es,
                (#[trigger] add_pairs(b)[k]).0,
                add_pairs(b)[k].1,
            ),
        forall|k: int, l: int|
            0 <= k < add_pairs(b).len() && 0 <= l < add_pairs(b).len() && (#[trigger] add_pairs(
                b,
            )[k]).0 == (#[trigger] add_pairs(b)[l]).0 ==> add_pairs(b)[k].1 == add_pairs(b)[l].1,
    ensures
        cat_file_m(add_m(es, b), sha1_hex_of(b)) == CatModel::Bytes(b),
{
    let ps = add_pairs(b);
    let es2 = add_m(es, b);
    let fh = sha1_hex_of(b);
    let cs = spec_chunks(b);
    let chl = chunk_hash_list(b);
    lemma_hex_of_props(sha1_of(b));
    assert(fh.len() == 40);
    let li = ps.len() - 1;
    assert(ps[li] == (fh, manifest_of(b)));
    assert forall|k: int| 0 <= k < ps.len() && (#[trigger] ps[k]).0 == fh implies ps[k].1
        == manifest_of(b) by {
        assert(ps[li].0 == fh);
    }
    lemma_put_seq_agrees(es, ps, fh, manifest_of(b));
    lemma_put_seq_has(es, ps, fh);
    assert(has_key(es2, fh));
    assert(lookup(es2, fh) == manifest_of(b));
    assert(cat_blob_m(es2, fh) == CatModel::Bytes(manifest_of(b)));
    assert forall|i: int| 0 <= i < chl.len() implies (#[trigger] chl[i]).len() > 0 && is_hex(
        chl[i],
    ) by {
        lemma_hex_of_props(sha1_of(piece(b, cs[i])));
    }
    lemma_manifest_round_trip(chl);
    assert forall|i: int| 0 <= i < chl.len() implies cat_blob_m(es2, #[trigger] chl[i])
        == CatModel::Bytes(piece(b, cs[i])) by {
        lemma_hex_of_props(sha1_of(piece(b, cs[i])));
        assert(chl[i].len() == 40);
        assert(ps[i] == (chl[i], piece(b, cs[i])));
        assert forall|k: int| 0 <= k < ps.len() && (#[trigger] ps[k]).0 == chl[i] implies ps[k].1
            == piece(b, cs[i]) by {
            assert(ps[i].0 == chl[i]);
        }
        lemma_put_seq_agrees(es, ps, chl[i], piece(b, cs[i]));
        lemma_put_seq_has(es, ps, chl[i]);
        assert(has_key(es2, chl[i]));
        assert(lookup(es2, chl[i]) == piece(b, cs[i]));
    }
    lemma_cat_chunks_pieces(es2, b, cs.len() as int);
    assert(chl.take(chl.len() as int) =~= chl);
    assert(cs.take(cs.len() as int) =~= cs);
    lemma_chunks_concat(b, cs);
}

} // verus!
