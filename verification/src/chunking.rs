//! Content-defined chunking.  A buffer is split at boundaries that depend
//! only on the bytes near the boundary, so identical content produces
//! identical chunks wherever it appears.  Sizes are bounded below and above,
//! with only the final chunk allowed to run short.

use vstd::prelude::*;
use crate::digest::sha1_hex_of;

verus! {

/// Smallest chunk the splitter produces, except for a file's final chunk.
pub const CHUNK_MIN: u32 = 2048;

/// Target average chunk size.
pub const CHUNK_AVG: u32 = 4096;

/// Largest chunk the splitter ever produces.
pub const CHUNK_MAX: u32 = 65535;

/// One content-defined slice of a buffer.
#[derive(Clone, Copy, PartialEq, Eq, Structural, Debug)]
pub struct Chunk {
    /// Byte offset of the slice in the source buffer.
    pub offset: usize,
    /// Length of the slice in bytes.
    pub length: usize,
}

/// The (offset, length) pairs that fastcdc's `v2020::FastCDC` iterator
/// yields for a buffer and the three size bounds.
pub uninterp spec fn cdc_chunks(data: Seq<u8>, min: u32, avg: u32, max: u32) -> Seq<
    (usize, usize),
>;

/// The chunk list of a buffer under this store's fixed size parameters.
pub open spec fn spec_chunks(data: Seq<u8>) -> Seq<(usize, usize)> {
    cdc_chunks(data, CHUNK_MIN, CHUNK_AVG, CHUNK_MAX)
}

/// The pairs partition `len` bytes exactly: they start at zero, abut one
/// another, are each non-empty, and end at `len`.
pub open spec fn chunk_pairs_cover(cs: Seq<(usize, usize)>, len: int) -> bool {
    &&& (cs.len() == 0 ==> len == 0)
    &&& (len == 0 ==> cs.len() == 0)
    &&& (cs.len() > 0 ==> cs[0].0 == 0)
    &&& (cs.len() > 0 ==> cs.last().0 + cs.last().1 == len)
    &&& (forall|i: int| 0 <= i < cs.len() - 1 ==> cs[i + 1].0 == cs[i].0 + cs[i].1)
    &&& (forall|i: int| 0 <= i < cs.len() ==> cs[i].1 >= 1)
}

/// Every chunk is at most `max` long, and every chunk but the last at least
/// `min` long.
pub open spec fn chunk_sizes_ok(cs: Seq<(usize, usize)>, min: u32, max: u32) -> bool {
    &&& (forall|i: int| 0 <= i < cs.len() ==> cs[i].1 <= max)
    &&& (forall|i: int| 0 <= i < cs.len() - 1 ==> cs[i].1 >= min)
}

/// Relies on fastcdc's `v2020::FastCDC` iterator: the cut points depend on
/// the bytes and the three size bounds alone; the chunks partition the
/// buffer in order; every chunk is at most `max` long and every chunk but
/// the last at least `min` (the cut search starts at an even index, hence
/// the evenness bound on `min`).  The bounds keep the constructor's range
/// assertions from firing.
#[verifier::external_body]
fn cdc_split(data: &[u8], min: u32, avg: u32, max: u32) -> (r: Vec<(usize, usize)>)
    requires
        64 <= min <= 1048576,
        min % 2 == 0,
        min <= max,
        256 <= avg <= 4194304,
        1024 <= max <= 16777216,
    ensures
        r@ == cdc_chunks(data@, min, avg, max),
        chunk_pairs_cover(r@, data@.len() as int),
        chunk_sizes_ok(r@, min, max),
{
    fastcdc::v2020::FastCDC::new(data, min, avg, max).map(|c| (c.offset, c.length)).collect()
}

/// The (offset, length) views of a chunk list.
pub open spec fn chunk_views(s: Seq<Chunk>) -> Seq<(usize, usize)> {
    Seq::new(s.len(), |i: int| (s[i].offset, s[i].length))
}

/// Split a buffer into content-defined chunks.
pub fn chunk_file(buf: &[u8]) -> (r: Vec<Chunk>)
    ensures
        chunk_views(r@) == spec_chunks(buf@),
        chunk_pairs_cover(spec_chunks(buf@), buf@.len() as int),
        chunk_sizes_ok(spec_chunks(buf@), CHUNK_MIN, CHUNK_MAX),
{
    let pairs = cdc_split(buf, CHUNK_MIN, CHUNK_AVG, CHUNK_MAX);
    let mut r: Vec<Chunk> = Vec::new();
    let mut i: usize = 0;
    while i < pairs.len()
        invariant
            i <= pairs@.len(),
            r@.len() == i,
            forall|j: int| 0 <= j < i ==> (#[trigger] r@[j]).offset == pairs@[j].0
                && r@[j].length == pairs@[j].1,
        decreases pairs@.len() - i,
    {
        let (o, l) = pairs[i];
        r.push(Chunk { offset: o, length: l });
        i = i + 1;
    }
    proof {
        assert(chunk_views(r@) =~= pairs@);
    }
    r
}

/// The bytes of `b` that one chunk pair covers.
pub open spec fn piece(b: Seq<u8>, c: (usize, usize)) -> Seq<u8> {
    b.subrange(c.0 as int, c.0 + c.1)
}

/// The chunk payloads of `cs`, concatenated in order.
pub open spec fn concat_pieces(b: Seq<u8>, cs: Seq<(usize, usize)>) -> Seq<u8>
    decreases cs.len(),
{
    if cs.len() == 0 {
        Seq::empty()
    } else {
        concat_pieces(b, cs.drop_last()) + piece(b, cs.last())
    }
}

proof fn lemma_cover_drop(cs: Seq<(usize, usize)>, len: int)
    requires
        chunk_pairs_cover(cs, len),
        cs.len() > 0,
    ensures
        chunk_pairs_cover(cs.drop_last(), cs.last().0 as int),
{
    let cs2 = cs.drop_last();
    if cs.len() >= 2 {
        assert(cs.last().0 == cs[cs.len() - 2].0 + cs[cs.len() - 2].1);
        assert(cs2.last() == cs[cs.len() - 2]);
    }
}

pub proof fn lemma_cover_ends(cs: Seq<(usize, usize)>, len: int)
    requires
        chunk_pairs_cover(cs, len),
    ensures
        forall|i: int| 0 <= i < cs.len() ==> cs[i].0 + cs[i].1 <= len,
    decreases cs.len(),
{
    if cs.len() > 0 {
        lemma_cover_drop(cs, len);
        lemma_cover_ends(cs.drop_last(), cs.last().0 as int);
        assert forall|i: int| 0 <= i < cs.len() implies cs[i].0 + cs[i].1 <= len by {
            if i < cs.len() - 1 {
                assert(cs.drop_last()[i] == cs[i]);
            }
        }
    }
}

proof fn lemma_pieces_take(b: Seq<u8>, k: int, cs: Seq<(usize, usize)>)
    requires
        0 <= k <= b.len(),
        forall|i: int| 0 <= i < cs.len() ==> cs[i].0 + cs[i].1 <= k,
    ensures
        concat_pieces(b.take(k), cs) == concat_pieces(b, cs),
    decreases cs.len(),
{
    if cs.len() > 0 {
        lemma_pieces_take(b, k, cs.drop_last());
        assert(piece(b.take(k), cs.last()) =~= piece(b, cs.last()));
    }
}

/// Chunks partition the buffer exactly: concatenating the chunk byte ranges
/// in order reproduces the buffer, with no gap or overlap.
pub proof fn lemma_chunks_concat(b: Seq<u8>, cs: Seq<(usize, usize)>)
    requires
        chunk_pairs_cover(cs, b.len() as int),
    ensures
        concat_pieces(b, cs) == b,
    decreases cs.len(),
{
    if cs.len() == 0 {
        assert(concat_pieces(b, cs) =~= b);
    } else {
        let k = cs.last().0 as int;
        lemma_cover_drop(cs, b.len() as int);
        lemma_cover_ends(cs.drop_last(), k);
        lemma_chunks_concat(b.take(k), cs.drop_last());
        lemma_pieces_take(b, k, cs.drop_last());
        assert(b.take(k) + piece(b, cs.last()) =~= b);
    }
}

/// Chunking is deterministic: the boundary list, the chunk payloads, and the
/// per-chunk digests are functions of the buffer's bytes alone, so chunking
/// the same bytes twice yields identical results.
pub proof fn lemma_chunking_deterministic(a: Seq<u8>, b: Seq<u8>)
    requires
        a == b,
    ensures
        spec_chunks(a) == spec_chunks(b),
        forall|i: int| 0 <= i < spec_chunks(a).len() ==> piece(a, spec_chunks(a)[i]) == piece(
            b,
            spec_chunks(b)[i],
        ),
        forall|i: int| 0 <= i < spec_chunks(a).len() ==> sha1_hex_of(
            piece(a, spec_chunks(a)[i]),
        ) == sha1_hex_of(piece(b, spec_chunks(b)[i])),
{
}

} // verus!
