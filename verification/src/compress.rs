//! Object payload compression.  Payloads are written through a
//! deflate-family compressor at its default level and read back through the
//! matching decompressor.

use vstd::prelude::*;

verus! {

/// The compressed stream flate2's `ZlibEncoder` produces for a byte
/// sequence at the default compression level.
pub uninterp spec fn zlib_of(b: Seq<u8>) -> Seq<u8>;

/// What flate2's `ZlibDecoder` recovers from a byte sequence: the original
/// payload, or nothing when the bytes are not a well-formed stream.
pub uninterp spec fn unzlib_of(c: Seq<u8>) -> Option<Seq<u8>>;

/// Relies on flate2's `write::ZlibEncoder` at the default compression level:
/// the stream depends on the input bytes alone, and `read::ZlibDecoder`
/// recovers the input from it.  Writing into a `Vec` cannot fail.
#[verifier::external_body]
pub(crate) fn zlib_compress(b: &[u8]) -> (r: Vec<u8>)
    ensures
        r@ == zlib_of(b@),
        unzlib_of(r@) == Some(b@),
{
    let mut enc = flate2::write::ZlibEncoder::new(Vec::new(), flate2::Compression::default());
    std::io::Write::write_all(&mut enc, b).unwrap();
    enc.finish().unwrap()
}

/// Relies on flate2's `read::ZlibDecoder` over an in-memory slice: reading
/// to the end yields the decompressed payload or fails, and the outcome
/// depends on the compressed bytes alone.
#[verifier::external_body]
pub(crate) fn zlib_decompress(c: &[u8]) -> (r: Option<Vec<u8>>)
    ensures
        match r {
            Some(d) => unzlib_of(c@) == Some(d@),
            None => unzlib_of(c@) is None,
        },
{
    let mut dec = flate2::read::ZlibDecoder::new(c);
    let mut out = Vec::new();
    match std::io::Read::read_to_end(&mut dec, &mut out) {
        Ok(_) => Some(out),
        Err(_) => None,
    }
}

/// Compress an object payload for storage.
pub fn compress_object(b: &[u8]) -> (r: Vec<u8>)
    ensures
        r@ == zlib_of(b@),
        unzlib_of(r@) == Some(b@),
{
    zlib_compress(b)
}

/// Decompress a stored object payload.
pub fn decompress_object(c: &[u8]) -> (r: Option<Vec<u8>>)
    ensures
        match r {
            Some(d) => unzlib_of(c@) == Some(d@),
            None => unzlib_of(c@) is None,
        },
{
    zlib_decompress(c)
}

} // verus!
