//! Content hashing: one fixed 160-bit digest, rendered as 40 lowercase
//! hexadecimal characters, used for whole files and for chunks alike.

use vstd::prelude::*;
use crate::bytes::{hex_of, is_hex, lemma_hex_of_props, to_hex};
use sha1::{Digest, Sha1};

verus! {

/// The 20-byte digest that sha1's `Sha1` computes for a byte sequence.
pub uninterp spec fn sha1_of(b: Seq<u8>) -> Seq<u8>;

/// The digest of `b` rendered as 40 lowercase hexadecimal characters: the
/// universal object identifier of the store.
pub open spec fn sha1_hex_of(b: Seq<u8>) -> Seq<u8> {
    hex_of(sha1_of(b))
}

/// Relies on sha1's `Sha1` (`update` then `finalize`): a 20-byte digest that
/// depends on the input bytes alone.
#[verifier::external_body]
fn sha1_digest(b: &[u8]) -> (r: Vec<u8>)
    ensures
        r@ == sha1_of(b@),
        r@.len() == 20,
{
    let mut hasher = Sha1::new();
    hasher.update(b);
    hasher.finalize().to_vec()
}

/// Hash a byte buffer, returning the 40-character lowercase hex digest.
pub fn digest_hex(b: &[u8]) -> (r: Vec<u8>)
    ensures
        r@ == sha1_hex_of(b@),
        r@.len() == 40,
        is_hex(r@),
        sha1_of(b@).len() == 20,
{
    let d = sha1_digest(b);
    proof {
        lemma_hex_of_props(d@);
    }
    to_hex(d.as_slice())
}

} // verus!
