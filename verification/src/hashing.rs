//! The content digest: a 256-bit cryptographic hash of a file's bytes,
//! computed by an outside crate and named, not restated, here.

use vstd::prelude::*;

verus! {

/// The digest of a byte string. Its value depends on the bytes alone; nothing
/// more is assumed of it.
pub uninterp spec fn hash_of(bytes: Seq<u8>) -> Seq<u8>;

/// Relies on blake3::hash: a 32-byte digest that is a function of the input
/// bytes alone.
#[verifier::external_body]
pub fn hash_bytes(bytes: &Vec<u8>) -> (r: [u8; 32])
    ensures
        r@ == hash_of(bytes@),
{
    *blake3::hash(bytes.as_slice()).as_bytes()
}

} // verus!
