//! The 512-bit digest used for key derivation and nonce generation.  The
//! digest itself is supplied by the `sha2` crate and treated as a black box:
//! `hash512_of` names its result, and everything downstream is verified
//! against that name.
use crate::big::{big_from_bytes_le, big_value, le_value};
use vstd::prelude::*;

verus! {

/// The 64-byte digest that the hash function returns for a given input.
/// The result depends on the input bytes alone.
pub uninterp spec fn hash512_of(m: Seq<u8>) -> Seq<u8>;

/// Relies on `sha2::Sha512`: a deterministic 64-byte digest of the input.
#[verifier::external_body]
pub fn H(m: &[u8]) -> (r: Vec<u8>)
    ensures
        r@ == hash512_of(m@),
        r@.len() == 64,
{
    let mut hasher = <sha2::Sha512 as sha2::Digest>::new();
    sha2::Digest::update(&mut hasher, m);
    sha2::Digest::finalize(hasher).to_vec()
}

/// The digest of a message read as a little-endian integer.
pub fn hint(m: &[u8]) -> (r: num_bigint::BigInt)
    ensures
        big_value(r) == le_value(hash512_of(m@)),
{
    let h = H(m);
    big_from_bytes_le(h.as_slice())
}

} // verus!
