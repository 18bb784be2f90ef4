//! An Edwards-curve digital-signature library (the curve of Ed25519),
//! together with a few self-contained companion modules: an
//! arbitrary-precision integer type, a from-scratch 512-bit digest, Hamming
//! weights and distances, a trial-division primality test, and a linked
//! stack.
//!
//! The top of this file holds the public signature API: key derivation,
//! deterministic signing, and verification.
#![allow(non_camel_case_types)]
#![allow(non_snake_case)]
pub mod big;
pub mod bignum;
pub mod hamming;
pub mod primes;
pub mod sha512;
pub mod stack;
pub mod encode;
pub mod field;
pub mod hash;
pub mod point;

use crate::big::{big_add, big_from_bytes_le, big_mul, big_rem_euclid, big_value, le_value};
use crate::encode::{
    decode_point_spec, decodeint, decodepoint, encode_point_spec, encodeint, encodepoint, le_bytes,
};
use crate::field::{l, l_int, lemma_l_bounds};
use crate::hash::{hash512_of, hint, H};
use crate::point::{b_point, b_spec, edwards, edwards_spec, lemma_smul_range, scalarmult, smul};
use vstd::prelude::*;

verus! {

use vstd::arithmetic::power2::lemma_pow2_strictly_increases;

/// The clamping applied to the low half of the hashed seed: the three lowest
/// bits cleared, the top bit cleared, and the second-highest bit set.
pub open spec fn clamp_spec(h: Seq<u8>) -> Seq<u8> {
    h.update(0, (h[0] & 248u8)).update(31, ((h[31] & 127u8) | 64u8))
}

/// The private scalar derived from a 32-byte seed: the clamped low half of
/// its 64-byte digest, read little-endian.
pub open spec fn a_scalar(sk: Seq<u8>) -> int {
    le_value(clamp_spec(hash512_of(sk).take(32))) as int
}

/// The public key bytes derived from a seed: the encoding of a*B.
pub open spec fn publickey_spec(sk: Seq<u8>) -> Seq<u8> {
    encode_point_spec(smul(b_spec(), a_scalar(sk)))
}

/// The 64-byte deterministic signature of a message: the encoded nonce
/// point R = r*B for r = Hash(prefix || m) mod l, followed by the encoded
/// scalar s = (r + Hash(R || pk || m) * a) mod l.
pub open spec fn sig_spec(m: Seq<u8>, sk: Seq<u8>, pk: Seq<u8>) -> Seq<u8> {
    let h = hash512_of(sk);
    let a = a_scalar(sk);
    let prefix = h.skip(32);
    let r = le_value(hash512_of(prefix + m)) as int % l_int();
    let renc = encode_point_spec(smul(b_spec(), r));
    let k = le_value(hash512_of(renc + pk + m)) as int % l_int();
    renc + le_bytes((r + k * a) % l_int(), 32)
}

/// What verification accepts: well-formed lengths, both points decodable,
/// and s*B equal to R + k*A in both coordinates.
pub open spec fn check_spec(sig: Seq<u8>, m: Seq<u8>, pk: Seq<u8>) -> bool {
    if sig.len() != 64 || pk.len() != 32 {
        false
    } else {
        let renc = sig.take(32);
        let sval = le_value(sig.skip(32)) as int;
        if decode_point_spec(pk) is Some && decode_point_spec(renc) is Some {
            let ap = decode_point_spec(pk).unwrap();
            let rp = decode_point_spec(renc).unwrap();
            let k = le_value(hash512_of(renc + pk + m)) as int % l_int();
            smul(b_spec(), sval) == edwards_spec(rp, smul(ap, k))
        } else {
            false
        }
    }
}

/// Appends all bytes of `src` to `dst`.
fn push_all(dst: &mut Vec<u8>, src: &[u8])
    ensures
        final(dst)@ == old(dst)@ + src@,
{
    let mut i: usize = 0;
    while i < src.len()
        invariant
            i <= src@.len(),
            dst@ == old(dst)@ + src@.take(i as int),
        decreases src@.len() - i,
    {
        let b = src[i];
        dst.push(b);
        i = i + 1;
        proof {
            assert(old(dst)@ + src@.take(i - 1) + seq![src@[i - 1]] =~= old(dst)@ + src@.take(
                i as int,
            ));
        }
    }
    proof {
        assert(old(dst)@ + src@.take(src@.len() as int) =~= old(dst)@ + src@);
    }
}

/// Copies the first `n` bytes of `src` into a fresh vector.
fn take_bytes(src: &[u8], n: usize) -> (r: Vec<u8>)
    requires
        n <= src@.len(),
    ensures
        r@ == src@.take(n as int),
{
    let mut out: Vec<u8> = Vec::new();
    let mut i: usize = 0;
    while i < n
        invariant
            n <= src@.len(),
            i <= n,
            out@ == src@.take(i as int),
        decreases n - i,
    {
        let b = src[i];
        out.push(b);
        i = i + 1;
        proof {
            assert(src@.take(i - 1) + seq![src@[i - 1]] =~= src@.take(i as int));
        }
    }
    out
}

/// Copies the bytes of `src` from `from` onward into a fresh vector.
fn skip_bytes(src: &[u8], from: usize) -> (r: Vec<u8>)
    requires
        from <= src@.len(),
    ensures
        r@ == src@.skip(from as int),
{
    let mut out: Vec<u8> = Vec::new();
    let mut i: usize = from;
    while i < src.len()
        invariant
            from <= i <= src@.len(),
            out@ == src@.subrange(from as int, i as int),
        decreases src@.len() - i,
    {
        let b = src[i];
        out.push(b);
        i = i + 1;
        proof {
            assert(src@.subrange(from as int, i - 1) + seq![src@[i - 1]] =~= src@.subrange(
                from as int,
                i as int,
            ));
        }
    }
    proof {
        assert(src@.subrange(from as int, src@.len() as int) =~= src@.skip(from as int));
    }
    out
}

/// Derives the clamped private scalar and the 32-byte nonce prefix from a
/// 32-byte secret seed, by hashing and clamping.
pub fn derive_scalar_and_prefix(sk: &[u8]) -> (r: (num_bigint::BigInt, Vec<u8>))
    requires
        sk@.len() == 32,
    ensures
        big_value(r.0) == a_scalar(sk@),
        r.1@ == hash512_of(sk@).skip(32),
{
    let h = H(sk);
    let mut a_bytes = take_bytes(h.as_slice(), 32);
    let b0 = a_bytes[0];
    a_bytes.set(0, b0 & 248u8);
    let b31 = a_bytes[31];
    a_bytes.set(31, (b31 & 127u8) | 64u8);
    proof {
        assert(a_bytes@ == clamp_spec(hash512_of(sk@).take(32)));
    }
    let a = big_from_bytes_le(a_bytes.as_slice());
    let prefix = skip_bytes(h.as_slice(), 32);
    (a, prefix)
}

/// Derives the 32-byte public key for a 32-byte secret seed.
pub fn publickey(sk: &[u8]) -> (r: Vec<u8>)
    requires
        sk@.len() == 32,
    ensures
        r@ == publickey_spec(sk@),
        r@.len() == 32,
{
    let (a, _prefix) = derive_scalar_and_prefix(sk);
    let bp = b_point();
    let a_point = scalarmult(&bp, &a);
    proof {
        lemma_smul_range(b_spec(), a_scalar(sk@));
    }
    encodepoint(&a_point)
}

/// Signs a message with a 32-byte secret seed and its 32-byte public key,
/// returning the 64-byte signature R || s.
pub fn signature(m: &[u8], sk: &[u8], pk: &[u8]) -> (r: Vec<u8>)
    requires
        sk@.len() == 32,
        pk@.len() == 32,
    ensures
        r@ == sig_spec(m@, sk@, pk@),
        r@.len() == 64,
{
    proof {
        lemma_l_bounds();
        lemma_pow2_strictly_increases(253, 256);
    }
    let (a, prefix) = derive_scalar_and_prefix(sk);
    let mut msg1: Vec<u8> = Vec::new();
    push_all(&mut msg1, prefix.as_slice());
    push_all(&mut msg1, m);
    let ll = l();
    let r_hash = hint(msg1.as_slice());
    let r_red = big_rem_euclid(&r_hash, &ll);
    let ghost r_val = le_value(hash512_of(hash512_of(sk@).skip(32) + m@)) as int % l_int();
    proof {
        assert(big_value(r_red) == r_val);
    }
    let bp = b_point();
    let r_point = scalarmult(&bp, &r_red);
    proof {
        lemma_smul_range(b_spec(), r_val);
    }
    let r_enc = encodepoint(&r_point);
    let mut msg2: Vec<u8> = Vec::new();
    push_all(&mut msg2, r_enc.as_slice());
    push_all(&mut msg2, pk);
    push_all(&mut msg2, m);
    let hram_hash = hint(msg2.as_slice());
    let hram = big_rem_euclid(&hram_hash, &ll);
    let ka = big_mul(&hram, &a);
    let rka = big_add(&r_red, &ka);
    let s = big_rem_euclid(&rka, &ll);
    let s_enc = encodeint(&s);
    let mut out: Vec<u8> = Vec::new();
    push_all(&mut out, r_enc.as_slice());
    push_all(&mut out, s_enc.as_slice());
    proof {
        let renc_s = encode_point_spec(smul(b_spec(), r_val));
        let k_val = le_value(hash512_of(renc_s + pk@ + m@)) as int % l_int();
        assert(msg2@ == renc_s + pk@ + m@);
        assert(big_value(s) == (r_val + k_val * a_scalar(sk@)) % l_int());
        assert(out@ == sig_spec(m@, sk@, pk@));
    }
    out
}

/// Verifies a signature over a message against a public key.  Malformed
/// lengths and undecodable points are rejected; nothing panics on
/// adversarial input.
pub fn check_valid(s: &[u8], m: &[u8], pk: &[u8]) -> (r: bool)
    ensures
        r == check_spec(s@, m@, pk@),
{
    if s.len() != 64 || pk.len() != 32 {
        return false;
    }
    proof {
        lemma_l_bounds();
    }
    let r_enc = take_bytes(s, 32);
    let s_tail = skip_bytes(s, 32);
    let s_int = decodeint(s_tail.as_slice());
    proof {
        assert(s@.skip(32).take(32) =~= s@.skip(32));
    }
    let a_point = match decodepoint(pk) {
        Ok(p) => p,
        Err(_) => {
            return false;
        },
    };
    let r_point = match decodepoint(r_enc.as_slice()) {
        Ok(p) => p,
        Err(_) => {
            return false;
        },
    };
    let mut msg: Vec<u8> = Vec::new();
    push_all(&mut msg, r_enc.as_slice());
    push_all(&mut msg, pk);
    push_all(&mut msg, m);
    let ll = l();
    let hram_hash = hint(msg.as_slice());
    let hram = big_rem_euclid(&hram_hash, &ll);
    let bp = b_point();
    let p1 = scalarmult(&bp, &s_int);
    let p2r = scalarmult(&a_point, &hram);
    let p2 = edwards(&r_point, &p2r);
    let ok = crate::big::big_eq(&p1.x, &p2.x) && crate::big::big_eq(&p1.y, &p2.y);
    ok
}

} // verus!
