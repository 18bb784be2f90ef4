//! Trusted bridge to the `num-bigint` crate.
//!
//! The signature scheme works on integers far wider than any machine word;
//! the arbitrary-precision arithmetic behind it is supplied by
//! `num_bigint::BigInt`.  Every use of that crate goes
//! through one of the wrappers below, whose contracts state what the called
//! function returns in terms of `big_value`, the mathematical integer a
//! `BigInt` holds.  Everything built on top of these wrappers is verified.
use vstd::prelude::*;

verus! {

use vstd::arithmetic::power2::pow2;

/// Declares `num_bigint::BigInt` to the verifier; values of it are opaque
/// and are spoken of only through `big_value`.
#[verifier::external_type_specification]
#[verifier::external_body]
pub struct ExBigInt(num_bigint::BigInt);

/// The mathematical integer held by a `num_bigint::BigInt`.
pub uninterp spec fn big_value(x: num_bigint::BigInt) -> int;

/// The integer denoted by a little-endian byte string: the byte at index 0
/// is the least significant.
pub open spec fn le_value(s: Seq<u8>) -> nat
    decreases s.len(),
{
    if s.len() == 0 {
        0
    } else {
        s[0] as nat + 256 * le_value(s.skip(1))
    }
}

/// Relies on `BigInt`'s `From<u64>` impl: the result holds exactly `v`.
#[verifier::external_body]
pub(crate) fn big_from_u64(v: u64) -> (r: num_bigint::BigInt)
    ensures
        big_value(r) == v as int,
{
    num_bigint::BigInt::from(v)
}

/// Relies on `BigInt`'s `From<u128>` impl: the result holds exactly `v`.
#[verifier::external_body]
pub(crate) fn big_from_u128(v: u128) -> (r: num_bigint::BigInt)
    ensures
        big_value(r) == v as int,
{
    num_bigint::BigInt::from(v)
}

/// Relies on `BigInt`'s `Clone` impl: the copy holds the same integer.
#[verifier::external_body]
pub(crate) fn big_clone(a: &num_bigint::BigInt) -> (r: num_bigint::BigInt)
    ensures
        big_value(r) == big_value(*a),
{
    a.clone()
}

/// Relies on `BigInt`'s `PartialEq` impl, which compares the held integers.
#[verifier::external_body]
pub(crate) fn big_eq(a: &num_bigint::BigInt, b: &num_bigint::BigInt) -> (r: bool)
    ensures
        r <==> big_value(*a) == big_value(*b),
{
    a == b
}

/// Relies on `BigInt`'s `PartialOrd` impl, which orders the held integers.
#[verifier::external_body]
pub(crate) fn big_lt(a: &num_bigint::BigInt, b: &num_bigint::BigInt) -> (r: bool)
    ensures
        r <==> big_value(*a) < big_value(*b),
{
    a < b
}

/// Relies on `Add for &BigInt`: exact integer addition.
#[verifier::external_body]
pub(crate) fn big_add(a: &num_bigint::BigInt, b: &num_bigint::BigInt) -> (r: num_bigint::BigInt)
    ensures
        big_value(r) == big_value(*a) + big_value(*b),
{
    a + b
}

/// Relies on `Sub for &BigInt`: exact integer subtraction.
#[verifier::external_body]
pub(crate) fn big_sub(a: &num_bigint::BigInt, b: &num_bigint::BigInt) -> (r: num_bigint::BigInt)
    ensures
        big_value(r) == big_value(*a) - big_value(*b),
{
    a - b
}

/// Relies on `Mul for &BigInt`: exact integer multiplication.
#[verifier::external_body]
pub(crate) fn big_mul(a: &num_bigint::BigInt, b: &num_bigint::BigInt) -> (r: num_bigint::BigInt)
    ensures
        big_value(r) == big_value(*a) * big_value(*b),
{
    a * b
}

/// Relies on `Div for &BigInt`, truncating division; on non-negative
/// operands it agrees with Euclidean division.
#[verifier::external_body]
pub(crate) fn big_div(a: &num_bigint::BigInt, b: &num_bigint::BigInt) -> (r: num_bigint::BigInt)
    requires
        big_value(*a) >= 0,
        big_value(*b) > 0,
    ensures
        big_value(r) == big_value(*a) / big_value(*b),
{
    a / b
}

/// Relies on `num_traits::Euclid::rem_euclid` for `BigInt`: for a positive
/// modulus the result is the non-negative remainder.
#[verifier::external_body]
pub(crate) fn big_rem_euclid(a: &num_bigint::BigInt, m: &num_bigint::BigInt) -> (r:
    num_bigint::BigInt)
    requires
        big_value(*m) > 0,
    ensures
        big_value(r) == big_value(*a) % big_value(*m),
{
    num_traits::Euclid::rem_euclid(a, m)
}

/// Relies on `num_integer::Integer::is_odd` for `BigInt`.
#[verifier::external_body]
pub(crate) fn big_is_odd(a: &num_bigint::BigInt) -> (r: bool)
    requires
        big_value(*a) >= 0,
    ensures
        r <==> big_value(*a) % 2 == 1,
{
    num_integer::Integer::is_odd(a)
}

/// Relies on `Shr<u32> for &BigInt`: an arithmetic right shift by one, which
/// on a non-negative integer halves it, rounding down.
#[verifier::external_body]
pub(crate) fn big_shr1(a: &num_bigint::BigInt) -> (r: num_bigint::BigInt)
    requires
        big_value(*a) >= 0,
    ensures
        big_value(r) == big_value(*a) / 2,
{
    a >> 1u32
}

/// Relies on `Shl<u32> for &BigInt`: a left shift by `k` multiplies by 2^k.
#[verifier::external_body]
pub(crate) fn big_shl(a: &num_bigint::BigInt, k: u32) -> (r: num_bigint::BigInt)
    requires
        big_value(*a) >= 0,
    ensures
        big_value(r) == big_value(*a) * pow2(k as nat),
{
    a << k
}

/// Relies on `BigInt::from_bytes_le` with a plus sign: reads a non-negative
/// integer from little-endian bytes.
#[verifier::external_body]
pub(crate) fn big_from_bytes_le(bytes: &[u8]) -> (r: num_bigint::BigInt)
    ensures
        big_value(r) == le_value(bytes@),
{
    num_bigint::BigInt::from_bytes_le(num_bigint::Sign::Plus, bytes)
}

/// Relies on `BigInt::to_bytes_le`: the bytes denote the held integer in
/// little-endian order, with no trailing zero byte (zero itself yields the
/// single byte 0).
#[verifier::external_body]
pub(crate) fn big_to_bytes_le(a: &num_bigint::BigInt) -> (r: Vec<u8>)
    requires
        big_value(*a) >= 0,
    ensures
        le_value(r@) == big_value(*a),
        r@.len() >= 1,
        r@.len() > 1 ==> r@[r@.len() - 1] != 0,
{
    let (_, bytes) = a.to_bytes_le();
    bytes
}

} // verus!
