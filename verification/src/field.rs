//! Arithmetic in the prime field underlying the curve: the two moduli, modular
//! exponentiation by square-and-multiply, and the multiplicative inverse.
use crate::big::{
    big_add, big_clone, big_from_u128, big_from_u64, big_is_odd, big_lt, big_mul, big_rem_euclid,
    big_shl, big_shr1, big_sub, big_value,
};
use vstd::prelude::*;

verus! {

use vstd::arithmetic::div_mod::{
    lemma_mul_mod_noop_left,
    lemma_mul_mod_noop_right,
    lemma_small_mod,
};
use vstd::arithmetic::mul::lemma_mul_is_associative;
use vstd::arithmetic::power::{
    lemma_pow0,
    lemma_pow1,
    lemma_pow_adds,
    lemma_pow_mod_noop,
    lemma_pow_multiplies,
    lemma_square_is_pow2,
    pow,
};
use vstd::arithmetic::power2::{lemma2_to64, lemma_pow2_strictly_increases, pow2};

/// Width in bits of the encodings used by the scheme.
pub const B_BITS: usize = 256;

/// The field prime: 2^255 - 19.
pub open spec fn q_int() -> int {
    pow2(255) - 19
}

/// The group order: 2^252 + 27742317777372353535851937790883648493.
pub open spec fn l_int() -> int {
    pow2(252) as int + 27742317777372353535851937790883648493
}

/// The multiplicative inverse in the field, computed as a Fermat power:
/// a^(q-2) mod q.
pub open spec fn finv(a: int) -> int {
    pow(a, (q_int() - 2) as nat) % q_int()
}

pub proof fn lemma_q_bounds()
    ensures
        1 < q_int(),
        q_int() < pow2(255),
        pow2(255) < pow2(256),
        q_int() % 2 == 1,
{
    lemma2_to64();
    lemma_pow2_strictly_increases(5, 255);
    lemma_pow2_strictly_increases(255, 256);
    assert(pow2(255) == 2 * pow2(254)) by {
        vstd::arithmetic::power2::lemma_pow2_adds(1, 254);
        lemma2_to64();
    }
}

pub proof fn lemma_l_bounds()
    ensures
        1 < l_int(),
        l_int() < pow2(253),
{
    lemma2_to64();
    lemma_pow2_strictly_increases(5, 252);
    lemma_pow2_strictly_increases(126, 252);
    assert(27742317777372353535851937790883648493 < pow2(126)) by {
        vstd::arithmetic::power2::lemma2_to64_rest();
        assert(pow2(126) == pow2(63) * pow2(63)) by {
            vstd::arithmetic::power2::lemma_pow2_adds(63, 63);
        }
    }
    assert(pow2(253) == 2 * pow2(252)) by {
        vstd::arithmetic::power2::lemma_pow2_adds(1, 252);
        lemma2_to64();
    }
}

/// Concrete values of the powers of two that the encodings and curve
/// constants are measured against.
pub proof fn lemma_pow2_values()
    ensures
        pow2(128) == 340282366920938463463374607431768211456,
        pow2(192) == 6277101735386680763835789423207666416102355444464034512896,
        pow2(252) == 7237005577332262213973186563042994240829374041602535252466099000494570602496,
        pow2(255) == 57896044618658097711785492504343953926634992332820282019728792003956564819968,
        pow2(256)
            == 115792089237316195423570985008687907853269984665640564039457584007913129639936,
        q_int() == 57896044618658097711785492504343953926634992332820282019728792003956564819949,
        l_int() == 7237005577332262213973186563042994240857116359379907606001950938285454250989,
{
    lemma2_to64();
    vstd::arithmetic::power2::lemma2_to64_rest();
    vstd::arithmetic::power2::lemma_pow2_adds(64, 64);
    vstd::arithmetic::power2::lemma_pow2_adds(128, 64);
    vstd::arithmetic::power2::lemma_pow2_adds(192, 60);
    vstd::arithmetic::power2::lemma_pow2_adds(192, 63);
    vstd::arithmetic::power2::lemma_pow2_adds(255, 1);
    assert(pow2(256) == pow2(255) * 2);
}

/// The field prime q as a big integer.
pub fn q() -> (r: num_bigint::BigInt)
    ensures
        big_value(r) == q_int(),
{
    let one = big_from_u64(1);
    let t = big_shl(&one, 255);
    let nineteen = big_from_u64(19);
    big_sub(&t, &nineteen)
}

/// The group order l as a big integer.
pub fn l() -> (r: num_bigint::BigInt)
    ensures
        big_value(r) == l_int(),
{
    let one = big_from_u64(1);
    let t = big_shl(&one, 252);
    let delta = big_from_u128(27742317777372353535851937790883648493u128);
    big_add(&t, &delta)
}

proof fn lemma_sq_mod_pow(base: int, k: nat, m: int)
    requires
        m > 0,
    ensures
        pow((base * base) % m, k) % m == pow(base, 2 * k) % m,
{
    lemma_square_is_pow2(base);
    lemma_pow_multiplies(base, 2, k);
    lemma_pow_mod_noop(base * base, k, m);
}

proof fn lemma_expmod_step(result: int, base: int, exp: int, m: int)
    requires
        m > 1,
        exp > 0,
    ensures
        exp % 2 == 1 ==> (((result * base) % m) * pow((base * base) % m, (exp / 2) as nat)) % m
            == (result * pow(base, exp as nat)) % m,
        exp % 2 == 0 ==> (result * pow((base * base) % m, (exp / 2) as nat)) % m == (result * pow(
            base,
            exp as nat,
        )) % m,
{
    let k = (exp / 2) as nat;
    let x = pow((base * base) % m, k);
    let p = pow(base, 2 * k);
    lemma_sq_mod_pow(base, k, m);
    assert(x % m == p % m);
    if exp % 2 == 1 {
        assert(exp == 2 * k + 1);
        lemma_pow_adds(base, 1, 2 * k);
        lemma_pow1(base);
        assert(pow(base, exp as nat) == base * p);
        let rb = result * base;
        lemma_mul_mod_noop_left(rb, x, m);
        assert(((rb % m) * x) % m == (rb * x) % m);
        lemma_mul_mod_noop_right(rb, x, m);
        lemma_mul_mod_noop_right(rb, p, m);
        assert((rb * x) % m == (rb * (x % m)) % m);
        assert((rb * p) % m == (rb * (p % m)) % m);
        assert((rb * x) % m == (rb * p) % m);
        lemma_mul_is_associative(result, base, p);
        assert(rb * p == result * (base * p));
    } else {
        assert(exp == 2 * k);
        lemma_mul_mod_noop_right(result, x, m);
        lemma_mul_mod_noop_right(result, p, m);
        assert((result * x) % m == (result * (x % m)) % m);
        assert((result * p) % m == (result * (p % m)) % m);
    }
}

/// Modular exponentiation by iterative square-and-multiply: base^exponent
/// reduced into [0, modulus).
pub fn expmod(b_val: &num_bigint::BigInt, e: &num_bigint::BigInt, m: &num_bigint::BigInt) -> (r:
    num_bigint::BigInt)
    requires
        big_value(*m) > 1,
        big_value(*e) >= 0,
    ensures
        big_value(r) == pow(big_value(*b_val), big_value(*e) as nat) % big_value(*m),
{
    let ghost b0 = big_value(*b_val);
    let ghost e0 = big_value(*e) as nat;
    let ghost m0 = big_value(*m);
    let mut base = big_rem_euclid(b_val, m);
    let mut exp = big_clone(e);
    let mut result = big_from_u64(1);
    let zero = big_from_u64(0);
    proof {
        lemma_pow_mod_noop(b0, e0, m0);
    }
    while big_lt(&zero, &exp)
        invariant
            big_value(zero) == 0,
            big_value(*m) == m0,
            m0 > 1,
            big_value(exp) >= 0,
            0 <= big_value(result) < m0,
            0 <= big_value(base) < m0,
            (big_value(result) * pow(big_value(base), big_value(exp) as nat)) % m0 == pow(b0, e0)
                % m0,
        decreases big_value(exp),
    {
        proof {
            lemma_expmod_step(big_value(result), big_value(base), big_value(exp), m0);
        }
        if big_is_odd(&exp) {
            let t = big_mul(&result, &base);
            result = big_rem_euclid(&t, m);
        }
        let sq = big_mul(&base, &base);
        base = big_rem_euclid(&sq, m);
        exp = big_shr1(&exp);
    }
    proof {
        lemma_pow0(big_value(base));
        lemma_small_mod(big_value(result) as nat, m0 as nat);
    }
    result
}

/// The multiplicative inverse modulo the field prime, by Fermat's little
/// theorem: x^(q-2) mod q.  Callers never apply it to a multiple of q.
pub fn inv(x: &num_bigint::BigInt) -> (r: num_bigint::BigInt)
    ensures
        big_value(r) == finv(big_value(*x)),
{
    proof {
        lemma_q_bounds();
    }
    let qq = q();
    let two = big_from_u64(2);
    let e = big_sub(&qq, &two);
    expmod(x, &e, &qq)
}

} // verus!
