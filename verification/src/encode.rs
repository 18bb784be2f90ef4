//! Fixed-width little-endian encodings: 32-byte integers, and points packed
//! as the y-coordinate with the parity of x in the top bit of the last byte.
use crate::big::{big_from_bytes_le, big_is_odd, big_sub, big_to_bytes_le, big_value, le_value};
use crate::field::{lemma_q_bounds, q, q_int};
use crate::hash::hash512_of;
use crate::point::{isoncurve, on_curve, pval, xrecover, xrecover_spec, Point};
use vstd::prelude::*;

verus! {

use vstd::arithmetic::div_mod::{
    lemma_div_denominator,
    lemma_fundamental_div_mod,
    lemma_fundamental_div_mod_converse,
    lemma_multiply_divide_lt,
    lemma_small_mod,
};
use vstd::arithmetic::mul::lemma_mul_inequality;
use vstd::arithmetic::power::{lemma_pow0, lemma_pow_increases, lemma_pow_multiplies, pow};
use vstd::arithmetic::power2::{lemma2_to64, lemma_pow2, pow2};

/// Errors from decoding a point.
#[derive(Clone, Copy, Debug, PartialEq, Eq, Structural)]
pub enum DecodeError {
    /// The decoded coordinates fail the curve equation.
    PointNotOnCurve,
    /// The buffer does not have the fixed encoded length.
    MalformedEncoding,
}

/// The `n`-byte little-endian encoding of `v` (truncated to `n` bytes).
pub open spec fn le_bytes(v: int, n: nat) -> Seq<u8> {
    Seq::new(n, |i: int| ((v / pow(256, i as nat)) % 256) as u8)
}

/// The 32-byte little-endian encoding of an integer in [0, 2^256).
pub open spec fn encode_int_spec(v: int) -> Seq<u8> {
    le_bytes(v, 32)
}

/// The 32-byte encoding of a point: the y-coordinate, with the parity of x
/// packed into the most-significant bit of the last byte.
pub open spec fn encode_point_spec(p: (int, int)) -> Seq<u8> {
    le_bytes(p.1 + pow2(255) * (p.0 % 2), 32)
}

/// What decoding 32 bytes yields: the full little-endian value is the
/// y-coordinate (the sign bit is not masked off), x is recovered from it and
/// flipped to match the sign bit, and the pair must satisfy the curve
/// equation.
pub open spec fn decode_point_spec(s: Seq<u8>) -> Option<(int, int)> {
    let y = le_value(s) as int;
    let signbit = s[31] as int / 128;
    let x0 = xrecover_spec(y);
    let x = if x0 % 2 != signbit {
        q_int() - x0
    } else {
        x0
    };
    if on_curve(x, y) {
        Some((x, y))
    } else {
        None
    }
}

pub proof fn lemma_pow256_pow2(k: nat)
    ensures
        pow(256, k) == pow2(8 * k),
{
    lemma_pow2(8 * k);
    lemma_pow_multiplies(2, 8, k);
    lemma_pow2(8);
    lemma2_to64();
}

proof fn lemma_le_bytes_skip(v: int, n: nat)
    requires
        n >= 1,
        v >= 0,
    ensures
        le_bytes(v, n).skip(1) =~= le_bytes(v / 256, (n - 1) as nat),
{
    assert forall|i: int| 0 <= i < n - 1 implies le_bytes(v, n).skip(1)[i] == le_bytes(
        v / 256,
        (n - 1) as nat,
    )[i] by {
        vstd::arithmetic::power::lemma_pow_positive(256, i as nat);
        assert(le_bytes(v, n).skip(1)[i] == ((v / pow(256, (i + 1) as nat)) % 256) as u8);
        assert(pow(256, (i + 1) as nat) == 256 * pow(256, i as nat)) by {
            lemma_pow_multiplies(256, 1, i as nat);
            vstd::arithmetic::power::lemma_pow1(256);
            vstd::arithmetic::power::lemma_pow_adds(256, 1, i as nat);
        }
        lemma_div_denominator(v, 256, pow(256, i as nat));
    }
}

/// The value of the `n`-byte little-endian encoding of `v` is `v` itself,
/// whenever `v` fits in `n` bytes.
pub proof fn lemma_le_bytes_value(v: int, n: nat)
    requires
        0 <= v < pow(256, n),
    ensures
        le_value(le_bytes(v, n)) == v,
    decreases n,
{
    if n == 0 {
        lemma_pow0(256);
    } else {
        let s = le_bytes(v, n);
        lemma_pow0(256);
        assert(s[0] == (v % 256) as u8);
        lemma_le_bytes_skip(v, n);
        assert(pow(256, n) == 256 * pow(256, (n - 1) as nat)) by {
            vstd::arithmetic::power::lemma_pow1(256);
            vstd::arithmetic::power::lemma_pow_adds(256, 1, (n - 1) as nat);
        }
        lemma_multiply_divide_lt(v, 256, pow(256, (n - 1) as nat));
        lemma_le_bytes_value(v / 256, (n - 1) as nat);
        lemma_fundamental_div_mod(v, 256);
    }
}

/// A byte string whose last byte is non-zero reaches at least the capacity
/// of its shorter prefixes.
pub proof fn lemma_le_value_top(s: Seq<u8>)
    requires
        s.len() >= 1,
        s[s.len() - 1] != 0,
    ensures
        le_value(s) >= pow(256, (s.len() - 1) as nat),
    decreases s.len(),
{
    if s.len() == 1 {
        lemma_pow0(256);
    } else {
        lemma_le_value_top(s.skip(1));
        assert(pow(256, (s.len() - 1) as nat) == 256 * pow(256, (s.len() - 2) as nat)) by {
            vstd::arithmetic::power::lemma_pow1(256);
            vstd::arithmetic::power::lemma_pow_adds(256, 1, (s.len() - 2) as nat);
        }
        lemma_mul_inequality(pow(256, (s.len() - 2) as nat), le_value(s.skip(1)) as int, 256);
    }
}

/// A byte string is exactly the little-endian encoding of its value at its
/// own length.
pub proof fn lemma_le_bytes_of_value(s: Seq<u8>)
    ensures
        s =~= le_bytes(le_value(s) as int, s.len()),
    decreases s.len(),
{
    if s.len() == 0 {
    } else {
        let v = le_value(s) as int;
        let rest = le_value(s.skip(1)) as int;
        assert(v == 256 * rest + s[0]);
        lemma_fundamental_div_mod_converse(v, 256, rest, s[0] as int);
        assert(v / 256 == rest && v % 256 == s[0] as int);
        lemma_pow0(256);
        lemma_le_bytes_skip(v, s.len());
        lemma_le_bytes_of_value(s.skip(1));
        let e = le_bytes(v, s.len());
        assert forall|i: int| 0 <= i < s.len() implies s[i] == e[i] by {
            if i == 0 {
                assert(e[0] == (v % 256) as u8);
            } else {
                assert(s[i] == s.skip(1)[i - 1]);
                assert(e[i] == e.skip(1)[i - 1]);
                assert(e.skip(1)[i - 1] == le_bytes(rest, (s.len() - 1) as nat)[i - 1]);
            }
        }
    }
}

/// Extending a byte string with zero bytes does not change its value.
pub proof fn lemma_le_value_zext(t: Seq<u8>, s: Seq<u8>)
    requires
        t.len() >= s.len(),
        forall|j: int| 0 <= j < s.len() ==> t[j] == s[j],
        forall|j: int| s.len() <= j < t.len() ==> t[j] == 0,
    ensures
        le_value(t) == le_value(s),
    decreases t.len(),
{
    if t.len() == 0 {
    } else if s.len() == 0 {
        assert(t[0] == 0);
        lemma_le_value_zext(t.skip(1), s);
    } else {
        lemma_le_value_zext(t.skip(1), s.skip(1));
    }
}

/// Changing one byte changes the value by the difference scaled by the
/// byte's position.
pub proof fn lemma_le_value_update(s: Seq<u8>, i: int, c: u8)
    requires
        0 <= i < s.len(),
    ensures
        le_value(s.update(i, c)) == le_value(s) + (c - s[i]) * pow(256, i as nat),
    decreases i,
{
    let u = s.update(i, c);
    if i == 0 {
        assert(u.skip(1) =~= s.skip(1));
        lemma_pow0(256);
    } else {
        assert(u[0] == s[0]);
        assert(u.skip(1) =~= s.skip(1).update(i - 1, c));
        lemma_le_value_update(s.skip(1), i - 1, c);
        let p = pow(256, (i - 1) as nat);
        let dlt = c - s[i];
        assert(le_value(u) == s[0] + 256 * (le_value(s.skip(1)) + dlt * p));
        assert(256 * (le_value(s.skip(1)) as int + dlt * p) == 256 * le_value(s.skip(1)) + dlt * (
        256 * p)) by (nonlinear_arith);
        assert(pow(256, i as nat) == 256 * p) by {
            vstd::arithmetic::power::lemma_pow1(256);
            vstd::arithmetic::power::lemma_pow_adds(256, 1, (i - 1) as nat);
        }
    }
}

/// Law: decoding the 32-byte little-endian encoding of any integer in
/// [0, 2^256) gives back that integer.
pub proof fn lemma_int_round_trip(v: int)
    requires
        0 <= v < pow2(256),
    ensures
        le_value(encode_int_spec(v)) == v,
{
    lemma_pow256_pow2(32);
    lemma_le_bytes_value(v, 32);
}

/// Encodes an integer in [0, 2^256) as exactly 32 little-endian bytes.
pub fn encodeint(y: &num_bigint::BigInt) -> (r: Vec<u8>)
    requires
        0 <= big_value(*y) < pow2(256),
    ensures
        r@.len() == 32,
        r@ == encode_int_spec(big_value(*y)),
        le_value(r@) == big_value(*y),
{
    let ghost v = big_value(*y);
    let bytes = big_to_bytes_le(y);
    proof {
        lemma_pow256_pow2(32);
        if bytes@.len() > 32 {
            lemma_le_value_top(bytes@);
            lemma_pow_increases(256, 32, (bytes@.len() - 1) as nat);
        }
    }
    let mut out: Vec<u8> = Vec::new();
    let mut i: usize = 0;
    while i < 32
        invariant
            out@.len() == i,
            i <= 32,
            bytes@.len() <= 32,
            le_value(bytes@) == v,
            forall|j: int|
                0 <= j < i ==> out@[j] == (if j < bytes@.len() {
                    bytes@[j]
                } else {
                    0u8
                }),
        decreases 32 - i,
    {
        if i < bytes.len() {
            let bb = bytes[i];
            out.push(bb);
        } else {
            out.push(0u8);
        }
        i = i + 1;
    }
    proof {
        lemma_le_value_zext(out@, bytes@);
        lemma_le_bytes_of_value(out@);
    }
    out
}

/// Decodes the first 32 bytes of a buffer as a little-endian integer.
pub fn decodeint(s: &[u8]) -> (r: num_bigint::BigInt)
    requires
        s@.len() >= 32,
    ensures
        big_value(r) == le_value(s@.take(32)),
{
    let mut head: Vec<u8> = Vec::new();
    let mut i: usize = 0;
    while i < 32
        invariant
            s@.len() >= 32,
            head@.len() == i,
            i <= 32,
            forall|j: int| 0 <= j < i ==> head@[j] == s@[j],
        decreases 32 - i,
    {
        let bb = s[i];
        head.push(bb);
        i = i + 1;
    }
    proof {
        assert(head@ =~= s@.take(32));
    }
    big_from_bytes_le(head.as_slice())
}

/// Encodes a point as 32 bytes: the y-coordinate with the parity of x
/// overwriting the most-significant bit of the final byte.
pub fn encodepoint(p: &Point) -> (r: Vec<u8>)
    requires
        0 <= pval(*p).0 < q_int(),
        0 <= pval(*p).1 < q_int(),
    ensures
        r@.len() == 32,
        r@ == encode_point_spec(pval(*p)),
        le_value(r@) == pval(*p).1 + pow2(255) * (pval(*p).0 % 2),
{
    let ghost xv = pval(*p).0;
    let ghost yv = pval(*p).1;
    proof {
        lemma_q_bounds();
    }
    let mut y_enc = encodeint(&p.y);
    let odd = big_is_odd(&p.x);
    proof {
        lemma_pow256_pow2(31);
        lemma2_to64();
        assert(pow2(255) == pow2(248) * 128) by {
            vstd::arithmetic::power2::lemma_pow2_adds(248, 7);
            lemma2_to64();
        }
        assert(pow2(256) == pow2(255) * 2) by {
            vstd::arithmetic::power2::lemma_pow2_adds(255, 1);
            lemma2_to64();
        }
        // the top byte of the bare y-encoding is below 128
        lemma_multiply_divide_lt(yv, pow(256, 31), 128);
        lemma_small_mod((yv / pow(256, 31)) as nat, 256);
        assert(y_enc@[31] as int == yv / pow(256, 31));
        assert(y_enc@[31] < 128);
    }
    if odd {
        let b31 = y_enc[31];
        let c = b31 | 0x80u8;
        proof {
            assert(b31 < 128 ==> (b31 | 0x80u8) == b31 + 128) by (bit_vector);
            assert(c == b31 + 128);
            lemma_le_value_update(y_enc@, 31, c);
        }
        y_enc.set(31, c);
        proof {
            assert(le_value(y_enc@) == yv + 128 * pow(256, 31));
            assert(128 * pow(256, 31) == pow2(255));
            lemma_le_bytes_of_value(y_enc@);
            assert(y_enc@ =~= le_bytes(yv + pow2(255), 32));
        }
    }
    proof {
        if odd {
            assert(pow2(255) * (xv % 2) == pow2(255)) by (nonlinear_arith)
                requires
                    xv % 2 == 1,
            ;
            assert(y_enc@ =~= le_bytes(yv + pow2(255) * (xv % 2), 32));
        } else {
            assert(pow2(255) * (xv % 2) == 0) by (nonlinear_arith)
                requires
                    xv % 2 == 0,
            ;
            assert(y_enc@ =~= le_bytes(yv + pow2(255) * (xv % 2), 32));
        }
        assert(le_value(y_enc@) == yv + pow2(255) * (xv % 2));
    }
    y_enc
}

/// Decodes a 32-byte point encoding; any other length is malformed, and a
/// y-coordinate admitting no matching x is rejected as off the curve.
pub fn decodepoint(s: &[u8]) -> (r: Result<Point, DecodeError>)
    ensures
        s@.len() != 32 ==> (r matches Err(e) && e == DecodeError::MalformedEncoding),
        s@.len() == 32 && decode_point_spec(s@) is Some ==> (r matches Ok(p) && pval(p)
            == decode_point_spec(s@).unwrap()),
        s@.len() == 32 && decode_point_spec(s@) is None ==> (r matches Err(e) && e
            == DecodeError::PointNotOnCurve),
{
    if s.len() != 32 {
        return Err(DecodeError::MalformedEncoding);
    }
    let ghost sv = s@;
    let y = decodeint(s);
    proof {
        assert(sv.take(32) =~= sv);
    }
    let sb = s[31] >> 7u8;
    proof {
        let b31 = sv[31];
        assert((b31 >> 7u8) as int == b31 as int / 128) by (bit_vector);
    }
    let x0 = xrecover(&y);
    let x_odd = big_is_odd(&x0);
    let x = if x_odd != (sb == 1) {
        proof {
            lemma_q_bounds();
        }
        let qq = q();
        big_sub(&qq, &x0)
    } else {
        x0
    };
    let pt = Point { x, y };
    if isoncurve(&pt) {
        Ok(pt)
    } else {
        Err(DecodeError::PointNotOnCurve)
    }
}

/// Law: a point with reduced coordinates and even x round-trips through
/// encoding and decoding, whenever x-recovery returns its x-coordinate
/// (which it does for every even-x curve point; that number-theoretic fact
/// is taken as a hypothesis here, not proved).  Points with odd x do not
/// round-trip: their sign bit is folded into the decoded y-coordinate.
pub proof fn lemma_point_round_trip(x: int, y: int)
    requires
        0 <= x < q_int(),
        0 <= y < q_int(),
        x % 2 == 0,
        on_curve(x, y),
        xrecover_spec(y) == x,
    ensures
        decode_point_spec(encode_point_spec((x, y))) == Some((x, y)),
{
    lemma_q_bounds();
    let s = encode_point_spec((x, y));
    assert(pow2(255) * (x % 2) == 0) by (nonlinear_arith)
        requires
            x % 2 == 0,
    ;
    assert(s == le_bytes(y, 32));
    lemma_pow256_pow2(32);
    assert(pow2(256) == pow2(255) * 2) by {
        vstd::arithmetic::power2::lemma_pow2_adds(255, 1);
        lemma2_to64();
    }
    lemma_le_bytes_value(y, 32);
    assert(le_value(s) == y);
    lemma_pow256_pow2(31);
    assert(pow2(255) == pow2(248) * 128) by {
        vstd::arithmetic::power2::lemma_pow2_adds(248, 7);
        lemma2_to64();
    }
    lemma_multiply_divide_lt(y, pow(256, 31), 128);
    lemma_small_mod((y / pow(256, 31)) as nat, 256);
    assert(s[31] as int == y / pow(256, 31));
    assert(s[31] < 128);
    assert(s[31] as int / 128 == 0) by {
        vstd::arithmetic::div_mod::lemma_basic_div(s[31] as int, 128);
    }
}

/// Extracts bit `i` (little-endian within each byte) from a byte string.
pub fn bit(h_val: &[u8], i: usize) -> (r: u8)
    requires
        i / 8 < h_val@.len(),
    ensures
        r as nat == (h_val@[i as int / 8] as nat / pow2((i % 8) as nat)) % 2,
{
    let byte = h_val[i / 8];
    let k = i % 8;
    let r = (byte >> k) & 1;
    proof {
        lemma2_to64();
        let kk = k as u64;
        assert(kk < 8 ==> ((byte >> kk) & 1) as nat == ((byte as nat) / (if kk == 0 {
            1nat
        } else if kk == 1 {
            2nat
        } else if kk == 2 {
            4nat
        } else if kk == 3 {
            8nat
        } else if kk == 4 {
            16nat
        } else if kk == 5 {
            32nat
        } else if kk == 6 {
            64nat
        } else {
            128nat
        })) % 2) by (bit_vector);
    }
    r
}

} // verus!
