//! Points on the twisted Edwards curve -x^2 + y^2 = 1 + d*x^2*y^2 over the
//! field of `q_int()` elements: the curve constants, the unified addition
//! law, double-and-add scalar multiplication, the on-curve test, and
//! recovery of an x-coordinate from a y-coordinate.
use crate::big::{
    big_add, big_clone, big_div, big_eq, big_from_u128, big_from_u64, big_is_odd, big_lt, big_mul,
    big_rem_euclid, big_shl, big_shr1, big_sub, big_value,
};
use crate::field::{expmod, finv, inv, lemma_q_bounds, q, q_int};
use vstd::prelude::*;

verus! {

use vstd::arithmetic::div_mod::{
    lemma_add_mod_noop,
    lemma_mul_mod_noop_general,
    lemma_small_mod,
    lemma_sub_mod_noop,
};
use vstd::arithmetic::power::pow;
use vstd::arithmetic::power2::pow2;

/// The curve's twist parameter d = -121665/121666 mod q.
pub open spec fn d_int() -> int {
    37095705934669439343138083508754565189542113879843219016388785533085940283555int
}

/// A fixed square root of -1 mod q, used during x-recovery.
pub open spec fn i_int() -> int {
    19681161376707505956807079304988542015446066515923890162744021073123829784752int
}

/// The x-coordinate of the base point.
pub open spec fn bx_int() -> int {
    15112221349535400772501151409588531511454012693041857206046113283949847762202int
}

/// The y-coordinate of the base point (4/5 mod q).
pub open spec fn by_int() -> int {
    46316835694926478169428394003475163141307993866256225615783033603165251855960int
}

/// The base point as a coordinate pair.
pub open spec fn b_spec() -> (int, int) {
    (bx_int(), by_int())
}

/// A point on the curve: a pair of field elements.
#[derive(Debug)]
pub struct Point {
    pub x: num_bigint::BigInt,
    pub y: num_bigint::BigInt,
}

/// The coordinate pair a `Point` holds.
pub open spec fn pval(p: Point) -> (int, int) {
    (big_value(p.x), big_value(p.y))
}

impl Point {
    pub fn new(x: num_bigint::BigInt, y: num_bigint::BigInt) -> (r: Self)
        ensures
            pval(r) == (big_value(x), big_value(y)),
    {
        Point { x, y }
    }
}

/// Substitutes the concrete value of 2^128 into a high/low decomposition.
proof fn lemma_halves(hi: u128, lo: u128)
    ensures
        hi * pow2(128) + lo == hi * 340282366920938463463374607431768211456int + lo,
{
    crate::field::lemma_pow2_values();
}

/// Builds the big integer hi * 2^128 + lo.
fn big_from_halves(hi: u128, lo: u128) -> (r: num_bigint::BigInt)
    ensures
        big_value(r) == hi * pow2(128) + lo,
{
    let h = big_from_u128(hi);
    let s = big_shl(&h, 128);
    let low = big_from_u128(lo);
    big_add(&s, &low)
}

/// The curve constant d as a big integer.
pub fn d_const() -> (r: num_bigint::BigInt)
    ensures
        big_value(r) == d_int(),
{
    proof {
        lemma_halves(109014481914921826637217330734730700952, 581746193016579820166537227703777443);
    }
    big_from_halves(
        109014481914921826637217330734730700952u128,
        581746193016579820166537227703777443u128,
    )
}

/// The square root of -1 as a big integer.
pub fn i_const() -> (r: num_bigint::BigInt)
    ensures
        big_value(r) == i_int(),
{
    proof {
        lemma_halves(
            57837735039853669993003572062525839271,
            62822086998211147343238952298832896176,
        );
    }
    big_from_halves(
        57837735039853669993003572062525839271u128,
        62822086998211147343238952298832896176u128,
    )
}

/// The base point B as a `Point`.
pub fn b_point() -> (r: Point)
    ensures
        pval(r) == b_spec(),
{
    proof {
        lemma_halves(
            44410827061887073916105350349541792860,
            139801444470765215774282931664016758042,
        );
        lemma_halves(
            136112946768375385385349842972707284582,
            136112946768375385385349842972707284568,
        );
    }
    let x = big_from_halves(
        44410827061887073916105350349541792860u128,
        139801444470765215774282931664016758042u128,
    );
    let y = big_from_halves(
        136112946768375385385349842972707284582u128,
        136112946768375385385349842972707284568u128,
    );
    Point { x, y }
}

/// The curve equation, on raw coordinates: -x^2 + y^2 - 1 - d*x^2*y^2 is a
/// multiple of q.
pub open spec fn on_curve(x: int, y: int) -> bool {
    (y * y - x * x - 1 - d_int() * (x * x) * (y * y)) % q_int() == 0
}

proof fn lemma_mul3_mod(u: int, a: int, b: int, m: int)
    requires
        m > 0,
    ensures
        (u * (a % m) * (b % m)) % m == (u * a * b) % m,
{
    lemma_mul_mod_noop_general(u * (a % m), b, m);
    assert(u * (a % m) * b == (u * b) * (a % m)) by (nonlinear_arith);
    lemma_mul_mod_noop_general(u * b, a, m);
    assert((u * b) * a == u * a * b) by (nonlinear_arith);
    assert((u * (a % m)) * (b % m) == u * (a % m) * (b % m));
}

/// Whether the point satisfies the curve equation.
pub fn isoncurve(p: &Point) -> (r: bool)
    ensures
        r <==> on_curve(pval(*p).0, pval(*p).1),
{
    proof {
        lemma_q_bounds();
    }
    let ghost xv = big_value(p.x);
    let ghost yv = big_value(p.y);
    let qq = q();
    let d = d_const();
    let one = big_from_u64(1);
    let zero = big_from_u64(0);
    let xsq = big_mul(&p.x, &p.x);
    let x2 = big_rem_euclid(&xsq, &qq);
    let ysq = big_mul(&p.y, &p.y);
    let y2 = big_rem_euclid(&ysq, &qq);
    let t1 = big_sub(&y2, &x2);
    let t2 = big_sub(&t1, &one);
    let dx = big_mul(&d, &x2);
    let dxy = big_mul(&dx, &y2);
    let t3 = big_sub(&t2, &dxy);
    let r = big_rem_euclid(&t3, &qq);
    proof {
        let m = q_int();
        let xx = xv * xv;
        let yy = yv * yv;
        // the reduced squares may replace the raw ones under the final mod
        lemma_mul3_mod(d_int(), xx, yy, m);
        lemma_sub_mod_noop(yy % m, xx % m, m);
        lemma_sub_mod_noop(yy, xx, m);
        assert(((yy % m) - (xx % m)) % m == (yy - xx) % m);
        lemma_sub_mod_noop((yy % m) - (xx % m), 1, m);
        lemma_sub_mod_noop(yy - xx, 1, m);
        assert(((yy % m) - (xx % m) - 1) % m == (yy - xx - 1) % m);
        lemma_sub_mod_noop((yy % m) - (xx % m) - 1, d_int() * (xx % m) * (yy % m), m);
        lemma_sub_mod_noop(yy - xx - 1, d_int() * xx * yy, m);
        assert(big_value(r) == (yy - xx - 1 - d_int() * xx * yy) % m);
    }
    big_eq(&r, &zero)
}

/// The unified Edwards addition law, on raw coordinate pairs:
/// x3 = (x1*y2 + x2*y1) / (1 + d*x1*x2*y1*y2) and
/// y3 = (y1*y2 + x1*x2) / (1 - d*x1*x2*y1*y2), all mod q.
pub open spec fn edwards_spec(p: (int, int), r: (int, int)) -> (int, int) {
    let dx = (d_int() * (p.0 * r.0) * (p.1 * r.1)) % q_int();
    (
        ((p.0 * r.1 + r.0 * p.1) * finv((1 + dx) % q_int())) % q_int(),
        ((p.1 * r.1 + p.0 * r.0) * finv((1 - dx) % q_int())) % q_int(),
    )
}

/// Edwards addition of two points; valid for doubling as well.
pub fn edwards(p: &Point, r_pt: &Point) -> (r: Point)
    ensures
        pval(r) == edwards_spec(pval(*p), pval(*r_pt)),
{
    proof {
        lemma_q_bounds();
    }
    let ghost x1 = big_value(p.x);
    let ghost y1 = big_value(p.y);
    let ghost x2 = big_value(r_pt.x);
    let ghost y2 = big_value(r_pt.y);
    let qq = q();
    let d = d_const();
    let one = big_from_u64(1);
    let p1 = big_mul(&p.x, &r_pt.y);
    let x1y2 = big_rem_euclid(&p1, &qq);
    let p2 = big_mul(&r_pt.x, &p.y);
    let x2y1 = big_rem_euclid(&p2, &qq);
    let tsum = big_add(&x1y2, &x2y1);
    let x_top = big_rem_euclid(&tsum, &qq);
    let p3 = big_mul(&p.y, &r_pt.y);
    let y1y2 = big_rem_euclid(&p3, &qq);
    let p4 = big_mul(&p.x, &r_pt.x);
    let x1x2 = big_rem_euclid(&p4, &qq);
    let p5 = big_mul(&d, &x1x2);
    let p6 = big_mul(&p5, &y1y2);
    let dxx_yy = big_rem_euclid(&p6, &qq);
    let xb = big_add(&one, &dxx_yy);
    let x_bot = big_rem_euclid(&xb, &qq);
    let yb = big_sub(&one, &dxx_yy);
    let y_bot = big_rem_euclid(&yb, &qq);
    let ix = inv(&x_bot);
    let p7 = big_mul(&x_top, &ix);
    let x3 = big_rem_euclid(&p7, &qq);
    let ysum = big_add(&y1y2, &x1x2);
    let y_top = big_rem_euclid(&ysum, &qq);
    let iy = inv(&y_bot);
    let p8 = big_mul(&y_top, &iy);
    let y3 = big_rem_euclid(&p8, &qq);
    proof {
        let m = q_int();
        lemma_mul3_mod(d_int(), x1 * x2, y1 * y2, m);
        assert(big_value(dxx_yy) == (d_int() * (x1 * x2) * (y1 * y2)) % m);
        let dx = (d_int() * (x1 * x2) * (y1 * y2)) % m;
        lemma_add_mod_noop(x1 * y2, x2 * y1, m);
        assert(big_value(x_top) == (x1 * y2 + x2 * y1) % m);
        lemma_mul_mod_noop_general(x1 * y2 + x2 * y1, finv((1 + dx) % m), m);
        assert(big_value(x3) == ((x1 * y2 + x2 * y1) * finv((1 + dx) % m)) % m);
        lemma_add_mod_noop(y1 * y2, x1 * x2, m);
        assert(big_value(y_top) == (y1 * y2 + x1 * x2) % m);
        lemma_mul_mod_noop_general(y1 * y2 + x1 * x2, finv((1 - dx) % m), m);
        assert(big_value(y3) == ((y1 * y2 + x1 * x2) * finv((1 - dx) % m)) % m);
    }
    Point { x: x3, y: y3 }
}

/// Double-and-add scalar multiplication, working from the least-significant
/// bit of the scalar upward: `acc` collects the result, `p` is doubled at
/// each step.
pub open spec fn smul_acc(acc: (int, int), p: (int, int), n: int) -> (int, int)
    decreases n,
{
    if n <= 0 {
        acc
    } else {
        smul_acc(
            if n % 2 == 1 {
                edwards_spec(acc, p)
            } else {
                acc
            },
            edwards_spec(p, p),
            n / 2,
        )
    }
}

/// Scalar multiplication n * p, starting from the neutral point (0, 1).
pub open spec fn smul(p: (int, int), n: int) -> (int, int) {
    smul_acc((0, 1), p, n)
}

/// Scalar multiplication by double-and-add.  A zero scalar yields the
/// neutral point (0, 1).
pub fn scalarmult(p: &Point, e: &num_bigint::BigInt) -> (r: Point)
    requires
        big_value(*e) >= 0,
    ensures
        pval(r) == smul(pval(*p), big_value(*e)),
{
    let ghost p0 = pval(*p);
    let ghost e0 = big_value(*e);
    let mut n = big_clone(e);
    let mut q_point = Point { x: big_from_u64(0), y: big_from_u64(1) };
    let mut base = Point { x: big_clone(&p.x), y: big_clone(&p.y) };
    let zero = big_from_u64(0);
    while big_lt(&zero, &n)
        invariant
            big_value(zero) == 0,
            big_value(n) >= 0,
            smul_acc(pval(q_point), pval(base), big_value(n)) == smul(p0, e0),
        decreases big_value(n),
    {
        if big_is_odd(&n) {
            q_point = edwards(&q_point, &base);
        }
        base = edwards(&base, &base);
        n = big_shr1(&n);
    }
    q_point
}

/// The x-recovery procedure: the candidate root of
/// xx = (y^2 - 1)/(d*y^2 + 1) via the power (q+3)/8, corrected by the square
/// root of -1 when the candidate misses, and then negated to even parity.
pub open spec fn xrecover_spec(y: int) -> int {
    let m = q_int();
    let yy = (y * y) % m;
    let xx = (((yy - 1) % m) * finv((d_int() * yy + 1) % m)) % m;
    let x0 = pow(xx, ((m + 3) / 8) as nat) % m;
    let x1 = if (x0 * x0 - xx) % m != 0 {
        (x0 * i_int()) % m
    } else {
        x0
    };
    if x1 % 2 == 1 {
        m - x1
    } else {
        x1
    }
}

/// Recovers an x-coordinate with even parity from a y-coordinate.
pub fn xrecover(y: &num_bigint::BigInt) -> (r: num_bigint::BigInt)
    ensures
        big_value(r) == xrecover_spec(big_value(*y)),
        0 <= big_value(r) < q_int(),
        big_value(r) % 2 == 0,
{
    proof {
        lemma_q_bounds();
    }
    let ghost yv = big_value(*y);
    let qq = q();
    let d = d_const();
    let one = big_from_u64(1);
    let zero = big_from_u64(0);
    let ysq = big_mul(y, y);
    let yy = big_rem_euclid(&ysq, &qq);
    let nm = big_sub(&yy, &one);
    let num = big_rem_euclid(&nm, &qq);
    let dy = big_mul(&d, &yy);
    let dn = big_add(&dy, &one);
    let den = big_rem_euclid(&dn, &qq);
    let iden = inv(&den);
    let xp = big_mul(&num, &iden);
    let xx = big_rem_euclid(&xp, &qq);
    let three = big_from_u64(3);
    let eight = big_from_u64(8);
    let q3 = big_add(&qq, &three);
    let e38 = big_div(&q3, &eight);
    proof {
        assert(big_value(e38) >= 0) by {
            vstd::arithmetic::div_mod::lemma_div_pos_is_pos(q_int() + 3, 8);
        }
    }
    let mut x = expmod(&xx, &e38, &qq);
    let xsq = big_mul(&x, &x);
    let df = big_sub(&xsq, &xx);
    let chk = big_rem_euclid(&df, &qq);
    if !big_eq(&chk, &zero) {
        let ic = i_const();
        let xi = big_mul(&x, &ic);
        x = big_rem_euclid(&xi, &qq);
    }
    if big_is_odd(&x) {
        x = big_sub(&qq, &x);
    }
    x
}

/// Law: multiplying any point by the scalar zero yields the neutral point.
pub proof fn lemma_smul_zero(p: (int, int))
    ensures
        smul(p, 0) == (0int, 1int),
{
}

/// Law: adding the neutral point (0, 1) to a point with reduced coordinates
/// returns that point unchanged.
pub proof fn lemma_edwards_neutral(x: int, y: int)
    requires
        0 <= x < q_int(),
        0 <= y < q_int(),
    ensures
        edwards_spec((x, y), (0int, 1int)) == (x, y),
{
    lemma_q_bounds();
    let m = q_int();
    assert(d_int() * (x * 0) * (y * 1) == 0) by (nonlinear_arith);
    assert(0int % m == 0) by {
        lemma_small_mod(0, m as nat);
    }
    assert(1int % m == 1) by {
        lemma_small_mod(1, m as nat);
    }
    assert(finv(1) == 1) by {
        vstd::arithmetic::power::lemma1_pow((m - 2) as nat);
        lemma_small_mod(1, m as nat);
    }
    assert((x * 1 + 0 * y) == x);
    assert((y * 1 + x * 0) == y);
    lemma_small_mod(x as nat, m as nat);
    lemma_small_mod(y as nat, m as nat);
}

/// Every coordinate produced by the addition law is reduced into [0, q).
pub proof fn lemma_edwards_range(p: (int, int), r: (int, int))
    ensures
        0 <= edwards_spec(p, r).0 < q_int(),
        0 <= edwards_spec(p, r).1 < q_int(),
{
    lemma_q_bounds();
}

/// Every coordinate produced by scalar multiplication from a reduced
/// accumulator is reduced into [0, q).
pub proof fn lemma_smul_acc_range(acc: (int, int), p: (int, int), n: int)
    requires
        0 <= acc.0 < q_int(),
        0 <= acc.1 < q_int(),
    ensures
        0 <= smul_acc(acc, p, n).0 < q_int(),
        0 <= smul_acc(acc, p, n).1 < q_int(),
    decreases n,
{
    if n <= 0 {
    } else {
        let next = if n % 2 == 1 {
            edwards_spec(acc, p)
        } else {
            acc
        };
        lemma_edwards_range(acc, p);
        lemma_smul_acc_range(next, edwards_spec(p, p), n / 2);
    }
}

/// The result of scalar multiplication has reduced coordinates.
pub proof fn lemma_smul_range(p: (int, int), n: int)
    ensures
        0 <= smul(p, n).0 < q_int(),
        0 <= smul(p, n).1 < q_int(),
{
    lemma_q_bounds();
    lemma_smul_acc_range((0, 1), p, n);
}

} // verus!
