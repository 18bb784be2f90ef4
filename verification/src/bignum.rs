//! A signed arbitrary-precision integer built from 64-bit little-endian
//! limbs, with comparison, addition, subtraction, multiplication, shifting
//! and long division on magnitudes, and hex parsing.
use vstd::prelude::*;

verus! {

use vstd::arithmetic::power2::{lemma2_to64, lemma_pow2_adds, lemma_pow2_strictly_increases, pow2};
use vstd::string::StringSliceAdditionalSpecFns;

/// A signed big integer: `sign` is true for negative values, and `vals`
/// holds little-endian 64-bit limbs (index 0 least significant).
#[derive(Clone, Debug, PartialEq, Eq)]
pub struct ix {
    pub sign: bool,
    pub vals: Vec<u64>,
}

/// The magnitude denoted by little-endian limbs.
pub open spec fn mag_value(s: Seq<u64>) -> nat
    decreases s.len(),
{
    if s.len() == 0 {
        0
    } else {
        s[0] as nat + pow2(64) * mag_value(s.skip(1))
    }
}

/// Normalized limbs: no trailing zero limb.
pub open spec fn mag_wf(s: Seq<u64>) -> bool {
    s.len() == 0 || s[s.len() - 1] != 0
}

/// A well-formed big integer: normalized limbs, and zero is not negative.
pub open spec fn ix_wf(x: ix) -> bool {
    mag_wf(x.vals@) && (x.vals@.len() == 0 ==> x.sign == false)
}

/// The signed integer an `ix` denotes.
pub open spec fn ix_value(x: ix) -> int {
    if x.sign {
        -(mag_value(x.vals@) as int)
    } else {
        mag_value(x.vals@) as int
    }
}

/// Appending a limb adds its value scaled by the previous length.
pub proof fn lemma_mag_append(s: Seq<u64>, v: u64)
    ensures
        mag_value(s.push(v)) == mag_value(s) + pow2(64 * s.len()) * v,
    decreases s.len(),
{
    if s.len() == 0 {
        assert(s.push(v).skip(1) =~= Seq::<u64>::empty());
        assert(s.push(v)[0] == v);
        lemma2_to64();
        assert(mag_value(Seq::<u64>::empty()) == 0);
    } else {
        assert(s.push(v).skip(1) =~= s.skip(1).push(v));
        lemma_mag_append(s.skip(1), v);
        let p = pow2(64 * (s.len() - 1) as nat);
        assert(mag_value(s.push(v)) == s[0] + pow2(64) * (mag_value(s.skip(1)) + p * v));
        assert(pow2(64) * (mag_value(s.skip(1)) + p * v) == pow2(64) * mag_value(s.skip(1)) + (
        pow2(64) * p) * v) by (nonlinear_arith);
        assert(pow2(64) * p == pow2(64 * s.len())) by {
            lemma_pow2_adds(64, (64 * (s.len() - 1)) as nat);
        }
    }
}

/// One more limb of a prefix adds that limb scaled by the prefix length.
pub proof fn lemma_mag_take_step(s: Seq<u64>, i: int)
    requires
        0 <= i < s.len(),
    ensures
        mag_value(s.take(i + 1)) == mag_value(s.take(i)) + pow2((64 * i) as nat) * s[i],
{
    assert(s.take(i + 1) =~= s.take(i).push(s[i]));
    lemma_mag_append(s.take(i), s[i]);
}

/// Every limb string underestimates its length's capacity.
pub proof fn lemma_mag_upper(s: Seq<u64>)
    ensures
        mag_value(s) < pow2(64 * s.len()),
    decreases s.len(),
{
    if s.len() == 0 {
        lemma2_to64();
    } else {
        lemma_mag_upper(s.skip(1));
        lemma2_to64();
        let p = pow2((64 * (s.len() - 1)) as nat);
        assert(mag_value(s.skip(1)) + 1 <= p);
        assert(pow2(64) * mag_value(s.skip(1)) + pow2(64) <= pow2(64) * p) by (nonlinear_arith)
            requires
                mag_value(s.skip(1)) + 1 <= p,
                pow2(64) > 0,
        ;
        assert(pow2(64) * p == pow2(64 * s.len())) by {
            lemma_pow2_adds(64, (64 * (s.len() - 1)) as nat);
        }
        assert(s[0] < pow2(64)) by {
            lemma2_to64();
        }
    }
}

/// A limb string with a non-zero top limb reaches its next-to-last
/// length's capacity.
pub proof fn lemma_mag_top(s: Seq<u64>)
    requires
        s.len() >= 1,
        s[s.len() - 1] != 0,
    ensures
        mag_value(s) >= pow2((64 * (s.len() - 1)) as nat),
    decreases s.len(),
{
    if s.len() == 1 {
        lemma2_to64();
    } else {
        lemma_mag_top(s.skip(1));
        lemma2_to64();
        let p = pow2((64 * (s.len() - 2)) as nat);
        assert(pow2(64) * mag_value(s.skip(1)) >= pow2(64) * p) by (nonlinear_arith)
            requires
                mag_value(s.skip(1)) >= p,
                pow2(64) > 0,
        ;
        assert(pow2(64) * p == pow2((64 * (s.len() - 1)) as nat)) by {
            lemma_pow2_adds(64, (64 * (s.len() - 2)) as nat);
        }
    }
}

/// Splitting a limb string at any index splits its value.
pub proof fn lemma_mag_split(s: Seq<u64>, i: int)
    requires
        0 <= i <= s.len(),
    ensures
        mag_value(s) == mag_value(s.take(i)) + pow2((64 * i) as nat) * mag_value(s.skip(i)),
    decreases i,
{
    if i == 0 {
        assert(s.take(0) =~= Seq::<u64>::empty());
        assert(s.skip(0) =~= s);
        lemma2_to64();
    } else {
        lemma_mag_split(s, i - 1);
        lemma_mag_take_step(s, i - 1);
        let p = pow2((64 * (i - 1)) as nat);
        assert(s.skip(i - 1)[0] == s[i - 1]);
        assert(s.skip(i - 1).skip(1) =~= s.skip(i));
        assert(mag_value(s.skip(i - 1)) == s[i - 1] + pow2(64) * mag_value(s.skip(i)));
        assert(p * (s[i - 1] + pow2(64) * mag_value(s.skip(i))) == p * s[i - 1] + (p * pow2(64))
            * mag_value(s.skip(i))) by (nonlinear_arith);
        assert(p * pow2(64) == pow2((64 * i) as nat)) by {
            lemma_pow2_adds((64 * (i - 1)) as nat, 64);
        }
    }
}

/// Changing one limb changes the value by the difference scaled by the
/// limb's position.
pub proof fn lemma_mag_update(s: Seq<u64>, i: int, c: u64)
    requires
        0 <= i < s.len(),
    ensures
        mag_value(s.update(i, c)) == mag_value(s) + (c - s[i]) * pow2((64 * i) as nat),
    decreases i,
{
    let u = s.update(i, c);
    if i == 0 {
        assert(u.skip(1) =~= s.skip(1));
        lemma2_to64();
    } else {
        assert(u[0] == s[0]);
        assert(u.skip(1) =~= s.skip(1).update(i - 1, c));
        lemma_mag_update(s.skip(1), i - 1, c);
        let p = pow2((64 * (i - 1)) as nat);
        let dlt = c - s[i];
        assert(mag_value(u) == s[0] + pow2(64) * (mag_value(s.skip(1)) + dlt * p));
        assert(pow2(64) * (mag_value(s.skip(1)) as int + dlt * p) == pow2(64) * mag_value(s.skip(1))
            + dlt * (pow2(64) * p)) by (nonlinear_arith);
        assert(pow2(64) * p == pow2((64 * i) as nat)) by {
            lemma_pow2_adds(64, (64 * (i - 1)) as nat);
        }
    }
}

/// Among equal-length limb strings that agree above index `i`, a larger
/// limb at `i` means a larger value.
pub proof fn lemma_mag_cmp_at(s: Seq<u64>, t: Seq<u64>, i: int)
    requires
        s.len() == t.len(),
        0 <= i < s.len(),
        s[i] > t[i],
        forall|j: int| i < j < s.len() ==> s[j] == t[j],
    ensures
        mag_value(s) > mag_value(t),
{
    lemma_mag_split(s, i + 1);
    lemma_mag_split(t, i + 1);
    assert(s.skip(i + 1) =~= t.skip(i + 1));
    lemma_mag_take_step(s, i);
    lemma_mag_take_step(t, i);
    let p = pow2((64 * i) as nat);
    lemma_mag_upper(s.take(i));
    lemma_mag_upper(t.take(i));
    assert(p * s[i] >= p * (t[i] + 1)) by (nonlinear_arith)
        requires
            s[i] >= t[i] + 1,
            p > 0,
    ;
    assert(p * (t[i] + 1) == p * t[i] + p) by (nonlinear_arith);
    assert(pow2((64 * (i + 1)) as nat) * mag_value(s.skip(i + 1)) == pow2((64 * (i + 1)) as nat)
        * mag_value(t.skip(i + 1)));
}

/// Well-formed limb strings of different lengths order by length.
pub proof fn lemma_mag_longer(s: Seq<u64>, t: Seq<u64>)
    requires
        s.len() > t.len(),
        mag_wf(s),
    ensures
        mag_value(s) > mag_value(t),
{
    lemma_mag_top(s);
    lemma_mag_upper(t);
    if 64 * t.len() < 64 * (s.len() - 1) {
        lemma_pow2_strictly_increases((64 * t.len()) as nat, (64 * (s.len() - 1)) as nat);
    }
}

/// A normalized non-empty limb string denotes a positive value.
pub proof fn lemma_mag_positive(s: Seq<u64>)
    requires
        s.len() >= 1,
        mag_wf(s),
    ensures
        mag_value(s) >= 1,
{
    lemma_mag_top(s);
    vstd::arithmetic::power2::lemma_pow2_pos((64 * (s.len() - 1)) as nat);
}

/// Drops trailing zero limbs in place; the value is unchanged.
fn normalize_vals(v: &mut Vec<u64>)
    ensures
        mag_value(final (v)@) == mag_value(old(v)@),
        mag_wf(final (v)@),
        final (v)@.len() <= old(v)@.len(),
{
    while v.len() > 0 && v[v.len() - 1] == 0
        invariant
            mag_value(v@) == mag_value(old(v)@),
            v@.len() <= old(v)@.len(),
        decreases v@.len(),
    {
        proof {
            lemma_mag_take_step(v@, v@.len() - 1);
            assert(v@.take(v@.len() - 1 + 1) =~= v@);
            assert(pow2((64 * (v@.len() - 1)) as nat) * (v@[v@.len() - 1] as int) == 0);
        }
        v.pop();
    }
}

/// The limb at an index, with zero beyond the end.
pub open spec fn limb_at(s: Seq<u64>, i: int) -> u64 {
    if 0 <= i < s.len() {
        s[i]
    } else {
        0
    }
}

/// The value of the first `i` limbs; past the end, the whole value.
pub open spec fn prefix_mag(s: Seq<u64>, i: int) -> nat {
    if i <= s.len() {
        mag_value(s.take(i))
    } else {
        mag_value(s)
    }
}

proof fn lemma_prefix_step(s: Seq<u64>, i: int)
    requires
        0 <= i,
    ensures
        prefix_mag(s, i + 1) == prefix_mag(s, i) + pow2((64 * i) as nat) * limb_at(s, i),
{
    if i < s.len() {
        lemma_mag_take_step(s, i);
    } else {
        if i == s.len() {
            assert(s.take(i) =~= s);
        }
        assert(limb_at(s, i) == 0);
        assert(pow2((64 * i) as nat) * (limb_at(s, i) as nat) == 0) by (nonlinear_arith)
            requires
                limb_at(s, i) == 0,
        ;
    }
}

proof fn lemma_prefix_full(s: Seq<u64>, i: int)
    requires
        i >= s.len(),
    ensures
        prefix_mag(s, i) == mag_value(s),
{
    if i == s.len() {
        assert(s.take(i) =~= s);
    }
}

/// The zero value.
pub fn zero_ix() -> (r: ix)
    ensures
        ix_value(r) == 0,
        ix_wf(r),
{
    ix { sign: false, vals: Vec::new() }
}

/// A big integer holding a machine word.
pub fn u64_to_ix(val: u64) -> (r: ix)
    ensures
        ix_value(r) == val,
        ix_wf(r),
{
    if val == 0 {
        zero_ix()
    } else {
        let mut vals: Vec<u64> = Vec::new();
        vals.push(val);
        proof {
            assert(vals@.skip(1) =~= Seq::<u64>::empty());
            assert(mag_value(vals@.skip(1)) == 0);
            assert(vals@[0] == val);
            assert(mag_value(vals@) == val + pow2(64) * 0);
        }
        ix { sign: false, vals }
    }
}

/// Magnitude comparison: true when the first operand is at least the
/// second.  Both operands must be normalized.
pub fn gte_mag(a_vals: &Vec<u64>, b_vals: &Vec<u64>) -> (r: bool)
    requires
        mag_wf(a_vals@),
        mag_wf(b_vals@),
    ensures
        r <==> mag_value(a_vals@) >= mag_value(b_vals@),
{
    let n = a_vals.len();
    if n != b_vals.len() {
        proof {
            if a_vals@.len() > b_vals@.len() {
                lemma_mag_longer(a_vals@, b_vals@);
            } else {
                lemma_mag_longer(b_vals@, a_vals@);
            }
        }
        return n > b_vals.len();
    }
    let mut i: usize = n;
    while i > 0
        invariant
            i <= n,
            n == a_vals@.len(),
            n == b_vals@.len(),
            forall|j: int| i <= j < n ==> a_vals@[j] == b_vals@[j],
        decreases i,
    {
        let idx = i - 1;
        if a_vals[idx] > b_vals[idx] {
            proof {
                lemma_mag_cmp_at(a_vals@, b_vals@, idx as int);
            }
            return true;
        }
        if a_vals[idx] < b_vals[idx] {
            proof {
                lemma_mag_cmp_at(b_vals@, a_vals@, idx as int);
            }
            return false;
        }
        i = idx;
    }
    proof {
        assert(a_vals@ =~= b_vals@);
    }
    true
}

/// Magnitude comparison with a three-way result: -1 for less, 0 for equal,
/// 1 for greater.  Both operands must be normalized.
pub fn cmp_mag(a_vals: &Vec<u64>, b_vals: &Vec<u64>) -> (r: i8)
    requires
        mag_wf(a_vals@),
        mag_wf(b_vals@),
    ensures
        r == -1 <==> mag_value(a_vals@) < mag_value(b_vals@),
        r == 0 <==> mag_value(a_vals@) == mag_value(b_vals@),
        r == 1 <==> mag_value(a_vals@) > mag_value(b_vals@),
{
    let n = a_vals.len();
    if n != b_vals.len() {
        proof {
            if a_vals@.len() > b_vals@.len() {
                lemma_mag_longer(a_vals@, b_vals@);
            } else {
                lemma_mag_longer(b_vals@, a_vals@);
            }
        }
        if n < b_vals.len() {
            return -1;
        } else {
            return 1;
        }
    }
    let mut i: usize = n;
    while i > 0
        invariant
            i <= n,
            n == a_vals@.len(),
            n == b_vals@.len(),
            forall|j: int| i <= j < n ==> a_vals@[j] == b_vals@[j],
        decreases i,
    {
        let idx = i - 1;
        if a_vals[idx] < b_vals[idx] {
            proof {
                lemma_mag_cmp_at(b_vals@, a_vals@, idx as int);
            }
            return -1;
        }
        if a_vals[idx] > b_vals[idx] {
            proof {
                lemma_mag_cmp_at(a_vals@, b_vals@, idx as int);
            }
            return 1;
        }
        i = idx;
    }
    proof {
        assert(a_vals@ =~= b_vals@);
    }
    0
}

/// Copies a limb vector.
fn copy_limbs(v: &Vec<u64>) -> (r: Vec<u64>)
    ensures
        r@ == v@,
{
    let mut out: Vec<u64> = Vec::new();
    let mut i: usize = 0;
    while i < v.len()
        invariant
            i <= v@.len(),
            out@ == v@.take(i as int),
        decreases v@.len() - i,
    {
        let limb = v[i];
        out.push(limb);
        i = i + 1;
        proof {
            assert(v@.take(i - 1).push(v@[i - 1]) =~= v@.take(i as int));
        }
    }
    proof {
        assert(v@.take(v@.len() as int) =~= v@);
    }
    out
}

/// Adds two little-endian magnitudes.
#[verifier::rlimit(30)]
pub fn add_mag(aug_vals: &Vec<u64>, add_vals: &Vec<u64>) -> (r: Vec<u64>)
    ensures
        mag_value(r@) == mag_value(aug_vals@) + mag_value(add_vals@),
        mag_wf(r@),
{
    let mut out: Vec<u64> = Vec::new();
    let mut carry: u128 = 0;
    let n = if aug_vals.len() > add_vals.len() {
        aug_vals.len()
    } else {
        add_vals.len()
    };
    let mut i: usize = 0;
    while i < n
        invariant
            i <= n,
            aug_vals@.len() <= n,
            add_vals@.len() <= n,
            out@.len() == i,
            carry <= 1,
            mag_value(out@) + carry * pow2((64 * i) as nat) == prefix_mag(aug_vals@, i as int)
                + prefix_mag(add_vals@, i as int),
        decreases n - i,
    {
        let a: u128 = if i < aug_vals.len() {
            aug_vals[i] as u128
        } else {
            0
        };
        let b: u128 = if i < add_vals.len() {
            add_vals[i] as u128
        } else {
            0
        };
        let sum: u128 = a + b + carry;
        let limb: u64 = (sum & 0xFFFF_FFFF_FFFF_FFFFu128) as u64;
        let new_carry: u128 = sum >> 64;
        proof {
            lemma2_to64();
            assert(sum & 0xFFFF_FFFF_FFFF_FFFFu128 == sum % 0x1_0000_0000_0000_0000u128)
                by (bit_vector);
            assert(sum >> 64u128 == sum / 0x1_0000_0000_0000_0000u128) by (bit_vector);
            lemma_mag_append(out@, limb);
            lemma_prefix_step(aug_vals@, i as int);
            lemma_prefix_step(add_vals@, i as int);
            lemma_pow2_adds((64 * i) as nat, 64);
            let bb = pow2(64) as int;
            let p = pow2((64 * i) as nat) as int;
            let p1 = pow2((64 * (i + 1)) as nat) as int;
            let mo = mag_value(out@) as int;
            let la = a as int;
            let lb = b as int;
            let c = carry as int;
            let sm = sum as int;
            let nc = new_carry as int;
            assert(mo + p * (limb as int) + nc * p1 == (mo + c * p) + p * la + p * lb)
                by (nonlinear_arith)
                requires
                    sm == la + lb + c,
                    sm == bb * nc + (limb as int),
                    p1 == p * bb,
            ;
        }
        out.push(limb);
        carry = new_carry;
        i = i + 1;
    }
    proof {
        lemma_prefix_full(aug_vals@, n as int);
        lemma_prefix_full(add_vals@, n as int);
    }
    if carry != 0 {
        proof {
            lemma_mag_append(out@, carry as u64);
            assert(carry == 1);
            let pa = pow2((64 * out@.len()) as nat) as int;
            let ca = ((carry as u64) as nat) as int;
            let ci = carry as int;
            let pn = pow2((64 * n) as nat) as int;
            assert(pa * ca == ci * pn) by (nonlinear_arith)
                requires
                    pa == pn,
                    ca == 1,
                    ci == 1,
            ;
        }
        out.push(carry as u64);
    } else {
        proof {
            let zc = carry as int;
            assert(zc * pow2((64 * n) as nat) == 0) by (nonlinear_arith)
                requires
                    zc == 0,
            ;
        }
    }
    normalize_vals(&mut out);
    out
}

/// Subtracts the second magnitude from the first; the first must be at
/// least the second, and the second normalized.
pub fn sub_mag(min_vals: &Vec<u64>, sub_vals: &Vec<u64>) -> (r: Vec<u64>)
    requires
        mag_wf(sub_vals@),
        mag_value(sub_vals@) <= mag_value(min_vals@),
    ensures
        mag_value(r@) == mag_value(min_vals@) - mag_value(sub_vals@),
        mag_wf(r@),
        r@.len() <= min_vals@.len(),
{
    proof {
        if sub_vals@.len() > min_vals@.len() {
            lemma_mag_longer(sub_vals@, min_vals@);
        }
    }
    let mut out: Vec<u64> = Vec::new();
    let mut borrow: i128 = 0;
    let n = min_vals.len();
    let mut i: usize = 0;
    while i < n
        invariant
            i <= n,
            n == min_vals@.len(),
            sub_vals@.len() <= n,
            out@.len() == i,
            0 <= borrow <= 1,
            mag_value(out@) as int == prefix_mag(min_vals@, i as int) - prefix_mag(
                sub_vals@,
                i as int,
            ) + borrow * pow2((64 * i) as nat),
        decreases n - i,
    {
        let a: i128 = min_vals[i] as i128;
        let b: i128 = if i < sub_vals.len() {
            sub_vals[i] as i128
        } else {
            0
        };
        let mut cur: i128 = a - b - borrow;
        let mut nb: i128 = 0;
        proof {
            lemma2_to64();
        }
        if cur < 0 {
            cur = cur + 0x1_0000_0000_0000_0000i128;
            nb = 1;
        }
        let limb: u64 = cur as u64;
        proof {
            lemma_mag_append(out@, limb);
            lemma_prefix_step(min_vals@, i as int);
            lemma_prefix_step(sub_vals@, i as int);
            lemma_pow2_adds((64 * i) as nat, 64);
            let bb = pow2(64) as int;
            let p = pow2((64 * i) as nat) as int;
            let p1 = pow2((64 * (i + 1)) as nat) as int;
            let mo = mag_value(out@) as int;
            let la = a as int;
            let lb = b as int;
            let w = borrow as int;
            let w2 = nb as int;
            let pm = prefix_mag(min_vals@, i as int) as int;
            let ps = prefix_mag(sub_vals@, i as int) as int;
            assert(mo + p * (limb as int) == (pm + p * la) - (ps + p * lb) + w2 * p1)
                by (nonlinear_arith)
                requires
                    mo == pm - ps + w * p,
                    (limb as int) == la - lb - w + w2 * bb,
                    p1 == p * bb,
            ;
        }
        out.push(limb);
        borrow = nb;
        i = i + 1;
    }
    proof {
        lemma_prefix_full(min_vals@, n as int);
        lemma_prefix_full(sub_vals@, n as int);
        if borrow == 1 {
            lemma_mag_upper(out@);
        }
    }
    normalize_vals(&mut out);
    out
}

/// Sign-aware addition of two big integers.
pub fn add_ix(a: &ix, b: &ix) -> (r: ix)
    requires
        ix_wf(*a),
        ix_wf(*b),
    ensures
        ix_value(r) == ix_value(*a) + ix_value(*b),
        ix_wf(r),
{
    if a.vals.len() == 0 {
        return ix { sign: b.sign, vals: copy_limbs(&b.vals) };
    }
    if b.vals.len() == 0 {
        return ix { sign: a.sign, vals: copy_limbs(&a.vals) };
    }
    proof {
        lemma_mag_positive(a.vals@);
        lemma_mag_positive(b.vals@);
    }
    if a.sign == b.sign {
        let vals = add_mag(&a.vals, &b.vals);
        let mut res = ix { sign: a.sign, vals };
        if res.vals.len() == 0 {
            res.sign = false;
        }
        res
    } else {
        if gte_mag(&a.vals, &b.vals) {
            let vals = sub_mag(&a.vals, &b.vals);
            let mut res = ix { sign: a.sign, vals };
            if res.vals.len() == 0 {
                res.sign = false;
            }
            proof {
                if res.vals@.len() == 0 {
                    assert(mag_value(res.vals@) == 0);
                }
            }
            res
        } else {
            let vals = sub_mag(&b.vals, &a.vals);
            let mut res = ix { sign: b.sign, vals };
            if res.vals.len() == 0 {
                res.sign = false;
            }
            res
        }
    }
}

/// Sign-aware subtraction of two big integers.
pub fn sub_ix(a: &ix, b: &ix) -> (r: ix)
    requires
        ix_wf(*a),
        ix_wf(*b),
    ensures
        ix_value(r) == ix_value(*a) - ix_value(*b),
        ix_wf(r),
{
    let neg = ix {
        sign: if b.vals.len() == 0 {
            false
        } else {
            !b.sign
        },
        vals: copy_limbs(&b.vals),
    };
    add_ix(a, &neg)
}

/// Schoolbook multiplication of two big integers.
pub fn mul_ix(a: &ix, b: &ix) -> (r: ix)
    requires
        ix_wf(*a),
        ix_wf(*b),
        a.vals@.len() + b.vals@.len() <= usize::MAX,
    ensures
        ix_value(r) == ix_value(*a) * ix_value(*b),
        ix_wf(r),
{
    if a.vals.len() == 0 || b.vals.len() == 0 {
        proof {
            assert(ix_value(*a) * ix_value(*b) == 0) by (nonlinear_arith)
                requires
                    ix_value(*a) == 0 || ix_value(*b) == 0,
            ;
        }
        return zero_ix();
    }
    let n = a.vals.len();
    let m = b.vals.len();
    let mut out: Vec<u64> = Vec::new();
    let mut z: usize = 0;
    while z < n + m
        invariant
            z <= n + m,
            n + m <= usize::MAX,
            out@.len() == z,
            mag_value(out@) == 0,
            forall|jj: int| 0 <= jj < z ==> out@[jj] == 0,
        decreases n + m - z,
    {
        proof {
            lemma_mag_append(out@, 0);
        }
        out.push(0);
        z = z + 1;
    }
    let ghost av = a.vals@;
    let ghost bv = b.vals@;
    let mut i: usize = 0;
    proof {
        assert(av.take(0) =~= Seq::<u64>::empty());
        assert(mag_value(av.take(0)) * mag_value(bv) == 0) by (nonlinear_arith)
            requires
                mag_value(av.take(0)) == 0,
        ;
    }
    while i < n
        invariant
            i <= n,
            n == av.len(),
            m == bv.len(),
            m >= 1,
            av == a.vals@,
            bv == b.vals@,
            n + m <= usize::MAX,
            out@.len() == n + m,
            mag_value(out@) == mag_value(av.take(i as int)) * mag_value(bv),
            forall|jj: int| i + m <= jj < n + m ==> out@[jj] == 0,
        decreases n - i,
    {
        let ai = a.vals[i];
        let mut carry: u128 = 0;
        let mut j: usize = 0;
        proof {
            assert(bv.take(0) =~= Seq::<u64>::empty());
            lemma2_to64();
            let zc: int = 0;
            assert(zc * pow2((64 * (i + 0)) as nat) == 0 && (ai as nat) * mag_value(bv.take(0))
                * pow2((64 * i) as nat) == 0) by (nonlinear_arith)
                requires
                    mag_value(bv.take(0)) == 0,
                    zc == 0,
            ;
        }
        while j < m
            invariant
                j <= m,
                i < n,
                n == av.len(),
                m == bv.len(),
                av == a.vals@,
                bv == b.vals@,
                ai == av[i as int],
                n + m <= usize::MAX,
                out@.len() == n + m,
                carry < pow2(64),
                mag_value(out@) + carry * pow2((64 * (i + j)) as nat) == mag_value(
                    av.take(i as int),
                ) * mag_value(bv) + (ai as nat) * mag_value(bv.take(j as int)) * pow2(
                    (64 * i) as nat,
                ),
                forall|jj: int| i + m <= jj < n + m ==> out@[jj] == 0,
            decreases m - j,
        {
            let idx = i + j;
            let bj = b.vals[j];
            let o = out[idx];
            proof {
                lemma2_to64();
                assert((ai as int) * (bj as int) <= (pow2(64) - 1) * (pow2(64) - 1))
                    by (nonlinear_arith)
                    requires
                        0 <= ai as int <= pow2(64) - 1,
                        0 <= bj as int <= pow2(64) - 1,
                ;
            }
            let prod: u128 = (ai as u128) * (bj as u128) + (o as u128) + carry;
            let limb: u64 = (prod & 0xFFFF_FFFF_FFFF_FFFFu128) as u64;
            let new_carry: u128 = prod >> 64;
            proof {
                assert(prod & 0xFFFF_FFFF_FFFF_FFFFu128 == prod % 0x1_0000_0000_0000_0000u128)
                    by (bit_vector);
                assert(prod >> 64u128 == prod / 0x1_0000_0000_0000_0000u128) by (bit_vector);
                lemma_mag_update(out@, idx as int, limb);
                lemma_mag_take_step(bv, j as int);
                lemma_pow2_adds((64 * (i + j)) as nat, 64);
                lemma_pow2_adds((64 * i) as nat, (64 * j) as nat);
                let bb = pow2(64) as int;
                let p = pow2((64 * (i + j)) as nat) as int;
                let p1 = pow2((64 * (i + j + 1)) as nat) as int;
                let pi = pow2((64 * i) as nat) as int;
                let pj = pow2((64 * j) as nat) as int;
                let mo = mag_value(out@) as int;
                let c = carry as int;
                let nc = new_carry as int;
                let pr = prod as int;
                let ab = mag_value(av.take(i as int)) * mag_value(bv) as int;
                let bt = mag_value(bv.take(j as int)) as int;
                let bt1 = mag_value(bv.take(j + 1)) as int;
                assert((mo + (limb - o) * p) + nc * p1 == (mo + c * p) + ((ai as int) * (
                bj as int)) * p) by (nonlinear_arith)
                    requires
                        pr == bb * nc + (limb as int),
                        pr == (ai as int) * (bj as int) + o + c,
                        p1 == p * bb,
                ;
                assert(((ai as int) * (bj as int)) * p == (ai as int) * (pj * (bj as int)) * pi)
                    by (nonlinear_arith)
                    requires
                        p == pi * pj,
                ;
                assert((ai as int) * bt * pi + (ai as int) * (pj * (bj as int)) * pi == (ai as int)
                    * bt1 * pi) by (nonlinear_arith)
                    requires
                        bt1 == bt + pj * (bj as int),
                ;
                assert((mo + (limb - o) * p) + nc * p1 == ab + (ai as int) * bt1 * pi);
            }
            out.set(idx, limb);
            carry = new_carry;
            j = j + 1;
        }
        let ghost tgt: int = mag_value(av.take(i as int)) * mag_value(bv) + (ai as int)
            * mag_value(bv.take(m as int)) * pow2((64 * i) as nat);
        if carry != 0 {
            let idx2 = i + m;
            let cur = out[idx2];
            proof {
                assert(cur == 0);
                lemma2_to64();
                lemma_mag_update(out@, idx2 as int, carry as u64);
            }
            out.set(idx2, carry as u64);
            proof {
                assert(mag_value(out@) as int == tgt);
            }
        } else {
            proof {
                let zc: int = carry as int;
                assert(zc * pow2((64 * (i + m)) as nat) == 0) by (nonlinear_arith)
                    requires
                        zc == 0,
                ;
                assert(mag_value(out@) as int == tgt);
            }
        }
        proof {
            assert(bv.take(m as int) =~= bv);
            lemma_mag_take_step(av, i as int);
            let mb = mag_value(bv) as int;
            let pi = pow2((64 * i) as nat) as int;
            let at = mag_value(av.take(i as int)) as int;
            let at1 = mag_value(av.take(i + 1)) as int;
            assert(at * mb + (ai as int) * mb * pi == at1 * mb) by (nonlinear_arith)
                requires
                    at1 == at + pi * (ai as int),
            ;
            assert(mag_value(out@) == mag_value(av.take(i + 1)) * mag_value(bv));
        }
        i = i + 1;
    }
    proof {
        assert(av.take(n as int) =~= av);
        lemma_mag_positive(av);
        lemma_mag_positive(bv);
    }
    let mut vals = out;
    normalize_vals(&mut vals);
    let sign = a.sign != b.sign;
    let mut res = ix { sign, vals };
    if res.vals.len() == 0 {
        res.sign = false;
    }
    proof {
        let ma = mag_value(av) as int;
        let mb = mag_value(bv) as int;
        assert(ma * mb >= 1) by (nonlinear_arith)
            requires
                ma >= 1,
                mb >= 1,
        ;
        if res.vals@.len() == 0 {
            assert(mag_value(res.vals@) == 0);
        }
        assert(ix_value(*a) * ix_value(*b) == if a.sign != b.sign {
            -(ma * mb)
        } else {
            ma * mb
        }) by (nonlinear_arith)
            requires
                ix_value(*a) == (if a.sign {
                    -ma
                } else {
                    ma
                }),
                ix_value(*b) == (if b.sign {
                    -mb
                } else {
                    mb
                }),
        ;
    }
    res
}

proof fn lemma_lz_bounds(v: u64)
    requires
        v != 0,
    ensures
        0 <= vstd::std_specs::bits::u64_leading_zeros(v) <= 63,
        v >= pow2((63 - vstd::std_specs::bits::u64_leading_zeros(v)) as nat),
        v < pow2((64 - vstd::std_specs::bits::u64_leading_zeros(v)) as nat),
    decreases v,
{
    reveal(vstd::std_specs::bits::u64_leading_zeros);
    lemma2_to64();
    let lz = vstd::std_specs::bits::u64_leading_zeros(v);
    if v == 1 {
        assert(vstd::std_specs::bits::u64_leading_zeros(0u64) == 64);
        assert(lz == 63);
    } else {
        lemma_lz_bounds(v / 2);
        let lh = vstd::std_specs::bits::u64_leading_zeros(v / 2);
        assert(lz == lh - 1);
        let plo = pow2((63 - lh) as nat);
        let phi = pow2((64 - lh) as nat);
        if lh == 0 {
            assert(v / 2 < pow2(64));
            assert(v / 2 >= pow2(63));
            assert(v >= 2 * pow2(63));
            vstd::arithmetic::power2::lemma_pow2_adds(1, 63);
            assert(v >= pow2(64));
            assert(v < pow2(64)) by {
                lemma2_to64();
            }
        }
        assert(lh >= 1);
        vstd::arithmetic::power2::lemma_pow2_adds(1, (63 - lh) as nat);
        vstd::arithmetic::power2::lemma_pow2_adds(1, (64 - lh) as nat);
        assert(v >= 2 * (v / 2));
        assert(v >= 2 * plo);
        assert(pow2((63 - lz) as nat) == 2 * plo);
        assert(v <= 2 * (v / 2) + 1);
        assert(v < 2 * phi);
        assert(pow2((64 - lz) as nat) == 2 * phi);
    }
}

/// The bit length of a normalized magnitude: zero for zero, else the index
/// of the highest set bit plus one, so the value lies in
/// [2^(r-1), 2^r).
pub fn bit_len(vals: &Vec<u64>) -> (r: usize)
    requires
        mag_wf(vals@),
        vals@.len() * 64 <= usize::MAX,
    ensures
        vals@.len() == 0 ==> r == 0,
        mag_value(vals@) < pow2(r as nat),
        vals@.len() > 0 ==> r >= 1 && mag_value(vals@) >= pow2((r - 1) as nat),
        r <= vals@.len() * 64,
{
    if vals.len() == 0 {
        proof {
            lemma2_to64();
        }
        return 0;
    }
    let top = vals[vals.len() - 1];
    let lz = top.leading_zeros() as usize;
    let top_bits = 64 - lz;
    let r = (vals.len() - 1) * 64 + top_bits;
    proof {
        lemma_lz_bounds(top);
        let nn = vals@.len();
        let tb = top_bits as int;
        lemma_mag_split(vals@, nn - 1);
        assert(vals@.skip(nn - 1)[0] == top);
        assert(vals@.skip(nn - 1).skip(1) =~= Seq::<u64>::empty());
        assert(mag_value(Seq::<u64>::empty()) == 0);
        assert(pow2(64) * mag_value(vals@.skip(nn - 1).skip(1)) == 0) by (nonlinear_arith)
            requires
                mag_value(vals@.skip(nn - 1).skip(1)) == 0,
        ;
        assert(mag_value(vals@.skip(nn - 1)) == top as nat);
        lemma_mag_upper(vals@.take(nn - 1));
        let p = pow2((64 * (nn - 1)) as nat) as int;
        let mt = mag_value(vals@.take(nn - 1)) as int;
        // upper bound: mag < (top + 1) * p <= pow2(tb) * p == pow2(r)
        assert(mt + p * (top as int) < p * (top as int + 1)) by (nonlinear_arith)
            requires
                mt < p,
        ;
        assert(p * (top as int + 1) <= p * pow2(tb as nat)) by (nonlinear_arith)
            requires
                (top as int) + 1 <= pow2(tb as nat),
                p >= 0,
        ;
        vstd::arithmetic::power2::lemma_pow2_adds((64 * (nn - 1)) as nat, tb as nat);
        // lower bound: mag >= top * p >= pow2(tb - 1) * p == pow2(r - 1)
        assert(p * (top as int) >= p * pow2((tb - 1) as nat)) by (nonlinear_arith)
            requires
                (top as int) >= pow2((tb - 1) as nat),
                p >= 0,
        ;
        vstd::arithmetic::power2::lemma_pow2_adds((64 * (nn - 1)) as nat, (tb - 1) as nat);
        assert(mag_value(vals@) as int == mt + p * (top as int));
    }
    r
}

/// A vector of `n` zero limbs.
fn zero_limbs(n: usize) -> (r: Vec<u64>)
    ensures
        r@.len() == n,
        forall|j: int| 0 <= j < n ==> r@[j] == 0,
        mag_value(r@) == 0,
{
    let mut out: Vec<u64> = Vec::new();
    let mut z: usize = 0;
    while z < n
        invariant
            z <= n,
            out@.len() == z,
            mag_value(out@) == 0,
            forall|j: int| 0 <= j < z ==> out@[j] == 0,
        decreases n - z,
    {
        proof {
            lemma_mag_append(out@, 0);
        }
        out.push(0);
        z = z + 1;
    }
    out
}

proof fn lemma_shl_split(v: u64, r: u64)
    requires
        1 <= r < 64,
    ensures
        ((v << r) as int) + ((v >> ((64 - r) as u64)) as int) * pow2(64) == (v as int) * pow2(
            r as nat,
        ),
    decreases r,
{
    lemma2_to64();
    if r == 1 {
        assert(((v << 1u64) as int) + ((v >> 63u64) as int) * 0x10000000000000000 == (v as int)
            * 2) by (bit_vector);
    } else {
        lemma_shl_split(v, (r - 1) as u64);
        vstd::arithmetic::power2::lemma_pow2_adds(1, (r - 1) as nat);
        let r1: u64 = (r - 1) as u64;
        let t: u64 = (64 - r) as u64;
        let t1: u64 = (65 - r) as u64;
        let a = v << r1;
        let b = v >> t1;
        let c = a >> 63u64;
        assert((v >> t) as int == 2 * (b as int) + (c as int) && c <= 1 && (v << r) as int == 2 * (
        a as int) - (c as int) * 0x10000000000000000) by (bit_vector)
            requires
                2 <= r < 64,
                t + r == 64,
                t1 + r == 65,
                r1 + 1 == r,
                a == v << r1,
                b == v >> t1,
                c == a >> 63u64,
        ;
        assert(((v << r) as int) + ((v >> t) as int) * pow2(64) == 2 * ((a as int) + (b as int)
            * pow2(64)));
        assert(2 * ((v as int) * pow2((r - 1) as nat)) == (v as int) * pow2(r as nat))
            by (nonlinear_arith)
            requires
                pow2(r as nat) == 2 * pow2((r - 1) as nat),
        ;
    }
}

/// Shifts a magnitude left by `k` bits: the value is scaled by 2^k.
pub fn shl_mag(vals: &Vec<u64>, k: usize) -> (r: Vec<u64>)
    requires
        vals@.len() + k / 64 + 2 <= usize::MAX,
    ensures
        mag_value(r@) == mag_value(vals@) * pow2(k as nat),
        mag_wf(r@),
{
    if vals.len() == 0 {
        proof {
            assert(mag_value(vals@) * pow2(k as nat) == 0) by (nonlinear_arith)
                requires
                    mag_value(vals@) == 0,
            ;
        }
        return Vec::new();
    }
    let limb_shift = k / 64;
    let rem = k % 64;
    let ghost kk = k as int;
    proof {
        vstd::arithmetic::div_mod::lemma_fundamental_div_mod(kk, 64);
        lemma2_to64();
    }
    let mut out = zero_limbs(limb_shift + vals.len() + 1);
    let n = vals.len();
    let mut i: usize = 0;
    proof {
        assert(vals@.take(0) =~= Seq::<u64>::empty());
        assert(mag_value(vals@.take(0)) * pow2(k as nat) == 0) by (nonlinear_arith)
            requires
                mag_value(vals@.take(0)) == 0,
        ;
    }
    if rem == 0 {
        while i < n
            invariant
                i <= n,
                rem == 0,
                kk == k as int,
                kk == 64 * limb_shift,
                limb_shift == k / 64,
                vals@.len() + k / 64 + 2 <= usize::MAX,
                n == vals@.len(),
                out@.len() == limb_shift + n + 1,
                mag_value(out@) == mag_value(vals@.take(i as int)) * pow2(k as nat),
                forall|j: int| limb_shift + i <= j < out@.len() ==> out@[j] == 0,
            decreases n - i,
        {
            let idx = i + limb_shift;
            let vi = vals[i];
            proof {
                lemma_mag_update(out@, idx as int, vi);
                lemma_mag_take_step(vals@, i as int);
                vstd::arithmetic::power2::lemma_pow2_adds((64 * i) as nat, (64 * limb_shift) as nat);
                let p = pow2((64 * idx) as nat) as int;
                let pi = pow2((64 * i) as nat) as int;
                let pk = pow2(k as nat) as int;
                assert(k as nat == (64 * limb_shift) as nat);
                assert((64 * idx) as nat == (64 * i + 64 * limb_shift) as nat);
                assert(p == pi * pk);
                let mo = mag_value(out@) as int;
                let mt = mag_value(vals@.take(i as int)) as int;
                let mt1 = mag_value(vals@.take(i + 1)) as int;
                assert(mo + ((vi as int) - 0) * p == mt1 * pk) by (nonlinear_arith)
                    requires
                        mo == mt * pk,
                        mt1 == mt + pi * (vi as int),
                        p == pi * pk,
                ;
            }
            out.set(idx, vi);
            i = i + 1;
        }
        proof {
            assert(vals@.take(n as int) =~= vals@);
        }
    } else {
        let shift_bits = rem as u64;
        let back_bits = (64 - rem) as u64;
        while i < n
            invariant
                i <= n,
                1 <= rem < 64,
                shift_bits == rem as u64,
                back_bits == (64 - rem) as u64,
                kk == k as int,
                kk == 64 * limb_shift + rem,
                limb_shift == k / 64,
                vals@.len() + k / 64 + 2 <= usize::MAX,
                n == vals@.len(),
                out@.len() == limb_shift + n + 1,
                mag_value(out@) == mag_value(vals@.take(i as int)) * pow2(k as nat),
                out@[limb_shift + i] == (if i == 0 {
                    0u64
                } else {
                    vals@[i - 1] >> back_bits
                }),
                forall|j: int| limb_shift + i + 1 <= j < out@.len() ==> out@[j] == 0,
            decreases n - i,
        {
            let idx = i + limb_shift;
            let vi = vals[i];
            let low = vi << shift_bits;
            let high = vi >> back_bits;
            let cur = out[idx];
            let merged = cur | low;
            proof {
                lemma_shl_split(vi, shift_bits);
                let vp: u64 = if i == 0 {
                    0u64
                } else {
                    vals@[i - 1]
                };
                if i == 0 {
                    assert((0u64 >> back_bits) == 0u64) by (bit_vector);
                }
                assert(cur == vp >> back_bits);
                assert(((vp >> back_bits) & (vi << shift_bits)) == 0 && ((vp >> back_bits) | (
                vi << shift_bits)) as int == (vp >> back_bits) as int + (vi << shift_bits) as int)
                    by (bit_vector)
                    requires
                        1 <= shift_bits < 64,
                        back_bits + shift_bits == 64,
                ;
                lemma_mag_update(out@, idx as int, merged);
            }
            out.set(idx, merged);
            proof {
                lemma_mag_update(out@, idx as int + 1, high);
                lemma_mag_take_step(vals@, i as int);
                vstd::arithmetic::power2::lemma_pow2_adds((64 * idx) as nat, 64);
                vstd::arithmetic::power2::lemma_pow2_adds((64 * i) as nat, (64 * limb_shift) as nat);
                vstd::arithmetic::power2::lemma_pow2_adds(
                    (64 * limb_shift) as nat,
                    (rem) as nat,
                );
                let p = pow2((64 * idx) as nat) as int;
                let p1 = pow2((64 * (idx + 1)) as nat) as int;
                let pi = pow2((64 * i) as nat) as int;
                let pls = pow2((64 * limb_shift) as nat) as int;
                let pr = pow2(rem as nat) as int;
                let pk = pow2(k as nat) as int;
                let bb = pow2(64) as int;
                assert(k as nat == (64 * limb_shift + rem) as nat);
                assert(pk == pls * pr);
                assert((64 * idx) as nat == (64 * i + 64 * limb_shift) as nat);
                assert(p == pi * pls);
                let mo0 = mag_value(out@) as int - (low as int) * p;
                let mt = mag_value(vals@.take(i as int)) as int;
                let mt1 = mag_value(vals@.take(i + 1)) as int;
                assert(mag_value(out@) as int == mo0 + (low as int) * p);
                assert((mo0 + (low as int) * p) + (high as int) * p1 == mt1 * pk)
                    by (nonlinear_arith)
                    requires
                        mo0 == mt * pk,
                        mt1 == mt + pi * (vi as int),
                        (low as int) + (high as int) * bb == (vi as int) * pr,
                        p == pi * pls,
                        p1 == p * bb,
                        pk == pls * pr,
                ;
            }
            out.set(idx + 1, high);
            i = i + 1;
        }
        proof {
            assert(vals@.take(n as int) =~= vals@);
        }
    }
    normalize_vals(&mut out);
    out
}

/// Adds 2^k into a limb vector in place, keeping it normalized.
pub fn add_bit_to_vec(vals: &mut Vec<u64>, k: usize)
    requires
        mag_wf(old(vals)@),
        old(vals)@.len() + 2 <= usize::MAX,
        k / 64 + 3 <= usize::MAX,
    ensures
        mag_value(final (vals)@) == mag_value(old(vals)@) + pow2(k as nat),
        mag_wf(final (vals)@),
{
    let limb = k / 64;
    let bit = k % 64;
    let ghost kk = k as int;
    proof {
        vstd::arithmetic::div_mod::lemma_fundamental_div_mod(kk, 64);
        lemma2_to64();
    }
    while vals.len() <= limb
        invariant
            mag_value(vals@) == mag_value(old(vals)@),
            vals@.len() <= limb + 1 || vals@.len() == old(vals)@.len(),
            vals@.len() >= old(vals)@.len(),
            vals@.take(old(vals)@.len() as int) == old(vals)@,
            limb + 2 <= usize::MAX,
        decreases limb + 1 - vals@.len(),
    {
        proof {
            lemma_mag_append(vals@, 0);
            assert(vals@.push(0u64).take(old(vals)@.len() as int) =~= vals@.take(
                old(vals)@.len() as int,
            ));
        }
        vals.push(0);
    }
    proof {
        if vals@.len() == old(vals)@.len() {
            assert(vals@ =~= old(vals)@);
        }
    }
    let pw: u64 = 1u64 << (bit as u64);
    proof {
        vstd::bits::lemma_u64_pow2_no_overflow(bit as nat);
        vstd::bits::lemma_u64_shl_is_mul(1u64, bit as u64);
        vstd::arithmetic::power2::lemma_pow2_adds((64 * limb) as nat, bit as nat);
        vstd::arithmetic::power2::lemma_pow2_pos(bit as nat);
        assert((pw as int) * pow2((64 * limb) as nat) == pow2((64 * limb) as nat) * pow2(
            bit as nat,
        )) by (nonlinear_arith)
            requires
                pw as int == pow2(bit as nat),
        ;
        assert((64 * limb + bit) as nat == k as nat);
        assert((pw as int) * pow2((64 * limb) as nat) == pow2(k as nat));
    }
    let ghost maxlen: int = if old(vals)@.len() > limb + 1 {
        old(vals)@.len() as int
    } else {
        limb + 1
    };
    let mut carry: u128 = pw as u128;
    let mut i: usize = limb;
    while carry != 0
        invariant
            i <= vals@.len(),
            1 <= vals@.len(),
            limb == k / 64,
            old(vals)@.len() + 2 <= usize::MAX,
            limb + 3 <= usize::MAX,
            maxlen == (if old(vals)@.len() > limb + 1 {
                old(vals)@.len() as int
            } else {
                limb + 1
            }),
            vals@.len() <= maxlen + 1,
            carry != 0 ==> vals@.len() <= maxlen,
            carry < 0x1_0000_0000_0000_0000u128,
            mag_value(vals@) + carry * pow2((64 * i) as nat) == mag_value(old(vals)@) + pow2(
                k as nat,
            ),
            carry != 0 ==> (i >= vals@.len() - 1 || vals@[vals@.len() - 1] != 0),
            carry == 0 ==> mag_wf(vals@),
        decreases carry, vals@.len() - i,
    {
        let ghost pre_len = vals@.len();
        let mut pushed = false;
        if i >= vals.len() {
            proof {
                lemma_mag_append(vals@, 0);
            }
            vals.push(0);
            pushed = true;
        }
        let vi = vals[i];
        let sum: u128 = (vi as u128) + carry;
        let limb_val: u64 = (sum & 0xFFFF_FFFF_FFFF_FFFFu128) as u64;
        let new_carry: u128 = sum >> 64;
        proof {
            lemma2_to64();
            assert(sum & 0xFFFF_FFFF_FFFF_FFFFu128 == sum % 0x1_0000_0000_0000_0000u128)
                by (bit_vector);
            assert(sum >> 64u128 == sum / 0x1_0000_0000_0000_0000u128) by (bit_vector);
            lemma_mag_update(vals@, i as int, limb_val);
            vstd::arithmetic::power2::lemma_pow2_adds((64 * i) as nat, 64);
            let bb = pow2(64) as int;
            let p = pow2((64 * i) as nat) as int;
            let p1 = pow2((64 * (i + 1)) as nat) as int;
            let mo = mag_value(vals@) as int;
            let c = carry as int;
            let nc = new_carry as int;
            assert((mo + ((limb_val as int) - (vi as int)) * p) + nc * p1 == mo + c * p)
                by (nonlinear_arith)
                requires
                    (sum as int) == (vi as int) + c,
                    (sum as int) == bb * nc + (limb_val as int),
                    p1 == p * bb,
            ;
        }
        vals.set(i, limb_val);
        proof {
            // how the write relates to the normalization invariant
            if pushed {
                // the pushed slot was the write target; the carry dies here
                assert(vi == 0);
                assert(new_carry == 0);
                assert(limb_val as int == sum as int);
                assert(vals@[vals@.len() - 1] == limb_val);
                assert(limb_val != 0);
            } else {
                if i as int == pre_len - 1 {
                    if new_carry == 0 {
                        assert(limb_val as int == sum as int);
                        assert(sum >= 1);
                        assert(vals@[vals@.len() - 1] != 0);
                    }
                } else {
                    assert(vals@[vals@.len() - 1] != 0);
                }
            }
        }
        carry = new_carry;
        i = i + 1;
    }
    proof {
        let zc = carry as int;
        assert(zc * pow2((64 * i) as nat) == 0) by (nonlinear_arith)
            requires
                zc == 0,
        ;
    }
}

/// Long division of magnitudes by shift-and-subtract: returns the quotient
/// and remainder limb vectors.
pub fn div_rem_mag(a_vals: &Vec<u64>, b_vals: &Vec<u64>) -> (r: (Vec<u64>, Vec<u64>))
    requires
        mag_wf(a_vals@),
        mag_wf(b_vals@),
        b_vals@.len() > 0,
        a_vals@.len() * 64 + 64 <= usize::MAX,
    ensures
        mag_value(r.0@) * mag_value(b_vals@) + mag_value(r.1@) == mag_value(a_vals@),
        mag_value(r.1@) < mag_value(b_vals@),
        mag_wf(r.0@),
        mag_wf(r.1@),
{
    proof {
        lemma_mag_positive(b_vals@);
    }
    if a_vals.len() == 0 {
        return (Vec::new(), Vec::new());
    }
    let c = cmp_mag(a_vals, b_vals);
    if c < 0 {
        let rem = copy_limbs(a_vals);
        proof {
            assert(0 * mag_value(b_vals@) == 0) by (nonlinear_arith);
        }
        return (Vec::new(), rem);
    }
    proof {
        if b_vals@.len() > a_vals@.len() {
            lemma_mag_longer(b_vals@, a_vals@);
        }
    }
    let mut rem = copy_limbs(a_vals);
    let mut q: Vec<u64> = Vec::new();
    let a_bits = bit_len(a_vals);
    let b_bits = bit_len(b_vals);
    proof {
        if a_bits < b_bits {
            lemma_pow2_strictly_increases(a_bits as nat, (b_bits - 1) as nat);
        }
        // initial bound: mag(a) < 2^a_bits <= 2^(a_bits - b_bits + 1) * 2^(b_bits - 1)
        //                              <= 2^(a_bits - b_bits + 1) * mag(b)
        vstd::arithmetic::power2::lemma_pow2_adds(
            (a_bits - b_bits + 1) as nat,
            (b_bits - 1) as nat,
        );
        let ps = pow2((a_bits - b_bits + 1) as nat) as int;
        let pb1 = pow2((b_bits - 1) as nat) as int;
        let mb = mag_value(b_vals@) as int;
        assert(ps * pb1 <= ps * mb) by (nonlinear_arith)
            requires
                pb1 <= mb,
                ps >= 0,
        ;
        assert(0 * mag_value(b_vals@) == 0) by (nonlinear_arith);
    }
    let mut shift_plus: usize = a_bits - b_bits + 1;
    while shift_plus > 0
        invariant
            mag_wf(rem@),
            mag_wf(b_vals@),
            mag_wf(q@),
            b_vals@.len() > 0,
            b_vals@.len() <= a_vals@.len(),
            a_vals@.len() * 64 + 64 <= usize::MAX,
            shift_plus <= a_vals@.len() * 64,
            mag_value(q@) * mag_value(b_vals@) + mag_value(rem@) == mag_value(a_vals@),
            mag_value(rem@) < pow2(shift_plus as nat) * mag_value(b_vals@),
        decreases shift_plus,
    {
        let s = shift_plus - 1;
        let t = shl_mag(b_vals, s);
        let cc = cmp_mag(&t, &rem);
        proof {
            lemma2_to64();
            vstd::arithmetic::power2::lemma_pow2_adds(1, s as nat);
        }
        let ghost mb = mag_value(b_vals@) as int;
        let ghost ps = pow2(s as nat) as int;
        proof {
            assert(mag_value(t@) as int == mb * ps);
            assert(mb * ps == ps * mb) by (nonlinear_arith);
        }
        if cc <= 0 {
            let ghost mq0 = mag_value(q@) as int;
            let ghost mr0 = mag_value(rem@) as int;
            let new_rem = sub_mag(&rem, &t);
            rem = new_rem;
            proof {
                // the quotient is small enough for another bit to be added
                lemma_mag_positive(b_vals@);
                assert(mq0 <= mq0 * mb) by (nonlinear_arith)
                    requires
                        mb >= 1,
                        mq0 >= 0,
                ;
                lemma_mag_upper(a_vals@);
                if q@.len() > 0 {
                    lemma_mag_top(q@);
                    if q@.len() - 1 >= a_vals@.len() {
                        if 64 * a_vals@.len() < 64 * (q@.len() - 1) {
                            lemma_pow2_strictly_increases(
                                (64 * a_vals@.len()) as nat,
                                (64 * (q@.len() - 1)) as nat,
                            );
                        }
                        assert(false);
                    }
                }
            }
            add_bit_to_vec(&mut q, s);
            proof {
                assert(mag_value(q@) as int == mq0 + ps);
                assert(mag_value(rem@) as int == mr0 - ps * mb);
                assert((mq0 + ps) * mb == mq0 * mb + ps * mb) by (nonlinear_arith);
                assert(mag_value(q@) * mag_value(b_vals@) + mag_value(rem@) == mag_value(
                    a_vals@,
                ));
                // re-normalize the remainder bound: rem' < 2^s * b
                assert(pow2(shift_plus as nat) as int == 2 * ps);
                assert(pow2(shift_plus as nat) * mag_value(b_vals@) == (2 * ps) * mb);
                assert((2 * ps) * mb == ps * mb + ps * mb) by (nonlinear_arith);
                assert(mag_value(rem@) < ps * mb);
                assert(ps * mb == pow2(s as nat) * mag_value(b_vals@));
            }
        } else {
            proof {
                assert(mag_value(rem@) < mag_value(t@));
                assert(mag_value(rem@) < pow2(s as nat) * mag_value(b_vals@));
            }
        }
        shift_plus = s;
    }
    proof {
        assert(pow2(0) == 1) by {
            lemma2_to64();
        }
        assert(1 * mag_value(b_vals@) == mag_value(b_vals@)) by (nonlinear_arith);
    }
    normalize_vals(&mut q);
    normalize_vals(&mut rem);
    (q, rem)
}

/// The non-negative magnitude of an integer.
pub open spec fn iabs(x: int) -> int {
    if x < 0 {
        -x
    } else {
        x
    }
}

/// Truncating division: the quotient of the magnitudes, negative when
/// exactly one operand is negative.  The divisor must be non-zero.
pub fn div_ix(a: &ix, b: &ix) -> (r: ix)
    requires
        ix_wf(*a),
        ix_wf(*b),
        ix_value(*b) != 0,
        a.vals@.len() * 64 + 64 <= usize::MAX,
    ensures
        ix_value(r) == (if (ix_value(*a) < 0) == (ix_value(*b) < 0) {
            iabs(ix_value(*a)) / iabs(ix_value(*b))
        } else {
            -(iabs(ix_value(*a)) / iabs(ix_value(*b)))
        }),
        ix_wf(r),
{
    if a.vals.len() == 0 {
        proof {
            vstd::arithmetic::div_mod::lemma_div_of0(iabs(ix_value(*b)));
        }
        return zero_ix();
    }
    let (q_vals, r_tmp) = div_rem_mag(&a.vals, &b.vals);
    proof {
        lemma_mag_positive(b.vals@);
        vstd::arithmetic::div_mod::lemma_fundamental_div_mod_converse(
            mag_value(a.vals@) as int,
            mag_value(b.vals@) as int,
            mag_value(q_vals@) as int,
            mag_value(r_tmp@) as int,
        );
    }
    let mut qq = ix { sign: a.sign != b.sign, vals: q_vals };
    if qq.vals.len() == 0 {
        qq.sign = false;
    }
    proof {
        if qq.vals@.len() == 0 {
            assert(mag_value(qq.vals@) == 0);
        }
    }
    qq
}

/// Truncating remainder: the remainder of the magnitudes, carrying the
/// dividend's sign.  The divisor must be non-zero.
pub fn rem_ix(a: &ix, b: &ix) -> (r: ix)
    requires
        ix_wf(*a),
        ix_wf(*b),
        ix_value(*b) != 0,
        a.vals@.len() * 64 + 64 <= usize::MAX,
    ensures
        ix_value(r) == (if ix_value(*a) >= 0 {
            iabs(ix_value(*a)) % iabs(ix_value(*b))
        } else {
            -(iabs(ix_value(*a)) % iabs(ix_value(*b)))
        }),
        ix_wf(r),
{
    if a.vals.len() == 0 {
        proof {
            vstd::arithmetic::div_mod::lemma_small_mod(0, iabs(ix_value(*b)) as nat);
        }
        return zero_ix();
    }
    let (q_tmp, r_vals) = div_rem_mag(&a.vals, &b.vals);
    proof {
        lemma_mag_positive(b.vals@);
        lemma_mag_positive(a.vals@);
        vstd::arithmetic::div_mod::lemma_fundamental_div_mod_converse(
            mag_value(a.vals@) as int,
            mag_value(b.vals@) as int,
            mag_value(q_tmp@) as int,
            mag_value(r_vals@) as int,
        );
    }
    let mut rr = ix { sign: a.sign, vals: r_vals };
    if rr.vals.len() == 0 {
        rr.sign = false;
    }
    proof {
        if rr.vals@.len() == 0 {
            assert(mag_value(rr.vals@) == 0);
        }
    }
    rr
}

/// A hexadecimal digit byte: 0-9, a-f, or A-F.
pub open spec fn is_hex_digit(b: u8) -> bool {
    (48 <= b && b <= 57) || (97 <= b && b <= 102) || (65 <= b && b <= 70)
}

/// The value of a hexadecimal digit byte.
pub open spec fn hex_digit_value(b: u8) -> nat {
    if 48 <= b && b <= 57 {
        (b - 48) as nat
    } else if 97 <= b && b <= 102 {
        (b - 87) as nat
    } else if 65 <= b && b <= 70 {
        (b - 55) as nat
    } else {
        0
    }
}

/// The number denoted by hexadecimal digit bytes, most significant first.
pub open spec fn hex_value(s: Seq<u8>) -> nat
    decreases s.len(),
{
    if s.len() == 0 {
        0
    } else {
        hex_value(s.drop_last()) * 16 + hex_digit_value(s.last())
    }
}

/// The digit bytes of a hexadecimal literal: everything after an optional
/// "0x" prefix.
pub open spec fn hex_body(s: Seq<u8>) -> Seq<u8> {
    if s.len() >= 2 && s[0] == 48 && s[1] == 120 {
        s.skip(2)
    } else {
        s
    }
}

proof fn lemma_pow16_pow2(k: nat)
    ensures
        vstd::arithmetic::power::pow(16, k) == pow2(4 * k),
{
    vstd::arithmetic::power2::lemma_pow2(4 * k);
    vstd::arithmetic::power::lemma_pow_multiplies(2, 4, k);
    vstd::arithmetic::power2::lemma_pow2(4);
    lemma2_to64();
}

/// Concatenating digit strings combines their values positionally.
proof fn lemma_hex_split(u: Seq<u8>, w: Seq<u8>)
    ensures
        hex_value(u + w) == hex_value(u) * vstd::arithmetic::power::pow(16, w.len()) + hex_value(
            w,
        ),
    decreases w.len(),
{
    if w.len() == 0 {
        assert(u + w =~= u);
        vstd::arithmetic::power::lemma_pow0(16);
    } else {
        lemma_hex_split(u, w.drop_last());
        assert((u + w).drop_last() =~= u + w.drop_last());
        assert((u + w).last() == w.last());
        let pl = vstd::arithmetic::power::pow(16, (w.len() - 1) as nat) as int;
        let pw = vstd::arithmetic::power::pow(16, w.len()) as int;
        assert(pw == pl * 16) by {
            vstd::arithmetic::power::lemma_pow1(16);
            vstd::arithmetic::power::lemma_pow_adds(16, (w.len() - 1) as nat, 1);
        }
        let hu = hex_value(u) as int;
        let hwd = hex_value(w.drop_last()) as int;
        let dv = hex_digit_value(w.last()) as int;
        assert((hu * pl + hwd) * 16 + dv == hu * (pl * 16) + (hwd * 16 + dv)) by (nonlinear_arith);
    }
}

/// Parses a hexadecimal literal, with an optional "0x" prefix, into a
/// non-negative big integer, reading sixteen digits per limb from the
/// right.
pub fn h2i_ix(s: &str) -> (r: ix)
    requires
        forall|i: int|
            0 <= i < hex_body(s.spec_bytes()).len() ==> is_hex_digit(
                #[trigger] hex_body(s.spec_bytes())[i],
            ),
    ensures
        ix_value(r) == hex_value(hex_body(s.spec_bytes())),
        ix_wf(r),
{
    let bytes = s.as_bytes();
    let n = bytes.len();
    let mut lo: usize = 0;
    if n >= 2 {
        if bytes[0] == 48 && bytes[1] == 120 {
            lo = 2;
        }
    }
    let ghost digs = hex_body(s.spec_bytes());
    proof {
        assert(digs =~= bytes@.subrange(lo as int, n as int));
    }
    if lo == n {
        proof {
            assert(digs.len() == 0);
        }
        return zero_ix();
    }
    let mut vals: Vec<u64> = Vec::new();
    let mut i: usize = n;
    proof {
        assert(bytes@.subrange(n as int, n as int) =~= Seq::<u8>::empty());
        assert(hex_value(bytes@.subrange(n as int, n as int)) == 0);
    }
    while i > lo
        invariant
            lo <= i <= n,
            lo <= 2,
            n == bytes@.len(),
            digs == bytes@.subrange(lo as int, n as int),
            forall|j: int| 0 <= j < digs.len() ==> is_hex_digit(#[trigger] digs[j]),
            (n - i) % 16 == 0 || i == lo,
            i > lo ==> vals@.len() * 16 == n - i,
            mag_value(vals@) == hex_value(bytes@.subrange(i as int, n as int)),
        decreases i,
    {
        let start = if i >= lo + 16 {
            i - 16
        } else {
            lo
        };
        let mut limb: u64 = 0;
        let mut t = start;
        proof {
            assert(bytes@.subrange(start as int, start as int) =~= bytes@.subrange(
                start as int,
                start as int,
            ));
            assert(hex_value(bytes@.subrange(start as int, start as int)) == 0);
            vstd::arithmetic::power::lemma_pow0(16);
            lemma_pow16_pow2(16);
            lemma2_to64();
        }
        while t < i
            invariant
                lo <= start <= t <= i <= n,
                n == bytes@.len(),
                i - start <= 16,
                digs == bytes@.subrange(lo as int, n as int),
                forall|j: int| 0 <= j < digs.len() ==> is_hex_digit(#[trigger] digs[j]),
                limb == hex_value(bytes@.subrange(start as int, t as int)),
                limb < vstd::arithmetic::power::pow(16, (t - start) as nat),
            decreases i - t,
        {
            let b = bytes[t];
            proof {
                assert(digs[t - lo] == bytes@[t as int]);
                assert(is_hex_digit(b));
            }
            let dv: u64 = if b >= 48 && b <= 57 {
                (b - 48) as u64
            } else if b >= 97 && b <= 102 {
                (b - 87) as u64
            } else {
                (b - 55) as u64
            };
            proof {
                assert(dv == hex_digit_value(b));
                let ts = (t - start) as nat;
                let pt = vstd::arithmetic::power::pow(16, ts) as int;
                let pt1 = vstd::arithmetic::power::pow(16, (ts + 1) as nat) as int;
                assert(pt1 == pt * 16) by {
                    vstd::arithmetic::power::lemma_pow1(16);
                    vstd::arithmetic::power::lemma_pow_adds(16, ts, 1);
                }
                vstd::arithmetic::power::lemma_pow_increases(16, (ts + 1) as nat, 16);
                lemma_pow16_pow2(16);
                lemma2_to64();
                assert((limb as int) * 16 + dv < pt1) by (nonlinear_arith)
                    requires
                        (limb as int) < pt,
                        dv < 16,
                        pt1 == pt * 16,
                ;
                assert(bytes@.subrange(start as int, t + 1).drop_last() =~= bytes@.subrange(
                    start as int,
                    t as int,
                ));
                assert(bytes@.subrange(start as int, t + 1).last() == bytes@[t as int]);
            }
            limb = limb * 16 + dv;
            t = t + 1;
        }
        proof {
            lemma_mag_append(vals@, limb);
            let chunk = bytes@.subrange(start as int, i as int);
            let rest = bytes@.subrange(i as int, n as int);
            lemma_hex_split(chunk, rest);
            assert(bytes@.subrange(start as int, n as int) =~= chunk + rest);
            let j = vals@.len() as int;
            assert(rest.len() == 16 * j);
            lemma_pow16_pow2((16 * j) as nat);
            assert((4 * (16 * j)) as nat == (64 * j) as nat);
            let pj = pow2((64 * j) as nat) as int;
            assert(hex_value(chunk) * vstd::arithmetic::power::pow(16, rest.len()) == (
            limb as int) * pj);
            assert((limb as int) * pj == pj * (limb as int)) by (nonlinear_arith);
        }
        vals.push(limb);
        i = start;
    }
    proof {
        assert(bytes@.subrange(lo as int, n as int) == digs);
    }
    normalize_vals(&mut vals);
    ix { sign: false, vals }
}

} // verus!
