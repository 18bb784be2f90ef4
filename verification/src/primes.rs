//! A trial-division primality test.
use vstd::prelude::*;

verus! {

use vstd::arithmetic::div_mod::{
    lemma_div_is_ordered_by_denominator,
    lemma_fundamental_div_mod,
    lemma_mod_multiples_basic,
    lemma_multiply_divide_lt,
};

/// Primality: at least two, with no divisor strictly between 1 and itself.
pub open spec fn is_prime_spec(n: int) -> bool {
    n >= 2 && forall|d: int| 2 <= d < n ==> #[trigger] (n % d) != 0
}

proof fn lemma_even_divisor(n: int, e: int)
    requires
        n >= 1,
        e >= 2,
        e % 2 == 0,
        n % e == 0,
    ensures
        n % 2 == 0,
{
    lemma_fundamental_div_mod(n, e);
    let q = n / e;
    let h = e / 2;
    lemma_fundamental_div_mod(e, 2);
    assert(n == e * q);
    assert(e * q == (q * h) * 2) by (nonlinear_arith)
        requires
            e == 2 * h,
    ;
    lemma_mod_multiples_basic(q * h, 2);
}

proof fn lemma_cofactor(n: int, e: int)
    requires
        2 <= e < n,
        n % e == 0,
    ensures
        n % (n / e) == 0,
        2 <= n / e,
        n / e <= n / 2,
{
    lemma_fundamental_div_mod(n, e);
    let f = n / e;
    assert(n == e * f);
    lemma_mod_multiples_basic(e, f);
    assert(e * f == f * e) by (nonlinear_arith);
    assert(f >= 1) by {
        vstd::arithmetic::div_mod::lemma_div_pos_is_pos(n, e);
        if f == 0 {
            assert(n == e * 0 + n % e);
            assert(e * 0 == 0) by (nonlinear_arith);
        }
    }
    if f == 1 {
        assert(e * 1 == e) by (nonlinear_arith);
        assert(n == e);
    }
    lemma_div_is_ordered_by_denominator(n, 2, e);
}

/// Whether the square of the first argument is at most the second, without
/// overflowing.
fn sq_le(d: u64, n: u64) -> (r: bool)
    ensures
        r <==> (d as int) * (d as int) <= n as int,
        r ==> d <= n,
{
    proof {
        assert((d as int) * (d as int) <= 0xFFFFFFFFFFFFFFFFFFFFFFFFFFFFFFFF) by (nonlinear_arith)
            requires
                d <= 0xFFFFFFFFFFFFFFFFu64,
        ;
        assert(d <= (d as int) * (d as int) || d == 0) by (nonlinear_arith);
    }
    let p = (d as u128) * (d as u128);
    p <= (n as u128)
}

/// Trial division: true exactly when the argument is prime.
pub fn is_prime(n: u64) -> (r: bool)
    ensures
        r <==> is_prime_spec(n as int),
{
    if n < 2 {
        return false;
    }
    if n % 2 == 0 {
        proof {
            if n > 2 {
                assert(2 <= 2 < n && (n as int) % 2 == 0);
            }
        }
        return n == 2;
    }
    let mut d: u64 = 3;
    while sq_le(d, n)
        invariant
            3 <= d,
            d % 2 == 1,
            n >= 3,
            n % 2 == 1,
            forall|e: int| 2 <= e < d ==> #[trigger] ((n as int) % e) != 0,
        decreases n + 2 - d,
    {
        if n % d == 0 {
            proof {
                assert(d < n) by (nonlinear_arith)
                    requires
                        (d as int) * (d as int) <= n as int,
                        d >= 3,
                        n >= 3,
                ;
            }
            return false;
        }
        proof {
            assert forall|e: int| 2 <= e < d + 2 implies #[trigger] ((n as int) % e) != 0 by {
                if e == d + 1 {
                    if (n as int) % e == 0 {
                        lemma_even_divisor(n as int, e);
                    }
                }
            }
        }
        proof {
            assert(d <= 4294967296) by (nonlinear_arith)
                requires
                    (d as int) * (d as int) <= n as int,
                    n <= 0xFFFFFFFFFFFFFFFFu64,
            ;
        }
        d = d + 2;
    }
    proof {
        assert forall|e: int| 2 <= e < n implies #[trigger] ((n as int) % e) != 0 by {
            if (n as int) % e == 0 {
                if e >= d {
                    lemma_cofactor(n as int, e);
                    let f = (n as int) / e;
                    lemma_div_is_ordered_by_denominator(n as int, d as int, e);
                    lemma_multiply_divide_lt(n as int, d as int, d as int);
                    assert(f <= (n as int) / (d as int));
                    assert((n as int) / (d as int) < d);
                    assert(2 <= f < d);
                }
            }
        }
    }
    true
}

} // verus!
