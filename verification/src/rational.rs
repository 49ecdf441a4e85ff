//! Exact comparison of non-negative rationals held as numerator/denominator
//! pairs, without overflow: the cross products `n1 * d2` and `n2 * d1` can
//! exceed 128 bits, so the comparison goes through the Euclidean
//! decompositions of the two fractions instead.

use vstd::arithmetic::div_mod::lemma_fundamental_div_mod;
use vstd::prelude::*;

verus! {

/// Lexicographic comparison of Euclidean decompositions: for a positive base
/// `d` and remainders below `d`, two numbers compare as their
/// (quotient, remainder) pairs do.
proof fn lemma_euclid_lex(d: int, qa: int, ra: int, qb: int, rb: int)
    by (nonlinear_arith)
    requires
        d > 0,
        0 <= ra < d,
        0 <= rb < d,
    ensures
        (qa * d + ra < qb * d + rb) <==> (qa < qb || (qa == qb && ra < rb)),
{
}

/// Comparing `n1/d1` with `n2/d2` reduces to comparing the integer parts and
/// then the cross products of the remainders.
proof fn lemma_frac_compare(n1: int, d1: int, n2: int, d2: int)
    requires
        n1 >= 0,
        n2 >= 0,
        d1 > 0,
        d2 > 0,
    ensures
        (n1 * d2 < n2 * d1) <==> (n1 / d1 < n2 / d2 || (n1 / d1 == n2 / d2 && (n1 % d1) * d2
            < (n2 % d2) * d1)),
{
    let q1 = n1 / d1;
    let r1 = n1 % d1;
    let q2 = n2 / d2;
    let r2 = n2 % d2;
    lemma_fundamental_div_mod(n1, d1);
    lemma_fundamental_div_mod(n2, d2);
    assert(n1 * d2 == q1 * (d1 * d2) + r1 * d2 && n2 * d1 == q2 * (d1 * d2) + r2 * d1 && 0 <= r1
        * d2 < d1 * d2 && 0 <= r2 * d1 < d1 * d2) by (nonlinear_arith)
        requires
            n1 == q1 * d1 + r1,
            n2 == q2 * d2 + r2,
            0 <= r1 < d1,
            0 <= r2 < d2,
            d1 > 0,
            d2 > 0,
    ;
    lemma_euclid_lex(d1 * d2, q1, r1 * d2, q2, r2 * d1);
}

/// Transitivity of fraction comparison through cross products:
/// `a/b < c/d` and `c/d <= e/f` (positive denominators) give `a/b < e/f`.
pub proof fn lemma_frac_lt_trans(a: int, b: int, c: int, d: int, e: int, f: int)
    by (nonlinear_arith)
    requires
        b > 0,
        d > 0,
        f > 0,
        a * d < c * b,
        c * f <= e * d,
    ensures
        a * f < e * b,
{
}

/// Exact strict comparison `n1/d1 < n2/d2` of two non-negative rationals.
///
/// The remainder cross products fit in `u128` because each remainder is below
/// its 64-bit denominator, so no intermediate value overflows.
pub fn frac_lt(n1: u128, d1: u64, n2: u128, d2: u64) -> (r: bool)
    requires
        d1 >= 1,
        d2 >= 1,
    ensures
        r <==> (n1 as int) * (d2 as int) < (n2 as int) * (d1 as int),
{
    let q1 = n1 / (d1 as u128);
    let r1 = n1 % (d1 as u128);
    let q2 = n2 / (d2 as u128);
    let r2 = n2 % (d2 as u128);
    proof {
        lemma_frac_compare(n1 as int, d1 as int, n2 as int, d2 as int);
        assert((r1 as int) * (d2 as int) < 0x10000000000000000 * 0x10000000000000000
            && (r2 as int) * (d1 as int) < 0x10000000000000000 * 0x10000000000000000)
            by (nonlinear_arith)
            requires
                0 <= r1 < d1,
                0 <= r2 < d2,
                d1 < 0x10000000000000000,
                d2 < 0x10000000000000000,
        ;
    }
    if q1 < q2 {
        true
    } else if q1 > q2 {
        false
    } else {
        r1 * (d2 as u128) < r2 * (d1 as u128)
    }
}

} // verus!
