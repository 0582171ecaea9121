//! Greatest common divisors and least common multiples.
//!
//! `reduction` computes the greatest common divisor of two integers by the
//! Euclidean algorithm; `common_multiple` derives the least common multiple of
//! two positive denominators together with the multipliers that reach it.

use vstd::arithmetic::div_mod::{
    lemma_fundamental_div_mod, lemma_mod_multiples_basic, lemma_small_mod,
};
use vstd::prelude::*;

verus! {

/// The greatest common divisor, by the Euclidean recurrence.
pub open spec fn gcd(a: int, b: int) -> int
    recommends
        0 <= a,
        0 <= b,
    decreases b,
{
    if b <= 0 {
        a
    } else {
        gcd(b, a % b)
    }
}

/// The least common multiple of two positive integers.
pub open spec fn lcm(a: int, b: int) -> int
    recommends
        1 <= a,
        1 <= b,
{
    a * (b / gcd(a, b))
}

/// The gcd of two non-negative integers, not both zero, is positive.
pub proof fn lemma_gcd_pos(a: int, b: int)
    requires
        0 <= a,
        0 <= b,
        a >= 1 || b >= 1,
    ensures
        gcd(a, b) >= 1,
    decreases b,
{
    if b == 0 {
    } else {
        lemma_gcd_pos(b, a % b);
    }
}

/// The gcd of two non-negative integers, not both zero, divides both.
pub proof fn lemma_gcd_divides(a: int, b: int)
    requires
        0 <= a,
        0 <= b,
        a >= 1 || b >= 1,
    ensures
        gcd(a, b) >= 1,
        a % gcd(a, b) == 0,
        b % gcd(a, b) == 0,
    decreases b,
{
    lemma_gcd_pos(a, b);
    let g = gcd(a, b);
    if b == 0 {
        lemma_mod_multiples_basic(1, a);
        lemma_mod_multiples_basic(0, a);
    } else {
        lemma_gcd_divides(b, a % b);
        assert(g == gcd(b, a % b));
        lemma_fundamental_div_mod(a, b);
        lemma_fundamental_div_mod(b, g);
        lemma_fundamental_div_mod(a % b, g);
        let q = a / b;
        let b1 = b / g;
        let r1 = (a % b) / g;
        assert(a == (g * b1) * q + g * r1);
        assert(a == g * (b1 * q + r1)) by (nonlinear_arith)
            requires
                a == (g * b1) * q + g * r1,
        ;
        lemma_mod_multiples_basic(b1 * q + r1, g);
    }
}

/// Every common divisor of `a` and `b` divides their gcd.
pub proof fn lemma_gcd_greatest(a: int, b: int, c: int)
    requires
        0 <= a,
        0 <= b,
        1 <= c,
        a % c == 0,
        b % c == 0,
    ensures
        gcd(a, b) % c == 0,
    decreases b,
{
    if b == 0 {
    } else {
        lemma_fundamental_div_mod(a, b);
        lemma_fundamental_div_mod(a, c);
        lemma_fundamental_div_mod(b, c);
        let q = a / b;
        let a1 = a / c;
        let b1 = b / c;
        assert(a % b == c * a1 - (c * b1) * q);
        assert(a % b == c * (a1 - b1 * q)) by (nonlinear_arith)
            requires
                a % b == c * a1 - (c * b1) * q,
        ;
        lemma_mod_multiples_basic(a1 - b1 * q, c);
        lemma_gcd_greatest(b, a % b, c);
    }
}

/// A positive divisor of a positive integer is no larger than it.
pub proof fn lemma_divisor_le(a: int, c: int)
    requires
        1 <= a,
        1 <= c,
        a % c == 0,
    ensures
        c <= a,
{
    if c > a {
        lemma_small_mod(a as nat, c as nat);
    }
}

/// The greatest common divisor of `num1` and `num2`: the divisor both are
/// divided by to bring a fraction `num1/num2` to lowest terms.
pub fn reduction(num1: i64, num2: i64) -> (r: i64)
    requires
        0 <= num1,
        1 <= num2,
    ensures
        r == gcd(num1 as int, num2 as int),
        1 <= r,
        r <= num2,
        num1 as int % r as int == 0,
        num2 as int % r as int == 0,
        forall|c: int| 1 <= c && #[trigger] (num1 as int % c) == 0 && num2 as int % c == 0 ==> c <= r,
{
    let mut a: i64 = num1;
    let mut b: i64 = num2;
    while b != 0
        invariant
            0 <= a,
            0 <= b,
            a >= 1 || b >= 1,
            gcd(a as int, b as int) == gcd(num1 as int, num2 as int),
        decreases b,
    {
        let t: i64 = a % b;
        a = b;
        b = t;
    }
    proof {
        lemma_gcd_divides(num1 as int, num2 as int);
        lemma_divisor_le(num2 as int, a as int);
        assert forall|c: int|
            1 <= c && #[trigger] (num1 as int % c) == 0 && num2 as int % c == 0 implies c
            <= a as int by {
            lemma_gcd_greatest(num1 as int, num2 as int, c);
            lemma_divisor_le(a as int, c);
        }
    }
    a
}

/// The multipliers and the least common multiple of two positive
/// denominators: `common_multiple(d1, d2)` returns `(m1, m2, l)` with
/// `d1 * m1 == d2 * m2 == l == lcm(d1, d2)`.
pub fn common_multiple(num1: i64, num2: i64) -> (r: (i64, i64, i64))
    requires
        1 <= num1,
        1 <= num2,
        num1 * num2 <= i64::MAX,
    ensures
        r.2 == lcm(num1 as int, num2 as int),
        num1 * r.0 == r.2,
        num2 * r.1 == r.2,
        r.0 == num2 as int / gcd(num1 as int, num2 as int),
        r.1 == num1 as int / gcd(num1 as int, num2 as int),
        1 <= r.0,
        1 <= r.1,
        1 <= r.2 <= num1 * num2,
{
    let g = reduction(num1, num2);
    proof {
        lemma_gcd_divides(num1 as int, num2 as int);
    }
    let m1 = num2 / g;
    let m2 = num1 / g;
    proof {
        let gi = g as int;
        let n1 = num1 as int;
        let n2 = num2 as int;
        lemma_fundamental_div_mod(n2, gi);
        lemma_fundamental_div_mod(n1, gi);
        assert(n2 == gi * (n2 / gi));
        assert(n1 == gi * (n1 / gi));
        assert(1 <= n2 / gi) by (nonlinear_arith)
            requires
                n2 == gi * (n2 / gi),
                1 <= n2,
                1 <= gi,
        ;
        assert(1 <= n1 / gi) by (nonlinear_arith)
            requires
                n1 == gi * (n1 / gi),
                1 <= n1,
                1 <= gi,
        ;
        assert(n1 * (n2 / gi) <= n1 * n2) by (nonlinear_arith)
            requires
                n2 == gi * (n2 / gi),
                1 <= n1,
                1 <= n2,
                1 <= gi,
                1 <= n2 / gi,
        ;
        assert(n1 * (n2 / gi) == n2 * (n1 / gi)) by (nonlinear_arith)
            requires
                n2 == gi * (n2 / gi),
                n1 == gi * (n1 / gi),
                1 <= gi,
        ;
        assert(1 <= n1 * (n2 / gi)) by (nonlinear_arith)
            requires
                1 <= n1,
                1 <= n2 / gi,
        ;
    }
    let l = num1 * m1;
    (m1, m2, l)
}

} // verus!
