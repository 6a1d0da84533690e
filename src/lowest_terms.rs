//! Facts about the greatest common divisor and fractions in lowest terms.

use vstd::prelude::*;
use vstd::arithmetic::div_mod::{lemma_fundamental_div_mod, lemma_fundamental_div_mod_converse};
use crate::fraction::{abs, gcd, is_reduced, reduce};

verus! {

/// The greatest common divisor divides both arguments.
pub proof fn lemma_gcd_divides(a: nat, b: nat)
    requires
        a > 0 || b > 0,
    ensures
        gcd(a, b) > 0,
        a % gcd(a, b) == 0,
        b % gcd(a, b) == 0,
    decreases b,
{
    if b == 0 {
        lemma_fundamental_div_mod_converse(a as int, a as int, 1, 0);
        lemma_fundamental_div_mod_converse(0, a as int, 0, 0);
    } else {
        let r = a % b;
        lemma_fundamental_div_mod(a as int, b as int);
        lemma_gcd_divides(b, r);
        let g = gcd(b, r);
        lemma_fundamental_div_mod(b as int, g as int);
        lemma_fundamental_div_mod(r as int, g as int);
        let kb = b / g;
        let kr = r / g;
        let q = a / b;
        assert(a == g * (q * kb + kr)) by (nonlinear_arith)
            requires
                a == b * q + r,
                b == g * kb,
                r == g * kr,
        ;
        lemma_fundamental_div_mod_converse(a as int, g as int, (q * kb + kr) as int, 0);
    }
}

/// A common divisor of both arguments divides their greatest common divisor.
pub proof fn lemma_common_divisor_divides_gcd(a: nat, b: nat, c: nat)
    requires
        c > 0,
        a % c == 0,
        b % c == 0,
    ensures
        gcd(a, b) % c == 0,
    decreases b,
{
    if b > 0 {
        let r = a % b;
        lemma_fundamental_div_mod(a as int, b as int);
        lemma_fundamental_div_mod(a as int, c as int);
        lemma_fundamental_div_mod(b as int, c as int);
        let ka = a / c;
        let kb = b / c;
        let q = a / b;
        assert(r == c * (ka - q * kb)) by (nonlinear_arith)
            requires
                a == b * q + r,
                a == c * ka,
                b == c * kb,
        ;
        lemma_fundamental_div_mod_converse(r as int, c as int, ka - q * kb, 0);
        lemma_common_divisor_divides_gcd(b, r, c);
    }
}

/// Scaling both arguments scales their greatest common divisor.
pub proof fn lemma_gcd_scale(k: nat, a: nat, b: nat)
    requires
        k > 0,
    ensures
        gcd(k * a, k * b) == k * gcd(a, b),
    decreases b,
{
    if b > 0 {
        let r = a % b;
        let q = a / b;
        lemma_fundamental_div_mod(a as int, b as int);
        assert(k * a == (k * b) * q + k * r) by (nonlinear_arith)
            requires
                a == b * q + r,
        ;
        assert(0 <= k * r < k * b) by (nonlinear_arith)
            requires
                0 <= r < b,
                k > 0,
        ;
        lemma_fundamental_div_mod_converse((k * a) as int, (k * b) as int, q as int, (k * r) as int);
        assert(k * b > 0) by (nonlinear_arith)
            requires
                k > 0,
                b > 0,
        ;
        lemma_gcd_scale(k, b, r);
    } else {
        assert(k * b == 0);
    }
}

proof fn lemma_exact_div(x: int, g: int, q: int)
    requires
        g > 0,
        x == g * q,
    ensures
        x / g == q,
        (-x) / g == -q,
{
    assert(x == q * g + 0 && -x == (-q) * g + 0) by (nonlinear_arith)
        requires
            x == g * q,
    ;
    lemma_fundamental_div_mod_converse(x, g, q, 0);
    lemma_fundamental_div_mod_converse(-x, g, -q, 0);
}

/// Dividing by the greatest common divisor leaves a pair in lowest terms.
pub proof fn lemma_reduce_is_reduced(n: int, d: int)
    requires
        d != 0,
    ensures
        is_reduced(reduce(n, d)),
        reduce(n, d).0 * d == n * reduce(n, d).1,
{
    let a = abs(n);
    let b = abs(d);
    let g = gcd(a, b);
    lemma_gcd_divides(a, b);
    lemma_fundamental_div_mod(a as int, g as int);
    lemma_fundamental_div_mod(b as int, g as int);
    let a1 = a / g;
    let b1 = b / g;
    assert(a == g * a1 && b == g * b1);
    lemma_gcd_scale(g, a1, b1);
    assert(g * gcd(a1, b1) == g * 1);
    assert(gcd(a1, b1) == 1) by (nonlinear_arith)
        requires
            g * gcd(a1, b1) == g * 1,
            g > 0,
    ;
    lemma_exact_div(a as int, g as int, a1 as int);
    lemma_exact_div(b as int, g as int, b1 as int);
    assert(b1 > 0) by (nonlinear_arith)
        requires
            b == g * b1,
            b > 0,
            g > 0,
    ;
    let p = reduce(n, d);
    let gi = g as int;
    let ai = a as int;
    let bi = b as int;
    assert(ai / gi == a1 && (-ai) / gi == -a1 && bi / gi == b1);
    if d > 0 {
        assert(d == bi);
        assert(p.1 == bi / gi);
        if n < 0 {
            assert(n == -ai);
            assert(p.0 == (-ai) / gi);
        } else {
            assert(n == ai);
            assert(p.0 == ai / gi);
        }
    } else {
        assert(-d == bi);
        assert(p.1 == bi / gi);
        if n < 0 {
            assert(-n == ai);
            assert(p.0 == ai / gi);
        } else {
            assert(-n == -ai);
            assert(p.0 == (-ai) / gi);
        }
    }
    assert(abs(p.0) == a1);
    assert(p.0 * d == n * p.1) by (nonlinear_arith)
        requires
            ai == gi * a1,
            bi == gi * b1,
            p.1 == b1,
            (d == bi && n == ai && p.0 == a1) || (d == bi && n == -ai && p.0 == -a1) || (d == -bi
                && n == ai && p.0 == -a1) || (d == -bi && n == -ai && p.0 == a1),
    ;
}

/// A pair already in lowest terms is left as it is by reduction.
pub proof fn lemma_reduce_reduced(p: (int, int))
    requires
        is_reduced(p),
    ensures
        reduce(p.0, p.1) == p,
{
    assert(abs(p.1) == p.1 as nat);
    assert(gcd(abs(p.0), abs(p.1)) == 1);
}

/// Two pairs in lowest terms that stand for the same number are the same pair.
pub proof fn lemma_reduced_unique(p: (int, int), q: (int, int))
    requires
        is_reduced(p),
        is_reduced(q),
        p.0 * q.1 == q.0 * p.1,
    ensures
        p == q,
{
    let a1 = abs(p.0);
    let a2 = abs(q.0);
    let d1 = p.1 as nat;
    let d2 = q.1 as nat;
    assert(a1 * d2 == a2 * d1) by (nonlinear_arith)
        requires
            p.0 * q.1 == q.0 * p.1,
            a1 == abs(p.0),
            a2 == abs(q.0),
            d1 == p.1,
            d2 == q.1,
            d1 > 0,
            d2 > 0,
    ;
    lemma_divides_other_denominator(a1, d1, a2, d2);
    lemma_divides_other_denominator(a2, d2, a1, d1);
    lemma_fundamental_div_mod(d2 as int, d1 as int);
    lemma_fundamental_div_mod(d1 as int, d2 as int);
    assert(d1 == d2) by (nonlinear_arith)
        requires
            d2 == d1 * (d2 / d1),
            d1 == d2 * (d1 / d2),
            d1 > 0,
            d2 > 0,
    ;
    assert(p.0 == q.0) by (nonlinear_arith)
        requires
            p.0 * q.1 == q.0 * p.1,
            p.1 == q.1,
            p.1 > 0,
    ;
}

proof fn lemma_divides_other_denominator(a1: nat, d1: nat, a2: nat, d2: nat)
    requires
        d1 > 0,
        d2 > 0,
        gcd(a1, d1) == 1,
        a1 * d2 == a2 * d1,
    ensures
        d2 % d1 == 0,
{
    lemma_gcd_scale(d2, a1, d1);
    assert(d2 * a1 == a2 * d1 && d2 * d1 == d2 * d1) by (nonlinear_arith)
        requires
            a1 * d2 == a2 * d1,
    ;
    lemma_fundamental_div_mod_converse((a2 * d1) as int, d1 as int, a2 as int, 0);
    lemma_fundamental_div_mod_converse((d2 * d1) as int, d1 as int, d2 as int, 0);
    lemma_common_divisor_divides_gcd(d2 * a1, d2 * d1, d1);
}

} // verus!
