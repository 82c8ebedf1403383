//! Greatest common divisors of natural numbers and lowest terms of a pair of
//! integers: the arithmetic on which exact fractions rest.
use vstd::prelude::*;
use vstd::arithmetic::div_mod::{lemma_fundamental_div_mod, lemma_truncate_middle};

verus! {

/// The magnitude of an integer.
pub open spec fn magnitude(x: int) -> nat {
    if x < 0 {
        (-x) as nat
    } else {
        x as nat
    }
}

/// The greatest common divisor of `a` and `b`, by Euclid's recursion.
/// `gcd_nat(a, 0)` is `a`, so `gcd_nat(0, 0)` is 0.
pub open spec fn gcd_nat(a: nat, b: nat) -> nat
    decreases b,
{
    if b == 0 {
        a
    } else {
        gcd_nat(b, a % b)
    }
}

/// `g * q + r` is a multiple of `g` when `r` is.
proof fn lemma_multiple_plus(g: int, q: int, r: int)
    requires
        g > 0,
        r % g == 0,
    ensures
        (g * q + r) % g == 0,
{
    lemma_fundamental_div_mod(r, g);
    let k = r / g;
    assert(g * q + r == g * (q + k)) by (nonlinear_arith)
        requires
            r == g * k,
    ;
    assert((g * (q + k)) % g == 0) by (nonlinear_arith)
        requires
            g > 0,
    ;
}

/// The greatest common divisor is positive unless both numbers are 0, and
/// divides both numbers.
pub proof fn lemma_gcd_divides(a: nat, b: nat)
    requires
        a > 0 || b > 0,
    ensures
        gcd_nat(a, b) > 0,
        a % gcd_nat(a, b) == 0,
        b % gcd_nat(a, b) == 0,
    decreases b,
{
    if b == 0 {
        assert(a % a == 0) by (nonlinear_arith)
            requires
                a > 0,
        ;
        assert(0nat % a == 0) by (nonlinear_arith)
            requires
                a > 0,
        ;
    } else {
        let r = a % b;
        let g = gcd_nat(b, r);
        lemma_gcd_divides(b, r);
        lemma_fundamental_div_mod(a as int, b as int);
        lemma_fundamental_div_mod(b as int, g as int);
        let q = (a / b) as int;
        let k = (b / g) as int;
        assert(b as int * q == g as int * (k * q)) by (nonlinear_arith)
            requires
                b as int == g as int * k,
        ;
        lemma_multiple_plus(g as int, k * q, r as int);
    }
}

/// Every common divisor of two numbers divides their greatest common divisor.
pub proof fn lemma_gcd_greatest(a: nat, b: nat, c: nat)
    requires
        c > 0,
        a % c == 0,
        b % c == 0,
    ensures
        gcd_nat(a, b) % c == 0,
    decreases b,
{
    if b != 0 {
        let r = a % b;
        lemma_fundamental_div_mod(a as int, b as int);
        lemma_fundamental_div_mod(a as int, c as int);
        lemma_fundamental_div_mod(b as int, c as int);
        let q = (a / b) as int;
        let ka = (a / c) as int;
        let kb = (b / c) as int;
        assert(r as int == c as int * (ka - kb * q)) by (nonlinear_arith)
            requires
                a as int == b as int * q + r as int,
                a as int == c as int * ka,
                b as int == c as int * kb,
        ;
        assert((c as int * (ka - kb * q)) % (c as int) == 0) by (nonlinear_arith)
            requires
                c > 0,
        ;
        lemma_gcd_greatest(b, r, c);
    }
}

/// Scaling both numbers by `k` scales their greatest common divisor by `k`.
pub proof fn lemma_gcd_scale(a: nat, b: nat, k: nat)
    requires
        k > 0,
    ensures
        gcd_nat(a * k, b * k) == gcd_nat(a, b) * k,
    decreases b,
{
    if b == 0 {
        assert(b * k == 0) by (nonlinear_arith)
            requires
                b == 0,
        ;
    } else {
        assert(b * k > 0) by (nonlinear_arith)
            requires
                b > 0,
                k > 0,
        ;
        lemma_truncate_middle(a as int, k as int, b as int);
        assert(a * k == k * a && b * k == k * b && (a % b) * k == k * (a % b))
            by (nonlinear_arith);
        assert((a * k) % (b * k) == (a % b) * k);
        lemma_gcd_scale(b, a % b, k);
    }
}

/// The greatest common divisor of two numbers, by Euclid's algorithm.
pub fn gcd(a: u128, b: u128) -> (g: u128)
    ensures
        g == gcd_nat(a as nat, b as nat),
{
    let mut x: u128 = a;
    let mut y: u128 = b;
    while y != 0
        invariant
            gcd_nat(x as nat, y as nat) == gcd_nat(a as nat, b as nat),
        decreases y,
    {
        let r: u128 = x % y;
        x = y;
        y = r;
    }
    x
}

/// The fraction `n / d` in lowest terms with a positive denominator, as the
/// pair of its numerator and denominator. It is meant for `d != 0`.
pub open spec fn lowest_terms(n: int, d: int) -> (int, int) {
    let g = gcd_nat(magnitude(n), magnitude(d));
    let p = (magnitude(n) / g) as int;
    let q = (magnitude(d) / g) as int;
    if (n < 0) != (d < 0) {
        (-p, q)
    } else {
        (p, q)
    }
}

/// Whether `(p, q)` is a fraction in lowest terms with a positive denominator.
pub open spec fn is_lowest_terms(p: int, q: int) -> bool {
    q > 0 && gcd_nat(magnitude(p), magnitude(q)) == 1
}

/// A quotient by a divisor, times that divisor, gives the number back.
proof fn lemma_exact_quotient(a: nat, g: nat)
    requires
        g > 0,
        a % g == 0,
    ensures
        (a / g) * g == a,
{
    lemma_fundamental_div_mod(a as int, g as int);
    assert((a / g) * g == g * (a / g)) by (nonlinear_arith);
}

/// A product divided by one of its factors is the other factor.
proof fn lemma_quotient_of_product(a: nat, g: nat)
    requires
        g > 0,
    ensures
        (a * g) / g == a,
{
    assert((a * g) / g == a) by (nonlinear_arith)
        requires
            g > 0,
    ;
}

/// `lowest_terms(n, d)` is in lowest terms and has the value of `n / d`.
pub proof fn lemma_lowest_terms_canonical(n: int, d: int)
    requires
        d != 0,
    ensures
        is_lowest_terms(lowest_terms(n, d).0, lowest_terms(n, d).1),
        lowest_terms(n, d).0 * d == n * lowest_terms(n, d).1,
{
    let a = magnitude(n);
    let b = magnitude(d);
    let g = gcd_nat(a, b);
    lemma_gcd_divides(a, b);
    lemma_exact_quotient(a, g);
    lemma_exact_quotient(b, g);
    let p = a / g;
    let q = b / g;
    lemma_gcd_scale(p, q, g);
    assert(gcd_nat(p, q) == 1) by (nonlinear_arith)
        requires
            gcd_nat(p, q) * g == g,
            g > 0,
    ;
    assert(q > 0) by (nonlinear_arith)
        requires
            q * g == b,
            b > 0,
            g > 0,
    ;
    assert(p as int * b as int == a as int * q as int) by (nonlinear_arith)
        requires
            p * g == a,
            q * g == b,
    ;
    assert(lowest_terms(n, d).0 * d == n * lowest_terms(n, d).1) by (nonlinear_arith)
        requires
            p as int * b as int == a as int * q as int,
            lowest_terms(n, d).1 == q as int,
            lowest_terms(n, d).0 == (if (n < 0) != (d < 0) {
                -(p as int)
            } else {
                p as int
            }),
            a as int == (if n < 0 {
                -n
            } else {
                n
            }),
            b as int == (if d < 0 {
                -d
            } else {
                d
            }),
    ;
}

/// A fraction in lowest terms with a positive denominator is its own lowest
/// terms.
pub proof fn lemma_lowest_terms_fixed(p: int, q: int)
    requires
        is_lowest_terms(p, q),
    ensures
        lowest_terms(p, q) == (p, q),
{
    assert(magnitude(p) / 1 == magnitude(p));
    assert(magnitude(q) / 1 == magnitude(q));
}

/// Scaling numerator and denominator by the same number, other than 0, does
/// not change the lowest terms.
pub proof fn lemma_lowest_terms_scale(n: int, d: int, k: int)
    requires
        d != 0,
        k != 0,
    ensures
        lowest_terms(n * k, d * k) == lowest_terms(n, d),
{
    let a = magnitude(n);
    let b = magnitude(d);
    let m = magnitude(k);
    let g = gcd_nat(a, b);
    assert(magnitude(n * k) == a * m && magnitude(d * k) == b * m && d * k != 0 && ((n * k < 0)
        == ((n < 0) != (k < 0) && n != 0)) && ((d * k < 0) == ((d < 0) != (k < 0))))
        by (nonlinear_arith)
        requires
            d != 0,
            k != 0,
            a as int == (if n < 0 {
                -n
            } else {
                n
            }),
            b as int == (if d < 0 {
                -d
            } else {
                d
            }),
            m as int == (if k < 0 {
                -k
            } else {
                k
            }),
    ;
    lemma_gcd_scale(a, b, m);
    lemma_gcd_divides(a, b);
    lemma_exact_quotient(a, g);
    lemma_exact_quotient(b, g);
    let p = a / g;
    let q = b / g;
    let gm = g * m;
    assert(gm > 0 && a * m == p * gm && b * m == q * gm) by (nonlinear_arith)
        requires
            gm == g * m,
            g > 0,
            m > 0,
            p * g == a,
            q * g == b,
    ;
    lemma_quotient_of_product(p, gm);
    lemma_quotient_of_product(q, gm);
    if n == 0 {
        assert(p == 0) by (nonlinear_arith)
            requires
                p * g == 0,
                g > 0,
        ;
    }
}

/// Two fractions of the same value have the same lowest terms.
pub proof fn lemma_lowest_terms_same_value(n1: int, d1: int, n2: int, d2: int)
    requires
        d1 != 0,
        d2 != 0,
        n1 * d2 == n2 * d1,
    ensures
        lowest_terms(n1, d1) == lowest_terms(n2, d2),
{
    lemma_lowest_terms_scale(n1, d1, d2);
    lemma_lowest_terms_scale(n2, d2, d1);
    assert(d1 * d2 == d2 * d1) by (nonlinear_arith);
}

} // verus!
