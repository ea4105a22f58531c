//! Greatest common divisors: the specification-level Euclidean algorithm and
//! the divisibility facts that the fraction type's normalization relies on.

use vstd::arithmetic::div_mod::{
    lemma_fundamental_div_mod, lemma_mod_division_less_than_divisor, lemma_mod_multiples_basic,
    lemma_mod_self_0, lemma_small_mod,
};
use vstd::prelude::*;

verus! {

/// Magnitude of an integer, as a natural number.
pub open spec fn mag(x: int) -> nat {
    if x < 0 {
        (-x) as nat
    } else {
        x as nat
    }
}

/// Greatest common divisor, by the Euclidean algorithm with remainders.
pub open spec fn gcd_nat(a: nat, b: nat) -> nat
    decreases b,
{
    if b == 0 {
        a
    } else {
        gcd_nat(b, a % b)
    }
}

/// `d` divides `n` evenly.  Meaningful for a positive divisor.
pub open spec fn divides(d: int, n: int) -> bool
    recommends
        d >= 1,
{
    n % d == 0
}

/// A number divides each of its multiples.
pub proof fn lemma_mul_divides(d: int, k: int)
    requires
        d >= 1,
    ensures
        divides(d, d * k),
{
    lemma_mod_multiples_basic(k, d);
    assert(d * k == k * d) by (nonlinear_arith);
}

/// A divisible number is its divisor times the quotient, exactly.
pub proof fn lemma_divides_exact(d: int, n: int)
    requires
        d >= 1,
        divides(d, n),
    ensures
        n == d * (n / d),
{
    lemma_fundamental_div_mod(n, d);
}

/// Divisibility is closed under integer linear combinations.
pub proof fn lemma_divides_linear(d: int, x: int, y: int, p: int, q: int)
    requires
        d >= 1,
        divides(d, x),
        divides(d, y),
    ensures
        divides(d, p * x + q * y),
{
    lemma_divides_exact(d, x);
    lemma_divides_exact(d, y);
    let kx = x / d;
    let ky = y / d;
    assert(p * x + q * y == d * (p * kx + q * ky)) by (nonlinear_arith)
        requires
            x == d * kx,
            y == d * ky,
    ;
    lemma_mul_divides(d, p * kx + q * ky);
}

/// Divisibility is preserved under negation of the multiple.
pub proof fn lemma_divides_neg(d: int, n: int)
    requires
        d >= 1,
        divides(d, n),
    ensures
        divides(d, -n),
{
    lemma_divides_exact(d, n);
    assert(-n == d * (-(n / d))) by (nonlinear_arith)
        requires
            n == d * (n / d),
    ;
    lemma_mul_divides(d, -(n / d));
}

/// The gcd of two numbers, the first positive, is positive and divides both.
pub proof fn lemma_gcd_divides(a: nat, b: nat)
    requires
        a >= 1,
    ensures
        gcd_nat(a, b) >= 1,
        divides(gcd_nat(a, b) as int, a as int),
        divides(gcd_nat(a, b) as int, b as int),
    decreases b,
{
    if b == 0 {
        lemma_mod_self_0(a as int);
        lemma_small_mod(0, a);
    } else {
        lemma_mod_division_less_than_divisor(a as int, b as int);
        lemma_gcd_divides(b, a % b);
        let g = gcd_nat(b, a % b) as int;
        lemma_fundamental_div_mod(a as int, b as int);
        lemma_divides_linear(g, b as int, (a % b) as int, a as int / b as int, 1);
        assert((a as int / b as int) * (b as int) + 1 * ((a % b) as int) == a as int)
            by (nonlinear_arith)
            requires
                a as int == (b as int) * (a as int / b as int) + (a % b) as int,
        ;
    }
}

/// Every common divisor of two numbers divides their gcd.
pub proof fn lemma_divides_gcd(d: int, a: nat, b: nat)
    requires
        d >= 1,
        a >= 1,
        divides(d, a as int),
        divides(d, b as int),
    ensures
        divides(d, gcd_nat(a, b) as int),
    decreases b,
{
    if b != 0 {
        lemma_mod_division_less_than_divisor(a as int, b as int);
        lemma_fundamental_div_mod(a as int, b as int);
        lemma_divides_linear(d, a as int, b as int, 1, -(a as int / b as int));
        assert(1 * (a as int) + (-(a as int / b as int)) * (b as int) == (a % b) as int)
            by (nonlinear_arith)
            requires
                a as int == (b as int) * (a as int / b as int) + (a % b) as int,
        ;
        lemma_divides_gcd(d, b, a % b);
    }
}

/// A positive divisor of a positive number is no larger than it.
pub proof fn lemma_divides_le(d: int, n: int)
    requires
        d >= 1,
        n >= 1,
        divides(d, n),
    ensures
        d <= n,
{
    lemma_divides_exact(d, n);
    assert(d <= n) by (nonlinear_arith)
        requires
            n == d * (n / d),
            d >= 1,
            n >= 1,
    ;
}

/// The gcd is an integer linear combination of its arguments.
pub proof fn lemma_bezout(a: nat, b: nat) -> (c: (int, int))
    ensures
        gcd_nat(a, b) == a * c.0 + b * c.1,
    decreases b,
{
    if b == 0 {
        let c: (int, int) = (1, 0);
        assert(gcd_nat(a, b) == a * c.0 + b * c.1) by (nonlinear_arith)
            requires
                gcd_nat(a, b) == a,
                c == (1int, 0int),
        ;
        c
    } else {
        lemma_mod_division_less_than_divisor(a as int, b as int);
        let p = lemma_bezout(b, a % b);
        lemma_fundamental_div_mod(a as int, b as int);
        let q = a as int / b as int;
        let c: (int, int) = (p.1, p.0 - q * p.1);
        assert(a as int * c.0 + b as int * c.1 == b as int * p.0 + (a % b) as int * p.1)
            by (nonlinear_arith)
            requires
                a as int == (b as int) * q + (a % b) as int,
                c.0 == p.1,
                c.1 == p.0 - q * p.1,
        ;
        c
    }
}

/// Dividing two positive numbers by their gcd leaves coprime quotients.
pub proof fn lemma_quotients_coprime(a: nat, b: nat)
    requires
        a >= 1,
        b >= 1,
    ensures
        ({
            let g = gcd_nat(a, b);
            &&& g >= 1
            &&& a == g * (a / g)
            &&& b == g * (b / g)
            &&& a / g >= 1
            &&& b / g >= 1
            &&& gcd_nat(a / g, b / g) == 1
        }),
{
    let g = gcd_nat(a, b);
    lemma_gcd_divides(a, b);
    lemma_divides_exact(g as int, a as int);
    lemma_divides_exact(g as int, b as int);
    let qa = a / g;
    let qb = b / g;
    assert(qa >= 1 && qb >= 1) by (nonlinear_arith)
        requires
            a as int == g as int * qa as int,
            b as int == g as int * qb as int,
            a >= 1,
            b >= 1,
            g >= 1,
    ;
    let k = gcd_nat(qa, qb);
    lemma_gcd_divides(qa, qb);
    lemma_divides_exact(k as int, qa as int);
    lemma_divides_exact(k as int, qb as int);
    assert(k * g >= 1) by (nonlinear_arith)
        requires
            k >= 1,
            g >= 1,
    ;
    lemma_mul_divides((k * g) as int, qa as int / k as int);
    lemma_mul_divides((k * g) as int, qb as int / k as int);
    assert(a as int == (k * g) as int * (qa as int / k as int) && b as int == (k * g) as int * (
    qb as int / k as int)) by (nonlinear_arith)
        requires
            a as int == g as int * qa as int,
            b as int == g as int * qb as int,
            qa as int == k as int * (qa as int / k as int),
            qb as int == k as int * (qb as int / k as int),
    ;
    lemma_divides_gcd((k * g) as int, a, b);
    lemma_divides_le((k * g) as int, g as int);
    assert(k == 1) by (nonlinear_arith)
        requires
            k >= 1,
            g >= 1,
            k * g <= g,
    ;
}

/// A number coprime to one factor of a multiple it divides must divide
/// the other factor.
pub proof fn lemma_coprime_divides(d: nat, m: nat, n: int)
    requires
        d >= 1,
        gcd_nat(m, d) == 1,
        divides(d as int, m as int * n),
    ensures
        divides(d as int, n),
{
    let c = lemma_bezout(m, d);
    lemma_divides_exact(d as int, m as int * n);
    let k = (m as int * n) / d as int;
    assert(n == d as int * (k * c.0 + n * c.1)) by (nonlinear_arith)
        requires
            1 == m as int * c.0 + d as int * c.1,
            m as int * n == d as int * k,
    ;
    lemma_mul_divides(d as int, k * c.0 + n * c.1);
}

/// Two fractions in lowest terms with positive denominators that represent
/// the same rational value are identical.
pub proof fn lemma_lowest_terms_unique(n1: int, d1: int, n2: int, d2: int)
    requires
        d1 >= 1,
        d2 >= 1,
        n1 != 0,
        n2 != 0,
        gcd_nat(mag(n1), d1 as nat) == 1,
        gcd_nat(mag(n2), d2 as nat) == 1,
        n1 * d2 == n2 * d1,
    ensures
        n1 == n2,
        d1 == d2,
{
    lemma_each_denominator_divides_the_other(n1, d1, n2, d2);
    lemma_each_denominator_divides_the_other(n2, d2, n1, d1);
    lemma_divides_le(d1, d2);
    lemma_divides_le(d2, d1);
    assert(n1 == n2) by (nonlinear_arith)
        requires
            n1 * d2 == n2 * d1,
            d1 == d2,
            d1 >= 1,
    ;
}

/// Helper for the uniqueness of lowest terms: under those hypotheses the
/// first denominator divides the second.
proof fn lemma_each_denominator_divides_the_other(n1: int, d1: int, n2: int, d2: int)
    requires
        d1 >= 1,
        d2 >= 1,
        n1 != 0,
        gcd_nat(mag(n1), d1 as nat) == 1,
        n1 * d2 == n2 * d1,
    ensures
        divides(d1, d2),
{
    lemma_mul_divides(d1, n2);
    assert(divides(d1, n1 * d2)) by {
        assert(n1 * d2 == d1 * n2) by (nonlinear_arith)
            requires
                n1 * d2 == n2 * d1,
        ;
    }
    if n1 < 0 {
        lemma_divides_neg(d1, n1 * d2);
        assert(-(n1 * d2) == mag(n1) as int * d2) by (nonlinear_arith)
            requires
                n1 < 0,
                mag(n1) == -n1,
        ;
    }
    lemma_coprime_divides(d1 as nat, mag(n1), d2);
}

} // verus!
