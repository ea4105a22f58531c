//! The exact rational value type.
//!
//! A `Fraction` stores a numerator and a denominator verbatim: nothing is
//! validated or normalized at construction, a zero denominator ("undefined")
//! and a negative denominator are representable, and arithmetic works on the
//! unnormalized representations.  Only an explicit `simplify` canonicalizes
//! a value, and equality compares the canonical forms.

use crate::gcd::{gcd_nat, lemma_lowest_terms_unique, lemma_quotients_coprime, mag};
use crate::parse::{fraction_literal_val, lemma_slash_at_unique, parse_i64_range, slash_at};
use crate::render::{chars_to_string, frac_text, push_int};
use vstd::prelude::*;

verus! {

/// The error returned when a string is not a fraction literal.
#[derive(Debug)]
pub struct ParseFractionError;

/// An exact rational number: a numerator over a denominator, kept exactly
/// as constructed.
#[derive(Debug, Clone, Copy)]
pub struct Fraction {
    pub numerator: i64,
    pub denominator: i64,
}

impl View for Fraction {
    type V = (int, int);

    open spec fn view(&self) -> (int, int) {
        (self.numerator as int, self.denominator as int)
    }
}

/// Whether a mathematical integer fits in the machine representation.
pub open spec fn in_i64(x: int) -> bool {
    i64::MIN <= x <= i64::MAX
}

/// Negation: the numerator changes sign.
pub open spec fn frac_neg(a: (int, int)) -> (int, int) {
    (-a.0, a.1)
}

/// Swapping numerator and denominator.
pub open spec fn frac_recip(a: (int, int)) -> (int, int) {
    (a.1, a.0)
}

/// Addition on the raw representations: numerators add directly when the
/// denominators already match, and cross-multiplication is used otherwise.
pub open spec fn frac_add(a: (int, int), b: (int, int)) -> (int, int) {
    if a.1 == b.1 {
        (a.0 + b.0, a.1)
    } else {
        (a.0 * b.1 + b.0 * a.1, a.1 * b.1)
    }
}

/// Subtraction: addition of the negated second operand.
pub open spec fn frac_sub(a: (int, int), b: (int, int)) -> (int, int) {
    frac_add(a, frac_neg(b))
}

/// Multiplication: componentwise products.
pub open spec fn frac_mul(a: (int, int), b: (int, int)) -> (int, int) {
    (a.0 * b.0, a.1 * b.1)
}

/// Division: multiplication by the reciprocal.
pub open spec fn frac_div(a: (int, int), b: (int, int)) -> (int, int) {
    frac_mul(a, frac_recip(b))
}

/// The canonical form: lowest terms with a positive denominator.  A zero
/// numerator or a zero denominator is left untouched, by design.
pub open spec fn frac_canon(a: (int, int)) -> (int, int) {
    if a.0 == 0 || a.1 == 0 {
        a
    } else {
        let g = gcd_nat(mag(a.0), mag(a.1)) as int;
        let nq = mag(a.0) as int / g;
        let dq = mag(a.1) as int / g;
        if (a.0 < 0) == (a.1 < 0) {
            (nq, dq)
        } else {
            (-nq, dq)
        }
    }
}

/// Value equality: two representations stand for the same fraction exactly
/// when their canonical forms coincide.
pub open spec fn frac_value_eq(a: (int, int), b: (int, int)) -> bool {
    frac_canon(a) == frac_canon(b)
}

/// Both fractions name the same rational number, by cross-multiplication.
/// For representations with nonzero numerators and denominators this
/// agrees with `frac_value_eq` (see `lemma_value_eq_is_cross_mul`).
pub open spec fn same_value(a: (int, int), b: (int, int)) -> bool {
    a.0 * b.1 == b.0 * a.1
}

/// Whether `a + b` can be computed without leaving the machine integers.
pub open spec fn add_fits(a: (int, int), b: (int, int)) -> bool {
    if a.1 == b.1 {
        in_i64(a.0 + b.0)
    } else {
        &&& in_i64(a.0 * b.1)
        &&& in_i64(b.0 * a.1)
        &&& in_i64(a.0 * b.1 + b.0 * a.1)
        &&& in_i64(a.1 * b.1)
    }
}

/// Whether `a - b` can be computed without leaving the machine integers.
pub open spec fn sub_fits(a: (int, int), b: (int, int)) -> bool {
    in_i64(-b.0) && add_fits(a, frac_neg(b))
}

/// Whether `a * b` can be computed without leaving the machine integers.
pub open spec fn mul_fits(a: (int, int), b: (int, int)) -> bool {
    in_i64(a.0 * b.0) && in_i64(a.1 * b.1)
}

/// Whether `a / b` can be computed without leaving the machine integers.
pub open spec fn div_fits(a: (int, int), b: (int, int)) -> bool {
    mul_fits(a, frac_recip(b))
}

/// Magnitude of a machine integer, widened so that `i64::MIN` is handled.
fn mag_u64(x: i64) -> (m: u64)
    ensures
        m as nat == mag(x as int),
{
    if x < 0 {
        (-(x as i128)) as u64
    } else {
        x as u64
    }
}

/// Greatest common divisor of two positive numbers, by the Euclidean
/// algorithm with remainders.
fn gcd(a: u64, b: u64) -> (g: u64)
    requires
        a >= 1,
        b >= 1,
    ensures
        g as nat == gcd_nat(a as nat, b as nat),
        g >= 1,
{
    let mut x: u64 = a;
    let mut y: u64 = b;
    while y != 0
        invariant
            x >= 1,
            gcd_nat(x as nat, y as nat) == gcd_nat(a as nat, b as nat),
        decreases y,
    {
        let r: u64 = x % y;
        x = y;
        y = r;
    }
    x
}

/// The canonical form of a nonzero, defined fraction, given as a sign and
/// two magnitudes so that every input can be reduced without overflow.
fn canon_parts(n: i64, d: i64) -> (r: (bool, u64, u64))
    requires
        n != 0,
        d != 0,
    ensures
        ({
            let c = frac_canon((n as int, d as int));
            &&& (r.0 <==> c.0 < 0)
            &&& r.1 as nat == mag(c.0)
            &&& r.2 as int == c.1
            &&& r.1 as nat <= mag(n as int)
            &&& r.2 as nat <= mag(d as int)
        }),
{
    let mn: u64 = mag_u64(n);
    let md: u64 = mag_u64(d);
    proof {
        lemma_quotients_coprime(mn as nat, md as nat);
    }
    let g: u64 = gcd(mn, md);
    let nq: u64 = mn / g;
    let dq: u64 = md / g;
    proof {
        assert(nq <= mn && dq <= md) by (nonlinear_arith)
            requires
                mn as int == g as int * (mn as int / g as int),
                md as int == g as int * (md as int / g as int),
                nq as int == mn as int / g as int,
                dq as int == md as int / g as int,
                g >= 1,
        ;
    }
    ((n < 0) != (d < 0), nq, dq)
}

/// The canonical form of a nonzero, defined fraction is in lowest terms,
/// has a positive denominator, and names the same rational value.
pub proof fn lemma_canon_props(a: (int, int))
    requires
        a.0 != 0,
        a.1 != 0,
    ensures
        ({
            let c = frac_canon(a);
            &&& c.0 != 0
            &&& c.1 >= 1
            &&& mag(c.0) <= mag(a.0)
            &&& c.1 as nat <= mag(a.1)
            &&& gcd_nat(mag(c.0), c.1 as nat) == 1
            &&& same_value(c, a)
            &&& ((c.0 < 0) <==> ((a.0 < 0) != (a.1 < 0)))
        }),
{
    lemma_quotients_coprime(mag(a.0), mag(a.1));
    let g = gcd_nat(mag(a.0), mag(a.1)) as int;
    let nq = mag(a.0) as int / g;
    let dq = mag(a.1) as int / g;
    assert(nq <= mag(a.0) && dq <= mag(a.1)) by (nonlinear_arith)
        requires
            mag(a.0) as int == g * nq,
            mag(a.1) as int == g * dq,
            g >= 1,
            nq >= 1,
            dq >= 1,
    ;
    let c = frac_canon(a);
    if a.0 < 0 {
        if a.1 < 0 {
            assert(c.0 * a.1 == a.0 * c.1) by (nonlinear_arith)
                requires
                    c.0 == nq,
                    c.1 == dq,
                    a.0 == -(g * nq),
                    a.1 == -(g * dq),
            ;
        } else {
            assert(c.0 * a.1 == a.0 * c.1) by (nonlinear_arith)
                requires
                    c.0 == -nq,
                    c.1 == dq,
                    a.0 == -(g * nq),
                    a.1 == g * dq,
            ;
        }
    } else {
        if a.1 < 0 {
            assert(c.0 * a.1 == a.0 * c.1) by (nonlinear_arith)
                requires
                    c.0 == -nq,
                    c.1 == dq,
                    a.0 == g * nq,
                    a.1 == -(g * dq),
            ;
        } else {
            assert(c.0 * a.1 == a.0 * c.1) by (nonlinear_arith)
                requires
                    c.0 == nq,
                    c.1 == dq,
                    a.0 == g * nq,
                    a.1 == g * dq,
            ;
        }
    }
}

impl Fraction {
    /// Stores the two values verbatim: no validation, no normalization.
    pub fn new(numerator: i64, denominator: i64) -> (f: Fraction)
        ensures
            f@ == (numerator as int, denominator as int),
    {
        Fraction { numerator, denominator }
    }

    /// The fraction standing for a whole number.
    pub fn from_int(n: i64) -> (f: Fraction)
        ensures
            f@ == (n as int, 1int),
    {
        Fraction::new(n, 1)
    }

    /// Whether the value is zero: a zero numerator, whatever the denominator.
    pub fn is_zero(&self) -> (r: bool)
        ensures
            r == (self.numerator == 0),
    {
        self.numerator == 0
    }

    /// Whether the value is undefined: a zero denominator.
    pub fn is_undefined(&self) -> (r: bool)
        ensures
            r == (self.denominator == 0),
    {
        self.denominator == 0
    }

    /// Representation equality: the stored pairs match exactly.
    pub fn is_same_as(&self, other: &Fraction) -> (r: bool)
        ensures
            r == (self@ == other@),
    {
        self.numerator == other.numerator && self.denominator == other.denominator
    }

    /// Numerator and denominator swapped.  A zero numerator is not checked:
    /// the reciprocal of a zero fraction is an undefined fraction.
    pub fn reciprocal(&self) -> (r: Fraction)
        ensures
            r@ == frac_recip(self@),
    {
        Fraction::new(self.denominator, self.numerator)
    }

    /// The negated value.
    pub fn negate(self) -> (r: Fraction)
        requires
            self.numerator != i64::MIN,
        ensures
            r@ == frac_neg(self@),
    {
        Fraction::new(-self.numerator, self.denominator)
    }

    /// The sum, on the unnormalized representations.
    pub fn add(self, other: Fraction) -> (r: Fraction)
        requires
            add_fits(self@, other@),
        ensures
            r@ == frac_add(self@, other@),
    {
        if self.denominator == other.denominator {
            Fraction::new(self.numerator + other.numerator, self.denominator)
        } else {
            Fraction::new(
                self.numerator * other.denominator + other.numerator * self.denominator,
                self.denominator * other.denominator,
            )
        }
    }

    /// The difference: the sum with the negated second operand.
    pub fn subtract(self, other: Fraction) -> (r: Fraction)
        requires
            sub_fits(self@, other@),
        ensures
            r@ == frac_sub(self@, other@),
    {
        self.add(other.negate())
    }

    /// The product, on the unnormalized representations.
    pub fn multiply(self, other: Fraction) -> (r: Fraction)
        requires
            mul_fits(self@, other@),
        ensures
            r@ == frac_mul(self@, other@),
    {
        Fraction::new(
            self.numerator * other.numerator,
            self.denominator * other.denominator,
        )
    }

    /// The quotient: the product with the reciprocal.  Division by a zero
    /// fraction is not guarded; it yields an undefined fraction.
    pub fn divide(self, other: Fraction) -> (r: Fraction)
        requires
            div_fits(self@, other@),
        ensures
            r@ == frac_div(self@, other@),
    {
        self.multiply(other.reciprocal())
    }

    /// Reduces the value to canonical form in place: lowest terms, positive
    /// denominator.  A zero or undefined value is left unchanged, by design.
    pub fn simplify(&mut self)
        requires
            old(self).numerator != 0 && old(self).denominator != 0 ==> old(self).numerator
                != i64::MIN && old(self).denominator != i64::MIN,
        ensures
            final(self)@ == frac_canon(old(self)@),
            old(self).numerator != 0 && old(self).denominator != 0 ==> {
                &&& final(self).denominator >= 1
                &&& gcd_nat(mag(final(self).numerator as int), final(self).denominator as nat)
                    == 1
                &&& same_value(final(self)@, old(self)@)
            },
            old(self).numerator == 0 || old(self).denominator == 0 ==> *final(self) == *old(
                self,
            ),
    {
        if self.is_zero() || self.is_undefined() {
            return ;
        }
        proof {
            lemma_canon_props((self.numerator as int, self.denominator as int));
        }
        let r = canon_parts(self.numerator, self.denominator);
        self.numerator = if r.0 {
            -(r.1 as i64)
        } else {
            r.1 as i64
        };
        self.denominator = r.2 as i64;
    }

    /// Reads a fraction literal: either a signed decimal integer, taken as
    /// a numerator over one, or numerator and denominator separated by the
    /// first slash.  The stored value is exactly what was written: parsing
    /// does not normalize.
    pub fn from_str(s: &str) -> (r: Result<Fraction, ParseFractionError>)
        ensures
            match fraction_literal_val(s@) {
                Some(v) => r matches Ok(f) && f@ == v,
                None => r matches Err(_),
            },
    {
        let n = s.unicode_len();
        let mut i: usize = 0;
        let mut found: bool = false;
        while i < n && !found
            invariant
                i <= n,
                n == s@.len(),
                !found ==> forall|j: int| 0 <= j < i ==> s@[j] != '/',
                found ==> slash_at(s@, i as int),
            decreases
                    n - i + (if found {
                        0int
                    } else {
                        1int
                    }),
        {
            if s.get_char(i) == '/' {
                found = true;
            } else {
                i = i + 1;
            }
        }
        if found {
            proof {
                assert(exists|k: int| slash_at(s@, k));
                lemma_slash_at_unique(s@, i as int, choose|k: int| slash_at(s@, k));
            }
            let num = parse_i64_range(s, 0, i);
            let den = parse_i64_range(s, i + 1, n);
            match (num, den) {
                (Some(a), Some(b)) => Ok(Fraction::new(a, b)),
                _ => Err(ParseFractionError),
            }
        } else {
            proof {
                assert forall|k: int| !slash_at(s@, k) by {
                    if 0 <= k < s@.len() {
                        assert(s@[k] != '/');
                    }
                }
                assert(s@.subrange(0, n as int) =~= s@);
            }
            match parse_i64_range(s, 0, n) {
                Some(v) => Ok(Fraction::new(v, 1)),
                None => Err(ParseFractionError),
            }
        }
    }

    /// The value as text, in its current representation: a bare integer
    /// when the denominator is one, numerator slash denominator otherwise.
    pub fn to_text(&self) -> (s: String)
        ensures
            s@ == frac_text(self@),
    {
        let mut v: Vec<char> = Vec::new();
        push_int(&mut v, self.numerator);
        if self.denominator != 1 {
            v.push('/');
            push_int(&mut v, self.denominator);
        }
        proof {
            assert(v@ =~= frac_text(self@));
        }
        chars_to_string(v)
    }

    /// A normalized copy; the value itself is left as it is.
    pub fn clone_simplified(&self) -> (r: Fraction)
        requires
            self.numerator != 0 && self.denominator != 0 ==> self.numerator != i64::MIN
                && self.denominator != i64::MIN,
        ensures
            r@ == frac_canon(self@),
    {
        let mut f = self.clone();
        f.simplify();
        f
    }
}

impl PartialEq for Fraction {
    /// Value equality: representation equality is checked first as a short
    /// cut, and otherwise the canonical forms are compared.  The comparison
    /// works on sign and magnitudes so that it is total: even the most
    /// negative machine integer can be compared without overflow.
    fn eq(&self, other: &Fraction) -> (r: bool)
        ensures
            r == frac_value_eq(self@, other@),
    {
        if self.is_same_as(other) {
            return true;
        }
        if self.numerator == 0 || self.denominator == 0 || other.numerator == 0
            || other.denominator == 0 {
            proof {
                if self.numerator != 0 && self.denominator != 0 {
                    lemma_canon_props(self@);
                }
                if other.numerator != 0 && other.denominator != 0 {
                    lemma_canon_props(other@);
                }
            }
            return false;
        }
        let p1 = canon_parts(self.numerator, self.denominator);
        let p2 = canon_parts(other.numerator, other.denominator);
        proof {
            let ca = frac_canon(self@);
            let cb = frac_canon(other@);
            assert(ca.0 == if p1.0 {
                -(p1.1 as int)
            } else {
                p1.1 as int
            });
            assert(cb.0 == if p2.0 {
                -(p2.1 as int)
            } else {
                p2.1 as int
            });
        }
        p1.0 == p2.0 && p1.1 == p2.1 && p1.2 == p2.2
    }
}

impl vstd::std_specs::cmp::PartialEqSpecImpl for Fraction {
    open spec fn obeys_eq_spec() -> bool {
        true
    }

    open spec fn eq_spec(&self, other: &Fraction) -> bool {
        frac_value_eq(self@, other@)
    }
}

impl PartialEq<i64> for Fraction {
    /// Equality against a whole number: equality with that number over a
    /// denominator of one.
    fn eq(&self, other: &i64) -> (r: bool)
        ensures
            r == frac_value_eq(self@, (*other as int, 1int)),
    {
        let f = Fraction::from_int(*other);
        *self == f
    }
}

impl vstd::std_specs::cmp::PartialEqSpecImpl<i64> for Fraction {
    open spec fn obeys_eq_spec() -> bool {
        true
    }

    open spec fn eq_spec(&self, other: &i64) -> bool {
        frac_value_eq(self@, (*other as int, 1int))
    }
}

/// Value equality is reflexive.
pub proof fn lemma_value_eq_reflexive(a: (int, int))
    ensures
        frac_value_eq(a, a),
{
}

/// Value equality is symmetric.
pub proof fn lemma_value_eq_symmetric(a: (int, int), b: (int, int))
    ensures
        frac_value_eq(a, b) == frac_value_eq(b, a),
{
}

/// Value equality is transitive.
pub proof fn lemma_value_eq_transitive(a: (int, int), b: (int, int), c: (int, int))
    requires
        frac_value_eq(a, b),
        frac_value_eq(b, c),
    ensures
        frac_value_eq(a, c),
{
}

/// Value equality is representation-independent: on fractions with nonzero
/// numerators and denominators it coincides with the cross-multiplication
/// test, so it depends only on the rational number named.
pub proof fn lemma_value_eq_is_cross_mul(a: (int, int), b: (int, int))
    requires
        a.0 != 0,
        a.1 != 0,
        b.0 != 0,
        b.1 != 0,
    ensures
        frac_value_eq(a, b) <==> same_value(a, b),
{
    lemma_canon_props(a);
    lemma_canon_props(b);
    let ca = frac_canon(a);
    let cb = frac_canon(b);
    if frac_value_eq(a, b) {
        assert(a.0 * b.1 * (ca.1 * cb.1) == b.0 * a.1 * (ca.1 * cb.1)) by (nonlinear_arith)
            requires
                ca.0 * a.1 == a.0 * ca.1,
                cb.0 * b.1 == b.0 * cb.1,
                ca == cb,
        ;
        assert(a.0 * b.1 == b.0 * a.1) by (nonlinear_arith)
            requires
                a.0 * b.1 * (ca.1 * cb.1) == b.0 * a.1 * (ca.1 * cb.1),
                ca.1 >= 1,
                cb.1 >= 1,
        ;
    }
    if same_value(a, b) {
        assert(ca.0 * cb.1 * (a.1 * b.1) == cb.0 * ca.1 * (a.1 * b.1)) by (nonlinear_arith)
            requires
                ca.0 * a.1 == a.0 * ca.1,
                cb.0 * b.1 == b.0 * cb.1,
                a.0 * b.1 == b.0 * a.1,
        ;
        assert(ca.0 * cb.1 == cb.0 * ca.1) by (nonlinear_arith)
            requires
                ca.0 * cb.1 * (a.1 * b.1) == cb.0 * ca.1 * (a.1 * b.1),
                a.1 != 0,
                b.1 != 0,
        ;
        lemma_lowest_terms_unique(ca.0, ca.1, cb.0, cb.1);
    }
}

/// Two fractions that name the same rational number as a third, whose
/// denominator is nonzero, name the same rational number.
proof fn lemma_same_value_transitive(a: (int, int), b: (int, int), c: (int, int))
    requires
        b.1 != 0,
        same_value(a, b),
        same_value(b, c),
    ensures
        same_value(a, c),
{
    assert(a.0 * c.1 * b.1 == c.0 * a.1 * b.1) by (nonlinear_arith)
        requires
            a.0 * b.1 == b.0 * a.1,
            b.0 * c.1 == c.0 * b.1,
    ;
    assert(a.0 * c.1 == c.0 * a.1) by (nonlinear_arith)
        requires
            a.0 * c.1 * b.1 == c.0 * a.1 * b.1,
            b.1 != 0,
    ;
}

/// Addition is commutative, even on the raw representations.
pub proof fn lemma_add_commutative(a: (int, int), b: (int, int))
    ensures
        frac_add(a, b) == frac_add(b, a),
{
    if a.1 != b.1 {
        assert(a.0 * b.1 + b.0 * a.1 == b.0 * a.1 + a.0 * b.1 && a.1 * b.1 == b.1 * a.1)
            by (nonlinear_arith);
    }
}

/// Multiplication is commutative, even on the raw representations.
pub proof fn lemma_mul_commutative(a: (int, int), b: (int, int))
    ensures
        frac_mul(a, b) == frac_mul(b, a),
{
    assert(a.0 * b.0 == b.0 * a.0 && a.1 * b.1 == b.1 * a.1) by (nonlinear_arith);
}

/// Multiplication is associative, even on the raw representations.
pub proof fn lemma_mul_associative(a: (int, int), b: (int, int), c: (int, int))
    ensures
        frac_mul(frac_mul(a, b), c) == frac_mul(a, frac_mul(b, c)),
{
    assert((a.0 * b.0) * c.0 == a.0 * (b.0 * c.0) && (a.1 * b.1) * c.1 == a.1 * (b.1 * c.1))
        by (nonlinear_arith);
}

/// A sum names the same rational number as the plain cross-multiplication
/// form, and its denominator stays nonzero.
proof fn lemma_add_flat(a: (int, int), b: (int, int))
    requires
        a.1 != 0,
        b.1 != 0,
    ensures
        frac_add(a, b).1 != 0,
        same_value(frac_add(a, b), (a.0 * b.1 + b.0 * a.1, a.1 * b.1)),
{
    let s = frac_add(a, b);
    if a.1 == b.1 {
        assert((a.0 + b.0) * (a.1 * b.1) == (a.0 * b.1 + b.0 * a.1) * a.1) by (nonlinear_arith)
            requires
                a.1 == b.1,
        ;
    } else {
        assert(a.1 * b.1 != 0) by (nonlinear_arith)
            requires
                a.1 != 0,
                b.1 != 0,
        ;
    }
}

/// Addition is associative up to value equality, for defined operands whose
/// sum is not zero.  (A zero sum can come out with different denominators
/// under the two groupings, and those representations do not compare equal.)
pub proof fn lemma_add_associative(a: (int, int), b: (int, int), c: (int, int))
    requires
        a.1 != 0,
        b.1 != 0,
        c.1 != 0,
        a.0 * (b.1 * c.1) + b.0 * (a.1 * c.1) + c.0 * (a.1 * b.1) != 0,
    ensures
        frac_value_eq(frac_add(frac_add(a, b), c), frac_add(a, frac_add(b, c))),
{
    let s = a.0 * (b.1 * c.1) + b.0 * (a.1 * c.1) + c.0 * (a.1 * b.1);
    let dd = a.1 * (b.1 * c.1);
    let t = (s, dd);
    assert(dd != 0) by (nonlinear_arith)
        requires
            a.1 != 0,
            b.1 != 0,
            c.1 != 0,
            dd == a.1 * (b.1 * c.1),
    ;
    let ab = frac_add(a, b);
    let l = frac_add(ab, c);
    lemma_add_flat(a, b);
    lemma_add_flat(ab, c);
    let nab = a.0 * b.1 + b.0 * a.1;
    let fl = (ab.0 * c.1 + c.0 * ab.1, ab.1 * c.1);
    assert(fl.1 != 0) by (nonlinear_arith)
        requires
            ab.1 != 0,
            c.1 != 0,
            fl.1 == ab.1 * c.1,
    ;
    assert(s == nab * c.1 + c.0 * (a.1 * b.1)) by (nonlinear_arith)
        requires
            s == a.0 * (b.1 * c.1) + b.0 * (a.1 * c.1) + c.0 * (a.1 * b.1),
            nab == a.0 * b.1 + b.0 * a.1,
    ;
    assert(fl.0 * dd == (ab.0 * c.1) * dd + (c.0 * ab.1) * dd) by (nonlinear_arith)
        requires
            fl.0 == ab.0 * c.1 + c.0 * ab.1,
    ;
    assert((ab.0 * c.1) * dd == (ab.0 * (a.1 * b.1)) * (c.1 * c.1)) by (nonlinear_arith)
        requires
            dd == a.1 * (b.1 * c.1),
    ;
    assert((c.0 * ab.1) * dd == (c.0 * (a.1 * b.1)) * (ab.1 * c.1)) by (nonlinear_arith)
        requires
            dd == a.1 * (b.1 * c.1),
    ;
    assert((ab.0 * (a.1 * b.1)) * (c.1 * c.1) == (nab * c.1) * (ab.1 * c.1)) by (nonlinear_arith)
        requires
            ab.0 * (a.1 * b.1) == nab * ab.1,
    ;
    assert((nab * c.1) * (ab.1 * c.1) + (c.0 * (a.1 * b.1)) * (ab.1 * c.1) == s * (ab.1 * c.1))
        by (nonlinear_arith)
        requires
            s == nab * c.1 + c.0 * (a.1 * b.1),
    ;
    assert(same_value(fl, t));
    lemma_same_value_transitive(l, fl, t);
    let bc = frac_add(b, c);
    let r = frac_add(a, bc);
    lemma_add_flat(b, c);
    lemma_add_flat(a, bc);
    let nbc = b.0 * c.1 + c.0 * b.1;
    let fr = (a.0 * bc.1 + bc.0 * a.1, a.1 * bc.1);
    assert(fr.1 != 0) by (nonlinear_arith)
        requires
            a.1 != 0,
            bc.1 != 0,
            fr.1 == a.1 * bc.1,
    ;
    assert(s == a.0 * (b.1 * c.1) + nbc * a.1) by (nonlinear_arith)
        requires
            s == a.0 * (b.1 * c.1) + b.0 * (a.1 * c.1) + c.0 * (a.1 * b.1),
            nbc == b.0 * c.1 + c.0 * b.1,
    ;
    assert(fr.0 * dd == (a.0 * bc.1) * dd + (bc.0 * a.1) * dd) by (nonlinear_arith)
        requires
            fr.0 == a.0 * bc.1 + bc.0 * a.1,
    ;
    assert((a.0 * bc.1) * dd == (a.0 * (b.1 * c.1)) * (a.1 * bc.1)) by (nonlinear_arith)
        requires
            dd == a.1 * (b.1 * c.1),
    ;
    assert((bc.0 * a.1) * dd == (bc.0 * (b.1 * c.1)) * (a.1 * a.1)) by (nonlinear_arith)
        requires
            dd == a.1 * (b.1 * c.1),
    ;
    assert((bc.0 * (b.1 * c.1)) * (a.1 * a.1) == (nbc * a.1) * (a.1 * bc.1)) by (nonlinear_arith)
        requires
            bc.0 * (b.1 * c.1) == nbc * bc.1,
    ;
    assert((a.0 * (b.1 * c.1)) * (a.1 * bc.1) + (nbc * a.1) * (a.1 * bc.1) == s * (a.1 * bc.1))
        by (nonlinear_arith)
        requires
            s == a.0 * (b.1 * c.1) + nbc * a.1,
    ;
    assert(same_value(fr, t));
    lemma_same_value_transitive(r, fr, t);
    assert(same_value(t, r));
    lemma_same_value_transitive(l, t, r);
    assert(l.0 != 0) by (nonlinear_arith)
        requires
            l.0 * t.1 == t.0 * l.1,
            t.0 != 0,
            t.1 != 0,
            l.1 != 0,
    ;
    assert(r.0 != 0) by (nonlinear_arith)
        requires
            r.0 * t.1 == t.0 * r.1,
            t.0 != 0,
            t.1 != 0,
            r.1 != 0,
    ;
    lemma_value_eq_is_cross_mul(l, r);
}

} // verus!
