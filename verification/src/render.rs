//! Rendering numbers as text: decimal digits for machine integers, and the
//! fraction layout (a bare integer when the denominator is one, numerator
//! slash denominator otherwise).

use vstd::prelude::*;

verus! {

/// The character of a decimal digit value.
pub open spec fn digit_char(d: nat) -> char
    recommends
        d < 10,
{
    ((48 + d) as u8) as char
}

/// The decimal digits of a natural number, most significant first.
pub open spec fn dec_digits(n: nat) -> Seq<char>
    decreases n,
{
    if n < 10 {
        seq![digit_char(n)]
    } else {
        dec_digits(n / 10).push(digit_char(n % 10))
    }
}

/// The text of an integer: decimal digits, with a leading minus sign when
/// it is negative.
pub open spec fn dec_int(v: int) -> Seq<char> {
    if v < 0 {
        seq!['-'] + dec_digits((-v) as nat)
    } else {
        dec_digits(v as nat)
    }
}

/// The text of a fraction, in its current representation: a bare integer
/// when the denominator is one, numerator slash denominator otherwise.
pub open spec fn frac_text(a: (int, int)) -> Seq<char> {
    if a.1 == 1 {
        dec_int(a.0)
    } else {
        dec_int(a.0) + seq!['/'] + dec_int(a.1)
    }
}

/// Relies on `String`'s `FromIterator` implementation: collecting a vector
/// of characters yields the string made of exactly those characters.
#[verifier::external_body]
pub(crate) fn chars_to_string(v: Vec<char>) -> (s: String)
    ensures
        s@ == v@,
{
    v.into_iter().collect()
}

/// Appends the decimal digits of `m`.
pub(crate) fn push_dec(out: &mut Vec<char>, m: u64)
    ensures
        final(out)@ == old(out)@ + dec_digits(m as nat),
    decreases m,
{
    if m < 10 {
        out.push((48 + m as u8) as char);
        proof {
            assert(out@ =~= old(out)@ + dec_digits(m as nat));
        }
    } else {
        push_dec(out, m / 10);
        out.push((48 + (m % 10) as u8) as char);
        proof {
            assert(out@ =~= old(out)@ + dec_digits(m as nat));
        }
    }
}

/// Appends the text of a signed machine integer.
pub(crate) fn push_int(out: &mut Vec<char>, n: i64)
    ensures
        final(out)@ == old(out)@ + dec_int(n as int),
{
    if n < 0 {
        out.push('-');
        let m: u64 = (-(n as i128)) as u64;
        push_dec(out, m);
        proof {
            assert(out@ =~= old(out)@ + dec_int(n as int));
        }
    } else {
        push_dec(out, n as u64);
    }
}

} // verus!
