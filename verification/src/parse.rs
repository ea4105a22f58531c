//! Parsing of numeric literals: a signed decimal integer, or a fraction
//! written as two signed integers separated by a slash.

use vstd::prelude::*;

verus! {

/// Whether the character is an ASCII decimal digit.
pub open spec fn is_digit(c: char) -> bool {
    48 <= c as u32 <= 57
}

/// The numeric value of an ASCII decimal digit.
pub open spec fn digit_val(c: char) -> int
    recommends
        is_digit(c),
{
    c as u32 - 48
}

/// Whether the sequence is one or more decimal digits.
pub open spec fn all_digits(s: Seq<char>) -> bool {
    s.len() >= 1 && forall|i: int| 0 <= i < s.len() ==> is_digit(#[trigger] s[i])
}

/// The value of a digit sequence, most significant digit first.
pub open spec fn digits_val(s: Seq<char>) -> int
    decreases s.len(),
{
    if s.len() == 0 {
        0
    } else {
        digits_val(s.drop_last()) * 10 + digit_val(s.last())
    }
}

/// The value denoted by a signed decimal integer literal: an optional
/// leading sign, then one or more digits.  Anything else denotes nothing.
pub open spec fn int_literal_val(s: Seq<char>) -> Option<int> {
    if s.len() >= 1 && (s[0] == '+' || s[0] == '-') {
        if all_digits(s.subrange(1, s.len() as int)) {
            let v = digits_val(s.subrange(1, s.len() as int));
            Some(
                if s[0] == '-' {
                    -v
                } else {
                    v
                },
            )
        } else {
            None
        }
    } else {
        if all_digits(s) {
            Some(digits_val(s))
        } else {
            None
        }
    }
}

/// The literal's value when it denotes a machine integer: exactly the
/// well-formed literals whose value fits parse.
pub open spec fn i64_literal_val(s: Seq<char>) -> Option<int> {
    match int_literal_val(s) {
        Some(v) => if i64::MIN <= v <= i64::MAX {
            Some(v)
        } else {
            None
        },
        None => None,
    }
}

/// `i` is the position of the first slash in `s`.
pub open spec fn slash_at(s: Seq<char>, i: int) -> bool {
    &&& 0 <= i < s.len()
    &&& s[i] == '/'
    &&& forall|j: int| 0 <= j < i ==> s[j] != '/'
}

/// The value denoted by a fraction literal: either a bare integer, read as
/// a numerator over one, or numerator and denominator split at the first
/// slash.  No normalization happens on parse.
pub open spec fn fraction_literal_val(s: Seq<char>) -> Option<(int, int)> {
    if exists|i: int| slash_at(s, i) {
        let i = choose|i: int| slash_at(s, i);
        match (i64_literal_val(s.subrange(0, i)), i64_literal_val(
            s.subrange(i + 1, s.len() as int),
        )) {
            (Some(n), Some(d)) => Some((n, d)),
            _ => None,
        }
    } else {
        match i64_literal_val(s) {
            Some(v) => Some((v, 1)),
            None => None,
        }
    }
}

/// At most one position is the first slash.
pub proof fn lemma_slash_at_unique(s: Seq<char>, i: int, j: int)
    requires
        slash_at(s, i),
        slash_at(s, j),
    ensures
        i == j,
{
    if i < j {
        assert(s[i] != '/');
    }
    if j < i {
        assert(s[j] != '/');
    }
}

/// The value of a digit sequence is not negative.
proof fn lemma_digits_val_nonneg(s: Seq<char>)
    requires
        forall|i: int| 0 <= i < s.len() ==> is_digit(#[trigger] s[i]),
    ensures
        digits_val(s) >= 0,
    decreases s.len(),
{
    if s.len() > 0 {
        assert(forall|i: int|
            0 <= i < s.drop_last().len() ==> is_digit(#[trigger] s.drop_last()[i]));
        lemma_digits_val_nonneg(s.drop_last());
    }
}

/// Extending a digit sequence on the right never shrinks its value.
proof fn lemma_digits_val_prefix_le(s: Seq<char>, i: int)
    requires
        forall|k: int| 0 <= k < s.len() ==> is_digit(#[trigger] s[k]),
        0 <= i <= s.len(),
    ensures
        digits_val(s.subrange(0, i)) <= digits_val(s),
    decreases s.len(),
{
    if i == s.len() {
        assert(s.subrange(0, i) =~= s);
    } else {
        assert(forall|k: int|
            0 <= k < s.drop_last().len() ==> is_digit(#[trigger] s.drop_last()[k]));
        lemma_digits_val_prefix_le(s.drop_last(), i);
        assert(s.drop_last().subrange(0, i) =~= s.subrange(0, i));
        lemma_digits_val_nonneg(s.drop_last());
        assert(digits_val(s.drop_last()) * 10 >= digits_val(s.drop_last())) by (nonlinear_arith)
            requires
                digits_val(s.drop_last()) >= 0,
        ;
    }
}

/// Reads the characters `s[from..to]` as a signed decimal integer literal.
/// The result is `Some` exactly when the spelling is well formed and the
/// value fits a machine integer, as `i64_literal_val` says.
pub fn parse_i64_range(s: &str, from: usize, to: usize) -> (r: Option<i64>)
    requires
        from <= to <= s@.len(),
    ensures
        ({
            let t = s@.subrange(from as int, to as int);
            match i64_literal_val(t) {
                Some(v) => r matches Some(x) && x as int == v,
                None => r is None,
            }
        }),
{
    let ghost t = s@.subrange(from as int, to as int);
    if from == to {
        return None;
    }
    let first = s.get_char(from);
    let neg: bool = first == '-';
    let has_sign: bool = neg || first == '+';
    let start: usize = if has_sign {
        from + 1
    } else {
        from
    };
    let ghost ds = start as int - from as int;
    let ghost dp = t.subrange(ds, t.len() as int);
    proof {
        assert(t[0] == first);
        if has_sign {
            assert(t.subrange(1, t.len() as int) =~= dp);
        } else {
            assert(t =~= dp);
        }
    }
    if start == to {
        return None;
    }
    let mut i: usize = start;
    let mut m: i128 = 0;
    while i < to
        invariant
            from <= start <= i <= to <= s@.len(),
            t == s@.subrange(from as int, to as int),
            ds == start - from,
            0 <= ds <= 1,
            dp == t.subrange(ds, t.len() as int),
            start < to,
            t.len() >= 1,
            t[0] == first,
            neg == (first == '-'),
            has_sign == (neg || first == '+'),
            has_sign ==> t.subrange(1, t.len() as int) == dp,
            !has_sign ==> t == dp,
            forall|j: int| ds <= j < i - from ==> is_digit(#[trigger] t[j]),
            m == digits_val(t.subrange(ds, i - from)),
            0 <= m <= 9223372036854775808i128,
        decreases to - i,
    {
        let c = s.get_char(i);
        let u: u32 = c as u32;
        if u < 48 || u > 57 {
            proof {
                assert(t[i - from] == c);
                assert(dp[i - from - ds] == c);
                assert(!is_digit(c));
                assert(!all_digits(dp));
            }
            return None;
        }
        proof {
            let p = t.subrange(ds, i - from);
            let p2 = t.subrange(ds, i + 1 - from);
            assert(p2.drop_last() =~= p);
            assert(p2.last() == t[i - from]);
            assert(is_digit(t[i - from]));
        }
        m = m * 10 + ((u - 48) as i128);
        i = i + 1;
        if m > 9223372036854775808i128 {
            proof {
                if all_digits(dp) {
                    assert(t.subrange(ds, i - from) =~= dp.subrange(0, i - from - ds));
                    lemma_digits_val_prefix_le(dp, i - from - ds);
                }
            }
            return None;
        }
    }
    proof {
        assert(t.subrange(ds, i - from) =~= dp);
        assert(forall|k: int| 0 <= k < dp.len() ==> is_digit(#[trigger] dp[k])) by {
            assert(forall|k: int| 0 <= k < dp.len() ==> dp[k] == #[trigger] t[k + ds]);
        }
        assert(all_digits(dp));
    }
    if neg {
        Some((-m) as i64)
    } else {
        if m > 9223372036854775807i128 {
            return None;
        }
        Some(m as i64)
    }
}

} // verus!
