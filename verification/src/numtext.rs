//! Decimal text for integers: the exact shape of the text that `i64`
//! rendering produces and the exact set of texts that `i64` parsing accepts,
//! with trusted wrappers around the two std functions.

use vstd::prelude::*;

verus! {

/// An ASCII decimal digit.
pub open spec fn is_digit_char(c: char) -> bool {
    48 <= c as u32 && c as u32 <= 57
}

/// The numeric value of an ASCII decimal digit.
pub open spec fn digit_char_val(c: char) -> int {
    c as u32 - 48
}

/// The ASCII digit for a value in 0..=9.
pub open spec fn digit_char(d: int) -> char {
    if d == 0 {
        '0'
    } else if d == 1 {
        '1'
    } else if d == 2 {
        '2'
    } else if d == 3 {
        '3'
    } else if d == 4 {
        '4'
    } else if d == 5 {
        '5'
    } else if d == 6 {
        '6'
    } else if d == 7 {
        '7'
    } else if d == 8 {
        '8'
    } else {
        '9'
    }
}

/// Every character of the sequence is an ASCII decimal digit.
pub open spec fn all_digit_chars(s: Seq<char>) -> bool {
    forall|i: int| 0 <= i < s.len() ==> is_digit_char(#[trigger] s[i])
}

/// The value of a sequence of decimal digits, most significant first.
pub open spec fn digits_val(s: Seq<char>) -> int
    decreases s.len(),
{
    if s.len() == 0 {
        0
    } else {
        digits_val(s.drop_last()) * 10 + digit_char_val(s.last())
    }
}

/// The decimal digits of a nonnegative integer, without a sign and without
/// leading zeros (a single '0' for zero).
pub open spec fn render_nat(n: int) -> Seq<char>
    decreases n,
{
    if n < 10 {
        seq![digit_char(n)]
    } else {
        render_nat(n / 10).push(digit_char(n % 10))
    }
}

/// The decimal text of an integer: a leading '-' for negative values, then
/// the digits of its magnitude.
pub open spec fn render_int(n: int) -> Seq<char> {
    if n < 0 {
        seq!['-'].add(render_nat(-n))
    } else {
        render_nat(n)
    }
}

/// The integer denoted by a decimal text: an optional leading '+' or '-'
/// followed by one or more digits; anything else denotes no integer.
pub open spec fn parsed_int(s: Seq<char>) -> Option<int> {
    if s.len() > 0 && (s[0] == '-' || s[0] == '+') {
        let body = s.subrange(1, s.len() as int);
        if body.len() > 0 && all_digit_chars(body) {
            Some(
                if s[0] == '-' {
                    -digits_val(body)
                } else {
                    digits_val(body)
                },
            )
        } else {
            None
        }
    } else {
        if s.len() > 0 && all_digit_chars(s) {
            Some(digits_val(s))
        } else {
            None
        }
    }
}

/// The integer denoted by a decimal text, when it fits in `i64`.
pub open spec fn parsed_i64(s: Seq<char>) -> Option<int> {
    match parsed_int(s) {
        Some(v) => if i64::MIN <= v <= i64::MAX {
            Some(v)
        } else {
            None
        },
        None => None,
    }
}

/// Relies on `i64`'s `Display` implementation: it writes the value in
/// decimal, a leading '-' for negative values, no other characters and no
/// leading zeros.
#[verifier::external_body]
pub(crate) fn int_to_text(n: i64) -> (r: String)
    ensures
        r@ == render_int(n as int),
{
    format!("{}", n)
}

/// Relies on `str::parse::<i64>` (`FromStr` for `i64`): it accepts an
/// optional leading '+' or '-' followed by one or more decimal digits,
/// rejects any other text, and rejects values outside `i64`'s range.
#[verifier::external_body]
pub(crate) fn text_to_int(s: &str) -> (r: Option<i64>)
    ensures
        match r {
            Some(n) => parsed_i64(s@) == Some(n as int),
            None => parsed_i64(s@) is None,
        },
{
    s.parse::<i64>().ok()
}

} // verus!
