//! The syntax of numbers with a fraction, as text.
//!
//! The library never computes with such a number. It decides whether a text
//! denotes one, so that the caller can convert it without failure, and
//! whether a text is a rendering with two decimals.
//!
//! A number is written as the standard library's parser of binary
//! floating-point numbers accepts it:
//!
//! ```text
//! Text   ::= Sign? ( 'inf' | 'infinity' | 'nan' | Number )
//! Number ::= ( Digit+ | Digit+ '.' Digit* | Digit* '.' Digit+ ) Exp?
//! Exp    ::= 'e' Sign? Digit+
//! Sign   ::= [+-]
//! Digit  ::= [0-9]
//! ```
//!
//! where the letters may be in either case.

use crate::decimal::{is_digit, is_digit_char};
use vstd::prelude::*;

verus! {

/// A plus or a minus sign.
pub open spec fn is_sign(c: char) -> bool {
    c == '+' || c == '-'
}

/// The index behind the digits that stand in `s` from index `from` on.
pub open spec fn digit_run_end(s: Seq<char>, from: int) -> int
    decreases s.len() - from,
{
    if 0 <= from < s.len() && is_digit(s[from]) {
        digit_run_end(s, from + 1)
    } else {
        from
    }
}

/// `c` is the letter whose two cases are `small` and `capital`.
pub open spec fn is_letter(c: char, small: char, capital: char) -> bool {
    c == small || c == capital
}

/// From index `start` on, `s` is one of the words `inf`, `infinity` and
/// `nan`, in any mix of cases.
pub open spec fn is_special_from(s: Seq<char>, start: int) -> bool {
    let inf = s.len() >= start + 3 && is_letter(s[start], 'i', 'I') && is_letter(
        s[start + 1],
        'n',
        'N',
    ) && is_letter(s[start + 2], 'f', 'F');
    let inity = s.len() == start + 8 && is_letter(s[start + 3], 'i', 'I') && is_letter(
        s[start + 4],
        'n',
        'N',
    ) && is_letter(s[start + 5], 'i', 'I') && is_letter(s[start + 6], 't', 'T') && is_letter(
        s[start + 7],
        'y',
        'Y',
    );
    let nan = s.len() == start + 3 && is_letter(s[start], 'n', 'N') && is_letter(
        s[start + 1],
        'a',
        'A',
    ) && is_letter(s[start + 2], 'n', 'N');
    nan || (inf && (s.len() == start + 3 || inity))
}

/// From index `at` to its end, `s` is an exponent: the letter `e`, an
/// optional sign and one or more digits.
pub open spec fn is_exponent_from(s: Seq<char>, at: int) -> bool {
    0 <= at < s.len() && is_letter(s[at], 'e', 'E') && {
        let digits_start = if at + 1 < s.len() && is_sign(s[at + 1]) {
            at + 2
        } else {
            at + 1
        };
        digits_start < s.len() && digit_run_end(s, digits_start) == s.len()
    }
}

/// From index `start` to its end, `s` is a number: digits with at most one
/// point among them, at least one digit in all, and an optional exponent.
pub open spec fn is_number_from(s: Seq<char>, start: int) -> bool {
    let whole_end = digit_run_end(s, start);
    let pointed = whole_end < s.len() && s[whole_end] == '.';
    let mantissa_end = if pointed {
        digit_run_end(s, whole_end + 1)
    } else {
        whole_end
    };
    let digit_count = if pointed {
        mantissa_end - start - 1
    } else {
        mantissa_end - start
    };
    digit_count >= 1 && (mantissa_end == s.len() || is_exponent_from(s, mantissa_end))
}

/// `s` denotes a number with a fraction: an optional sign, then one of the
/// three words or a number.
pub open spec fn is_number_text(s: Seq<char>) -> bool {
    let start: int = if s.len() > 0 && is_sign(s[0]) {
        1
    } else {
        0
    };
    is_special_from(s, start) || is_number_from(s, start)
}

/// `s` is a number rendered with two decimals: an optional minus sign, one
/// or more digits, a point and two digits; or one of `inf`, `-inf` and `NaN`.
pub open spec fn is_two_decimals(s: Seq<char>) -> bool {
    let start: int = if s.len() > 0 && s[0] == '-' {
        1
    } else {
        0
    };
    let whole_end = digit_run_end(s, start);
    let number = whole_end > start && s.len() == whole_end + 3 && s[whole_end] == '.' && is_digit(
        s[whole_end + 1],
    ) && is_digit(s[whole_end + 2]);
    number || s == seq!['i', 'n', 'f'] || s == seq!['-', 'i', 'n', 'f'] || s == seq!['N', 'a', 'N']
}

/// Where a run of digits ends: within the text, behind digits only, and in
/// front of something else.
pub proof fn lemma_digit_run_end(s: Seq<char>, from: int)
    requires
        0 <= from <= s.len(),
    ensures
        from <= digit_run_end(s, from) <= s.len(),
        forall|k: int| from <= k < digit_run_end(s, from) ==> is_digit(#[trigger] s[k]),
        digit_run_end(s, from) < s.len() ==> !is_digit(s[digit_run_end(s, from)]),
    decreases s.len() - from,
{
    if from < s.len() && is_digit(s[from]) {
        lemma_digit_run_end(s, from + 1);
    }
}

/// A rendering with two decimals holds neither a comma nor a line feed.
pub proof fn lemma_two_decimals_stay_in_field(s: Seq<char>)
    requires
        is_two_decimals(s),
    ensures
        !s.contains(','),
        !s.contains('\n'),
{
    let start: int = if s.len() > 0 && s[0] == '-' {
        1
    } else {
        0
    };
    lemma_digit_run_end(s, start);
    let whole_end = digit_run_end(s, start);
    assert forall|k: int| 0 <= k < s.len() implies s[k] != ',' && s[k] != '\n' by {
        if start <= k < whole_end {
            assert(is_digit(s[k]));
        }
    }
}

/// The index behind the digits that stand in `chars` from `from` on.
fn digits_end(chars: &Vec<char>, from: usize) -> (end: usize)
    requires
        from <= chars.len(),
    ensures
        end == digit_run_end(chars@, from as int),
        from <= end <= chars.len(),
{
    let mut end: usize = from;
    while end < chars.len() && is_digit_char(chars[end])
        invariant
            from <= end <= chars.len(),
            digit_run_end(chars@, from as int) == digit_run_end(chars@, end as int),
        decreases chars.len() - end,
    {
        end += 1;
    }
    end
}

/// Decides `is_letter`.
fn letter_is(c: char, small: char, capital: char) -> (same: bool)
    ensures
        same == is_letter(c, small, capital),
{
    c == small || c == capital
}

/// Decides `is_special_from`.
fn special_from(chars: &Vec<char>, start: usize) -> (special: bool)
    requires
        start <= 1,
    ensures
        special == is_special_from(chars@, start as int),
{
    let len = chars.len();
    if len == start + 3 {
        (letter_is(chars[start], 'n', 'N') && letter_is(chars[start + 1], 'a', 'A') && letter_is(
            chars[start + 2],
            'n',
            'N',
        )) || (letter_is(chars[start], 'i', 'I') && letter_is(chars[start + 1], 'n', 'N')
            && letter_is(chars[start + 2], 'f', 'F'))
    } else if len == start + 8 {
        letter_is(chars[start], 'i', 'I') && letter_is(chars[start + 1], 'n', 'N') && letter_is(
            chars[start + 2],
            'f',
            'F',
        ) && letter_is(chars[start + 3], 'i', 'I') && letter_is(chars[start + 4], 'n', 'N')
            && letter_is(chars[start + 5], 'i', 'I') && letter_is(chars[start + 6], 't', 'T')
            && letter_is(chars[start + 7], 'y', 'Y')
    } else {
        false
    }
}

/// Decides `is_exponent_from`.
fn exponent_from(chars: &Vec<char>, at: usize) -> (exponent: bool)
    requires
        at < chars.len(),
    ensures
        exponent == is_exponent_from(chars@, at as int),
{
    if !letter_is(chars[at], 'e', 'E') {
        return false;
    }
    let mut digits_start: usize = at + 1;
    if digits_start < chars.len() && (chars[digits_start] == '+' || chars[digits_start] == '-') {
        digits_start += 1;
    }
    digits_start < chars.len() && digits_end(chars, digits_start) == chars.len()
}

/// Decides `is_number_from`.
fn number_from(chars: &Vec<char>, start: usize) -> (number: bool)
    requires
        start <= chars.len(),
    ensures
        number == is_number_from(chars@, start as int),
{
    let whole_end = digits_end(chars, start);
    let pointed = whole_end < chars.len() && chars[whole_end] == '.';
    let mantissa_end = if pointed {
        digits_end(chars, whole_end + 1)
    } else {
        whole_end
    };
    let digit_count = if pointed {
        mantissa_end - start - 1
    } else {
        mantissa_end - start
    };
    digit_count >= 1 && (mantissa_end == chars.len() || exponent_from(chars, mantissa_end))
}

/// Whether `chars` denotes a number with a fraction.
pub fn is_number_chars(chars: &Vec<char>) -> (number: bool)
    ensures
        number == is_number_text(chars@),
{
    let start: usize = if chars.len() > 0 && (chars[0] == '+' || chars[0] == '-') {
        1
    } else {
        0
    };
    special_from(chars, start) || number_from(chars, start)
}

/// Whether `chars` is a number rendered with two decimals.
pub fn is_two_decimal_chars(chars: &Vec<char>) -> (rendered: bool)
    ensures
        rendered == is_two_decimals(chars@),
{
    let len = chars.len();
    let start: usize = if len > 0 && chars[0] == '-' {
        1
    } else {
        0
    };
    let whole_end = digits_end(chars, start);
    let number = whole_end > start && len - whole_end == 3 && chars[whole_end] == '.'
        && is_digit_char(chars[whole_end + 1]) && is_digit_char(chars[whole_end + 2]);
    let inf = len == 3 && chars[0] == 'i' && chars[1] == 'n' && chars[2] == 'f';
    let minus_inf = len == 4 && chars[0] == '-' && chars[1] == 'i' && chars[2] == 'n' && chars[3]
        == 'f';
    let nan = len == 3 && chars[0] == 'N' && chars[1] == 'a' && chars[2] == 'N';
    proof {
        if inf {
            assert(chars@ =~= seq!['i', 'n', 'f']);
        }
        if minus_inf {
            assert(chars@ =~= seq!['-', 'i', 'n', 'f']);
        }
        if nan {
            assert(chars@ =~= seq!['N', 'a', 'N']);
        }
    }
    number || inf || minus_inf || nan
}

} // verus!
