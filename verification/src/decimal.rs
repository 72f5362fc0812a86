//! Decimal integers as text: what a run of digits is worth, the integer
//! syntax that the parsers accept, and the rendering that the log writer uses.

use vstd::prelude::*;
use vstd::string::StringExecFns;

verus! {

/// An ASCII decimal digit.
pub open spec fn is_digit(c: char) -> bool {
    '0' <= c <= '9'
}

/// What the digit `c` is worth.
pub open spec fn digit_value(c: char) -> int {
    c as int - '0' as int
}

/// The digit that is worth `d`, for `0 <= d <= 9`.
pub open spec fn digit_char(d: int) -> char {
    if d == 0 {
        '0'
    } else if d == 1 {
        '1'
    } else if d == 2 {
        '2'
    } else if d == 3 {
        '3'
    } else if d == 4 {
        '4'
    } else if d == 5 {
        '5'
    } else if d == 6 {
        '6'
    } else if d == 7 {
        '7'
    } else if d == 8 {
        '8'
    } else {
        '9'
    }
}

/// Every character of `s` is a digit.
pub open spec fn all_digits(s: Seq<char>) -> bool {
    forall|i: int| 0 <= i < s.len() ==> is_digit(#[trigger] s[i])
}

/// The number that a run of digits denotes, most significant digit first.
pub open spec fn digits_value(s: Seq<char>) -> int
    decreases s.len(),
{
    if s.len() == 0 {
        0
    } else {
        digits_value(s.drop_last()) * 10 + digit_value(s.last())
    }
}

/// The number that a nonempty run of digits denotes, if it fits an `i32`.
pub open spec fn digits_i32(s: Seq<char>) -> Option<i32> {
    if s.len() > 0 && all_digits(s) && digits_value(s) <= i32::MAX {
        Some(digits_value(s) as i32)
    } else {
        None
    }
}

/// The integer that `s` denotes: an optional sign, `+` or `-`, followed by
/// one or more digits and nothing else.
pub open spec fn integer_value(s: Seq<char>) -> Option<int> {
    if s.len() > 0 && s[0] == '-' {
        if s.len() > 1 && all_digits(s.skip(1)) {
            Some(-digits_value(s.skip(1)))
        } else {
            None
        }
    } else if s.len() > 0 && s[0] == '+' {
        if s.len() > 1 && all_digits(s.skip(1)) {
            Some(digits_value(s.skip(1)))
        } else {
            None
        }
    } else if s.len() > 0 && all_digits(s) {
        Some(digits_value(s))
    } else {
        None
    }
}

/// The `i32` that `s` denotes, if it denotes an integer in range.
pub open spec fn i32_value(s: Seq<char>) -> Option<i32> {
    match integer_value(s) {
        Some(v) => if i32::MIN <= v <= i32::MAX {
            Some(v as i32)
        } else {
            None
        },
        None => None,
    }
}

/// The test for a digit, as a value that `Seq::filter` takes.
pub open spec fn digit_test() -> spec_fn(char) -> bool {
    |c: char| is_digit(c)
}

/// The digits of `s`, in order, with every other character left out.
pub open spec fn only_digits(s: Seq<char>) -> Seq<char> {
    s.filter(digit_test())
}

/// The decimal digits of `n`, without leading zeros.
pub open spec fn decimal(n: nat) -> Seq<char>
    decreases n,
{
    if n < 10 {
        seq![digit_char(n as int)]
    } else {
        decimal(n / 10).push(digit_char((n % 10) as int))
    }
}

/// The decimal text of `n`: a minus sign for a negative number, then the
/// digits of its magnitude.
pub open spec fn signed_decimal(n: int) -> Seq<char> {
    if n < 0 {
        seq!['-'] + decimal((-n) as nat)
    } else {
        decimal(n as nat)
    }
}

/// A run of digits is worth at least as much as any of its prefixes.
pub proof fn lemma_digits_value_grows(s: Seq<char>, k: int)
    requires
        all_digits(s),
        0 <= k <= s.len(),
    ensures
        0 <= digits_value(s.take(k)) <= digits_value(s),
    decreases s.len() - k,
{
    lemma_digits_value_nonnegative(s.take(k));
    if k == s.len() {
        assert(s.take(k) == s);
    } else {
        lemma_digits_value_grows(s, k + 1);
        assert(s.take(k + 1).drop_last() == s.take(k));
        assert(is_digit(s[k]));
    }
}

/// A run of digits is worth no less than zero.
pub proof fn lemma_digits_value_nonnegative(s: Seq<char>)
    requires
        all_digits(s),
    ensures
        0 <= digits_value(s),
    decreases s.len(),
{
    if s.len() > 0 {
        lemma_digits_value_nonnegative(s.drop_last());
        assert(is_digit(s.last()));
    }
}

/// The rendering of `n` is a nonempty run of digits that denotes `n`.
pub proof fn lemma_decimal_denotes(n: nat)
    ensures
        decimal(n).len() >= 1,
        all_digits(decimal(n)),
        digits_value(decimal(n)) == n,
    decreases n,
{
    if n < 10 {
        let s = decimal(n);
        assert(s.drop_last() == Seq::<char>::empty());
        assert(digits_value(s.drop_last()) == 0);
    } else {
        lemma_decimal_denotes(n / 10);
        let s = decimal(n);
        assert(s.drop_last() == decimal(n / 10));
        assert(is_digit(digit_char((n % 10) as int)));
    }
}

/// Reading back the text of an integer gives the integer, and the text is
/// made of digits behind at most a minus sign: it holds neither a comma nor
/// a line feed.
pub proof fn lemma_signed_decimal_denotes(n: int)
    ensures
        integer_value(signed_decimal(n)) == Some(n),
        !signed_decimal(n).contains(','),
        !signed_decimal(n).contains('\n'),
{
    let s = signed_decimal(n);
    if n < 0 {
        lemma_decimal_denotes((-n) as nat);
        assert(s.skip(1) == decimal((-n) as nat));
        assert(s[0] == '-');
    } else {
        lemma_decimal_denotes(n as nat);
        assert(is_digit(s[0]));
    }
    assert forall|k: int| 0 <= k < s.len() implies s[k] != ',' && s[k] != '\n' by {
        if n < 0 {
            if k > 0 {
                assert(is_digit(decimal((-n) as nat)[k - 1]));
            }
        } else {
            assert(is_digit(s[k]));
        }
    }
}

/// Leaving out the non-digits of a run of digits changes nothing.
pub proof fn lemma_only_digits_keeps_digits(s: Seq<char>)
    requires
        all_digits(s),
    ensures
        only_digits(s) == s,
    decreases s.len(),
{
    reveal(Seq::filter);
    if s.len() > 0 {
        lemma_only_digits_keeps_digits(s.drop_last());
        assert(is_digit(s.last()));
        assert(s.drop_last().push(s.last()) == s);
    }
}

/// A text without digits has none to keep.
pub proof fn lemma_only_digits_of_none(s: Seq<char>)
    requires
        forall|i: int| 0 <= i < s.len() ==> !is_digit(#[trigger] s[i]),
    ensures
        only_digits(s) == Seq::<char>::empty(),
    decreases s.len(),
{
    reveal(Seq::filter);
    if s.len() > 0 {
        lemma_only_digits_of_none(s.drop_last());
        assert(!is_digit(s.last()));
    }
}

/// The digits of a concatenation are those of its parts, in order.
pub proof fn lemma_only_digits_concat(a: Seq<char>, b: Seq<char>)
    ensures
        only_digits(a + b) == only_digits(a) + only_digits(b),
{
    Seq::filter_distributes_over_add(a, b, digit_test());
}

/// Decides `is_digit`.
pub fn is_digit_char(c: char) -> (digit: bool)
    ensures
        digit == is_digit(c),
{
    '0' <= c && c <= '9'
}

/// The digits of `chars`, in order.
pub fn keep_digits(chars: &Vec<char>) -> (digits: Vec<char>)
    ensures
        digits@ == only_digits(chars@),
{
    let mut digits: Vec<char> = Vec::new();
    let mut i: usize = 0;
    proof {
        reveal(Seq::filter);
        assert(chars@.take(0) == Seq::<char>::empty());
    }
    while i < chars.len()
        invariant
            i <= chars.len(),
            digits@ == only_digits(chars@.take(i as int)),
        decreases chars.len() - i,
    {
        proof {
            reveal(Seq::filter);
            assert(chars@.take(i + 1).drop_last() == chars@.take(i as int));
        }
        if is_digit_char(chars[i]) {
            digits.push(chars[i]);
        }
        i += 1;
    }
    assert(chars@.take(i as int) == chars@);
    digits
}

/// Reads the run of digits that `chars` holds from index `from` on, if it is
/// one, is not empty and is worth no more than `limit`.
fn parse_magnitude(chars: &Vec<char>, from: usize, limit: u64) -> (value: Option<u64>)
    requires
        from <= chars.len(),
        limit <= 0x8000_0000,
    ensures
        ({
            let run = chars@.skip(from as int);
            let fits = run.len() > 0 && all_digits(run) && digits_value(run) <= limit;
            match value {
                Some(v) => fits && v == digits_value(run),
                None => !fits,
            }
        }),
{
    let ghost run = chars@.skip(from as int);
    if from == chars.len() {
        return None;
    }
    let mut total: u64 = 0;
    let mut i: usize = from;
    assert(run.take(0) == Seq::<char>::empty());
    while i < chars.len()
        invariant
            from <= i <= chars.len(),
            limit <= 0x8000_0000,
            run == chars@.skip(from as int),
            all_digits(run.take(i - from)),
            total == digits_value(run.take(i - from)),
            total <= limit,
        decreases chars.len() - i,
    {
        let c = chars[i];
        assert(run[i - from] == c);
        if !is_digit_char(c) {
            return None;
        }
        let digit: u64 = (c as u32 - '0' as u32) as u64;
        let ghost longer = run.take(i - from + 1);
        assert(longer.drop_last() == run.take(i - from));
        assert(longer.last() == c);
        assert(all_digits(longer)) by {
            assert forall|k: int| 0 <= k < longer.len() implies is_digit(#[trigger] longer[k]) by {
                if k < longer.len() - 1 {
                    assert(longer[k] == run.take(i - from)[k]);
                }
            }
        }
        total = total * 10 + digit;
        if total > limit {
            proof {
                if all_digits(run) {
                    lemma_digits_value_grows(run, i - from + 1);
                }
            }
            return None;
        }
        i += 1;
    }
    assert(run.take(i - from) == run);
    Some(total)
}

/// Reads a nonempty run of digits as an `i32`.
pub fn parse_digits(chars: &Vec<char>) -> (value: Option<i32>)
    ensures
        value == digits_i32(chars@),
{
    assert(chars@.skip(0) == chars@);
    match parse_magnitude(chars, 0, 0x7fff_ffff) {
        Some(v) => Some(v as i32),
        None => None,
    }
}

/// Reads an integer with an optional sign as an `i32`.
pub fn parse_integer(chars: &Vec<char>) -> (value: Option<i32>)
    ensures
        value == i32_value(chars@),
{
    if chars.len() > 0 && chars[0] == '-' {
        match parse_magnitude(chars, 1, 0x8000_0000) {
            Some(v) => Some((-(v as i64)) as i32),
            None => {
                proof {
                    if chars@.len() > 1 && all_digits(chars@.skip(1)) {
                        lemma_digits_value_nonnegative(chars@.skip(1));
                    }
                }
                None
            },
        }
    } else if chars.len() > 0 && chars[0] == '+' {
        match parse_magnitude(chars, 1, 0x7fff_ffff) {
            Some(v) => Some(v as i32),
            None => {
                proof {
                    if chars@.len() > 1 && all_digits(chars@.skip(1)) {
                        lemma_digits_value_nonnegative(chars@.skip(1));
                    }
                }
                None
            },
        }
    } else {
        assert(chars@.skip(0) == chars@);
        match parse_magnitude(chars, 0, 0x7fff_ffff) {
            Some(v) => Some(v as i32),
            None => {
                proof {
                    if chars@.len() > 0 && all_digits(chars@) {
                        lemma_digits_value_nonnegative(chars@);
                    }
                }
                None
            },
        }
    }
}

/// The one-character text of a digit.
fn digit_text(d: u64) -> (text: &'static str)
    requires
        d < 10,
    ensures
        text@ == seq![digit_char(d as int)],
{
    proof {
        reveal_strlit("0");
        reveal_strlit("1");
        reveal_strlit("2");
        reveal_strlit("3");
        reveal_strlit("4");
        reveal_strlit("5");
        reveal_strlit("6");
        reveal_strlit("7");
        reveal_strlit("8");
        reveal_strlit("9");
    }
    let text = if d == 0 {
        "0"
    } else if d == 1 {
        "1"
    } else if d == 2 {
        "2"
    } else if d == 3 {
        "3"
    } else if d == 4 {
        "4"
    } else if d == 5 {
        "5"
    } else if d == 6 {
        "6"
    } else if d == 7 {
        "7"
    } else if d == 8 {
        "8"
    } else {
        "9"
    };
    assert(text@ =~= seq![digit_char(d as int)]);
    text
}

/// Appends the digits of `n` to `out`.
fn append_digits(out: &mut String, n: u64)
    ensures
        final(out)@ == old(out)@ + decimal(n as nat),
    decreases n,
{
    if n >= 10 {
        append_digits(out, n / 10);
    }
    out.append(digit_text(n % 10));
    assert(out@ =~= old(out)@ + decimal(n as nat));
}

/// Appends the decimal text of `n` to `out`.
pub fn append_decimal(out: &mut String, n: i64)
    ensures
        final(out)@ == old(out)@ + signed_decimal(n as int),
{
    if n < 0 {
        proof {
            reveal_strlit("-");
        }
        out.append("-");
        let magnitude: u64 = (-(n as i128)) as u64;
        append_digits(out, magnitude);
        assert(out@ =~= old(out)@ + signed_decimal(n as int));
    } else {
        append_digits(out, n as u64);
    }
}

} // verus!
