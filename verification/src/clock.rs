//! The clock and the calendar, both taken from `chrono`.

use vstd::prelude::*;

verus! {

/// The date and time of day, in UTC, of the instant `seconds` after the
/// epoch, written as `DD/MM/YYYY HH:MM:SS`; `None` for an instant outside the
/// years that `chrono` can represent.
pub uninterp spec fn date_time_text(seconds: i64) -> Option<Seq<char>>;

/// The present instant in whole seconds since the epoch: the system time,
/// turned into a `chrono::DateTime` by its `From<SystemTime>`, which takes an
/// instant before the epoch as well as one after it, and read with
/// `DateTime::timestamp`. Nothing is claimed of the value.
#[verifier::external_body]
pub(crate) fn now_seconds() -> i64 {
    chrono::DateTime::<chrono::Utc>::from(std::time::SystemTime::now()).timestamp()
}

/// A character that a date and time is written with: a digit, a slash, a
/// space, a colon, or the sign of a year beyond four digits.
pub open spec fn is_date_time_char(c: char) -> bool {
    ('0' <= c <= '9') || c == '/' || c == ' ' || c == ':' || c == '+' || c == '-'
}

/// A text made of the characters that a date and time is written with.
pub open spec fn is_date_time_text(text: Seq<char>) -> bool {
    forall|i: int| 0 <= i < text.len() ==> is_date_time_char(#[trigger] text[i])
}

/// A text of a date and time holds neither a comma nor a line feed.
pub proof fn lemma_date_time_stays_in_field(text: Seq<char>)
    requires
        is_date_time_text(text),
    ensures
        !text.contains(','),
        !text.contains('\n'),
{
    assert forall|k: int| 0 <= k < text.len() implies text[k] != ',' && text[k] != '\n' by {
        assert(is_date_time_char(text[k]));
    }
}

/// Formats an instant with `chrono`: `DateTime::from_timestamp` for the
/// instant, which gives `None` outside the range of years, and
/// `DateTime::format` with the pattern `%d/%m/%Y %H:%M:%S`. The result is
/// the named text of `seconds`. The pattern writes digits, slashes, a space,
/// colons and, for years beyond four digits, a sign, and nothing else.
#[verifier::external_body]
pub(crate) fn format_date_time(seconds: i64) -> (text: Option<String>)
    ensures
        match text {
            Some(written) => date_time_text(seconds) == Some(written@) && is_date_time_text(
                written@,
            ),
            None => date_time_text(seconds) is None,
        },
{
    let instant = chrono::DateTime::<chrono::Utc>::from_timestamp(seconds, 0)?;
    Some(instant.format("%d/%m/%Y %H:%M:%S").to_string())
}

} // verus!
