//! The minimal record that the synchronisation path works on, and the reader
//! that recovers such records from persisted log lines.
//!
//! A well-formed line has five fields separated by commas: the date and time,
//! the capture time in seconds since the epoch, the sensor, the temperature
//! and the power. Only the second, third and fifth are read.

use crate::decimal::{digits_i32, i32_value, keep_digits, only_digits, parse_digits, parse_integer};
use crate::text::{chars_of, lemma_split_nonempty, split_chars, split_on, trim, trim_chars};
use std::cmp::Ordering;
use vstd::prelude::*;

verus! {

/// One persisted reading, reduced to what is uploaded: the capture time in
/// seconds since the epoch, the sensor index and the power in watts.
///
/// Two records are equal when all three fields are; the order that sorting
/// uses looks at the capture time alone.
#[derive(Clone, Copy, Debug, PartialEq, Eq, Structural)]
pub struct CurrentcostLine {
    pub timestamp: i32,
    pub sensor: i32,
    pub power: i32,
}

/// Why a log line gave no record.
#[derive(Clone, Copy, Debug, PartialEq, Eq, Structural)]
pub enum LineError {
    /// The second field is not an integer.
    InvalidTimestamp,
    /// The third field holds no digits, or too many.
    InvalidSensor,
    /// The fifth field holds no digits, or too many.
    InvalidPower,
    /// The line does not have exactly five fields.
    WrongFieldCount,
}

/// The capture time that the second field of a line denotes: the field
/// without surrounding white space, read as an integer.
pub open spec fn timestamp_field(field: Seq<char>) -> Option<i32> {
    i32_value(trim(field))
}

/// The number that the third or the fifth field of a line denotes: its
/// digits, read as one number.
pub open spec fn digits_field(field: Seq<char>) -> Option<i32> {
    digits_i32(only_digits(field))
}

/// What a log line denotes. The fields are looked at from left to right, and
/// the first one that cannot be read decides the error; a line whose fields
/// can all be read but are not five in number has the wrong field count.
pub open spec fn parse_line_spec(line: Seq<char>) -> Result<CurrentcostLine, LineError> {
    let fields = split_on(line, ',');
    if fields.len() > 1 && timestamp_field(fields[1]) is None {
        Err(LineError::InvalidTimestamp)
    } else if fields.len() > 2 && digits_field(fields[2]) is None {
        Err(LineError::InvalidSensor)
    } else if fields.len() > 4 && digits_field(fields[4]) is None {
        Err(LineError::InvalidPower)
    } else if fields.len() != 5 {
        Err(LineError::WrongFieldCount)
    } else {
        Ok(
            CurrentcostLine {
                timestamp: timestamp_field(fields[1])->0,
                sensor: digits_field(fields[2])->0,
                power: digits_field(fields[4])->0,
            },
        )
    }
}

/// The records that a sequence of lines denotes: those of the lines that can
/// be read, in the order of the lines.
pub open spec fn parse_all_spec(lines: Seq<Seq<char>>) -> Seq<CurrentcostLine>
    decreases lines.len(),
{
    if lines.len() == 0 {
        Seq::empty()
    } else {
        let before = parse_all_spec(lines.drop_last());
        match parse_line_spec(lines.last()) {
            Ok(record) => before.push(record),
            Err(_) => before,
        }
    }
}

/// The indices of the lines that cannot be read, in ascending order.
pub open spec fn rejected_spec(lines: Seq<Seq<char>>) -> Seq<int>
    decreases lines.len(),
{
    if lines.len() == 0 {
        Seq::empty()
    } else {
        let before = rejected_spec(lines.drop_last());
        match parse_line_spec(lines.last()) {
            Ok(_) => before,
            Err(_) => before.push(lines.len() - 1),
        }
    }
}

/// The indices that a vector holds, as integers.
pub open spec fn indices_of(indices: Seq<usize>) -> Seq<int> {
    Seq::new(indices.len(), |k: int| indices[k] as int)
}

/// What a vector of string slices holds, each by its characters.
pub open spec fn texts_of(lines: Seq<&str>) -> Seq<Seq<char>> {
    Seq::new(lines.len(), |i: int| lines[i]@)
}

/// No line is read twice or lost: a line gives a record or is rejected.
pub proof fn lemma_every_line_accounted(lines: Seq<Seq<char>>)
    ensures
        parse_all_spec(lines).len() + rejected_spec(lines).len() == lines.len(),
        forall|k: int|
            0 <= k < rejected_spec(lines).len() ==> {
                &&& 0 <= (#[trigger] rejected_spec(lines)[k]) < lines.len()
                &&& parse_line_spec(lines[rejected_spec(lines)[k]]) is Err
            },
    decreases lines.len(),
{
    if lines.len() > 0 {
        let shorter = lines.drop_last();
        lemma_every_line_accounted(shorter);
        let before = rejected_spec(shorter);
        let all = rejected_spec(lines);
        assert forall|k: int| 0 <= k < all.len() implies {
            &&& 0 <= (#[trigger] all[k]) < lines.len()
            &&& parse_line_spec(lines[all[k]]) is Err
        } by {
            if k < before.len() {
                assert(all[k] == before[k]);
                assert(lines[before[k]] == shorter[before[k]]);
            }
        }
    }
}

impl CurrentcostLine {
    /// The order of records: by capture time alone.
    pub open spec fn time_order(self, other: CurrentcostLine) -> Ordering {
        if self.timestamp < other.timestamp {
            Ordering::Less
        } else if self.timestamp == other.timestamp {
            Ordering::Equal
        } else {
            Ordering::Greater
        }
    }

    /// Compares two records by capture time alone.
    pub fn cmp(&self, other: &CurrentcostLine) -> (order: Ordering)
        ensures
            order == self.time_order(*other),
    {
        if self.timestamp < other.timestamp {
            Ordering::Less
        } else if self.timestamp == other.timestamp {
            Ordering::Equal
        } else {
            Ordering::Greater
        }
    }
}

impl PartialOrd for CurrentcostLine {
    /// Compares two records by capture time alone, as `cmp` does.
    fn partial_cmp(&self, other: &CurrentcostLine) -> (order: Option<Ordering>) {
        Some(self.cmp(other))
    }
}

impl vstd::std_specs::cmp::PartialOrdSpecImpl for CurrentcostLine {
    open spec fn obeys_partial_cmp_spec() -> bool {
        true
    }

    open spec fn partial_cmp_spec(&self, other: &CurrentcostLine) -> Option<Ordering> {
        Some(self.time_order(*other))
    }
}

impl LineError {
    /// The text of the error.
    pub open spec fn message_spec(self) -> Seq<char> {
        match self {
            LineError::InvalidTimestamp => "Invalid timestamp"@,
            LineError::InvalidSensor => "Invalid sensor"@,
            LineError::InvalidPower => "Invalid power"@,
            LineError::WrongFieldCount => "Failed to parse line - not enough pieces"@,
        }
    }

    /// The text of the error, for a report.
    pub fn message(&self) -> (text: &'static str)
        ensures
            text@ == self.message_spec(),
    {
        match self {
            LineError::InvalidTimestamp => "Invalid timestamp",
            LineError::InvalidSensor => "Invalid sensor",
            LineError::InvalidPower => "Invalid power",
            LineError::WrongFieldCount => "Failed to parse line - not enough pieces",
        }
    }
}

/// Reads one log line given by its characters.
pub fn parse_chars(line: &Vec<char>) -> (result: Result<CurrentcostLine, LineError>)
    ensures
        result == parse_line_spec(line@),
{
    let fields = split_chars(line, ',');
    proof {
        lemma_split_nonempty(line@, ',');
    }
    let ghost pieces = split_on(line@, ',');
    assert(forall|i: int| 0 <= i < fields.len() ==> fields[i]@ == #[trigger] pieces[i]);
    let mut timestamp: i32 = 0;
    let mut sensor: i32 = 0;
    let mut power: i32 = 0;
    if fields.len() > 1 {
        assert(fields[1]@ == pieces[1]);
        match parse_integer(&trim_chars(&fields[1])) {
            Some(value) => {
                timestamp = value;
            },
            None => {
                return Err(LineError::InvalidTimestamp);
            },
        }
    }
    if fields.len() > 2 {
        assert(fields[2]@ == pieces[2]);
        match parse_digits(&keep_digits(&fields[2])) {
            Some(value) => {
                sensor = value;
            },
            None => {
                return Err(LineError::InvalidSensor);
            },
        }
    }
    if fields.len() > 4 {
        assert(fields[4]@ == pieces[4]);
        match parse_digits(&keep_digits(&fields[4])) {
            Some(value) => {
                power = value;
            },
            None => {
                return Err(LineError::InvalidPower);
            },
        }
    }
    if fields.len() == 5 {
        Ok(CurrentcostLine { timestamp, sensor, power })
    } else {
        Err(LineError::WrongFieldCount)
    }
}

/// Reads one log line.
pub fn parse_line(line: &str) -> (result: Result<CurrentcostLine, LineError>)
    ensures
        result == parse_line_spec(line@),
{
    parse_chars(&chars_of(line))
}

/// Reads every line and keeps the records of those that can be read, in the
/// order of the lines. A line that cannot be read is skipped.
pub fn parse_all_lines(lines: Vec<&str>) -> (records: Vec<CurrentcostLine>)
    ensures
        records@ == parse_all_spec(texts_of(lines@)),
{
    let ghost texts = texts_of(lines@);
    let mut records: Vec<CurrentcostLine> = Vec::new();
    let mut i: usize = 0;
    assert(texts.take(0) == Seq::<Seq<char>>::empty());
    while i < lines.len()
        invariant
            i <= lines.len(),
            texts == texts_of(lines@),
            records@ == parse_all_spec(texts.take(i as int)),
        decreases lines.len() - i,
    {
        assert(texts.take(i + 1).drop_last() == texts.take(i as int));
        assert(texts.take(i + 1).last() == lines[i as int]@);
        match parse_line(lines[i]) {
            Ok(record) => {
                records.push(record);
            },
            Err(_) => {},
        }
        i += 1;
    }
    assert(texts.take(i as int) == texts);
    records
}

/// The indices of the lines that cannot be read, in ascending order, so that
/// the caller can report each line that `parse_all_lines` skips.
pub fn rejected_lines(lines: &Vec<&str>) -> (rejected: Vec<usize>)
    ensures
        indices_of(rejected@) == rejected_spec(texts_of(lines@)),
{
    let ghost texts = texts_of(lines@);
    let mut rejected: Vec<usize> = Vec::new();
    let mut i: usize = 0;
    assert(texts.take(0) == Seq::<Seq<char>>::empty());
    while i < lines.len()
        invariant
            i <= lines.len(),
            texts == texts_of(lines@),
            indices_of(rejected@) == rejected_spec(texts.take(i as int)),
        decreases lines.len() - i,
    {
        assert(texts.take(i + 1).drop_last() == texts.take(i as int));
        assert(texts.take(i + 1).last() == lines[i as int]@);
        match parse_line(lines[i]) {
            Ok(_) => {},
            Err(_) => {
                let ghost before = indices_of(rejected@);
                rejected.push(i);
                assert(indices_of(rejected@) == before.push(i as int));
            },
        }
        i += 1;
    }
    assert(texts.take(i as int) == texts);
    rejected
}

} // verus!
