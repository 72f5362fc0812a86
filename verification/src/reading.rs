//! An accepted reading and the line that is appended to the log for it.
//!
//! The line has the form
//! `DD/MM/YYYY HH:MM:SS, <seconds>, Sensor <n>, <temperature>°C, <power>W`
//! and ends with a line feed. The temperature is written with two decimals.

use crate::clock::{
    date_time_text, format_date_time, is_date_time_text, lemma_date_time_stays_in_field,
};
use crate::decimal::{
    append_decimal, decimal, is_digit, lemma_decimal_denotes, lemma_only_digits_concat,
    lemma_only_digits_keeps_digits, lemma_only_digits_of_none, lemma_signed_decimal_denotes,
    only_digits, signed_decimal,
};
use crate::number_text::{is_two_decimal_chars, is_two_decimals, lemma_two_decimals_stay_in_field};
use crate::plan::{lines_of, plan_spec, without_return};
use crate::record::{
    digits_field, parse_all_spec, parse_line_spec, timestamp_field, CurrentcostLine,
};
use crate::text::{
    chars_of, is_space, lemma_split_append_piece, lemma_split_extend_last,
    lemma_split_without_separator, split_on, trim, trim_end, trim_start,
};
use vstd::prelude::*;
use vstd::string::StringExecFns;

verus! {

/// One reading of the monitor.
///
/// The temperature is held as the device wrote it, a text that denotes a
/// number with a fraction; the library does not compute with it.
#[derive(Clone, Debug)]
pub struct CurrentCostReading {
    /// The capture instant, in seconds since the epoch.
    pub timestamp: i64,
    /// The device's name.
    pub device: String,
    /// The sensor's index.
    pub sensor: i32,
    /// The temperature in degrees Celsius, as text.
    pub temperature: String,
    /// The power in watts.
    pub power: i32,
}

/// What a reading holds.
pub struct ReadingView {
    pub timestamp: int,
    pub device: Seq<char>,
    pub sensor: int,
    pub temperature: Seq<char>,
    pub power: int,
}

impl View for CurrentCostReading {
    type V = ReadingView;

    open spec fn view(&self) -> ReadingView {
        ReadingView {
            timestamp: self.timestamp as int,
            device: self.device@,
            sensor: self.sensor as int,
            temperature: self.temperature@,
            power: self.power as int,
        }
    }
}

/// What is written to the log for a date and time, a capture instant, a
/// sensor, a rendered temperature and a power, without the line feed that
/// ends it.
pub open spec fn log_entry(
    date_time: Seq<char>,
    timestamp: int,
    sensor: int,
    degrees: Seq<char>,
    power: int,
) -> Seq<char> {
    date_time + seq![',', ' '] + signed_decimal(timestamp) + seq![
        ',',
        ' ',
        'S',
        'e',
        'n',
        's',
        'o',
        'r',
        ' ',
    ] + signed_decimal(sensor) + seq![',', ' '] + degrees + seq!['\u{b0}', 'C', ',', ' ']
        + signed_decimal(power) + seq!['W']
}

/// The log line: the entry and a line feed.
pub open spec fn log_line(
    date_time: Seq<char>,
    timestamp: int,
    sensor: int,
    degrees: Seq<char>,
    power: int,
) -> Seq<char> {
    log_entry(date_time, timestamp, sensor, degrees, power).push('\n')
}

/// The five fields of an entry, which commas separate.
pub open spec fn log_fields(
    date_time: Seq<char>,
    timestamp: int,
    sensor: int,
    degrees: Seq<char>,
    power: int,
) -> Seq<Seq<char>> {
    seq![
        date_time,
        seq![' '] + signed_decimal(timestamp),
        seq![' ', 'S', 'e', 'n', 's', 'o', 'r', ' '] + signed_decimal(sensor),
        seq![' '] + degrees + seq!['\u{b0}', 'C'],
        seq![' '] + signed_decimal(power) + seq!['W'],
    ]
}

impl CurrentCostReading {
    /// The log line of the reading with its temperature rendered as
    /// `degrees`: none where `degrees` is no rendering with two decimals or
    /// the capture instant has no date. The device plays no part in it.
    pub open spec fn log_text(self, degrees: Seq<char>) -> Option<Seq<char>> {
        match date_time_text(self.timestamp) {
            Some(date_time) => if is_two_decimals(degrees) {
                Some(
                    log_line(
                        date_time,
                        self.timestamp as int,
                        self.sensor as int,
                        degrees,
                        self.power as int,
                    ),
                )
            } else {
                None
            },
            None => None,
        }
    }

    /// The record that reading back the log line of this reading is to give.
    pub open spec fn record(self) -> CurrentcostLine {
        CurrentcostLine {
            timestamp: self.timestamp as i32,
            sensor: self.sensor,
            power: self.power,
        }
    }

    /// The reading can be read back from its log line: its capture instant
    /// fits the timestamp of a record, and neither its sensor nor its power
    /// is negative.
    pub open spec fn reads_back(self) -> bool {
        &&& i32::MIN <= self.timestamp <= i32::MAX
        &&& self.sensor >= 0
        &&& self.power >= 0
    }
}

/// A text that neither begins nor ends with white space is its own trimming,
/// also behind one space.
proof fn lemma_trim_behind_space(s: Seq<char>)
    requires
        s.len() > 0,
        !is_space(s[0]),
        !is_space(s.last()),
    ensures
        trim(seq![' '] + s) == s,
{
    let padded = seq![' '] + s;
    assert(padded.drop_first() == s);
    assert(is_space(padded[0]));
    assert(trim_start(padded) == trim_start(s));
    assert(trim_start(s) == s);
    assert(trim_end(s) == s);
}

/// The digits of a text that begins with `lead`, goes on with the digits of
/// `n` and ends with `tail`, where `lead` and `tail` hold no digit, are the
/// digits of `n`.
proof fn lemma_digits_between(lead: Seq<char>, n: nat, tail: Seq<char>)
    requires
        forall|i: int| 0 <= i < lead.len() ==> !is_digit(#[trigger] lead[i]),
        forall|i: int| 0 <= i < tail.len() ==> !is_digit(#[trigger] tail[i]),
    ensures
        only_digits(lead + decimal(n) + tail) == decimal(n),
{
    lemma_decimal_denotes(n);
    lemma_only_digits_of_none(lead);
    lemma_only_digits_of_none(tail);
    lemma_only_digits_keeps_digits(decimal(n));
    lemma_only_digits_concat(lead + decimal(n), tail);
    lemma_only_digits_concat(lead, decimal(n));
    assert(Seq::<char>::empty() + decimal(n) + Seq::<char>::empty() == decimal(n));
}

/// A text made of parts that do not hold a character does not hold it.
proof fn lemma_absent_in_three(a: Seq<char>, b: Seq<char>, c: Seq<char>, absent: char)
    requires
        !a.contains(absent),
        !b.contains(absent),
        !c.contains(absent),
    ensures
        !(a + b + c).contains(absent),
{
    let whole = a + b + c;
    if whole.contains(absent) {
        let k = choose|k: int| 0 <= k < whole.len() && whole[k] == absent;
        if k < a.len() {
            assert(a[k] == absent);
        } else if k < a.len() + b.len() {
            assert(b[k - a.len()] == absent);
        } else {
            assert(c[k - a.len() - b.len()] == absent);
        }
    }
}

/// The fields of an entry hold neither a comma nor a line feed, where the
/// date and the rendered temperature hold neither.
proof fn lemma_fields_are_plain(
    date_time: Seq<char>,
    timestamp: int,
    sensor: int,
    degrees: Seq<char>,
    power: int,
    absent: char,
)
    requires
        absent == ',' || absent == '\n',
        !date_time.contains(absent),
        !degrees.contains(absent),
    ensures
        forall|i: int|
            0 <= i < 5 ==> !(#[trigger] log_fields(
                date_time,
                timestamp,
                sensor,
                degrees,
                power,
            )[i]).contains(absent),
{
    let fields = log_fields(date_time, timestamp, sensor, degrees, power);
    let none = Seq::<char>::empty();
    let space = seq![' '];
    let label = seq![' ', 'S', 'e', 'n', 's', 'o', 'r', ' '];
    let unit = seq!['\u{b0}', 'C'];
    let watts = seq!['W'];
    lemma_signed_decimal_denotes(timestamp);
    lemma_signed_decimal_denotes(sensor);
    lemma_signed_decimal_denotes(power);
    lemma_absent_in_three(space, signed_decimal(timestamp), none, absent);
    assert(space + signed_decimal(timestamp) + none == fields[1]);
    lemma_absent_in_three(label, signed_decimal(sensor), none, absent);
    assert(label + signed_decimal(sensor) + none == fields[2]);
    lemma_absent_in_three(space, degrees, unit, absent);
    lemma_absent_in_three(space, signed_decimal(power), watts, absent);
}

/// Commas separate an entry into its five fields, and the log line into the
/// same with the line feed at the end of the fifth, where neither the date
/// nor the rendered temperature holds a comma.
pub proof fn lemma_log_line_has_five_fields(
    date_time: Seq<char>,
    timestamp: int,
    sensor: int,
    degrees: Seq<char>,
    power: int,
)
    requires
        !date_time.contains(','),
        !degrees.contains(','),
    ensures
        split_on(log_entry(date_time, timestamp, sensor, degrees, power), ',') == log_fields(
            date_time,
            timestamp,
            sensor,
            degrees,
            power,
        ),
        split_on(log_line(date_time, timestamp, sensor, degrees, power), ',') == log_fields(
            date_time,
            timestamp,
            sensor,
            degrees,
            power,
        ).update(4, log_fields(date_time, timestamp, sensor, degrees, power)[4].push('\n')),
        split_on(log_line(date_time, timestamp, sensor, degrees, power), ',').len() == 5,
{
    let fields = log_fields(date_time, timestamp, sensor, degrees, power);
    let entry = log_entry(date_time, timestamp, sensor, degrees, power);
    lemma_fields_are_plain(date_time, timestamp, sensor, degrees, power, ',');
    assert(!fields[1].contains(',') && !fields[2].contains(',') && !fields[3].contains(',')
        && !fields[4].contains(','));
    let one = fields[0];
    let two = one.push(',') + fields[1];
    let three = two.push(',') + fields[2];
    let four = three.push(',') + fields[3];
    let five = four.push(',') + fields[4];
    assert(entry =~= five);
    lemma_split_without_separator(one, ',');
    lemma_split_append_piece(one, fields[1], ',');
    lemma_split_append_piece(two, fields[2], ',');
    lemma_split_append_piece(three, fields[3], ',');
    lemma_split_append_piece(four, fields[4], ',');
    assert(split_on(entry, ',') =~= fields);
    let line = log_line(date_time, timestamp, sensor, degrees, power);
    assert(line.drop_last() == entry);
}

/// The second field of an entry is read as its capture instant.
proof fn lemma_timestamp_field_reads_back(timestamp: int)
    requires
        i32::MIN <= timestamp <= i32::MAX,
    ensures
        timestamp_field(seq![' '] + signed_decimal(timestamp)) == Some(timestamp as i32),
{
    let stamp = signed_decimal(timestamp);
    lemma_signed_decimal_denotes(timestamp);
    if timestamp < 0 {
        lemma_decimal_denotes((-timestamp) as nat);
        assert(stamp[0] == '-');
        assert(stamp.last() == decimal((-timestamp) as nat).last());
        assert(is_digit(decimal((-timestamp) as nat).last()));
    } else {
        lemma_decimal_denotes(timestamp as nat);
        assert(is_digit(stamp[0]));
        assert(is_digit(stamp.last()));
    }
    lemma_trim_behind_space(stamp);
}

/// A field that holds the digits of a number between texts without digits
/// is read as that number.
proof fn lemma_digits_field_reads_back(lead: Seq<char>, n: int, tail: Seq<char>)
    requires
        0 <= n <= i32::MAX,
        forall|i: int| 0 <= i < lead.len() ==> !is_digit(#[trigger] lead[i]),
        forall|i: int| 0 <= i < tail.len() ==> !is_digit(#[trigger] tail[i]),
    ensures
        digits_field(lead + signed_decimal(n) + tail) == Some(n as i32),
{
    lemma_decimal_denotes(n as nat);
    lemma_digits_between(lead, n as nat, tail);
}

/// Reading back an entry, or its log line, gives the capture instant, the
/// sensor and the power that were written, where the capture instant fits
/// the timestamp of a record and neither the sensor nor the power is
/// negative. The temperature and the device are not in a record.
pub proof fn lemma_log_line_reads_back(
    date_time: Seq<char>,
    timestamp: int,
    sensor: int,
    degrees: Seq<char>,
    power: int,
)
    requires
        !date_time.contains(','),
        is_two_decimals(degrees),
        i32::MIN <= timestamp <= i32::MAX,
        0 <= sensor <= i32::MAX,
        0 <= power <= i32::MAX,
    ensures
        parse_line_spec(log_line(date_time, timestamp, sensor, degrees, power)) matches Ok(record)
            && record == (CurrentcostLine {
            timestamp: timestamp as i32,
            sensor: sensor as i32,
            power: power as i32,
        }),
        parse_line_spec(log_entry(date_time, timestamp, sensor, degrees, power)) matches Ok(record)
            && record == (CurrentcostLine {
            timestamp: timestamp as i32,
            sensor: sensor as i32,
            power: power as i32,
        }),
{
    let fields = log_fields(date_time, timestamp, sensor, degrees, power);
    let space = seq![' '];
    let label = seq![' ', 'S', 'e', 'n', 's', 'o', 'r', ' '];
    let none = Seq::<char>::empty();
    lemma_two_decimals_stay_in_field(degrees);
    lemma_log_line_has_five_fields(date_time, timestamp, sensor, degrees, power);
    lemma_timestamp_field_reads_back(timestamp);
    lemma_digits_field_reads_back(label, sensor, none);
    assert(label + signed_decimal(sensor) + none == fields[2]);
    lemma_digits_field_reads_back(space, power, seq!['W']);
    lemma_digits_field_reads_back(space, power, seq!['W', '\n']);
    assert(space + signed_decimal(power) + seq!['W', '\n'] == fields[4].push('\n'));
}

/// A log line is one line: its line feed stands at its end and nowhere else,
/// where neither the date nor the rendered temperature holds one. What stands
/// before the line feed ends with the unit of the power.
pub proof fn lemma_log_line_is_one_line(
    date_time: Seq<char>,
    timestamp: int,
    sensor: int,
    degrees: Seq<char>,
    power: int,
)
    requires
        !date_time.contains('\n'),
        !degrees.contains('\n'),
    ensures
        log_line(date_time, timestamp, sensor, degrees, power).last() == '\n',
        log_line(date_time, timestamp, sensor, degrees, power).drop_last() == log_entry(
            date_time,
            timestamp,
            sensor,
            degrees,
            power,
        ),
        !log_entry(date_time, timestamp, sensor, degrees, power).contains('\n'),
        log_entry(date_time, timestamp, sensor, degrees, power).last() == 'W',
{
    let fields = log_fields(date_time, timestamp, sensor, degrees, power);
    let entry = log_entry(date_time, timestamp, sensor, degrees, power);
    lemma_fields_are_plain(date_time, timestamp, sensor, degrees, power, '\n');
    assert(!fields[1].contains('\n') && !fields[2].contains('\n') && !fields[3].contains('\n')
        && !fields[4].contains('\n'));
    let comma = seq![','];
    lemma_absent_in_three(fields[0], comma, fields[1], '\n');
    lemma_absent_in_three(fields[0] + comma + fields[1], comma, fields[2], '\n');
    lemma_absent_in_three(fields[0] + comma + fields[1] + comma + fields[2], comma, fields[3], '\n');
    lemma_absent_in_three(
        fields[0] + comma + fields[1] + comma + fields[2] + comma + fields[3],
        comma,
        fields[4],
        '\n',
    );
    assert(entry =~= fields[0] + comma + fields[1] + comma + fields[2] + comma + fields[3] + comma
        + fields[4]);
    assert(log_line(date_time, timestamp, sensor, degrees, power).drop_last() == entry);
}

/// The log line for a date and time, a capture instant, a sensor, a rendered
/// temperature and a power.
pub fn write_log_line(date_time: &str, timestamp: i64, sensor: i32, degrees: &str, power: i32) -> (line:
    String)
    ensures
        line@ == log_line(date_time@, timestamp as int, sensor as int, degrees@, power as int),
{
    proof {
        reveal_strlit(", ");
        reveal_strlit(", Sensor ");
        reveal_strlit("\u{b0}C, ");
        reveal_strlit("W\n");
    }
    let mut line = String::new();
    line.append(date_time);
    line.append(", ");
    append_decimal(&mut line, timestamp);
    line.append(", Sensor ");
    append_decimal(&mut line, sensor as i64);
    line.append(", ");
    line.append(degrees);
    line.append("\u{b0}C, ");
    append_decimal(&mut line, power as i64);
    line.append("W\n");
    assert(line@ =~= log_line(
        date_time@,
        timestamp as int,
        sensor as int,
        degrees@,
        power as int,
    ));
    line
}

impl CurrentCostReading {
    /// The log line of the reading. `degrees` is the temperature rendered
    /// with two decimals, which the caller computes from `temperature`.
    ///
    /// There is no line where `degrees` is no such rendering, or where the
    /// capture instant is outside the years that have a date. A line that is
    /// written has five fields between commas, and its only line feed at its
    /// end. It can be read back as a record of the same capture instant,
    /// sensor and power, as far as a record can hold them.
    pub fn to_log(&self, degrees: &str) -> (line: Option<String>)
        ensures
            match line {
                Some(written) => self.log_text(degrees@) == Some(written@),
                None => self.log_text(degrees@) is None,
            },
            line is Some ==> is_date_time_text(date_time_text(self.timestamp)->0),
            line is Some ==> split_on(line->0@, ',').len() == 5,
            line is Some ==> line->0@.last() == '\n' && !line->0@.drop_last().contains('\n'),
            line is Some && self.reads_back() ==> (parse_line_spec(line->0@) matches Ok(record)
                && record == self.record()),
    {
        if !is_two_decimal_chars(&chars_of(degrees)) {
            return None;
        }
        let date_time = match format_date_time(self.timestamp) {
            Some(text) => text,
            None => {
                return None;
            },
        };
        proof {
            lemma_date_time_stays_in_field(date_time@);
            lemma_two_decimals_stay_in_field(degrees@);
            lemma_log_line_has_five_fields(
                date_time@,
                self.timestamp as int,
                self.sensor as int,
                degrees@,
                self.power as int,
            );
            lemma_log_line_is_one_line(
                date_time@,
                self.timestamp as int,
                self.sensor as int,
                degrees@,
                self.power as int,
            );
            if self.reads_back() {
                lemma_log_line_reads_back(
                    date_time@,
                    self.timestamp as int,
                    self.sensor as int,
                    degrees@,
                    self.power as int,
                );
            }
        }
        Some(write_log_line(date_time.as_str(), self.timestamp, self.sensor, degrees, self.power))
    }
}

/// What one line of a log was written from: the date and time, the capture
/// instant, the sensor, the rendered temperature and the power.
pub struct LogEntry {
    pub date_time: Seq<char>,
    pub timestamp: int,
    pub sensor: int,
    pub degrees: Seq<char>,
    pub power: int,
}

impl LogEntry {
    /// What is written for the entry, without the line feed.
    pub open spec fn text(self) -> Seq<char> {
        log_entry(self.date_time, self.timestamp, self.sensor, self.degrees, self.power)
    }

    /// The log line of the entry.
    pub open spec fn line(self) -> Seq<char> {
        log_line(self.date_time, self.timestamp, self.sensor, self.degrees, self.power)
    }

    /// The entry is one that `to_log` writes and that can be read back: its
    /// date is written as dates are, its temperature is rendered with two
    /// decimals, its capture instant fits the timestamp of a record, and
    /// neither its sensor nor its power is negative.
    pub open spec fn reads_back(self) -> bool {
        &&& is_date_time_text(self.date_time)
        &&& is_two_decimals(self.degrees)
        &&& i32::MIN <= self.timestamp <= i32::MAX
        &&& 0 <= self.sensor <= i32::MAX
        &&& 0 <= self.power <= i32::MAX
    }

    /// The record that reading back the entry is to give.
    pub open spec fn record(self) -> CurrentcostLine {
        CurrentcostLine {
            timestamp: self.timestamp as i32,
            sensor: self.sensor as i32,
            power: self.power as i32,
        }
    }
}

/// The text of a log into which the lines of the entries were written, one
/// after the other.
pub open spec fn written_log(entries: Seq<LogEntry>) -> Seq<char>
    decreases entries.len(),
{
    if entries.len() == 0 {
        Seq::empty()
    } else {
        written_log(entries.drop_last()) + entries.last().line()
    }
}

/// What was written for each entry, without the line feeds.
pub open spec fn entry_texts(entries: Seq<LogEntry>) -> Seq<Seq<char>> {
    Seq::new(entries.len(), |i: int| entries[i].text())
}

/// The records of the entries, in their order.
pub open spec fn entry_records(entries: Seq<LogEntry>) -> Seq<CurrentcostLine> {
    Seq::new(entries.len(), |i: int| entries[i].record())
}

/// Line feeds cut a written log into what was written for each entry, and
/// an empty rest.
proof fn lemma_written_log_pieces(entries: Seq<LogEntry>)
    requires
        forall|i: int| 0 <= i < entries.len() ==> (#[trigger] entries[i]).reads_back(),
    ensures
        split_on(written_log(entries), '\n') == entry_texts(entries).push(Seq::<char>::empty()),
    decreases entries.len(),
{
    if entries.len() == 0 {
        assert(split_on(written_log(entries), '\n') =~= entry_texts(entries).push(
            Seq::<char>::empty(),
        ));
    } else {
        let shorter = entries.drop_last();
        let entry = entries.last();
        assert forall|i: int| 0 <= i < shorter.len() implies (#[trigger] shorter[i]).reads_back() by {
            assert(shorter[i] == entries[i]);
        }
        lemma_written_log_pieces(shorter);
        assert(entry == entries[entries.len() - 1]);
        lemma_date_time_stays_in_field(entry.date_time);
        lemma_two_decimals_stay_in_field(entry.degrees);
        lemma_log_line_is_one_line(
            entry.date_time,
            entry.timestamp,
            entry.sensor,
            entry.degrees,
            entry.power,
        );
        let before = written_log(shorter);
        lemma_split_extend_last(before, entry.text(), '\n');
        let whole = written_log(entries);
        assert(whole == (before + entry.text()).push('\n'));
        assert(whole.drop_last() == before + entry.text());
        assert(Seq::<char>::empty() + entry.text() == entry.text());
        assert(split_on(whole, '\n') =~= entry_texts(entries).push(Seq::<char>::empty()));
    }
}

/// The records of what was written for the entries are the records of the
/// entries.
proof fn lemma_entry_texts_read_back(entries: Seq<LogEntry>)
    requires
        forall|i: int| 0 <= i < entries.len() ==> (#[trigger] entries[i]).reads_back(),
    ensures
        parse_all_spec(entry_texts(entries)) == entry_records(entries),
    decreases entries.len(),
{
    if entries.len() == 0 {
        assert(parse_all_spec(entry_texts(entries)) =~= entry_records(entries));
    } else {
        let shorter = entries.drop_last();
        let entry = entries.last();
        assert forall|i: int| 0 <= i < shorter.len() implies (#[trigger] shorter[i]).reads_back() by {
            assert(shorter[i] == entries[i]);
        }
        lemma_entry_texts_read_back(shorter);
        assert(entry == entries[entries.len() - 1]);
        lemma_date_time_stays_in_field(entry.date_time);
        lemma_log_line_reads_back(
            entry.date_time,
            entry.timestamp,
            entry.sensor,
            entry.degrees,
            entry.power,
        );
        assert(entry_texts(entries).drop_last() =~= entry_texts(shorter));
        assert(entry_texts(entries).last() == entry.text());
        assert(parse_all_spec(entry_texts(entries)) =~= entry_records(entries));
    }
}

/// A log that holds the lines of readings, written one after the other, is
/// read back as the records of these readings, in their order, where each
/// can be read back; and with a watermark of zero all of them are planned.
pub proof fn lemma_written_log_reads_back(entries: Seq<LogEntry>)
    requires
        forall|i: int| 0 <= i < entries.len() ==> (#[trigger] entries[i]).reads_back(),
    ensures
        lines_of(written_log(entries)) == entry_texts(entries),
        parse_all_spec(lines_of(written_log(entries))) == entry_records(entries),
        plan_spec(parse_all_spec(lines_of(written_log(entries))), 0) == entry_records(entries),
{
    lemma_written_log_pieces(entries);
    lemma_entry_texts_read_back(entries);
    let texts = entry_texts(entries);
    let pieces = split_on(written_log(entries), '\n');
    assert forall|i: int| 0 <= i < texts.len() implies without_return(#[trigger] pieces[i])
        == texts[i] by {
        let entry = entries[i];
        lemma_date_time_stays_in_field(entry.date_time);
        lemma_two_decimals_stay_in_field(entry.degrees);
        lemma_log_line_is_one_line(
            entry.date_time,
            entry.timestamp,
            entry.sensor,
            entry.degrees,
            entry.power,
        );
        assert(pieces[i] == entry.text());
    }
    assert(pieces.last() == Seq::<char>::empty());
    assert(lines_of(written_log(entries)) =~= texts);
}

} // verus!
