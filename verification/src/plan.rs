//! Which records a synchronisation run uploads.
//!
//! The store's watermark is the newest capture time that it already holds, or
//! zero. With a watermark above zero the records are put in time order, and
//! of those newer than the watermark one per capture time is kept. With a
//! watermark of zero every record is handed on as it was read.

use crate::record::{parse_all_spec, parse_chars, CurrentcostLine};
use crate::text::{chars_of, lemma_split_nonempty, split_chars, split_on};
use vstd::prelude::*;

verus! {

/// The records stand in ascending order of capture time.
pub open spec fn in_time_order(s: Seq<CurrentcostLine>) -> bool {
    forall|i: int, j: int| 0 <= i <= j < s.len() ==> s[i].timestamp <= s[j].timestamp
}

/// The capture times rise from each record to the next.
pub open spec fn strictly_rising(s: Seq<CurrentcostLine>) -> bool {
    forall|i: int, j: int| 0 <= i < j < s.len() ==> s[i].timestamp < s[j].timestamp
}

/// A record of `s` has the capture time `time`.
pub open spec fn has_time(s: Seq<CurrentcostLine>, time: int) -> bool {
    exists|k: int| 0 <= k < s.len() && (#[trigger] s[k]).timestamp == time
}

/// Where the longest run of records at the end of `s` that are all later
/// than `time` begins.
pub open spec fn later_run_start(s: Seq<CurrentcostLine>, time: int) -> int
    decreases s.len(),
{
    if s.len() > 0 && s.last().timestamp > time {
        later_run_start(s.drop_last(), time)
    } else {
        s.len() as int
    }
}

/// `s` with `record` put in front of the records at its end that are later
/// than `record`.
pub open spec fn insert_by_time(s: Seq<CurrentcostLine>, record: CurrentcostLine) -> Seq<
    CurrentcostLine,
> {
    s.insert(later_run_start(s, record.timestamp as int), record)
}

/// The records of `s` in ascending order of capture time, records of one
/// capture time in the order in which they stand in `s`.
pub open spec fn sort_by_time(s: Seq<CurrentcostLine>) -> Seq<CurrentcostLine>
    decreases s.len(),
{
    if s.len() == 0 {
        s
    } else {
        insert_by_time(sort_by_time(s.drop_last()), s.last())
    }
}

/// The test for a capture time, as a value that `Seq::filter` takes.
pub open spec fn at_time(time: int) -> spec_fn(CurrentcostLine) -> bool {
    |record: CurrentcostLine| record.timestamp == time
}

/// `s` without each record that is directly followed by a record of the same
/// capture time: of neighbours with one capture time the last stays.
pub open spec fn collapse(s: Seq<CurrentcostLine>) -> Seq<CurrentcostLine>
    decreases s.len(),
{
    if s.len() == 0 {
        s
    } else if s.len() >= 2 && s[0].timestamp == s[1].timestamp {
        collapse(s.drop_first())
    } else {
        seq![s[0]] + collapse(s.drop_first())
    }
}

/// What is kept of `s` for a watermark: the longest run of records at the end
/// of `s` that are all newer than the watermark, collapsed.
pub open spec fn filter_spec(s: Seq<CurrentcostLine>, watermark: int) -> Seq<CurrentcostLine> {
    collapse(s.skip(later_run_start(s, watermark)))
}

/// What a run uploads of the records read from the log.
pub open spec fn plan_spec(records: Seq<CurrentcostLine>, watermark: int) -> Seq<
    CurrentcostLine,
> {
    if watermark > 0 {
        filter_spec(sort_by_time(records), watermark)
    } else {
        records
    }
}

/// The watermark of a run: the newest capture time in the store, and zero
/// where the store is not used or holds nothing.
pub open spec fn watermark_spec(use_database: bool, newest_stored: Option<i32>) -> i32 {
    match newest_stored {
        Some(newest) => if use_database {
            newest
        } else {
            0
        },
        None => 0,
    }
}

/// The watermark of a run from what the store reported as its newest
/// capture time.
pub fn watermark(use_database: bool, newest_stored: Option<i32>) -> (mark: i32)
    ensures
        mark == watermark_spec(use_database, newest_stored),
{
    match newest_stored {
        Some(newest) => if use_database {
            newest
        } else {
            0
        },
        None => 0,
    }
}

/// `line` without one carriage return at its end.
pub open spec fn without_return(line: Seq<char>) -> Seq<char> {
    if line.len() > 0 && line.last() == '\r' {
        line.drop_last()
    } else {
        line
    }
}

/// The lines of a text. A line ends with a line feed, or with a carriage
/// return and a line feed, neither of which belongs to the line; what
/// follows the last line feed is a line too unless it is empty.
pub open spec fn lines_of(contents: Seq<char>) -> Seq<Seq<char>> {
    let pieces = split_on(contents, '\n');
    let ended = Seq::new((pieces.len() - 1) as nat, |i: int| without_return(pieces[i]));
    if pieces.last().len() == 0 {
        ended
    } else {
        ended.push(pieces.last())
    }
}

/// What `later_run_start` picks out: every record from there on is later
/// than `time`, and the record before is not.
pub proof fn lemma_later_run_start(s: Seq<CurrentcostLine>, time: int)
    ensures
        0 <= later_run_start(s, time) <= s.len(),
        forall|k: int| later_run_start(s, time) <= k < s.len() ==> (#[trigger] s[k]).timestamp > time,
        later_run_start(s, time) > 0 ==> s[later_run_start(s, time) - 1].timestamp <= time,
    decreases s.len(),
{
    if s.len() > 0 && s.last().timestamp > time {
        lemma_later_run_start(s.drop_last(), time);
        let p = later_run_start(s.drop_last(), time);
        assert forall|k: int| p <= k < s.len() implies (#[trigger] s[k]).timestamp > time by {
            if k < s.len() - 1 {
                assert(s[k] == s.drop_last()[k]);
            }
        }
        if p > 0 {
            assert(s[p - 1] == s.drop_last()[p - 1]);
        }
    }
}

/// Only one index has the two properties of `later_run_start`.
pub proof fn lemma_later_run_start_unique(s: Seq<CurrentcostLine>, time: int, p: int)
    requires
        0 <= p <= s.len(),
        forall|k: int| p <= k < s.len() ==> (#[trigger] s[k]).timestamp > time,
        p > 0 ==> s[p - 1].timestamp <= time,
    ensures
        later_run_start(s, time) == p,
    decreases s.len(),
{
    if s.len() > 0 && s.last().timestamp > time {
        assert(p < s.len()) by {
            if p == s.len() {
                assert(s[p - 1] == s.last());
            }
        }
        let shorter = s.drop_last();
        assert forall|k: int| p <= k < shorter.len() implies (#[trigger] shorter[k]).timestamp
            > time by {
            assert(shorter[k] == s[k]);
        }
        if p > 0 {
            assert(shorter[p - 1] == s[p - 1]);
        }
        lemma_later_run_start_unique(shorter, time, p);
    } else if s.len() > 0 {
        if p < s.len() {
            assert(s[s.len() - 1].timestamp > time);
        }
    }
}

/// A stretch of records in time order is in time order.
pub proof fn lemma_part_in_order(s: Seq<CurrentcostLine>, from: int, to: int)
    requires
        in_time_order(s),
        0 <= from <= to <= s.len(),
    ensures
        in_time_order(s.subrange(from, to)),
{
    let part = s.subrange(from, to);
    assert forall|i: int, j: int| 0 <= i <= j < part.len() implies part[i].timestamp
        <= part[j].timestamp by {
        assert(part[i] == s[from + i] && part[j] == s[from + j]);
    }
}

/// Inserting into records in time order leaves them in time order.
pub proof fn lemma_insert_keeps_order(s: Seq<CurrentcostLine>, record: CurrentcostLine)
    requires
        in_time_order(s),
    ensures
        in_time_order(insert_by_time(s, record)),
        insert_by_time(s, record).len() == s.len() + 1,
{
    let time = record.timestamp as int;
    let p = later_run_start(s, time);
    lemma_later_run_start(s, time);
    let out = insert_by_time(s, record);
    assert forall|i: int, j: int| 0 <= i <= j < out.len() implies out[i].timestamp
        <= out[j].timestamp by {
        if i < p {
            assert(out[i] == s[i]);
            assert(s[i].timestamp <= s[p - 1].timestamp);
        } else if i > p {
            assert(out[i] == s[i - 1]);
        }
        if j < p {
            assert(out[j] == s[j]);
        } else if j > p {
            assert(out[j] == s[j - 1]);
            assert(s[j - 1].timestamp > time);
        }
    }
}

/// Sorting puts the records in time order and keeps their number.
pub proof fn lemma_sort_orders(s: Seq<CurrentcostLine>)
    ensures
        in_time_order(sort_by_time(s)),
        sort_by_time(s).len() == s.len(),
    decreases s.len(),
{
    if s.len() > 0 {
        lemma_sort_orders(s.drop_last());
        lemma_insert_keeps_order(sort_by_time(s.drop_last()), s.last());
    }
}

/// Sorting neither loses nor invents a record.
pub proof fn lemma_sort_keeps_records(s: Seq<CurrentcostLine>)
    ensures
        sort_by_time(s).to_multiset() == s.to_multiset(),
    decreases s.len(),
{
    if s.len() > 0 {
        let shorter = s.drop_last();
        lemma_sort_keeps_records(shorter);
        let sorted = sort_by_time(shorter);
        let p = later_run_start(sorted, s.last().timestamp as int);
        lemma_later_run_start(sorted, s.last().timestamp as int);
        vstd::seq_lib::to_multiset_insert(sorted, p, s.last());
        vstd::seq_lib::to_multiset_build(shorter, s.last());
        assert(shorter.push(s.last()) == s);
    }
}

/// Inserting a record adds it behind the records of its own capture time
/// and disturbs those of no other.
pub proof fn lemma_insert_is_stable(s: Seq<CurrentcostLine>, record: CurrentcostLine, time: int)
    ensures
        insert_by_time(s, record).filter(at_time(time)) == s.push(record).filter(at_time(time)),
{
    let stamp = record.timestamp as int;
    let p = later_run_start(s, stamp);
    lemma_later_run_start(s, stamp);
    let front = s.take(p);
    let back = s.skip(p);
    let test = at_time(time);
    assert(insert_by_time(s, record) == front.push(record) + back);
    assert(s == front + back);
    Seq::filter_distributes_over_add(front.push(record), back, test);
    Seq::filter_distributes_over_add(front, back, test);
    reveal(Seq::filter);
    assert(front.push(record).drop_last() == front);
    assert(s.push(record).drop_last() == s);
    if stamp == time {
        assert(back.filter(test) == Seq::<CurrentcostLine>::empty()) by {
            lemma_filter_of_none(back, time);
        }
        assert(front.filter(test).push(record) + Seq::<CurrentcostLine>::empty() == front.filter(
            test,
        ).push(record));
        assert(front.filter(test) + Seq::<CurrentcostLine>::empty() == front.filter(test));
    }
}

/// Records that all have another capture time leave nothing at `time`.
proof fn lemma_filter_of_none(s: Seq<CurrentcostLine>, time: int)
    requires
        forall|k: int| 0 <= k < s.len() ==> (#[trigger] s[k]).timestamp != time,
    ensures
        s.filter(at_time(time)) == Seq::<CurrentcostLine>::empty(),
    decreases s.len(),
{
    reveal(Seq::filter);
    if s.len() > 0 {
        let shorter = s.drop_last();
        assert forall|k: int| 0 <= k < shorter.len() implies (#[trigger] shorter[k]).timestamp
            != time by {
            assert(shorter[k] == s[k]);
        }
        lemma_filter_of_none(shorter, time);
        assert(s.last() == s[s.len() - 1]);
    }
}

/// Sorting is stable: the records of any one capture time come out in the
/// order in which they went in.
pub proof fn lemma_sort_is_stable(s: Seq<CurrentcostLine>, time: int)
    ensures
        sort_by_time(s).filter(at_time(time)) == s.filter(at_time(time)),
    decreases s.len(),
{
    if s.len() > 0 {
        let shorter = s.drop_last();
        lemma_sort_is_stable(shorter, time);
        lemma_insert_is_stable(sort_by_time(shorter), s.last(), time);
        reveal(Seq::filter);
        assert(sort_by_time(shorter).push(s.last()).drop_last() == sort_by_time(shorter));
    }
}

/// Records that are in time order already are their own sorting.
pub proof fn lemma_sort_of_ordered(s: Seq<CurrentcostLine>)
    requires
        in_time_order(s),
    ensures
        sort_by_time(s) == s,
    decreases s.len(),
{
    if s.len() > 0 {
        let shorter = s.drop_last();
        lemma_part_in_order(s, 0, s.len() - 1);
        lemma_sort_of_ordered(shorter);
        assert forall|k: int| 0 <= k < shorter.len() implies (#[trigger] shorter[k]).timestamp
            <= s.last().timestamp by {
            assert(shorter[k] == s[k]);
        }
        if shorter.len() > 0 {
            assert(shorter[shorter.len() - 1].timestamp <= s.last().timestamp);
        }
        lemma_later_run_start_unique(shorter, s.last().timestamp as int, shorter.len() as int);
        assert(shorter.insert(shorter.len() as int, s.last()) == s);
    }
}

/// Collapsing keeps the last record, and the capture time of the first.
pub proof fn lemma_collapse_ends(s: Seq<CurrentcostLine>)
    requires
        s.len() > 0,
    ensures
        0 < collapse(s).len() <= s.len(),
        collapse(s).last() == s.last(),
        collapse(s)[0].timestamp == s[0].timestamp,
    decreases s.len(),
{
    if s.len() >= 2 {
        let rest = s.drop_first();
        lemma_collapse_ends(rest);
        assert(rest.last() == s.last());
        assert(rest[0] == s[1]);
    } else {
        assert(collapse(s.drop_first()) == Seq::<CurrentcostLine>::empty());
        assert(collapse(s) =~= seq![s[0]]);
    }
}

/// Collapsing invents nothing: what it keeps stands in `s`.
pub proof fn lemma_collapse_members(s: Seq<CurrentcostLine>)
    ensures
        forall|k: int| 0 <= k < collapse(s).len() ==> s.contains(#[trigger] collapse(s)[k]),
    decreases s.len(),
{
    if s.len() > 0 {
        let rest = s.drop_first();
        let kept = collapse(rest);
        lemma_collapse_members(rest);
        assert forall|k: int| 0 <= k < collapse(s).len() implies s.contains(
            #[trigger] collapse(s)[k],
        ) by {
            let record = collapse(s)[k];
            if s.len() >= 2 && s[0].timestamp == s[1].timestamp {
                assert(rest.contains(kept[k]));
            } else if k == 0 {
                assert(record == s[0]);
            } else {
                assert(record == kept[k - 1]);
                assert(rest.contains(kept[k - 1]));
            }
            if record != s[0] {
                let j = choose|j: int| 0 <= j < rest.len() && rest[j] == record;
                assert(s[j + 1] == record);
            }
        }
    }
}

/// Collapsing loses no capture time: each one of `s` is still there.
pub proof fn lemma_collapse_covers(s: Seq<CurrentcostLine>, j: int)
    requires
        0 <= j < s.len(),
    ensures
        has_time(collapse(s), s[j].timestamp as int),
    decreases s.len(),
{
    let rest = s.drop_first();
    let kept = collapse(rest);
    let dropped = s.len() >= 2 && s[0].timestamp == s[1].timestamp;
    if j == 0 && !dropped {
        assert(collapse(s)[0] == s[0]);
    } else {
        let i = if j == 0 {
            0
        } else {
            j - 1
        };
        assert(rest[i].timestamp == s[j].timestamp);
        lemma_collapse_covers(rest, i);
        let k = choose|k: int|
            0 <= k < kept.len() && (#[trigger] kept[k]).timestamp == rest[i].timestamp;
        if dropped {
            assert(collapse(s)[k] == kept[k]);
        } else {
            assert(collapse(s)[k + 1] == kept[k]);
        }
    }
}

/// Collapsed records in time order have capture times that rise: no
/// capture time occurs twice.
pub proof fn lemma_collapse_rises(s: Seq<CurrentcostLine>)
    requires
        in_time_order(s),
    ensures
        strictly_rising(collapse(s)),
    decreases s.len(),
{
    if s.len() > 0 {
        let rest = s.drop_first();
        let kept = collapse(rest);
        lemma_part_in_order(s, 1, s.len() as int);
        lemma_collapse_rises(rest);
        if !(s.len() >= 2 && s[0].timestamp == s[1].timestamp) {
            let out = collapse(s);
            lemma_collapse_members(rest);
            assert forall|i: int, j: int| 0 <= i < j < out.len() implies out[i].timestamp
                < out[j].timestamp by {
                assert(out[j] == kept[j - 1]);
                if i == 0 {
                    assert(rest.contains(kept[j - 1]));
                    let m = choose|m: int| 0 <= m < rest.len() && rest[m] == kept[j - 1];
                    assert(rest[m] == s[m + 1]);
                    assert(s[1].timestamp <= s[m + 1].timestamp);
                    assert(s[0].timestamp <= s[1].timestamp);
                } else {
                    assert(out[i] == kept[i - 1]);
                }
            }
        }
    }
}

/// Nothing at or before the watermark is kept, and nothing is invented.
pub proof fn lemma_filter_keeps_newer(s: Seq<CurrentcostLine>, watermark: int)
    ensures
        forall|k: int|
            0 <= k < filter_spec(s, watermark).len() ==> {
                &&& (#[trigger] filter_spec(s, watermark)[k]).timestamp > watermark
                &&& s.contains(filter_spec(s, watermark)[k])
            },
{
    let p = later_run_start(s, watermark);
    lemma_later_run_start(s, watermark);
    let run = s.skip(p);
    lemma_collapse_members(run);
    assert forall|k: int| 0 <= k < filter_spec(s, watermark).len() implies {
        &&& (#[trigger] filter_spec(s, watermark)[k]).timestamp > watermark
        &&& s.contains(filter_spec(s, watermark)[k])
    } by {
        let record = filter_spec(s, watermark)[k];
        assert(run.contains(record));
        let j = choose|j: int| 0 <= j < run.len() && run[j] == record;
        assert(s[p + j] == record);
    }
}

/// Of records in time order, what is kept has rising capture times, so each
/// capture time once, and holds every capture time newer than the watermark.
pub proof fn lemma_filter_of_ordered(s: Seq<CurrentcostLine>, watermark: int)
    requires
        in_time_order(s),
    ensures
        strictly_rising(filter_spec(s, watermark)),
        forall|j: int|
            0 <= j < s.len() && (#[trigger] s[j]).timestamp > watermark ==> has_time(
                filter_spec(s, watermark),
                s[j].timestamp as int,
            ),
{
    let p = later_run_start(s, watermark);
    lemma_later_run_start(s, watermark);
    let run = s.skip(p);
    lemma_part_in_order(s, p, s.len() as int);
    lemma_collapse_rises(run);
    assert forall|j: int| 0 <= j < s.len() && (#[trigger] s[j]).timestamp > watermark implies has_time(
        filter_spec(s, watermark),
        s[j].timestamp as int,
    ) by {
        if j < p {
            assert(s[j].timestamp <= s[p - 1].timestamp);
        } else {
            assert(run[j - p] == s[j]);
            lemma_collapse_covers(run, j - p);
        }
    }
}

/// Once the newest kept record is in the store, nothing is left to keep:
/// with its capture time as the watermark the same records give nothing.
pub proof fn lemma_filter_after_upload(s: Seq<CurrentcostLine>, watermark: int)
    requires
        filter_spec(s, watermark).len() > 0,
    ensures
        filter_spec(s, filter_spec(s, watermark).last().timestamp as int).len() == 0,
{
    let p = later_run_start(s, watermark);
    lemma_later_run_start(s, watermark);
    let run = s.skip(p);
    if run.len() == 0 {
        assert(collapse(run).len() == 0);
    }
    lemma_collapse_ends(run);
    assert(run.last() == s.last());
    let newest = s.last().timestamp as int;
    assert(later_run_start(s, newest) == s.len());
    assert(s.skip(s.len() as int) == Seq::<CurrentcostLine>::empty());
}

/// For a watermark above zero the plan is made of records that were read,
/// all newer than the watermark, with rising capture times; and every
/// capture time newer than the watermark that was read is in it.
pub proof fn lemma_plan_is_exact(records: Seq<CurrentcostLine>, watermark: int)
    requires
        watermark > 0,
    ensures
        strictly_rising(plan_spec(records, watermark)),
        forall|k: int|
            0 <= k < plan_spec(records, watermark).len() ==> {
                &&& (#[trigger] plan_spec(records, watermark)[k]).timestamp > watermark
                &&& records.contains(plan_spec(records, watermark)[k])
            },
        forall|j: int|
            0 <= j < records.len() && (#[trigger] records[j]).timestamp > watermark ==> has_time(
                plan_spec(records, watermark),
                records[j].timestamp as int,
            ),
{
    let sorted = sort_by_time(records);
    let plan = plan_spec(records, watermark);
    lemma_sort_orders(records);
    lemma_sort_keeps_records(records);
    lemma_filter_keeps_newer(sorted, watermark);
    lemma_filter_of_ordered(sorted, watermark);
    broadcast use vstd::seq_lib::to_multiset_contains;

    assert forall|k: int| 0 <= k < plan.len() implies {
        &&& (#[trigger] plan[k]).timestamp > watermark
        &&& records.contains(plan[k])
    } by {
        assert(sorted.contains(plan[k]));
        assert(sorted.to_multiset().count(plan[k]) > 0);
    }
    assert forall|j: int| 0 <= j < records.len() && (#[trigger] records[j]).timestamp
        > watermark implies has_time(plan, records[j].timestamp as int) by {
        assert(records.contains(records[j]));
        assert(records.to_multiset().count(records[j]) > 0);
        assert(sorted.contains(records[j]));
        let i = choose|i: int| 0 <= i < sorted.len() && sorted[i] == records[j];
        assert(sorted[i].timestamp > watermark);
    }
}

/// A further run on the same records, once the newest planned record is in
/// the store, plans nothing: no record is uploaded twice.
pub proof fn lemma_plan_after_upload(records: Seq<CurrentcostLine>, watermark: int)
    requires
        watermark > 0,
        plan_spec(records, watermark).len() > 0,
    ensures
        plan_spec(records, watermark).last().timestamp > watermark,
        plan_spec(records, plan_spec(records, watermark).last().timestamp as int).len() == 0,
{
    lemma_filter_keeps_newer(sort_by_time(records), watermark);
    lemma_filter_after_upload(sort_by_time(records), watermark);
}

/// Four records whose capture times are one time, a later time twice and a
/// still later time, filtered with the first time as the watermark: the
/// second of the two equal records and the newest record are kept, in this
/// order, and the record at the watermark is dropped.
pub proof fn lemma_filter_of_four(
    first: CurrentcostLine,
    second: CurrentcostLine,
    third: CurrentcostLine,
    fourth: CurrentcostLine,
)
    requires
        first.timestamp < second.timestamp,
        second.timestamp == third.timestamp,
        third.timestamp < fourth.timestamp,
    ensures
        filter_spec(seq![first, second, third, fourth], first.timestamp as int) == seq![
            third,
            fourth,
        ],
{
    let records = seq![first, second, third, fourth];
    let watermark = first.timestamp as int;
    lemma_later_run_start_unique(records, watermark, 1);
    let run = records.skip(1);
    assert(run == seq![second, third, fourth]);
    let tail = run.drop_first();
    assert(tail == seq![third, fourth]);
    let end = tail.drop_first();
    assert(end == seq![fourth]);
    assert(end.drop_first() == Seq::<CurrentcostLine>::empty());
    assert(collapse(end.drop_first()) == Seq::<CurrentcostLine>::empty());
    assert(collapse(end) == seq![fourth]);
    assert(collapse(tail) == seq![third, fourth]);
    assert(collapse(run) == seq![third, fourth]);
}

/// The same four records planned with the first time as the watermark,
/// where that time is above zero: again the second of the two equal records
/// and the newest record, in this order.
pub proof fn lemma_plan_of_four(
    first: CurrentcostLine,
    second: CurrentcostLine,
    third: CurrentcostLine,
    fourth: CurrentcostLine,
)
    requires
        0 < first.timestamp < second.timestamp,
        second.timestamp == third.timestamp,
        third.timestamp < fourth.timestamp,
    ensures
        plan_spec(seq![first, second, third, fourth], first.timestamp as int) == seq![
            third,
            fourth,
        ],
{
    lemma_sort_of_ordered(seq![first, second, third, fourth]);
    lemma_filter_of_four(first, second, third, fourth);
}

/// A run that is made again with the watermark that an earlier run had, as
/// after an upload that failed and left the store as it was, plans the same
/// records where the log is as it was; and where the log has grown, every
/// capture time that was planned is planned again.
pub proof fn lemma_retry_plans_again(
    records: Seq<CurrentcostLine>,
    grown_by: Seq<CurrentcostLine>,
    watermark: int,
)
    ensures
        grown_by.len() == 0 ==> plan_spec(records + grown_by, watermark) == plan_spec(
            records,
            watermark,
        ),
        forall|k: int|
            0 <= k < plan_spec(records, watermark).len() ==> has_time(
                plan_spec(records + grown_by, watermark),
                (#[trigger] plan_spec(records, watermark)[k]).timestamp as int,
            ),
{
    let grown = records + grown_by;
    if grown_by.len() == 0 {
        assert(grown == records);
    }
    assert forall|k: int| 0 <= k < plan_spec(records, watermark).len() implies has_time(
        plan_spec(records + grown_by, watermark),
        (#[trigger] plan_spec(records, watermark)[k]).timestamp as int,
    ) by {
        let planned = plan_spec(records, watermark)[k];
        if watermark > 0 {
            lemma_plan_is_exact(records, watermark);
            lemma_plan_is_exact(grown, watermark);
            assert(records.contains(planned));
            let i = choose|i: int| 0 <= i < records.len() && records[i] == planned;
            assert(grown[i] == planned);
        } else {
            assert(plan_spec(records + grown_by, watermark)[k] == planned);
        }
    }
}

/// Where records of a capture time are kept, there is one of that time.
proof fn lemma_filter_has_member(s: Seq<CurrentcostLine>, time: int)
    requires
        s.filter(at_time(time)).len() > 0,
    ensures
        has_time(s, time),
{
    if forall|k: int| 0 <= k < s.len() ==> (#[trigger] s[k]).timestamp != time {
        lemma_filter_of_none(s, time);
    }
}

/// Time order with stability has one answer: two sequences in time order
/// that hold, for every capture time, the same records of that time in the
/// same order are one sequence.
pub proof fn lemma_stable_order_is_unique(a: Seq<CurrentcostLine>, b: Seq<CurrentcostLine>)
    requires
        in_time_order(a),
        in_time_order(b),
        forall|time: int| #[trigger] a.filter(at_time(time)) == b.filter(at_time(time)),
    ensures
        a == b,
    decreases a.len(),
{
    reveal(Seq::filter);
    if a.len() == 0 {
        if b.len() > 0 {
            let time = b.last().timestamp as int;
            assert(a.filter(at_time(time)) == b.filter(at_time(time)));
        }
        assert(a =~= b);
    } else {
        let time = a.last().timestamp as int;
        assert(a.filter(at_time(time)) == b.filter(at_time(time)));
        assert(b.len() > 0);
        let other = b.last().timestamp as int;
        assert(a.filter(at_time(other)) == b.filter(at_time(other)));
        lemma_filter_has_member(a, other);
        lemma_filter_has_member(b, time);
        let ka = choose|k: int| 0 <= k < a.len() && (#[trigger] a[k]).timestamp == other;
        let kb = choose|k: int| 0 <= k < b.len() && (#[trigger] b[k]).timestamp == time;
        assert(a[ka].timestamp <= a[a.len() - 1].timestamp);
        assert(b[kb].timestamp <= b[b.len() - 1].timestamp);
        assert(other == time);
        let shorter_a = a.drop_last();
        let shorter_b = b.drop_last();
        let kept_a = shorter_a.filter(at_time(time));
        let kept_b = shorter_b.filter(at_time(time));
        assert(kept_a.push(a.last()) == kept_b.push(b.last()));
        assert(kept_a.push(a.last()).last() == a.last());
        assert(kept_b.push(b.last()).last() == b.last());
        assert(kept_a.push(a.last()).drop_last() == kept_a);
        assert(kept_b.push(b.last()).drop_last() == kept_b);
        lemma_part_in_order(a, 0, a.len() - 1);
        lemma_part_in_order(b, 0, b.len() - 1);
        assert forall|t: int| #[trigger]
            shorter_a.filter(at_time(t)) == shorter_b.filter(at_time(t)) by {
            assert(a.filter(at_time(t)) == b.filter(at_time(t)));
        }
        lemma_stable_order_is_unique(shorter_a, shorter_b);
        assert(a == shorter_a.push(a.last()));
        assert(b == shorter_b.push(b.last()));
    }
}

/// Merges two runs of records in time order into one. Where a record of
/// `left` and a record of `right` have one capture time, that of `left`
/// comes first.
fn merge_by_time(left: &Vec<CurrentcostLine>, right: &Vec<CurrentcostLine>) -> (merged: Vec<
    CurrentcostLine,
>)
    requires
        in_time_order(left@),
        in_time_order(right@),
    ensures
        in_time_order(merged@),
        forall|time: int| #[trigger]
            merged@.filter(at_time(time)) == left@.filter(at_time(time)) + right@.filter(
                at_time(time),
            ),
{
    let mut merged: Vec<CurrentcostLine> = Vec::new();
    let mut i: usize = 0;
    let mut j: usize = 0;
    proof {
        reveal(Seq::filter);
        assert(left@.take(0) == Seq::<CurrentcostLine>::empty());
        assert(right@.take(0) == Seq::<CurrentcostLine>::empty());
        assert forall|time: int| #[trigger]
            merged@.filter(at_time(time)) == left@.take(0).filter(at_time(time)) + right@.take(
                0,
            ).filter(at_time(time)) by {}
    }
    while i < left.len() || j < right.len()
        invariant
            i <= left.len(),
            j <= right.len(),
            in_time_order(left@),
            in_time_order(right@),
            in_time_order(merged@),
            forall|k: int|
                0 <= k < merged.len() && i < left.len() ==> (#[trigger] merged@[k]).timestamp
                    <= left@[i as int].timestamp,
            forall|k: int|
                0 <= k < merged.len() && j < right.len() ==> (#[trigger] merged@[k]).timestamp
                    <= right@[j as int].timestamp,
            forall|k: int|
                0 <= k < j && i < left.len() ==> (#[trigger] right@[k]).timestamp
                    < left@[i as int].timestamp,
            forall|time: int| #[trigger]
                merged@.filter(at_time(time)) == left@.take(i as int).filter(at_time(time))
                    + right@.take(j as int).filter(at_time(time)),
        decreases left.len() - i + right.len() - j,
    {
        let ghost before = merged@;
        let from_left = j == right.len() || (i < left.len() && left[i].timestamp
            <= right[j].timestamp);
        if from_left {
            let record = left[i];
            merged.push(record);
            proof {
                reveal(Seq::filter);
                assert(merged@.drop_last() == before);
                assert(left@.take(i + 1).drop_last() == left@.take(i as int));
                assert(left@.take(i + 1).last() == record);
                assert forall|time: int| #[trigger]
                    merged@.filter(at_time(time)) == left@.take(i + 1).filter(at_time(time))
                        + right@.take(j as int).filter(at_time(time)) by {
                    let kept_left = left@.take(i as int).filter(at_time(time));
                    let kept_right = right@.take(j as int).filter(at_time(time));
                    assert(before.filter(at_time(time)) == kept_left + kept_right);
                    if record.timestamp == time {
                        assert forall|k: int| 0 <= k < right@.take(j as int).len() implies (
                        #[trigger] right@.take(j as int)[k]).timestamp != time by {
                            assert(right@.take(j as int)[k] == right@[k]);
                        }
                        lemma_filter_of_none(right@.take(j as int), time);
                        assert((kept_left + kept_right).push(record) == kept_left.push(record)
                            + kept_right);
                    }
                }
                assert forall|a: int, b: int| 0 <= a <= b < merged.len() implies merged@[a].timestamp
                    <= merged@[b].timestamp by {
                    if b < before.len() {
                        assert(merged@[a] == before[a] && merged@[b] == before[b]);
                    } else if a < before.len() {
                        assert(merged@[a] == before[a]);
                    }
                }
                assert forall|k: int| 0 <= k < merged.len() && j < right.len() implies (
                #[trigger] merged@[k]).timestamp <= right@[j as int].timestamp by {
                    if k < before.len() {
                        assert(merged@[k] == before[k]);
                    }
                }
                assert forall|k: int| 0 <= k < merged.len() && i + 1 < left.len() implies (
                #[trigger] merged@[k]).timestamp <= left@[i + 1].timestamp by {
                    if k < before.len() {
                        assert(merged@[k] == before[k]);
                    }
                    assert(left@[i as int].timestamp <= left@[i + 1].timestamp);
                }
                assert forall|k: int| 0 <= k < j && i + 1 < left.len() implies (
                #[trigger] right@[k]).timestamp < left@[i + 1].timestamp by {
                    assert(left@[i as int].timestamp <= left@[i + 1].timestamp);
                }
            }
            i += 1;
        } else {
            let record = right[j];
            merged.push(record);
            proof {
                reveal(Seq::filter);
                assert(merged@.drop_last() == before);
                assert(right@.take(j + 1).drop_last() == right@.take(j as int));
                assert(right@.take(j + 1).last() == record);
                assert forall|time: int| #[trigger]
                    merged@.filter(at_time(time)) == left@.take(i as int).filter(at_time(time))
                        + right@.take(j + 1).filter(at_time(time)) by {
                    let kept_left = left@.take(i as int).filter(at_time(time));
                    let kept_right = right@.take(j as int).filter(at_time(time));
                    assert(before.filter(at_time(time)) == kept_left + kept_right);
                    if record.timestamp == time {
                        assert((kept_left + kept_right).push(record) == kept_left
                            + kept_right.push(record));
                    }
                }
                assert forall|a: int, b: int| 0 <= a <= b < merged.len() implies merged@[a].timestamp
                    <= merged@[b].timestamp by {
                    if b < before.len() {
                        assert(merged@[a] == before[a] && merged@[b] == before[b]);
                    } else if a < before.len() {
                        assert(merged@[a] == before[a]);
                    }
                }
                assert forall|k: int| 0 <= k < merged.len() && i < left.len() implies (
                #[trigger] merged@[k]).timestamp <= left@[i as int].timestamp by {
                    if k < before.len() {
                        assert(merged@[k] == before[k]);
                    }
                }
                assert forall|k: int| 0 <= k < merged.len() && j + 1 < right.len() implies (
                #[trigger] merged@[k]).timestamp <= right@[j + 1].timestamp by {
                    if k < before.len() {
                        assert(merged@[k] == before[k]);
                    }
                    assert(right@[j as int].timestamp <= right@[j + 1].timestamp);
                }
            }
            j += 1;
        }
    }
    proof {
        assert(left@.take(i as int) == left@);
        assert(right@.take(j as int) == right@);
    }
    merged
}

/// Sorts the records of `lines` from index `from` up to index `to`.
fn sort_range(lines: &Vec<CurrentcostLine>, from: usize, to: usize) -> (sorted: Vec<
    CurrentcostLine,
>)
    requires
        from <= to <= lines.len(),
    ensures
        sorted@ == sort_by_time(lines@.subrange(from as int, to as int)),
    decreases to - from,
{
    let ghost range = lines@.subrange(from as int, to as int);
    if to - from < 2 {
        let mut sorted: Vec<CurrentcostLine> = Vec::new();
        if from < to {
            sorted.push(lines[from]);
        }
        proof {
            assert(sorted@ =~= range);
            lemma_sort_of_ordered(range);
        }
        return sorted;
    }
    let middle = from + (to - from) / 2;
    let left = sort_range(lines, from, middle);
    let right = sort_range(lines, middle, to);
    proof {
        lemma_sort_orders(lines@.subrange(from as int, middle as int));
        lemma_sort_orders(lines@.subrange(middle as int, to as int));
    }
    let merged = merge_by_time(&left, &right);
    proof {
        let first = lines@.subrange(from as int, middle as int);
        let second = lines@.subrange(middle as int, to as int);
        assert(range == first + second);
        lemma_sort_orders(range);
        assert forall|time: int| #[trigger]
            merged@.filter(at_time(time)) == sort_by_time(range).filter(at_time(time)) by {
            lemma_sort_is_stable(first, time);
            lemma_sort_is_stable(second, time);
            lemma_sort_is_stable(range, time);
            Seq::filter_distributes_over_add(first, second, at_time(time));
        }
        lemma_stable_order_is_unique(merged@, sort_by_time(range));
    }
    merged
}

/// Puts the records in ascending order of capture time; records of one
/// capture time keep their order.
pub fn sort_lines(lines: Vec<CurrentcostLine>) -> (sorted: Vec<CurrentcostLine>)
    ensures
        sorted@ == sort_by_time(lines@),
{
    assert(lines@.subrange(0, lines.len() as int) == lines@);
    sort_range(&lines, 0, lines.len())
}

/// Keeps what is to be uploaded of records in time order: scanning from the
/// newest record back, every record newer than the watermark `timestamp`
/// whose capture time differs from that of the record kept before it; the
/// scan ends at the first record that is not newer than the watermark. The
/// kept records are returned in the order in which they stood.
pub fn filter_by_timestamp(lines: Vec<CurrentcostLine>, timestamp: i32) -> (kept: Vec<
    CurrentcostLine,
>)
    ensures
        kept@ == filter_spec(lines@, timestamp as int),
{
    let count = lines.len();
    let mut newest_first: Vec<CurrentcostLine> = Vec::new();
    let mut last_timestamp = timestamp;
    let mut i: usize = count;
    assert(lines@.skip(count as int) == Seq::<CurrentcostLine>::empty());
    assert(newest_first@.reverse() == Seq::<CurrentcostLine>::empty());
    while i > 0 && lines[i - 1].timestamp > timestamp
        invariant
            i <= count,
            count == lines.len(),
            forall|k: int| i <= k < count ==> (#[trigger] lines@[k]).timestamp > timestamp,
            newest_first@.reverse() == collapse(lines@.skip(i as int)),
            last_timestamp == if i == count {
                timestamp
            } else {
                lines@[i as int].timestamp
            },
        decreases i,
    {
        let line = lines[i - 1];
        let ghost run = lines@.skip(i - 1);
        let ghost before = newest_first@.reverse();
        proof {
            assert(run.drop_first() == lines@.skip(i as int));
            assert(run[0] == line);
            if i < count {
                assert(run[1] == lines@[i as int]);
            }
        }
        if line.timestamp != last_timestamp {
            last_timestamp = line.timestamp;
            newest_first.push(line);
            assert(newest_first@.reverse() == seq![line] + before);
        }
        i -= 1;
    }
    proof {
        lemma_later_run_start_unique(lines@, timestamp as int, i as int);
    }
    let mut kept: Vec<CurrentcostLine> = Vec::new();
    let mut left: usize = newest_first.len();
    while left > 0
        invariant
            left <= newest_first.len(),
            kept@ == newest_first@.reverse().take(newest_first.len() - left),
        decreases left,
    {
        left -= 1;
        kept.push(newest_first[left]);
    }
    assert(newest_first@.reverse().take(newest_first.len() as int) == newest_first@.reverse());
    kept
}

/// `line` without one carriage return at its end.
fn strip_return(line: &Vec<char>) -> (stripped: Vec<char>)
    ensures
        stripped@ == without_return(line@),
{
    let mut end: usize = line.len();
    if end > 0 && line[end - 1] == '\r' {
        end -= 1;
    }
    let mut stripped: Vec<char> = Vec::new();
    let mut i: usize = 0;
    while i < end
        invariant
            i <= end <= line.len(),
            stripped@ == line@.take(i as int),
        decreases end - i,
    {
        stripped.push(line[i]);
        i += 1;
    }
    assert(line@.take(line.len() as int) == line@);
    stripped
}

/// Reads every line of a log and keeps the records of those that can be
/// read, in the order of the lines.
pub fn parse_log(contents: &str) -> (records: Vec<CurrentcostLine>)
    ensures
        records@ == parse_all_spec(lines_of(contents@)),
{
    let chars = chars_of(contents);
    let pieces = split_chars(&chars, '\n');
    proof {
        lemma_split_nonempty(contents@, '\n');
    }
    let ghost parts = split_on(contents@, '\n');
    let ghost ended = Seq::new((parts.len() - 1) as nat, |i: int| without_return(parts[i]));
    assert(forall|i: int| 0 <= i < pieces.len() ==> pieces[i]@ == #[trigger] parts[i]);
    let mut records: Vec<CurrentcostLine> = Vec::new();
    let mut i: usize = 0;
    assert(ended.take(0) == Seq::<Seq<char>>::empty());
    while i + 1 < pieces.len()
        invariant
            i + 1 <= pieces.len(),
            pieces.len() == parts.len(),
            forall|k: int| 0 <= k < pieces.len() ==> pieces[k]@ == #[trigger] parts[k],
            ended == Seq::new((parts.len() - 1) as nat, |k: int| without_return(parts[k])),
            records@ == parse_all_spec(ended.take(i as int)),
        decreases pieces.len() - i,
    {
        let line = strip_return(&pieces[i]);
        proof {
            assert(pieces[i as int]@ == parts[i as int]);
            assert(ended.take(i + 1).drop_last() == ended.take(i as int));
            assert(ended.take(i + 1).last() == line@);
        }
        match parse_chars(&line) {
            Ok(record) => {
                records.push(record);
            },
            Err(_) => {},
        }
        i += 1;
    }
    assert(ended.take(i as int) == ended);
    let last = &pieces[pieces.len() - 1];
    assert(last@ == parts.last());
    if last.len() > 0 {
        proof {
            assert(ended.push(parts.last()).drop_last() == ended);
        }
        match parse_chars(last) {
            Ok(record) => {
                records.push(record);
            },
            Err(_) => {},
        }
    }
    records
}

/// Plans a synchronisation run from the text of the log: reads every line
/// that can be read and, where the watermark `skip_before_timestamp` is
/// above zero, keeps of the records in time order one per capture time newer
/// than the watermark. With a watermark of zero or less all records are
/// returned as read, neither sorted nor filtered.
pub fn parse_and_filter_log(contents: &str, skip_before_timestamp: i32) -> (planned: Vec<
    CurrentcostLine,
>)
    ensures
        planned@ == plan_spec(
            parse_all_spec(lines_of(contents@)),
            skip_before_timestamp as int,
        ),
        skip_before_timestamp <= 0 ==> planned@ == parse_all_spec(lines_of(contents@)),
{
    let parsed = parse_log(contents);
    if skip_before_timestamp > 0 {
        filter_by_timestamp(sort_lines(parsed), skip_before_timestamp)
    } else {
        parsed
    }
}

} // verus!
