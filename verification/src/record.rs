//! What a buffer of records means: its records, and their statistics by key.

use vstd::prelude::*;
use vstd::utf8::valid_utf8;
use crate::accumulator::Stats;
use crate::bytes::{first_of, lemma_first_of_bounds, lemma_first_of_subrange, lemma_first_of_unique};
use crate::decimal::spec_parse;
use crate::segment::{DELIMITER, TERMINATOR};

verus! {

/// A record: the bytes of its key and its value in units.
pub type Record = (Seq<u8>, int);

/// Statistics by key.
pub type Tally = Map<Seq<u8>, Stats>;

/// The key's bytes of a line: what stands before its first delimiter.
pub open spec fn key_of(line: Seq<u8>) -> Seq<u8> {
    line.subrange(0, first_of(line, DELIMITER, 0))
}

/// The value's bytes of a line that holds a delimiter: what stands behind
/// the first one.
pub open spec fn value_of(line: Seq<u8>) -> Seq<u8> {
    line.subrange(first_of(line, DELIMITER, 0) + 1, line.len() as int)
}

/// The record that a line holds. A line holds none where it has no
/// delimiter, where key or value is empty, where the key is not UTF-8, or
/// where the value is no number.
pub open spec fn parse_line(line: Seq<u8>) -> Option<Record> {
    if first_of(line, DELIMITER, 0) < line.len() && key_of(line).len() > 0 && value_of(
        line,
    ).len() > 0 && valid_utf8(key_of(line)) && spec_parse(value_of(line)) is Some {
        Some((key_of(line), spec_parse(value_of(line)).unwrap()))
    } else {
        None
    }
}

/// The offset at which the line that starts at `from` ends: that of its
/// terminator, or the buffer's length.
pub open spec fn line_stop(data: Seq<u8>, from: int) -> int {
    first_of(data, TERMINATOR, from)
}

/// The records of the lines that start at `from` or later, in order; a line
/// that holds none is passed over.
pub open spec fn records_from(data: Seq<u8>, from: int) -> Seq<Record>
    decreases data.len() - from,
    via records_from_decreases
{
    if from < 0 || from >= data.len() {
        Seq::empty()
    } else {
        let rest = if line_stop(data, from) < data.len() {
            records_from(data, line_stop(data, from) + 1)
        } else {
            Seq::empty()
        };
        match parse_line(data.subrange(from, line_stop(data, from))) {
            Some(r) => seq![r] + rest,
            None => rest,
        }
    }
}

#[via_fn]
proof fn records_from_decreases(data: Seq<u8>, from: int) {
    if 0 <= from < data.len() {
        lemma_first_of_bounds(data, TERMINATOR, from);
    }
}

/// The records of a buffer.
pub open spec fn records(data: Seq<u8>) -> Seq<Record> {
    records_from(data, 0)
}

/// The statistics after one more record.
pub open spec fn observe(t: Tally, key: Seq<u8>, value: int) -> Tally {
    if t.contains_key(key) {
        t.insert(key, t[key].observe(value))
    } else {
        t.insert(key, Stats::seed(value))
    }
}

/// The statistics by key of a sequence of records.
pub open spec fn tally(recs: Seq<Record>) -> Tally
    decreases recs.len(),
{
    if recs.len() == 0 {
        Map::empty()
    } else {
        observe(tally(recs.drop_last()), recs.last().0, recs.last().1)
    }
}

/// The statistics of two tallies taken together: a key of both has its two
/// entries merged, a key of one keeps its entry.
pub open spec fn combine_tallies(a: Tally, b: Tally) -> Tally {
    Map::new(
        |k: Seq<u8>| a.contains_key(k) || b.contains_key(k),
        |k: Seq<u8>|
            if a.contains_key(k) && b.contains_key(k) {
                a[k].combine(b[k])
            } else if a.contains_key(k) {
                a[k]
            } else {
                b[k]
            },
    )
}

/// No key of both tallies would count more than `u64::MAX` values once the
/// two are taken together.
pub open spec fn can_combine(a: Tally, b: Tally) -> bool {
    forall|k: Seq<u8>|
        #![trigger a.contains_key(k)]
        #![trigger b.contains_key(k)]
        a.contains_key(k) && b.contains_key(k) ==> a[k].count + b[k].count <= u64::MAX
}

/// Every entry is valid and counts at most `n` values.
pub open spec fn bounded(t: Tally, n: int) -> bool {
    forall|k: Seq<u8>| #[trigger] t.contains_key(k) ==> t[k].valid() && t[k].count <= n
}

/// Every value fits an `i64`.
pub open spec fn values_fit(recs: Seq<Record>) -> bool {
    forall|i: int| 0 <= i < recs.len() ==> i64::MIN <= (#[trigger] recs[i]).1 <= i64::MAX
}

/// The tally of `n` records that fit is finite, and each of its entries is
/// valid and counts at most `n` values.
pub proof fn lemma_tally_bounded(recs: Seq<Record>)
    requires
        values_fit(recs),
    ensures
        bounded(tally(recs), recs.len() as int),
        tally(recs).dom().finite(),
    decreases recs.len(),
{
    if recs.len() > 0 {
        let before = recs.drop_last();
        assert forall|i: int| 0 <= i < before.len() implies i64::MIN <= (#[trigger] before[i]).1
            <= i64::MAX by {
            assert(before[i] == recs[i]);
        }
        lemma_tally_bounded(before);
        let last = recs.last();
        assert(i64::MIN <= last.1 <= i64::MAX);
    }
}

/// Merging two tallies is indifferent to their order.
pub proof fn lemma_combine_tallies_commutative(a: Tally, b: Tally)
    ensures
        combine_tallies(a, b) == combine_tallies(b, a),
{
    assert(combine_tallies(a, b) =~= combine_tallies(b, a));
}

/// Merging three tallies is indifferent to how they are grouped.
pub proof fn lemma_combine_tallies_associative(a: Tally, b: Tally, c: Tally)
    ensures
        combine_tallies(combine_tallies(a, b), c) == combine_tallies(a, combine_tallies(b, c)),
{
    assert(combine_tallies(combine_tallies(a, b), c) =~= combine_tallies(
        a,
        combine_tallies(b, c),
    ));
}

/// Taking in one more record on the right side of a merge is taking it in
/// after the merge.
pub proof fn lemma_observe_combine(a: Tally, b: Tally, key: Seq<u8>, value: int)
    ensures
        combine_tallies(a, observe(b, key, value)) == observe(combine_tallies(a, b), key, value),
{
    assert(combine_tallies(a, observe(b, key, value)) =~= observe(
        combine_tallies(a, b),
        key,
        value,
    ));
}

/// The tally of two sequences of records, one behind the other, is the
/// merge of their tallies.
pub proof fn lemma_tally_concat(a: Seq<Record>, b: Seq<Record>)
    ensures
        tally(a + b) == combine_tallies(tally(a), tally(b)),
    decreases b.len(),
{
    if b.len() == 0 {
        assert(a + b == a);
        assert(combine_tallies(tally(a), tally(b)) =~= tally(a));
    } else {
        assert((a + b).drop_last() == a + b.drop_last());
        assert((a + b).last() == b.last());
        lemma_tally_concat(a, b.drop_last());
        lemma_observe_combine(tally(a), tally(b.drop_last()), b.last().0, b.last().1);
    }
}

/// The records of a buffer's tail are the records that the buffer has from
/// the tail's start on.
pub proof fn lemma_records_of_tail(data: Seq<u8>, start: int, from: int)
    requires
        0 <= start <= data.len(),
        0 <= from <= data.len() - start,
    ensures
        records_from(data, start + from) == records_from(
            data.subrange(start, data.len() as int),
            from,
        ),
    decreases data.len() - start - from,
{
    let tail = data.subrange(start, data.len() as int);
    if from < tail.len() {
        lemma_first_of_subrange(data, TERMINATOR, start, data.len() as int, from);
        lemma_first_of_bounds(data, TERMINATOR, start + from);
        let stop = line_stop(data, start + from);
        assert(line_stop(tail, from) == stop - start);
        assert(tail.subrange(from, stop - start) == data.subrange(start + from, stop));
        if stop < data.len() {
            lemma_records_of_tail(data, start, stop + 1 - start);
        }
    }
}

/// Where a line ends just before `cut`, the records from an earlier line
/// start on are those before the cut followed by those from the cut on.
pub proof fn lemma_records_across_cut(data: Seq<u8>, cut: int, from: int)
    requires
        0 <= from <= cut <= data.len(),
        cut == 0 || data[cut - 1] == TERMINATOR,
    ensures
        records_from(data, from) == records_from(data.subrange(0, cut), from) + records_from(
            data,
            cut,
        ),
    decreases cut - from,
{
    let head = data.subrange(0, cut);
    if from < cut {
        lemma_first_of_subrange(data, TERMINATOR, 0, cut, from);
        lemma_first_of_bounds(data, TERMINATOR, from);
        let stop = line_stop(data, from);
        assert(stop <= cut - 1);
        assert(line_stop(head, from) == stop);
        assert(head.subrange(from, stop) == data.subrange(from, stop));
        lemma_records_across_cut(data, cut, stop + 1);
        let tail = records_from(data, cut);
        let mid = records_from(head, stop + 1);
        match parse_line(data.subrange(from, stop)) {
            Some(r) => {
                assert(seq![r] + (mid + tail) == (seq![r] + mid) + tail);
            },
            None => {},
        }
    } else {
        assert(records_from(head, from) + records_from(data, cut) == records_from(data, cut));
    }
}

/// Cutting a buffer where a line ends cuts its records in two: those of the
/// part before the cut, then those of the part behind it.
pub proof fn lemma_records_split(data: Seq<u8>, cut: int)
    requires
        0 <= cut <= data.len(),
        cut == 0 || data[cut - 1] == TERMINATOR,
    ensures
        records(data) == records(data.subrange(0, cut)) + records(
            data.subrange(cut, data.len() as int),
        ),
{
    lemma_records_across_cut(data, cut, 0);
    lemma_records_of_tail(data, cut, 0);
}

/// A line without a delimiter, with nothing before its first delimiter, with
/// nothing behind it, with a key that is not UTF-8, or with a value that is
/// no number holds no record.
pub proof fn lemma_malformed_line(line: Seq<u8>)
    ensures
        (forall|i: int| 0 <= i < line.len() ==> line[i] != DELIMITER) ==> parse_line(line) is None,
        key_of(line).len() == 0 ==> parse_line(line) is None,
        value_of(line).len() == 0 ==> parse_line(line) is None,
        !valid_utf8(key_of(line)) ==> parse_line(line) is None,
        spec_parse(value_of(line)) is None ==> parse_line(line) is None,
{
    if forall|i: int| 0 <= i < line.len() ==> line[i] != DELIMITER {
        lemma_first_of_unique(line, DELIMITER, 0, line.len() as int);
    }
}

/// A line that holds no record changes nothing: the buffer has the same
/// records with the line as without it.
pub proof fn lemma_line_without_record_ignored(before: Seq<u8>, line: Seq<u8>, after: Seq<u8>)
    requires
        before.len() == 0 || before.last() == TERMINATOR,
        forall|i: int| 0 <= i < line.len() ==> line[i] != TERMINATOR,
        parse_line(line) is None,
    ensures
        records(before + line + seq![TERMINATOR] + after) == records(before + after),
{
    let with = before + line + seq![TERMINATOR] + after;
    let without = before + after;
    let cut = before.len() as int;
    let tail = line + seq![TERMINATOR] + after;
    lemma_records_split(with, cut);
    lemma_records_split(without, cut);
    assert(with.subrange(0, cut) == before);
    assert(without.subrange(0, cut) == before);
    assert(with.subrange(cut, with.len() as int) == tail);
    assert(without.subrange(cut, without.len() as int) == after);
    lemma_first_of_unique(tail, TERMINATOR, 0, line.len() as int);
    assert(tail.subrange(0, line.len() as int) == line);
    lemma_records_of_tail(tail, line.len() as int + 1, 0);
    assert(tail.subrange(line.len() as int + 1, tail.len() as int) == after);
}

/// A buffer has at most as many records as bytes.
pub proof fn lemma_records_len(data: Seq<u8>, from: int)
    requires
        0 <= from <= data.len(),
    ensures
        records_from(data, from).len() <= data.len() - from,
    decreases data.len() - from,
{
    if from < data.len() {
        lemma_first_of_bounds(data, TERMINATOR, from);
        let stop = line_stop(data, from);
        if stop < data.len() {
            lemma_records_len(data, stop + 1);
        }
    }
}

} // verus!
