//! Folding the tables of the segments into one, and the whole run.

use vstd::prelude::*;
use vstd::slice::slice_subrange;
use crate::record::{
    Tally, bounded, combine_tallies, lemma_records_len, lemma_records_split, lemma_tally_concat,
    records, tally,
};
use crate::scan::scan;
use crate::segment::{Segment, lemma_segments_tile, segments, spec_segments, tiles};
use crate::table::Table;

verus! {

/// The tallies merged from the first to the last.
pub open spec fn merge_all(tallies: Seq<Tally>) -> Tally
    decreases tallies.len(),
{
    if tallies.len() == 0 {
        Map::empty()
    } else {
        combine_tallies(merge_all(tallies.drop_last()), tallies.last())
    }
}

/// The sum of the counts.
pub open spec fn sum_all(counts: Seq<int>) -> int
    decreases counts.len(),
{
    if counts.len() == 0 {
        0
    } else {
        sum_all(counts.drop_last()) + counts.last()
    }
}

/// The tallies of the parts' tables, in order.
pub open spec fn tallies_of(parts: Seq<(Table, usize)>) -> Seq<Tally> {
    Seq::new(parts.len(), |i: int| parts[i].0@)
}

/// The parts' record counts, in order.
pub open spec fn counts_of(parts: Seq<(Table, usize)>) -> Seq<int> {
    Seq::new(parts.len(), |i: int| parts[i].1 as int)
}

/// Every part's table is well formed, and none of its entries counts more
/// values than the part has records.
pub open spec fn parts_fit(parts: Seq<(Table, usize)>) -> bool {
    forall|i: int|
        0 <= i < parts.len() ==> (#[trigger] parts[i]).0.wf() && bounded(
            parts[i].0@,
            parts[i].1 as int,
        )
}

proof fn lemma_sum_prefix(counts: Seq<int>, n: int)
    requires
        0 <= n <= counts.len(),
        forall|i: int| 0 <= i < counts.len() ==> 0 <= #[trigger] counts[i],
    ensures
        0 <= sum_all(counts.take(n)) <= sum_all(counts),
    decreases counts.len() - n,
{
    if n == counts.len() {
        assert(counts.take(n) == counts);
        lemma_sum_nonnegative(counts);
    } else {
        lemma_sum_prefix(counts, n + 1);
        lemma_sum_nonnegative(counts.take(n));
        assert(counts.take(n + 1).drop_last() == counts.take(n));
        assert(counts.take(n + 1).last() == counts[n]);
    }
}

proof fn lemma_sum_nonnegative(counts: Seq<int>)
    requires
        forall|i: int| 0 <= i < counts.len() ==> 0 <= #[trigger] counts[i],
    ensures
        0 <= sum_all(counts),
    decreases counts.len(),
{
    if counts.len() > 0 {
        lemma_sum_nonnegative(counts.drop_last());
    }
}

/// Folds the tables of `parts` into one and adds up their record counts.
pub fn reduce(parts: &Vec<(Table, usize)>) -> (r: (Table, usize))
    requires
        parts_fit(parts@),
        sum_all(counts_of(parts@)) <= usize::MAX,
    ensures
        r.0.wf(),
        r.0@ == merge_all(tallies_of(parts@)),
        r.1 == sum_all(counts_of(parts@)),
        bounded(r.0@, r.1 as int),
{
    let mut table = Table::new();
    let mut total: usize = 0;
    let mut j: usize = 0;
    let ghost tallies = tallies_of(parts@);
    let ghost counts = counts_of(parts@);
    assert(tallies.take(0) == Seq::<Tally>::empty());
    assert(counts.take(0) == Seq::<int>::empty());
    while j < parts.len()
        invariant
            0 <= j <= parts@.len(),
            parts_fit(parts@),
            tallies == tallies_of(parts@),
            counts == counts_of(parts@),
            sum_all(counts) <= usize::MAX,
            table.wf(),
            table@ == merge_all(tallies.take(j as int)),
            total == sum_all(counts.take(j as int)),
            bounded(table@, total as int),
        decreases parts@.len() - j,
    {
        proof {
            lemma_sum_prefix(counts, j as int + 1);
            assert(counts.take(j as int + 1).drop_last() == counts.take(j as int));
            assert(tallies.take(j as int + 1).drop_last() == tallies.take(j as int));
            assert(counts.take(j as int + 1).last() == parts@[j as int].1);
            assert(tallies.take(j as int + 1).last() == parts@[j as int].0@);
        }
        let part = &parts[j];
        table.absorb(&part.0);
        total = total + part.1;
        proof {
            table.lemma_wf_entries();
        }
        j += 1;
    }
    proof {
        assert(tallies.take(j as int) == tallies);
        assert(counts.take(j as int) == counts);
    }
    (table, total)
}

/// The bytes of `data` that `seg` covers.
pub open spec fn chunk_of(data: Seq<u8>, seg: Segment) -> Seq<u8> {
    data.subrange(seg.start as int, seg.end as int)
}

/// The tally of each segment, in order.
pub open spec fn segment_tallies(data: Seq<u8>, segs: Seq<Segment>) -> Seq<Tally> {
    Seq::new(segs.len(), |i: int| tally(records(chunk_of(data, segs[i]))))
}

/// The number of records of each segment, in order.
pub open spec fn segment_counts(data: Seq<u8>, segs: Seq<Segment>) -> Seq<int> {
    Seq::new(segs.len(), |i: int| records(chunk_of(data, segs[i])).len() as int)
}

/// The offset that the first `n` segments reach.
pub open spec fn reach(segs: Seq<Segment>, n: int) -> int {
    if n <= 0 {
        0
    } else {
        segs[n - 1].end as int
    }
}

/// Folding the tallies of the first `n` of the segments that tile a buffer
/// gives the tally of the buffer as far as they reach, and their record
/// counts add up to the number of its records that far.
pub proof fn lemma_fold_segments(data: Seq<u8>, segs: Seq<Segment>, n: int)
    requires
        tiles(segs, data, data.len() as int),
        0 <= n <= segs.len(),
    ensures
        0 <= reach(segs, n) <= data.len(),
        merge_all(segment_tallies(data, segs).take(n)) == tally(
            records(data.subrange(0, reach(segs, n))),
        ),
        sum_all(segment_counts(data, segs).take(n)) == records(
            data.subrange(0, reach(segs, n)),
        ).len(),
        sum_all(segment_counts(data, segs).take(n)) <= reach(segs, n),
    decreases n,
{
    let tallies = segment_tallies(data, segs);
    let counts = segment_counts(data, segs);
    if n == 0 {
        assert(tallies.take(0) == Seq::<Tally>::empty());
        assert(counts.take(0) == Seq::<int>::empty());
        assert(data.subrange(0, 0) == Seq::<u8>::empty());
    } else {
        lemma_fold_segments(data, segs, n - 1);
        let seg = segs[n - 1];
        assert(seg.start == reach(segs, n - 1));
        assert(seg.start < seg.end <= data.len()) by {
            if n < segs.len() {
                assert(segs[n].start == segs[n - 1].end);
            }
        }
        let upto = data.subrange(0, seg.end as int);
        let chunk = chunk_of(data, seg);
        lemma_records_split(upto, seg.start as int);
        assert(upto.subrange(0, seg.start as int) == data.subrange(0, seg.start as int));
        assert(upto.subrange(seg.start as int, upto.len() as int) == chunk);
        lemma_tally_concat(records(data.subrange(0, seg.start as int)), records(chunk));
        lemma_records_len(chunk, 0);
        assert(tallies.take(n).drop_last() == tallies.take(n - 1));
        assert(counts.take(n).drop_last() == counts.take(n - 1));
        assert(tallies.take(n).last() == tally(records(chunk)));
        assert(counts.take(n).last() == records(chunk).len());
    }
}

/// Scanning a buffer segment by segment and folding the tables gives the
/// statistics and the record count of the buffer scanned in one piece,
/// whatever the number of workers; so any two numbers of workers give the
/// same.
pub proof fn lemma_worker_count_irrelevant(data: Seq<u8>, workers: int, others: int)
    requires
        data.len() <= usize::MAX,
        workers >= 1,
        others >= 1,
    ensures
        merge_all(segment_tallies(data, spec_segments(data, workers))) == tally(records(data)),
        sum_all(segment_counts(data, spec_segments(data, workers))) == records(data).len(),
        merge_all(segment_tallies(data, spec_segments(data, workers))) == merge_all(
            segment_tallies(data, spec_segments(data, others)),
        ),
        sum_all(segment_counts(data, spec_segments(data, workers))) == sum_all(
            segment_counts(data, spec_segments(data, others)),
        ),
{
    lemma_fold_all(data, workers);
    lemma_fold_all(data, others);
}

proof fn lemma_fold_all(data: Seq<u8>, workers: int)
    requires
        data.len() <= usize::MAX,
        workers >= 1,
    ensures
        merge_all(segment_tallies(data, spec_segments(data, workers))) == tally(records(data)),
        sum_all(segment_counts(data, spec_segments(data, workers))) == records(data).len(),
        records(data).len() <= data.len(),
{
    let segs = spec_segments(data, workers);
    lemma_segments_tile(data, workers, workers);
    lemma_fold_segments(data, segs, segs.len() as int);
    assert(segment_tallies(data, segs).take(segs.len() as int) == segment_tallies(data, segs));
    assert(segment_counts(data, segs).take(segs.len() as int) == segment_counts(data, segs));
    assert(data.subrange(0, reach(segs, segs.len() as int)) == data);
}

/// The statistics by key of all records of `data`, and the number of
/// records, found by cutting `data` into segments for `workers` workers,
/// scanning each segment, and folding the tables. The result is the same for
/// every number of workers.
pub fn aggregate(data: &[u8], workers: usize) -> (r: (Table, usize))
    requires
        workers >= 1,
    ensures
        r.0.wf(),
        r.0@ == tally(records(data@)),
        r.1 == records(data@).len(),
        bounded(r.0@, r.1 as int),
{
    let segs: Vec<Segment> = segments(data, workers);
    let mut parts: Vec<(Table, usize)> = Vec::new();
    let mut j: usize = 0;
    while j < segs.len()
        invariant
            0 <= j <= segs@.len(),
            tiles(segs@, data@, data@.len() as int),
            parts@.len() == j,
            parts_fit(parts@),
            forall|i: int|
                0 <= i < j ==> (#[trigger] parts@[i]).0@ == tally(
                    records(chunk_of(data@, segs@[i])),
                ) && parts@[i].1 == records(chunk_of(data@, segs@[i])).len(),
        decreases segs@.len() - j,
    {
        let seg: Segment = segs[j];
        proof {
            lemma_fold_segments(data@, segs@, j as int + 1);
            assert(seg.start < seg.end);
        }
        let chunk = slice_subrange(data, seg.start, seg.end);
        let part: (Table, usize) = scan(chunk);
        parts.push(part);
        j += 1;
    }
    proof {
        lemma_fold_all(data@, workers as int);
        assert(tallies_of(parts@) == segment_tallies(data@, segs@));
        assert(counts_of(parts@) == segment_counts(data@, segs@));
    }
    reduce(&parts)
}

} // verus!
