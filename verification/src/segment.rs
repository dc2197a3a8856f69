//! Cutting a byte buffer into line-aligned segments.

use vstd::prelude::*;
use crate::bytes::{first_of, lemma_first_of_bounds, lemma_first_of_monotone, find_byte};

verus! {

/// The byte that ends a record.
pub const TERMINATOR: u8 = 10;

/// The byte that separates a record's key from its value.
pub const DELIMITER: u8 = 59;

/// A half-open range `[start, end)` of byte offsets.
#[derive(Clone, Copy, Debug, PartialEq, Eq, Structural)]
pub struct Segment {
    pub start: usize,
    pub end: usize,
}

/// The offset just behind the first terminator at or after `from`, or the
/// buffer's length where there is none.
pub open spec fn line_end_after(data: Seq<u8>, from: int) -> int {
    let t = first_of(data, TERMINATOR, from);
    if t < data.len() {
        t + 1
    } else {
        data.len() as int
    }
}

/// The `i`-th of the `workers + 1` cut points: 0, then the even split
/// positions moved forward to the end of the line they fall in, then the
/// buffer's length.
pub open spec fn cut(data: Seq<u8>, workers: int, i: int) -> int {
    if i <= 0 {
        0
    } else if i >= workers {
        data.len() as int
    } else {
        line_end_after(data, i * (data.len() as int / workers))
    }
}

/// The non-empty ranges between the first `i + 1` cut points, in order.
pub open spec fn segments_upto(data: Seq<u8>, workers: int, i: int) -> Seq<Segment>
    decreases i,
{
    if i <= 0 {
        Seq::empty()
    } else {
        let before = segments_upto(data, workers, i - 1);
        let s = cut(data, workers, i - 1);
        let e = cut(data, workers, i);
        if s < e {
            before.push(Segment { start: s as usize, end: e as usize })
        } else {
            before
        }
    }
}

/// The segments of `data` for `workers` workers.
pub open spec fn spec_segments(data: Seq<u8>, workers: int) -> Seq<Segment> {
    segments_upto(data, workers, workers)
}

/// The segments follow one another without gap or overlap from offset 0 to
/// `len`, none is empty, and each one but the first starts just behind a
/// terminator.
pub open spec fn tiles(segs: Seq<Segment>, data: Seq<u8>, len: int) -> bool {
    &&& (segs.len() == 0 <==> len == 0)
    &&& segs.len() > 0 ==> segs[0].start == 0 && segs[segs.len() - 1].end == len
    &&& forall|j: int| 0 <= j < segs.len() ==> (#[trigger] segs[j]).start < segs[j].end
    &&& forall|j: int|
        0 < j < segs.len() ==> (#[trigger] segs[j]).start == segs[j - 1].end
            && 0 < segs[j].start <= data.len() && data[segs[j].start - 1] == TERMINATOR
}

/// The even split positions rise and stay inside the buffer.
proof fn lemma_split_position(len: int, workers: int, i: int)
    requires
        0 <= len,
        1 <= workers,
        0 <= i < workers,
    ensures
        0 <= i * (len / workers) <= (i + 1) * (len / workers) <= len,
{
    let c = len / workers;
    assert(0 <= c && c * workers <= len) by (nonlinear_arith)
        requires
            0 <= len,
            1 <= workers,
            c == len / workers,
    ;
    assert(0 <= i * c <= (i + 1) * c <= workers * c) by (nonlinear_arith)
        requires
            0 <= c,
            0 <= i < workers,
    ;
    assert(workers * c == c * workers) by (nonlinear_arith);
}

/// The cut points never go backwards and stay inside the buffer.
pub proof fn lemma_cut_monotone(data: Seq<u8>, workers: int, i: int)
    requires
        1 <= workers,
        0 <= i < workers,
    ensures
        0 <= cut(data, workers, i) <= cut(data, workers, i + 1) <= data.len(),
{
    let len = data.len() as int;
    lemma_split_position(len, workers, i);
    let c = len / workers;
    lemma_first_of_bounds(data, TERMINATOR, i * c);
    lemma_first_of_bounds(data, TERMINATOR, (i + 1) * c);
    lemma_first_of_monotone(data, TERMINATOR, i * c, (i + 1) * c);
}

/// The segments between the first `i + 1` cut points tile the buffer as far
/// as the last of these cut points; for `i == workers` that is the whole
/// buffer, whatever it holds and however many workers there are.
pub proof fn lemma_segments_tile(data: Seq<u8>, workers: int, i: int)
    requires
        1 <= workers,
        0 <= i <= workers,
        data.len() <= usize::MAX,
    ensures
        tiles(segments_upto(data, workers, i), data, cut(data, workers, i)),
        segments_upto(data, workers, i).len() <= i,
    decreases i,
{
    if i > 0 {
        lemma_segments_tile(data, workers, i - 1);
        lemma_cut_monotone(data, workers, i - 1);
        let before = segments_upto(data, workers, i - 1);
        let s = cut(data, workers, i - 1);
        let e = cut(data, workers, i);
        if s < e {
            let now = before.push(Segment { start: s as usize, end: e as usize });
            assert(now == segments_upto(data, workers, i));
            if i - 1 > 0 {
                let c = data.len() as int / workers;
                lemma_split_position(data.len() as int, workers, i - 1);
                lemma_first_of_bounds(data, TERMINATOR, (i - 1) * c);
            }
            assert forall|j: int| 0 < j < now.len() implies (#[trigger] now[j]).start == now[j
                - 1].end && 0 < now[j].start <= data.len() && data[now[j].start - 1]
                == TERMINATOR by {
                if j < before.len() {
                    assert(now[j] == before[j]);
                    assert(now[j - 1] == before[j - 1]);
                }
            }
            assert forall|j: int| 0 <= j < now.len() implies (#[trigger] now[j]).start
                < now[j].end by {
                if j < before.len() {
                    assert(now[j] == before[j]);
                }
            }
        }
    }
}

/// Moves `from` forward to the end of the line it falls in.
fn advance_to_line_end(data: &[u8], from: usize) -> (pos: usize)
    requires
        from <= data@.len(),
    ensures
        pos == line_end_after(data@, from as int),
        from <= pos <= data@.len(),
{
    let pos: usize = find_byte(data, TERMINATOR, from);
    if pos < data.len() {
        pos + 1
    } else {
        pos
    }
}

/// Cuts `data` into at most `workers` segments that tile it, each cut moved
/// forward to the end of a line so that no record is split.
pub fn segments(data: &[u8], workers: usize) -> (segs: Vec<Segment>)
    requires
        workers >= 1,
    ensures
        segs@ == spec_segments(data@, workers as int),
        segs@.len() <= workers,
        tiles(segs@, data@, data@.len() as int),
{
    let len: usize = data.len();
    let chunk: usize = len / workers;
    let mut segs: Vec<Segment> = Vec::new();
    let mut start: usize = 0;
    let mut i: usize = 0;
    while i < workers
        invariant
            workers >= 1,
            len == data@.len(),
            chunk == len / workers,
            0 <= i <= workers,
            start == cut(data@, workers as int, i as int),
            segs@ == segments_upto(data@, workers as int, i as int),
        decreases workers - i,
    {
        proof {
            lemma_split_position(len as int, workers as int, i as int);
            lemma_cut_monotone(data@, workers as int, i as int);
        }
        let end: usize = if i + 1 == workers {
            len
        } else {
            advance_to_line_end(data, (i + 1) * chunk)
        };
        if start < end {
            segs.push(Segment { start, end });
        }
        start = end;
        i += 1;
    }
    proof {
        lemma_segments_tile(data@, workers as int, workers as int);
    }
    segs
}

} // verus!
