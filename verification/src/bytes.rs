//! Searching a byte buffer for one byte.

use vstd::prelude::*;

verus! {

/// The first offset at or after `from` that holds `byte`, or the buffer's
/// length where there is none.
pub open spec fn first_of(data: Seq<u8>, byte: u8, from: int) -> int
    decreases data.len() - from,
{
    if from >= data.len() {
        data.len() as int
    } else if data[from] == byte {
        from
    } else {
        first_of(data, byte, from + 1)
    }
}

/// `first_of` stays inside the buffer, lands on `byte` unless it reaches the
/// end, and passes over no occurrence of `byte`.
pub proof fn lemma_first_of_bounds(data: Seq<u8>, byte: u8, from: int)
    requires
        0 <= from <= data.len(),
    ensures
        from <= first_of(data, byte, from) <= data.len(),
        first_of(data, byte, from) < data.len() ==> data[first_of(data, byte, from)] == byte,
        forall|k: int| from <= k < first_of(data, byte, from) ==> data[k] != byte,
    decreases data.len() - from,
{
    if from < data.len() && data[from] != byte {
        lemma_first_of_bounds(data, byte, from + 1);
    }
}

/// A later start never finds an earlier occurrence.
pub proof fn lemma_first_of_monotone(data: Seq<u8>, byte: u8, p: int, q: int)
    requires
        0 <= p <= q <= data.len(),
    ensures
        first_of(data, byte, p) <= first_of(data, byte, q),
    decreases q - p,
{
    lemma_first_of_bounds(data, byte, p);
    lemma_first_of_bounds(data, byte, q);
    if p < q && data[p] != byte {
        lemma_first_of_monotone(data, byte, p + 1, q);
    }
}

/// Any offset that holds `byte` with no earlier occurrence from `from` on is
/// the one `first_of` gives.
pub proof fn lemma_first_of_unique(data: Seq<u8>, byte: u8, from: int, at: int)
    requires
        0 <= from <= at <= data.len(),
        at < data.len() ==> data[at] == byte,
        forall|k: int| from <= k < at ==> data[k] != byte,
    ensures
        first_of(data, byte, from) == at,
    decreases at - from,
{
    if from < at {
        lemma_first_of_unique(data, byte, from + 1, at);
    }
}

/// Searching a part of a buffer finds what searching the buffer finds, cut
/// off at the part's end.
pub proof fn lemma_first_of_subrange(data: Seq<u8>, byte: u8, start: int, end: int, from: int)
    requires
        0 <= start <= end <= data.len(),
        0 <= from <= end - start,
    ensures
        first_of(data.subrange(start, end), byte, from) + start == if first_of(
            data,
            byte,
            start + from,
        ) < end {
            first_of(data, byte, start + from)
        } else {
            end
        },
{
    let part = data.subrange(start, end);
    lemma_first_of_bounds(data, byte, start + from);
    let whole = first_of(data, byte, start + from);
    let at = if whole < end {
        whole - start
    } else {
        end - start
    };
    assert forall|k: int| from <= k < at implies part[k] != byte by {
        assert(part[k] == data[start + k]);
    }
    if at < part.len() {
        assert(part[at] == data[start + at]);
    }
    lemma_first_of_unique(part, byte, from, at);
}

/// Finds the first occurrence of `byte` at or after `from`.
pub fn find_byte(data: &[u8], byte: u8, from: usize) -> (pos: usize)
    requires
        from <= data@.len(),
    ensures
        pos == first_of(data@, byte, from as int),
        from <= pos <= data@.len(),
{
    let mut pos: usize = from;
    proof {
        lemma_first_of_bounds(data@, byte, from as int);
    }
    while pos < data.len() && data[pos] != byte
        invariant
            from <= pos <= data@.len(),
            first_of(data@, byte, pos as int) == first_of(data@, byte, from as int),
        decreases data@.len() - pos,
    {
        pos += 1;
    }
    pos
}

} // verus!
