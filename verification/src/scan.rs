//! Scanning a buffer of records into a table.

use vstd::prelude::*;
use vstd::slice::slice_subrange;
use vstd::string::StringSliceAdditionalSpecFns;
use vstd::utf8::valid_utf8;
use crate::bytes::find_byte;
use crate::decimal::parse_decimal;
use crate::record::{
    Record, bounded, key_of, lemma_tally_bounded, parse_line, records, records_from, tally,
    value_of, values_fit,
};
use crate::segment::{DELIMITER, TERMINATOR};
use crate::table::Table;

verus! {

/// `std::str::from_utf8`: the text that `bytes` spell, where they are valid
/// UTF-8, and nothing where they are not.
#[verifier::external_body]
fn text_of(bytes: &[u8]) -> (text: Option<&str>)
    ensures
        text is Some <==> valid_utf8(bytes@),
        text is Some ==> text.unwrap().spec_bytes() == bytes@,
{
    std::str::from_utf8(bytes).ok()
}

/// Reads one line, without its terminator, as a record: the key's text and
/// the value in units. Gives nothing for a line that holds no record.
pub fn parse_record<'a>(line: &'a [u8]) -> (r: Option<(&'a str, i64)>)
    ensures
        match r {
            Some((key, value)) => parse_line(line@) == Some((key.spec_bytes(), value as int)),
            None => parse_line(line@) is None,
        },
{
    let at: usize = find_byte(line, DELIMITER, 0);
    if at >= line.len() {
        return None;
    }
    let key_bytes = slice_subrange(line, 0, at);
    let value_bytes = slice_subrange(line, at + 1, line.len());
    assert(key_bytes@ == key_of(line@));
    assert(value_bytes@ == value_of(line@));
    if key_bytes.len() == 0 || value_bytes.len() == 0 {
        return None;
    }
    match text_of(key_bytes) {
        None => None,
        Some(key) => match parse_decimal(value_bytes) {
            None => None,
            Some(value) => Some((key, value)),
        },
    }
}

/// Scans `chunk` line by line into a table of statistics by key, and counts
/// the records taken in. A line that holds no record changes nothing.
pub fn scan(chunk: &[u8]) -> (r: (Table, usize))
    ensures
        r.0.wf(),
        r.0@ == tally(records(chunk@)),
        r.1 == records(chunk@).len(),
        r.1 <= chunk@.len(),
        bounded(r.0@, r.1 as int),
{
    let len: usize = chunk.len();
    let mut table = Table::new();
    let mut count: usize = 0;
    let mut i: usize = 0;
    let ghost mut done: Seq<Record> = Seq::empty();
    while i < len
        invariant
            len == chunk@.len(),
            0 <= i <= len,
            table.wf(),
            table@ == tally(done),
            count == done.len(),
            count <= i,
            values_fit(done),
            records(chunk@) == done + records_from(chunk@, i as int),
        decreases len - i,
    {
        let stop: usize = find_byte(chunk, TERMINATOR, i);
        let line = slice_subrange(chunk, i, stop);
        let ghost rest = if stop < len {
            records_from(chunk@, stop + 1)
        } else {
            Seq::empty()
        };
        match parse_record(line) {
            Some((key, value)) => {
                proof {
                    lemma_tally_bounded(done);
                    let r: Record = (key.spec_bytes(), value as int);
                    assert(done.push(r).drop_last() == done);
                    assert(done + (seq![r] + rest) == done.push(r) + rest);
                    done = done.push(r);
                }
                table.record(key, value);
                count = count + 1;
            },
            None => {},
        }
        i = if stop < len {
            stop + 1
        } else {
            len
        };
    }
    proof {
        assert(done + Seq::<Record>::empty() == done);
        lemma_tally_bounded(done);
    }
    (table, count)
}

} // verus!
