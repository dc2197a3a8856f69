use keyed_stats::accumulator::Accumulator;
use keyed_stats::reduce::{aggregate, reduce};
use keyed_stats::scan::{parse_record, scan};
use keyed_stats::segment::{segments, Segment};
use keyed_stats::table::Table;
use keyed_stats::view::{bytes_less, result_view};

const UNIT: i64 = 1_000_000;

fn rows(data: &[u8], workers: usize) -> (Vec<(String, Accumulator)>, usize) {
    let (table, count) = aggregate(data, workers);
    (result_view(&table), count)
}

fn acc(min: i64, max: i64, sum: i128, count: u64) -> Accumulator {
    Accumulator { min, max, sum, count }
}

#[test]
fn end_to_end_two_workers() {
    let data = b"station_a;10.0\nstation_b;5.5\nstation_a;20.0\n";
    let (view, count) = rows(data, 2);
    assert_eq!(count, 3);
    assert_eq!(view.len(), 2);
    assert_eq!(view[0].0, "station_a");
    assert_eq!(view[0].1, acc(10 * UNIT, 20 * UNIT, 30 * UNIT as i128, 2));
    assert_eq!(view[0].1.mean(), 15 * UNIT);
    assert_eq!(view[1].0, "station_b");
    assert_eq!(view[1].1, acc(5_500_000, 5_500_000, 5_500_000, 1));
    assert_eq!(view[1].1.mean(), 5_500_000);
    let as_float = |units: i64| units as f64 / UNIT as f64;
    assert_eq!(as_float(view[0].1.min), 10.0);
    assert_eq!(as_float(view[0].1.max), 20.0);
    assert_eq!(as_float(view[0].1.mean()), 15.0);
    assert_eq!(as_float(view[1].1.mean()), 5.5);
}

#[test]
fn empty_input_gives_empty_table() {
    for workers in 1..5 {
        let (table, count) = aggregate(b"", workers);
        assert_eq!(count, 0);
        assert_eq!(table.len(), 0);
        assert!(result_view(&table).is_empty());
        assert!(segments(b"", workers).is_empty());
    }
}

fn sample() -> Vec<u8> {
    let mut data = Vec::new();
    let names = ["oslo", "lima", "rome", "b\u{e9}ziers", "x"];
    for i in 0..200usize {
        let name = names[(i * 7 + i / 3) % names.len()];
        let whole = (i * 37) % 90;
        let tenth = (i * 13) % 10;
        let sign = if i % 4 == 0 { "-" } else { "" };
        data.extend_from_slice(format!("{};{}{}.{}\n", name, sign, whole, tenth).as_bytes());
    }
    data
}

fn assert_tiling(data: &[u8], segs: &[Segment], workers: usize) {
    assert!(segs.len() <= workers);
    if data.is_empty() {
        assert!(segs.is_empty());
        return;
    }
    assert_eq!(segs[0].start, 0);
    assert_eq!(segs[segs.len() - 1].end, data.len());
    for (i, seg) in segs.iter().enumerate() {
        assert!(seg.start < seg.end);
        if i > 0 {
            assert_eq!(seg.start, segs[i - 1].end);
            assert_eq!(data[seg.start - 1], b'\n');
        }
    }
}

#[test]
fn segments_tile_the_buffer() {
    let data = sample();
    for workers in 1..40 {
        assert_tiling(&data, &segments(&data, workers), workers);
    }
    let irregular = b"\n\na;1\n\nbbbbbbbbbbbbbbbbbbbbbbbb;2\nc;3";
    for workers in 1..40 {
        assert_tiling(irregular, &segments(irregular, workers), workers);
    }
}

#[test]
fn segments_exact_cuts() {
    let data = b"aa;1\nbb;2\ncc;3\n";
    assert_eq!(segments(data, 1), vec![Segment { start: 0, end: 15 }]);
    assert_eq!(
        segments(data, 2),
        vec![Segment { start: 0, end: 10 }, Segment { start: 10, end: 15 }]
    );
    assert_eq!(
        segments(data, 3),
        vec![
            Segment { start: 0, end: 10 },
            Segment { start: 10, end: 15 },
        ]
    );
}

#[test]
fn buffer_without_terminator_is_one_segment() {
    let data = b"key;12.5";
    for workers in 1..10 {
        assert_eq!(segments(data, workers), vec![Segment { start: 0, end: 8 }]);
    }
    let (view, count) = rows(data, 4);
    assert_eq!(count, 1);
    assert_eq!(view[0].0, "key");
    assert_eq!(view[0].1, acc(12_500_000, 12_500_000, 12_500_000, 1));
}

#[test]
fn more_workers_than_records() {
    let data = b"a;1\nb;2\n";
    let segs = segments(data, 50);
    assert_tiling(data, &segs, 50);
    let (view, count) = rows(data, 50);
    assert_eq!(count, 2);
    assert_eq!(view.len(), 2);
}

#[test]
fn any_worker_count_gives_the_same() {
    let data = sample();
    let (one, count_one) = rows(&data, 1);
    assert_eq!(count_one, 200);
    assert_eq!(one.len(), 5);
    for workers in 2..30 {
        let (many, count_many) = rows(&data, workers);
        assert_eq!(count_many, count_one);
        assert_eq!(many, one);
    }
}

#[test]
fn merging_an_equal_accumulator_doubles() {
    let mut a = acc(-3 * UNIT, 7 * UNIT, 11 * UNIT as i128, 4);
    let b = a;
    a.merge(&b);
    assert_eq!(a, acc(-3 * UNIT, 7 * UNIT, 22 * UNIT as i128, 8));
}

#[test]
fn update_and_merge_formulas() {
    let mut a = Accumulator::new(5);
    assert_eq!(a, acc(5, 5, 5, 1));
    a.update(-2);
    assert_eq!(a, acc(-2, 5, 3, 2));
    a.update(9);
    assert_eq!(a, acc(-2, 9, 12, 3));
    let mut b = Accumulator::new(-7);
    b.update(1);
    a.merge(&b);
    assert_eq!(a, acc(-7, 9, 6, 5));
    assert_eq!(a.mean(), 1);
}

#[test]
fn mean_rounds_toward_zero() {
    assert_eq!(acc(1, 2, 3, 2).mean(), 1);
    assert_eq!(acc(-2, -1, -3, 2).mean(), -1);
    assert_eq!(acc(-2, 1, -1, 2).mean(), 0);
    assert_eq!(acc(UNIT, 2 * UNIT, 3 * UNIT as i128, 2).mean(), 1_500_000);
    assert_eq!(acc(i64::MAX, i64::MAX, i64::MAX as i128 * 3, 3).mean(), i64::MAX);
    assert_eq!(acc(i64::MIN, i64::MIN, i64::MIN as i128 * 3, 3).mean(), i64::MIN);
}

#[test]
fn malformed_records_are_passed_over() {
    let data = b"no delimiter here\n;1.0\nkey;\nkey;abc\nkey;1.0;2\n\ngood;2.5\nkey;--1\n";
    for workers in 1..6 {
        let (view, count) = rows(data, workers);
        assert_eq!(count, 1);
        assert_eq!(view.len(), 1);
        assert_eq!(view[0].0, "good");
        assert_eq!(view[0].1, acc(2_500_000, 2_500_000, 2_500_000, 1));
    }
}

#[test]
fn line_without_delimiter_does_not_join_the_next() {
    let (view, count) = rows(b"abc\nfoo;1.0\n", 1);
    assert_eq!(count, 1);
    assert_eq!(view[0].0, "foo");
}

#[test]
fn key_that_is_not_utf8_is_rejected() {
    assert!(parse_record(b"\xff\xfe;1.0").is_none());
    assert!(parse_record(b"\xc3;1.0").is_none());
    assert_eq!(parse_record("b\u{e9}ziers;1.5".as_bytes()), Some(("b\u{e9}ziers", 1_500_000)));
    let (table, count) = scan(b"\xff;1\nok;2\n");
    assert_eq!(count, 1);
    assert_eq!(table.len(), 1);
    assert!(table.get("ok").is_some());
}

#[test]
fn parse_record_cases() {
    assert_eq!(parse_record(b"a;1"), Some(("a", UNIT)));
    assert_eq!(parse_record(b"a b;-0.5"), Some(("a b", -500_000)));
    assert_eq!(parse_record(b"a"), None);
    assert_eq!(parse_record(b""), None);
    assert_eq!(parse_record(b";"), None);
    assert_eq!(parse_record(b"a;"), None);
    assert_eq!(parse_record(b";1"), None);
    assert_eq!(parse_record(b"a;b;1"), None);
}

#[test]
fn result_view_is_sorted_and_repeatable() {
    let data = b"pear;1\napple;2\nfig;3\nApple;4\nfi;5\nfigs;6\napple;7\n";
    let (table, count) = aggregate(data, 3);
    assert_eq!(count, 7);
    let first = result_view(&table);
    let second = result_view(&table);
    assert_eq!(first, second);
    let keys: Vec<&str> = first.iter().map(|row| row.0.as_str()).collect();
    assert_eq!(keys, vec!["Apple", "apple", "fi", "fig", "figs", "pear"]);
    assert_eq!(first[1].1, acc(2 * UNIT, 7 * UNIT, 9 * UNIT as i128, 2));
    assert_eq!(table.len(), 6);
}

#[test]
fn bytes_less_is_lexicographic() {
    assert!(bytes_less(b"", b"a"));
    assert!(!bytes_less(b"", b""));
    assert!(!bytes_less(b"a", b""));
    assert!(bytes_less(b"a", b"ab"));
    assert!(!bytes_less(b"ab", b"a"));
    assert!(bytes_less(b"ab", b"b"));
    assert!(bytes_less(b"Z", b"a"));
    assert!(!bytes_less(b"abc", b"abc"));
    assert!(bytes_less(b"a\x7f", b"a\x80"));
}

#[test]
fn table_records_and_finds() {
    let mut table = Table::new();
    assert_eq!(table.len(), 0);
    assert_eq!(table.get("a"), None);
    table.record("a", 3);
    table.record("b", -1);
    table.record("a", 10);
    assert_eq!(table.len(), 2);
    assert_eq!(table.get("a"), Some(acc(3, 10, 13, 2)));
    assert_eq!(table.get("b"), Some(acc(-1, -1, -1, 1)));
    assert_eq!(table.get("c"), None);
    let mut pairs = table.entries();
    if pairs[0].0 != "a" {
        pairs.reverse();
    }
    assert_eq!(
        pairs,
        vec![("a".to_string(), acc(3, 10, 13, 2)), ("b".to_string(), acc(-1, -1, -1, 1))]
    );
}

#[test]
fn absorb_merges_by_key() {
    let mut left = Table::new();
    left.record("a", 1);
    left.record("b", 2);
    let mut right = Table::new();
    right.record("b", 5);
    right.record("c", 7);
    right.record("b", -4);
    left.absorb(&right);
    assert_eq!(left.len(), 3);
    assert_eq!(left.get("a"), Some(acc(1, 1, 1, 1)));
    assert_eq!(left.get("b"), Some(acc(-4, 5, 3, 3)));
    assert_eq!(left.get("c"), Some(acc(7, 7, 7, 1)));
    assert_eq!(right.len(), 2);
}

#[test]
fn reduce_folds_tables_and_counts() {
    let parts = vec![scan(b"a;1\nb;2\n"), scan(b""), scan(b"a;3\nbad\n"), scan(b"c;4")];
    let (table, total) = reduce(&parts);
    assert_eq!(total, 4);
    assert_eq!(table.get("a"), Some(acc(UNIT, 3 * UNIT, 4 * UNIT as i128, 2)));
    assert_eq!(table.get("b"), Some(acc(2 * UNIT, 2 * UNIT, 2 * UNIT as i128, 1)));
    assert_eq!(table.get("c"), Some(acc(4 * UNIT, 4 * UNIT, 4 * UNIT as i128, 1)));
    let (none, zero) = reduce(&Vec::new());
    assert_eq!(zero, 0);
    assert_eq!(none.len(), 0);
}

#[test]
fn result_view_orders_by_bytes() {
    let data = "z;1\n\u{e9};2\nab;3\na;4\n~;5\nB;6\n\u{4e2d};7\n".as_bytes();
    let (view, count) = rows(data, 2);
    assert_eq!(count, 7);
    let keys: Vec<Vec<u8>> = view.iter().map(|row| row.0.clone().into_bytes()).collect();
    let mut expected = keys.clone();
    expected.sort();
    assert_eq!(keys, expected);
    assert_eq!(view[0].0, "B");
    assert_eq!(view[6].0, "\u{4e2d}");
}
