use station_stats::aggregate::{aggregate, AggError, Aggregator};
use station_stats::decimal::Decimal;
use station_stats::splitter::{split_next, SplitStep};
use station_stats::table::AggregationTable;

const UNIT: i128 = 1_000_000_000;

#[test]
fn split_one_record() {
    let input = b"A;2.0\n";
    match split_next(input, 0) {
        SplitStep::Record { key_end, val_end } => {
            assert_eq!(&input[..key_end], b"A;");
            assert_eq!(&input[key_end..val_end], b"2.0\n");
            assert_eq!(split_next(input, val_end), SplitStep::Done);
        }
        other => panic!("expected a record, got {:?}", other),
    }
}

#[test]
fn split_detects_truncation() {
    // A key segment with no value bytes after its delimiter.
    assert_eq!(split_next(b"A;", 0), SplitStep::Truncated);
    // A stream that ends inside the key segment.
    assert_eq!(split_next(b"A", 0), SplitStep::Truncated);
}

#[test]
fn split_last_record_without_line_feed() {
    let input = b"A;2.0";
    match split_next(input, 0) {
        SplitStep::Record { key_end, val_end } => {
            assert_eq!(&input[..key_end], b"A;");
            assert_eq!(&input[key_end..val_end], b"2.0");
        }
        other => panic!("expected a record, got {:?}", other),
    }
}

#[test]
fn truncated_stream_is_malformed() {
    assert_eq!(aggregate(b"A;"), Err(AggError::MalformedRecord));
    assert_eq!(aggregate(b"A;2.0\nB;"), Err(AggError::MalformedRecord));
}

#[test]
fn undecodable_value_is_a_decode_error() {
    assert_eq!(aggregate(b"A;x\n"), Err(AggError::Decode));
    assert_eq!(aggregate(b"A;2.0\nB;\n"), Err(AggError::Decode));
    assert_eq!(aggregate(b"A;\xff\n"), Err(AggError::Decode));
}

#[test]
fn end_to_end_scenario() {
    let table = aggregate(b"A;2.0\nA;1.0\nA;80.0\nB;-5.0\n").expect("well-formed input");
    assert_eq!(table.len(), 2);

    let a = table.get(b"A").expect("key A present");
    assert_eq!(a.min, Decimal::new(UNIT));
    assert_eq!(a.max, Decimal::new(80 * UNIT));
    assert_eq!(a.mean.sum, 83 * UNIT);
    assert_eq!(a.mean.count, 3);
    // 83 / 3 is not a whole number of billionths; the exact mean is the
    // fraction sum/count.
    assert_eq!(a.mean.value(), None);

    let b = table.get(b"B").expect("key B present");
    assert_eq!(b.min, Decimal::new(-5 * UNIT));
    assert_eq!(b.max, Decimal::new(-5 * UNIT));
    assert_eq!(b.mean.value(), Some(Decimal::new(-5 * UNIT)));
}

#[test]
fn mean_trace_matches_incremental_updates() {
    // Folding A's values one record at a time: mean 2.0, then 1.5, then 83/3.
    let t1 = aggregate(b"A;2.0\n").expect("ok");
    assert_eq!(t1.get(b"A").unwrap().mean.value(), Some(Decimal::new(2 * UNIT)));
    let t2 = aggregate(b"A;2.0\nA;1.0\n").expect("ok");
    assert_eq!(t2.get(b"A").unwrap().mean.value(), Some(Decimal::new(1_500_000_000)));
}

#[test]
fn keys_are_isolated() {
    let mut table = AggregationTable::new();
    assert!(table.fold_value(b"A", Decimal::new(UNIT)));
    assert!(table.fold_value(b"B", Decimal::new(7 * UNIT)));
    let b_before = *table.get(b"B").unwrap();
    assert!(table.fold_value(b"A", Decimal::new(100 * UNIT)));
    assert!(table.fold_value(b"A", Decimal::new(-100 * UNIT)));
    assert_eq!(*table.get(b"B").unwrap(), b_before);
    assert_eq!(table.get(b"A").unwrap().mean.count, 3);
}

#[test]
fn keys_keep_first_seen_order() {
    let table = aggregate(b"C;1\nA;2\nB;3\nA;4\n").expect("ok");
    assert_eq!(table.len(), 3);
    assert_eq!(table.key_at(0).as_slice(), b"C");
    assert_eq!(table.key_at(1).as_slice(), b"A");
    assert_eq!(table.key_at(2).as_slice(), b"B");
    assert_eq!(table.stats_at(1).mean.count, 2);
}

#[test]
fn empty_key_is_tracked_like_any_other() {
    let table = aggregate(b";3.0\n;5.0\n").expect("ok");
    assert_eq!(table.len(), 1);
    let stats = table.get(b"").expect("empty key present");
    assert_eq!(stats.mean.count, 2);
    assert_eq!(stats.mean.value(), Some(Decimal::new(4 * UNIT)));
}

#[test]
fn key_delimiter_is_stripped_once() {
    let mut agg = Aggregator::new();
    assert_eq!(agg.push(b"A;", b"2.0\n"), Ok(()));
    // A key segment that (at end of stream) carries no delimiter is used
    // as it stands.
    assert_eq!(agg.push(b"A", b"4.0"), Ok(()));
    let table = agg.finish();
    assert_eq!(table.len(), 1);
    assert_eq!(table.get(b"A").unwrap().mean.value(), Some(Decimal::new(3 * UNIT)));
}

#[test]
fn table_overflow_reports_false_and_changes_nothing() {
    let mut table = AggregationTable::new();
    assert!(table.fold_value(b"K", Decimal::new(i128::MAX)));
    let before = *table.get(b"K").unwrap();
    assert!(!table.fold_value(b"K", Decimal::new(1)));
    assert_eq!(*table.get(b"K").unwrap(), before);
    assert_eq!(table.get(b"K").unwrap().mean.count, 1);
}

#[test]
fn aggregate_of_empty_input_is_empty() {
    let table = aggregate(b"").expect("empty stream is exhausted at once");
    assert_eq!(table.len(), 0);
}

#[test]
fn value_segments_tolerate_whitespace() {
    let table = aggregate(b"A; 3.5 \nA;\t4.5\n").expect("ok");
    let a = table.get(b"A").unwrap();
    assert_eq!(a.min, Decimal::new(3 * UNIT + 500_000_000));
    assert_eq!(a.max, Decimal::new(4 * UNIT + 500_000_000));
    assert_eq!(a.mean.value(), Some(Decimal::new(4 * UNIT)));
}

#[test]
fn key_without_delimiter_spans_lines() {
    // A line without a semicolon merges into the next key segment, as a
    // read up to the delimiter specifies.
    let input = b"A\nB;1.0\n";
    match split_next(input, 0) {
        SplitStep::Record { key_end, val_end } => {
            assert_eq!(&input[..key_end], b"A\nB;");
            assert_eq!(&input[key_end..val_end], b"1.0\n");
        }
        other => panic!("expected a record, got {:?}", other),
    }
}
