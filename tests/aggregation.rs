use chunk_stats::aggregate::{process_chunk, LineError};
use chunk_stats::chunk_it;
use chunk_stats::key::compare_keys;
use chunk_stats::merge::merge_results;
use chunk_stats::report::write_results;
use chunk_stats::stats::Sensor;
use chunk_stats::summary::SummaryMap;
use chunk_stats::value::parse_value;
use std::cmp::Ordering;

fn run(data: &[u8], nb_chunks: usize) -> String {
    let chunks = chunk_it(data, nb_chunks);
    let maps: Vec<SummaryMap> = chunks
        .iter()
        .map(|c| process_chunk(&data[c.start..c.end]).unwrap())
        .collect();
    let merged = merge_results(maps).unwrap();
    String::from_utf8(write_results(&merged)).unwrap()
}

#[test]
fn end_to_end_example() {
    let data = b"A;1.0\nB;2.0\nA;3.0\n";
    let m = process_chunk(data).unwrap();
    assert_eq!(m.len(), 2);
    assert_eq!(m.get(b"A"), Some(Sensor { min: 10, max: 30, sum: 40, cnt: 2 }));
    assert_eq!(m.get(b"B"), Some(Sensor { min: 20, max: 20, sum: 20, cnt: 1 }));
    assert_eq!(run(data, 1), "{A=1.0/2.0/3.0, B=2.0/2.0/2.0}");
    assert_eq!(run(data, 3), "{A=1.0/2.0/3.0, B=2.0/2.0/2.0}");
}

#[test]
fn missing_trailing_newline_keeps_last_record() {
    let data = b"A;5.0\nB;1.0";
    let m = process_chunk(data).unwrap();
    assert_eq!(m.get(b"B"), Some(Sensor { min: 10, max: 10, sum: 10, cnt: 1 }));
    for n in 1..=4 {
        assert_eq!(run(data, n), "{A=5.0/5.0/5.0, B=1.0/1.0/1.0}");
    }
}

#[test]
fn partition_gives_same_statistics_as_whole() {
    let data = b"Oslo;-3.4\nRome;18.2\nOslo;2.0\nLima;19.9\nRome;-0.5\nOslo;-10.1\nLima;20.0\n";
    let whole = merge_results(vec![process_chunk(data).unwrap()]).unwrap();
    for n in 1..=8 {
        let chunks = chunk_it(data, n);
        let maps: Vec<SummaryMap> = chunks
            .iter()
            .map(|c| process_chunk(&data[c.start..c.end]).unwrap())
            .collect();
        let parts = merge_results(maps).unwrap();
        assert_eq!(parts, whole);
    }
    let oslo = whole.iter().find(|(k, _)| k == b"Oslo").unwrap().1;
    assert_eq!(oslo, Sensor { min: -101, max: 20, sum: -115, cnt: 3 });
}

#[test]
fn report_is_sorted_by_bytes() {
    let data = b"b;1.0\nB;2.0\na;3.0\nab;4.0\nA;5.0\n";
    assert_eq!(run(data, 2), "{A=5.0/5.0/5.0, B=2.0/2.0/2.0, a=3.0/3.0/3.0, ab=4.0/4.0/4.0, b=1.0/1.0/1.0}");
}

#[test]
fn empty_lines_are_skipped() {
    let m = process_chunk(b"\nA;1.0\n\n\nA;2.0\n").unwrap();
    assert_eq!(m.get(b"A"), Some(Sensor { min: 10, max: 20, sum: 30, cnt: 2 }));
}

#[test]
fn empty_input_reports_empty_braces() {
    assert_eq!(run(b"", 4), "{}");
}

#[test]
fn line_without_separator_is_an_error() {
    assert!(matches!(process_chunk(b"A;1.0\nB 2.0\n"), Err(LineError::MissingSeparator)));
}

#[test]
fn non_numeric_value_is_an_error() {
    assert!(matches!(process_chunk(b"A;1.0\nB;x.y\n"), Err(LineError::InvalidValue)));
    assert!(matches!(process_chunk(b"A;1.25\n"), Err(LineError::InvalidValue)));
    assert!(matches!(process_chunk(b"A;\n"), Err(LineError::InvalidValue)));
}

#[test]
fn first_bad_line_decides_the_error() {
    assert!(matches!(process_chunk(b"A;q\nB\n"), Err(LineError::InvalidValue)));
    assert!(matches!(process_chunk(b"B\nA;q\n"), Err(LineError::MissingSeparator)));
}

#[test]
fn key_stops_at_first_separator() {
    assert!(matches!(process_chunk(b"a;b;1.0\n"), Err(LineError::InvalidValue)));
}

#[test]
fn values_are_read_in_tenths() {
    assert_eq!(parse_value(b"1.0"), Some(10));
    assert_eq!(parse_value(b"-12.3"), Some(-123));
    assert_eq!(parse_value(b"0.0"), Some(0));
    assert_eq!(parse_value(b"99.9"), Some(999));
    assert_eq!(parse_value(b"922337203685477580.7"), Some(i64::MAX));
    assert_eq!(parse_value(b"-922337203685477580.7"), Some(-i64::MAX));
    assert_eq!(parse_value(b"922337203685477580.8"), None);
    assert_eq!(parse_value(b"12"), None);
    assert_eq!(parse_value(b".5"), None);
    assert_eq!(parse_value(b"1.5.0"), None);
    assert_eq!(parse_value(b"-"), None);
    assert_eq!(parse_value(b""), None);
}

#[test]
fn sensor_tracks_min_max_sum_count() {
    let mut s = Sensor::new(15);
    s.add_temp(-3);
    s.add_temp(40);
    assert_eq!(s, Sensor { min: -3, max: 40, sum: 52, cnt: 3 });
    let mut t = Sensor::new(7);
    t.merge(&s);
    assert_eq!(t, Sensor { min: -3, max: 40, sum: 59, cnt: 4 });
}

#[test]
fn averages_round_half_away_from_zero() {
    // A: 0.1 and 0.2 average 0.15, shown as 0.2; B: -0.1 and -0.2 average -0.15, shown as -0.2.
    assert_eq!(run(b"A;0.1\nA;0.2\nB;-0.1\nB;-0.2\n", 1), "{A=0.1/0.2/0.2, B=-0.2/-0.2/-0.1}");
    // C: -0.1, 0.0, 0.0, 0.0 average -0.025, shown without a sign.
    assert_eq!(run(b"C;-0.1\nC;0.0\nC;0.0\nC;0.0\n", 2), "{C=-0.1/0.0/0.0}");
    // Whole numbers and more than one integer digit.
    assert_eq!(run(b"D;-123.4\nD;100.0\n", 1), "{D=-123.4/-11.7/100.0}");
}

#[test]
fn merging_combines_chunk_maps() {
    let a = process_chunk(b"X;1.0\nY;2.0\n").unwrap();
    let b = process_chunk(b"Y;-4.0\nZ;0.5\n").unwrap();
    let merged = merge_results(vec![a, b]).unwrap();
    let keys: Vec<&[u8]> = merged.iter().map(|(k, _)| k.as_slice()).collect();
    assert_eq!(keys, vec![&b"X"[..], &b"Y"[..], &b"Z"[..]]);
    assert_eq!(merged[1].1, Sensor { min: -40, max: 20, sum: -20, cnt: 2 });
    assert!(merge_results(Vec::new()).unwrap().is_empty());
}

#[test]
fn summary_map_records_and_absorbs() {
    let mut m = SummaryMap::new();
    assert_eq!(m.len(), 0);
    m.record(b"k", 5);
    m.record(b"k", -5);
    assert_eq!(m.get(b"k"), Some(Sensor { min: -5, max: 5, sum: 0, cnt: 2 }));
    assert!(m.absorb(b"k", &Sensor::new(9)));
    assert!(m.absorb(b"j", &Sensor::new(1)));
    assert_eq!(m.get(b"k"), Some(Sensor { min: -5, max: 9, sum: 9, cnt: 3 }));
    assert_eq!(m.entries()[0].0, b"j".to_vec());
    let huge = Sensor { min: 0, max: 0, sum: 0, cnt: usize::MAX };
    assert!(!m.absorb(b"k", &huge));
    assert_eq!(m.get(b"k").unwrap().cnt, 3);
    assert_eq!(m.into_entries().len(), 2);
}

#[test]
fn merge_reports_count_overflow() {
    let mut a = SummaryMap::new();
    assert!(a.absorb(b"k", &Sensor { min: 0, max: 0, sum: 0, cnt: usize::MAX }));
    let b = process_chunk(b"k;1.0\n").unwrap();
    assert!(merge_results(vec![a, b]).is_none());
}

#[test]
fn keys_compare_bytewise() {
    assert_eq!(compare_keys(b"a", b"b"), Ordering::Less);
    assert_eq!(compare_keys(b"ab", b"a"), Ordering::Greater);
    assert_eq!(compare_keys(b"", b""), Ordering::Equal);
    assert_eq!(compare_keys(b"Z", b"a"), Ordering::Less);
}
