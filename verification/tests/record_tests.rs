use asr_server::record::{Elapsed, QueryRecord, QueryTracker, RECENT_QUERIES};
use asr_server::AppState;

fn elapsed(d: chrono::Duration) -> Elapsed {
    Elapsed { secs: d.num_seconds(), nanos: d.subsec_nanos() }
}

fn ms(n: i64) -> Elapsed {
    elapsed(chrono::Duration::milliseconds(n))
}

fn texts(records: &[QueryRecord]) -> Vec<String> {
    records.iter().map(|r| r.text.clone()).collect()
}

#[test]
fn new_tracker_is_empty() {
    let t = QueryTracker::new("01/02/2024 03:04:05".to_string());
    assert_eq!(t.get_total_cnts(), 0);
    assert_eq!(t.start_time, "01/02/2024 03:04:05");
    assert!(t.get_records().is_empty());
}

#[test]
fn default_tracker_is_empty() {
    let t = QueryTracker::default();
    assert_eq!(t.get_total_cnts(), 0);
    assert_eq!(t.start_time, "");
    assert!(t.records.is_empty());
}

#[test]
fn record_query_counts_and_keeps() {
    let mut t = QueryTracker::new("start".to_string());
    t.record_query("你好".to_string(), ms(1500));
    t.record_query("世界".to_string(), ms(250));
    assert_eq!(t.get_total_cnts(), 2);
    let r = t.get_records();
    assert_eq!(texts(&r), vec!["你好".to_string(), "世界".to_string()]);
    assert_eq!(r[0].duration, ms(1500));
    assert_eq!(r[1].duration, ms(250));
}

#[test]
fn tracker_keeps_only_the_last_ten() {
    let mut t = QueryTracker::new("s".to_string());
    for i in 0..25 {
        t.record_query(format!("q{}", i), ms(i as i64));
    }
    assert_eq!(t.get_total_cnts(), 25);
    let r = t.get_records();
    assert_eq!(r.len(), RECENT_QUERIES);
    let expected: Vec<String> = (15..25).map(|i| format!("q{}", i)).collect();
    assert_eq!(texts(&r), expected);
    assert_eq!(r[0].duration, ms(15));
}

#[test]
fn tracker_eleventh_query_drops_the_first() {
    let mut t = QueryTracker::new("s".to_string());
    for i in 0..10 {
        t.record_query(format!("q{}", i), ms(0));
    }
    assert_eq!(t.get_records().len(), 10);
    assert_eq!(t.get_records()[0].text, "q0");
    t.record_query("q10".to_string(), ms(0));
    let r = t.get_records();
    assert_eq!(r.len(), 10);
    assert_eq!(r[0].text, "q1");
    assert_eq!(r[9].text, "q10");
}

fn expected_report(t: &QueryTracker) -> String {
    let mut table = prettytable::Table::new();
    table.set_format(*prettytable::format::consts::FORMAT_NO_LINESEP_WITH_TITLE);
    table.add_row(prettytable::Row::new(vec![
        prettytable::Cell::new("Index"),
        prettytable::Cell::new("Duration (s)"),
        prettytable::Cell::new("Text"),
    ]));
    for (index, record) in t.records.iter().enumerate() {
        table.add_row(prettytable::Row::new(vec![
            prettytable::Cell::new(&index.to_string()),
            prettytable::Cell::new(&((chrono::Duration::seconds(record.duration.secs) + chrono::Duration::nanoseconds(record.duration.nanos as i64)).num_milliseconds() as f64 / 1000.0).to_string()),
            prettytable::Cell::new(&record.text),
        ]));
    }
    format!(
        "Start at: {}\nTotal Query Times:{}\n\nLast 10 Queries:\n{}",
        t.start_time, t.total_cnts, table
    )
}

#[test]
fn table_string_matches_the_printed_table() {
    let mut t = QueryTracker::new("05/06/2024 07:08:09".to_string());
    t.record_query("第一".to_string(), ms(1234));
    t.record_query("second query".to_string(), ms(1000));
    t.record_query("".to_string(), ms(5));
    let s = t.to_table_string();
    assert_eq!(s, expected_report(&t));
    assert!(s.starts_with("Start at: 05/06/2024 07:08:09\nTotal Query Times:3\n\nLast 10 Queries:\n"));
    assert!(s.contains("1.234"));
    assert!(s.contains("0.005"));
    assert!(s.contains("second query"));
}

#[test]
fn table_string_of_empty_tracker() {
    let t = QueryTracker::new("x".to_string());
    let s = t.to_table_string();
    assert_eq!(s, expected_report(&t));
    assert!(s.contains("Index"));
    assert!(s.contains("Duration (s)"));
}

#[test]
fn table_string_after_many_queries() {
    let mut t = QueryTracker::new("x".to_string());
    for i in 0..13 {
        t.record_query(format!("text {}", i), ms(100 * i as i64));
    }
    let s = t.to_table_string();
    assert_eq!(s, expected_report(&t));
    assert!(s.contains("Total Query Times:13\n"));
    assert!(!s.contains("text 2 "));
}

#[test]
fn finish_query_reports_and_logs_last_segment() {
    let mut state = AppState { track: QueryTracker::new("t".to_string()) };
    let segs = vec!["一".to_string(), "二".to_string()];
    let text = state.finish_query(&segs, ms(42));
    assert_eq!(text, "二");
    assert_eq!(state.track.get_total_cnts(), 1);
    let r = state.track.get_records();
    assert_eq!(r[0].text, "二");
    assert_eq!(r[0].duration, ms(42));
}

#[test]
fn finish_query_without_segments_logs_empty_text() {
    let mut state = AppState { track: QueryTracker::new("t".to_string()) };
    let text = state.finish_query(&Vec::new(), ms(7));
    assert_eq!(text, "");
    assert_eq!(state.track.get_records()[0].text, "");
}

#[test]
fn elapsed_milliseconds_match_chrono() {
    let mut ds = Vec::new();
    for n in [-2_500_000_001i64, -1_999_999, -1_000_000, -999_999, -1, 0, 1, 999_999, 1_000_000, 1_234_567_891, 86_400_000_000_123] {
        ds.push(chrono::Duration::nanoseconds(n));
    }
    ds.push(chrono::Duration::MAX);
    ds.push(chrono::Duration::MIN);
    for d in ds {
        assert_eq!(elapsed(d).num_milliseconds(), d.num_milliseconds() as i128, "{:?}", d);
    }
}

#[test]
fn sub_millisecond_duration_is_kept() {
    let mut t = QueryTracker::new("s".to_string());
    let d = chrono::Duration::nanoseconds(1_500_250);
    t.record_query("x".to_string(), elapsed(d));
    let r = t.get_records();
    assert_eq!(r[0].duration, Elapsed { secs: 0, nanos: 1_500_250 });
    assert!(t.to_table_string().contains("0.001"));
}

#[test]
fn table_string_with_negative_and_fractional_durations() {
    let mut t = QueryTracker::new("neg".to_string());
    t.record_query("a".to_string(), elapsed(chrono::Duration::nanoseconds(-1_500_000_000)));
    t.record_query("b".to_string(), elapsed(chrono::Duration::nanoseconds(2_000_999_999)));
    assert_eq!(t.to_table_string(), expected_report(&t));
    assert!(t.to_table_string().contains("-1.5"));
}
