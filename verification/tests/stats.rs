use log_slicer::cli::Input;
use log_slicer::engine::record::Record;
use log_slicer::engine::stats::Stats;

fn json(line: &str) -> Record {
    Record::from_line(line.to_string(), Input::Json).unwrap()
}

fn level(value: &str) -> Record {
    json(&format!("{{\"level\":\"{}\"}}", value))
}

#[test]
fn fresh_counters_are_zero() {
    let stats = Stats::default();
    assert_eq!(stats.seen, 0);
    assert_eq!(stats.matched, 0);
    assert!(stats.values.is_empty());
    assert!(stats.counts.is_empty());
    assert_eq!(stats.print(None), "seen: 0\nmatched: 0\n");
    assert_eq!(stats.print(Some("level")), "seen: 0\nmatched: 0\ntop values for field 'level':\n");
}

#[test]
fn observe_counts_each_value_in_order_of_first_occurrence() {
    let mut stats = Stats::default();
    for value in ["info", "error", "info", "warn", "error", "info"] {
        stats.observe(&level(value), Some("level"));
    }
    assert_eq!(stats.values, vec!["info", "error", "warn"]);
    assert_eq!(stats.counts, vec![3, 2, 1]);
    assert_eq!(stats.seen, 0);
    assert_eq!(stats.matched, 0);
}

#[test]
fn observe_without_a_field_counts_nothing() {
    let mut stats = Stats::default();
    stats.observe(&level("info"), None);
    assert!(stats.values.is_empty());
    assert!(stats.counts.is_empty());
}

#[test]
fn records_without_the_field_are_not_counted() {
    let mut stats = Stats::default();
    stats.observe(&json(r#"{"msg":"x"}"#), Some("level"));
    stats.observe(&Record::from_line("plain".to_string(), Input::Text).unwrap(), Some("level"));
    assert!(stats.values.is_empty());
    stats.observe(&json(r#"{"level":"a"}"#), Some("level"));
    assert_eq!(stats.values, vec!["a"]);
    assert_eq!(stats.counts, vec![1]);
}

#[test]
fn values_that_are_no_strings_are_counted_by_their_text() {
    let mut stats = Stats::default();
    for line in [
        r#"{"v":1}"#,
        r#"{"v":"1"}"#,
        r#"{"v":true}"#,
        r#"{"v":null}"#,
        r#"{"v":[1,2]}"#,
        r#"{"v":{"a":"b"}}"#,
        r#"{"v":1.0}"#,
    ] {
        stats.observe(&json(line), Some("v"));
    }
    assert_eq!(stats.values, vec!["1", "true", "null", "[1,2]", "{\"a\":\"b\"}", "1.0"]);
    assert_eq!(stats.counts, vec![2, 1, 1, 1, 1, 1]);
}

#[test]
fn report_lists_values_by_falling_count() {
    let mut stats = Stats::default();
    for value in ["info", "error", "info", "warn", "error", "info", "debug", "warn", "warn"] {
        stats.observe(&level(value), Some("level"));
    }
    stats.seen = 12;
    stats.matched = 9;
    let expected = "seen: 12\n\
                    matched: 9\n\
                    top values for field 'level':\n\
                    \x20      3  info\n\
                    \x20      3  warn\n\
                    \x20      2  error\n\
                    \x20      1  debug\n";
    assert_eq!(stats.print(Some("level")), expected);
    assert_eq!(stats.print(None), "seen: 12\nmatched: 9\n");
}

#[test]
fn equal_counts_stay_in_order_of_first_occurrence() {
    let mut stats = Stats::default();
    for value in ["c", "a", "b", "a", "c", "b", "d"] {
        stats.observe(&level(value), Some("level"));
    }
    let expected = "seen: 0\n\
                    matched: 0\n\
                    top values for field 'x':\n\
                    \x20      2  c\n\
                    \x20      2  a\n\
                    \x20      2  b\n\
                    \x20      1  d\n";
    assert_eq!(stats.print(Some("x")), expected);
}

#[test]
fn report_shows_twenty_values_at_most() {
    let mut stats = Stats::default();
    for i in 0..25 {
        stats.observe(&level(&format!("v{:02}", i)), Some("level"));
    }
    for _ in 0..2 {
        stats.observe(&level("v24"), Some("level"));
    }
    stats.observe(&level("v22"), Some("level"));
    let report = stats.print(Some("level"));
    let lines: Vec<&str> = report.lines().collect();
    assert_eq!(lines.len(), 3 + 20);
    assert_eq!(lines[3], "       3  v24");
    assert_eq!(lines[4], "       2  v22");
    assert_eq!(lines[5], "       1  v00");
    assert_eq!(lines[22], "       1  v17");
    assert!(report.ends_with("  v17\n"));
}

#[test]
fn wide_counts_push_the_column_out() {
    let mut stats = Stats::default();
    stats.observe(&level("big"), Some("level"));
    stats.observe(&level("small"), Some("level"));
    stats.counts[0] = 1_234_567;
    stats.counts[1] = 123_456;
    assert_eq!(
        stats.print(Some("level")),
        "seen: 0\nmatched: 0\ntop values for field 'level':\n  1234567  big\n  123456  small\n"
    );
}
