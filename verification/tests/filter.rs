use log_slicer::cli::{Args, ConfigError, Input, Output};
use log_slicer::engine::filter::Filter;
use log_slicer::engine::record::Record;
use log_slicer::pattern::Pattern;
use log_slicer::timestamp::Timestamp;

fn plain_args() -> Args {
    Args {
        paths: Vec::new(),
        input: Input::Auto,
        output: Output::Plain,
        contains: None,
        regex: None,
        field: None,
        equals: None,
        since: None,
        until: None,
        time_field: "timestamp".to_string(),
        head: None,
        tail: None,
        stats: false,
        select: None,
    }
}

fn some(s: &str) -> Option<String> {
    Some(s.to_string())
}

fn auto(line: &str) -> Record {
    Record::from_line(line.to_string(), Input::Auto).unwrap()
}

fn build(args: &Args) -> Filter {
    Filter::build(args).unwrap()
}

fn fault(args: &Args) -> ConfigError {
    Filter::build(args).unwrap_err()
}

#[test]
fn a_filter_without_predicates_passes_everything() {
    let f = build(&plain_args());
    for line in ["", "hello", "{\"a\":1}", "{broken", "   ", "\u{1f600}"] {
        assert!(f.matches(&auto(line)), "line {:?}", line);
    }
    let mut with_field = plain_args();
    with_field.field = some("level");
    with_field.time_field = "when".to_string();
    let g = build(&with_field);
    assert!(g.matches(&auto("no structure")));
    assert!(g.matches(&auto("{\"level\":\"x\"}")));
}

#[test]
fn contains_is_case_sensitive_containment() {
    let mut args = plain_args();
    args.contains = some("error");
    let f = build(&args);
    assert!(f.matches(&auto("error: boom")));
    assert!(f.matches(&auto("an error")));
    assert!(!f.matches(&auto("Error: boom")));
    assert!(!f.matches(&auto("hello")));
    assert!(!f.matches(&auto("")));
}

#[test]
fn the_empty_substring_is_in_every_line() {
    let mut args = plain_args();
    args.contains = some("");
    let f = build(&args);
    assert!(f.matches(&auto("")));
    assert!(f.matches(&auto("x")));
}

#[test]
fn equals_is_exact() {
    let mut args = plain_args();
    args.equals = some("ok");
    let f = build(&args);
    assert!(f.matches(&auto("ok")));
    assert!(!f.matches(&auto("ok ")));
    assert!(!f.matches(&auto("OK")));
    assert!(!f.matches(&auto("")));
}

#[test]
fn equals_implies_contains_on_the_same_text() {
    let lines = ["error", "error: boom", "an error", "", "err", "{\"level\":\"error\"}"];
    for field in [None, some("level")] {
        let mut eq = plain_args();
        eq.field = field.clone();
        eq.equals = some("error");
        let mut sub = plain_args();
        sub.field = field.clone();
        sub.contains = some("error");
        let by_equality = build(&eq);
        let by_containment = build(&sub);
        for line in lines {
            let rec = auto(line);
            if by_equality.matches(&rec) {
                assert!(by_containment.matches(&rec), "line {:?}", line);
            }
        }
    }
    let mut eq = plain_args();
    eq.equals = some("error");
    assert!(build(&eq).matches(&auto("error")));
}

#[test]
fn predicates_read_the_field_when_one_is_named() {
    let mut args = plain_args();
    args.field = some("level");
    args.equals = some("error");
    let f = build(&args);
    assert!(f.matches(&auto(r#"{"level":"error","msg":"boom"}"#)));
    assert!(!f.matches(&auto(r#"{"level":"info","msg":"error"}"#)));
    assert!(!f.matches(&auto(r#"{"msg":"error"}"#)));
    assert!(!f.matches(&auto("error")));
}

#[test]
fn a_missing_field_reads_as_the_empty_text() {
    let mut args = plain_args();
    args.field = some("level");
    args.equals = some("");
    let f = build(&args);
    assert!(f.matches(&auto(r#"{"msg":"x"}"#)));
    assert!(f.matches(&auto("plain text")));
    assert!(f.matches(&auto(r#"{"level":""}"#)));
    assert!(!f.matches(&auto(r#"{"level":"x"}"#)));
}

#[test]
fn fields_that_are_no_strings_match_by_their_text() {
    let mut args = plain_args();
    args.field = some("code");
    args.equals = some("500");
    let f = build(&args);
    assert!(f.matches(&auto(r#"{"code":500}"#)));
    assert!(!f.matches(&auto(r#"{"code":"5000"}"#)));
    let mut flag = plain_args();
    flag.field = some("ok");
    flag.contains = some("ru");
    assert!(build(&flag).matches(&auto(r#"{"ok":true}"#)));
}

#[test]
fn regex_is_an_unanchored_search() {
    let mut args = plain_args();
    args.regex = some(r"b[o0]+m");
    let f = build(&args);
    assert!(f.matches(&auto("error: boom")));
    assert!(f.matches(&auto("b0om!")));
    assert!(!f.matches(&auto("bm")));
    let mut anchored = plain_args();
    anchored.regex = some("^ok$");
    let g = build(&anchored);
    assert!(g.matches(&auto("ok")));
    assert!(!g.matches(&auto("ok then")));
}

#[test]
fn regex_reads_the_field_when_one_is_named() {
    let mut args = plain_args();
    args.field = some("msg");
    args.regex = some(r"^\d+$");
    let f = build(&args);
    assert!(f.matches(&auto(r#"{"msg":"123"}"#)));
    assert!(f.matches(&auto(r#"{"msg":123}"#)));
    assert!(!f.matches(&auto(r#"{"msg":"a123"}"#)));
    assert!(!f.matches(&auto(r#"{"other":"123"}"#)));
}

#[test]
fn all_predicates_must_hold() {
    let mut args = plain_args();
    args.contains = some("boom");
    args.regex = some("^error");
    args.equals = some("error: boom");
    let f = build(&args);
    assert!(f.matches(&auto("error: boom")));
    assert!(!f.matches(&auto("error: boom!")));
    args.equals = None;
    let g = build(&args);
    assert!(g.matches(&auto("error: boom!")));
    assert!(!g.matches(&auto("warn: boom")));
    assert!(!g.matches(&auto("error: bang")));
}

#[test]
fn time_bounds_are_inclusive() {
    let mut args = plain_args();
    args.since = some("2025-12-15T09:00:01Z");
    args.until = some("2025-12-15T09:00:01Z");
    let f = build(&args);
    assert!(!f.matches(&auto(r#"{"timestamp":"2025-12-15T09:00:00Z"}"#)));
    assert!(f.matches(&auto(r#"{"timestamp":"2025-12-15T09:00:01Z"}"#)));
    assert!(f.matches(&auto(r#"{"timestamp":"2025-12-15 09:00:01"}"#)));
    assert!(f.matches(&auto(r#"{"timestamp":"2025-12-15T11:00:01+02:00"}"#)));
    assert!(!f.matches(&auto(r#"{"timestamp":"2025-12-15T09:00:01.000000001Z"}"#)));
    assert!(!f.matches(&auto(r#"{"timestamp":"2025-12-15T09:00:02Z"}"#)));
}

#[test]
fn one_bound_alone() {
    let mut since = plain_args();
    since.since = some("2025-12-15T09:00:01Z");
    let f = build(&since);
    assert!(!f.matches(&auto(r#"{"timestamp":"2025-12-15T09:00:00Z"}"#)));
    assert!(f.matches(&auto(r#"{"timestamp":"2030-01-01T00:00:00Z"}"#)));
    let mut until = plain_args();
    until.until = some("2025-12-15T09:00:01Z");
    let g = build(&until);
    assert!(g.matches(&auto(r#"{"timestamp":"1999-01-01T00:00:00Z"}"#)));
    assert!(!g.matches(&auto(r#"{"timestamp":"2025-12-15T09:00:02Z"}"#)));
}

#[test]
fn time_slices_fail_closed() {
    let records = [
        "no structure at all",
        r#"{"msg":"no timestamp"}"#,
        r#"{"timestamp":"not a time"}"#,
        r#"{"timestamp":17}"#,
        r#"{"timestamp":null}"#,
        r#"{"when":"2025-12-15T09:00:01Z"}"#,
    ];
    let mut since = plain_args();
    since.since = some("1970-01-01T00:00:00Z");
    let mut until = plain_args();
    until.until = some("2999-01-01T00:00:00Z");
    let mut both = plain_args();
    both.since = some("1970-01-01T00:00:00Z");
    both.until = some("2999-01-01T00:00:00Z");
    both.contains = some("");
    for args in [since, until, both] {
        let f = build(&args);
        for line in records {
            assert!(!f.matches(&auto(line)), "line {:?}", line);
        }
    }
}

#[test]
fn the_time_field_can_be_named() {
    let mut args = plain_args();
    args.since = some("2025-01-01T00:00:00Z");
    args.time_field = "meta.at".to_string();
    let f = build(&args);
    assert!(f.matches(&auto(r#"{"meta":{"at":"2025-06-01T00:00:00Z"}}"#)));
    assert!(!f.matches(&auto(r#"{"timestamp":"2025-06-01T00:00:00Z"}"#)));
}

#[test]
fn bounds_must_be_rfc3339() {
    let mut since = plain_args();
    since.since = some("2025-12-15 09:00:01");
    assert_eq!(fault(&since), ConfigError::InvalidSince);
    let mut until = plain_args();
    until.until = some("tomorrow");
    assert_eq!(fault(&until), ConfigError::InvalidUntil);
    let mut empty = plain_args();
    empty.since = some("");
    assert_eq!(fault(&empty), ConfigError::InvalidSince);
}

#[test]
fn the_pattern_must_compile() {
    let mut args = plain_args();
    args.regex = some("foo(bar");
    assert_eq!(fault(&args), ConfigError::InvalidRegex);
    args.regex = some("[");
    assert_eq!(fault(&args), ConfigError::InvalidRegex);
    args.regex = some("");
    assert!(Filter::build(&args).is_ok());
}

#[test]
fn the_first_fault_is_reported() {
    let mut args = plain_args();
    args.since = some("bad");
    args.until = some("bad");
    args.regex = some("(");
    assert_eq!(fault(&args), ConfigError::InvalidSince);
    args.since = some("2025-12-15T09:00:01Z");
    assert_eq!(fault(&args), ConfigError::InvalidUntil);
    args.until = None;
    assert_eq!(fault(&args), ConfigError::InvalidRegex);
    args.regex = None;
    assert!(Filter::build(&args).is_ok());
}

#[test]
fn assemble_takes_the_outcomes_as_given() {
    let mut args = plain_args();
    args.since = some("anything");
    args.regex = some("a+");
    let at = Some(Timestamp { nanos: 5 });
    let re = Pattern::compile("b+").unwrap();
    assert_eq!(
        Filter::assemble(&args, None, None, Pattern::compile("b+")).unwrap_err(),
        ConfigError::InvalidSince
    );
    assert_eq!(Filter::assemble(&args, at, None, None).unwrap_err(), ConfigError::InvalidRegex);
    let f = Filter::assemble(&args, at, Some(Timestamp { nanos: 0 }), Some(re)).unwrap();
    assert!(f.admits_time(Some(Timestamp { nanos: 5 })));
    assert!(f.admits_time(Some(Timestamp { nanos: 1_000 })));
    assert!(!f.admits_time(Some(Timestamp { nanos: 4 })));
    assert!(!f.admits_time(None));
    let mut until_only = plain_args();
    until_only.until = some("x");
    assert_eq!(
        Filter::assemble(&until_only, at, None, None).unwrap_err(),
        ConfigError::InvalidUntil
    );
}

#[test]
fn admits_time_without_bounds_asks_nothing() {
    let f = build(&plain_args());
    assert!(f.admits_time(None));
    assert!(f.admits_time(Some(Timestamp { nanos: 0 })));
}

#[test]
fn admits_text_checks_equality_and_containment() {
    let mut args = plain_args();
    args.equals = some("abc");
    args.contains = some("b");
    args.regex = some("never looked at here");
    let f = build(&args);
    assert!(f.admits_text(&"abc".to_string()));
    assert!(!f.admits_text(&"abcd".to_string()));
    let mut sub = plain_args();
    sub.contains = some("zz");
    let g = build(&sub);
    assert!(g.admits_text(&"fizz".to_string()));
    assert!(!g.admits_text(&"fiz".to_string()));
}

#[test]
fn faults_are_described_with_the_offending_value() {
    let mut args = plain_args();
    args.since = some("soon");
    args.until = some("later");
    args.regex = some("(");
    assert_eq!(ConfigError::InvalidSince.describe(&args), "invalid --since RFC3339: soon");
    assert_eq!(ConfigError::InvalidUntil.describe(&args), "invalid --until RFC3339: later");
    assert_eq!(ConfigError::InvalidRegex.describe(&args), "invalid regex: (");
    assert_eq!(ConfigError::FieldRequired.describe(&args), "--output field requires --field");
    assert_eq!(ConfigError::InvalidRegex.describe(&plain_args()), "invalid regex: ");
}

#[test]
fn patterns_compile_or_not() {
    assert!(Pattern::compile("a+b").is_some());
    assert!(Pattern::compile("").is_some());
    assert!(Pattern::compile("a{2,1}").is_none());
    assert!(Pattern::compile("(unclosed").is_none());
    assert!(Pattern::compile(r"\w{1000}").is_none());
}

#[test]
fn patterns_search_anywhere_in_the_text() {
    let p = Pattern::compile(r"\d{3}").unwrap();
    assert!(p.finds("abc 1234 def"));
    assert!(p.finds("999"));
    assert!(!p.finds("12 34"));
    assert!(!p.finds(""));
    let empty = Pattern::compile("").unwrap();
    assert!(empty.finds(""));
    assert!(empty.finds("anything"));
    let cased = Pattern::compile("Error").unwrap();
    assert!(!cased.finds("error"));
    assert!(Pattern::compile("(?i)Error").unwrap().finds("error"));
}
