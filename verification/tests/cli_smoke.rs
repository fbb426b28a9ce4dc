use log_slicer::cli::{Args, Input, Output};
use log_slicer::engine::run;

fn default_args() -> Args {
    Args {
        paths: Vec::new(),
        input: Input::Auto,
        output: Output::Plain,
        contains: None,
        regex: None,
        field: None,
        equals: None,
        since: None,
        until: None,
        time_field: "timestamp".to_string(),
        head: None,
        tail: None,
        stats: false,
        select: None,
    }
}

fn file_lines(content: &str) -> Vec<String> {
    content.lines().map(|l| l.to_string()).collect()
}

#[test]
fn filters_text_contains() {
    let lines = file_lines("hello\nerror: boom\nok\n");
    let mut args = default_args();
    args.contains = Some("error".to_string());

    let pass = run(&args, &lines).unwrap();
    let stdout = pass.lines.join("\n");
    assert!(stdout.contains("error: boom"));
    assert_eq!(pass.lines, vec!["error: boom"]);
}

#[test]
fn filters_text_contains_in_text_mode() {
    let lines = file_lines("hello\nerror: boom\nok\n");
    let mut args = default_args();
    args.input = Input::Text;
    args.contains = Some("error".to_string());
    assert_eq!(run(&args, &lines).unwrap().lines, vec!["error: boom"]);
}

#[test]
fn filters_json_field_equals() {
    let lines = file_lines(
        r#"{"level":"info","msg":"hi"}
{"level":"error","msg":"boom"}
"#,
    );
    let mut args = default_args();
    args.input = Input::Json;
    args.field = Some("level".to_string());
    args.equals = Some("error".to_string());

    let pass = run(&args, &lines).unwrap();
    let stdout = pass.lines.join("\n");
    assert!(stdout.contains(r#""level":"error""#));
    assert_eq!(pass.lines, vec![r#"{"level":"error","msg":"boom"}"#]);
}

#[test]
fn filters_json_by_since_until() {
    let lines = file_lines(
        r#"{"timestamp":"2025-12-15T09:00:00Z","level":"info","msg":"a"}
{"timestamp":"2025-12-15T09:00:01Z","level":"error","msg":"b"}
{"timestamp":"2025-12-15T09:00:02Z","level":"warn","msg":"c"}
"#,
    );
    let mut args = default_args();
    args.input = Input::Json;
    args.since = Some("2025-12-15T09:00:01Z".to_string());
    args.until = Some("2025-12-15T09:00:01Z".to_string());

    let pass = run(&args, &lines).unwrap();
    let stdout = pass.lines.join("\n");
    assert!(stdout.contains(r#""msg":"b""#));
    assert!(!stdout.contains(r#""msg":"a""#));
    assert!(!stdout.contains(r#""msg":"c""#));
    assert_eq!(
        pass.lines,
        vec![r#"{"timestamp":"2025-12-15T09:00:01Z","level":"error","msg":"b"}"#]
    );
}
