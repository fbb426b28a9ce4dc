use log_slicer::cli::{Args, ConfigError, Input, Output};
use log_slicer::engine::record::Record;
use log_slicer::json::{Json, Member};
use log_slicer::output::{emit_record, put_member, select_fields, EmitPlan};

fn out_args() -> Args {
    Args {
        paths: Vec::new(),
        input: Input::Auto,
        output: Output::Plain,
        contains: None,
        regex: None,
        field: None,
        equals: None,
        since: None,
        until: None,
        time_field: "timestamp".to_string(),
        head: None,
        tail: None,
        stats: false,
        select: None,
    }
}

fn plan(mode: Output, field: Option<&str>, select: &[&str]) -> EmitPlan {
    EmitPlan {
        mode,
        field: field.map(|f| f.to_string()),
        select: select.iter().map(|s| s.to_string()).collect(),
    }
}

fn rec(line: &str, input: Input) -> Record {
    Record::from_line(line.to_string(), input).unwrap()
}

fn num(s: &str) -> Json {
    Json::Number(s.to_string())
}

fn mem(key: &str, value: Json) -> Member {
    Member { key: key.to_string(), value }
}

#[test]
fn build_copies_mode_and_field() {
    let mut args = out_args();
    args.output = Output::Ndjson;
    args.field = Some("level".to_string());
    let p = EmitPlan::build(&args).unwrap();
    assert_eq!(p.mode, Output::Ndjson);
    assert_eq!(p.field, Some("level".to_string()));
    assert!(p.select.is_empty());
}

#[test]
fn build_reads_the_selection() {
    let mut args = out_args();
    args.select = Some(" a , ,b.c,, d e ,\t".to_string());
    let p = EmitPlan::build(&args).unwrap();
    assert_eq!(p.select, vec!["a", "b.c", "d e"]);
    args.select = Some("".to_string());
    assert!(EmitPlan::build(&args).unwrap().select.is_empty());
    args.select = Some(" , ,".to_string());
    assert!(EmitPlan::build(&args).unwrap().select.is_empty());
    args.select = Some("one".to_string());
    assert_eq!(EmitPlan::build(&args).unwrap().select, vec!["one"]);
}

#[test]
fn field_output_needs_a_field() {
    let mut args = out_args();
    args.output = Output::Field;
    assert_eq!(EmitPlan::build(&args).unwrap_err(), ConfigError::FieldRequired);
    args.field = Some("msg".to_string());
    let p = EmitPlan::build(&args).unwrap();
    assert_eq!(p.mode, Output::Field);
    assert_eq!(p.field, Some("msg".to_string()));
    args.output = Output::Plain;
    args.field = None;
    assert!(EmitPlan::build(&args).is_ok());
    args.output = Output::Ndjson;
    assert!(EmitPlan::build(&args).is_ok());
}

#[test]
fn plain_output_is_the_raw_line() {
    let p = plan(Output::Plain, Some("ignored"), &["ignored"]);
    for line in ["", "hello", "  {\"a\" : 1}  ", "tab\there", "\u{1f600} \"quoted\" \\"] {
        for input in [Input::Text, Input::Auto] {
            assert_eq!(emit_record(&rec(line, input), &p), Ok(line.to_string()));
        }
    }
    let spaced = "{ \"b\": 1,   \"a\": 2 }";
    assert_eq!(emit_record(&rec(spaced, Input::Json), &p), Ok(spaced.to_string()));
}

#[test]
fn field_output_is_the_text_of_the_field() {
    let p = plan(Output::Field, Some("a.b"), &[]);
    assert_eq!(emit_record(&rec(r#"{"a":{"b":"text"}}"#, Input::Json), &p), Ok("text".to_string()));
    assert_eq!(emit_record(&rec(r#"{"a":{"b":[1,2]}}"#, Input::Json), &p), Ok("[1,2]".to_string()));
    assert_eq!(emit_record(&rec(r#"{"a":{"c":1}}"#, Input::Json), &p), Ok(String::new()));
    assert_eq!(emit_record(&rec("plain", Input::Text), &p), Ok(String::new()));
}

#[test]
fn field_output_without_a_field_is_a_fault() {
    let p = plan(Output::Field, None, &[]);
    assert_eq!(
        emit_record(&rec(r#"{"a":1}"#, Input::Json), &p),
        Err(ConfigError::FieldRequired)
    );
}

#[test]
fn ndjson_output_of_a_structured_record() {
    let p = plan(Output::Ndjson, None, &[]);
    assert_eq!(
        emit_record(&rec(" { \"z\" : 1 , \"a\" : [ true , null ] } ", Input::Json), &p),
        Ok("{\"z\":1,\"a\":[true,null]}".to_string())
    );
    assert_eq!(emit_record(&rec("[1, 2]", Input::Auto), &p), Ok("[1,2]".to_string()));
}

#[test]
fn ndjson_output_wraps_a_plain_line() {
    let p = plan(Output::Ndjson, None, &[]);
    assert_eq!(emit_record(&rec("hello", Input::Text), &p), Ok("{\"line\":\"hello\"}".to_string()));
    assert_eq!(
        emit_record(&rec("say \"hi\"\t\\", Input::Auto), &p),
        Ok(r#"{"line":"say \"hi\"\t\\"}"#.to_string())
    );
    assert_eq!(emit_record(&rec("", Input::Text), &p), Ok("{\"line\":\"\"}".to_string()));
    assert_eq!(
        emit_record(&rec("{\"a\":1}", Input::Text), &p),
        Ok("{\"line\":\"{\\\"a\\\":1}\"}".to_string())
    );
}

#[test]
fn ndjson_output_projects_onto_the_selection() {
    let p = plan(Output::Ndjson, None, &["msg", "req.id", "missing", "req"]);
    let r = rec(r#"{"req":{"id":7,"path":"/x"},"msg":"hi","extra":true}"#, Input::Json);
    assert_eq!(
        emit_record(&r, &p),
        Ok(r#"{"msg":"hi","req_id":7,"missing":null,"req":{"id":7,"path":"/x"}}"#.to_string())
    );
}

#[test]
fn a_selection_on_a_plain_line_gives_nulls() {
    let p = plan(Output::Ndjson, None, &["a", "b.c"]);
    assert_eq!(
        emit_record(&rec("plain", Input::Text), &p),
        Ok("{\"a\":null,\"b_c\":null}".to_string())
    );
}

#[test]
fn select_fields_keeps_the_listed_order() {
    let r = rec(r#"{"a":1,"b":2,"c":3}"#, Input::Json);
    let fields: Vec<String> = ["c", "a", "b"].iter().map(|s| s.to_string()).collect();
    assert_eq!(
        select_fields(&r, &fields),
        Json::Object(vec![mem("c", num("3")), mem("a", num("1")), mem("b", num("2"))])
    );
    assert_eq!(select_fields(&r, &Vec::new()), Json::Object(vec![]));
}

#[test]
fn select_fields_keeps_one_member_per_key() {
    let r = rec(r#"{"a":{"b":1},"a_b":2}"#, Input::Json);
    let fields: Vec<String> = ["a.b", "x", "a_b"].iter().map(|s| s.to_string()).collect();
    assert_eq!(
        select_fields(&r, &fields),
        Json::Object(vec![mem("a_b", num("2")), mem("x", Json::Null)])
    );
}

#[test]
fn selected_keys_are_quoted_like_any_string() {
    let p = plan(Output::Ndjson, None, &["we\"ird.key"]);
    assert_eq!(
        emit_record(&rec(r#"{"we\"ird":{"key":1}}"#, Input::Json), &p),
        Ok(r#"{"we\"ird_key":1}"#.to_string())
    );
}

#[test]
fn put_member_replaces_in_place_or_appends() {
    let mut members = vec![mem("a", num("1")), mem("b", num("2"))];
    put_member(&mut members, "a".to_string(), num("9"));
    assert_eq!(members, vec![mem("a", num("9")), mem("b", num("2"))]);
    put_member(&mut members, "c".to_string(), Json::Null);
    assert_eq!(members, vec![mem("a", num("9")), mem("b", num("2")), mem("c", Json::Null)]);
    let mut empty: Vec<Member> = Vec::new();
    put_member(&mut empty, "k".to_string(), Json::Bool(true));
    assert_eq!(empty, vec![mem("k", Json::Bool(true))]);
}
