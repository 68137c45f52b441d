use logmix::parser::{parse_jsonl, parse_logfmt, parse_plain, sniff_and_parse, ts_from_fields};
use logmix::record::Fields;

#[test]
fn parse_jsonl_extracts_fields_and_ts() {
    let r = parse_jsonl(r#"{"msg":"hi","ts":123}"#, "app.log").unwrap();
    assert_eq!(r.raw, r#"{"msg":"hi","ts":123}"#);
    assert_eq!(r.source, "app.log");
    assert_eq!(r.ts, Some(123));
    assert_eq!(r.fields.get("msg").map(String::as_str), Some("hi"));
}

#[test]
fn parse_jsonl_ts_from_time_and_timestamp_aliases() {
    let time = parse_jsonl(r#"{"time":"456"}"#, "s").unwrap();
    assert_eq!(time.ts, Some(456));
    let at = parse_jsonl(r#"{"@timestamp":789}"#, "s").unwrap();
    assert_eq!(at.ts, Some(789));
}

#[test]
fn parse_jsonl_flattens_one_level() {
    let r = parse_jsonl(r#"{"user":{"id":"42","name":"ada"}}"#, "s").unwrap();
    assert_eq!(r.fields.get("user.id").map(String::as_str), Some("42"));
    assert_eq!(r.fields.get("user.name").map(String::as_str), Some("ada"));
}

#[test]
fn parse_jsonl_invalid_returns_none() {
    assert!(parse_jsonl("not-json", "s").is_none());
    assert!(parse_jsonl("[1,2,3]", "s").is_none());
}

#[test]
fn parse_logfmt_extracts_pairs_and_ts() {
    let r = parse_logfmt("level=info msg=hello ts=999", "svc").unwrap();
    assert_eq!(r.raw, "level=info msg=hello ts=999");
    assert_eq!(r.source, "svc");
    assert_eq!(r.ts, Some(999));
    assert_eq!(r.fields.get("level").map(String::as_str), Some("info"));
    assert_eq!(r.fields.get("msg").map(String::as_str), Some("hello"));
}

#[test]
fn parse_logfmt_handles_quoted_values() {
    let r = parse_logfmt(r#"msg="hello world" level=warn"#, "s").unwrap();
    assert_eq!(r.fields.get("msg").map(String::as_str), Some("hello world"));
    assert_eq!(r.fields.get("level").map(String::as_str), Some("warn"));
}

#[test]
fn parse_logfmt_empty_or_invalid_returns_none() {
    assert!(parse_logfmt("", "s").is_none());
    assert!(parse_logfmt("   ", "s").is_none());
    assert!(parse_logfmt("noequals", "s").is_none());
}

#[test]
fn parse_plain_sets_raw_and_empty_fields() {
    let r = parse_plain("plain text line", "stdin");
    assert_eq!(r.raw, "plain text line");
    assert_eq!(r.source, "stdin");
    assert!(r.ts.is_none());
    assert!(r.fields.is_empty());
}

#[test]
fn sniff_and_parse_uses_json_when_valid() {
    let r = sniff_and_parse(r#"{"msg":"json","ts":1}"#, "s");
    assert_eq!(r.ts, Some(1));
    assert_eq!(r.fields.get("msg").map(String::as_str), Some("json"));
}

#[test]
fn sniff_and_parse_falls_back_to_logfmt() {
    let r = sniff_and_parse("level=error ts=2", "s");
    assert_eq!(r.ts, Some(2));
    assert_eq!(r.fields.get("level").map(String::as_str), Some("error"));
}

#[test]
fn sniff_and_parse_falls_back_to_plain() {
    let r = sniff_and_parse("just some text", "s");
    assert_eq!(r.raw, "just some text");
    assert!(r.fields.is_empty());
    assert!(r.ts.is_none());
}

#[test]
fn logfmt_edge_cases() {
    // A later pair replaces an earlier one with the same key.
    let r = parse_logfmt("a=1 a=2", "s").unwrap();
    assert_eq!(r.fields.get("a").map(String::as_str), Some("2"));
    // Empty keys and empty values are kept; runs of spaces part pairs.
    let r = parse_logfmt("=v   k=   q=\"\"", "s").unwrap();
    assert_eq!(r.fields.get("").map(String::as_str), Some("v"));
    assert_eq!(r.fields.get("k").map(String::as_str), Some(""));
    assert_eq!(r.fields.get("q").map(String::as_str), Some(""));
    // A quoted value may be followed directly by the next key.
    let r = parse_logfmt("m=\"x y\"n=z", "s").unwrap();
    assert_eq!(r.fields.get("m").map(String::as_str), Some("x y"));
    assert_eq!(r.fields.get("n").map(String::as_str), Some("z"));
    // An unclosed quote, or a trailing word without `=`, spoils the line.
    assert!(parse_logfmt("m=\"open", "s").is_none());
    assert!(parse_logfmt("a=1 tail", "s").is_none());
    // White space around the line is trimmed; tabs inside are not separators.
    let r = parse_logfmt("\t a=1\tb=2 \u{3000}", "s").unwrap();
    assert_eq!(r.fields.get("a").map(String::as_str), Some("1\tb=2"));
    assert_eq!(r.raw, "\t a=1\tb=2 \u{3000}");
}

#[test]
fn logfmt_ts_falls_through_the_aliases() {
    let r = parse_logfmt("ts=soon time=+17 @timestamp=3", "s").unwrap();
    assert_eq!(r.ts, Some(17));
    let r = parse_logfmt("ts=x time=y", "s").unwrap();
    assert_eq!(r.ts, None);
    let r = parse_logfmt("@timestamp=-5", "s").unwrap();
    assert_eq!(r.ts, Some(-5));
    let r = parse_logfmt("ts=9223372036854775808", "s").unwrap();
    assert_eq!(r.ts, None);
    let r = parse_logfmt("ts=-9223372036854775808", "s").unwrap();
    assert_eq!(r.ts, Some(i64::MIN));
}

#[test]
fn ts_from_fields_reads_first_integer_alias() {
    let mut f = Fields::new();
    assert_eq!(ts_from_fields(&f), None);
    f.insert("@timestamp".to_string(), "00042".to_string());
    assert_eq!(ts_from_fields(&f), Some(42));
    f.insert("ts".to_string(), "-".to_string());
    assert_eq!(ts_from_fields(&f), Some(42));
    f.insert("time".to_string(), "7".to_string());
    assert_eq!(ts_from_fields(&f), Some(7));
}

#[test]
fn jsonl_values_become_field_text() {
    let r = parse_jsonl(
        r#"{"b":true,"f":false,"n":null,"x":1.5,"i":-3,"a":[1],"s":"t","o":{"z":null,"w":[2],"k":{"d":1},"e":2}}"#,
        "s",
    )
    .unwrap();
    assert_eq!(r.fields.get("b").map(String::as_str), Some("true"));
    assert_eq!(r.fields.get("f").map(String::as_str), Some("false"));
    assert_eq!(r.fields.get("n"), None);
    assert_eq!(r.fields.get("x").map(String::as_str), Some("1.5"));
    assert_eq!(r.fields.get("i").map(String::as_str), Some("-3"));
    assert_eq!(r.fields.get("a"), None);
    assert_eq!(r.fields.get("s").map(String::as_str), Some("t"));
    assert_eq!(r.fields.get("o"), None);
    assert_eq!(r.fields.get("o.z"), None);
    assert_eq!(r.fields.get("o.w"), None);
    assert_eq!(r.fields.get("o.k"), None);
    assert_eq!(r.fields.get("o.e").map(String::as_str), Some("2"));
    assert_eq!(r.ts, None);
}

#[test]
fn jsonl_timestamp_rules() {
    // A float is no timestamp; the next alias is tried.
    let r = parse_jsonl(r#"{"ts":1.5,"time":5}"#, "s").unwrap();
    assert_eq!(r.ts, Some(5));
    // An integer above i64::MAX wraps around.
    let r = parse_jsonl(r#"{"ts":18446744073709551615}"#, "s").unwrap();
    assert_eq!(r.ts, Some(-1));
    // A string must read as an i64.
    let r = parse_jsonl(r#"{"ts":" 5","time":"-6"}"#, "s").unwrap();
    assert_eq!(r.ts, Some(-6));
    // Other kinds give no timestamp.
    let r = parse_jsonl(r#"{"ts":true,"time":null,"@timestamp":[1]}"#, "s").unwrap();
    assert_eq!(r.ts, None);
    // The top-level value must be an object.
    assert!(parse_jsonl("42", "s").is_none());
    assert!(parse_jsonl(r#""text""#, "s").is_none());
    assert!(parse_jsonl(r#"{"a":1} trailing"#, "s").is_none());
    let r = parse_jsonl("{}", "s").unwrap();
    assert!(r.fields.is_empty());
    assert_eq!(r.ts, None);
}

#[test]
fn sniff_prefers_json_over_logfmt() {
    // `{}` is a JSON object, so it is read as JSON even with no fields.
    let r = sniff_and_parse("{}", "s");
    assert!(r.fields.is_empty());
    assert_eq!(r.raw, "{}");
    // A JSON array is not an object; it is not logfmt either.
    let r = sniff_and_parse("[1,2]", "s");
    assert!(r.fields.is_empty());
    assert_eq!(r.source, "s");
}

#[test]
fn every_reading_keeps_line_and_source() {
    for line in ["{\"a\":1}", "a=1 b=\"x y\"", "plain words", "", "   "] {
        let r = sniff_and_parse(line, "src.log");
        assert_eq!(r.raw, line);
        assert_eq!(r.source, "src.log");
    }
}

#[test]
fn logfmt_fields_list_in_name_order() {
    let r = parse_logfmt("b=1 a=2", "s").unwrap();
    let e: Vec<(&str, &str)> = r.fields.entries().iter().map(|(k, v)| (k.as_str(), v.as_str())).collect();
    assert_eq!(e, vec![("a", "2"), ("b", "1")]);
}

#[test]
fn empty_lines_give_no_record() {
    assert!(logmix::parser::record_of_line("", "s").is_none());
    let r = logmix::parser::record_of_line(" ", "s").unwrap();
    assert_eq!(r.raw, " ");
    assert!(r.ts.is_none());
    let r = logmix::parser::record_of_line("ts=7", "s").unwrap();
    assert_eq!(r.ts, Some(7));
}
