use logmix::output::{format_from_name, json_escape, render_record, write_record, Format};
use logmix::record::Record;
use std::io::Cursor;

fn format_record(format: Format, raw: &str, source: &str, ts: Option<i64>) -> String {
    let mut r = Record::new(raw, source);
    r.ts = ts;
    let mut buf = Cursor::new(Vec::new());
    write_record(&mut buf, &r, format).unwrap();
    String::from_utf8(buf.into_inner()).unwrap()
}

#[test]
fn passthrough_prefixes_source_and_raw() {
    let out = format_record(Format::Passthrough, "hello world", "app.log", None);
    assert_eq!(out, "[app.log] hello world\n");
}

#[test]
fn jsonl_emits_source_ts_raw_object() {
    let out = format_record(Format::Jsonl, "line", "src", Some(42));
    assert_eq!(
        out,
        r#"{"source":"src","ts":42,"raw":"line"}"#.to_string() + "\n"
    );
}

#[test]
fn jsonl_ts_null_when_missing() {
    let out = format_record(Format::Jsonl, "line", "src", None);
    assert_eq!(
        out,
        r#"{"source":"src","ts":null,"raw":"line"}"#.to_string() + "\n"
    );
}

#[test]
fn tagged_tab_separates_source_ts_raw() {
    let out = format_record(Format::Tagged, "line", "src", Some(99));
    assert_eq!(out, "src\t99\tline\n");
}

#[test]
fn tagged_empty_ts_when_missing() {
    let out = format_record(Format::Tagged, "line", "src", None);
    assert_eq!(out, "src\t\tline\n");
}

#[test]
fn jsonl_escapes_quotes_backslashes_and_controls() {
    let out = format_record(Format::Jsonl, "a\"b\\c\nd\re\tf\u{1}g\u{7f}h\u{9f}é", "s\"rc", Some(-7));
    assert_eq!(
        out,
        "{\"source\":\"s\\\"rc\",\"ts\":-7,\"raw\":\"a\\\"b\\\\c\\nd\\re\\tf\\u0001g\\u007fh\\u009fé\"}\n"
    );
    let line = out.trim_end();
    let value: serde_json::Value = serde_json::from_str(line).unwrap();
    assert_eq!(value["raw"], "a\"b\\c\nd\re\tf\u{1}g\u{7f}h\u{9f}é");
    assert_eq!(value["ts"], -7);
}

#[test]
fn extreme_timestamps_print_in_full() {
    assert_eq!(
        format_record(Format::Tagged, "x", "s", Some(i64::MIN)),
        "s\t-9223372036854775808\tx\n"
    );
    assert_eq!(
        format_record(Format::Jsonl, "x", "s", Some(i64::MAX)),
        "{\"source\":\"s\",\"ts\":9223372036854775807,\"raw\":\"x\"}\n"
    );
    assert_eq!(format_record(Format::Tagged, "x", "s", Some(0)), "s\t0\tx\n");
}

#[test]
fn render_record_matches_written_line() {
    let mut r = Record::new("payload", "svc");
    r.ts = Some(1_705_314_600_000_000_000);
    for format in [Format::Passthrough, Format::Jsonl, Format::Tagged] {
        let mut buf = Cursor::new(Vec::new());
        write_record(&mut buf, &r, format).unwrap();
        assert_eq!(String::from_utf8(buf.into_inner()).unwrap(), render_record(&r, format));
    }
}

#[test]
fn format_names_fall_back_to_passthrough() {
    assert!(matches!(format_from_name("jsonl"), Format::Jsonl));
    assert!(matches!(format_from_name("tagged"), Format::Tagged));
    assert!(matches!(format_from_name("passthrough"), Format::Passthrough));
    assert!(matches!(format_from_name("JSONL"), Format::Passthrough));
    assert!(matches!(format_from_name("csv"), Format::Passthrough));
    assert!(matches!(format_from_name(""), Format::Passthrough));
}

#[test]
fn jsonl_line_reads_back_as_the_record() {
    for (raw, source, ts) in [
        ("plain", "a.log", Some(-42)),
        ("q\"uote\\ back\tslash\n\u{1}\u{7f}\u{9f} é", "s\"rc\\", None),
        ("", "", Some(i64::MIN)),
    ] {
        let line = format_record(Format::Jsonl, raw, source, ts);
        assert!(line.ends_with('\n'));
        let body = &line[..line.len() - 1];
        assert!(!body.contains('\n'));
        let v: serde_json::Value = serde_json::from_str(body).unwrap();
        let obj = v.as_object().unwrap();
        let keys: Vec<&str> = obj.keys().map(|k| k.as_str()).collect();
        assert_eq!(keys.len(), 3);
        assert_eq!(obj["source"], source);
        assert_eq!(obj["raw"], raw);
        match ts {
            Some(t) => assert_eq!(obj["ts"].as_i64(), Some(t)),
            None => assert!(obj["ts"].is_null()),
        }
    }
}

#[test]
fn json_escape_escapes_quotes_backslashes_and_controls_only() {
    assert_eq!(json_escape("plain é ✓"), "plain é ✓");
    assert_eq!(json_escape("a\"b\\c"), "a\\\"b\\\\c");
    assert_eq!(json_escape("\n\r\t"), "\\n\\r\\t");
    assert_eq!(json_escape("\u{1}\u{1f}\u{7f}\u{9f}"), "\\u0001\\u001f\\u007f\\u009f");
    let s = "mixed \"q\" \\ \u{0} \u{85} end";
    let decoded: String = serde_json::from_str(&format!("\"{}\"", json_escape(s))).unwrap();
    assert_eq!(decoded, s);
}
