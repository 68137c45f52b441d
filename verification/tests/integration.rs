use logmix::merger::{merge, MergeState};
use logmix::output::{render_record, Format};
use logmix::parser::sniff_and_parse;
use logmix::record::Record;

/// The records of the non-empty lines of a file named `source`.
fn read(source: &str, text: &str) -> Vec<Record> {
    text.lines()
        .filter(|l| !l.is_empty())
        .map(|l| sniff_and_parse(l, source))
        .collect()
}

/// What the program prints for these files: each file's records, merged.
fn run(files: &[(&str, &str)], format: Format) -> String {
    let sources: Vec<Vec<Record>> = files.iter().map(|(name, text)| read(name, text)).collect();
    merge(sources)
        .iter()
        .map(|r| render_record(r, format))
        .collect()
}

const A_JSONL: &str = "{\"msg\":\"b\",\"ts\":2}\n{\"msg\":\"e\",\"ts\":5}\n";
const B_JSONL: &str = "{\"msg\":\"a\",\"ts\":1}\n{\"msg\":\"c\",\"ts\":3}\n\n{\"msg\":\"d\",\"ts\":4}\n";

#[test]
fn merge_two_jsonl_files_by_timestamp() {
    let text = run(&[("a.jsonl", A_JSONL), ("b.jsonl", B_JSONL)], Format::Passthrough);
    assert!(
        text.contains(r#"[b.jsonl] {"msg":"a","ts":1}"#)
            && text.contains(r#"[a.jsonl] {"msg":"b","ts":2}"#)
            && text.contains(r#"[b.jsonl] {"msg":"c","ts":3}"#)
            && text.contains(r#"[b.jsonl] {"msg":"d","ts":4}"#)
            && text.contains(r#"[a.jsonl] {"msg":"e","ts":5}"#)
    );
    assert_eq!(
        text,
        [
            "[b.jsonl] {\"msg\":\"a\",\"ts\":1}\n",
            "[a.jsonl] {\"msg\":\"b\",\"ts\":2}\n",
            "[b.jsonl] {\"msg\":\"c\",\"ts\":3}\n",
            "[b.jsonl] {\"msg\":\"d\",\"ts\":4}\n",
            "[a.jsonl] {\"msg\":\"e\",\"ts\":5}\n",
        ]
        .concat()
    );
}

#[test]
fn format_jsonl_each_line_is_valid_json() {
    let text = run(&[("a.jsonl", A_JSONL), ("b.jsonl", B_JSONL)], Format::Jsonl);
    assert_eq!(text.lines().count(), 5);
    for line in text.lines() {
        let value: serde_json::Value = serde_json::from_str(line).expect("valid JSON line");
        assert!(value.get("source").is_some());
        assert!(value.get("raw").is_some());
    }
    let first: serde_json::Value = serde_json::from_str(text.lines().next().unwrap()).unwrap();
    assert_eq!(first["source"], "b.jsonl");
    assert_eq!(first["ts"], 1);
    assert_eq!(first["raw"], "{\"msg\":\"a\",\"ts\":1}");
}

#[test]
fn jsonl_and_logfmt_sources_merge_with_tags() {
    let app = "{\"level\":\"info\",\"ts\":10}\nnot structured\n";
    let svc = "level=warn ts=5\nlevel=error time=20\n";
    let text = run(&[("app.jsonl", app), ("svc.logfmt", svc)], Format::Tagged);
    assert_eq!(
        text,
        [
            "svc.logfmt\t5\tlevel=warn ts=5\n",
            "app.jsonl\t10\t{\"level\":\"info\",\"ts\":10}\n",
            "svc.logfmt\t20\tlevel=error time=20\n",
            "app.jsonl\t\tnot structured\n",
        ]
        .concat()
    );
}

#[test]
fn streaming_state_gives_the_same_order_as_merge() {
    let files = [("a.jsonl", A_JSONL), ("b.jsonl", B_JSONL)];
    let expected = run(&files, Format::Passthrough);
    let mut sources: Vec<std::vec::IntoIter<Record>> = files
        .iter()
        .map(|(name, text)| read(name, text).into_iter())
        .collect();
    let mut state = MergeState::new(sources.len());
    for (i, s) in sources.iter_mut().enumerate() {
        if let Some(r) = s.next() {
            state.offer(i, r);
        }
    }
    let mut out = String::new();
    while let Some((i, r)) = state.take_next() {
        out.push_str(&render_record(&r, Format::Passthrough));
        if let Some(next) = sources[i].next() {
            state.offer(i, next);
        }
    }
    assert_eq!(out, expected);
}
