use logmix::record::{Fields, Record};

#[test]
fn record_new_sets_raw_and_source() {
    let r = Record::new("line content", "app.log");
    assert_eq!(r.raw, "line content");
    assert_eq!(r.source, "app.log");
}

#[test]
fn record_new_defaults_ts_to_none() {
    let r = Record::new("x", "src");
    assert!(r.ts.is_none());
}

#[test]
fn record_new_defaults_fields_to_empty() {
    let r = Record::new("x", "src");
    assert!(r.fields.is_empty());
}

#[test]
fn fields_insert_replaces_earlier_value() {
    let mut f = Fields::new();
    assert!(f.is_empty());
    f.insert("k".to_string(), "1".to_string());
    f.insert("j".to_string(), "2".to_string());
    f.insert("k".to_string(), "3".to_string());
    assert!(!f.is_empty());
    assert_eq!(f.get("k").map(String::as_str), Some("3"));
    assert_eq!(f.get("j").map(String::as_str), Some("2"));
    assert_eq!(f.get("x"), None);
}

#[test]
fn fields_entries_list_each_name_once() {
    let mut f = Fields::new();
    f.insert("b".to_string(), "1".to_string());
    f.insert("a".to_string(), "2".to_string());
    f.insert("b".to_string(), "3".to_string());
    let e: Vec<(&str, &str)> = f.entries().iter().map(|(k, v)| (k.as_str(), v.as_str())).collect();
    assert_eq!(e, vec![("a", "2"), ("b", "3")]);
}

#[test]
fn fields_entries_come_in_name_order() {
    let mut f = Fields::new();
    for k in ["b", "\u{e9}", "ab", "z", "a", "B"] {
        f.insert(k.to_string(), k.to_uppercase());
    }
    let names: Vec<&str> = f.entries().iter().map(|(k, _)| k.as_str()).collect();
    let mut sorted = names.clone();
    sorted.sort();
    assert_eq!(names, sorted);
    assert_eq!(names, vec!["B", "a", "ab", "b", "z", "\u{e9}"]);
}
