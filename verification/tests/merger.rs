use logmix::merger::{merge, MergeState};
use logmix::record::Record;

fn record_with_ts(ts: i64, raw: &str, source: &str) -> Record {
    let mut r = Record::new(raw, source);
    r.ts = Some(ts);
    r
}

fn raws(records: &[Record]) -> Vec<&str> {
    records.iter().map(|r| r.raw.as_str()).collect()
}

#[test]
fn two_sources_interleave_by_timestamp() {
    let a = vec![record_with_ts(2, "b", "a"), record_with_ts(5, "e", "a")];
    let b = vec![
        record_with_ts(1, "a", "b"),
        record_with_ts(3, "c", "b"),
        record_with_ts(4, "d", "b"),
    ];
    let merged = merge(vec![a, b]);
    assert_eq!(raws(&merged), vec!["a", "b", "c", "d", "e"]);
}

#[test]
fn missing_ts_fallback_fifo() {
    let a = vec![Record::new("first", "a"), Record::new("second", "a")];
    let b = vec![Record::new("third", "b")];
    let merged = merge(vec![a, b]);
    assert_eq!(raws(&merged), vec!["first", "second", "third"]);
}

#[test]
fn tie_break_stable_by_source_order() {
    let a = vec![record_with_ts(1, "from-a", "a")];
    let b = vec![record_with_ts(1, "from-b", "b")];
    let merged = merge(vec![a, b]);
    assert_eq!(merged.len(), 2);
    assert_eq!(merged[0].raw, "from-a");
    assert_eq!(merged[1].raw, "from-b");
}

#[test]
fn merge_of_no_sources_is_empty() {
    let merged = merge(Vec::new());
    assert!(merged.is_empty());
    let merged = merge(vec![Vec::new(), Vec::new()]);
    assert!(merged.is_empty());
}

#[test]
fn records_with_timestamp_come_before_those_without() {
    let a = vec![Record::new("no-ts", "a")];
    let b = vec![record_with_ts(100, "late", "b")];
    let merged = merge(vec![a, b]);
    assert_eq!(raws(&merged), vec!["late", "no-ts"]);
}

#[test]
fn head_without_timestamp_holds_back_its_stream() {
    // The merge compares heads only: a record without a timestamp at the
    // head of a stream waits until the other streams run out of timestamps.
    let a = vec![Record::new("a-none", "a"), record_with_ts(1, "a-1", "a")];
    let b = vec![record_with_ts(5, "b-5", "b"), record_with_ts(7, "b-7", "b")];
    let merged = merge(vec![a, b]);
    assert_eq!(raws(&merged), vec!["b-5", "b-7", "a-none", "a-1"]);
}

#[test]
fn merge_keeps_stream_order_and_all_records() {
    let a = vec![
        record_with_ts(3, "a3", "a"),
        record_with_ts(1, "a1", "a"),
        record_with_ts(2, "a2", "a"),
    ];
    let b = vec![record_with_ts(2, "b2", "b"), Record::new("bn", "b")];
    let c = vec![record_with_ts(-4, "c-4", "c")];
    let merged = merge(vec![a, b, c]);
    assert_eq!(raws(&merged), vec!["c-4", "b2", "a3", "a1", "a2", "bn"]);
    let from_a: Vec<&str> = merged
        .iter()
        .filter(|r| r.source == "a")
        .map(|r| r.raw.as_str())
        .collect();
    assert_eq!(from_a, vec!["a3", "a1", "a2"]);
}

#[test]
fn sorted_streams_merge_sorted_with_ties_in_stream_order() {
    let a = vec![record_with_ts(1, "a1", "a"), record_with_ts(4, "a4", "a"), record_with_ts(4, "a4b", "a")];
    let b = vec![record_with_ts(1, "b1", "b"), record_with_ts(4, "b4", "b"), Record::new("bn", "b")];
    let c = vec![record_with_ts(2, "c2", "c"), Record::new("cn", "c")];
    let merged = merge(vec![a, b, c]);
    assert_eq!(raws(&merged), vec!["a1", "b1", "c2", "a4", "a4b", "b4", "bn", "cn"]);
    let ts: Vec<Option<i64>> = merged.iter().map(|r| r.ts).collect();
    let keyed: Vec<(bool, i64)> = ts.iter().map(|t| (t.is_none(), t.unwrap_or(0))).collect();
    let mut sorted = keyed.clone();
    sorted.sort();
    assert_eq!(keyed, sorted);
}

#[test]
fn merge_state_hands_out_heads_in_timestamp_order() {
    let mut state = MergeState::new(3);
    assert!(state.take_next().is_none());
    state.offer(0, record_with_ts(5, "a5", "a"));
    state.offer(1, Record::new("b-none", "b"));
    state.offer(2, record_with_ts(2, "c2", "c"));
    let (i, r) = state.take_next().unwrap();
    assert_eq!((i, r.raw.as_str()), (2, "c2"));
    state.offer(2, record_with_ts(5, "c5", "c"));
    let (i, r) = state.take_next().unwrap();
    assert_eq!((i, r.raw.as_str()), (0, "a5"));
    let (i, r) = state.take_next().unwrap();
    assert_eq!((i, r.raw.as_str()), (2, "c5"));
    let (i, r) = state.take_next().unwrap();
    assert_eq!((i, r.raw.as_str()), (1, "b-none"));
    assert!(state.take_next().is_none());
}

#[test]
fn sorted_streams_merge_as_the_stable_sort_of_their_concatenation() {
    let spec: Vec<Vec<(Option<i64>, &str)>> = vec![
        vec![(Some(1), "a1"), (Some(4), "a4"), (Some(4), "a4b"), (None, "an")],
        vec![(Some(0), "b0"), (Some(4), "b4"), (Some(9), "b9")],
        vec![(Some(4), "c4"), (None, "cn"), (None, "cn2")],
    ];
    let build = || -> Vec<Vec<Record>> {
        spec.iter()
            .enumerate()
            .map(|(i, s)| {
                s.iter()
                    .map(|(ts, raw)| {
                        let mut r = Record::new(raw, &i.to_string());
                        r.ts = *ts;
                        r
                    })
                    .collect()
            })
            .collect()
    };
    let mut all: Vec<(usize, Option<i64>, &str)> = Vec::new();
    for (i, s) in spec.iter().enumerate() {
        for (ts, raw) in s {
            all.push((i, *ts, raw));
        }
    }
    all.sort_by_key(|(i, ts, _)| (ts.is_none(), *ts, *i));
    let expected: Vec<&str> = all.iter().map(|(_, _, raw)| *raw).collect();
    let merged = merge(build());
    assert_eq!(raws(&merged), expected);
    assert_eq!(raws(&merged), vec!["b0", "a1", "a4", "a4b", "b4", "c4", "b9", "an", "cn", "cn2"]);
}
