//! Reading log lines: JSON objects, logfmt `key=value` pairs, or plain text.
use vstd::prelude::*;

use crate::json::{
    json_object, json_record, parse_json_object, record_from_json_object, JsonFieldView,
};
use crate::record::{Fields, Record, RecordView};
use crate::text::{chars_of, parse_i64, parse_i64_str, string_of, trim, trim_bounds};

verus! {

/// The first position at or after `i` that holds `c`, or `s.len()` when there is none.
pub open spec fn find_from(s: Seq<char>, i: int, c: char) -> int
    decreases s.len() - i,
{
    if i < 0 || i >= s.len() {
        s.len() as int
    } else if s[i] == c {
        i
    } else {
        find_from(s, i + 1, c)
    }
}

/// The first position at or after `i` that does not hold a space.
pub open spec fn skip_spaces(s: Seq<char>, i: int) -> int
    decreases s.len() - i,
{
    if 0 <= i < s.len() && s[i] == ' ' {
        skip_spaces(s, i + 1)
    } else {
        i
    }
}

pub proof fn lemma_find_from(s: Seq<char>, i: int, c: char)
    requires
        0 <= i <= s.len(),
    ensures
        i <= find_from(s, i, c) <= s.len(),
        find_from(s, i, c) < s.len() ==> s[find_from(s, i, c)] == c,
        forall|j: int| i <= j < find_from(s, i, c) ==> s[j] != c,
    decreases s.len() - i,
{
    if i < s.len() && s[i] != c {
        lemma_find_from(s, i + 1, c);
    }
}

pub proof fn lemma_skip_spaces(s: Seq<char>, i: int)
    requires
        0 <= i <= s.len(),
    ensures
        i <= skip_spaces(s, i) <= s.len(),
        skip_spaces(s, i) < s.len() ==> s[skip_spaces(s, i)] != ' ',
    decreases s.len() - i,
{
    if i < s.len() && s[i] == ' ' {
        lemma_skip_spaces(s, i + 1);
    }
}

/// The `key=value` pairs of `s` from position `i` on, in order: pairs are
/// parted by spaces, a value runs to the next space, or is written between
/// double quotes; `None` when a key lacks its `=` or a quote is not closed.
pub open spec fn logfmt_pairs_from(s: Seq<char>, i: int) -> Option<Seq<(Seq<char>, Seq<char>)>>
    decreases s.len() - i,
{
    if i < 0 || i > s.len() {
        None
    } else {
        let k = skip_spaces(s, i);
        proof {
            lemma_skip_spaces(s, i);
        }
        if k >= s.len() {
            Some(Seq::empty())
        } else {
            let eq = find_from(s, k, '=');
            proof {
                lemma_find_from(s, k, '=');
            }
            if eq >= s.len() {
                None
            } else {
                let key = s.subrange(k, eq);
                let v = eq + 1;
                if v < s.len() && s[v] == '"' {
                    let close = find_from(s, v + 1, '"');
                    proof {
                        lemma_find_from(s, v + 1, '"');
                    }
                    if close >= s.len() {
                        None
                    } else {
                        match logfmt_pairs_from(s, close + 1) {
                            Some(rest) => Some(seq![(key, s.subrange(v + 1, close))] + rest),
                            None => None,
                        }
                    }
                } else {
                    let end = find_from(s, v, ' ');
                    proof {
                        lemma_find_from(s, v, ' ');
                    }
                    match logfmt_pairs_from(s, end) {
                        Some(rest) => Some(seq![(key, s.subrange(v, end))] + rest),
                        None => None,
                    }
                }
            }
        }
    }
}

/// The pairs of a logfmt line: `None` for a line of white space only or a malformed one.
pub open spec fn logfmt_pairs(line: Seq<char>) -> Option<Seq<(Seq<char>, Seq<char>)>> {
    let t = trim(line);
    if t.len() == 0 {
        None
    } else {
        logfmt_pairs_from(t, 0)
    }
}

/// The map that a sequence of pairs gives when they are inserted in order:
/// a later pair replaces an earlier one with the same key.
pub open spec fn pairs_map(ps: Seq<(Seq<char>, Seq<char>)>) -> Map<Seq<char>, Seq<char>>
    decreases ps.len(),
{
    if ps.len() == 0 {
        Map::empty()
    } else {
        pairs_map(ps.drop_last()).insert(ps.last().0, ps.last().1)
    }
}

/// The field names that may carry a timestamp, in the order they are tried.
pub open spec fn ts_keys() -> Seq<Seq<char>> {
    seq![
        seq!['t', 's'],
        seq!['t', 'i', 'm', 'e'],
        seq!['@', 't', 'i', 'm', 'e', 's', 't', 'a', 'm', 'p'],
    ]
}

/// The timestamp of the first of `keys[i..]` whose field holds an integer.
pub open spec fn field_ts_from(fields: Map<Seq<char>, Seq<char>>, keys: Seq<Seq<char>>, i: int) -> Option<
    i64,
>
    decreases keys.len() - i,
{
    if i < 0 || i >= keys.len() {
        None
    } else if fields.contains_key(keys[i]) && parse_i64(fields[keys[i]]) is Some {
        parse_i64(fields[keys[i]])
    } else {
        field_ts_from(fields, keys, i + 1)
    }
}

/// The timestamp that the fields carry: the first of `ts`, `time`,
/// `@timestamp` whose value reads as an integer.
pub open spec fn field_ts(fields: Map<Seq<char>, Seq<char>>) -> Option<i64> {
    field_ts_from(fields, ts_keys(), 0)
}

/// The record of a logfmt line, if it is one.
pub open spec fn logfmt_record(line: Seq<char>, source: Seq<char>) -> Option<RecordView> {
    match logfmt_pairs(line) {
        Some(ps) => {
            let fields = pairs_map(ps);
            if fields == Map::<Seq<char>, Seq<char>>::empty() {
                None
            } else {
                Some(RecordView { ts: field_ts(fields), raw: line, fields, source })
            }
        },
        None => None,
    }
}

/// The record of a plain text line.
pub open spec fn plain_record(line: Seq<char>, source: Seq<char>) -> RecordView {
    RecordView { ts: None, raw: line, fields: Map::empty(), source }
}

/// The record of a JSON line, if the line is a JSON object.
pub open spec fn jsonl_record(line: Seq<char>, source: Seq<char>) -> Option<RecordView> {
    match json_object(line) {
        Some(fs) => Some(json_record(line, source, fs)),
        None => None,
    }
}

/// The record of a line: as JSON if it is a JSON object, else as logfmt if
/// it reads as such, else as plain text.
pub open spec fn sniffed_record(line: Seq<char>, source: Seq<char>) -> RecordView {
    match jsonl_record(line, source) {
        Some(r) => r,
        None => match logfmt_record(line, source) {
            Some(r) => r,
            None => plain_record(line, source),
        },
    }
}

/// Law: whichever way a line is read, its record keeps the line as it was
/// read and the name of its source.
pub proof fn law_record_keeps_line_and_source(line: Seq<char>, source: Seq<char>)
    ensures
        sniffed_record(line, source).raw == line,
        sniffed_record(line, source).source == source,
{
}

/// The field `key` holds a text that reads as the integer `n`.
pub open spec fn field_holds_integer(fields: Map<Seq<char>, Seq<char>>, key: Seq<char>, n: i64) -> bool {
    fields.contains_key(key) && parse_i64(fields[key]) == Some(n)
}

/// The field `key` is missing or holds a text that reads as no integer.
pub open spec fn field_holds_no_integer(fields: Map<Seq<char>, Seq<char>>, key: Seq<char>) -> bool {
    !fields.contains_key(key) || parse_i64(fields[key]) is None
}

/// Law: a logfmt record's timestamp comes from its fields `ts`, `time`,
/// `@timestamp`, tried in that order: the first of them that reads as an
/// integer gives it, whatever the later ones hold; with none, there is no
/// timestamp.
pub proof fn law_logfmt_timestamp_field_order(line: Seq<char>, source: Seq<char>, n: i64)
    ensures
        logfmt_record(line, source) matches Some(r) ==> {
            let f = r.fields;
            let k_ts = seq!['t', 's'];
            let k_time = seq!['t', 'i', 'm', 'e'];
            let k_at = seq!['@', 't', 'i', 'm', 'e', 's', 't', 'a', 'm', 'p'];
            &&& field_holds_integer(f, k_ts, n) ==> r.ts == Some(n)
            &&& field_holds_no_integer(f, k_ts) && field_holds_integer(f, k_time, n) ==> r.ts
                == Some(n)
            &&& field_holds_no_integer(f, k_ts) && field_holds_no_integer(f, k_time)
                && field_holds_integer(f, k_at, n) ==> r.ts == Some(n)
            &&& field_holds_no_integer(f, k_ts) && field_holds_no_integer(f, k_time)
                && field_holds_no_integer(f, k_at) ==> r.ts is None
        },
{
    let k_ts = seq!['t', 's'];
    let k_time = seq!['t', 'i', 'm', 'e'];
    let k_at = seq!['@', 't', 'i', 'm', 'e', 's', 't', 'a', 'm', 'p'];
    assert(ts_keys()[0] == k_ts && ts_keys()[1] == k_time && ts_keys()[2] == k_at);
    reveal_with_fuel(field_ts_from, 4);
}

/// Law: a line that is a JSON object is read as JSON, whether or not it
/// would also read as logfmt; a line that is not is read as logfmt where it
/// reads as such, and otherwise as plain text: the line itself, with no
/// timestamp and no fields.
pub proof fn law_sniff_prefers_json_then_logfmt(line: Seq<char>, source: Seq<char>)
    ensures
        json_object(line) matches Some(fs) ==> sniffed_record(line, source) == json_record(
            line,
            source,
            fs,
        ),
        json_object(line) is None ==> (logfmt_record(line, source) matches Some(r)
            ==> sniffed_record(line, source) == r),
        json_object(line) is None && logfmt_record(line, source) is None ==> sniffed_record(
            line,
            source,
        ) == (RecordView {
            ts: None,
            raw: line,
            fields: Map::<Seq<char>, Seq<char>>::empty(),
            source,
        }),
{
}

/// The first position at or after `i` in `t` that holds `c`.
pub(crate) fn find_from_exec(t: &Vec<char>, i: usize, c: char) -> (r: usize)
    requires
        i <= t.len(),
    ensures
        r == find_from(t@, i as int, c),
{
    let mut j = i;
    while j < t.len() && t[j] != c
        invariant
            i <= j <= t.len(),
            find_from(t@, i as int, c) == find_from(t@, j as int, c),
        decreases t.len() - j,
    {
        j += 1;
    }
    j
}

/// The key/value pairs of a logfmt line, inserted in order.
fn parse_logfmt_pairs(line: &str) -> (r: Option<Fields>)
    ensures
        match r {
            Some(f) => logfmt_pairs(line@) matches Some(ps) && f@ == pairs_map(ps),
            None => logfmt_pairs(line@) is None,
        },
{
    let chars = chars_of(line);
    let (lo, hi) = trim_bounds(&chars);
    if lo == hi {
        return None;
    }
    let t = crate::text::sub_chars(&chars, lo, hi);
    let ghost s = t@;
    assert(s == trim(line@));
    let mut fields = Fields::new();
    let ghost mut done: Seq<(Seq<char>, Seq<char>)> = Seq::empty();
    let mut i: usize = 0;
    let n = t.len();
    while i < n
        invariant
            n == t.len(),
            s == t@,
            s == trim(line@),
            s.len() > 0,
            i <= n,
            fields@ == pairs_map(done),
            logfmt_pairs_from(s, 0) == (match logfmt_pairs_from(s, i as int) {
                Some(rest) => Some(done + rest),
                None => None,
            }),
        ensures
            i == n,
            fields@ == pairs_map(done),
            logfmt_pairs_from(s, 0) == (match logfmt_pairs_from(s, i as int) {
                Some(rest) => Some(done + rest),
                None => None,
            }),
        decreases n - i,
    {
        let ghost start = i;
        proof {
            lemma_skip_spaces(s, i as int);
        }
        while i < n && t[i] == ' '
            invariant
                n == t.len(),
                s == t@,
                start <= i <= n,
                skip_spaces(s, start as int) == skip_spaces(s, i as int),
            decreases n - i,
        {
            i += 1;
        }
        if i >= n {
            assert(logfmt_pairs_from(s, start as int) == Some(Seq::<(Seq<char>, Seq<char>)>::empty()));
            assert(done + Seq::<(Seq<char>, Seq<char>)>::empty() =~= done);
            break;
        }
        let key_start = i;
        let eq = find_from_exec(&t, i, '=');
        proof {
            lemma_find_from(s, i as int, '=');
        }
        if eq >= n {
            return None;
        }
        let key = string_of(&t, key_start, eq);
        let v = eq + 1;
        let value;
        if v < n && t[v] == '"' {
            let close = find_from_exec(&t, v + 1, '"');
            proof {
                lemma_find_from(s, v + 1, '"');
            }
            if close >= n {
                return None;
            }
            value = string_of(&t, v + 1, close);
            i = close + 1;
        } else {
            let end = find_from_exec(&t, v, ' ');
            proof {
                lemma_find_from(s, v as int, ' ');
            }
            value = string_of(&t, v, end);
            i = end;
        }
        let ghost pair = (key@, value@);
        fields.insert(key, value);
        proof {
            assert((done.push(pair)).drop_last() =~= done);
            match logfmt_pairs_from(s, i as int) {
                Some(rest) => {
                    assert(done + (seq![pair] + rest) =~= done.push(pair) + rest);
                },
                None => {},
            }
            done = done.push(pair);
        }
    }
    proof {
        if i >= n {
            assert(logfmt_pairs_from(s, i as int) == Some(Seq::<(Seq<char>, Seq<char>)>::empty()));
            assert(done + Seq::<(Seq<char>, Seq<char>)>::empty() =~= done);
        }
        assert(i == n);
        assert(logfmt_pairs_from(s, 0) == Some(done));
        assert(logfmt_pairs(line@) == Some(done));
    }
    Some(fields)
}

/// The integer that the field `key` holds, if it holds one.
fn field_i64(fields: &Fields, key: &str) -> (r: Option<i64>)
    ensures
        r == (if fields@.contains_key(key@) {
            parse_i64(fields@[key@])
        } else {
            None
        }),
{
    match fields.get(key) {
        Some(value) => parse_i64_str(value.as_str()),
        None => None,
    }
}

/// The timestamp of the first of `ts`, `time`, `@timestamp` whose field
/// holds an integer.
pub fn ts_from_fields(fields: &Fields) -> (r: Option<i64>)
    ensures
        r == field_ts(fields@),
{
    proof {
        reveal_strlit("ts");
        reveal_strlit("time");
        reveal_strlit("@timestamp");
        assert("ts"@ =~= ts_keys()[0]);
        assert("time"@ =~= ts_keys()[1]);
        assert("@timestamp"@ =~= ts_keys()[2]);
        reveal_with_fuel(field_ts_from, 4);
    }
    if let Some(ts) = field_i64(fields, "ts") {
        return Some(ts);
    }
    if let Some(ts) = field_i64(fields, "time") {
        return Some(ts);
    }
    field_i64(fields, "@timestamp")
}

/// Reads a logfmt line (`key=value key="quoted value" ...`): `None` when
/// the line is blank, malformed, or holds no pair.
pub fn parse_logfmt(line: &str, source: &str) -> (r: Option<Record>)
    ensures
        match r {
            Some(rec) => logfmt_record(line@, source@) == Some(rec@),
            None => logfmt_record(line@, source@) is None,
        },
{
    let fields = match parse_logfmt_pairs(line) {
        Some(f) => f,
        None => {
            return None;
        },
    };
    if fields.is_empty() {
        return None;
    }
    let ts = ts_from_fields(&fields);
    Some(
        Record {
            ts,
            raw: String::from_str(line),
            fields,
            source: String::from_str(source),
        },
    )
}

/// Takes a line as plain text: no timestamp, no fields.
pub fn parse_plain(line: &str, source: &str) -> (r: Record)
    ensures
        r@ == plain_record(line@, source@),
{
    Record::new(line, source)
}

/// Reads a line that holds a JSON object: its scalar members (and those of
/// its object members, one level down, under `outer.inner` names) become
/// fields; the timestamp is the first of `ts`, `time`, `@timestamp` that
/// holds an integer.
pub fn parse_jsonl(line: &str, source: &str) -> (r: Option<Record>)
    ensures
        match r {
            Some(rec) => jsonl_record(line@, source@) == Some(rec@),
            None => jsonl_record(line@, source@) is None,
        },
{
    match parse_json_object(line) {
        Some(members) => Some(record_from_json_object(line, source, &members)),
        None => None,
    }
}

/// Reads a line as JSON if it is a JSON object, else as logfmt if it reads
/// as such, else as plain text.
pub fn sniff_and_parse(line: &str, source: &str) -> (r: Record)
    ensures
        r@ == sniffed_record(line@, source@),
{
    if let Some(record) = parse_jsonl(line, source) {
        return record;
    }
    if let Some(record) = parse_logfmt(line, source) {
        return record;
    }
    parse_plain(line, source)
}

/// The record of one line of a stream: none for an empty line, else the
/// line read as `sniff_and_parse` reads it.
pub fn record_of_line(line: &str, source: &str) -> (r: Option<Record>)
    ensures
        match r {
            Some(rec) => line@.len() > 0 && rec@ == sniffed_record(line@, source@),
            None => line@.len() == 0,
        },
{
    if line.unicode_len() == 0 {
        None
    } else {
        Some(sniff_and_parse(line, source))
    }
}

} // verus!
