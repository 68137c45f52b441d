//! JSON objects as the JSON-lines reader sees them.
//!
//! `serde_json` reads the text; the reader keeps of the document what it
//! looks at: the members of the top-level object in the order `serde_json`
//! hands them out, each member's scalar value or kind, and, for a member that
//! is itself an object, that object's members in the same form.
use vstd::prelude::*;

use crate::parser::{field_ts, pairs_map, ts_keys};
use crate::record::{Fields, Record, RecordView};
use crate::text::{parse_i64, parse_i64_str, push_char};
use serde_json::Value;

verus! {

/// A JSON value as the reader sees it: strings, numbers and booleans in
/// full, objects by their kind only, and anything else (null, arrays) as
/// `Other`, which the reader neither prints nor reads a timestamp from.
pub enum JsonScalar {
    Str(String),
    /// A number: its text as `serde_json` prints it, and its value as an
    /// `i64` and as a `u64` where it is an integer that fits.
    Number(String, Option<i64>, Option<u64>),
    Bool(bool),
    Object,
    Other,
}

/// A member of the top-level object; `members` holds the members of its
/// value when that value is an object, and is empty otherwise.
pub struct JsonField {
    pub key: String,
    pub value: JsonScalar,
    pub members: Vec<(String, JsonScalar)>,
}

/// The abstract value of a [`JsonScalar`].
pub enum JsonScalarView {
    Str(Seq<char>),
    Number(Seq<char>, Option<i64>, Option<u64>),
    Bool(bool),
    Object,
    Other,
}

/// The abstract value of a [`JsonField`].
pub struct JsonFieldView {
    pub key: Seq<char>,
    pub value: JsonScalarView,
    pub members: Seq<(Seq<char>, JsonScalarView)>,
}

impl View for JsonScalar {
    type V = JsonScalarView;

    open spec fn view(&self) -> JsonScalarView {
        match self {
            JsonScalar::Str(s) => JsonScalarView::Str(s@),
            JsonScalar::Number(text, as_i64, as_u64) => JsonScalarView::Number(text@, *as_i64, *as_u64),
            JsonScalar::Bool(b) => JsonScalarView::Bool(*b),
            JsonScalar::Object => JsonScalarView::Object,
            JsonScalar::Other => JsonScalarView::Other,
        }
    }
}

impl View for JsonField {
    type V = JsonFieldView;

    open spec fn view(&self) -> JsonFieldView {
        JsonFieldView {
            key: self.key@,
            value: self.value@,
            members: self.members@.map_values(|m: (String, JsonScalar)| (m.0@, m.1@)),
        }
    }
}

/// The views of a list of top-level members.
pub open spec fn field_views(fs: Seq<JsonField>) -> Seq<JsonFieldView> {
    fs.map_values(|f: JsonField| f@)
}

/// The members of the top-level object that `serde_json` reads from
/// `text`, in the order it hands them out; `None` when `text` is not a JSON
/// document whose top-level value is an object.
pub uninterp spec fn json_object(text: Seq<char>) -> Option<Seq<JsonFieldView>>;

/// Reads `text` with `serde_json::from_str` into a `serde_json::Value`.
/// Claims only that the outcome is `json_object(text@)`: a function of the
/// text, `None` unless the text parses and its top-level value is an
/// object, and otherwise that object's members (and those of its object
/// members) in `serde_json`'s order, each value by its variant, a number by
/// what `Number`'s `Display`, `as_i64` and `as_u64` give.
#[verifier::external_body]
pub(crate) fn parse_json_object(text: &str) -> (r: Option<Vec<JsonField>>)
    ensures
        json_object(text@) == (match r {
            Some(fs) => Some(field_views(fs@)),
            None => None,
        }),
{
    let Ok(Value::Object(map)) = serde_json::from_str(text) else { return None };
    let scalar = |v: &Value| match v {
        Value::String(s) => JsonScalar::Str(s.clone()),
        Value::Number(n) => JsonScalar::Number(n.to_string(), n.as_i64(), n.as_u64()),
        Value::Bool(b) => JsonScalar::Bool(*b),
        Value::Object(_) => JsonScalar::Object,
        _ => JsonScalar::Other,
    };
    Some(map.into_iter().map(|(k, v)| JsonField {
        key: k,
        value: scalar(&v),
        members: v.as_object().into_iter().flatten().map(|(mk, mv)| (mk.clone(), scalar(mv))).collect(),
    }).collect())
}

/// The text of a scalar as a field value: a string as it is, a number as
/// printed, a boolean as `true` or `false`; nothing for null, arrays and objects.
pub open spec fn scalar_text(v: JsonScalarView) -> Option<Seq<char>> {
    match v {
        JsonScalarView::Str(s) => Some(s),
        JsonScalarView::Number(text, _, _) => Some(text),
        JsonScalarView::Bool(b) => Some(
            if b {
                seq!['t', 'r', 'u', 'e']
            } else {
                seq!['f', 'a', 'l', 's', 'e']
            },
        ),
        _ => None,
    }
}

/// The integer a value stands for as a timestamp: an integer number (one
/// above `i64::MAX` wraps around), or a string that reads as an `i64`.
pub open spec fn scalar_i64(v: JsonScalarView) -> Option<i64> {
    match v {
        JsonScalarView::Number(_, as_i64, as_u64) => match as_i64 {
            Some(x) => Some(x),
            None => match as_u64 {
                Some(u) => Some(u as i64),
                None => None,
            },
        },
        JsonScalarView::Str(s) => parse_i64(s),
        _ => None,
    }
}

/// The field pairs of the members `ms` of the object under `prefix`:
/// `prefix.key` for each member with a text.
pub open spec fn member_pairs(prefix: Seq<char>, ms: Seq<(Seq<char>, JsonScalarView)>) -> Seq<
    (Seq<char>, Seq<char>),
>
    decreases ms.len(),
{
    if ms.len() == 0 {
        Seq::empty()
    } else {
        let m = ms.last();
        member_pairs(prefix, ms.drop_last()) + match scalar_text(m.1) {
            Some(t) => seq![(prefix.push('.') + m.0, t)],
            None => Seq::empty(),
        }
    }
}

/// The field pairs of one top-level member.
pub open spec fn field_pairs(f: JsonFieldView) -> Seq<(Seq<char>, Seq<char>)> {
    if f.value is Object {
        member_pairs(f.key, f.members)
    } else {
        match scalar_text(f.value) {
            Some(t) => seq![(f.key, t)],
            None => Seq::empty(),
        }
    }
}

/// The field pairs of an object, member after member.
pub open spec fn flatten_pairs(fs: Seq<JsonFieldView>) -> Seq<(Seq<char>, Seq<char>)>
    decreases fs.len(),
{
    if fs.len() == 0 {
        Seq::empty()
    } else {
        flatten_pairs(fs.drop_last()) + field_pairs(fs.last())
    }
}

/// The value of the first member of `fs[i..]` named `key`.
pub open spec fn json_get_from(fs: Seq<JsonFieldView>, key: Seq<char>, i: int) -> Option<
    JsonScalarView,
>
    decreases fs.len() - i,
{
    if i < 0 || i >= fs.len() {
        None
    } else if fs[i].key == key {
        Some(fs[i].value)
    } else {
        json_get_from(fs, key, i + 1)
    }
}

/// The timestamp of the first of `keys[i..]` whose member holds an integer.
pub open spec fn json_ts_from(fs: Seq<JsonFieldView>, keys: Seq<Seq<char>>, i: int) -> Option<i64>
    decreases keys.len() - i,
{
    if i < 0 || i >= keys.len() {
        None
    } else {
        match json_get_from(fs, keys[i], 0) {
            Some(v) if scalar_i64(v) is Some => scalar_i64(v),
            _ => json_ts_from(fs, keys, i + 1),
        }
    }
}

/// The record of a JSON-object line whose members are `fs`: its fields are
/// the flattened members; its timestamp is read from the members `ts`,
/// `time`, `@timestamp`, and failing that from the fields of those names.
pub open spec fn json_record(line: Seq<char>, source: Seq<char>, fs: Seq<JsonFieldView>) -> RecordView {
    let fields = pairs_map(flatten_pairs(fs));
    let ts = match json_ts_from(fs, ts_keys(), 0) {
        Some(t) => Some(t),
        None => field_ts(fields),
    };
    RecordView { ts, raw: line, fields, source }
}

/// `v` stands for the integer `n` as a timestamp: an integer number that
/// fits in an `i64`, or a string that reads as the `i64` `n`.
pub open spec fn holds_integer(v: JsonScalarView, n: i64) -> bool {
    ||| v matches JsonScalarView::Number(_, Some(a), _) && a == n
    ||| v matches JsonScalarView::Str(t) && parse_i64(t) == Some(n)
}

/// `v` stands for no integer: a number that is not an integer in the range
/// of `i64` or `u64`, a string that does not read as an `i64`, or a value
/// of another kind.
pub open spec fn holds_no_integer(v: JsonScalarView) -> bool {
    match v {
        JsonScalarView::Number(_, a, u) => a is None && u is None,
        JsonScalarView::Str(t) => parse_i64(t) is None,
        _ => true,
    }
}

proof fn lemma_json_get_first(fs: Seq<JsonFieldView>, key: Seq<char>, i: int, k: int)
    requires
        0 <= k <= i < fs.len(),
        fs[i].key == key,
        forall|j: int| 0 <= j < i ==> (#[trigger] fs[j]).key != key,
    ensures
        json_get_from(fs, key, k) == Some(fs[i].value),
    decreases i - k,
{
    if k < i {
        lemma_json_get_first(fs, key, i, k + 1);
    }
}

proof fn lemma_json_get_found(fs: Seq<JsonFieldView>, key: Seq<char>, k: int)
    requires
        0 <= k,
    ensures
        json_get_from(fs, key, k) matches Some(v) ==> exists|j: int|
            0 <= j < fs.len() && (#[trigger] fs[j]).key == key && fs[j].value == v,
    decreases fs.len() - k,
{
    if 0 <= k < fs.len() && fs[k].key != key {
        lemma_json_get_found(fs, key, k + 1);
    }
}

/// No member named `key` holds an integer.
pub open spec fn no_integer_member(fs: Seq<JsonFieldView>, key: Seq<char>) -> bool {
    forall|j: int| 0 <= j < fs.len() && (#[trigger] fs[j]).key == key ==> holds_no_integer(fs[j].value)
}

/// The first member named `key` is at `i` and holds the integer `n`.
pub open spec fn first_member_holds(fs: Seq<JsonFieldView>, key: Seq<char>, i: int, n: i64) -> bool {
    &&& 0 <= i < fs.len()
    &&& fs[i].key == key
    &&& forall|j: int| 0 <= j < i ==> (#[trigger] fs[j]).key != key
    &&& holds_integer(fs[i].value, n)
}

proof fn lemma_member_timestamp(fs: Seq<JsonFieldView>, key: Seq<char>, i: int, n: i64)
    requires
        first_member_holds(fs, key, i, n),
    ensures
        json_get_from(fs, key, 0) == Some(fs[i].value),
        scalar_i64(fs[i].value) == Some(n),
{
    lemma_json_get_first(fs, key, i, 0);
}

proof fn lemma_member_no_timestamp(fs: Seq<JsonFieldView>, key: Seq<char>)
    requires
        no_integer_member(fs, key),
    ensures
        match json_get_from(fs, key, 0) {
            Some(v) => scalar_i64(v) is None,
            None => true,
        },
{
    lemma_json_get_found(fs, key, 0);
    if let Some(v) = json_get_from(fs, key, 0) {
        let j = choose|j: int| 0 <= j < fs.len() && (#[trigger] fs[j]).key == key && fs[j].value == v;
        assert(holds_no_integer(fs[j].value));
    }
}

/// Law: the timestamp of a JSON line comes from its members `ts`, `time`,
/// `@timestamp`, tried in that order: the first of them that holds an
/// integer gives it, whatever the later ones hold.
pub proof fn law_json_timestamp_member_order(
    line: Seq<char>,
    source: Seq<char>,
    fs: Seq<JsonFieldView>,
    i: int,
    n: i64,
)
    ensures
        first_member_holds(fs, seq!['t', 's'], i, n) ==> json_record(line, source, fs).ts == Some(
            n,
        ),
        no_integer_member(fs, seq!['t', 's']) && first_member_holds(
            fs,
            seq!['t', 'i', 'm', 'e'],
            i,
            n,
        ) ==> json_record(line, source, fs).ts == Some(n),
        no_integer_member(fs, seq!['t', 's']) && no_integer_member(fs, seq!['t', 'i', 'm', 'e'])
            && first_member_holds(fs, seq!['@', 't', 'i', 'm', 'e', 's', 't', 'a', 'm', 'p'], i, n)
            ==> json_record(line, source, fs).ts == Some(n),
{
    let k_ts = seq!['t', 's'];
    let k_time = seq!['t', 'i', 'm', 'e'];
    let k_at = seq!['@', 't', 'i', 'm', 'e', 's', 't', 'a', 'm', 'p'];
    assert(ts_keys()[0] == k_ts && ts_keys()[1] == k_time && ts_keys()[2] == k_at);
    reveal_with_fuel(json_ts_from, 4);
    if first_member_holds(fs, k_ts, i, n) {
        lemma_member_timestamp(fs, k_ts, i, n);
    }
    if no_integer_member(fs, k_ts) {
        lemma_member_no_timestamp(fs, k_ts);
        if first_member_holds(fs, k_time, i, n) {
            lemma_member_timestamp(fs, k_time, i, n);
        }
        if no_integer_member(fs, k_time) {
            lemma_member_no_timestamp(fs, k_time);
            if first_member_holds(fs, k_at, i, n) {
                lemma_member_timestamp(fs, k_at, i, n);
            }
        }
    }
}

/// The text of a scalar as a field value (see `scalar_text`).
fn json_value_to_string(v: &JsonScalar) -> (r: Option<String>)
    ensures
        match r {
            Some(s) => scalar_text(v@) == Some(s@),
            None => scalar_text(v@) is None,
        },
{
    match v {
        JsonScalar::Str(s) => Some(s.clone()),
        JsonScalar::Number(text, _, _) => Some(text.clone()),
        JsonScalar::Bool(b) => {
            proof {
                reveal_strlit("true");
                reveal_strlit("false");
            }
            if *b {
                Some(String::from_str("true"))
            } else {
                Some(String::from_str("false"))
            }
        },
        _ => None,
    }
}

/// The integer a value stands for as a timestamp (see `scalar_i64`).
fn json_value_to_i64(v: &JsonScalar) -> (r: Option<i64>)
    ensures
        r == scalar_i64(v@),
{
    match v {
        JsonScalar::Number(_, as_i64, as_u64) => match as_i64 {
            Some(x) => Some(*x),
            None => match as_u64 {
                Some(u) => Some(*u as i64),
                None => None,
            },
        },
        JsonScalar::Str(s) => parse_i64_str(s.as_str()),
        _ => None,
    }
}

/// `a.b`.
fn dotted(a: &String, b: &String) -> (r: String)
    ensures
        r@ == a@.push('.') + b@,
{
    let mut r = a.clone();
    push_char(&mut r, '.');
    r.append(b.as_str());
    r
}

/// The fields of an object: scalar members under their names, the scalar
/// members of object members under `outer.inner` names.
fn flatten_one_level(fs: &Vec<JsonField>) -> (r: Fields)
    ensures
        r@ == pairs_map(flatten_pairs(field_views(fs@))),
{
    let ghost views = field_views(fs@);
    let mut fields = Fields::new();
    let ghost mut done: Seq<(Seq<char>, Seq<char>)> = Seq::empty();
    let n = fs.len();
    let mut i: usize = 0;
    assert(views.take(0) =~= Seq::<JsonFieldView>::empty());
    while i < n
        invariant
            n == fs.len(),
            views == field_views(fs@),
            i <= n,
            fields@ == pairs_map(done),
            done == flatten_pairs(views.take(i as int)),
        decreases n - i,
    {
        let field = &fs[i];
        let ghost fv = views[i as int];
        assert(fv == field@);
        assert(views.take(i + 1).drop_last() =~= views.take(i as int));
        match &field.value {
            JsonScalar::Object => {
                let m = field.members.len();
                let ghost mviews = fv.members;
                let ghost base = done;
                let mut j: usize = 0;
                assert(mviews.take(0) =~= Seq::<(Seq<char>, JsonScalarView)>::empty());
                assert(base + Seq::<(Seq<char>, Seq<char>)>::empty() =~= base);
                while j < m
                    invariant
                        m == field.members.len(),
                        mviews == field.members@.map_values(|x: (String, JsonScalar)| (x.0@, x.1@)),
                        j <= m,
                        fields@ == pairs_map(done),
                        done == base + member_pairs(field.key@, mviews.take(j as int)),
                    decreases m - j,
                {
                    let member = &field.members[j];
                    assert(mviews[j as int] == (member.0@, member.1@));
                    assert(mviews.take(j + 1).drop_last() =~= mviews.take(j as int));
                    match json_value_to_string(&member.1) {
                        Some(s) => {
                            let key = dotted(&field.key, &member.0);
                            let ghost pair = (key@, s@);
                            fields.insert(key, s);
                            proof {
                                assert(done.push(pair).drop_last() =~= done);
                                assert(done.push(pair) =~= base + member_pairs(
                                    field.key@,
                                    mviews.take(j + 1),
                                ));
                                done = done.push(pair);
                            }
                        },
                        None => {
                            assert(done =~= base + member_pairs(field.key@, mviews.take(j + 1)));
                        },
                    }
                    j += 1;
                }
                assert(mviews.take(m as int) =~= mviews);
            },
            _ => {
                match json_value_to_string(&field.value) {
                    Some(s) => {
                        let key = field.key.clone();
                        let ghost pair = (key@, s@);
                        fields.insert(key, s);
                        proof {
                            assert(done.push(pair).drop_last() =~= done);
                            done = done.push(pair);
                        }
                    },
                    None => {
                        assert(done =~= done + Seq::<(Seq<char>, Seq<char>)>::empty());
                    },
                }
            },
        }
        assert(done == flatten_pairs(views.take(i + 1)));
        i += 1;
    }
    assert(views.take(n as int) =~= views);
    fields
}

/// The value of the first member named `key`.
fn json_get<'a>(fs: &'a Vec<JsonField>, key: &str) -> (r: Option<&'a JsonScalar>)
    ensures
        match r {
            Some(v) => json_get_from(field_views(fs@), key@, 0) == Some(v@),
            None => json_get_from(field_views(fs@), key@, 0) is None,
        },
{
    let ghost views = field_views(fs@);
    let k = String::from_str(key);
    let n = fs.len();
    let mut i: usize = 0;
    while i < n
        invariant
            n == fs.len(),
            views == field_views(fs@),
            k@ == key@,
            i <= n,
            json_get_from(views, key@, 0) == json_get_from(views, key@, i as int),
        decreases n - i,
    {
        assert(views[i as int] == fs[i as int]@);
        if fs[i].key == k {
            return Some(&fs[i].value);
        }
        i += 1;
    }
    None
}

/// The integer that the member `key` holds, if it is there and holds one.
fn member_i64(fs: &Vec<JsonField>, key: &str) -> (r: Option<i64>)
    ensures
        r == (match json_get_from(field_views(fs@), key@, 0) {
            Some(v) => scalar_i64(v),
            None => None,
        }),
{
    match json_get(fs, key) {
        Some(v) => json_value_to_i64(v),
        None => None,
    }
}

/// The timestamp of the first of the members `ts`, `time`, `@timestamp`
/// that holds an integer.
fn ts_from_json_object(fs: &Vec<JsonField>) -> (r: Option<i64>)
    ensures
        r == json_ts_from(field_views(fs@), ts_keys(), 0),
{
    proof {
        reveal_strlit("ts");
        reveal_strlit("time");
        reveal_strlit("@timestamp");
        assert("ts"@ =~= ts_keys()[0]);
        assert("time"@ =~= ts_keys()[1]);
        assert("@timestamp"@ =~= ts_keys()[2]);
        reveal_with_fuel(json_ts_from, 4);
    }
    if let Some(ts) = member_i64(fs, "ts") {
        return Some(ts);
    }
    if let Some(ts) = member_i64(fs, "time") {
        return Some(ts);
    }
    member_i64(fs, "@timestamp")
}

/// The record of the line `line` from `source`, given the members `fs` of
/// the JSON object it holds (see `json_record`).
pub fn record_from_json_object(line: &str, source: &str, fs: &Vec<JsonField>) -> (r: Record)
    ensures
        r@ == json_record(line@, source@, field_views(fs@)),
{
    let fields = flatten_one_level(fs);
    let ts = match ts_from_json_object(fs) {
        Some(t) => Some(t),
        None => crate::parser::ts_from_fields(&fields),
    };
    Record { ts, raw: String::from_str(line), fields, source: String::from_str(source) }
}

} // verus!
