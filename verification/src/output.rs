//! Writing records out: passthrough, JSON lines, or tab-separated.
use vstd::prelude::*;

use crate::record::{Record, RecordView};
use crate::text::{int_decimal, nat_decimal, push_char, push_i64_decimal};

verus! {

/// How a record is written.
#[derive(Clone, Copy)]
pub enum Format {
    /// `[source] raw`
    Passthrough,
    /// One JSON object per line: `source`, `ts` (a number or `null`), `raw`.
    Jsonl,
    /// Tab-separated: `source`, `ts` (empty when unknown), `raw`.
    Tagged,
}

/// The format that a `--format` value names: `passthrough`, `jsonl` or
/// `tagged`; any other value falls back to passthrough.
pub open spec fn format_named(name: Seq<char>) -> Format {
    if name == seq!['j', 's', 'o', 'n', 'l'] {
        Format::Jsonl
    } else if name == seq!['t', 'a', 'g', 'g', 'e', 'd'] {
        Format::Tagged
    } else {
        Format::Passthrough
    }
}

/// The format that a `--format` value names (see `format_named`).
pub fn format_from_name(name: &str) -> (f: Format)
    ensures
        f == format_named(name@),
{
    let n = String::from_str(name);
    proof {
        reveal_strlit("jsonl");
        reveal_strlit("tagged");
        assert("jsonl"@ =~= seq!['j', 's', 'o', 'n', 'l']);
        assert("tagged"@ =~= seq!['t', 'a', 'g', 'g', 'e', 'd']);
    }
    if n == String::from_str("jsonl") {
        Format::Jsonl
    } else if n == String::from_str("tagged") {
        Format::Tagged
    } else {
        Format::Passthrough
    }
}

/// A control character: Unicode general category `Cc`.
pub open spec fn is_control(c: char) -> bool {
    (c as u32) <= 0x1f || (0x7f <= (c as u32) && (c as u32) <= 0x9f)
}

/// The lower-case hexadecimal digit for `d < 16`.
pub open spec fn hex_digit(d: int) -> char {
    if d < 10 {
        (d + '0' as int) as char
    } else {
        (d - 10 + 'a' as int) as char
    }
}

/// How one character is written inside a JSON string.
pub open spec fn escape_char(c: char) -> Seq<char> {
    if c == '"' {
        seq!['\\', '"']
    } else if c == '\\' {
        seq!['\\', '\\']
    } else if c == '\n' {
        seq!['\\', 'n']
    } else if c == '\r' {
        seq!['\\', 'r']
    } else if c == '\t' {
        seq!['\\', 't']
    } else if is_control(c) {
        seq![
            '\\',
            'u',
            '0',
            '0',
            hex_digit((c as u32) as int / 16),
            hex_digit((c as u32) as int % 16),
        ]
    } else {
        seq![c]
    }
}

/// `s` escaped for use inside a JSON string.
pub open spec fn json_escaped(s: Seq<char>) -> Seq<char>
    decreases s.len(),
{
    if s.len() == 0 {
        Seq::empty()
    } else {
        json_escaped(s.drop_last()) + escape_char(s.last())
    }
}

/// The line (with its newline) that `format` writes for `r`.
pub open spec fn rendered_line(r: RecordView, format: Format) -> Seq<char> {
    match format {
        Format::Passthrough => seq!['['] + r.source + seq![']', ' '] + r.raw + seq!['\n'],
        Format::Jsonl => {
            let ts = match r.ts {
                Some(t) => int_decimal(t as int),
                None => seq!['n', 'u', 'l', 'l'],
            };
            "{\"source\":\""@ + json_escaped(r.source) + "\",\"ts\":"@ + ts + ",\"raw\":\""@
                + json_escaped(r.raw) + "\"}\n"@
        },
        Format::Tagged => {
            let ts = match r.ts {
                Some(t) => int_decimal(t as int),
                None => Seq::empty(),
            };
            r.source + seq!['\t'] + ts + seq!['\t'] + r.raw + seq!['\n']
        },
    }
}

/// The value of a hexadecimal digit (either case).
pub open spec fn hex_value(c: char) -> Option<int> {
    if '0' <= c <= '9' {
        Some(c as int - '0' as int)
    } else if 'a' <= c <= 'f' {
        Some(c as int - 'a' as int + 10)
    } else if 'A' <= c <= 'F' {
        Some(c as int - 'A' as int + 10)
    } else {
        None
    }
}

/// The value of four hexadecimal digits.
pub open spec fn hex4_value(t: Seq<char>) -> Option<int> {
    match (hex_value(t[0]), hex_value(t[1]), hex_value(t[2]), hex_value(t[3])) {
        (Some(a), Some(b), Some(c), Some(d)) => Some(((a * 16 + b) * 16 + c) * 16 + d),
        _ => None,
    }
}

/// The characters that `t`, the text between the quotes of a JSON string,
/// stands for (RFC 8259, section 7); `None` when `t` holds an unescaped
/// quote, backslash or control character below U+0020, or an escape that
/// RFC 8259 does not define. A `\u` escape of a surrogate code point (half
/// of a surrogate pair) counts as undefined here.
pub open spec fn json_unescaped(t: Seq<char>) -> Option<Seq<char>>
    decreases t.len(),
{
    if t.len() == 0 {
        Some(Seq::empty())
    } else if t[0] == '"' || (t[0] as u32) < 0x20 {
        None
    } else if t[0] != '\\' {
        match json_unescaped(t.drop_first()) {
            Some(rest) => Some(seq![t[0]] + rest),
            None => None,
        }
    } else if t.len() < 2 {
        None
    } else {
        let e = t[1];
        let simple: Option<char> = if e == '"' || e == '\\' || e == '/' {
            Some(e)
        } else if e == 'b' {
            Some('\u{8}')
        } else if e == 'f' {
            Some('\u{c}')
        } else if e == 'n' {
            Some('\n')
        } else if e == 'r' {
            Some('\r')
        } else if e == 't' {
            Some('\t')
        } else {
            None
        };
        match simple {
            Some(c) => match json_unescaped(t.skip(2)) {
                Some(rest) => Some(seq![c] + rest),
                None => None,
            },
            None => if e == 'u' && t.len() >= 6 {
                match hex4_value(t.subrange(2, 6)) {
                    Some(v) => if v < 0xd800 || v > 0xdfff {
                        match json_unescaped(t.skip(6)) {
                            Some(rest) => Some(seq![(v as u32) as char] + rest),
                            None => None,
                        }
                    } else {
                        None
                    },
                    None => None,
                }
            } else {
                None
            },
        }
    }
}

proof fn lemma_hex_digit(d: int)
    requires
        0 <= d < 16,
    ensures
        hex_value(hex_digit(d)) == Some(d),
{
}

proof fn lemma_json_escaped_front(c: char, s: Seq<char>)
    ensures
        json_escaped(seq![c] + s) == escape_char(c) + json_escaped(s),
    decreases s.len(),
{
    if s.len() == 0 {
        assert((seq![c] + s).drop_last() =~= Seq::<char>::empty());
        assert(json_escaped(Seq::<char>::empty()) =~= Seq::<char>::empty());
        assert((seq![c] + s).last() == c);
        assert(json_escaped(seq![c] + s) =~= Seq::<char>::empty() + escape_char(c));
        assert(escape_char(c) + json_escaped(s) =~= escape_char(c));
    } else {
        lemma_json_escaped_front(c, s.drop_last());
        assert((seq![c] + s).drop_last() =~= seq![c] + s.drop_last());
        assert(escape_char(c) + json_escaped(s) =~= escape_char(c) + json_escaped(s.drop_last())
            + escape_char(s.last()));
    }
}

/// Law: JSON escaping loses nothing: the escaped text is a valid JSON
/// string body that stands for exactly the characters it was made from.
pub proof fn law_json_escape_round_trip(s: Seq<char>)
    ensures
        json_unescaped(json_escaped(s)) == Some(s),
    decreases s.len(),
{
    if s.len() == 0 {
        assert(json_escaped(s) =~= Seq::<char>::empty());
    } else {
        let c = s[0];
        let rest = s.drop_first();
        assert(s =~= seq![c] + rest);
        lemma_json_escaped_front(c, rest);
        law_json_escape_round_trip(rest);
        let e = escape_char(c);
        let t = e + json_escaped(rest);
        assert(t.skip(e.len() as int) =~= json_escaped(rest));
        if e.len() == 1 {
            assert(t.drop_first() =~= json_escaped(rest));
        }
        let j = json_escaped(rest);
        if c == '"' || c == '\\' || c == '\n' || c == '\r' || c == '\t' {
            assert(t[0] == '\\');
            assert(t.skip(2) =~= j);
            assert(json_unescaped(t) == Some(seq![c] + rest));
        } else if is_control(c) {
            let v = (c as u32) as int;
            lemma_hex_digit(v / 16);
            lemma_hex_digit(v % 16);
            assert(t.subrange(2, 6) =~= seq!['0', '0', hex_digit(v / 16), hex_digit(v % 16)]);
            assert(hex_value('0') == Some(0int));
            assert(hex4_value(t.subrange(2, 6)) == Some(v));
            vstd::utf8::char_u32_cast(c, c as u32);
            assert(((v as u32) as char) == c);
            assert(t.skip(6) =~= j);
            assert(json_unescaped(t) == Some(seq![c] + rest));
        } else {
            assert(e =~= seq![c]);
            assert(t[0] == c);
            assert(json_unescaped(t) == Some(seq![c] + rest));
        }
    }
}

/// `s` holds no control character.
pub open spec fn no_control(s: Seq<char>) -> bool {
    forall|i: int| 0 <= i < s.len() ==> !is_control(#[trigger] s[i])
}

proof fn lemma_no_control_concat(a: Seq<char>, b: Seq<char>)
    requires
        no_control(a),
        no_control(b),
    ensures
        no_control(a + b),
{
    assert forall|i: int| 0 <= i < (a + b).len() implies !is_control(#[trigger] (a + b)[i]) by {
        if i < a.len() {
            assert((a + b)[i] == a[i]);
        } else {
            assert((a + b)[i] == b[i - a.len()]);
        }
    }
}

proof fn lemma_json_escaped_no_control(s: Seq<char>)
    ensures
        no_control(json_escaped(s)),
    decreases s.len(),
{
    if s.len() > 0 {
        lemma_json_escaped_no_control(s.drop_last());
        let c = s.last();
        let e = escape_char(c);
        if is_control(c) && c != '\n' && c != '\r' && c != '\t' {
            let v = (c as u32) as int;
            assert(!is_control(hex_digit(v / 16)));
            assert(!is_control(hex_digit(v % 16)));
        }
        assert(no_control(e));
        lemma_no_control_concat(json_escaped(s.drop_last()), e);
    }
}

proof fn lemma_decimal_no_control(v: int)
    ensures
        no_control(int_decimal(v)),
{
    lemma_nat_decimal_no_control(if v < 0 {
        (-v) as nat
    } else {
        v as nat
    });
    if v < 0 {
        lemma_no_control_concat(seq!['-'], nat_decimal((-v) as nat));
    }
}

proof fn lemma_nat_decimal_no_control(n: nat)
    ensures
        no_control(nat_decimal(n)),
    decreases n,
{
    if n >= 10 {
        lemma_nat_decimal_no_control(n / 10);
        lemma_no_control_concat(nat_decimal(n / 10), seq![crate::text::digit_char((n % 10) as int)]);
        assert(nat_decimal(n) =~= nat_decimal(n / 10) + seq![
            crate::text::digit_char((n % 10) as int),
        ]);
    }
}

/// Law: a JSON-lines record is written as exactly one line: it ends with a
/// newline and holds no other line break (indeed no control character).
pub proof fn law_jsonl_single_line(r: RecordView)
    ensures
        ({
            let line = rendered_line(r, Format::Jsonl);
            &&& line.len() > 0
            &&& line.last() == '\n'
            &&& forall|i: int| 0 <= i < line.len() - 1 ==> !is_control(#[trigger] line[i])
        }),
{
    reveal_strlit("{\"source\":\"");
    reveal_strlit("\",\"ts\":");
    reveal_strlit(",\"raw\":\"");
    reveal_strlit("\"}\n");
    reveal_strlit("null");
    let ts = match r.ts {
        Some(t) => int_decimal(t as int),
        None => seq!['n', 'u', 'l', 'l'],
    };
    match r.ts {
        Some(t) => lemma_decimal_no_control(t as int),
        None => {},
    }
    lemma_json_escaped_no_control(r.source);
    lemma_json_escaped_no_control(r.raw);
    let p1 = "{\"source\":\""@;
    let p2 = "\",\"ts\":"@;
    let p3 = ",\"raw\":\""@;
    assert(no_control(p1));
    assert(no_control(p2));
    assert(no_control(p3));
    assert(no_control(seq!['"', '}']));
    let body = p1 + json_escaped(r.source) + p2 + ts + p3 + json_escaped(r.raw) + seq!['"', '}'];
    lemma_no_control_concat(p1, json_escaped(r.source));
    lemma_no_control_concat(p1 + json_escaped(r.source), p2);
    lemma_no_control_concat(p1 + json_escaped(r.source) + p2, ts);
    lemma_no_control_concat(p1 + json_escaped(r.source) + p2 + ts, p3);
    lemma_no_control_concat(p1 + json_escaped(r.source) + p2 + ts + p3, json_escaped(r.raw));
    lemma_no_control_concat(
        p1 + json_escaped(r.source) + p2 + ts + p3 + json_escaped(r.raw),
        seq!['"', '}'],
    );
    let line = rendered_line(r, Format::Jsonl);
    assert(line =~= body.push('\n'));
    assert forall|i: int| 0 <= i < line.len() - 1 implies !is_control(#[trigger] line[i]) by {
        assert(line[i] == body[i]);
    }
}

/// A JSON value of the kinds a JSON-lines record holds: a string, an
/// integer, or `null`.
pub enum JsonLiteral {
    Str(Seq<char>),
    Int(int),
    Null,
}

/// The length of the body of a JSON string whose opening quote has been
/// read: the position of its closing quote, skipping each backslash and
/// the character after it; `-1` when there is none.
pub open spec fn string_body_len(t: Seq<char>) -> int
    decreases t.len(),
{
    if t.len() == 0 {
        -1
    } else if t[0] == '"' {
        0
    } else if t[0] == '\\' {
        if t.len() < 2 || string_body_len(t.skip(2)) < 0 {
            -1
        } else {
            string_body_len(t.skip(2)) + 2
        }
    } else if string_body_len(t.drop_first()) < 0 {
        -1
    } else {
        string_body_len(t.drop_first()) + 1
    }
}

/// A JSON string at the start of `t`: its value and the number of
/// characters it takes, quotes included.
pub open spec fn read_json_string(t: Seq<char>) -> Option<(Seq<char>, int)> {
    if t.len() > 0 && t[0] == '"' {
        let k = string_body_len(t.drop_first());
        if 0 <= k && k + 2 <= t.len() {
            match json_unescaped(t.subrange(1, k + 1)) {
                Some(v) => Some((v, k + 2)),
                None => None,
            }
        } else {
            None
        }
    } else {
        None
    }
}

/// The length of the run of ASCII digits that starts at `i` in `t`.
pub open spec fn ascii_digit_run(t: Seq<char>, i: int) -> int
    decreases t.len() - i,
{
    if 0 <= i < t.len() && crate::text::is_digit(t[i]) {
        1 + ascii_digit_run(t, i + 1)
    } else {
        0
    }
}

/// A JSON integer at the start of `t` (an optional `-`, then digits with no
/// leading zero): its value and the number of characters it takes.
pub open spec fn read_json_int(t: Seq<char>) -> Option<(int, int)> {
    let start: int = if t.len() > 0 && t[0] == '-' {
        1
    } else {
        0
    };
    let m = ascii_digit_run(t, start);
    if m == 0 || (m > 1 && t[start] == '0') {
        None
    } else {
        let v = crate::text::digits_value(t.subrange(start, start + m));
        Some((if start == 1 {
            -v
        } else {
            v
        }, start + m))
    }
}

/// A JSON string, `null` or integer at the start of `t`, with the number of
/// characters it takes.
pub open spec fn read_json_value(t: Seq<char>) -> Option<(JsonLiteral, int)> {
    if t.len() > 0 && t[0] == '"' {
        match read_json_string(t) {
            Some((v, n)) => Some((JsonLiteral::Str(v), n)),
            None => None,
        }
    } else if t.len() >= 4 && t.take(4) == seq!['n', 'u', 'l', 'l'] {
        Some((JsonLiteral::Null, 4))
    } else {
        match read_json_int(t) {
            Some((v, n)) => Some((JsonLiteral::Int(v), n)),
            None => None,
        }
    }
}

/// The members of a JSON object whose `{` has been read: `"key":value`
/// pairs parted by commas, up to the closing `}` that ends `t`.
pub open spec fn read_json_members(t: Seq<char>) -> Option<Seq<(Seq<char>, JsonLiteral)>>
    decreases t.len(),
{
    match read_json_string(t) {
        Some((key, a)) => if 0 <= a < t.len() && t[a] == ':' {
            match read_json_value(t.skip(a + 1)) {
                Some((v, c)) => {
                    let e = a + 1 + c;
                    if 0 < c && e < t.len() && t[e] == ',' {
                        match read_json_members(t.skip(e + 1)) {
                            Some(rest) => Some(seq![(key, v)] + rest),
                            None => None,
                        }
                    } else if 0 < c && e == t.len() - 1 && t[e] == '}' {
                        Some(seq![(key, v)])
                    } else {
                        None
                    }
                },
                None => None,
            }
        } else {
            None
        },
        None => None,
    }
}

/// The members of the JSON object that `t` is (RFC 8259, written without
/// white space between tokens, with string, integer and `null` values).
pub open spec fn read_json_object(t: Seq<char>) -> Option<Seq<(Seq<char>, JsonLiteral)>> {
    if t.len() > 0 && t[0] == '{' {
        read_json_members(t.drop_first())
    } else {
        None
    }
}

/// A character that stands for itself in a JSON string.
pub open spec fn json_plain(c: char) -> bool {
    c != '"' && c != '\\' && !is_control(c)
}

proof fn lemma_string_body_len_plain(x: Seq<char>, y: Seq<char>)
    requires
        forall|i: int| 0 <= i < x.len() ==> #[trigger] x[i] != '"' && x[i] != '\\',
        string_body_len(y) >= 0,
    ensures
        string_body_len(x + y) == x.len() + string_body_len(y),
    decreases x.len(),
{
    if x.len() > 0 {
        assert(x[0] != '"' && x[0] != '\\');
        assert((x + y)[0] == x[0]);
        assert((x + y).drop_first() =~= x.drop_first() + y);
        lemma_string_body_len_plain(x.drop_first(), y);
    } else {
        assert(x + y =~= y);
    }
}

proof fn lemma_string_body_len_escaped(s: Seq<char>, y: Seq<char>)
    requires
        string_body_len(y) >= 0,
    ensures
        string_body_len(json_escaped(s) + y) == json_escaped(s).len() + string_body_len(y),
    decreases s.len(),
{
    if s.len() > 0 {
        let c = s[0];
        let r = s.drop_first();
        assert(s =~= seq![c] + r);
        lemma_json_escaped_front(c, r);
        lemma_string_body_len_escaped(r, y);
        let e = escape_char(c);
        let tail = json_escaped(r) + y;
        assert(json_escaped(s) + y =~= e + tail);
        if e.len() == 1 {
            lemma_string_body_len_plain(e, tail);
        } else {
            let x = e + tail;
            assert(x[0] == '\\');
            assert(x.skip(2) =~= e.skip(2) + tail);
            if is_control(c) && c != '\n' && c != '\r' && c != '\t' {
                let v = (c as u32) as int;
                assert(hex_digit(v / 16) != '"' && hex_digit(v / 16) != '\\');
                assert(hex_digit(v % 16) != '"' && hex_digit(v % 16) != '\\');
            }
            lemma_string_body_len_plain(e.skip(2), tail);
        }
    } else {
        assert(json_escaped(s) =~= Seq::<char>::empty());
        assert(json_escaped(s) + y =~= y);
    }
}

/// A JSON string written as the escaped text of `s` between quotes, and
/// followed by anything, reads back as `s`.
proof fn lemma_read_escaped_string(s: Seq<char>, y: Seq<char>)
    ensures
        read_json_string(seq!['"'] + json_escaped(s) + seq!['"'] + y) == Some(
            (s, json_escaped(s).len() + 2int),
        ),
{
    let e = json_escaped(s);
    let t = seq!['"'] + e + seq!['"'] + y;
    let q = seq!['"'] + y;
    assert(string_body_len(q) == 0);
    assert(t.drop_first() =~= e + q);
    lemma_string_body_len_escaped(s, q);
    assert(t.subrange(1, e.len() as int + 1) =~= e);
    law_json_escape_round_trip(s);
}

proof fn lemma_escaped_plain(x: Seq<char>)
    requires
        forall|i: int| 0 <= i < x.len() ==> json_plain(#[trigger] x[i]),
    ensures
        json_escaped(x) == x,
    decreases x.len(),
{
    if x.len() > 0 {
        lemma_escaped_plain(x.drop_last());
        assert(json_plain(x[x.len() - 1]));
        assert(x.drop_last().push(x.last()) =~= x);
    }
}

proof fn lemma_ascii_digit_run(x: Seq<char>, y: Seq<char>, i: int)
    requires
        crate::text::all_digits(x),
        0 <= i <= x.len(),
        y.len() > 0,
        !crate::text::is_digit(y[0]),
    ensures
        ascii_digit_run(x + y, i) == x.len() - i,
    decreases x.len() - i,
{
    if i < x.len() {
        assert((x + y)[i] == x[i]);
        lemma_ascii_digit_run(x, y, i + 1);
    } else {
        assert((x + y)[i] == y[0]);
    }
}

proof fn lemma_nat_decimal(n: nat)
    ensures
        nat_decimal(n).len() >= 1,
        crate::text::all_digits(nat_decimal(n)),
        crate::text::digits_value(nat_decimal(n)) == n,
        n >= 10 ==> nat_decimal(n)[0] != '0',
        n < 10 ==> nat_decimal(n).len() == 1,
    decreases n,
{
    if n >= 10 {
        lemma_nat_decimal(n / 10);
        let p = nat_decimal(n / 10);
        let d = crate::text::digit_char((n % 10) as int);
        assert(nat_decimal(n) == p.push(d));
        assert(p.push(d).drop_last() =~= p);
        assert(p.push(d)[0] == p[0]);
        assert(forall|i: int| 0 <= i < p.len() ==> #[trigger] p.push(d)[i] == p[i]);
        assert(crate::text::digit_value(d) == n % 10);
        assert(p.push(d).last() == d);
        assert(crate::text::digits_value(p.push(d)) == crate::text::digits_value(p) * 10
            + crate::text::digit_value(d));
        assert((n / 10) * 10 + n % 10 == n);
    } else {
        assert(nat_decimal(n)[0] == crate::text::digit_char(n as int));
        assert(nat_decimal(n).drop_last() =~= Seq::<char>::empty());
        assert(crate::text::digit_value(crate::text::digit_char(n as int)) == n);
        assert(crate::text::digits_value(Seq::<char>::empty()) == 0);
    }
}

/// An integer written in decimal, followed by a character that is not a
/// digit, reads back as itself.
proof fn lemma_read_decimal(v: int, y: Seq<char>)
    requires
        y.len() > 0,
        !crate::text::is_digit(y[0]),
    ensures
        read_json_int(int_decimal(v) + y) == Some((v, int_decimal(v).len() as int)),
{
    let m: nat = if v < 0 {
        (-v) as nat
    } else {
        v as nat
    };
    let d = nat_decimal(m);
    lemma_nat_decimal(m);
    let t = int_decimal(v) + y;
    if v < 0 {
        assert(t =~= seq!['-'] + (d + y));
        assert(t[0] == '-');
        lemma_ascii_digit_run(d, y, 0);
        assert forall|i: int| 0 <= i <= d.len() + y.len() - 1 implies ascii_digit_run(t, i + 1)
            == ascii_digit_run(d + y, i) by {
            lemma_ascii_digit_run_shift(d + y, i);
        }
        assert(t.subrange(1, 1 + d.len() as int) =~= d);
        assert(t[1] == d[0]);
    } else {
        assert(t =~= d + y);
        assert(d[0] != '-');
        lemma_ascii_digit_run(d, y, 0);
        assert(t.subrange(0, d.len() as int) =~= d);
    }
}

proof fn lemma_ascii_digit_run_shift(t: Seq<char>, i: int)
    requires
        0 <= i <= t.len(),
    ensures
        ascii_digit_run(seq!['-'] + t, i + 1) == ascii_digit_run(t, i),
    decreases t.len() - i,
{
    if i < t.len() {
        assert((seq!['-'] + t)[i + 1] == t[i]);
        lemma_ascii_digit_run_shift(t, i + 1);
    }
}

/// The value that the `ts` member of a JSON-lines record holds.
pub open spec fn ts_literal(ts: Option<i64>) -> JsonLiteral {
    match ts {
        Some(t) => JsonLiteral::Int(t as int),
        None => JsonLiteral::Null,
    }
}

/// Reads one member `"key":value` whose key is plain text, followed by `y`.
proof fn lemma_read_member(key: Seq<char>, v: Seq<char>, lit: JsonLiteral, y: Seq<char>)
    requires
        forall|i: int| 0 <= i < key.len() ==> json_plain(#[trigger] key[i]),
        read_json_value(v + y) == Some((lit, v.len() as int)),
        v.len() > 0,
        y.len() > 0,
    ensures
        ({
            let t = seq!['"'] + key + seq!['"', ':'] + v + y;
            let kl = key.len() as int;
            let e = kl + 3 + v.len() as int;
            &&& read_json_string(t) == Some((key, kl + 2))
            &&& t[kl + 2] == ':'
            &&& t.skip(kl + 3) == v + y
            &&& t.skip(e) == y
            &&& t[e] == y[0]
        }),
{
    let t = seq!['"'] + key + seq!['"', ':'] + v + y;
    lemma_escaped_plain(key);
    let rest = seq![':'] + v + y;
    assert(t =~= seq!['"'] + json_escaped(key) + seq!['"'] + rest);
    lemma_read_escaped_string(key, rest);
    let kl = key.len() as int;
    assert(t.skip(kl + 3) =~= v + y);
    assert(t.skip(kl + 3 + v.len() as int) =~= y);
}

/// A member followed by a comma and more members.
proof fn lemma_members_more(
    key: Seq<char>,
    v: Seq<char>,
    lit: JsonLiteral,
    m: Seq<char>,
    rest: Seq<(Seq<char>, JsonLiteral)>,
)
    requires
        forall|i: int| 0 <= i < key.len() ==> json_plain(#[trigger] key[i]),
        read_json_value(v + (seq![','] + m)) == Some((lit, v.len() as int)),
        v.len() > 0,
        read_json_members(m) == Some(rest),
    ensures
        read_json_members(member_text(key, v) + (seq![','] + m)) == Some(
            seq![(key, lit)] + rest,
        ),
{
    let y = seq![','] + m;
    lemma_read_member(key, v, lit, y);
    let t = seq!['"'] + key + seq!['"', ':'] + v + y;
    let e: int = key.len() as int + 3 + v.len() as int;
    assert(t.skip(e + 1) =~= m);
}

/// The last member, followed by the closing brace.
proof fn lemma_members_last(key: Seq<char>, v: Seq<char>, lit: JsonLiteral)
    requires
        forall|i: int| 0 <= i < key.len() ==> json_plain(#[trigger] key[i]),
        read_json_value(v + seq!['}']) == Some((lit, v.len() as int)),
        v.len() > 0,
    ensures
        read_json_members(member_text(key, v) + seq!['}']) == Some(
            seq![(key, lit)],
        ),
{
    lemma_read_member(key, v, lit, seq!['}']);
}

/// A string member's value, written escaped between quotes.
proof fn lemma_string_value(s: Seq<char>, y: Seq<char>)
    ensures
        read_json_value(string_text(s) + y) == Some(
            (JsonLiteral::Str(s), json_escaped(s).len() + 2int),
        ),
{
    lemma_read_escaped_string(s, y);
    assert(string_text(s) + y =~= seq!['"'] + json_escaped(s) + seq!['"'] + y);
}

/// The text of the `ts` member.
pub open spec fn ts_text(ts: Option<i64>) -> Seq<char> {
    match ts {
        Some(t) => int_decimal(t as int),
        None => seq!['n', 'u', 'l', 'l'],
    }
}

proof fn lemma_ts_value(ts: Option<i64>, y: Seq<char>)
    requires
        y.len() > 0,
        y[0] == ',',
    ensures
        ts_text(ts).len() > 0,
        read_json_value(ts_text(ts) + y) == Some((ts_literal(ts), ts_text(ts).len() as int)),
{
    let v = ts_text(ts);
    match ts {
        Some(t) => {
            lemma_read_decimal(t as int, y);
            lemma_nat_decimal(if t < 0 { (-t) as nat } else { t as nat });
            assert((v + y)[0] == v[0]);
            assert(v[0] != 'n');
            if (v + y).len() >= 4 {
                assert((v + y).take(4)[0] == v[0]);
            }
        },
        None => {
            assert((v + y).take(4) =~= seq!['n', 'u', 'l', 'l']);
        },
    }
}

/// `"key":v`.
pub open spec fn member_text(key: Seq<char>, v: Seq<char>) -> Seq<char> {
    seq!['"'] + key + seq!['"', ':'] + v
}

/// `s` as a JSON string: escaped, between quotes.
pub open spec fn string_text(s: Seq<char>) -> Seq<char> {
    seq!['"'] + json_escaped(s) + seq!['"']
}

/// The members of a JSON-lines record line, from `"raw"` on.
#[verifier::opaque]
spec fn raw_members(r: RecordView) -> Seq<char> {
    member_text(seq!['r', 'a', 'w'], string_text(r.raw)) + seq!['}']
}

/// The members of a JSON-lines record line, from `"ts"` on.
#[verifier::opaque]
spec fn ts_members(r: RecordView) -> Seq<char> {
    member_text(seq!['t', 's'], ts_text(r.ts)) + (seq![','] + raw_members(r))
}

/// The members of a JSON-lines record line, after its `{`.
spec fn all_members(r: RecordView) -> Seq<char> {
    member_text(seq!['s', 'o', 'u', 'r', 'c', 'e'], string_text(r.source)) + (seq![',']
        + ts_members(r))
}

proof fn lemma_jsonl_line_shape(r: RecordView)
    ensures
        rendered_line(r, Format::Jsonl) == (seq!['{'] + all_members(r)).push('\n'),
{
    reveal_strlit("{\"source\":\"");
    reveal_strlit("\",\"ts\":");
    reveal_strlit(",\"raw\":\"");
    reveal_strlit("\"}\n");
    reveal(ts_members);
    reveal(raw_members);
    assert(rendered_line(r, Format::Jsonl) =~= (seq!['{'] + all_members(r)).push('\n'));
}

proof fn lemma_raw_members(r: RecordView)
    ensures
        read_json_members(raw_members(r)) == Some(
            seq![(seq!['r', 'a', 'w'], JsonLiteral::Str(r.raw))],
        ),
{
    reveal(raw_members);
    lemma_string_value(r.raw, seq!['}']);
    lemma_members_last(seq!['r', 'a', 'w'], string_text(r.raw), JsonLiteral::Str(r.raw));
}

proof fn lemma_ts_members(r: RecordView)
    ensures
        read_json_members(ts_members(r)) == Some(
            seq![(seq!['t', 's'], ts_literal(r.ts)), (seq!['r', 'a', 'w'], JsonLiteral::Str(r.raw))],
        ),
{
    reveal(ts_members);
    let raw_part = seq![(seq!['r', 'a', 'w'], JsonLiteral::Str(r.raw))];
    lemma_raw_members(r);
    lemma_ts_value(r.ts, seq![','] + raw_members(r));
    lemma_members_more(seq!['t', 's'], ts_text(r.ts), ts_literal(r.ts), raw_members(r), raw_part);
    assert(seq![(seq!['t', 's'], ts_literal(r.ts))] + raw_part =~= seq![
        (seq!['t', 's'], ts_literal(r.ts)),
        (seq!['r', 'a', 'w'], JsonLiteral::Str(r.raw)),
    ]);
}

/// The members that a JSON-lines record line gives back.
pub open spec fn jsonl_members(r: RecordView) -> Seq<(Seq<char>, JsonLiteral)> {
    seq![
        (seq!['s', 'o', 'u', 'r', 'c', 'e'], JsonLiteral::Str(r.source)),
        (seq!['t', 's'], ts_literal(r.ts)),
        (seq!['r', 'a', 'w'], JsonLiteral::Str(r.raw)),
    ]
}

proof fn lemma_all_members(r: RecordView)
    ensures
        read_json_members(all_members(r)) == Some(jsonl_members(r)),
{
    let ts_part = seq![
        (seq!['t', 's'], ts_literal(r.ts)),
        (seq!['r', 'a', 'w'], JsonLiteral::Str(r.raw)),
    ];
    lemma_ts_members(r);
    lemma_string_value(r.source, seq![','] + ts_members(r));
    lemma_members_more(
        seq!['s', 'o', 'u', 'r', 'c', 'e'],
        string_text(r.source),
        JsonLiteral::Str(r.source),
        ts_members(r),
        ts_part,
    );
    assert(seq![(seq!['s', 'o', 'u', 'r', 'c', 'e'], JsonLiteral::Str(r.source))] + ts_part
        =~= jsonl_members(r));
}

/// Law: a JSON-lines record line is one JSON object, with the members
/// `source`, `ts` and `raw` in that order, that give back the record's
/// source, its timestamp (an integer, or `null` when it has none) and its
/// raw line, whatever characters they hold.
pub proof fn law_jsonl_line_reads_back(r: RecordView)
    ensures
        rendered_line(r, Format::Jsonl).len() > 0,
        rendered_line(r, Format::Jsonl).last() == '\n',
        read_json_object(rendered_line(r, Format::Jsonl).drop_last()) == Some(jsonl_members(r)),
{
    lemma_all_members(r);
    lemma_jsonl_line_shape(r);
    let body = seq!['{'] + all_members(r);
    assert(body.push('\n').drop_last() =~= body);
    assert(body.drop_first() =~= all_members(r));
}

/// Law: a passthrough line is `[`, the source, `] `, then the raw line
/// exactly as it was read (white space and all), then a newline; a tagged
/// line starts with the source and a tab and ends with a tab, the raw line
/// unchanged, and a newline.
pub proof fn law_raw_line_written_unchanged(r: RecordView)
    ensures
        ({
            let l = rendered_line(r, Format::Passthrough);
            let k = r.source.len() as int;
            &&& l.len() == k + r.raw.len() + 4
            &&& l[0] == '['
            &&& l.subrange(1, k + 1) == r.source
            &&& l[k + 1] == ']'
            &&& l[k + 2] == ' '
            &&& l.subrange(k + 3, l.len() - 1) == r.raw
            &&& l.last() == '\n'
        }),
        ({
            let l = rendered_line(r, Format::Tagged);
            let k = r.source.len() as int;
            let m = l.len() - 1 - r.raw.len();
            &&& l.subrange(0, k) == r.source
            &&& l[k] == '\t'
            &&& m > k
            &&& l[m - 1] == '\t'
            &&& l.subrange(m, l.len() - 1) == r.raw
            &&& l.last() == '\n'
            &&& (r.ts matches Some(t) ==> crate::text::parse_i64(l.subrange(k + 1, m - 1)) == Some(
                t,
            ))
            &&& (r.ts is None ==> m - 1 == k + 1)
        }),
{
    let l = rendered_line(r, Format::Passthrough);
    let k = r.source.len() as int;
    assert(l.subrange(1, k + 1) =~= r.source);
    assert(l.subrange(k + 3, l.len() - 1) =~= r.raw);
    let t = rendered_line(r, Format::Tagged);
    let m = t.len() - 1 - r.raw.len();
    assert(t.subrange(0, k) =~= r.source);
    assert(t.subrange(m, t.len() - 1) =~= r.raw);
    if let Some(v) = r.ts {
        assert(t.subrange(k + 1, m - 1) =~= int_decimal(v as int));
        lemma_decimal_reads_back(v);
    }
}

/// The decimal text of an `i64` reads back as it (`str::parse::<i64>`).
proof fn lemma_decimal_reads_back(v: i64)
    ensures
        crate::text::parse_i64(int_decimal(v as int)) == Some(v),
{
    let m: nat = if v < 0 {
        (-v) as nat
    } else {
        v as nat
    };
    lemma_nat_decimal(m);
    let d = nat_decimal(m);
    if v < 0 {
        assert(int_decimal(v as int).drop_first() =~= d);
        assert(int_decimal(v as int)[0] == '-');
    } else {
        assert(d[0] != '-' && d[0] != '+');
    }
}

/// The lower-case hexadecimal digit for `d < 16`.
fn hex_char(d: u32) -> (c: char)
    requires
        d < 16,
    ensures
        c == hex_digit(d as int),
{
    if d < 10 {
        ((d as u8) + 48u8) as char
    } else {
        ((d as u8) + 87u8) as char
    }
}

/// `s` escaped for use inside a JSON string.
pub fn json_escape(s: &str) -> (r: String)
    ensures
        r@ == json_escaped(s@),
{
    let mut out = String::new();
    let ghost start = out@;
    let chars = crate::text::chars_of(s);
    let n = chars.len();
    let mut i: usize = 0;
    assert(s@.take(0) =~= Seq::<char>::empty());
    while i < n
        invariant
            n == chars.len(),
            chars@ == s@,
            i <= n,
            out@ == start + json_escaped(s@.take(i as int)),
        decreases n - i,
    {
        let c = chars[i];
        assert(s@.take(i + 1).drop_last() =~= s@.take(i as int));
        assert(s@.take(i + 1).last() == c);
        let ghost before = out@;
        if c == '"' {
            push_char(&mut out, '\\');
            push_char(&mut out, '"');
        } else if c == '\\' {
            push_char(&mut out, '\\');
            push_char(&mut out, '\\');
        } else if c == '\n' {
            push_char(&mut out, '\\');
            push_char(&mut out, 'n');
        } else if c == '\r' {
            push_char(&mut out, '\\');
            push_char(&mut out, 'r');
        } else if c == '\t' {
            push_char(&mut out, '\\');
            push_char(&mut out, 't');
        } else if (c as u32) <= 0x1f || (0x7f <= (c as u32) && (c as u32) <= 0x9f) {
            let code = c as u32;
            push_char(&mut out, '\\');
            push_char(&mut out, 'u');
            push_char(&mut out, '0');
            push_char(&mut out, '0');
            push_char(&mut out, hex_char(code / 16));
            push_char(&mut out, hex_char(code % 16));
        } else {
            push_char(&mut out, c);
        }
        assert(out@ =~= before + escape_char(c));
        assert(out@ =~= start + json_escaped(s@.take(i + 1)));
        i += 1;
    }
    assert(s@.take(n as int) =~= s@);
    assert(out@ =~= json_escaped(s@));
    out
}

/// The line (with its newline) that `format` writes for `r`.
pub fn render_record(r: &Record, format: Format) -> (line: String)
    ensures
        line@ == rendered_line(r@, format),
{
    let mut out = String::new();
    match format {
        Format::Passthrough => {
            push_char(&mut out, '[');
            out.append(r.source.as_str());
            push_char(&mut out, ']');
            push_char(&mut out, ' ');
            out.append(r.raw.as_str());
            push_char(&mut out, '\n');
            assert(out@ =~= rendered_line(r@, format));
        },
        Format::Jsonl => {
            out.append("{\"source\":\"");
            out.append(json_escape(r.source.as_str()).as_str());
            out.append("\",\"ts\":");
            let ghost mid = out@;
            match r.ts {
                Some(t) => push_i64_decimal(&mut out, t),
                None => {
                    proof {
                        reveal_strlit("null");
                    }
                    out.append("null");
                    assert(out@ =~= mid + seq!['n', 'u', 'l', 'l']);
                },
            }
            out.append(",\"raw\":\"");
            out.append(json_escape(r.raw.as_str()).as_str());
            out.append("\"}\n");
            assert(out@ =~= rendered_line(r@, format));
        },
        Format::Tagged => {
            out.append(r.source.as_str());
            push_char(&mut out, '\t');
            let ghost mid = out@;
            match r.ts {
                Some(t) => push_i64_decimal(&mut out, t),
                None => {
                    assert(out@ =~= mid + Seq::<char>::empty());
                },
            }
            push_char(&mut out, '\t');
            out.append(r.raw.as_str());
            push_char(&mut out, '\n');
            assert(out@ =~= rendered_line(r@, format));
        },
    }
    out
}

#[verifier::external_type_specification]
#[verifier::external_body]
pub struct ExIoError(std::io::Error);

/// Writes all of `s` with `std::io::Write::write_all`. Nothing is claimed
/// of the outcome, which rests on the writer.
#[verifier::external_body]
fn write_all_str<W: std::io::Write>(w: &mut W, s: &str) -> std::io::Result<()> {
    w.write_all(s.as_bytes())
}

/// Writes the line that `format` gives for `r` (see `render_record`) to `w`.
pub fn write_record<W: std::io::Write>(w: &mut W, r: &Record, format: Format) -> std::io::Result<
    (),
> {
    let line = render_record(r, format);
    write_all_str(w, line.as_str())
}

} // verus!
