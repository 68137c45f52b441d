//! Character-level helpers shared by the parsers and the output formats:
//! whitespace trimming, decimal digits, integer parsing and printing.
use vstd::prelude::*;

verus! {

/// Characters with the Unicode `White_Space` property.
pub open spec fn is_white_space(c: char) -> bool {
    let n = c as u32;
    ||| 0x09 <= n <= 0x0d
    ||| n == 0x20
    ||| n == 0x85
    ||| n == 0xa0
    ||| n == 0x1680
    ||| 0x2000 <= n <= 0x200a
    ||| n == 0x2028
    ||| n == 0x2029
    ||| n == 0x202f
    ||| n == 0x205f
    ||| n == 0x3000
}

/// `s` without its leading white space.
pub open spec fn trim_start(s: Seq<char>) -> Seq<char>
    decreases s.len(),
{
    if s.len() > 0 && is_white_space(s[0]) {
        trim_start(s.drop_first())
    } else {
        s
    }
}

/// `s` without its trailing white space.
pub open spec fn trim_end(s: Seq<char>) -> Seq<char>
    decreases s.len(),
{
    if s.len() > 0 && is_white_space(s.last()) {
        trim_end(s.drop_last())
    } else {
        s
    }
}

/// `s` without leading and trailing white space.
pub open spec fn trim(s: Seq<char>) -> Seq<char> {
    trim_end(trim_start(s))
}

/// An ASCII decimal digit.
pub open spec fn is_digit(c: char) -> bool {
    '0' <= c <= '9'
}

/// A decimal digit of any script: Unicode general category `Nd`
/// (Unicode 16.0), which the ASCII digits begin.
pub open spec fn is_decimal_number(c: char) -> bool {
    let n = c as u32;
    (0x30 <= n && n <= 0x39) || (0x660 <= n && n <= 0x669) || (0x6f0 <= n && n <= 0x6f9) ||
    (0x7c0 <= n && n <= 0x7c9) || (0x966 <= n && n <= 0x96f) || (0x9e6 <= n && n <= 0x9ef) ||
    (0xa66 <= n && n <= 0xa6f) || (0xae6 <= n && n <= 0xaef) || (0xb66 <= n && n <= 0xb6f) ||
    (0xbe6 <= n && n <= 0xbef) || (0xc66 <= n && n <= 0xc6f) || (0xce6 <= n && n <= 0xcef) ||
    (0xd66 <= n && n <= 0xd6f) || (0xde6 <= n && n <= 0xdef) || (0xe50 <= n && n <= 0xe59) ||
    (0xed0 <= n && n <= 0xed9) || (0xf20 <= n && n <= 0xf29) || (0x1040 <= n && n <= 0x1049) ||
    (0x1090 <= n && n <= 0x1099) || (0x17e0 <= n && n <= 0x17e9) ||
    (0x1810 <= n && n <= 0x1819) || (0x1946 <= n && n <= 0x194f) ||
    (0x19d0 <= n && n <= 0x19d9) || (0x1a80 <= n && n <= 0x1a89) ||
    (0x1a90 <= n && n <= 0x1a99) || (0x1b50 <= n && n <= 0x1b59) ||
    (0x1bb0 <= n && n <= 0x1bb9) || (0x1c40 <= n && n <= 0x1c49) ||
    (0x1c50 <= n && n <= 0x1c59) || (0xa620 <= n && n <= 0xa629) ||
    (0xa8d0 <= n && n <= 0xa8d9) || (0xa900 <= n && n <= 0xa909) ||
    (0xa9d0 <= n && n <= 0xa9d9) || (0xa9f0 <= n && n <= 0xa9f9) ||
    (0xaa50 <= n && n <= 0xaa59) || (0xabf0 <= n && n <= 0xabf9) ||
    (0xff10 <= n && n <= 0xff19) || (0x104a0 <= n && n <= 0x104a9) ||
    (0x10d30 <= n && n <= 0x10d39) || (0x10d40 <= n && n <= 0x10d49) ||
    (0x11066 <= n && n <= 0x1106f) || (0x110f0 <= n && n <= 0x110f9) ||
    (0x11136 <= n && n <= 0x1113f) || (0x111d0 <= n && n <= 0x111d9) ||
    (0x112f0 <= n && n <= 0x112f9) || (0x11450 <= n && n <= 0x11459) ||
    (0x114d0 <= n && n <= 0x114d9) || (0x11650 <= n && n <= 0x11659) ||
    (0x116c0 <= n && n <= 0x116c9) || (0x116d0 <= n && n <= 0x116e3) ||
    (0x11730 <= n && n <= 0x11739) || (0x118e0 <= n && n <= 0x118e9) ||
    (0x11950 <= n && n <= 0x11959) || (0x11bf0 <= n && n <= 0x11bf9) ||
    (0x11c50 <= n && n <= 0x11c59) || (0x11d50 <= n && n <= 0x11d59) ||
    (0x11da0 <= n && n <= 0x11da9) || (0x11f50 <= n && n <= 0x11f59) ||
    (0x16130 <= n && n <= 0x16139) || (0x16a60 <= n && n <= 0x16a69) ||
    (0x16ac0 <= n && n <= 0x16ac9) || (0x16b50 <= n && n <= 0x16b59) ||
    (0x16d70 <= n && n <= 0x16d79) || (0x1ccf0 <= n && n <= 0x1ccf9) ||
    (0x1d7ce <= n && n <= 0x1d7ff) || (0x1e140 <= n && n <= 0x1e149) ||
    (0x1e2f0 <= n && n <= 0x1e2f9) || (0x1e4f0 <= n && n <= 0x1e4f9) ||
    (0x1e5f1 <= n && n <= 0x1e5fa) || (0x1e950 <= n && n <= 0x1e959) ||
    (0x1fbf0 <= n && n <= 0x1fbf9)
}

/// No decimal digit is white space.
pub proof fn lemma_decimal_not_space(c: char)
    requires
        is_decimal_number(c),
    ensures
        !is_white_space(c),
{
}

/// The value of an ASCII decimal digit.
pub open spec fn digit_value(c: char) -> int {
    c as int - '0' as int
}

/// Every character of `s` is an ASCII decimal digit.
pub open spec fn all_digits(s: Seq<char>) -> bool {
    forall|i: int| 0 <= i < s.len() ==> is_digit(#[trigger] s[i])
}

/// The number that the decimal digits `s` denote (0 for no digits).
pub open spec fn digits_value(s: Seq<char>) -> int
    decreases s.len(),
{
    if s.len() == 0 {
        0
    } else {
        digits_value(s.drop_last()) * 10 + digit_value(s.last())
    }
}

/// `10` to the power `n`.
pub open spec fn pow10(n: nat) -> int
    decreases n,
{
    if n == 0 {
        1
    } else {
        10 * pow10((n - 1) as nat)
    }
}

/// What `str::parse::<i64>` gives: an optional `+` or `-` sign, then one or
/// more ASCII digits whose value fits in an `i64`.
pub open spec fn parse_i64(s: Seq<char>) -> Option<i64> {
    let signed = s.len() > 0 && (s[0] == '-' || s[0] == '+');
    let body = if signed {
        s.drop_first()
    } else {
        s
    };
    let magnitude = digits_value(body);
    let v = if signed && s[0] == '-' {
        -magnitude
    } else {
        magnitude
    };
    if body.len() > 0 && all_digits(body) && i64::MIN <= v <= i64::MAX {
        Some(v as i64)
    } else {
        None
    }
}

/// What `str::parse::<i32>` gives: as `parse_i64`, for values that fit in an `i32`.
pub open spec fn parse_i32(s: Seq<char>) -> Option<i32> {
    match parse_i64(s) {
        Some(v) => if i32::MIN <= v <= i32::MAX {
            Some(v as i32)
        } else {
            None
        },
        None => None,
    }
}

/// The decimal digit character for `d < 10`.
pub open spec fn digit_char(d: int) -> char {
    (d + '0' as int) as char
}

/// The decimal representation of a natural number, without leading zeros.
pub open spec fn nat_decimal(n: nat) -> Seq<char>
    decreases n,
{
    if n < 10 {
        seq![digit_char(n as int)]
    } else {
        nat_decimal(n / 10).push(digit_char((n % 10) as int))
    }
}

/// The decimal representation of an integer, as `to_string` writes it.
pub open spec fn int_decimal(v: int) -> Seq<char> {
    if v < 0 {
        seq!['-'] + nat_decimal((-v) as nat)
    } else {
        nat_decimal(v as nat)
    }
}

/// Appends a character to a string (`String::push`).
#[verifier::external_body]
pub(crate) fn push_char(s: &mut String, c: char)
    ensures
        final(s)@ == old(s)@.push(c),
{
    s.push(c);
}

/// Whether `c` has the Unicode `White_Space` property.
pub fn is_white_space_char(c: char) -> (b: bool)
    ensures
        b == is_white_space(c),
{
    let n = c as u32;
    (0x09 <= n && n <= 0x0d) || n == 0x20 || n == 0x85 || n == 0xa0 || n == 0x1680 || (0x2000
        <= n && n <= 0x200a) || n == 0x2028 || n == 0x2029 || n == 0x202f || n == 0x205f || n
        == 0x3000
}

/// Whether `c` is a decimal digit of any script (see `is_decimal_number`).
pub fn is_decimal_number_char(c: char) -> (b: bool)
    ensures
        b == is_decimal_number(c),
{
    let n = c as u32;
    (0x30 <= n && n <= 0x39) || (0x660 <= n && n <= 0x669) || (0x6f0 <= n && n <= 0x6f9) ||
    (0x7c0 <= n && n <= 0x7c9) || (0x966 <= n && n <= 0x96f) || (0x9e6 <= n && n <= 0x9ef) ||
    (0xa66 <= n && n <= 0xa6f) || (0xae6 <= n && n <= 0xaef) || (0xb66 <= n && n <= 0xb6f) ||
    (0xbe6 <= n && n <= 0xbef) || (0xc66 <= n && n <= 0xc6f) || (0xce6 <= n && n <= 0xcef) ||
    (0xd66 <= n && n <= 0xd6f) || (0xde6 <= n && n <= 0xdef) || (0xe50 <= n && n <= 0xe59) ||
    (0xed0 <= n && n <= 0xed9) || (0xf20 <= n && n <= 0xf29) || (0x1040 <= n && n <= 0x1049) ||
    (0x1090 <= n && n <= 0x1099) || (0x17e0 <= n && n <= 0x17e9) ||
    (0x1810 <= n && n <= 0x1819) || (0x1946 <= n && n <= 0x194f) ||
    (0x19d0 <= n && n <= 0x19d9) || (0x1a80 <= n && n <= 0x1a89) ||
    (0x1a90 <= n && n <= 0x1a99) || (0x1b50 <= n && n <= 0x1b59) ||
    (0x1bb0 <= n && n <= 0x1bb9) || (0x1c40 <= n && n <= 0x1c49) ||
    (0x1c50 <= n && n <= 0x1c59) || (0xa620 <= n && n <= 0xa629) ||
    (0xa8d0 <= n && n <= 0xa8d9) || (0xa900 <= n && n <= 0xa909) ||
    (0xa9d0 <= n && n <= 0xa9d9) || (0xa9f0 <= n && n <= 0xa9f9) ||
    (0xaa50 <= n && n <= 0xaa59) || (0xabf0 <= n && n <= 0xabf9) ||
    (0xff10 <= n && n <= 0xff19) || (0x104a0 <= n && n <= 0x104a9) ||
    (0x10d30 <= n && n <= 0x10d39) || (0x10d40 <= n && n <= 0x10d49) ||
    (0x11066 <= n && n <= 0x1106f) || (0x110f0 <= n && n <= 0x110f9) ||
    (0x11136 <= n && n <= 0x1113f) || (0x111d0 <= n && n <= 0x111d9) ||
    (0x112f0 <= n && n <= 0x112f9) || (0x11450 <= n && n <= 0x11459) ||
    (0x114d0 <= n && n <= 0x114d9) || (0x11650 <= n && n <= 0x11659) ||
    (0x116c0 <= n && n <= 0x116c9) || (0x116d0 <= n && n <= 0x116e3) ||
    (0x11730 <= n && n <= 0x11739) || (0x118e0 <= n && n <= 0x118e9) ||
    (0x11950 <= n && n <= 0x11959) || (0x11bf0 <= n && n <= 0x11bf9) ||
    (0x11c50 <= n && n <= 0x11c59) || (0x11d50 <= n && n <= 0x11d59) ||
    (0x11da0 <= n && n <= 0x11da9) || (0x11f50 <= n && n <= 0x11f59) ||
    (0x16130 <= n && n <= 0x16139) || (0x16a60 <= n && n <= 0x16a69) ||
    (0x16ac0 <= n && n <= 0x16ac9) || (0x16b50 <= n && n <= 0x16b59) ||
    (0x16d70 <= n && n <= 0x16d79) || (0x1ccf0 <= n && n <= 0x1ccf9) ||
    (0x1d7ce <= n && n <= 0x1d7ff) || (0x1e140 <= n && n <= 0x1e149) ||
    (0x1e2f0 <= n && n <= 0x1e2f9) || (0x1e4f0 <= n && n <= 0x1e4f9) ||
    (0x1e5f1 <= n && n <= 0x1e5fa) || (0x1e950 <= n && n <= 0x1e959) ||
    (0x1fbf0 <= n && n <= 0x1fbf9)
}

/// What `str::parse::<i32>` gives for `v[lo..hi]` (see `parse_i32`).
pub fn parse_i32_range(v: &Vec<char>, lo: usize, hi: usize) -> (r: Option<i32>)
    requires
        lo <= hi <= v.len(),
    ensures
        r == parse_i32(v@.subrange(lo as int, hi as int)),
{
    match parse_i64_range(v, lo, hi) {
        Some(x) => if -2147483648 <= x && x <= 2147483647 {
            Some(x as i32)
        } else {
            None
        },
        None => None,
    }
}

/// The characters of `s`, in order.
pub fn chars_of(s: &str) -> (v: Vec<char>)
    ensures
        v@ == s@,
{
    let mut v: Vec<char> = Vec::new();
    for c in it: s.chars()
        invariant
            v@ == it.seq().take(it.index() as int),
            it.seq() == s@,
    {
        v.push(c);
    }
    v
}


proof fn lemma_trim_start_shape(s: Seq<char>)
    ensures
        trim_start(s).len() > 0 ==> !is_white_space(trim_start(s)[0]),
        trim_start(s).len() <= s.len(),
        trim_start(s) == s.subrange(s.len() - trim_start(s).len(), s.len() as int),
    decreases s.len(),
{
    if s.len() > 0 && is_white_space(s[0]) {
        lemma_trim_start_shape(s.drop_first());
        let t = trim_start(s.drop_first());
        assert(s.drop_first().subrange(s.len() - 1 - t.len(), s.len() - 1) =~= s.subrange(
            s.len() - t.len(),
            s.len() as int,
        ));
    } else {
        assert(s.subrange(0, s.len() as int) =~= s);
    }
}

proof fn lemma_trim_end_shape(s: Seq<char>)
    ensures
        trim_end(s).len() > 0 ==> !is_white_space(trim_end(s).last()),
        trim_end(s) == s.take(trim_end(s).len() as int),
        trim_end(s).len() <= s.len(),
    decreases s.len(),
{
    if s.len() > 0 && is_white_space(s.last()) {
        lemma_trim_end_shape(s.drop_last());
        let t = trim_end(s.drop_last());
        assert(s.drop_last().take(t.len() as int) =~= s.take(t.len() as int));
    } else {
        assert(s.take(s.len() as int) =~= s);
    }
}

/// Trimming twice is trimming once.
pub proof fn lemma_trim_idempotent(s: Seq<char>)
    ensures
        trim(trim(s)) == trim(s),
{
    let a = trim_start(s);
    let t = trim_end(a);
    lemma_trim_start_shape(s);
    lemma_trim_end_shape(a);
    if t.len() > 0 {
        assert(t[0] == a[0]);
        assert(trim_start(t) == t);
        lemma_trim_end_shape(t);
        assert(trim_end(t) == t);
    } else {
        assert(trim_start(t) == t);
        assert(trim_end(t) == t);
    }
}

/// The characters `v[lo..hi]`.
pub fn sub_chars(v: &Vec<char>, lo: usize, hi: usize) -> (r: Vec<char>)
    requires
        lo <= hi <= v.len(),
    ensures
        r@ == v@.subrange(lo as int, hi as int),
{
    let mut r: Vec<char> = Vec::new();
    let mut i = lo;
    while i < hi
        invariant
            lo <= i <= hi <= v.len(),
            r@ == v@.subrange(lo as int, i as int),
        decreases hi - i,
    {
        r.push(v[i]);
        i += 1;
        assert(r@ =~= v@.subrange(lo as int, i as int));
    }
    r
}

/// The string made of the characters `v[lo..hi]`.
pub fn string_of(v: &Vec<char>, lo: usize, hi: usize) -> (r: String)
    requires
        lo <= hi <= v.len(),
    ensures
        r@ == v@.subrange(lo as int, hi as int),
{
    let mut r = String::new();
    let mut i = lo;
    while i < hi
        invariant
            lo <= i <= hi <= v.len(),
            r@ == v@.subrange(lo as int, i as int),
        decreases hi - i,
    {
        push_char(&mut r, v[i]);
        i += 1;
        assert(r@ =~= v@.subrange(lo as int, i as int));
    }
    r
}

/// Start and end of `trim(s@)` inside `s`.
pub fn trim_bounds(s: &Vec<char>) -> (r: (usize, usize))
    ensures
        r.0 <= r.1 <= s.len(),
        s@.subrange(r.0 as int, r.1 as int) == trim(s@),
{
    let len = s.len();
    let mut i: usize = 0;
    assert(s@.subrange(0, len as int) =~= s@);
    while i < len && is_white_space_char(s[i])
        invariant
            len == s.len(),
            i <= len,
            trim_start(s@) == trim_start(s@.subrange(i as int, len as int)),
        decreases len - i,
    {
        assert(s@.subrange(i as int, len as int).drop_first() =~= s@.subrange(
            i + 1,
            len as int,
        ));
        i += 1;
    }
    let ghost mid = s@.subrange(i as int, len as int);
    assert(trim_start(s@) == mid);
    let mut j: usize = len;
    assert(mid.subrange(0, (j - i) as int) =~= mid);
    while j > i && is_white_space_char(s[j - 1])
        invariant
            len == s.len(),
            i <= j <= len,
            mid == s@.subrange(i as int, len as int),
            trim_end(mid) == trim_end(s@.subrange(i as int, j as int)),
        decreases j,
    {
        assert(s@.subrange(i as int, j as int).drop_last() =~= s@.subrange(i as int, j - 1));
        j -= 1;
    }
    (i, j)
}

/// Decimal digits denote a non-negative number.
pub proof fn lemma_digits_value_nonneg(s: Seq<char>)
    requires
        all_digits(s),
    ensures
        digits_value(s) >= 0,
    decreases s.len(),
{
    if s.len() > 0 {
        lemma_digits_value_nonneg(s.drop_last());
    }
}

/// A prefix of a digit string denotes no more than the whole string.
pub proof fn lemma_digits_value_prefix(s: Seq<char>, i: int)
    requires
        all_digits(s),
        0 <= i <= s.len(),
    ensures
        digits_value(s.take(i)) <= digits_value(s),
    decreases s.len(),
{
    if i < s.len() {
        let p = s.drop_last();
        assert(all_digits(p));
        assert(p.take(i) =~= s.take(i));
        lemma_digits_value_prefix(p, i);
        lemma_digits_value_nonneg(p);
    } else {
        assert(s.take(i) =~= s);
    }
}

/// Digits of length `n` denote less than `10` to the power `n`.
pub proof fn lemma_digits_value_bound(s: Seq<char>)
    requires
        all_digits(s),
    ensures
        0 <= digits_value(s) < pow10(s.len()),
    decreases s.len(),
{
    if s.len() > 0 {
        assert(all_digits(s.drop_last()));
        lemma_digits_value_bound(s.drop_last());
        assert(is_digit(s[s.len() - 1]));
    }
}

/// A part of a run of digits is a run of digits.
pub proof fn lemma_all_digits_sub(s: Seq<char>, a: int, b: int, c: int, d: int)
    requires
        0 <= a <= c <= d <= b <= s.len(),
        all_digits(s.subrange(a, b)),
    ensures
        all_digits(s.subrange(c, d)),
{
    assert forall|j: int| 0 <= j < d - c implies is_digit(#[trigger] s.subrange(c, d)[j]) by {
        assert(s.subrange(c, d)[j] == s.subrange(a, b)[j + c - a]);
    }
}

/// Whether `v[lo..hi]` are all ASCII digits.
pub fn all_digits_range(v: &Vec<char>, lo: usize, hi: usize) -> (b: bool)
    requires
        lo <= hi <= v.len(),
    ensures
        b == all_digits(v@.subrange(lo as int, hi as int)),
{
    let mut i = lo;
    while i < hi
        invariant
            lo <= i <= hi <= v.len(),
            all_digits(v@.subrange(lo as int, i as int)),
        decreases hi - i,
    {
        if !('0' <= v[i] && v[i] <= '9') {
            assert(v@.subrange(lo as int, hi as int)[i - lo] == v[i as int]);
            return false;
        }
        i += 1;
        assert(all_digits(v@.subrange(lo as int, i as int))) by {
            assert forall|j: int| 0 <= j < i - lo implies is_digit(
                #[trigger] v@.subrange(lo as int, i as int)[j],
            ) by {
                if j < i - 1 - lo {
                    assert(v@.subrange(lo as int, i - 1)[j] == v@.subrange(lo as int, i as int)[j]);
                }
            }
        }
    }
    true
}

/// The number that the digits `v[lo..hi]` denote, for at most nine digits.
pub fn digits_number(v: &Vec<char>, lo: usize, hi: usize) -> (r: u32)
    requires
        lo <= hi <= v.len(),
        hi - lo <= 9,
        all_digits(v@.subrange(lo as int, hi as int)),
    ensures
        r == digits_value(v@.subrange(lo as int, hi as int)),
        r < pow10((hi - lo) as nat),
{
    let mut acc: u32 = 0;
    let mut i = lo;
    assert(v@.subrange(lo as int, lo as int) =~= Seq::<char>::empty());
    while i < hi
        invariant
            lo <= i <= hi <= v.len(),
            hi - lo <= 9,
            all_digits(v@.subrange(lo as int, hi as int)),
            acc == digits_value(v@.subrange(lo as int, i as int)),
            acc < pow10((i - lo) as nat),
        decreases hi - i,
    {
        let ghost pre = v@.subrange(lo as int, i as int);
        let ghost next = v@.subrange(lo as int, i + 1);
        assert(next.drop_last() =~= pre);
        assert(v@.subrange(lo as int, hi as int)[i - lo] == v[i as int]);
        assert(is_digit(v[i as int]));
        proof {
            lemma_pow10_monotone((i + 1 - lo) as nat, 9);
            reveal_with_fuel(pow10, 10);
        }
        let d = v[i] as u32 - '0' as u32;
        acc = acc * 10 + d;
        i += 1;
    }
    acc
}

/// Powers of ten grow with the exponent.
pub proof fn lemma_pow10_monotone(a: nat, b: nat)
    requires
        a <= b,
    ensures
        1 <= pow10(a) <= pow10(b),
    decreases b,
{
    if b > 0 {
        if a < b {
            lemma_pow10_monotone(a, (b - 1) as nat);
        }
        lemma_pow10_monotone(0, (b - 1) as nat);
    }
}

/// The integer that `v[lo..hi]` denotes, as `str::parse::<i64>` reads it.
pub fn parse_i64_range(v: &Vec<char>, lo: usize, hi: usize) -> (r: Option<i64>)
    requires
        lo <= hi <= v.len(),
    ensures
        r == parse_i64(v@.subrange(lo as int, hi as int)),
{
    let ghost s = v@.subrange(lo as int, hi as int);
    if lo == hi {
        return None;
    }
    let neg = v[lo] == '-';
    let signed = neg || v[lo] == '+';
    let start = if signed {
        lo + 1
    } else {
        lo
    };
    let ghost body = v@.subrange(start as int, hi as int);
    assert(signed ==> body =~= s.drop_first());
    assert(!signed ==> body =~= s);
    if start == hi {
        return None;
    }
    let mut acc: i64 = 0;
    let mut i: usize = start;
    assert(v@.subrange(start as int, start as int) =~= Seq::<char>::empty());
    while i < hi
        invariant
            lo <= start <= i <= hi <= v.len(),
            s == v@.subrange(lo as int, hi as int),
            body == v@.subrange(start as int, hi as int),
            body == (if signed {
                s.drop_first()
            } else {
                s
            }),
            signed == (s.len() > 0 && (s[0] == '-' || s[0] == '+')),
            neg == (signed && s[0] == '-'),
            all_digits(v@.subrange(start as int, i as int)),
            acc == (if neg {
                -digits_value(v@.subrange(start as int, i as int))
            } else {
                digits_value(v@.subrange(start as int, i as int))
            }),
        decreases hi - i,
    {
        let c = v[i];
        let ghost pre = v@.subrange(start as int, i as int);
        let ghost next = v@.subrange(start as int, i + 1);
        assert(next.drop_last() =~= pre);
        assert(body[i - start] == c);
        if !('0' <= c && c <= '9') {
            assert(!all_digits(body));
            return None;
        }
        assert(all_digits(next));
        let d = (c as u32 - '0' as u32) as i128;
        let wide: i128 = if neg {
            acc as i128 * 10 - d
        } else {
            acc as i128 * 10 + d
        };
        assert(digits_value(next) == digits_value(pre) * 10 + digit_value(c));
        assert(wide == (if neg {
            -digits_value(next)
        } else {
            digits_value(next)
        }));
        if wide < i64::MIN as i128 || wide > i64::MAX as i128 {
            proof {
                assert(next =~= body.take(i + 1 - start));
                lemma_digits_value_nonneg(next);
                if all_digits(body) {
                    lemma_digits_value_prefix(body, i + 1 - start);
                    assert(digits_value(body) >= digits_value(next));
                    if neg {
                        assert(wide < i64::MIN);
                        assert(-digits_value(body) < i64::MIN);
                    } else {
                        assert(wide > i64::MAX);
                        assert(digits_value(body) > i64::MAX);
                    }
                }
            }
            return None;
        }
        acc = wide as i64;
        i += 1;
    }
    assert(v@.subrange(start as int, i as int) =~= body);
    Some(acc)
}

/// The integer that `s` denotes, as `str::parse::<i64>` reads it.
pub fn parse_i64_str(s: &str) -> (r: Option<i64>)
    ensures
        r == parse_i64(s@),
{
    let v = chars_of(s);
    assert(v@.subrange(0, v@.len() as int) =~= v@);
    parse_i64_range(&v, 0, v.len())
}

/// The character of the decimal digit `d`.
pub fn digit_to_char(d: u64) -> (c: char)
    requires
        d < 10,
    ensures
        c == digit_char(d as int),
{
    ((d as u8) + 48u8) as char
}

/// Appends the decimal representation of `n`.
pub fn push_nat_decimal(s: &mut String, n: u64)
    ensures
        final(s)@ == old(s)@ + nat_decimal(n as nat),
    decreases n,
{
    if n >= 10 {
        push_nat_decimal(s, n / 10);
    }
    push_char(s, digit_to_char(n % 10));
    assert(n < 10 ==> nat_decimal(n as nat) =~= seq![digit_char((n % 10) as int)]);
}

/// Appends the decimal representation of `v`, with a leading `-` when negative.
pub fn push_i64_decimal(s: &mut String, v: i64)
    ensures
        final(s)@ == old(s)@ + int_decimal(v as int),
{
    if v < 0 {
        push_char(s, '-');
        let m = (0 - (v as i128)) as u64;
        push_nat_decimal(s, m);
        assert(old(s)@.push('-') + nat_decimal(m as nat) =~= old(s)@ + (seq!['-'] + nat_decimal(
            m as nat,
        )));
    } else {
        push_nat_decimal(s, v as u64);
    }
}

} // verus!
