//! Timestamps: RFC 3339 / ISO 8601 date-times and Unix seconds or
//! milliseconds, read as nanoseconds since the Unix epoch.
use vstd::prelude::*;

use crate::text::{
    all_digits, all_digits_range, chars_of, digits_number, digits_value, is_decimal_number,
    is_decimal_number_char, is_digit, is_white_space, lemma_decimal_not_space, trim_end, trim_start,
    lemma_all_digits_sub, lemma_digits_value_bound, lemma_pow10_monotone, lemma_trim_idempotent, parse_i32, parse_i32_range, parse_i64, parse_i64_range, pow10, sub_chars,
    trim, trim_bounds,
};

use crate::parser::{find_from, find_from_exec, lemma_find_from};

verus! {

// ---------------------------------------------------------------------------
// The calendar
// ---------------------------------------------------------------------------

/// A leap year of the proleptic Gregorian calendar.
pub open spec fn is_leap_year(y: int) -> bool {
    y % 4 == 0 && (y % 100 != 0 || y % 400 == 0)
}

/// The number of days of year `y`.
pub open spec fn days_in_year(y: int) -> int {
    if is_leap_year(y) {
        366
    } else {
        365
    }
}

/// The number of days from 1970-01-01 to January 1st of year `y` (negative before 1970).
pub open spec fn days_before_year(y: int) -> int
    decreases (if y >= 1970 {
        y - 1970
    } else {
        1970 - y
    }),
{
    if y > 1970 {
        days_before_year(y - 1) + days_in_year(y - 1)
    } else if y < 1970 {
        days_before_year(y + 1) - days_in_year(y)
    } else {
        0
    }
}

/// The number of days of year `y` before the first day of month `m` (1 to 12).
pub open spec fn days_before_month(y: int, m: int) -> int {
    let before: int = if m <= 1 {
        0
    } else if m == 2 {
        31
    } else if m == 3 {
        59
    } else if m == 4 {
        90
    } else if m == 5 {
        120
    } else if m == 6 {
        151
    } else if m == 7 {
        181
    } else if m == 8 {
        212
    } else if m == 9 {
        243
    } else if m == 10 {
        273
    } else if m == 11 {
        304
    } else {
        334
    };
    let leap_day: int = if m > 2 && is_leap_year(y) {
        1
    } else {
        0
    };
    before + leap_day
}

/// The number of days from 1970-01-01 to the date `y`-`m`-`d`. A day past
/// the end of its month counts on into the next one.
pub open spec fn days_since_epoch(y: int, m: int, d: int) -> int {
    days_before_year(y) + days_before_month(y, m) + d - 1
}

/// The leap years before year `y`, counted from year 0 (negative below 0).
spec fn leap_years_before(y: int) -> int {
    (y + 3) / 4 - (y + 99) / 100 + (y + 399) / 400
}

/// The day number that `days_from_civil` computes: days are counted in
/// 400-year eras of years that begin on March 1st.
spec fn civil_formula(y: int, m: int, d: int) -> int {
    let yy = if m <= 2 {
        y - 1
    } else {
        y
    };
    let era = yy / 400;
    let yoe = yy - era * 400;
    let mp = if m > 2 {
        m - 3
    } else {
        m + 9
    };
    let doy = (153 * mp + 2) / 5 + d - 1;
    let doe = yoe * 365 + yoe / 4 - yoe / 100 + doy;
    era * 146097 + doe - 719468
}

proof fn lemma_floor_step(y: int, k: int)
    requires
        k == 4 || k == 100 || k == 400,
    ensures
        (y + k) / k - (y + k - 1) / k == (if y % k == 0 {
            1int
        } else {
            0int
        }),
{
    assert((y + k) / k == y / k + 1) by (nonlinear_arith)
        requires
            k > 0,
    {
        vstd::arithmetic::div_mod::lemma_div_plus_one(y, k);
    }
    let q = y / k;
    let r = y % k;
    assert(y == q * k + r && 0 <= r < k) by {
        vstd::arithmetic::div_mod::lemma_fundamental_div_mod(y, k);
    }
    if r == 0 {
        vstd::arithmetic::div_mod::lemma_fundamental_div_mod_converse(y + k - 1, k, q, k - 1);
    } else {
        vstd::arithmetic::div_mod::lemma_fundamental_div_mod_converse(y + k - 1, k, q + 1, r - 1);
    }
}

proof fn lemma_leap_years_step(y: int)
    ensures
        leap_years_before(y + 1) == leap_years_before(y) + (if is_leap_year(y) {
            1int
        } else {
            0int
        }),
{
    lemma_floor_step(y, 4);
    lemma_floor_step(y, 100);
    lemma_floor_step(y, 400);
    assert(y % 400 == 0 ==> y % 100 == 0 && y % 4 == 0) by (nonlinear_arith);
    assert(y % 100 == 0 ==> y % 4 == 0) by (nonlinear_arith);
}

proof fn lemma_days_before_year_closed(y: int)
    ensures
        days_before_year(y) == 365 * (y - 1970) + leap_years_before(y) - 478,
    decreases (if y >= 1970 {
        y - 1970
    } else {
        1970 - y
    }),
{
    if y > 1970 {
        lemma_days_before_year_closed(y - 1);
        lemma_leap_years_step(y - 1);
    } else if y < 1970 {
        lemma_days_before_year_closed(y + 1);
        lemma_leap_years_step(y);
    } else {
        assert(leap_years_before(1970) == 478);
    }
}

proof fn lemma_era_days(yy: int)
    ensures
        ({
            let era = yy / 400;
            let yoe = yy - era * 400;
            &&& 0 <= yoe < 400
            &&& era * 146097 + yoe * 365 + yoe / 4 - yoe / 100 == 365 * yy + yy / 4 - yy / 100 + yy
                / 400
        }),
{
    let era = yy / 400;
    let yoe = yy - era * 400;
    vstd::arithmetic::div_mod::lemma_fundamental_div_mod(yy, 400);
    assert(0 <= yoe < 400);
    vstd::arithmetic::div_mod::lemma_fundamental_div_mod_converse(
        yy,
        4,
        era * 100 + yoe / 4,
        yoe % 4,
    );
    vstd::arithmetic::div_mod::lemma_fundamental_div_mod_converse(
        yy,
        100,
        era * 4 + yoe / 100,
        yoe % 100,
    );
}

/// The era-based day count equals the calendar count.
proof fn lemma_civil_formula(y: int, m: int, d: int)
    requires
        1 <= m <= 12,
    ensures
        civil_formula(y, m, d) == days_since_epoch(y, m, d),
{
    let yy = if m <= 2 {
        y - 1
    } else {
        y
    };
    lemma_era_days(yy);
    lemma_leap_years_step(yy);
    lemma_days_before_year_closed(yy);
    if m <= 2 {
        lemma_days_before_year_closed(y);
        lemma_leap_years_step(y - 1);
    }
    assert(leap_years_before(yy + 1) == yy / 4 - yy / 100 + yy / 400 + 1) by {
        lemma_floor_step(yy + 1, 4);
        lemma_floor_step(yy + 1, 100);
        lemma_floor_step(yy + 1, 400);
        vstd::arithmetic::div_mod::lemma_div_plus_one(yy, 4);
        vstd::arithmetic::div_mod::lemma_div_plus_one(yy, 100);
        vstd::arithmetic::div_mod::lemma_div_plus_one(yy, 400);
    }
}

// ---------------------------------------------------------------------------
// The accepted forms
// ---------------------------------------------------------------------------

/// `n` ASCII digits stand at `i` in `s`.
pub open spec fn digits_at(s: Seq<char>, i: int, n: int) -> bool {
    0 <= i && 0 <= n && i + n <= s.len() && all_digits(s.subrange(i, i + n))
}

/// The number that the `n` digits at `i` in `s` denote.
pub open spec fn number_at(s: Seq<char>, i: int, n: int) -> int {
    digits_value(s.subrange(i, i + n))
}

/// The length of the longest run of decimal digits of any script (see
/// `is_decimal_number`) that starts at `i` in `s`.
pub open spec fn digit_run(s: Seq<char>, i: int) -> int
    decreases s.len() - i,
{
    if 0 <= i < s.len() && is_decimal_number(s[i]) {
        1 + digit_run(s, i + 1)
    } else {
        0
    }
}

/// A `+` or `-` sign.
pub open spec fn is_sign(c: char) -> bool {
    c == '+' || c == '-'
}

/// A time zone designator: `Z`, or a sign and two-digit hours and minutes,
/// with or without a colon between them.
pub open spec fn is_tz_designator(t: Seq<char>) -> bool {
    ||| t.len() == 1 && t[0] == 'Z'
    ||| t.len() == 5 && is_sign(t[0]) && digits_at(t, 1, 4)
    ||| t.len() == 6 && is_sign(t[0]) && digits_at(t, 1, 2) && t[3] == ':' && digits_at(t, 4, 2)
}

/// The parts of a date-time as they are written.
pub struct DateTime {
    pub year: int,
    pub month: int,
    pub day: int,
    pub hour: int,
    pub minute: int,
    pub second: int,
    /// The digits after the decimal point (none when there is no fraction).
    pub frac: Seq<char>,
    /// The time zone designator, when there is one.
    pub tz: Option<Seq<char>>,
}

/// Reads `s` as `YYYY-MM-DDThh:mm:ss[.f+]TZ`. When `strict` is false the
/// date and the time may also be parted by a space and the time zone may be
/// left out. Fields are not range-checked here.
pub open spec fn match_datetime(s: Seq<char>, strict: bool) -> Option<DateTime> {
    if s.len() >= 19 && digits_at(s, 0, 4) && s[4] == '-' && digits_at(s, 5, 2) && s[7] == '-'
        && digits_at(s, 8, 2) && (s[10] == 'T' || (!strict && s[10] == ' ')) && digits_at(s, 11, 2)
        && s[13] == ':' && digits_at(s, 14, 2) && s[16] == ':' && digits_at(s, 17, 2) {
        let has_frac = s.len() > 19 && s[19] == '.';
        let k = if has_frac {
            digit_run(s, 20)
        } else {
            0
        };
        let tail_start = if has_frac {
            20 + k
        } else {
            19
        };
        let tail = s.subrange(tail_start, s.len() as int);
        let tz = if tail.len() == 0 {
            None
        } else {
            Some(tail)
        };
        if has_frac && k == 0 {
            None
        } else if tail.len() == 0 && strict {
            None
        } else if tail.len() != 0 && !is_tz_designator(tail) {
            None
        } else {
            Some(
                DateTime {
                    year: number_at(s, 0, 4),
                    month: number_at(s, 5, 2),
                    day: number_at(s, 8, 2),
                    hour: number_at(s, 11, 2),
                    minute: number_at(s, 14, 2),
                    second: number_at(s, 17, 2),
                    frac: if has_frac {
                        s.subrange(20, 20 + k)
                    } else {
                        Seq::empty()
                    },
                    tz,
                },
            )
        }
    } else {
        None
    }
}

/// The offset from UTC, in seconds, that a time zone designator states.
pub open spec fn tz_offset_secs(t: Seq<char>) -> int {
    if t.len() == 1 {
        0
    } else {
        let magnitude = number_at(t, 1, 2) * 3600 + number_at(t, t.len() - 2, 2) * 60;
        if t[0] == '+' {
            magnitude
        } else {
            -magnitude
        }
    }
}

/// `v` fits in an `i32`.
pub open spec fn in_i32(v: int) -> bool {
    i32::MIN <= v <= i32::MAX
}

/// The hours and minutes that the text `t` after its sign states: parted by
/// the first `:` (the minutes running to the next `:` or the end), or else
/// the first two characters and the rest; each read as `str::parse::<i32>`.
pub open spec fn tz_hours_minutes(t: Seq<char>) -> Option<(i32, i32)> {
    let c = find_from(t, 1, ':');
    let parts = if c < t.len() {
        (parse_i32(t.subrange(1, c)), parse_i32(t.subrange(c + 1, find_from(t, c + 1, ':'))))
    } else if t.len() < 3 {
        (None, None)
    } else {
        (parse_i32(t.subrange(1, 3)), parse_i32(t.subrange(3, t.len() as int)))
    };
    match parts {
        (Some(h), Some(m)) => Some((h, m)),
        _ => None,
    }
}

/// The offset from UTC, in seconds, that the text `t` of a time zone states:
/// `0` for `Z`; for a `+` or `-` followed by hours and minutes (see
/// `tz_hours_minutes`), the sign times `hours * 3600 + minutes * 60`;
/// `None` for any other text, or when a step of that sum leaves `i32`.
pub open spec fn tz_offset(t: Seq<char>) -> Option<i32> {
    if t == seq!['Z'] {
        Some(0)
    } else if t.len() == 0 || !is_sign(t[0]) {
        None
    } else {
        match tz_hours_minutes(t) {
            Some((h, m)) => {
                let magnitude = h * 3600 + m * 60;
                let v = if t[0] == '+' {
                    magnitude
                } else {
                    -magnitude
                };
                if in_i32(h * 3600) && in_i32(m * 60) && in_i32(magnitude) && in_i32(v) {
                    Some(v as i32)
                } else {
                    None
                }
            },
            None => None,
        }
    }
}

/// Of a designator, the offset reader gives the offset that the designator states.
proof fn lemma_tz_offset_of_designator(t: Seq<char>)
    requires
        is_tz_designator(t),
    ensures
        tz_offset(t) == Some(tz_offset_secs(t) as i32),
        -362_340 <= tz_offset_secs(t) <= 362_340,
{
    if t.len() == 1 {
        assert(t =~= seq!['Z']);
    } else {
        let hh = t.subrange(1, 3);
        let mm = t.subrange(t.len() - 2, t.len() as int);
        let c = find_from(t, 1, ':');
        if t.len() == 5 {
            lemma_all_digits_sub(t, 1, 5, 1, 3);
            lemma_all_digits_sub(t, 1, 5, 3, 5);
            assert(is_digit(t.subrange(1, 5)[0]) && t.subrange(1, 5)[0] == t[1]);
            assert(is_digit(t.subrange(1, 5)[1]) && t.subrange(1, 5)[1] == t[2]);
            assert(is_digit(t.subrange(1, 5)[2]) && t.subrange(1, 5)[2] == t[3]);
            assert(is_digit(t.subrange(1, 5)[3]) && t.subrange(1, 5)[3] == t[4]);
            assert(find_from(t, 5, ':') == 5);
            assert(find_from(t, 4, ':') == 5);
            assert(find_from(t, 3, ':') == 5);
            assert(find_from(t, 2, ':') == 5);
            assert(c == 5);
            assert(tz_hours_minutes(t) == (match (parse_i32(hh), parse_i32(mm)) {
                (Some(h), Some(m)) => Some((h, m)),
                _ => None,
            }));
        } else {
            assert(is_digit(hh[0]) && hh[0] == t[1]);
            assert(is_digit(hh[1]) && hh[1] == t[2]);
            assert(find_from(t, 3, ':') == 3);
            assert(find_from(t, 2, ':') == 3);
            assert(c == 3);
            assert(find_from(t, 6, ':') == 6);
            assert(is_digit(mm[0]) && mm[0] == t[4]);
            assert(is_digit(mm[1]) && mm[1] == t[5]);
            assert(find_from(t, 5, ':') == 6);
            assert(find_from(t, 4, ':') == 6);
            assert(t.subrange(c + 1, 6) == mm);
            assert(tz_hours_minutes(t) == (match (parse_i32(hh), parse_i32(mm)) {
                (Some(h), Some(m)) => Some((h, m)),
                _ => None,
            }));
        }
        lemma_digits_value_bound(hh);
        lemma_digits_value_bound(mm);
        reveal_with_fuel(pow10, 3);
        assert(!(hh[0] == '-' || hh[0] == '+'));
        assert(!(mm[0] == '-' || mm[0] == '+'));
        assert(parse_i64(hh) == Some(digits_value(hh) as i64));
        assert(parse_i64(mm) == Some(digits_value(mm) as i64));
        assert(parse_i32(hh) == Some(digits_value(hh) as i32));
        assert(parse_i32(mm) == Some(digits_value(mm) as i32));
        assert(number_at(t, 1, 2) == digits_value(hh));
        assert(number_at(t, t.len() - 2, 2) == digits_value(mm));
    }
}

/// The fraction digits that count: the first nine; those past the ninth are dropped.
pub open spec fn frac_kept(frac: Seq<char>) -> Seq<char> {
    if frac.len() <= 9 {
        frac
    } else {
        frac.take(9)
    }
}

/// The nanoseconds that fraction digits denote; digits past the ninth are dropped.
pub open spec fn frac_nanos(frac: Seq<char>) -> int {
    digits_value(frac_kept(frac)) * pow10((9 - frac_kept(frac).len()) as nat)
}

/// `v` fits in an `i64`.
pub open spec fn in_i64(v: int) -> bool {
    i64::MIN <= v <= i64::MAX
}

/// Nanoseconds since the epoch of a date-time read by `match_datetime`:
/// `None` when one of the fraction digits that count is not an ASCII digit,
/// when the month or the day is out of range, when the time zone is required
/// and missing, or when the result does not fit in an `i64`. A missing time
/// zone means UTC.
pub open spec fn datetime_nanos(dt: DateTime, require_tz: bool) -> Option<i64> {
    let offset = match dt.tz {
        Some(t) => tz_offset_secs(t),
        None => 0,
    };
    let secs = days_since_epoch(dt.year, dt.month, dt.day) * 86400 + dt.hour * 3600 + dt.minute
        * 60 + dt.second - offset;
    let whole = secs * 1_000_000_000;
    let nanos = whole + frac_nanos(dt.frac);
    if !all_digits(frac_kept(dt.frac)) {
        None
    } else if require_tz && dt.tz is None {
        None
    } else if !(1 <= dt.month <= 12 && 1 <= dt.day <= 31) {
        None
    } else if !in_i64(whole) || !in_i64(nanos) {
        None
    } else {
        Some(nanos as i64)
    }
}

/// An RFC 3339 date-time: `T` between date and time, time zone required.
pub open spec fn rfc3339_nanos(s: Seq<char>) -> Option<i64> {
    match match_datetime(s, true) {
        Some(dt) => datetime_nanos(dt, true),
        None => None,
    }
}

/// An ISO 8601 date-time: `T` or space between date and time, time zone optional.
pub open spec fn iso8601_nanos(s: Seq<char>) -> Option<i64> {
    match match_datetime(s, false) {
        Some(dt) => datetime_nanos(dt, false),
        None => None,
    }
}

/// `v * factor`, or `i64::MAX` when that is larger (`v` and `factor` non-negative).
pub open spec fn saturating_product(v: int, factor: int) -> i64 {
    if v * factor > i64::MAX {
        i64::MAX
    } else {
        (v * factor) as i64
    }
}

/// What `parse_timestamp` reads from `s`: after trimming white space, an
/// RFC 3339 date-time, else an ISO 8601 date-time, else ten digits of Unix
/// seconds, else thirteen digits of Unix milliseconds, in nanoseconds.
pub open spec fn timestamp_nanos(s: Seq<char>) -> Option<i64> {
    let t = trim(s);
    if t.len() == 0 {
        None
    } else if rfc3339_nanos(t) is Some {
        rfc3339_nanos(t)
    } else if iso8601_nanos(t) is Some {
        iso8601_nanos(t)
    } else if t.len() == 10 && all_digits(t) {
        Some(saturating_product(digits_value(t), 1_000_000_000))
    } else if t.len() == 13 && all_digits(t) {
        Some(saturating_product(digits_value(t), 1_000_000))
    } else {
        None
    }
}


/// Law: white space around a timestamp does not change what it reads as.
pub proof fn law_timestamp_ignores_surrounding_white_space(s: Seq<char>)
    ensures
        timestamp_nanos(s) == timestamp_nanos(trim(s)),
{
    lemma_trim_idempotent(s);
}

proof fn lemma_digit_run_push(s: Seq<char>, c: char, i: int)
    requires
        0 <= i <= s.len(),
        !is_decimal_number(c),
    ensures
        digit_run(s.push(c), i) == digit_run(s, i),
    decreases s.len() - i,
{
    if i < s.len() {
        assert(s.push(c)[i] == s[i]);
        if is_decimal_number(s[i]) {
            lemma_digit_run_push(s, c, i + 1);
        }
    } else {
        assert(s.push(c)[i] == c);
    }
}

/// Law: a date-time written without a time zone reads as the same instant
/// as when it is followed by `Z`: a missing zone means UTC.
pub proof fn law_missing_zone_is_utc(s: Seq<char>)
    requires
        match_datetime(s, false) matches Some(dt) && dt.tz is None,
    ensures
        iso8601_nanos(s) == iso8601_nanos(s.push('Z')),
{
    let z = s.push('Z');
    let dt = match_datetime(s, false).unwrap();
    assert forall|i: int, n: int|
        0 <= i && 0 <= n && i + n <= s.len() implies #[trigger] z.subrange(i, i + n)
        == s.subrange(i, i + n) by {
        assert(z.subrange(i, i + n) =~= s.subrange(i, i + n));
    }
    assert(z.subrange(0, 4) == s.subrange(0, 4));
    assert(z.subrange(5, 7) == s.subrange(5, 7));
    assert(z.subrange(8, 10) == s.subrange(8, 10));
    assert(z.subrange(11, 13) == s.subrange(11, 13));
    assert(z.subrange(14, 16) == s.subrange(14, 16));
    assert(z.subrange(17, 19) == s.subrange(17, 19));
    let has_frac = s.len() > 19 && s[19] == '.';
    if has_frac {
        lemma_digit_run_push(s, 'Z', 20);
        lemma_digit_run(s, 20);
        let k = digit_run(s, 20);
        assert(20 + k == s.len());
        assert(z.subrange(20, 20 + k) == s.subrange(20, 20 + k));
        assert(z.subrange(20 + k, z.len() as int) =~= seq!['Z']);
    } else {
        assert(z.subrange(19, z.len() as int) =~= seq!['Z']);
    }
    let dz = match_datetime(z, false).unwrap();
    assert(dz.tz == Some(seq!['Z']));
    assert(dz.frac == dt.frac);
    assert(tz_offset_secs(seq!['Z']) == 0);
}

/// Law: the ISO 8601 reading extends the RFC 3339 one: a text that reads as
/// an RFC 3339 date-time reads as the same instant under ISO 8601.
pub proof fn law_rfc3339_is_iso8601(s: Seq<char>)
    requires
        rfc3339_nanos(s) is Some,
    ensures
        iso8601_nanos(s) == rfc3339_nanos(s),
{
    let dt = match_datetime(s, true).unwrap();
    assert(match_datetime(s, false) == Some(dt));
}

proof fn lemma_digit_run_append(s: Seq<char>, t: Seq<char>, i: int)
    requires
        0 <= i <= s.len(),
        t.len() > 0,
        !is_decimal_number(t[0]),
    ensures
        digit_run(s + t, i) == digit_run(s, i),
    decreases s.len() - i,
{
    if i < s.len() {
        assert((s + t)[i] == s[i]);
        if is_decimal_number(s[i]) {
            lemma_digit_run_append(s, t, i + 1);
        }
    } else {
        assert((s + t)[i] == t[0]);
    }
}

/// A text that reads as a date-time (in the ISO 8601 sense) reads as a
/// timestamp exactly as the ISO 8601 reading says.
proof fn lemma_datetime_text_reading(x: Seq<char>)
    requires
        match_datetime(x, false) is Some,
    ensures
        timestamp_nanos(x) == iso8601_nanos(x),
{
    let dt = match_datetime(x, false).unwrap();
    let has_frac = x.len() > 19 && x[19] == '.';
    if has_frac {
        lemma_digit_run(x, 20);
    }
    let k: int = if has_frac { digit_run(x, 20) } else { 0 };
    let tail_start: int = if has_frac { 20 + k } else { 19 };
    assert(is_digit(x.subrange(0, 4)[0]));
    assert(!is_white_space(x[0]));
    if tail_start == x.len() {
        if has_frac {
            assert(x.subrange(20, 20 + k)[k - 1] == x.last());
            lemma_decimal_not_space(x.last());
        } else {
            assert(is_digit(x.subrange(17, 19)[1]));
        }
    } else {
        let tail = x.subrange(tail_start, x.len() as int);
        assert(tail.last() == x.last());
        if tail.len() == 5 {
            assert(is_digit(tail.subrange(1, 5)[3]));
        } else if tail.len() == 6 {
            assert(is_digit(tail.subrange(4, 6)[1]));
        }
    }
    assert(!is_white_space(x.last()));
    assert(trim_start(x) == x);
    assert(trim_end(x) == x);
    if rfc3339_nanos(x) is Some {
        law_rfc3339_is_iso8601(x);
    } else if iso8601_nanos(x) is None {
        assert(rfc3339_nanos(x) is None);
    }
}

/// Law: a time zone designator moves the instant of a date-time written
/// without one by its offset: with `Z`, `±hh:mm` or `±hhmm` appended, the
/// text reads as the zone-less instant less the offset (`tz_offset_secs`:
/// the sign times `hh` hours and `mm` minutes), provided that result and its
/// whole seconds (the result less the fraction's `f` nanoseconds) fit in an
/// `i64`; otherwise it does not read.
pub proof fn law_zone_offset_shifts_instant(s: Seq<char>, t: Seq<char>, n: i64)
    requires
        match_datetime(s, false) matches Some(dt) && dt.tz is None,
        is_tz_designator(t),
        timestamp_nanos(s) == Some(n),
    ensures
        ({
            let shifted = n - tz_offset_secs(t) * 1_000_000_000;
            let f = frac_nanos(match_datetime(s, false).unwrap().frac);
            timestamp_nanos(s + t) == if in_i64(shifted - f) && in_i64(shifted) {
                Some(shifted as i64)
            } else {
                None
            }
        }),
{
    let z = s + t;
    let dt = match_datetime(s, false).unwrap();
    lemma_datetime_text_reading(s);
    assert forall|i: int, m: int|
        0 <= i && 0 <= m && i + m <= s.len() implies #[trigger] z.subrange(i, i + m)
        == s.subrange(i, i + m) by {
        assert(z.subrange(i, i + m) =~= s.subrange(i, i + m));
    }
    assert(z.subrange(0, 4) == s.subrange(0, 4));
    assert(z.subrange(5, 7) == s.subrange(5, 7));
    assert(z.subrange(8, 10) == s.subrange(8, 10));
    assert(z.subrange(11, 13) == s.subrange(11, 13));
    assert(z.subrange(14, 16) == s.subrange(14, 16));
    assert(z.subrange(17, 19) == s.subrange(17, 19));
    assert(!is_decimal_number(t[0]));
    let has_frac = s.len() > 19 && s[19] == '.';
    if has_frac {
        assert(z[19] == s[19]);
        lemma_digit_run_append(s, t, 20);
        lemma_digit_run(s, 20);
        let k = digit_run(s, 20);
        assert(20 + k == s.len());
        assert(z.subrange(20, 20 + k) == s.subrange(20, 20 + k));
        assert(z.subrange(20 + k, z.len() as int) =~= t);
    } else {
        assert(s.len() == 19);
        assert(z[19] == t[0]);
        assert(z.subrange(19, z.len() as int) =~= t);
    }
    let dz = match_datetime(z, false).unwrap();
    assert(dz.tz == Some(t));
    assert(dz.frac == dt.frac);
    lemma_datetime_text_reading(z);
}

// ---------------------------------------------------------------------------
// Reading
// ---------------------------------------------------------------------------

/// Where the parts of a date-time stand in the text.
struct DateTimeCaptures {
    year: i32,
    month: u32,
    day: u32,
    hour: u32,
    minute: u32,
    second: u32,
    frac_start: usize,
    frac_end: usize,
    /// The time zone designator runs from here to the end; none when this is the end.
    tz_start: usize,
}

/// `c` holds the parts `dt` of the text `t`.
spec fn captures_match(t: Seq<char>, c: DateTimeCaptures, dt: DateTime) -> bool {
    &&& c.year == dt.year
    &&& c.month == dt.month
    &&& c.day == dt.day
    &&& c.hour == dt.hour
    &&& c.minute == dt.minute
    &&& c.second == dt.second
    &&& 0 <= dt.year <= 9999
    &&& c.frac_start <= c.frac_end <= t.len()
    &&& t.subrange(c.frac_start as int, c.frac_end as int) == dt.frac
    &&& c.tz_start <= t.len()
    &&& dt.tz == (if c.tz_start < t.len() {
        Some(t.subrange(c.tz_start as int, t.len() as int))
    } else {
        None
    })
    &&& (dt.tz matches Some(z) ==> is_tz_designator(z))
}

/// Whether `n` digits stand at `i` in `t`.
fn digits_at_exec(t: &Vec<char>, i: usize, n: usize) -> (b: bool)
    ensures
        b == digits_at(t@, i as int, n as int),
{
    if i > t.len() || n > t.len() - i {
        return false;
    }
    all_digits_range(t, i, i + n)
}

/// The number that the `n` (at most four) digits at `i` denote.
fn number_at_exec(t: &Vec<char>, i: usize, n: usize) -> (r: u32)
    requires
        digits_at(t@, i as int, n as int),
        n <= 4,
    ensures
        r == number_at(t@, i as int, n as int),
        r < 10000,
{
    proof {
        lemma_pow10_monotone(n as nat, 4);
        reveal_with_fuel(pow10, 5);
    }
    assert(i + n <= t.len());
    digits_number(t, i, i + n)
}

proof fn lemma_digit_run(s: Seq<char>, i: int)
    requires
        0 <= i <= s.len(),
    ensures
        0 <= digit_run(s, i) <= s.len() - i,
        forall|j: int|
            0 <= j < digit_run(s, i) ==> is_decimal_number(#[trigger] s.subrange(i, i + digit_run(s, i))[j]),
        i + digit_run(s, i) < s.len() ==> !is_decimal_number(s[i + digit_run(s, i)]),
    decreases s.len() - i,
{
    if i < s.len() && is_decimal_number(s[i]) {
        lemma_digit_run(s, i + 1);
        let k = digit_run(s, i + 1);
        assert forall|j: int| 0 <= j < 1 + k implies is_decimal_number(
            #[trigger] s.subrange(i, i + 1 + k)[j],
        ) by {
            if j > 0 {
                assert(s.subrange(i, i + 1 + k)[j] == s.subrange(i + 1, i + 1 + k)[j - 1]);
            }
        }
    }
}

/// The length of the run of decimal digits (of any script) that starts at `i`.
fn digit_run_exec(t: &Vec<char>, i: usize) -> (k: usize)
    requires
        i <= t.len(),
    ensures
        k == digit_run(t@, i as int),
{
    let mut j = i;
    while j < t.len() && is_decimal_number_char(t[j])
        invariant
            i <= j <= t.len(),
            digit_run(t@, i as int) == (j - i) + digit_run(t@, j as int),
        decreases t.len() - j,
    {
        j += 1;
    }
    j - i
}

/// Whether `t[i..]` is a time zone designator.
fn is_tz_designator_exec(t: &Vec<char>, i: usize) -> (b: bool)
    requires
        i <= t.len(),
    ensures
        b == is_tz_designator(t@.subrange(i as int, t.len() as int)),
{
    let ghost z = t@.subrange(i as int, t.len() as int);
    let n = t.len() - i;
    if n == 1 {
        return t[i] == 'Z';
    }
    if n != 5 && n != 6 {
        return false;
    }
    if !(t[i] == '+' || t[i] == '-') {
        return false;
    }
    assert(forall|a: int, m: int|
        0 <= a && 0 <= m && a + m <= z.len() ==> #[trigger] z.subrange(a, a + m) == t@.subrange(
            i + a,
            i + a + m,
        ));
    if n == 5 {
        digits_at_exec(t, i + 1, 4)
    } else {
        digits_at_exec(t, i + 1, 2) && t[i + 3] == ':' && digits_at_exec(t, i + 4, 2)
    }
}

/// Reads `t` as a date-time (see `match_datetime`).
fn match_datetime_exec(t: &Vec<char>, strict: bool) -> (r: Option<DateTimeCaptures>)
    ensures
        match r {
            Some(c) => match match_datetime(t@, strict) {
                Some(dt) => captures_match(t@, c, dt),
                None => false,
            },
            None => match_datetime(t@, strict) is None,
        },
{
    let len = t.len();
    if !(len >= 19 && digits_at_exec(t, 0, 4) && t[4] == '-' && digits_at_exec(t, 5, 2) && t[7]
        == '-' && digits_at_exec(t, 8, 2) && (t[10] == 'T' || (!strict && t[10] == ' '))
        && digits_at_exec(t, 11, 2) && t[13] == ':' && digits_at_exec(t, 14, 2) && t[16] == ':'
        && digits_at_exec(t, 17, 2)) {
        return None;
    }
    let has_frac = len > 19 && t[19] == '.';
    let k = if has_frac {
        digit_run_exec(t, 20)
    } else {
        0
    };
    proof {
        if has_frac {
            lemma_digit_run(t@, 20);
        }
    }
    let tail_start = if has_frac {
        20 + k
    } else {
        19
    };
    if has_frac && k == 0 {
        return None;
    }
    if tail_start == len && strict {
        return None;
    }
    if tail_start < len && !is_tz_designator_exec(t, tail_start) {
        return None;
    }
    let year = number_at_exec(t, 0, 4);
    let c = DateTimeCaptures {
        year: year as i32,
        month: number_at_exec(t, 5, 2),
        day: number_at_exec(t, 8, 2),
        hour: number_at_exec(t, 11, 2),
        minute: number_at_exec(t, 14, 2),
        second: number_at_exec(t, 17, 2),
        frac_start: if has_frac {
            20
        } else {
            19
        },
        frac_end: if has_frac {
            20 + k
        } else {
            19
        },
        tz_start: tail_start,
    };
    proof {
        let dt = match_datetime(t@, strict).unwrap();
        lemma_digits_value_bound(t@.subrange(0, 4));
        if !has_frac {
            assert(t@.subrange(19, 19) =~= Seq::<char>::empty());
        }
        assert(captures_match(t@, c, dt));
    }
    Some(c)
}

/// The nanoseconds that the fraction digits `t[lo..hi]` denote; `None` when
/// one of the digits that count is not an ASCII digit.
fn parse_fraction_nanos(t: &Vec<char>, lo: usize, hi: usize) -> (r: Option<u32>)
    requires
        lo <= hi <= t.len(),
    ensures
        match r {
            Some(v) => all_digits(frac_kept(t@.subrange(lo as int, hi as int))) && v == frac_nanos(
                t@.subrange(lo as int, hi as int),
            ) && v < 1_000_000_000,
            None => !all_digits(frac_kept(t@.subrange(lo as int, hi as int))),
        },
{
    let ghost frac = t@.subrange(lo as int, hi as int);
    let digits = if hi - lo < 9 {
        hi - lo
    } else {
        9
    };
    let ghost kept = frac_kept(frac);
    assert(kept =~= t@.subrange(lo as int, (lo + digits) as int));
    if !all_digits_range(t, lo, lo + digits) {
        return None;
    }
    let mut v = digits_number(t, lo, lo + digits);
    let mut k = digits;
    assert(pow10(0) == 1);
    while k < 9
        invariant
            digits <= k <= 9,
            v == digits_value(kept) * pow10((k - digits) as nat),
            v < pow10(k as nat),
        decreases 9 - k,
    {
        proof {
            lemma_pow10_monotone((k + 1) as nat, 9);
            reveal_with_fuel(pow10, 10);
            let p = pow10((k - digits) as nat);
            assert(pow10((k + 1 - digits) as nat) == 10 * p);
            assert(digits_value(kept) * (10 * p) == (digits_value(kept) * p) * 10) by (
            nonlinear_arith);
        }
        v = v * 10;
        k += 1;
    }
    proof {
        reveal_with_fuel(pow10, 10);
    }
    Some(v)
}

/// The offset from UTC, in seconds, that the text `t[i..]` states (see
/// `tz_offset`): `None` unless it is `Z` or a sign with hours and minutes.
#[verifier::rlimit(40)]
fn tz_offset_at(t: &Vec<char>, i: usize) -> (r: Option<i32>)
    requires
        i <= t.len(),
    ensures
        r == tz_offset(t@.subrange(i as int, t.len() as int)),
{
    let z = sub_chars(t, i, t.len());
    let n = z.len();
    proof {
        reveal_strlit("Z");
    }
    if n == 1 && z[0] == 'Z' {
        assert(z@ =~= seq!['Z']);
        return Some(0);
    }
    if n == 0 || !(z[0] == '+' || z[0] == '-') {
        return None;
    }
    let c = find_from_exec(&z, 1, ':');
    proof {
        lemma_find_from(z@, 1, ':');
    }
    let (h, m) = if c < n {
        let c2 = find_from_exec(&z, c + 1, ':');
        proof {
            lemma_find_from(z@, c + 1, ':');
        }
        (parse_i32_range(&z, 1, c), parse_i32_range(&z, c + 1, c2))
    } else if n < 3 {
        (None, None)
    } else {
        (parse_i32_range(&z, 1, 3), parse_i32_range(&z, 3, n))
    };
    let (h, m) = match (h, m) {
        (Some(h), Some(m)) => (h, m),
        _ => {
            return None;
        },
    };
    let hs = match h.checked_mul(3600) {
        Some(x) => x,
        None => {
            return None;
        },
    };
    let ms = match m.checked_mul(60) {
        Some(x) => x,
        None => {
            return None;
        },
    };
    let magnitude = match hs.checked_add(ms) {
        Some(x) => x,
        None => {
            return None;
        },
    };
    if z[0] == '+' {
        Some(magnitude)
    } else {
        magnitude.checked_mul(-1)
    }
}

/// The offset from UTC, in seconds, that the time zone text `tz` states:
/// `Some(0)` for `Z`; for a `+` or `-` followed by hours and minutes
/// (`hh:mm`, or the first two characters and the rest) the signed offset;
/// `None` for any other text (see `tz_offset`).
pub fn parse_tz_offset(tz: &str) -> (r: Option<i32>)
    ensures
        r == tz_offset(tz@),
{
    let v = chars_of(tz);
    assert(v@.subrange(0, v@.len() as int) =~= tz@);
    tz_offset_at(&v, 0)
}

/// Days from 1970-01-01 to `year`-`month`-`day`; `None` for a month outside
/// 1 to 12 or a day outside 1 to 31.
fn days_from_civil(year: i32, month: u32, day: u32) -> (r: Option<i32>)
    requires
        0 <= year <= 9999,
    ensures
        r is Some <==> 1 <= month <= 12 && 1 <= day <= 31,
        r matches Some(d) ==> d == days_since_epoch(year as int, month as int, day as int),
        r matches Some(d) ==> -1_000_000 <= d <= 3_000_000,
{
    if !(1 <= month && month <= 12) || !(1 <= day && day <= 31) {
        return None;
    }
    let y = if month <= 2 {
        year - 1
    } else {
        year
    };
    let era = if y >= 0 {
        y / 400
    } else {
        (y - 399) / 400
    };
    assert(era == y / 400);
    let yoe = (y - era * 400) as u32;
    let mp = if month > 2 {
        month - 3
    } else {
        month + 9
    };
    let doy = (153 * mp + 2) / 5 + day - 1;
    let doe = yoe * 365 + yoe / 4 - yoe / 100 + doy;
    proof {
        lemma_civil_formula(year as int, month as int, day as int);
    }
    Some(era * 146097 + doe as i32 - 719468)
}

/// Nanoseconds since the epoch of the date-time held by `c` (see `datetime_nanos`).
fn datetime_to_nanos(
    t: &Vec<char>,
    c: &DateTimeCaptures,
    require_tz: bool,
    Ghost(dt): Ghost<DateTime>,
) -> (r: Option<i64>)
    requires
        captures_match(t@, *c, dt),
    ensures
        r == datetime_nanos(dt, require_tz),
{
    let frac = match parse_fraction_nanos(t, c.frac_start, c.frac_end) {
        Some(f) => f,
        None => {
            return None;
        },
    };
    let has_tz = c.tz_start < t.len();
    if require_tz && !has_tz {
        return None;
    }
    let offset_secs: i32 = if has_tz {
        proof {
            lemma_tz_offset_of_designator(t@.subrange(c.tz_start as int, t.len() as int));
        }
        match tz_offset_at(t, c.tz_start) {
            Some(o) => o,
            None => {
                return None;
            },
        }
    } else {
        0
    };
    let days = match days_from_civil(c.year, c.month, c.day) {
        Some(d) => d,
        None => {
            return None;
        },
    };
    let local_secs = days as i64 * 86400 + c.hour as i64 * 3600 + c.minute as i64 * 60
        + c.second as i64;
    let utc_secs = local_secs - offset_secs as i64;
    let whole = match utc_secs.checked_mul(1_000_000_000) {
        Some(w) => w,
        None => {
            return None;
        },
    };
    match whole.checked_add(frac as i64) {
        Some(n) => Some(n),
        None => None,
    }
}

/// An RFC 3339 date-time (see `rfc3339_nanos`).
fn parse_rfc3339(t: &Vec<char>) -> (r: Option<i64>)
    ensures
        r == rfc3339_nanos(t@),
{
    match match_datetime_exec(t, true) {
        Some(c) => datetime_to_nanos(t, &c, true, Ghost(match_datetime(t@, true).unwrap())),
        None => None,
    }
}

/// An ISO 8601 date-time (see `iso8601_nanos`).
fn parse_iso8601(t: &Vec<char>) -> (r: Option<i64>)
    ensures
        r == iso8601_nanos(t@),
{
    match match_datetime_exec(t, false) {
        Some(c) => datetime_to_nanos(t, &c, false, Ghost(match_datetime(t@, false).unwrap())),
        None => None,
    }
}

/// `v * factor`, or `i64::MAX` when that overflows (`i64::saturating_mul`
/// for non-negative operands).
fn saturating_mul_nonneg(v: i64, factor: i64) -> (r: i64)
    requires
        v >= 0,
        factor > 0,
    ensures
        r == saturating_product(v as int, factor as int),
{
    match v.checked_mul(factor) {
        Some(p) => p,
        None => {
            assert(v * factor >= 0) by (nonlinear_arith)
                requires
                    v >= 0,
                    factor > 0,
            ;
            i64::MAX
        },
    }
}

/// A Unix time of `t.len()` digits (ten or thirteen), scaled by `factor`.
fn parse_unix(t: &Vec<char>, factor: i64) -> (r: Option<i64>)
    requires
        t.len() == 10 || t.len() == 13,
        all_digits(t@),
        factor > 0,
    ensures
        r == Some(saturating_product(digits_value(t@), factor as int)),
{
    assert(t@.subrange(0, t.len() as int) =~= t@);
    proof {
        lemma_digits_value_bound(t@);
        lemma_pow10_monotone(t.len() as nat, 13);
        reveal_with_fuel(pow10, 14);
        assert(!(t@[0] == '-' || t@[0] == '+'));
    }
    match parse_i64_range(t, 0, t.len()) {
        Some(v) => Some(saturating_mul_nonneg(v, factor)),
        None => None,
    }
}

/// Parse a timestamp string into nanoseconds since the Unix epoch.
///
/// After trimming white space, accepts an RFC 3339 date-time
/// (`2024-01-15T10:30:00Z`, fractions and `±hh:mm` offsets allowed), an ISO
/// 8601 date-time with a space separator or no time zone (taken as UTC),
/// ten digits of Unix seconds or thirteen of Unix milliseconds.
///
/// Only ASCII digits are read as numbers. The fraction's digit run may go on
/// with decimal digits of other scripts past its ninth digit, where digits
/// are dropped; anywhere else such a digit makes the text unreadable (`None`).
pub fn parse_timestamp(s: &str) -> (r: Option<i64>)
    ensures
        r == timestamp_nanos(s@),
{
    let chars = chars_of(s);
    let (lo, hi) = trim_bounds(&chars);
    let t = sub_chars(&chars, lo, hi);
    if t.len() == 0 {
        return None;
    }
    if let Some(nanos) = parse_rfc3339(&t) {
        return Some(nanos);
    }
    if let Some(nanos) = parse_iso8601(&t) {
        return Some(nanos);
    }
    if t.len() == 10 && all_digits_range(&t, 0, 10) {
        assert(t@.subrange(0, 10) =~= t@);
        return parse_unix(&t, 1_000_000_000);
    }
    if t.len() == 13 && all_digits_range(&t, 0, 13) {
        assert(t@.subrange(0, 13) =~= t@);
        return parse_unix(&t, 1_000_000);
    }
    proof {
        if t.len() == 10 {
            assert(t@.subrange(0, 10) =~= t@);
        }
        if t.len() == 13 {
            assert(t@.subrange(0, 13) =~= t@);
        }
    }
    None
}

} // verus!
