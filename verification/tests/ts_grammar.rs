//! The timestamp reader against the same grammar written as regular
//! expressions, on many generated inputs, some with decimal digits of other
//! scripts (which `\d` matches and `str::parse` rejects).
use logmix::ts::parse_timestamp;
use regex::Regex;

struct Patterns {
    secs: Regex,
    millis: Regex,
    rfc3339: Regex,
    iso8601: Regex,
}

fn patterns() -> Patterns {
    Patterns {
        secs: Regex::new(r"^\d{10}$").unwrap(),
        millis: Regex::new(r"^\d{13}$").unwrap(),
        rfc3339: Regex::new(
            r"^(?P<y>\d{4})-(?P<m>\d{2})-(?P<d>\d{2})T(?P<h>\d{2}):(?P<min>\d{2}):(?P<s>\d{2})(?:\.(?P<frac>\d+))?(?P<tz>Z|[+-]\d{2}:?\d{2})$",
        )
        .unwrap(),
        iso8601: Regex::new(
            r"^(?P<y>\d{4})-(?P<m>\d{2})-(?P<d>\d{2})[T ](?P<h>\d{2}):(?P<min>\d{2}):(?P<s>\d{2})(?:\.(?P<frac>\d+))?(?P<tz>Z|[+-]\d{2}:?\d{2})?$",
        )
        .unwrap(),
    }
}

fn days(year: i64, month: i64, day: i64) -> Option<i64> {
    if !(1..=12).contains(&month) || !(1..=31).contains(&day) {
        return None;
    }
    // Count days directly: whole years, then months, then days.
    let leap = |y: i64| y % 4 == 0 && (y % 100 != 0 || y % 400 == 0);
    let mut n: i64 = 0;
    if year >= 1970 {
        for y in 1970..year {
            n += if leap(y) { 366 } else { 365 };
        }
    } else {
        for y in year..1970 {
            n -= if leap(y) { 366 } else { 365 };
        }
    }
    let lengths = [31, if leap(year) { 29 } else { 28 }, 31, 30, 31, 30, 31, 31, 30, 31, 30, 31];
    for m in 0..(month - 1) as usize {
        n += lengths[m];
    }
    Some(n + day - 1)
}

fn date_time(p: &Regex, s: &str, require_tz: bool) -> Option<i64> {
    let caps = p.captures(s)?;
    let num = |name: &str| caps.name(name).unwrap().as_str().parse::<i64>().ok();
    let frac = caps.name("frac").map(|m| m.as_str()).unwrap_or("");
    // The first nine bytes of the fraction; a cut inside a character gives nothing.
    let kept = frac.get(..frac.len().min(9))?;
    let frac_nanos: i64 = format!("{:0<9}", kept).parse().ok()?;
    let tz = caps.name("tz").map(|m| m.as_str());
    if require_tz && tz.is_none() {
        return None;
    }
    let offset = match tz {
        None | Some("Z") => 0,
        Some(t) => {
            let digits: String = t[1..].chars().filter(|c| *c != ':').collect();
            let v = digits.get(..2)?.parse::<i64>().ok()? * 3600 + digits.get(2..)?.parse::<i64>().ok()? * 60;
            if t.starts_with('+') { v } else { -v }
        }
    };
    let d = days(num("y")?, num("m")?, num("d")?)?;
    let secs = d * 86_400 + num("h")? * 3_600 + num("min")? * 60 + num("s")? - offset;
    secs.checked_mul(1_000_000_000)?.checked_add(frac_nanos)
}

fn expected(p: &Patterns, s: &str) -> Option<i64> {
    let s = s.trim();
    if s.is_empty() {
        return None;
    }
    if let Some(n) = date_time(&p.rfc3339, s, true) {
        return Some(n);
    }
    if let Some(n) = date_time(&p.iso8601, s, false) {
        return Some(n);
    }
    if p.secs.is_match(s) {
        return s.parse::<i64>().ok().map(|v| v.saturating_mul(1_000_000_000));
    }
    if p.millis.is_match(s) {
        return s.parse::<i64>().ok().map(|v| v.saturating_mul(1_000_000));
    }
    None
}

struct Lcg(u64);

impl Lcg {
    fn next(&mut self, n: u64) -> u64 {
        self.0 = self.0.wrapping_mul(6364136223846793005).wrapping_add(1442695040888963407);
        (self.0 >> 33) % n
    }
}

#[test]
fn generated_date_times_agree_with_the_regular_grammar() {
    let p = patterns();
    let mut rng = Lcg(7);
    let templates = [
        "dddd-dd-ddTdd:dd:ddZ",
        "dddd-dd-dd dd:dd:dd",
        "dddd-dd-ddTdd:dd:dd.dddZ",
        "dddd-dd-ddTdd:dd:dd.ddddddddddd+dd:dd",
        "dddd-dd-dd dd:dd:dd-dddd",
        "dddd-dd-ddTdd:dd:dd.d",
        "dddddddddd",
        "ddddddddddddd",
    ];
    let noise = ['0', '9', '-', ':', 'T', ' ', 'Z', '+', '.', 'x', '\t', '\u{660}', '\u{7c9}', '\u{1d7ce}'];
    for round in 0..40_000 {
        let template = templates[round % templates.len()];
        let mut s = String::new();
        for c in template.chars() {
            let r = rng.next(100);
            if r < 3 {
                s.push(noise[rng.next(noise.len() as u64) as usize]);
            } else if r < 4 {
                continue;
            } else if c == 'd' {
                // Keep most dates plausible so that the arithmetic is exercised.
                let digit = if rng.next(4) == 0 { rng.next(10) } else { rng.next(3) };
                s.push(char::from_digit(digit as u32, 10).unwrap());
            } else {
                s.push(c);
            }
        }
        if rng.next(10) == 0 {
            s = format!("  {s}\n");
        }
        assert_eq!(parse_timestamp(&s), expected(&p, &s), "{s:?}");
    }
}

#[test]
fn plausible_dates_agree_with_the_day_count() {
    let p = patterns();
    for year in [0, 1, 4, 99, 100, 400, 1600, 1677, 1899, 1900, 1969, 1970, 1971, 2000, 2023, 2024, 2100, 2262] {
        for month in 1..=12 {
            for day in [1, 15, 28, 29, 30, 31] {
                let s = format!("{year:04}-{month:02}-{day:02}T12:34:56.789+01:30");
                assert_eq!(parse_timestamp(&s), expected(&p, &s), "{s}");
            }
        }
    }
}
