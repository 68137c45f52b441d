use logmix::ts::{parse_timestamp, parse_tz_offset};

#[test]
fn smoke() {
    assert!(parse_timestamp("2024-01-15T10:30:00Z").is_some());
}

#[test]
fn ts_rfc3339_utc_z() {
    let nanos = parse_timestamp("2024-01-15T10:30:00Z").expect("rfc3339");
    assert_eq!(nanos, 1_705_314_600_000_000_000);
}

#[test]
fn ts_rfc3339_fractional_and_offset() {
    let nanos = parse_timestamp("2024-01-15T10:30:00.5+00:00").expect("rfc3339 frac");
    assert_eq!(nanos, 1_705_314_600_500_000_000);
}

#[test]
fn ts_iso8601_space_separator_no_tz_treated_as_utc() {
    let nanos = parse_timestamp("2024-01-15 10:30:00").expect("iso8601");
    assert_eq!(nanos, 1_705_314_600_000_000_000);
}

#[test]
fn ts_unix_seconds() {
    let nanos = parse_timestamp("1705314600").expect("unix seconds");
    assert_eq!(nanos, 1_705_314_600_000_000_000);
}

#[test]
fn ts_unix_millis() {
    let nanos = parse_timestamp("1705314600123").expect("unix millis");
    assert_eq!(nanos, 1_705_314_600_123_000_000);
}

#[test]
fn ts_unparseable_returns_none() {
    assert!(parse_timestamp("not-a-timestamp").is_none());
    assert!(parse_timestamp("").is_none());
    assert!(parse_timestamp("2024-13-40T99:99:99Z").is_none());
}

#[test]
fn ts_offsets_move_the_instant() {
    assert_eq!(parse_timestamp("2024-01-15T12:30:00+02:00"), Some(1_705_314_600_000_000_000));
    assert_eq!(parse_timestamp("2024-01-15T12:30:00+0200"), Some(1_705_314_600_000_000_000));
    assert_eq!(parse_timestamp("2024-01-15T05:00:00-05:30"), Some(1_705_314_600_000_000_000));
    assert_eq!(parse_timestamp("2024-01-15 10:30:00Z"), Some(1_705_314_600_000_000_000));
}

#[test]
fn ts_fraction_keeps_nine_digits() {
    assert_eq!(parse_timestamp("1970-01-01T00:00:00.123456789987Z"), Some(123_456_789));
    assert_eq!(parse_timestamp("1970-01-01T00:00:00.000001Z"), Some(1_000));
    assert_eq!(parse_timestamp("1970-01-01T00:00:00.Z"), None);
}

#[test]
fn ts_calendar_edges() {
    assert_eq!(parse_timestamp("1970-01-01T00:00:00Z"), Some(0));
    assert_eq!(parse_timestamp("1969-12-31T23:59:59Z"), Some(-1_000_000_000));
    assert_eq!(parse_timestamp("2000-02-29T00:00:00Z"), Some(951_782_400_000_000_000));
    assert_eq!(parse_timestamp("2000-03-01T00:00:00Z"), Some(951_868_800_000_000_000));
    // Days past the end of a month count on into the next one.
    assert_eq!(parse_timestamp("2023-02-31T00:00:00Z"), parse_timestamp("2023-03-03T00:00:00Z"));
    // Hours, minutes and seconds are not range-checked.
    assert_eq!(parse_timestamp("1970-01-01T99:00:00Z"), Some(356_400_000_000_000));
    assert!(parse_timestamp("1970-00-01T00:00:00Z").is_none());
    assert!(parse_timestamp("1970-01-32T00:00:00Z").is_none());
    // Whole seconds are scaled before the fraction is added, and must fit on their own.
    assert!(parse_timestamp("1677-09-21T00:12:43.145224192Z").is_none());
    assert_eq!(parse_timestamp("1677-09-21T00:12:44Z"), Some(-9_223_372_036_000_000_000));
    assert_eq!(parse_timestamp("2262-04-11T23:47:16.854775807Z"), Some(i64::MAX));
    assert!(parse_timestamp("2262-04-11T23:47:16.854775808Z").is_none());
    assert!(parse_timestamp("9999-12-31T23:59:59Z").is_none());
    assert_eq!(parse_timestamp("0000-01-01T00:00:00-99:99"), None);
}

#[test]
fn ts_unix_forms() {
    assert_eq!(parse_timestamp("  0000000001\n"), Some(1_000_000_000));
    assert_eq!(parse_timestamp("9999999999"), Some(i64::MAX));
    assert_eq!(parse_timestamp("9999999999999"), Some(i64::MAX));
    assert!(parse_timestamp("123456789").is_none());
    assert!(parse_timestamp("12345678901").is_none());
    assert!(parse_timestamp("+123456789").is_none());
}

#[test]
fn ts_rejects_malformed_date_times() {
    assert!(parse_timestamp("2024-01-15T10:30:00").is_some());
    for s in [
        "2024-01-15t10:30:00Z",
        "2024-01-15T10:30:00+2:00",
        "2024-01-15T10:30:00+02:0",
        "2024-01-15T10:30:00 Z",
        "2024-01-15T10:30Z",
        "24-01-15T10:30:00Z",
        "2024/01/15 10:30:00",
        "2024-01-15T10:30:00ZZ",
    ] {
        assert!(parse_timestamp(s).is_none(), "{s}");
    }
}

#[test]
fn ts_rfc3339_text_reads_the_same_under_either_separator() {
    let with_t = parse_timestamp("2024-01-15T10:30:00.25-02:00");
    let with_space = parse_timestamp("2024-01-15 10:30:00.25-02:00");
    assert_eq!(with_t, Some(1_705_321_800_250_000_000));
    assert_eq!(with_space, with_t);
}

#[test]
fn ts_fraction_may_run_on_with_other_scripts_digits() {
    // Digits past the ninth are dropped, whatever script they are from.
    assert_eq!(
        parse_timestamp("2024-01-15T10:30:00.123456789\u{660}Z"),
        Some(1_705_314_600_123_456_789)
    );
    // Within the first nine, only ASCII digits are read.
    assert_eq!(parse_timestamp("2024-01-15T10:30:00.12\u{660}Z"), None);
    // Elsewhere, another script's digit makes the text unreadable.
    assert_eq!(parse_timestamp("2024-01-15T1\u{660}:30:00Z"), None);
    assert_eq!(parse_timestamp("2024-01-15T10:30:00+0\u{660}:00"), None);
}

#[test]
fn ts_zone_offset_moves_the_instant() {
    let n = parse_timestamp("2024-01-15T10:30:00").unwrap();
    let hour = 3_600_000_000_000;
    assert_eq!(parse_timestamp("2024-01-15T10:30:00Z"), Some(n));
    assert_eq!(parse_timestamp("2024-01-15T10:30:00+01:00"), Some(1_705_311_000_000_000_000));
    assert_eq!(parse_timestamp("2024-01-15T10:30:00+01:00"), Some(n - hour));
    assert_eq!(parse_timestamp("2024-01-15T10:30:00+0100"), Some(n - hour));
    assert_eq!(parse_timestamp("2024-01-15T10:30:00-01:30"), Some(n + hour + hour / 2));
}

#[test]
fn tz_offset_reads_designators_and_answers_none_otherwise() {
    assert_eq!(parse_tz_offset("Z"), Some(0));
    assert_eq!(parse_tz_offset("+05:30"), Some(19_800));
    assert_eq!(parse_tz_offset("-0800"), Some(-28_800));
    assert_eq!(parse_tz_offset("+00:00"), Some(0));
    assert_eq!(parse_tz_offset("X"), None);
    assert_eq!(parse_tz_offset(""), None);
    assert_eq!(parse_tz_offset("+"), None);
    assert_eq!(parse_tz_offset("+1"), None);
    assert_eq!(parse_tz_offset("+12"), None);
    assert_eq!(parse_tz_offset("Zulu"), None);
    assert_eq!(parse_tz_offset("+ab:cd"), None);
    // Looser forms read as `str::parse` reads them.
    assert_eq!(parse_tz_offset("+5:30"), Some(19_800));
    assert_eq!(parse_tz_offset("-1:2:3"), Some(-3_720));
    assert_eq!(parse_tz_offset("+123"), Some(43_380));
    // A sum that leaves `i32` does not read.
    assert_eq!(parse_tz_offset("+999999:00"), None);
}
