use predictor::dates::{
    civil_from_days, day_of_week, days_since_epoch, epoch_seconds, parse_timestamp,
};

#[test]
fn days_since_epoch_known() {
    // 1970-01-01 = day 0
    assert_eq!(days_since_epoch(1970, 1, 1), 0);
    // 2000-01-01 = day 10957
    assert_eq!(days_since_epoch(2000, 1, 1), 10957);
}

#[test]
fn days_since_epoch_before_epoch() {
    assert_eq!(days_since_epoch(1969, 12, 31), -1);
    assert_eq!(days_since_epoch(1969, 1, 1), -365);
}

#[test]
fn civil_from_days_inverts_days_since_epoch() {
    assert_eq!(civil_from_days(0), (1970, 1, 1));
    assert_eq!(civil_from_days(10957), (2000, 1, 1));
    assert_eq!(civil_from_days(-1), (1969, 12, 31));
    for days in [-100_000i64, -1, 0, 1, 59, 60, 365, 10957, 20507, 100_000] {
        let (y, m, d) = civil_from_days(days);
        assert_eq!(days_since_epoch(y, m, d), days);
    }
}

#[test]
fn parse_timestamp_fields() {
    let parsed = parse_timestamp("2026-02-20T14:30:45Z").unwrap();
    assert_eq!(parsed, (2026, 2, 20, 14, 30, 45));
    // A space in place of the T is accepted (SQLite writes this form).
    let parsed = parse_timestamp("2026-02-20 14:30:45").unwrap();
    assert_eq!(parsed, (2026, 2, 20, 14, 30, 45));
    // Fractional seconds and timezone suffixes are ignored.
    let parsed = parse_timestamp("2026-01-15T10:00:00.123+02:00").unwrap();
    assert_eq!(parsed, (2026, 1, 15, 10, 0, 0));
}

#[test]
fn parse_timestamp_rejects_malformed_text() {
    assert!(parse_timestamp("").is_none());
    assert!(parse_timestamp("2026-02-20").is_none());
    assert!(parse_timestamp("2026/02/20T14:30:45").is_none());
    assert!(parse_timestamp("2026-02-20X14:30:45").is_none());
    assert!(parse_timestamp("2026-02-20T14:30:4x").is_none());
    assert!(parse_timestamp("20a6-02-20T14:30:45").is_none());
}

#[test]
fn day_of_week_known_dates() {
    // 2026-02-20 is a Friday; Monday = 0, so Friday = 4.
    assert_eq!(day_of_week(2026, 2, 20), 4);
    // 1970-01-01 was a Thursday.
    assert_eq!(day_of_week(1970, 1, 1), 3);
    // 2000-01-01 was a Saturday.
    assert_eq!(day_of_week(2000, 1, 1), 5);
}

#[test]
fn epoch_seconds_combines_date_and_time() {
    assert_eq!(epoch_seconds(1970, 1, 1, 0, 0, 0), 0);
    assert_eq!(epoch_seconds(1970, 1, 2, 1, 2, 3), 86400 + 3600 + 120 + 3);
    assert_eq!(epoch_seconds(1969, 12, 31, 23, 59, 59), -1);
}
