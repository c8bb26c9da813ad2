use rinha::time::DateTime;

#[test]
fn parses_iso_format() {
    let dt = DateTime::parse(b"2026-03-11T20:23:35Z").unwrap();
    assert_eq!(dt.year, 2026);
    assert_eq!(dt.month, 3);
    assert_eq!(dt.day, 11);
    assert_eq!(dt.hour, 20);
    assert_eq!(dt.minute, 23);
    assert_eq!(dt.second, 35);
}

#[test]
fn rejects_malformed() {
    assert!(DateTime::parse(b"2026/03/11T20:23:35Z").is_none());
    assert!(DateTime::parse(b"2026-03-11 20:23:35Z").is_none());
    assert!(DateTime::parse(b"short").is_none());
}

#[test]
fn day_of_week_known_dates() {
    // 2026-03-11 is a Wednesday: mon0 = 2.
    let dt = DateTime::parse(b"2026-03-11T00:00:00Z").unwrap();
    assert_eq!(dt.day_of_week_mon0(), 2);
    // 2026-01-01 is a Thursday: mon0 = 3.
    let dt = DateTime::parse(b"2026-01-01T00:00:00Z").unwrap();
    assert_eq!(dt.day_of_week_mon0(), 3);
}

#[test]
fn minutes_diff_known() {
    let a = DateTime::parse(b"2026-03-11T18:45:53Z").unwrap();
    let b = DateTime::parse(b"2026-03-11T14:58:35Z").unwrap();
    let diff = a.minutes_since_epoch() - b.minutes_since_epoch();
    // 18:45 - 14:58 = 3h47 = 227 min (seconds truncated by the division by 60).
    assert!((226..=228).contains(&diff), "got {diff}");
}

#[test]
fn epoch_is_day_zero_and_a_thursday() {
    let dt = DateTime::parse(b"1970-01-01T00:00:00Z").unwrap();
    assert_eq!(dt.days_from_civil(), 0);
    assert_eq!(dt.minutes_since_epoch(), 0);
    assert_eq!(dt.day_of_week_mon0(), 3);
}

#[test]
fn days_advance_across_month_and_year_ends() {
    let day = |s: &[u8]| DateTime::parse(s).unwrap().days_from_civil();
    assert_eq!(day(b"2024-02-29T00:00:00Z") + 1, day(b"2024-03-01T00:00:00Z"));
    assert_eq!(day(b"2024-02-28T00:00:00Z") + 1, day(b"2024-02-29T00:00:00Z"));
    assert_eq!(day(b"2023-02-28T00:00:00Z") + 1, day(b"2023-03-01T00:00:00Z"));
    assert_eq!(day(b"1900-02-28T00:00:00Z") + 1, day(b"1900-03-01T00:00:00Z"));
    assert_eq!(day(b"2000-02-28T00:00:00Z") + 2, day(b"2000-03-01T00:00:00Z"));
    assert_eq!(day(b"2025-12-31T00:00:00Z") + 1, day(b"2026-01-01T00:00:00Z"));
    assert_eq!(day(b"2026-03-11T00:00:00Z"), 20523);
    // Earlier dates have smaller counts.
    assert!(day(b"1969-12-31T00:00:00Z") < day(b"1970-01-01T00:00:00Z"));
    assert!(day(b"1999-12-31T00:00:00Z") < day(b"2000-01-01T00:00:00Z"));
    assert!(day(b"2000-01-31T00:00:00Z") < day(b"2000-02-01T00:00:00Z"));
    assert!(day(b"0001-01-01T00:00:00Z") < day(b"9999-12-31T00:00:00Z"));
}

#[test]
fn minutes_round_toward_zero() {
    let a = DateTime::parse(b"1970-01-01T00:01:59Z").unwrap();
    assert_eq!(a.minutes_since_epoch(), 1);
    // -30 s before the epoch: integer division by 60 rounds toward zero.
    let b = DateTime::parse(b"1969-12-31T23:59:30Z").unwrap();
    assert_eq!(b.minutes_since_epoch(), 0);
    let c = DateTime::parse(b"1969-12-31T23:58:30Z").unwrap();
    assert_eq!(c.minutes_since_epoch(), -1);
}

#[test]
fn rejects_non_digit_fields() {
    assert!(DateTime::parse(b"2026-0a-11T20:23:35Z").is_none());
    assert!(DateTime::parse(b"2026-03-11T20:23:35X").is_none());
    assert!(DateTime::parse(b"2026-03-11T20:23:35Z ").is_none());
}
