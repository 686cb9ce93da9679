use todolists::date::{date_eq, date_le, format_date, parse_date, Date, DateError};

fn parsed(s: &str) -> Date {
    match parse_date(s) {
        Ok(d) => d,
        Err(_) => panic!("expected {} to parse", s),
    }
}

fn parse_reason(s: &str) -> String {
    match parse_date(s) {
        Ok(_) => panic!("expected {} to fail", s),
        Err(DateError::DateParseError { given, error }) => {
            assert_eq!(given, s);
            error
        },
    }
}

#[test]
fn parses_month_day() {
    let d = parsed("3/10");
    assert_eq!(d.month, 3);
    assert_eq!(d.day, 10);
    assert_eq!(d.year, None);
}

#[test]
fn parses_full_date() {
    let d = parsed("12/25/2020");
    assert_eq!(d.month, 12);
    assert_eq!(d.day, 25);
    assert_eq!(d.year, Some(2020));
}

#[test]
fn parses_two_digit_year_as_third_millennium() {
    let d = parsed("03/10/21");
    assert_eq!(d.year, Some(2021));
}

#[test]
fn parses_small_four_digit_year_as_third_millennium() {
    // A four-digit year whose value is at most 99 is still shifted.
    let d = parsed("01/01/0012");
    assert_eq!(d.year, Some(2012));
}

#[test]
fn parses_dash_separators() {
    let d = parsed("2-28");
    assert_eq!(d.month, 2);
    assert_eq!(d.day, 28);
    assert_eq!(d.year, None);
}

#[test]
fn parses_mixed_separators() {
    // Each separator is independent, so a slash and a dash may mix.
    let d = parsed("1-2/2020");
    assert_eq!(d.month, 1);
    assert_eq!(d.day, 2);
    assert_eq!(d.year, Some(2020));
}

#[test]
fn rejects_february_thirtieth() {
    let reason = parse_reason("2/30");
    assert_eq!(reason, "Invalid date. February has at most 28 days");
}

#[test]
fn accepts_february_twenty_ninth_with_year() {
    let d = parsed("2/29/2020");
    assert_eq!(d.month, 2);
    assert_eq!(d.day, 29);
    assert_eq!(d.year, Some(2020));
}

#[test]
fn rejects_february_twenty_ninth_without_year() {
    let reason = parse_reason("2/29");
    assert_eq!(reason, "Invalid date. February has at most 28 days");
}

#[test]
fn rejects_month_thirteen() {
    let reason = parse_reason("13/01");
    assert_eq!(reason, "Invalid date. Month must be between 1 and 12");
}

#[test]
fn rejects_month_zero() {
    let reason = parse_reason("0/10");
    assert_eq!(reason, "Invalid date. Month must be between 1 and 12");
}

#[test]
fn rejects_day_zero() {
    let reason = parse_reason("1/0");
    assert_eq!(reason, "Invalid date. Day must be at least 1");
}

#[test]
fn rejects_thirty_first_of_short_month() {
    let reason = parse_reason("4/31");
    assert_eq!(reason, "Invalid date. This month has at most 30 days");
}

#[test]
fn rejects_thirty_second_of_long_month() {
    let reason = parse_reason("1/32");
    assert_eq!(reason, "Invalid date. This month has at most 31 days");
}

#[test]
fn rejects_malformed_text() {
    for bad in ["", "abc", "1", "1/", "/1", "123/4", "1/234", "1/2/345", "1/2/34567", "1/2/3",
        "1/2/", "1 / 2", "01.02"] {
        match parse_date(bad) {
            Ok(_) => panic!("expected {:?} to fail", bad),
            Err(DateError::DateParseError { given, error }) => {
                assert_eq!(given, bad);
                assert!(error.starts_with("Invalid date format."));
            },
        }
    }
}

#[test]
fn formats_with_zero_padding() {
    let d = Date::new(3, 9, None);
    assert_eq!(format_date(d), "03/09");
    let d = Date::new(12, 25, Some(2020));
    assert_eq!(format_date(d), "12/25/2020");
}

#[test]
fn formats_small_year_unpadded() {
    let d = Date::new(1, 2, Some(300));
    assert_eq!(format_date(d), "01/02/300");
}

#[test]
fn orders_by_resolved_year_then_month_then_day() {
    let past = Date::new(12, 25, Some(2020));
    let spring = Date::new(1, 5, None);
    let autumn = Date::new(3, 10, None);
    // Under a current year later than 2020, the dated past year comes first.
    assert!(date_le(past, spring, 2026));
    assert!(!date_le(spring, past, 2026));
    assert!(date_le(spring, autumn, 2026));
    assert!(!date_le(autumn, spring, 2026));
}

#[test]
fn yearless_dates_equal_same_month_day() {
    let a = Date::new(3, 10, None);
    let b = Date::new(3, 10, None);
    assert!(date_eq(a, b, 2026));
    assert!(date_le(a, b, 2026) && date_le(b, a, 2026));
}

#[test]
fn yearless_date_equals_current_year_date() {
    // A missing year resolves to the current year: under 2020 the
    // yearless date matches the dated one, under 2021 it does not.
    let dated = Date::new(3, 10, Some(2020));
    let yearless = Date::new(3, 10, None);
    assert!(date_eq(dated, yearless, 2020));
    assert!(!date_eq(dated, yearless, 2021));
}
