use cal_proxy::datetime::{parse_ical_datetime, render_date, CalendarDate, CalendarInstant, TimeOfDay};

fn date(year: i32, month: u32, day: u32) -> CalendarDate {
    CalendarDate { year, month, day }
}

#[test]
fn parses_a_plain_date() {
    assert_eq!(parse_ical_datetime("20240101"), Some(CalendarInstant::Date(date(2024, 1, 1))));
}

#[test]
fn parses_a_local_date_time() {
    assert_eq!(
        parse_ical_datetime("20240101T090000"),
        Some(CalendarInstant::DateTime {
            date: date(2024, 1, 1),
            time: TimeOfDay { hour: 9, minute: 0, second: 0 },
            utc: false,
        })
    );
}

#[test]
fn parses_a_utc_date_time_at_face_value() {
    assert_eq!(
        parse_ical_datetime("20241231T235959Z"),
        Some(CalendarInstant::DateTime {
            date: date(2024, 12, 31),
            time: TimeOfDay { hour: 23, minute: 59, second: 59 },
            utc: true,
        })
    );
}

#[test]
fn holds_a_leap_second_as_second_59() {
    assert_eq!(
        parse_ical_datetime("20161231T235960Z"),
        Some(CalendarInstant::DateTime {
            date: date(2016, 12, 31),
            time: TimeOfDay { hour: 23, minute: 59, second: 59 },
            utc: true,
        })
    );
    assert_eq!(parse_ical_datetime("20161231T235961Z"), None);
}

#[test]
fn rejects_days_that_do_not_exist() {
    assert_eq!(parse_ical_datetime("20230229"), None);
    assert_eq!(parse_ical_datetime("20240229"), Some(CalendarInstant::Date(date(2024, 2, 29))));
    assert_eq!(parse_ical_datetime("19000229"), None);
    assert_eq!(parse_ical_datetime("20000229"), Some(CalendarInstant::Date(date(2000, 2, 29))));
    assert_eq!(parse_ical_datetime("20240431"), None);
    assert_eq!(parse_ical_datetime("20241301"), None);
    assert_eq!(parse_ical_datetime("20240100"), None);
    assert_eq!(parse_ical_datetime("20240132"), None);
    assert_eq!(parse_ical_datetime("20240001"), None);
}

#[test]
fn accepts_the_first_and_last_year() {
    assert_eq!(parse_ical_datetime("00000101"), Some(CalendarInstant::Date(date(0, 1, 1))));
    assert_eq!(parse_ical_datetime("99991231"), Some(CalendarInstant::Date(date(9999, 12, 31))));
    assert_eq!(parse_ical_datetime("00000229"), Some(CalendarInstant::Date(date(0, 2, 29))));
}

#[test]
fn rejects_times_that_do_not_exist() {
    assert_eq!(parse_ical_datetime("20240101T240000"), None);
    assert_eq!(parse_ical_datetime("20240101T236000"), None);
    assert_eq!(parse_ical_datetime("20240230T120000"), None);
}

#[test]
fn rejects_other_shapes() {
    assert_eq!(parse_ical_datetime(""), None);
    assert_eq!(parse_ical_datetime("not-a-date"), None);
    assert_eq!(parse_ical_datetime("2024-01-01"), None);
    assert_eq!(parse_ical_datetime("2024010"), None);
    assert_eq!(parse_ical_datetime("202401011"), None);
    assert_eq!(parse_ical_datetime("2024 1 1"), None);
    assert_eq!(parse_ical_datetime(" 2024011"), None);
    assert_eq!(parse_ical_datetime("+2024011"), None);
    assert_eq!(parse_ical_datetime("20240101t090000"), None);
    assert_eq!(parse_ical_datetime("20240101T0900"), None);
    assert_eq!(parse_ical_datetime("20240101T090000z"), None);
    assert_eq!(parse_ical_datetime("20240101T090000ZZ"), None);
    assert_eq!(parse_ical_datetime("20240101T090000+0100"), None);
    assert_eq!(parse_ical_datetime("2024010\u{661}"), None);
    assert_eq!(parse_ical_datetime("20240101T09000\u{661}"), None);
}

#[test]
fn renders_eight_digits() {
    assert_eq!(render_date(&date(2024, 1, 2)), "20240102");
    assert_eq!(render_date(&date(987, 10, 31)), "09871031");
    assert_eq!(render_date(&date(0, 1, 1)), "00000101");
    assert_eq!(render_date(&date(9999, 12, 31)), "99991231");
}

#[test]
fn rendering_and_parsing_agree() {
    let days = [date(2024, 2, 29), date(1, 1, 1), date(1999, 12, 31), date(2100, 3, 1)];
    for day in days {
        let text = render_date(&day);
        assert_eq!(parse_ical_datetime(&text), Some(CalendarInstant::Date(day)));
    }
}

#[test]
fn the_date_of_an_instant() {
    let instant = parse_ical_datetime("20240102T170000").unwrap();
    assert_eq!(instant.date(), date(2024, 1, 2));
    let day = parse_ical_datetime("20240102").unwrap();
    assert_eq!(day.date(), date(2024, 1, 2));
}
