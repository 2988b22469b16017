use cal_proxy::datetime::{
    parse_ical_datetime, render_date, CalendarDate, CalendarInstant, TimeOfDay,
};

fn is_leap(year: i32) -> bool {
    year % 4 == 0 && (year % 100 != 0 || year % 400 == 0)
}

fn days_in(year: i32, month: u32) -> u32 {
    match month {
        2 => {
            if is_leap(year) {
                29
            } else {
                28
            }
        }
        4 | 6 | 9 | 11 => 30,
        _ => 31,
    }
}

fn expected_date(year: i32, month: u32, day: u32) -> Option<CalendarDate> {
    if (1..=12).contains(&month) && day >= 1 && day <= days_in(year, month) {
        Some(CalendarDate { year, month, day })
    } else {
        None
    }
}

const YEARS: [i32; 16] =
    [0, 1, 4, 99, 100, 400, 999, 1000, 1582, 1900, 1999, 2000, 2023, 2024, 2100, 9999];

#[test]
fn every_written_date_is_read_as_the_calendar_has_it() {
    for year in YEARS {
        for month in 0..100u32 {
            for day in 0..100u32 {
                let text = format!("{:04}{:02}{:02}", year, month, day);
                let expected = expected_date(year, month, day).map(CalendarInstant::Date);
                assert_eq!(parse_ical_datetime(&text), expected, "{}", text);
            }
        }
    }
}

#[test]
fn every_written_time_is_read_as_the_clock_has_it() {
    let date = CalendarDate { year: 2024, month: 2, day: 29 };
    for hour in 0..100u32 {
        for minute in 0..100u32 {
            for second in 0..100u32 {
                let text = format!("20240229T{:02}{:02}{:02}", hour, minute, second);
                let expected = if hour <= 23 && minute <= 59 && second <= 60 {
                    let second = if second == 60 { 59 } else { second };
                    Some(TimeOfDay { hour, minute, second })
                } else {
                    None
                };
                assert_eq!(
                    parse_ical_datetime(&text),
                    expected.map(|time| CalendarInstant::DateTime { date, time, utc: false }),
                    "{}",
                    text
                );
            }
        }
    }
}

#[test]
fn written_time_with_z_is_read_the_same() {
    for year in YEARS {
        for month in [0u32, 1, 2, 6, 12, 13] {
            for day in [0u32, 1, 28, 29, 30, 31, 32] {
                for (hour, minute, second) in [(0u32, 0u32, 0u32), (23, 59, 60), (24, 0, 0)] {
                    let text = format!(
                        "{:04}{:02}{:02}T{:02}{:02}{:02}Z",
                        year, month, day, hour, minute, second
                    );
                    let expected = match expected_date(year, month, day) {
                        Some(date) if hour <= 23 => Some(CalendarInstant::DateTime {
                            date,
                            time: TimeOfDay {
                                hour,
                                minute,
                                second: if second == 60 { 59 } else { second },
                            },
                            utc: true,
                        }),
                        _ => None,
                    };
                    assert_eq!(parse_ical_datetime(&text), expected, "{}", text);
                }
            }
        }
    }
}

#[test]
fn every_date_is_written_with_eight_digits_and_read_back() {
    for year in YEARS {
        for month in 1..=12u32 {
            for day in 1..=days_in(year, month) {
                let date = CalendarDate { year, month, day };
                let text = render_date(&date);
                assert_eq!(text, format!("{:04}{:02}{:02}", year, month, day));
                assert_eq!(parse_ical_datetime(&text), Some(CalendarInstant::Date(date)));
            }
        }
    }
}

#[test]
fn a_character_that_is_no_digit_is_not_understood_wherever_it_stands() {
    let date = "20240229";
    let time = "20240229T235959";
    for other in [' ', '+', '-', 'a', 'T', 'Z', '/', ':', '\u{0660}', '\u{ff10}', '\t'] {
        for at in 0..date.len() {
            let mut text: Vec<char> = date.chars().collect();
            text[at] = other;
            let text: String = text.into_iter().collect();
            assert_eq!(parse_ical_datetime(&text), None, "{}", text);
        }
        for at in 0..time.len() {
            if at == 8 && other == 'T' {
                continue;
            }
            let mut text: Vec<char> = time.chars().collect();
            text[at] = other;
            let text: String = text.into_iter().collect();
            assert_eq!(parse_ical_datetime(&text), None, "{}", text);
        }
    }
}
