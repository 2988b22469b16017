//! Calendar instants and the two property-value shapes that are understood:
//! `YYYYMMDD` for a date and `YYYYMMDDTHHMMSS`, with an optional `Z` behind
//! it, for a date with a time of day.
//!
//! Whether the digits name a real day and a real time of day is left to
//! `chrono`, which also renders dates. The shapes themselves are checked here.

use chrono::{Datelike, NaiveDate, NaiveDateTime, Timelike};
use vstd::prelude::*;

use crate::text::chars_of;

verus! {

/// A day of the proleptic Gregorian calendar.
#[derive(Clone, Copy, Debug, PartialEq, Eq, Structural)]
pub struct CalendarDate {
    pub year: i32,
    pub month: u32,
    pub day: u32,
}

/// A time of day, to the second.
#[derive(Clone, Copy, Debug, PartialEq, Eq, Structural)]
pub struct TimeOfDay {
    pub hour: u32,
    pub minute: u32,
    pub second: u32,
}

/// What a start or end property names: a whole day, or a day and a time.
#[derive(Clone, Copy, Debug, PartialEq, Eq, Structural)]
pub enum CalendarInstant {
    /// A date without a time; it stands for midnight of that day.
    Date(CalendarDate),
    /// A date and a time of day. `utc` records a trailing `Z`; the fields are
    /// as written, never shifted by a time zone.
    DateTime { date: CalendarDate, time: TimeOfDay, utc: bool },
}

/// Years divisible by four are leap years, centuries only if divisible by 400.
pub open spec fn is_leap_year(year: int) -> bool {
    year % 4 == 0 && (year % 100 != 0 || year % 400 == 0)
}

/// Number of days of `month` (1 to 12) in `year`.
pub open spec fn days_in_month(year: int, month: int) -> int {
    if month == 2 {
        if is_leap_year(year) {
            29
        } else {
            28
        }
    } else if month == 4 || month == 6 || month == 9 || month == 11 {
        30
    } else {
        31
    }
}

/// `year`, `month`, `day` name a day that exists, in a year of four digits.
pub open spec fn is_calendar_date(year: int, month: int, day: int) -> bool {
    &&& 0 <= year <= 9999
    &&& 1 <= month <= 12
    &&& 1 <= day <= days_in_month(year, month)
}

/// `hour`, `minute`, `second` as they may be written: the second may be 60,
/// a leap second.
pub open spec fn is_written_time(hour: int, minute: int, second: int) -> bool {
    0 <= hour <= 23 && 0 <= minute <= 59 && 0 <= second <= 60
}

impl CalendarDate {
    /// The date exists, and its year has at most four digits.
    pub open spec fn is_valid(self) -> bool {
        is_calendar_date(self.year as int, self.month as int, self.day as int)
    }
}

impl TimeOfDay {
    /// The time exists. A leap second is held as second 59.
    pub open spec fn is_valid(self) -> bool {
        self.hour <= 23 && self.minute <= 59 && self.second <= 59
    }
}

impl CalendarInstant {
    /// The calendar date of the instant.
    pub open spec fn spec_date(self) -> CalendarDate {
        match self {
            CalendarInstant::Date(date) => date,
            CalendarInstant::DateTime { date, .. } => date,
        }
    }

    /// The date, and the time if there is one, exist.
    pub open spec fn is_valid(self) -> bool {
        match self {
            CalendarInstant::Date(date) => date.is_valid(),
            CalendarInstant::DateTime { date, time, .. } => date.is_valid() && time.is_valid(),
        }
    }

    /// The calendar date of the instant.
    #[verifier::when_used_as_spec(spec_date)]
    pub fn date(self) -> (d: CalendarDate)
        ensures
            d == self.spec_date(),
    {
        match self {
            CalendarInstant::Date(date) => date,
            CalendarInstant::DateTime { date, .. } => date,
        }
    }
}

/// `c` is one of the ten decimal digits.
pub open spec fn is_digit(c: char) -> bool {
    '0' <= c && c <= '9'
}

/// The number that the digit `c` stands for.
pub open spec fn digit_value(c: char) -> int {
    c as int - '0' as int
}

/// The digit that stands for `n`, for `n` from 0 to 9.
pub open spec fn digit_char(n: int) -> char {
    if n == 0 {
        '0'
    } else if n == 1 {
        '1'
    } else if n == 2 {
        '2'
    } else if n == 3 {
        '3'
    } else if n == 4 {
        '4'
    } else if n == 5 {
        '5'
    } else if n == 6 {
        '6'
    } else if n == 7 {
        '7'
    } else if n == 8 {
        '8'
    } else {
        '9'
    }
}

/// Every character of `s` from `from` up to `to` is a digit.
pub open spec fn digits_in(s: Seq<char>, from: int, to: int) -> bool {
    forall|i: int| from <= i < to ==> is_digit(#[trigger] s[i])
}

/// The number written by the two digits of `s` at `at`.
pub open spec fn two_digits(s: Seq<char>, at: int) -> int {
    digit_value(s[at]) * 10 + digit_value(s[at + 1])
}

/// The number written by the four digits of `s` at `at`.
pub open spec fn four_digits(s: Seq<char>, at: int) -> int {
    two_digits(s, at) * 100 + two_digits(s, at + 2)
}

/// `s` has the shape `YYYYMMDD`: eight digits.
pub open spec fn is_date_text(s: Seq<char>) -> bool {
    s.len() == 8 && digits_in(s, 0, 8)
}

/// `s` has the shape `YYYYMMDDTHHMMSS`: eight digits, `T`, six digits.
pub open spec fn is_datetime_text(s: Seq<char>) -> bool {
    s.len() == 15 && digits_in(s, 0, 8) && s[8] == 'T' && digits_in(s, 9, 15)
}

/// `s` has the shape `YYYYMMDDTHHMMSSZ`.
pub open spec fn is_utc_datetime_text(s: Seq<char>) -> bool {
    s.len() == 16 && s[15] == 'Z' && is_datetime_text(s.take(15))
}

/// The date that the first eight characters of `s` write, if that day exists.
pub open spec fn date_of_text(s: Seq<char>) -> Option<CalendarDate> {
    let year = four_digits(s, 0);
    let month = two_digits(s, 4);
    let day = two_digits(s, 6);
    if is_calendar_date(year, month, day) {
        Some(CalendarDate { year: year as i32, month: month as u32, day: day as u32 })
    } else {
        None
    }
}

/// The time of day that the six digits of `s` from position 9 write, if it
/// exists. A leap second, written `60`, is held as second 59.
pub open spec fn time_of_text(s: Seq<char>) -> Option<TimeOfDay> {
    let hour = two_digits(s, 9);
    let minute = two_digits(s, 11);
    let second = two_digits(s, 13);
    if is_written_time(hour, minute, second) {
        Some(
            TimeOfDay {
                hour: hour as u32,
                minute: minute as u32,
                second: if second == 60 {
                    59u32
                } else {
                    second as u32
                },
            },
        )
    } else {
        None
    }
}

/// The date and time that `s`, of the shape `YYYYMMDDTHHMMSS`, writes, if both
/// exist.
pub open spec fn datetime_of_text(s: Seq<char>) -> Option<(CalendarDate, TimeOfDay)> {
    match (date_of_text(s), time_of_text(s)) {
        (Some(date), Some(time)) => Some((date, time)),
        _ => None,
    }
}

/// The instant that a property value writes.
///
/// Eight digits are a date. Eight digits, `T` and six digits are a date with
/// a time, and may be followed by `Z`. Every other text is not understood,
/// and neither is one whose digits name no real day or time of day.
pub open spec fn instant_of_text(s: Seq<char>) -> Option<CalendarInstant> {
    if is_date_text(s) {
        match date_of_text(s) {
            Some(date) => Some(CalendarInstant::Date(date)),
            None => None,
        }
    } else if is_datetime_text(s) || is_utc_datetime_text(s) {
        match datetime_of_text(s) {
            Some((date, time)) => Some(
                CalendarInstant::DateTime { date, time, utc: is_utc_datetime_text(s) },
            ),
            None => None,
        }
    } else {
        None
    }
}

/// The eight digits `YYYYMMDD` of `date`.
pub open spec fn date_text(date: CalendarDate) -> Seq<char> {
    let y = date.year as int;
    let m = date.month as int;
    let d = date.day as int;
    seq![
        digit_char(y / 1000),
        digit_char(y / 100 % 10),
        digit_char(y / 10 % 10),
        digit_char(y % 10),
        digit_char(m / 10),
        digit_char(m % 10),
        digit_char(d / 10),
        digit_char(d % 10),
    ]
}

/// The `chrono` format of a date: year, month, day, with nothing between.
pub open spec fn date_format() -> Seq<char> {
    "%Y%m%d"@
}

/// The `chrono` format of a date with a time of day.
pub open spec fn datetime_format() -> Seq<char> {
    "%Y%m%dT%H%M%S"@
}

/// The `chrono` format of a date with a time of day and a trailing `Z`.
pub open spec fn utc_datetime_format() -> Seq<char> {
    "%Y%m%dT%H%M%SZ"@
}

/// `chrono::NaiveDate::parse_from_str`, on eight digits and the format
/// `%Y%m%d`.
///
/// `chrono` reads four digits as the year, two as the month and two as the
/// day, and succeeds exactly if that day exists. The contract states that
/// result; on other texts, which `chrono` reads more loosely, this function
/// is not called.
#[verifier::external_body]
fn naive_date_from_text(s: &str, format: &str) -> (r: Option<CalendarDate>)
    requires
        is_date_text(s@),
        format@ == date_format(),
    ensures
        r == date_of_text(s@),
{
    match NaiveDate::parse_from_str(s, format) {
        Ok(d) => Some(CalendarDate { year: d.year(), month: d.month(), day: d.day() }),
        Err(_) => None,
    }
}

/// `chrono::NaiveDateTime::parse_from_str`, on a text of the shape
/// `YYYYMMDDTHHMMSS` and the format `%Y%m%dT%H%M%S`, or on such a text with
/// `Z` behind it and the format `%Y%m%dT%H%M%SZ`.
///
/// `chrono` succeeds exactly if the day exists, the hour is at most 23, the
/// minute at most 59 and the second at most 60. It reports a second of 60, a
/// leap second, as second 59.
#[verifier::external_body]
fn naive_datetime_from_text(s: &str, format: &str) -> (r: Option<(CalendarDate, TimeOfDay)>)
    requires
        (is_datetime_text(s@) && format@ == datetime_format()) || (is_utc_datetime_text(s@)
            && format@ == utc_datetime_format()),
    ensures
        r == datetime_of_text(s@),
{
    match NaiveDateTime::parse_from_str(s, format) {
        Ok(t) => Some(
            (
                CalendarDate { year: t.year(), month: t.month(), day: t.day() },
                TimeOfDay { hour: t.hour(), minute: t.minute(), second: t.second() },
            ),
        ),
        Err(_) => None,
    }
}

/// `chrono::NaiveDate::from_ymd_opt`, then `NaiveDate::format` with the
/// format `%Y%m%d`, and the text of what it returns.
///
/// For a day that exists, in a year from 0 to 9999, `chrono` writes the year
/// with four digits and the month and the day with two digits each, padded
/// with zeros.
#[verifier::external_body]
fn naive_date_to_text(date: &CalendarDate, format: &str) -> (r: String)
    requires
        date.is_valid(),
        format@ == date_format(),
    ensures
        r@ == date_text(*date),
{
    match NaiveDate::from_ymd_opt(date.year, date.month, date.day) {
        Some(d) => d.format(format).to_string(),
        None => String::new(),
    }
}

/// Cutting a text short does not change which of the characters left are
/// digits.
pub proof fn lemma_digits_in_take(s: Seq<char>, n: int, from: int, to: int)
    requires
        0 <= from <= to <= n <= s.len(),
    ensures
        digits_in(s.take(n), from, to) == digits_in(s, from, to),
{
    let head = s.take(n);
    if digits_in(s, from, to) {
        assert forall|i: int| from <= i < to implies is_digit(#[trigger] head[i]) by {
            assert(head[i] == s[i]);
        }
    }
    if digits_in(head, from, to) {
        assert forall|i: int| from <= i < to implies is_digit(#[trigger] s[i]) by {
            assert(head[i] == s[i]);
        }
    }
}

/// An instant that a text writes exists.
pub proof fn lemma_instant_of_text_is_valid(s: Seq<char>)
    ensures
        instant_of_text(s) matches Some(instant) ==> instant.is_valid(),
{
    if is_date_text(s) {
    } else if is_datetime_text(s) {
    } else if is_utc_datetime_text(s) {
        lemma_digits_in_take(s, 15, 0, 8);
        lemma_digits_in_take(s, 15, 9, 15);
    }
}

/// The eight digits of a date that exists are read back as that date.
pub proof fn lemma_date_text_is_read_back(date: CalendarDate)
    requires
        date.is_valid(),
    ensures
        is_date_text(date_text(date)),
        date_of_text(date_text(date)) == Some(date),
        instant_of_text(date_text(date)) == Some(CalendarInstant::Date(date)),
{
    let s = date_text(date);
    let y = date.year as int;
    let m = date.month as int;
    let d = date.day as int;
    lemma_digit_char(y / 1000);
    lemma_digit_char(y / 100 % 10);
    lemma_digit_char(y / 10 % 10);
    lemma_digit_char(y % 10);
    lemma_digit_char(m / 10);
    lemma_digit_char(m % 10);
    lemma_digit_char(d / 10);
    lemma_digit_char(d % 10);
    assert(four_digits(s, 0) == y);
    assert(two_digits(s, 4) == m);
    assert(two_digits(s, 6) == d);
}

/// `digit_char` yields a digit, and `digit_value` reads it back.
pub proof fn lemma_digit_char(n: int)
    requires
        0 <= n <= 9,
    ensures
        is_digit(digit_char(n)),
        digit_value(digit_char(n)) == n,
{
}

/// Whether every character of `chars[from..to]` is a digit.
fn all_digits(chars: &Vec<char>, from: usize, to: usize) -> (r: bool)
    requires
        from <= to <= chars.len(),
    ensures
        r == digits_in(chars@, from as int, to as int),
{
    let mut i: usize = from;
    while i < to
        invariant
            from <= i <= to <= chars.len(),
            digits_in(chars@, from as int, i as int),
        decreases to - i,
    {
        let c = chars[i];
        if !('0' <= c && c <= '9') {
            return false;
        }
        i += 1;
    }
    true
}

/// Reads a property value as a calendar instant.
///
/// Returns `None` for every text that is not understood; it never fails in
/// another way.
pub fn parse_ical_datetime(dt_str: &str) -> (r: Option<CalendarInstant>)
    ensures
        r == instant_of_text(dt_str@),
        r matches Some(instant) ==> instant.is_valid(),
{
    let chars = chars_of(dt_str);
    let n: usize = chars.len();
    if n == 8 {
        if !all_digits(&chars, 0, 8) {
            return None;
        }
        match naive_date_from_text(dt_str, "%Y%m%d") {
            Some(date) => Some(CalendarInstant::Date(date)),
            None => None,
        }
    } else if n == 15 || (n == 16 && chars[15] == 'Z') {
        proof {
            lemma_digits_in_take(dt_str@, 15, 0, 8);
            lemma_digits_in_take(dt_str@, 15, 9, 15);
        }
        if !all_digits(&chars, 0, 8) || chars[8] != 'T' || !all_digits(&chars, 9, 15) {
            return None;
        }
        let utc = n == 16;
        let format = if utc {
            "%Y%m%dT%H%M%SZ"
        } else {
            "%Y%m%dT%H%M%S"
        };
        match naive_datetime_from_text(dt_str, format) {
            Some((date, time)) => Some(CalendarInstant::DateTime { date, time, utc }),
            None => None,
        }
    } else {
        None
    }
}

/// Writes `date` as the eight digits `YYYYMMDD`.
pub fn render_date(date: &CalendarDate) -> (r: String)
    requires
        date.is_valid(),
    ensures
        r@ == date_text(*date),
{
    naive_date_to_text(date, "%Y%m%d")
}

} // verus!
