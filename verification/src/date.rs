//! Calendar dates as plain integers, checked against the proleptic
//! Gregorian calendar by chrono.
use vstd::prelude::*;
use crate::text::digit_char;
use chrono::Datelike;

verus! {

/// A calendar date: year, month (1-12) and day of the month.
#[derive(Clone, Copy, Debug, PartialEq, Eq, Hash, Structural)]
pub struct Date {
    pub year: i32,
    pub month: u32,
    pub day: u32,
}

/// Is `year` a leap year of the proleptic Gregorian calendar?
pub open spec fn is_leap_year(year: int) -> bool {
    year % 4 == 0 && (year % 100 != 0 || year % 400 == 0)
}

/// Number of days of `month` in `year`.
pub open spec fn days_in_month(year: int, month: int) -> int {
    if month == 2 {
        if is_leap_year(year) { 29 } else { 28 }
    } else if month == 4 || month == 6 || month == 9 || month == 11 {
        30
    } else {
        31
    }
}

/// Does the day exist in the proleptic Gregorian calendar?
pub open spec fn valid_ymd(year: int, month: int, day: int) -> bool {
    1 <= month <= 12 && 1 <= day <= days_in_month(year, month)
}

/// The calendar date of `year`, `month`, `day` if that day exists
/// (chrono's `NaiveDate::from_ymd_opt`, read back with `year`, `month`,
/// `day`). chrono's documentation: `None` when the day does not exist, the
/// month or day is invalid, or the year is outside its range, which holds
/// every year from 0 to 9999.
#[verifier::external_body]
pub(crate) fn calendar_date(year: i32, month: u32, day: u32) -> (r: Option<Date>)
    requires
        0 <= year <= 9999,
    ensures
        r is Some <==> valid_ymd(year as int, month as int, day as int),
        r matches Some(d) ==> d == (Date { year, month, day }),
{
    match chrono::NaiveDate::from_ymd_opt(year, month, day) {
        Some(nd) => Some(Date { year: nd.year(), month: nd.month(), day: nd.day() }),
        None => None,
    }
}

/// `n` written with exactly `width` decimal digits (`n < 10^width`).
pub open spec fn padded(n: nat, width: nat) -> Seq<char>
    decreases width,
{
    if width == 0 {
        seq![]
    } else {
        padded(n / 10, (width - 1) as nat).push(digit_char(n % 10))
    }
}

/// ISO 8601 form `YYYY-MM-DD` of a date whose year lies in 0..=9999.
pub open spec fn iso_date(d: Date) -> Seq<char> {
    padded(d.year as nat, 4) + seq!['-'] + padded(d.month as nat, 2) + seq!['-'] + padded(d.day as nat, 2)
}

/// chrono's text for a date (its `Display`): for years 0..=9999 the year in
/// four digits, a hyphen, the month in two digits, a hyphen, the day in two
/// digits.
#[verifier::external_body]
pub(crate) fn iso_date_string(d: Date) -> (r: String)
    requires
        0 <= d.year <= 9999,
        valid_ymd(d.year as int, d.month as int, d.day as int),
    ensures
        r@ == iso_date(d),
{
    chrono::NaiveDate::from_ymd_opt(d.year, d.month, d.day).unwrap().to_string()
}

} // verus!
