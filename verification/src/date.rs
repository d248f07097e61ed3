//! Calendar dates, read from text by chrono.
use chrono::{Datelike, NaiveDate};
use vstd::prelude::*;

verus! {

/// A day of the proleptic Gregorian calendar, as chrono's `NaiveDate`
/// reports it: the year, the month (1 to 12) and the day of the month.
#[derive(Clone, Copy, Debug, PartialEq, Eq, Structural)]
pub struct CalendarDate {
    pub year: i32,
    pub month: u32,
    pub day: u32,
}

/// What chrono's `NaiveDate::parse_from_str(text, format)` gives back, as
/// year, month and day, or `None` where it returns an error.
pub uninterp spec fn chrono_parse_date(text: Seq<char>, format: Seq<char>) -> Option<(i32, u32, u32)>;

/// The month is 1 to 12 and the day 1 to 31.
pub open spec fn valid_day(d: CalendarDate) -> bool {
    1 <= d.month <= 12 && 1 <= d.day <= 31
}

/// The date that a year, month and day stand for.
pub open spec fn ymd_date(ymd: Option<(i32, u32, u32)>) -> Option<CalendarDate> {
    match ymd {
        Some((y, m, d)) => Some(CalendarDate { year: y, month: m, day: d }),
        None => None,
    }
}

/// Calls chrono's `NaiveDate::parse_from_str` and reads year, month and day
/// off the date it returns. The contract claims that the result is a
/// function of the text and the format, named `chrono_parse_date`, and that
/// the month is 1 to 12 and the day 1 to 31, as chrono's `Datelike::month`
/// and `Datelike::day` document; which texts chrono accepts is left to
/// chrono.
#[verifier::external_body]
fn chrono_date(text: &str, format: &str) -> (r: Option<(i32, u32, u32)>)
    ensures
        r == chrono_parse_date(text@, format@),
        r matches Some((y, m, d)) ==> 1 <= m <= 12 && 1 <= d <= 31,
{
    match NaiveDate::parse_from_str(text, format) {
        Ok(d) => Some((d.year(), d.month(), d.day())),
        Err(_) => None,
    }
}

/// The date that an ISO 8601 calendar text (`YYYY-MM-DD`, read by chrono
/// with the format `%Y-%m-%d`) stands for, or `None` when chrono rejects it.
pub open spec fn iso_date(text: Seq<char>) -> Option<CalendarDate> {
    ymd_date(chrono_parse_date(text, "%Y-%m-%d"@))
}

/// Reads a `YYYY-MM-DD` date with chrono.
pub fn parse_iso_date(text: &str) -> (r: Option<CalendarDate>)
    ensures
        r == iso_date(text@),
        r matches Some(d) ==> valid_day(d),
{
    match chrono_date(text, "%Y-%m-%d") {
        Some((y, m, d)) => Some(CalendarDate { year: y, month: m, day: d }),
        None => None,
    }
}

} // verus!
