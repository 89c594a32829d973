//! Checking a deadline entered as `DD-MM-YYYY` against the calendar.

use vstd::prelude::*;

verus! {

/// A calendar date.
#[derive(Debug, Clone, Copy, PartialEq, Eq, Structural)]
pub struct CalendarDate {
    pub year: i32,
    pub month: u32,
    pub day: u32,
}

/// The date (year, month, day) that chrono reads from `s` in the format
/// `%d-%m-%Y`, if `s` names a real date.
pub uninterp spec fn dmy_date(s: Seq<char>) -> Option<(i32, u32, u32)>;

/// Relies on `chrono::NaiveDate::parse_from_str` with the format `%d-%m-%Y`,
/// read back with `Datelike::year`, `month` and `day`: months run from 1 to
/// 12 and days from 1 to 31.
#[verifier::external_body]
fn read_dmy(s: &str) -> (r: Option<(i32, u32, u32)>)
    ensures
        r == dmy_date(s@),
        r matches Some((y, m, d)) ==> 1 <= m <= 12 && 1 <= d <= 31,
{
    match chrono::NaiveDate::parse_from_str(s, "%d-%m-%Y") {
        Ok(date) => Some(
            (
                chrono::Datelike::year(&date),
                chrono::Datelike::month(&date),
                chrono::Datelike::day(&date),
            ),
        ),
        Err(_) => None,
    }
}

/// The date that a deadline written `DD-MM-YYYY` names, or `None` where it
/// is not a real calendar date.
pub fn parse_deadline(s: &str) -> (r: Option<CalendarDate>)
    ensures
        match dmy_date(s@) {
            Some((y, m, d)) => r == Some(CalendarDate { year: y, month: m, day: d }),
            None => r is None,
        },
        r matches Some(c) ==> 1 <= c.month <= 12 && 1 <= c.day <= 31,
{
    match read_dmy(s) {
        Some((year, month, day)) => Some(CalendarDate { year, month, day }),
        None => None,
    }
}

/// Whether `s` is a deadline that a task may be given.
pub fn is_valid_deadline(s: &str) -> (r: bool)
    ensures
        r == dmy_date(s@) is Some,
{
    parse_deadline(s).is_some()
}

} // verus!
