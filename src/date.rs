//! Calendar dates as plain values, with the calls into chrono that read a
//! date from text or from the clock.
use vstd::prelude::*;
use chrono::Datelike;

verus! {

/// A calendar date.
#[derive(Clone, Copy, Debug, PartialEq, Eq, Structural)]
pub struct Date {
    pub year: i32,
    pub month: u32,
    pub day: u32,
}

/// What chrono reads from `s` in the `%Y-%m-%d` format: year, month, day.
pub uninterp spec fn ymd_of(s: Seq<char>) -> Option<(i32, u32, u32)>;

/// Whether `year` is a leap year of the Gregorian calendar.
pub open spec fn leap_year(year: int) -> bool {
    (year % 4 == 0 && year % 100 != 0) || year % 400 == 0
}

/// The number of days of `month` in `year`.
pub open spec fn days_in_month(year: int, month: int) -> int {
    if month == 2 {
        if leap_year(year) {
            29
        } else {
            28
        }
    } else if month == 4 || month == 6 || month == 9 || month == 11 {
        30
    } else {
        31
    }
}

impl Date {
    /// A real day of the proleptic Gregorian calendar.
    pub open spec fn wf(&self) -> bool {
        1 <= self.month <= 12 && 1 <= self.day <= days_in_month(self.year as int, self.month as int)
    }

    /// A number that orders dates as the calendar does.
    pub open spec fn key(&self) -> int {
        self.year * 10000 + self.month * 100 + self.day
    }

    pub fn sort_key(&self) -> (k: i64)
        requires
            self.wf(),
        ensures
            k == self.key(),
    {
        self.year as i64 * 10000 + self.month as i64 * 100 + self.day as i64
    }
}

/// Relies on chrono::NaiveDate::parse_from_str with the format `%Y-%m-%d`;
/// a NaiveDate always holds a real day of the proleptic Gregorian calendar.
#[verifier::external_body]
fn chrono_parse(s: &str) -> (r: Option<Date>)
    ensures
        match r {
            Some(d) => ymd_of(s@) == Some((d.year, d.month, d.day)) && d.wf(),
            None => ymd_of(s@) is None,
        },
{
    match chrono::NaiveDate::parse_from_str(s, "%Y-%m-%d") {
        Ok(d) => Some(Date { year: d.year(), month: d.month(), day: d.day() }),
        Err(_) => None,
    }
}

/// Relies on chrono::Local::now and DateTime::date_naive: the calendar date
/// in the machine's time zone now, a real day as every NaiveDate is.
#[verifier::external_body]
fn chrono_today() -> (r: Date)
    ensures
        r.wf(),
{
    let d = chrono::Local::now().date_naive();
    Date { year: d.year(), month: d.month(), day: d.day() }
}

/// Relies on chrono::Local::now and DateTime::timestamp: seconds since the
/// Unix epoch now.
#[verifier::external_body]
pub(crate) fn now_seconds() -> (r: i64) {
    chrono::Local::now().timestamp()
}

/// The date that `s` writes as `YYYY-MM-DD`, if it is a real one.
pub fn parse_date(s: &str) -> (r: Option<Date>)
    ensures
        match r {
            Some(d) => ymd_of(s@) == Some((d.year, d.month, d.day)) && d.wf(),
            None => ymd_of(s@) is None,
        },
{
    chrono_parse(s)
}

/// The local calendar date now.
pub fn today() -> (r: Date)
    ensures
        r.wf(),
{
    chrono_today()
}

} // verus!
