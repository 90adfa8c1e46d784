use chrono::{Datelike, NaiveDate};
use vstd::prelude::*;

verus! {

/// The days of the proleptic Gregorian calendar before 1 January of `year`,
/// counted from 1 January of year 1.
pub open spec fn days_before_year(year: int) -> int {
    let p = year - 1;
    365 * p + p / 4 - p / 100 + p / 400
}

/// The days of `year` before the first of `month`.
pub open spec fn days_before_month(year: int, month: int) -> int
    decreases month,
{
    if month <= 1 {
        0
    } else {
        days_before_month(year, month - 1) + days_in_month(year, month - 1)
    }
}

/// The day number (days from the common era, 1 January of year 1 being day 1)
/// of the proleptic Gregorian date `year`-`month`-`day`.
pub open spec fn ce_day_of(year: int, month: int, day: int) -> int {
    days_before_year(year) + days_before_month(year, month) + day
}

/// The proleptic Gregorian (year, month, day) of a day number.
pub uninterp spec fn civil_date_of(days: int) -> (int, int, int);

/// A calendar day, held as its day number counted from the common era.
#[derive(Clone, Copy, PartialEq, Eq, Structural, Debug)]
pub struct Date {
    pub days: i32,
}

/// The first year of the calendar's range.
pub const MIN_YEAR: i32 = -262143;

/// The last year of the calendar's range.
pub const MAX_YEAR: i32 = 262142;

/// The day number of 1 January of `MIN_YEAR`.
pub const MIN_DAY: i32 = -95746129;

/// The day number of 31 December of `MAX_YEAR`.
pub const MAX_DAY: i32 = 95745399;

/// Whether `year` is a Gregorian leap year.
pub open spec fn is_leap_year(year: int) -> bool {
    year % 4 == 0 && (year % 100 != 0 || year % 400 == 0)
}

/// The number of days in month `month` of `year`.
pub open spec fn days_in_month(year: int, month: int) -> int {
    if month == 2 {
        if is_leap_year(year) {
            29
        } else {
            28
        }
    } else if month == 4 || month == 6 || month == 9 || month == 11 {
        30
    } else {
        31
    }
}

/// Whether `year`-`month`-`day` is a date within the calendar's range.
pub open spec fn valid_ymd(year: int, month: int, day: int) -> bool {
    &&& MIN_YEAR <= year <= MAX_YEAR
    &&& 1 <= month <= 12
    &&& 1 <= day <= days_in_month(year, month)
}

/// Whether day number `days` lies within the calendar's range.
pub open spec fn in_calendar(days: int) -> bool {
    MIN_DAY <= days <= MAX_DAY
}

/// Relies on chrono's `NaiveDate::from_ymd_opt` and `Datelike::num_days_from_ce`:
/// a date exactly when the year is within chrono's range and the month and
/// day exist, and then its day number.
#[verifier::external_body]
fn day_number_of(year: i32, month: u32, day: u32) -> (r: Option<i32>)
    ensures
        r is Some <==> valid_ymd(year as int, month as int, day as int),
        r matches Some(n) ==> n == ce_day_of(year as int, month as int, day as int),
{
    match NaiveDate::from_ymd_opt(year, month, day) {
        Some(d) => Some(d.num_days_from_ce()),
        None => None,
    }
}

/// Relies on chrono's `NaiveDate::from_num_days_from_ce_opt`, which gives a
/// date exactly for the day numbers of `NaiveDate::MIN..=NaiveDate::MAX`, and
/// on the `year`, `month` and `day` of `Datelike`: the valid date whose day
/// number is `days`.
#[verifier::external_body]
fn civil_date(days: i32) -> (r: Option<(i32, u32, u32)>)
    ensures
        r is Some <==> in_calendar(days as int),
        r matches Some(t) ==> (t.0 as int, t.1 as int, t.2 as int) == civil_date_of(days as int)
            && valid_ymd(t.0 as int, t.1 as int, t.2 as int) && ce_day_of(
            t.0 as int,
            t.1 as int,
            t.2 as int,
        ) == days,
{
    match NaiveDate::from_num_days_from_ce_opt(days) {
        Some(d) => Some((d.year(), d.month(), d.day())),
        None => None,
    }
}

impl Date {
    pub fn from_days(days: i32) -> (r: Date)
        ensures
            r.days == days,
    {
        Date { days }
    }

    /// The date `year`-`month`-`day`, or `None` when no such date exists.
    pub fn from_ymd(year: i32, month: u32, day: u32) -> (r: Option<Date>)
        ensures
            r is Some <==> valid_ymd(year as int, month as int, day as int),
            r matches Some(d) ==> d.days == ce_day_of(year as int, month as int, day as int),
    {
        match day_number_of(year, month, day) {
            Some(n) => Some(Date { days: n }),
            None => None,
        }
    }

    pub fn days(&self) -> (r: i32)
        ensures
            r == self.days,
    {
        self.days
    }

    /// The following day.
    pub fn next_day(&self) -> (r: Date)
        requires
            self.days < i32::MAX,
        ensures
            r.days == self.days + 1,
    {
        Date { days: self.days + 1 }
    }

    /// The (year, month, day) of this date, or `None` outside the calendar's range.
    pub fn year_month_day(&self) -> (r: Option<(i32, u32, u32)>)
        ensures
            r is Some <==> in_calendar(self.days as int),
            r matches Some(t) ==> (t.0 as int, t.1 as int, t.2 as int) == civil_date_of(
                self.days as int,
            ) && valid_ymd(t.0 as int, t.1 as int, t.2 as int) && ce_day_of(
                t.0 as int,
                t.1 as int,
                t.2 as int,
            ) == self.days,
    {
        civil_date(self.days)
    }

    /// Whole days from `self` until `later`; negative when `later` comes first.
    pub fn days_until(&self, later: Date) -> (r: i64)
        ensures
            r == later.days - self.days,
    {
        later.days as i64 - self.days as i64
    }
}

} // verus!
