//! Calendar arithmetic: leap years, the day of the year and the minute of
//! the year.

use vstd::prelude::*;
use crate::error::Error;

verus! {

/// Minutes in one day.
pub const MINUTES_PER_DAY: u32 = 1440;

/// The Gregorian rule: every fourth year, but of the centuries only every
/// fourth.
pub open spec fn spec_is_leap_year(year: int) -> bool {
    (year % 4 == 0 && year % 100 != 0) || year % 400 == 0
}

/// Days in the year: 366 in a leap year, else 365.
pub open spec fn spec_days_in_year(leap_year: bool) -> int {
    if leap_year { 366 } else { 365 }
}

/// Days in `month` (1 to 12); 0 for any other number.
pub open spec fn days_in_month(month: int, leap_year: bool) -> int {
    if month == 2 {
        if leap_year { 29 } else { 28 }
    } else if month == 4 || month == 6 || month == 9 || month == 11 {
        30
    } else if 1 <= month <= 12 {
        31
    } else {
        0
    }
}

/// Days of the year that lie before the first of `month` (1 to 12).
pub open spec fn days_before_month(month: int, leap_year: bool) -> int {
    let after_february: int = if leap_year { 1 } else { 0 };
    if month == 1 {
        0
    } else if month == 2 {
        31
    } else if month == 3 {
        59 + after_february
    } else if month == 4 {
        90 + after_february
    } else if month == 5 {
        120 + after_february
    } else if month == 6 {
        151 + after_february
    } else if month == 7 {
        181 + after_february
    } else if month == 8 {
        212 + after_february
    } else if month == 9 {
        243 + after_february
    } else if month == 10 {
        273 + after_february
    } else if month == 11 {
        304 + after_february
    } else {
        334 + after_february
    }
}

/// `month` and `day` name a day of the calendar.
pub open spec fn valid_date(month: int, day: int, leap_year: bool) -> bool {
    1 <= month <= 12 && 1 <= day <= days_in_month(month, leap_year)
}

/// `hour` and `minute` name a minute of the day.
pub open spec fn valid_time(hour: int, minute: int) -> bool {
    0 <= hour <= 23 && 0 <= minute <= 59
}

/// The 1-based ordinal of a day within its year.
pub open spec fn spec_day_of_year(month: int, day: int, leap_year: bool) -> int {
    days_before_month(month, leap_year) + day
}

/// Minutes from January 1st, 00:00, to the given minute.
pub open spec fn spec_minute_of_year(day_of_year: int, hour: int, minute: int) -> int {
    (day_of_year - 1) * 1440 + hour * 60 + minute
}

pub fn is_leap_year(year: u32) -> (leap: bool)
    ensures
        leap == spec_is_leap_year(year as int),
{
    (year % 4 == 0 && year % 100 != 0) || year % 400 == 0
}

pub fn days_in_year(leap_year: bool) -> (days: u32)
    ensures
        days == spec_days_in_year(leap_year),
{
    if leap_year { 366 } else { 365 }
}

/// The length of `month`, or 0 where `month` is not 1 to 12.
pub fn month_length(month: u32, leap_year: bool) -> (days: u32)
    ensures
        days == days_in_month(month as int, leap_year),
{
    if month == 2 {
        if leap_year { 29 } else { 28 }
    } else if month == 4 || month == 6 || month == 9 || month == 11 {
        30
    } else if 1 <= month && month <= 12 {
        31
    } else {
        0
    }
}

/// The ordinal of the day in its year, from the table of days before each
/// month. A month outside 1 to 12, or a day that the month does not have, is
/// refused.
pub fn day_of_year(month: u32, day: u32, leap_year: bool) -> (ordinal: Result<u32, Error>)
    ensures
        valid_date(month as int, day as int, leap_year) ==> ordinal == Ok::<u32, Error>(
            spec_day_of_year(month as int, day as int, leap_year) as u32,
        ),
        !valid_date(month as int, day as int, leap_year) ==> ordinal == Err::<u32, Error>(
            Error::InvalidDate,
        ),
        ordinal is Ok ==> 1 <= ordinal->Ok_0 <= spec_days_in_year(leap_year),
{
    if month < 1 || month > 12 || day < 1 || day > month_length(month, leap_year) {
        return Err(Error::InvalidDate);
    }
    let common: [u32; 12] = [0, 31, 59, 90, 120, 151, 181, 212, 243, 273, 304, 334];
    let leap: [u32; 12] = [0, 31, 60, 91, 121, 152, 182, 213, 244, 274, 305, 335];
    let index: usize = (month - 1) as usize;
    let before: u32 = if leap_year { leap[index] } else { common[index] };
    Ok(before + day)
}

/// The minute of the year of a given day, hour and minute. A day outside 1
/// to 366, an hour past 23 or a minute past 59 is refused.
pub fn minute_of_year(day_of_year: u32, hour: u32, minute: u32) -> (offset: Result<u32, Error>)
    ensures
        1 <= day_of_year <= 366 && valid_time(hour as int, minute as int) ==> offset == Ok::<
            u32,
            Error,
        >(spec_minute_of_year(day_of_year as int, hour as int, minute as int) as u32),
        !(1 <= day_of_year <= 366 && valid_time(hour as int, minute as int)) ==> offset == Err::<
            u32,
            Error,
        >(Error::InvalidDate),
        offset is Ok ==> (day_of_year - 1) * 1440 <= offset->Ok_0 < day_of_year * 1440,
{
    if day_of_year < 1 || day_of_year > 366 || hour > 23 || minute > 59 {
        return Err(Error::InvalidDate);
    }
    Ok((day_of_year - 1) * MINUTES_PER_DAY + hour * 60 + minute)
}

/// The day of the year never falls outside the year.
pub proof fn lemma_day_of_year_in_range(month: int, day: int, leap_year: bool)
    requires
        valid_date(month, day, leap_year),
    ensures
        1 <= spec_day_of_year(month, day, leap_year) <= spec_days_in_year(leap_year),
        spec_days_in_year(leap_year) <= 366,
{
}

/// Each month begins where the month before it ends, and December ends with
/// the year.
pub proof fn lemma_months_are_consecutive(month: int, leap_year: bool)
    requires
        1 <= month <= 12,
    ensures
        month < 12 ==> days_before_month(month + 1, leap_year) == days_before_month(
            month,
            leap_year,
        ) + days_in_month(month, leap_year),
        month == 12 ==> spec_days_in_year(leap_year) == days_before_month(month, leap_year)
            + days_in_month(month, leap_year),
{
}

/// More days lie before a later month, by at least the length of the
/// earlier one.
pub proof fn lemma_days_before_month_grows(earlier: int, later: int, leap_year: bool)
    requires
        1 <= earlier < later <= 12,
    ensures
        days_before_month(earlier, leap_year) + days_in_month(earlier, leap_year)
            <= days_before_month(later, leap_year),
{
}

/// Of two days of one year, the one that comes later in the calendar, by
/// month and then by day, has the greater day of the year.
pub proof fn lemma_day_of_year_strictly_increasing(
    month_a: int,
    day_a: int,
    month_b: int,
    day_b: int,
    leap_year: bool,
)
    requires
        valid_date(month_a, day_a, leap_year),
        valid_date(month_b, day_b, leap_year),
        month_a < month_b || (month_a == month_b && day_a < day_b),
    ensures
        spec_day_of_year(month_a, day_a, leap_year) < spec_day_of_year(month_b, day_b, leap_year),
{
    if month_a < month_b {
        lemma_days_before_month_grows(month_a, month_b, leap_year);
    }
}

/// The day after a valid date, within one year, is the next day of the
/// year: the ordinals leave no gap.
pub proof fn lemma_day_of_year_has_no_gap(month: int, day: int, leap_year: bool)
    requires
        valid_date(month, day, leap_year),
    ensures
        day < days_in_month(month, leap_year) ==> spec_day_of_year(month, day + 1, leap_year)
            == spec_day_of_year(month, day, leap_year) + 1,
        day == days_in_month(month, leap_year) && month < 12 ==> spec_day_of_year(
            month + 1,
            1,
            leap_year,
        ) == spec_day_of_year(month, day, leap_year) + 1,
{
}

} // verus!
