//! The day of the week.
//!
//! Weekdays are numbered from 1 for Monday to 7 for Sunday, so that 6 and 7
//! are the weekend.  The first of January of year 1 is a Monday.
use vstd::prelude::*;
use crate::calendar::date::{lemma_days_before_month_table, lemma_succ_counts_one, CalendarDate};

verus! {

/// The first day of the week.
pub const MONDAY: u32 = 1;

/// The second day of the week.
pub const TUESDAY: u32 = 2;

/// The third day of the week.
pub const WEDNESDAY: u32 = 3;

/// The fourth day of the week, by which the weeks of a year are counted.
pub const THURSDAY: u32 = 4;

/// The last day of the week before the weekend.
pub const FRIDAY: u32 = 5;

/// The first day of the weekend.
pub const SATURDAY: u32 = 6;

/// The last day of the week.
pub const SUNDAY: u32 = 7;

/// The weekday of the day with the given day number: day 1 is a Monday,
/// and the weekdays follow each other in a cycle of seven.
pub open spec fn weekday_of_day(day_number: int) -> int {
    (day_number - 1) % 7 + 1
}

impl CalendarDate {
    /// The weekday of the date, 1 for Monday to 7 for Sunday.
    pub open spec fn weekday(self) -> int {
        weekday_of_day(self.day_number())
    }

    /// Whether the date falls on a Saturday or a Sunday.
    pub open spec fn on_weekend(self) -> bool {
        self.weekday() >= SATURDAY
    }
}

/// The sum whose residue modulo 7 gives the weekday: `shifted_year` and
/// `m` are the year and month of the date, with January and February taken
/// as the months 13 and 14 of the year before.
pub open spec fn congruence_sum(shifted_year: int, m: int, day: int) -> int {
    let c = shifted_year / 100;
    let y = shifted_year % 100;
    y + y / 4 + c / 4 - 2 * c + 13 * (m + 1) / 5 + day - 1
}

/// The weekday of `date`, 1 for Monday to 7 for Sunday.
///
/// Computed by a congruence on the century, the year within the century and
/// the month, in which January and February count as the months 13 and 14
/// of the year before.
pub fn weekday(date: CalendarDate) -> (w: u32)
    requires
        date.is_valid(),
    ensures
        w == date.weekday(),
        1 <= w <= 7,
{
    let (shifted_year, m): (u32, u32) = if date.month <= 2 {
        (date.year - 1, date.month + 12)
    } else {
        (date.year, date.month)
    };
    let c: u32 = shifted_year / 100;
    let y: u32 = shifted_year % 100;
    let month_term: u32 = 13 * (m + 1) / 5;
    let gained: u32 = y + y / 4 + c / 4 + month_term + date.day;
    let sum: i64 = gained as i64 - 2 * (c as i64) - 1;
    let mut h: i64 = sum % 7;
    if h <= 0 {
        h += 7;
    }
    proof {
        assert(sum == congruence_sum(shifted_year as int, m as int, date.day as int));
        assert((h - sum) % 7 == 0);
        lemma_congruence(date, shifted_year as int, m as int);
        lemma_same_residue(h as int, sum as int, date.day_number());
    }
    h as u32
}

/// A number from 1 to 7 that differs from a day number by a multiple of 7
/// is the weekday of that day.
proof fn lemma_same_residue(h: int, sum: int, n: int)
    requires
        1 <= h <= 7,
        (h - sum) % 7 == 0,
        (n - sum) % 7 == 0,
    ensures
        weekday_of_day(n) == h,
{
}

/// The sum that the congruence takes modulo 7 differs from the day number
/// of the date by a multiple of 7.
proof fn lemma_congruence(date: CalendarDate, shifted_year: int, m: int)
    requires
        date.is_valid(),
        date.month <= 2 ==> shifted_year == date.year - 1 && m == date.month + 12,
        date.month > 2 ==> shifted_year == date.year && m == date.month,
    ensures
        (date.day_number() - congruence_sum(shifted_year, m, date.day as int)) % 7 == 0,
{
    lemma_days_before_month_table(date.year as int);
    let c = shifted_year / 100;
    let y = shifted_year % 100;
    let n = date.day_number();
    // The days of the months, counted from the first of March of the
    // shifted year, less the 306 days from there to the end of that year.
    let from_march: int = if m == 3 {
        -306
    } else if m == 4 {
        -275
    } else if m == 5 {
        -245
    } else if m == 6 {
        -214
    } else if m == 7 {
        -184
    } else if m == 8 {
        -153
    } else if m == 9 {
        -122
    } else if m == 10 {
        -92
    } else if m == 11 {
        -61
    } else if m == 12 {
        -31
    } else if m == 13 {
        0
    } else {
        31
    };
    let leap_days = shifted_year / 4 - shifted_year / 100 + shifted_year / 400;
    assert(n == 365 * shifted_year + leap_days + from_march + date.day);
    assert(shifted_year == 100 * c + y);
    assert(shifted_year / 4 == 25 * c + y / 4);
    assert(shifted_year / 400 == c / 4);
    let month_term = 13 * (m + 1) / 5;
    let k = (from_march - month_term + 1) / 7;
    assert(from_march - month_term + 1 == 7 * k);
    let sum = congruence_sum(shifted_year, m, date.day as int);
    assert(n - sum == 7 * (5218 * c + 52 * y + k));
}

/// The weekdays follow each other: the day after a Sunday is a Monday, and
/// any other day is followed by the next weekday.
pub proof fn lemma_weekday_of_next_day(date: CalendarDate)
    requires
        date.is_valid(),
    ensures
        date.succ().weekday() == date.weekday() % 7 + 1,
{
    lemma_succ_counts_one(date);
}

/// Dates a whole number of weeks apart fall on the same weekday, and the
/// weekday moves with the distance otherwise.
pub proof fn lemma_weekday_shift(a: CalendarDate, b: CalendarDate)
    ensures
        1 <= a.weekday() <= 7,
        (b.weekday() - a.weekday() - (b.day_number() - a.day_number())) % 7 == 0,
{
}

} // verus!
