//! The position of a date in its year, and the distance between two dates.
use vstd::prelude::*;
use crate::calendar::date::{
    date_of, days_before_month, days_before_year, is_leap_year, leap,
    lemma_days_before_month_table, lemma_days_before_year_step, lemma_ordinal_bounds,
    lemma_succ_counts_one, month_length, year_length, CalendarDate, CalendarError, MAX_YEAR,
};

verus! {

/// The first of January of `year`.
pub open spec fn first_of_january(year: int) -> CalendarDate {
    CalendarDate { year: year as u32, month: 1, day: 1 }
}

/// The 31st of December of `year`.
pub open spec fn last_of_december(year: int) -> CalendarDate {
    CalendarDate { year: year as u32, month: 12, day: 31 }
}

/// The position of `date` in its year: the lengths of the months before
/// its month, and its day.  The first of January has position 1.
pub fn day_of_year(date: CalendarDate) -> (n: u32)
    requires
        date.is_valid(),
    ensures
        n == date.ordinal(),
        1 <= n <= year_length(date.year as int),
{
    let mut total: u32 = 0;
    let mut m: u32 = 1;
    while m < date.month
        invariant
            1 <= m <= date.month <= 12,
            total == days_before_month(date.year as int, m as int),
            total <= 31 * (m - 1),
        decreases date.month - m,
    {
        total = total + month_length(date.year, m);
        m = m + 1;
    }
    proof {
        lemma_ordinal_bounds(date);
    }
    total + date.day
}

/// The number of days of the year that follow `date`: the length of the
/// year less the position of the date.
pub fn days_remaining_in_year(date: CalendarDate) -> (n: u32)
    requires
        date.is_valid(),
    ensures
        n == date.remaining(),
        n == year_length(date.year as int) - date.ordinal(),
        n < year_length(date.year as int),
{
    let length: u32 = if is_leap_year(date.year) {
        366
    } else {
        365
    };
    length - day_of_year(date)
}

/// The number of days from `to` to `from`, for two dates of one year or
/// with `from` in the year after `to`.  It is negative where `from` is the
/// earlier date.
///
/// Within one year it is the difference of the two positions; across the
/// end of a year it is the position of `from` and what remained of the year
/// of `to`.
pub fn days_between(from: CalendarDate, to: CalendarDate) -> (n: i32)
    requires
        from.is_valid(),
        to.is_valid(),
        from.year == to.year || from.year == to.year + 1,
    ensures
        n == from.day_number() - to.day_number(),
        from.year == to.year ==> n == from.ordinal() - to.ordinal(),
        from.year == to.year + 1 ==> n == from.ordinal() + to.remaining(),
{
    proof {
        lemma_days_before_year_step(to.year as int);
    }
    if from.year == to.year {
        day_of_year(from) as i32 - day_of_year(to) as i32
    } else {
        (day_of_year(from) + days_remaining_in_year(to)) as i32
    }
}

/// The position of a date and the days that remain after it make up the
/// year: 366 days in a leap year and 365 in any other.
pub proof fn lemma_year_partition(date: CalendarDate)
    requires
        date.is_valid(),
    ensures
        date.ordinal() + date.remaining() == year_length(date.year as int),
        date.ordinal() + date.remaining() == (if leap(date.year as int) {
            366int
        } else {
            365int
        }),
        date.ordinal() >= 1,
        date.remaining() >= 0,
{
    lemma_ordinal_bounds(date);
}

/// The days before a year grow with the year.
pub proof fn lemma_days_before_year_monotone(earlier: int, later: int)
    requires
        1 <= earlier <= later,
    ensures
        days_before_year(earlier) <= days_before_year(later),
        days_before_year(later) - days_before_year(earlier) >= 365 * (later - earlier),
    decreases later - earlier,
{
    if earlier < later {
        lemma_days_before_year_monotone(earlier, later - 1);
        lemma_days_before_year_step(later - 1);
    }
}

/// Stepping forward from a day, day by day, adds one to the day number
/// with each step, and at most one to the year.
pub proof fn lemma_after_counts(date: CalendarDate, steps: nat)
    requires
        date.is_day(),
        date.year + steps + 1 < u32::MAX,
    ensures
        date.after(steps).is_day(),
        date.after(steps).day_number() == date.day_number() + steps,
        date.year <= date.after(steps).year <= date.year + steps,
    decreases steps,
{
    if steps > 0 {
        let before = date.after((steps - 1) as nat);
        lemma_after_counts(date, (steps - 1) as nat);
        lemma_succ_counts_one(before);
    }
}

/// Stepping forward from a date, day by day, without leaving its year, adds
/// one to its position with each step.
pub proof fn lemma_after_within_year(date: CalendarDate, steps: nat)
    requires
        date.is_valid(),
        date.ordinal() + steps <= year_length(date.year as int),
    ensures
        date.after(steps).is_valid(),
        date.after(steps).year == date.year,
        date.after(steps).ordinal() == date.ordinal() + steps,
        date.after(steps).day_number() == date.day_number() + steps,
    decreases steps,
{
    if steps > 0 {
        let before = date.after((steps - 1) as nat);
        lemma_after_within_year(date, (steps - 1) as nat);
        lemma_ordinal_bounds(before);
        lemma_succ_counts_one(before);
    }
}

/// Stepping forward from the first of January of a year, day by day, as
/// many times as the year has days, arrives at the first of January of the
/// next year.
pub proof fn lemma_year_cycle(year: int)
    requires
        1 <= year <= MAX_YEAR,
    ensures
        first_of_january(year).after(year_length(year) as nat) == first_of_january(year + 1),
{
    let start = first_of_january(year);
    let steps = (year_length(year) - 1) as nat;
    lemma_days_before_month_table(year);
    lemma_after_within_year(start, steps);
    let last = start.after(steps);
    lemma_ordinal_bounds(last);
    lemma_succ_counts_one(last);
    assert(start.after((steps + 1) as nat) == last.succ());
}

/// Two days with the same day number are the same day.
pub proof fn lemma_day_number_determines_date(a: CalendarDate, b: CalendarDate)
    requires
        a.is_day(),
        b.is_day(),
        a.day_number() == b.day_number(),
    ensures
        a == b,
{
    lemma_ordinal_bounds(a);
    lemma_ordinal_bounds(b);
    if a.year < b.year {
        lemma_days_before_year_step(a.year as int);
        lemma_days_before_year_monotone(a.year + 1, b.year as int);
    } else if b.year < a.year {
        lemma_days_before_year_step(b.year as int);
        lemma_days_before_year_monotone(b.year + 1, a.year as int);
    } else {
        lemma_days_before_month_table(a.year as int);
    }
}

/// Taking a valid date apart into year, month and day and making a date of
/// the three again gives the date back.
pub proof fn lemma_round_trip(date: CalendarDate)
    requires
        date.is_valid(),
    ensures
        date_of(date.year as int, date.month as int, date.day as int) == Ok::<
            CalendarDate,
            CalendarError,
        >(date),
{
}

} // verus!
