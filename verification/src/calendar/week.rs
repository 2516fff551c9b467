//! The number of the week in which a date lies.
//!
//! Weeks run from Monday to Sunday.  The first days of January belong to
//! the last week of the year before where the year begins late in the week,
//! and the last days of December belong to the first week of the next year
//! where the year ends early in the week.
use vstd::prelude::*;
use crate::calendar::date::{
    days_before_year, lemma_days_before_month_table, lemma_days_before_year_step,
    lemma_ordinal_bounds, year_length, CalendarDate, MAX_YEAR,
};
use crate::calendar::offset::{day_of_year, first_of_january, last_of_december};
use crate::calendar::weekday::{
    lemma_weekday_shift, weekday, FRIDAY, MONDAY, SUNDAY, WEDNESDAY,
};

verus! {

/// The weekday on which `year` begins, with 0 in place of 7 for a Sunday.
pub open spec fn january_index(year: int) -> int {
    let w = first_of_january(year).weekday();
    if w == SUNDAY {
        0
    } else {
        w
    }
}

/// The week of the day at `position` in a year that begins on the weekday
/// `index`, counted within that year.
///
/// A year that begins on a Friday or a Saturday counts its weeks three days
/// late, any other year two days late.  The division rounds toward zero:
/// the first day of a year that begins on a Sunday is in week 1.
pub open spec fn week_by_position(position: int, index: int) -> int {
    if index > 4 {
        (position + index - 3) / 7 + 1
    } else if position + index < 2 {
        1
    } else {
        (position + index - 2) / 7 + 1
    }
}

impl CalendarDate {
    /// Whether the date is one of the first days of a January that belong
    /// to the last week of the year before: the year begins on a Friday or
    /// a Saturday, and the date lies before its first Monday.
    pub open spec fn in_week_of_previous_year(self) -> bool {
        &&& january_index(self.year as int) > 4
        &&& self.month == 1
        &&& self.day <= 8 - january_index(self.year as int)
    }

    /// Whether the date is one of the last days of a December that belong
    /// to the first week of the next year: the year ends before a Friday,
    /// and fewer days remain after the date than the weekday of its last
    /// day says.
    pub open spec fn in_week_of_next_year(self) -> bool {
        &&& self.month == 12
        &&& last_of_december(self.year as int).weekday() < FRIDAY
        &&& 31 - self.day < last_of_december(self.year as int).weekday()
    }

    /// The week of the date, counted within its own year.
    pub open spec fn week_in_year(self) -> int {
        if self.in_week_of_next_year() {
            1
        } else {
            week_by_position(self.ordinal(), january_index(self.year as int))
        }
    }

    /// The week number of the date.
    pub open spec fn week(self) -> int {
        if self.in_week_of_previous_year() {
            last_of_december(self.year - 1).week_in_year()
        } else {
            self.week_in_year()
        }
    }

    /// Whether the week of the date, from its Monday to its Sunday, holds
    /// the first Thursday of `year`.
    pub open spec fn in_first_week_of(self, year: int) -> bool {
        let thursday = self.day_number() - self.weekday() + 4;
        days_before_year(year) < thursday <= days_before_year(year) + 7
    }

    /// Whether the date lies in the week that holds the first Thursday of a
    /// year: of its own year or of the next.
    pub open spec fn in_a_first_week(self) -> bool {
        self.in_first_week_of(self.year as int) || self.in_first_week_of(self.year + 1)
    }
}

/// The weekday on which `year` begins, with 0 in place of 7 for a Sunday.
pub fn january_weekday(year: u32) -> (index: u32)
    requires
        1 <= year <= MAX_YEAR,
    ensures
        index == january_index(year as int),
        index <= 6,
{
    let w: u32 = weekday(CalendarDate { year, month: 1, day: 1 });
    if w == SUNDAY {
        0
    } else {
        w
    }
}

/// The week of `date`, counted within its own year: 1 for the last days of
/// a December that belong to the next year's first week.
pub fn week_within_year(date: CalendarDate) -> (week: u32)
    requires
        date.is_valid(),
    ensures
        week == date.week_in_year(),
        1 <= week <= 53,
{
    let index: u32 = january_weekday(date.year);
    let position: u32 = day_of_year(date);
    let counted: u32 = if index > 4 {
        (position + index - 3) / 7 + 1
    } else if position + index < 2 {
        1
    } else {
        (position + index - 2) / 7 + 1
    };
    if date.month == 12 {
        let last: u32 = weekday(CalendarDate { year: date.year, month: 12, day: 31 });
        if last < FRIDAY && 31 - date.day < last {
            return 1;
        }
    }
    counted
}

/// The week number of `date`.
///
/// The first days of a year that begins on a Friday or a Saturday have the
/// number of the last week of the year before.  The last days of a year
/// that ends before a Friday have the number 1.  Any other date has the
/// week counted from the weekday on which its year begins.
pub fn week_number(date: CalendarDate) -> (week: u32)
    requires
        date.is_valid(),
    ensures
        week == date.week(),
        1 <= week <= 53,
{
    let index: u32 = january_weekday(date.year);
    if index > 4 && date.month == 1 && date.day <= 8 - index {
        // Year 1 begins on a Monday, so there is a year before this one.
        assert(date.year > 1) by {
            lemma_days_before_month_table(1);
        }
        week_within_year(CalendarDate { year: date.year - 1, month: 12, day: 31 })
    } else {
        week_within_year(date)
    }
}

/// A date in the week that holds the first Thursday of a year has week
/// number 1.
///
/// This does not hold in a year that begins on a Friday or a Saturday for
/// the days after its first Monday, which the count puts in week 2; they
/// are left out.
pub proof fn lemma_first_week_is_week_one(date: CalendarDate)
    requires
        date.is_valid(),
        date.in_a_first_week(),
        january_index(date.year as int) > 4 && date.month == 1 ==> date.day <= 9 - january_index(
            date.year as int,
        ),
    ensures
        date.week() == 1,
{
    let year = date.year as int;
    let first = first_of_january(year);
    let last = last_of_december(year);
    lemma_days_before_month_table(year);
    lemma_days_before_year_step(year);
    lemma_ordinal_bounds(date);
    lemma_weekday_shift(first, date);
    lemma_weekday_shift(date, last);
    let wd = date.weekday();
    let position = date.ordinal();
    if date.in_first_week_of(year) {
        assert(1 <= position - wd + 4 <= 7);
        assert(date.month == 1);
        assert(first.ordinal() == 1);
        assert((wd - first.weekday() - (position - 1)) % 7 == 0);
    } else {
        assert(position - wd + 4 > year_length(year));
        assert(date.month == 12);
        assert(last.ordinal() == year_length(year));
        assert(last.day_number() - date.day_number() == 31 - date.day);
        assert((last.weekday() - wd - (31 - date.day)) % 7 == 0);
    }
}

/// In a year whose last day is a Monday, a Tuesday or a Wednesday, the
/// days of December from the last Monday on have week number 1.
pub proof fn lemma_last_days_of_december(date: CalendarDate)
    requires
        date.is_valid(),
        date.month == 12,
        MONDAY <= last_of_december(date.year as int).weekday() <= WEDNESDAY,
        31 - date.day < last_of_december(date.year as int).weekday(),
    ensures
        date.week() == 1,
{
}

} // verus!
