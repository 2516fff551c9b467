//! Calendar dates, leap years, month lengths and the day after a date.
//!
//! The mathematical model of a date is its *day number*: the count of days
//! from the first of January of year 1, which has day number 1.  Every
//! other notion of this engine (the weekday, the distance between two
//! dates) is stated over day numbers.
use vstd::prelude::*;

verus! {

/// The first year the calendar covers.
pub const MIN_YEAR: u32 = 1;

/// The last year the calendar covers.
pub const MAX_YEAR: u32 = 9999;

/// What a calendar computation can fail with.
#[derive(Clone, Copy, Debug, PartialEq, Eq, Structural)]
pub enum CalendarError {
    /// The text does not consist of exactly three numeric fields separated
    /// by hyphens.
    FormatError,
    /// Year, month and day do not name a day of the calendar.
    InvalidDate,
    /// The lunar new year table has no entry for the year given here.
    MissingLunarData(u32),
    /// No trading day was found within the search limit.
    SearchLimitExceeded,
}

/// A day of the Gregorian calendar.
#[derive(Clone, Copy, Debug, PartialEq, Eq, Structural)]
pub struct CalendarDate {
    pub year: u32,
    pub month: u32,
    pub day: u32,
}

/// The Gregorian leap-year rule: every fourth year, except the centuries
/// that are not multiples of 400.
pub open spec fn leap(year: int) -> bool {
    (year % 4 == 0 && year % 100 != 0) || year % 400 == 0
}

/// The number of days of `year`.
pub open spec fn year_length(year: int) -> int {
    if leap(year) {
        366
    } else {
        365
    }
}

/// The number of days of `month` in `year`; 0 where `month` is no month.
pub open spec fn month_days(year: int, month: int) -> int {
    if month == 2 {
        if leap(year) {
            29
        } else {
            28
        }
    } else if month == 4 || month == 6 || month == 9 || month == 11 {
        30
    } else if 1 <= month <= 12 {
        31
    } else {
        0
    }
}

/// The number of days of `year` that lie before the first of `month`.
pub open spec fn days_before_month(year: int, month: int) -> int
    decreases month,
{
    if month <= 1 {
        0
    } else {
        days_before_month(year, month - 1) + month_days(year, month - 1)
    }
}

/// The number of days of the calendar that lie before the first of
/// January of `year`.
pub open spec fn days_before_year(year: int) -> int {
    365 * (year - 1) + (year - 1) / 4 - (year - 1) / 100 + (year - 1) / 400
}

/// Whether month and day name a day of `year`.
pub open spec fn names_a_day_of(year: int, month: int, day: int) -> bool {
    &&& 1 <= month <= 12
    &&& 1 <= day <= month_days(year, month)
}

/// Whether year, month and day name a day of the calendar.
pub open spec fn names_a_day(year: int, month: int, day: int) -> bool {
    &&& MIN_YEAR <= year <= MAX_YEAR
    &&& names_a_day_of(year, month, day)
}

/// The date of the given year, month and day, or `InvalidDate` where they
/// name no day of the calendar.
pub open spec fn date_of(year: int, month: int, day: int) -> Result<CalendarDate, CalendarError> {
    if names_a_day(year, month, day) {
        Ok(CalendarDate { year: year as u32, month: month as u32, day: day as u32 })
    } else {
        Err(CalendarError::InvalidDate)
    }
}

impl CalendarDate {
    /// The validity of a date: its year lies in the calendar, its month in
    /// the year and its day in the month.
    pub open spec fn is_valid(self) -> bool {
        names_a_day(self.year as int, self.month as int, self.day as int)
    }

    /// Whether the date is a day of its year, which may lie after the last
    /// year of the calendar.
    pub open spec fn is_day(self) -> bool {
        &&& MIN_YEAR <= self.year < u32::MAX
        &&& names_a_day_of(self.year as int, self.month as int, self.day as int)
    }

    /// The position of the date in its year, 1 for the first of January.
    pub open spec fn ordinal(self) -> int {
        days_before_month(self.year as int, self.month as int) + self.day
    }

    /// The number of days of the year that follow the date.
    pub open spec fn remaining(self) -> int {
        year_length(self.year as int) - self.ordinal()
    }

    /// The day number: 1 for the first of January of year 1, and one more
    /// for each day after it.
    pub open spec fn day_number(self) -> int {
        days_before_year(self.year as int) + self.ordinal()
    }

    /// Whether the date is the 31st of December.
    pub open spec fn ends_year(self) -> bool {
        self.month == 12 && self.day == 31
    }

    /// The day after the date.
    pub open spec fn succ(self) -> CalendarDate {
        if self.day < month_days(self.year as int, self.month as int) {
            CalendarDate { year: self.year, month: self.month, day: (self.day + 1) as u32 }
        } else if self.month < 12 {
            CalendarDate { year: self.year, month: (self.month + 1) as u32, day: 1 }
        } else {
            CalendarDate { year: (self.year + 1) as u32, month: 1, day: 1 }
        }
    }

    /// The date `steps` days after the date.
    pub open spec fn after(self, steps: nat) -> CalendarDate
        decreases steps,
    {
        if steps == 0 {
            self
        } else {
            self.after((steps - 1) as nat).succ()
        }
    }

    /// Makes the date of the given year, month and day, or fails with
    /// `InvalidDate` where they name no day of the calendar.
    pub fn new(year: u32, month: u32, day: u32) -> (r: Result<CalendarDate, CalendarError>)
        ensures
            r == date_of(year as int, month as int, day as int),
            r is Ok ==> r->Ok_0.is_valid(),
    {
        if year < MIN_YEAR || year > MAX_YEAR || month < 1 || month > 12 || day < 1 {
            return Err(CalendarError::InvalidDate);
        }
        if day > month_length(year, month) {
            return Err(CalendarError::InvalidDate);
        }
        Ok(CalendarDate { year, month, day })
    }

    /// The year of the date.
    pub fn year(&self) -> (y: u32)
        ensures
            y == self.year,
    {
        self.year
    }

    /// The month of the date, 1 for January.
    pub fn month(&self) -> (m: u32)
        ensures
            m == self.month,
    {
        self.month
    }

    /// The day of the month, 1 for the first.
    pub fn day(&self) -> (d: u32)
        ensures
            d == self.day,
    {
        self.day
    }
}

/// Tells whether `year` is a leap year.
pub fn is_leap_year(year: u32) -> (b: bool)
    ensures
        b == leap(year as int),
{
    (year % 4 == 0 && year % 100 != 0) || year % 400 == 0
}

/// The lengths of the twelve months of `year`, each at the index of its
/// month; index 0 holds 0.
pub fn month_lengths(year: u32) -> (table: [u32; 13])
    ensures
        forall|m: int| 0 <= m <= 12 ==> table[m] == month_days(year as int, m),
{
    let mut table: [u32; 13] = [0, 31, 28, 31, 30, 31, 30, 31, 31, 30, 31, 30, 31];
    if is_leap_year(year) {
        table[2] = 29;
    }
    table
}

/// The number of days of `month` in `year`.
pub fn month_length(year: u32, month: u32) -> (n: u32)
    requires
        1 <= month <= 12,
    ensures
        n == month_days(year as int, month as int),
        28 <= n <= 31,
{
    let table = month_lengths(year);
    assert(table[month as int] == month_days(year as int, month as int));
    table[month as usize]
}

/// The day after `date`, also where `date` or the day after it is no day
/// of the calendar: the next day of the month, the first of the next month
/// after the last day of a month, and the first of January of the next
/// year after a December.
pub fn next_day(date: CalendarDate) -> (next: CalendarDate)
    requires
        1 <= date.month <= 12,
        date.year < u32::MAX,
    ensures
        next == date.succ(),
        1 <= next.month <= 12,
        date.year <= next.year <= date.year + 1,
{
    if date.day < month_length(date.year, date.month) {
        CalendarDate { year: date.year, month: date.month, day: date.day + 1 }
    } else if date.month < 12 {
        CalendarDate { year: date.year, month: date.month + 1, day: 1 }
    } else {
        CalendarDate { year: date.year + 1, month: 1, day: 1 }
    }
}

/// The day after `date`.  The last day of the calendar has none.
pub fn successor(date: CalendarDate) -> (next: CalendarDate)
    requires
        date.is_valid(),
        date.year < MAX_YEAR || !date.ends_year(),
    ensures
        next == date.succ(),
        next.is_valid(),
        next.day_number() == date.day_number() + 1,
{
    proof {
        lemma_succ_counts_one(date);
    }
    next_day(date)
}

/// Each year begins where the year before it ends: the days before a year
/// grow by the length of the year.
pub proof fn lemma_days_before_year_step(year: int)
    requires
        1 <= year,
    ensures
        days_before_year(1) == 0,
        days_before_year(year + 1) == days_before_year(year) + year_length(year),
{
}

/// The days before each month, written out.
pub proof fn lemma_days_before_month_table(year: int)
    ensures
        days_before_month(year, 1) == 0,
        days_before_month(year, 2) == 31,
        days_before_month(year, 3) == 59 + year_length(year) - 365,
        days_before_month(year, 4) == 90 + year_length(year) - 365,
        days_before_month(year, 5) == 120 + year_length(year) - 365,
        days_before_month(year, 6) == 151 + year_length(year) - 365,
        days_before_month(year, 7) == 181 + year_length(year) - 365,
        days_before_month(year, 8) == 212 + year_length(year) - 365,
        days_before_month(year, 9) == 243 + year_length(year) - 365,
        days_before_month(year, 10) == 273 + year_length(year) - 365,
        days_before_month(year, 11) == 304 + year_length(year) - 365,
        days_before_month(year, 12) == 334 + year_length(year) - 365,
        days_before_month(year, 13) == year_length(year),
{
    reveal_with_fuel(days_before_month, 14);
}

/// A day lies in its year: its position is at least 1 and at most the
/// length of the year, and the 31st of December is the last.
pub proof fn lemma_ordinal_bounds(date: CalendarDate)
    requires
        date.is_day(),
    ensures
        1 <= date.ordinal() <= year_length(date.year as int),
        0 <= date.remaining() < year_length(date.year as int),
        date.ordinal() == year_length(date.year as int) <==> date.ends_year(),
        date.ordinal() == 1 <==> date.month == 1 && date.day == 1,
{
    lemma_days_before_month_table(date.year as int);
}

/// The day after a day has the next day number; it is a day of the
/// calendar where the day is one and the calendar does not end with it.
pub proof fn lemma_succ_counts_one(date: CalendarDate)
    requires
        date.is_day(),
        date.year + 1 < u32::MAX,
    ensures
        date.succ().day_number() == date.day_number() + 1,
        date.succ().is_day(),
        date.is_valid() && (date.year < MAX_YEAR || !date.ends_year()) ==> date.succ().is_valid(),
        date.ends_year() ==> date.succ() == (CalendarDate {
            year: (date.year + 1) as u32,
            month: 1,
            day: 1,
        }),
        !date.ends_year() ==> date.succ().year == date.year && date.succ().ordinal()
            == date.ordinal() + 1,
{
    lemma_days_before_month_table(date.year as int);
    lemma_days_before_month_table(date.year + 1);
    lemma_days_before_year_step(date.year as int);
}

} // verus!
