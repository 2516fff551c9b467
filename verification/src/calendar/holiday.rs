//! The days on which no trading takes place.
//!
//! A day is closed where it is listed as a holiday of its year or falls on
//! a weekend.  The listed holidays are New Year's Day, the eve of the lunar
//! new year, the seven days from the lunar new year on, and the first five
//! days of May.  The date of the lunar new year comes from a table that the
//! caller supplies.
use std::collections::HashMap;
use vstd::prelude::*;
use crate::calendar::date::{
    month_days, month_length, names_a_day, next_day, CalendarDate, CalendarError, MAX_YEAR,
};
use crate::calendar::weekday::{weekday, SATURDAY};

verus! {

broadcast use vstd::std_specs::hash::group_hash_axioms;

/// Whether every entry of the table names a day of the calendar: the month
/// and day of the lunar new year in the year of the entry.
pub open spec fn table_is_valid(table: Map<u32, (u32, u32)>) -> bool {
    forall|year: u32| #[trigger]
        table.contains_key(year) ==> names_a_day(
            year as int,
            table[year].0 as int,
            table[year].1 as int,
        )
}

/// The dates of the lunar new year, by year.
pub struct LunarNewYearTable {
    entries: HashMap<u32, (u32, u32)>,
}

impl View for LunarNewYearTable {
    type V = Map<u32, (u32, u32)>;

    closed spec fn view(&self) -> Map<u32, (u32, u32)> {
        self.entries@
    }
}

impl LunarNewYearTable {
    /// The validity of a table: each entry names a day of its year.
    pub open spec fn is_valid(&self) -> bool {
        table_is_valid(self@)
    }

    /// A table without entries.
    pub fn new() -> (table: LunarNewYearTable)
        ensures
            table@ == Map::<u32, (u32, u32)>::empty(),
            table.is_valid(),
    {
        LunarNewYearTable { entries: HashMap::new() }
    }

    /// Records that the lunar new year of `year` falls on `day` of `month`,
    /// in place of what the table held for that year.  Fails with
    /// `InvalidDate`, and leaves the table as it was, where the three name
    /// no day of the calendar.
    pub fn insert(&mut self, year: u32, month: u32, day: u32) -> (r: Result<(), CalendarError>)
        requires
            old(self).is_valid(),
        ensures
            final(self).is_valid(),
            names_a_day(year as int, month as int, day as int) ==> r == Ok::<(), CalendarError>(())
                && final(self)@ == old(self)@.insert(year, (month, day)),
            !names_a_day(year as int, month as int, day as int) ==> r == Err::<
                (),
                CalendarError,
            >(CalendarError::InvalidDate) && final(self)@ == old(self)@,
    {
        match CalendarDate::new(year, month, day) {
            Ok(_) => {
                self.entries.insert(year, (month, day));
                Ok(())
            },
            Err(e) => Err(e),
        }
    }

    /// The month and day of the lunar new year of `year`, where the table
    /// has them.
    pub fn lookup(&self, year: u32) -> (r: Option<(u32, u32)>)
        ensures
            r == lunar_entry(self@, year as int),
    {
        match self.entries.get(&year) {
            Some(entry) => Some(*entry),
            None => None,
        }
    }
}

/// What the table holds for `year`.
pub open spec fn lunar_entry(table: Map<u32, (u32, u32)>, year: int) -> Option<(u32, u32)> {
    if 0 <= year <= u32::MAX && table.contains_key(year as u32) {
        Some(table[year as u32])
    } else {
        None
    }
}

/// The month and day of the eve of the lunar new year: the day before it,
/// which is the last day of the month before where the new year falls on a
/// first, and the 31st of December where that first is the first of January.
pub open spec fn lunar_eve(year: int, lunar_month: int, lunar_day: int) -> (int, int) {
    if lunar_day > 1 {
        (lunar_month, lunar_day - 1)
    } else if lunar_month > 1 {
        (lunar_month - 1, month_days(year, lunar_month - 1))
    } else {
        (12, 31)
    }
}

/// Whether `month` and `day` name one of the seven days that begin with the
/// lunar new year of `year`.
pub open spec fn in_festival_week(year: int, lunar: (u32, u32), month: int, day: int) -> bool {
    exists|k: nat|
        k < 7 && month == (#[trigger] festival_day(year, lunar, k)).month && day == festival_day(
            year,
            lunar,
            k,
        ).day
}

/// The day `k` days after the lunar new year of `year`.
pub open spec fn festival_day(year: int, lunar: (u32, u32), k: nat) -> CalendarDate {
    (CalendarDate { year: year as u32, month: lunar.0, day: lunar.1 }).after(k)
}

/// The month and the day of a date.
pub open spec fn month_and_day(date: CalendarDate) -> (u32, u32) {
    (date.month, date.day)
}

/// Whether `month` and `day` are listed as a holiday in `year`, whose lunar
/// new year falls on `lunar`.
pub open spec fn listed_holiday(year: int, lunar: (u32, u32), month: int, day: int) -> bool {
    ||| month == 1 && day == 1
    ||| (month, day) == lunar_eve(year, lunar.0 as int, lunar.1 as int)
    ||| in_festival_week(year, lunar, month, day)
    ||| month == 5 && 1 <= day <= 5
}

/// The listed holidays of `year` as a set of pairs of month and day.
pub open spec fn holiday_set(year: int, lunar: (u32, u32)) -> Set<(u32, u32)> {
    Set::new(|md: (u32, u32)| listed_holiday(year, lunar, md.0 as int, md.1 as int))
}

/// Whether `date` is closed for trading in a year whose lunar new year
/// falls on `lunar`: a listed holiday or a day of the weekend.
pub open spec fn closed_day(date: CalendarDate, lunar: (u32, u32)) -> bool {
    listed_holiday(date.year as int, lunar, date.month as int, date.day as int)
        || date.on_weekend()
}

/// Whether `date` is closed for trading, or the year for which the table
/// lacks the lunar new year.
pub open spec fn holiday_status(table: Map<u32, (u32, u32)>, date: CalendarDate) -> Result<
    bool,
    CalendarError,
> {
    match lunar_entry(table, date.year as int) {
        Some(lunar) => Ok(closed_day(date, lunar)),
        None => Err(CalendarError::MissingLunarData(date.year)),
    }
}

/// The listed holidays of one year.
pub struct HolidaySet {
    dates: Vec<(u32, u32)>,
}

impl View for HolidaySet {
    type V = Set<(u32, u32)>;

    closed spec fn view(&self) -> Set<(u32, u32)> {
        self.dates@.to_set()
    }
}

impl HolidaySet {
    /// Tells whether `day` of `month` is in the set.
    pub fn contains(&self, month: u32, day: u32) -> (found: bool)
        ensures
            found == self@.contains((month, day)),
    {
        let mut i: usize = 0;
        while i < self.dates.len()
            invariant
                i <= self.dates.len(),
                forall|j: int| 0 <= j < i ==> self.dates[j] != (month, day),
            decreases self.dates.len() - i,
        {
            let entry: (u32, u32) = self.dates[i];
            if entry.0 == month && entry.1 == day {
                assert(self.dates@.contains((month, day)));
                return true;
            }
            i = i + 1;
        }
        false
    }
}

/// The listed holidays of `year`.  Fails with `MissingLunarData` where the
/// table has no entry for `year`.
pub fn build_holidays(year: u32, table: &LunarNewYearTable) -> (r: Result<
    HolidaySet,
    CalendarError,
>)
    requires
        table.is_valid(),
    ensures
        match r {
            Ok(holidays) => lunar_entry(table@, year as int) is Some && holidays@ == holiday_set(
                year as int,
                lunar_entry(table@, year as int)->Some_0,
            ),
            Err(e) => lunar_entry(table@, year as int) is None && e
                == CalendarError::MissingLunarData(year),
        },
{
    let lunar: (u32, u32) = match table.lookup(year) {
        Some(entry) => entry,
        None => {
            return Err(CalendarError::MissingLunarData(year));
        },
    };
    assert(names_a_day(year as int, lunar.0 as int, lunar.1 as int));
    let mut dates: Vec<(u32, u32)> = Vec::new();
    dates.push((1, 1));
    if lunar.1 > 1 {
        dates.push((lunar.0, lunar.1 - 1));
    } else if lunar.0 > 1 {
        dates.push((lunar.0 - 1, month_length(year, lunar.0 - 1)));
    } else {
        dates.push((12, 31));
    }
    let mut current = CalendarDate { year, month: lunar.0, day: lunar.1 };
    let mut k: usize = 0;
    while k < 7
        invariant
            k <= 7,
            dates.len() == 2 + k,
            dates[0] == (1u32, 1u32),
            (dates[1].0 as int, dates[1].1 as int) == lunar_eve(
                year as int,
                lunar.0 as int,
                lunar.1 as int,
            ),
            current == festival_day(year as int, lunar, k as nat),
            1 <= current.month <= 12,
            year <= current.year <= year + k,
            year <= MAX_YEAR,
            forall|j: nat|
                j < k ==> dates[2 + j as int] == month_and_day(
                    #[trigger] festival_day(year as int, lunar, j),
                ),
        decreases 7 - k,
    {
        dates.push((current.month, current.day));
        current = next_day(current);
        k = k + 1;
    }
    let mut d: u32 = 1;
    while d <= 5
        invariant
            1 <= d <= 6,
            dates.len() == 9 + (d - 1),
            dates[0] == (1u32, 1u32),
            (dates[1].0 as int, dates[1].1 as int) == lunar_eve(
                year as int,
                lunar.0 as int,
                lunar.1 as int,
            ),
            forall|j: nat|
                j < 7 ==> dates[2 + j as int] == month_and_day(
                    #[trigger] festival_day(year as int, lunar, j),
                ),
            forall|i: int| 9 <= i < 8 + d ==> #[trigger] dates[i] == (5u32, (i - 8) as u32),
        decreases 6 - d,
    {
        dates.push((5, d));
        d = d + 1;
    }
    let holidays = HolidaySet { dates };
    proof {
        let listed = holiday_set(year as int, lunar);
        assert forall|md: (u32, u32)| holidays@.contains(md) implies listed.contains(md) by {
            let i = choose|i: int| 0 <= i < holidays.dates@.len() && holidays.dates@[i] == md;
            if 2 <= i < 9 {
                let j = (i - 2) as nat;
                assert(md.0 == festival_day(year as int, lunar, j).month);
            } else if i >= 9 {
                assert(holidays.dates@[i] == (5u32, (i - 8) as u32));
            }
        }
        assert forall|md: (u32, u32)| listed.contains(md) implies holidays@.contains(md) by {
            if md.0 == 1 && md.1 == 1 {
                assert(holidays.dates@[0] == md);
            } else if (md.0 as int, md.1 as int) == lunar_eve(
                year as int,
                lunar.0 as int,
                lunar.1 as int,
            ) {
                assert(holidays.dates@[1] == md);
            } else if in_festival_week(year as int, lunar, md.0 as int, md.1 as int) {
                let j = choose|j: nat|
                    j < 7 && md.0 == (#[trigger] festival_day(year as int, lunar, j)).month && md.1
                        == festival_day(year as int, lunar, j).day;
                assert(holidays.dates@[2 + j as int] == md);
            } else {
                assert(holidays.dates@[8 + md.1] == md);
            }
        }
        assert(holidays@ =~= listed);
    }
    Ok(holidays)
}

/// Tells whether `date` is closed for trading: a listed holiday of its year
/// or a day of the weekend.  Fails with `MissingLunarData` where the table
/// has no entry for the year of the date, whatever its weekday.
pub fn is_holiday(date: CalendarDate, table: &LunarNewYearTable) -> (r: Result<
    bool,
    CalendarError,
>)
    requires
        date.is_valid(),
        table.is_valid(),
    ensures
        r == holiday_status(table@, date),
{
    let holidays = match build_holidays(date.year, table) {
        Ok(set) => set,
        Err(e) => {
            return Err(e);
        },
    };
    if holidays.contains(date.month, date.day) {
        Ok(true)
    } else {
        Ok(weekday(date) >= SATURDAY)
    }
}

/// A Saturday or a Sunday is closed for trading whatever the listed
/// holidays of its year are.
pub proof fn lemma_weekend_is_closed(table: Map<u32, (u32, u32)>, date: CalendarDate)
    requires
        date.weekday() >= SATURDAY,
        table.contains_key(date.year),
    ensures
        holiday_status(table, date) == Ok::<bool, CalendarError>(true),
{
}

} // verus!
