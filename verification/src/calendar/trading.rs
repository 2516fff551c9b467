//! The distance from a date to the next lunar new year and to the next
//! trading day.
use vstd::prelude::*;
use crate::calendar::date::{
    lemma_days_before_month_table, lemma_days_before_year_step, lemma_ordinal_bounds,
    lemma_succ_counts_one, next_day, CalendarDate, CalendarError, MAX_YEAR,
};
use crate::calendar::closure::{lemma_search_ends, LONGEST_CLOSURE};
use crate::calendar::holiday::{holiday_status, is_holiday, lunar_entry, LunarNewYearTable};
use crate::calendar::offset::{days_between, lemma_days_before_year_monotone};

verus! {

/// The number of days after a date within which the next trading day is
/// looked for.
pub const SEARCH_LIMIT: u32 = 31;

/// Whether `date` lies after `day` of `month` in its year.
pub open spec fn lies_after(date: CalendarDate, month: int, day: int) -> bool {
    date.month > month || (date.month == month && date.day > day)
}

/// The first lunar new year that does not lie before `date`: that of its
/// year, or that of the next year where the date lies after it.  Fails with
/// the year for which the table lacks an entry.
pub open spec fn next_lunar_new_year(table: Map<u32, (u32, u32)>, date: CalendarDate) -> Result<
    CalendarDate,
    CalendarError,
> {
    match lunar_entry(table, date.year as int) {
        None => Err(CalendarError::MissingLunarData(date.year)),
        Some(lunar) => if lies_after(date, lunar.0 as int, lunar.1 as int) {
            match lunar_entry(table, date.year + 1) {
                None => Err(CalendarError::MissingLunarData((date.year + 1) as u32)),
                Some(later) => Ok(
                    CalendarDate { year: (date.year + 1) as u32, month: later.0, day: later.1 },
                ),
            }
        } else {
            Ok(CalendarDate { year: date.year, month: lunar.0, day: lunar.1 })
        },
    }
}

/// The search for the next trading day, from the day `k` days after `date`
/// on: the number of days from `date` to the first day that is open.  It
/// fails with the year of the first day for which the table lacks an entry,
/// and with `SearchLimitExceeded` where every day up to the limit is
/// closed, which no valid table brings about.
pub open spec fn search_from(table: Map<u32, (u32, u32)>, date: CalendarDate, k: nat) -> Result<
    nat,
    CalendarError,
>
    decreases SEARCH_LIMIT + 1 - k,
{
    if k > SEARCH_LIMIT {
        Err(CalendarError::SearchLimitExceeded)
    } else {
        match holiday_status(table, date.after(k)) {
            Err(e) => Err(e),
            Ok(closed) => if closed {
                search_from(table, date, k + 1)
            } else {
                Ok(k)
            },
        }
    }
}

/// The number of days from `date` to the next trading day, which is at
/// least 1.
pub open spec fn trading_offset(table: Map<u32, (u32, u32)>, date: CalendarDate) -> Result<
    nat,
    CalendarError,
> {
    search_from(table, date, 1)
}

/// The number of days from `date` to the first lunar new year that does not
/// lie before it; 0 on the day of the lunar new year.  Fails with
/// `MissingLunarData` where the table has no entry for the year of the
/// date or, with the date after the lunar new year of its year, for the
/// year after.
pub fn days_to_lunar_new_year(date: CalendarDate, table: &LunarNewYearTable) -> (r: Result<
    u32,
    CalendarError,
>)
    requires
        date.is_valid(),
        table.is_valid(),
    ensures
        match next_lunar_new_year(table@, date) {
            Ok(festival) => r == Ok::<u32, CalendarError>(
                (festival.day_number() - date.day_number()) as u32,
            ) && 0 <= festival.day_number() - date.day_number() <= 731,
            Err(e) => r == Err::<u32, CalendarError>(e),
        },
{
    let lunar: (u32, u32) = match table.lookup(date.year) {
        Some(entry) => entry,
        None => {
            return Err(CalendarError::MissingLunarData(date.year));
        },
    };
    let festival = if date.month > lunar.0 || (date.month == lunar.0 && date.day > lunar.1) {
        match table.lookup(date.year + 1) {
            Some(later) => CalendarDate { year: date.year + 1, month: later.0, day: later.1 },
            None => {
                return Err(CalendarError::MissingLunarData(date.year + 1));
            },
        }
    } else {
        CalendarDate { year: date.year, month: lunar.0, day: lunar.1 }
    };
    proof {
        lemma_ordinal_bounds(date);
        lemma_ordinal_bounds(festival);
        lemma_days_before_month_table(date.year as int);
    }
    let gap: i32 = days_between(festival, date);
    Ok(gap as u32)
}

/// The next trading day after `date`: the first of the days after it that
/// is not closed.  Fails with `MissingLunarData` where the table has no
/// entry for the year of a day that the search comes to.  It never fails
/// with `SearchLimitExceeded`: no more than `LONGEST_CLOSURE` days in a row
/// are closed.
pub fn next_trading_day(date: CalendarDate, table: &LunarNewYearTable) -> (r: Result<
    CalendarDate,
    CalendarError,
>)
    requires
        date.is_valid(),
        table.is_valid(),
    ensures
        match trading_offset(table@, date) {
            Ok(k) => r == Ok::<CalendarDate, CalendarError>(date.after(k)) && date.after(
                k,
            ).is_valid() && date.after(k).day_number() == date.day_number() + k,
            Err(e) => r == Err::<CalendarDate, CalendarError>(e),
        },
        r != Err::<CalendarDate, CalendarError>(CalendarError::SearchLimitExceeded),
{
    proof {
        lemma_search_ends(table@, date);
    }
    let mut candidate = next_day(date);
    let mut k: u32 = 1;
    proof {
        lemma_succ_counts_one(date);
        assert(date.after(1) == date.after(0).succ());
    }
    while k <= SEARCH_LIMIT
        invariant
            1 <= k <= SEARCH_LIMIT + 1,
            table.is_valid(),
            candidate == date.after(k as nat),
            1 <= candidate.month <= 12,
            1 <= candidate.year <= MAX_YEAR + 1,
            candidate.year <= MAX_YEAR ==> candidate.is_valid(),
            candidate.day_number() == date.day_number() + k,
            trading_offset(table@, date) == search_from(table@, date, k as nat),
        decreases SEARCH_LIMIT + 1 - k,
    {
        if candidate.year > MAX_YEAR {
            // No valid table has an entry for a year past the calendar.
            return Err(CalendarError::MissingLunarData(candidate.year));
        }
        match is_holiday(candidate, table) {
            Err(e) => {
                return Err(e);
            },
            Ok(closed) => {
                if !closed {
                    return Ok(candidate);
                }
            },
        }
        proof {
            lemma_succ_counts_one(candidate);
            assert(date.after((k + 1) as nat) == date.after(k as nat).succ());
        }
        candidate = next_day(candidate);
        k = k + 1;
    }
    Err(CalendarError::SearchLimitExceeded)
}

/// The number of closed days between `date` and the next trading day: the
/// distance to that day, less one.  It fails as `next_trading_day` does.
pub fn days_to_next_trading_day(date: CalendarDate, table: &LunarNewYearTable) -> (r: Result<
    u32,
    CalendarError,
>)
    requires
        date.is_valid(),
        table.is_valid(),
    ensures
        match trading_offset(table@, date) {
            Ok(k) => r == Ok::<u32, CalendarError>((k - 1) as u32) && 1 <= k <= LONGEST_CLOSURE
                + 1,
            Err(e) => r == Err::<u32, CalendarError>(e),
        },
        r != Err::<u32, CalendarError>(CalendarError::SearchLimitExceeded),
{
    proof {
        lemma_search_ends(table@, date);
    }
    let open_day = match next_trading_day(date, table) {
        Ok(day) => day,
        Err(e) => {
            return Err(e);
        },
    };
    proof {
        lemma_trading_offset(table@, date);
        lemma_within_a_year(date, open_day);
    }
    let gap: i32 = days_between(open_day, date);
    Ok((gap - 1) as u32)
}

/// A day less than a year after another lies in the same year or in the
/// next.
pub proof fn lemma_within_a_year(from: CalendarDate, to: CalendarDate)
    requires
        from.is_day(),
        to.is_day(),
        0 <= to.day_number() - from.day_number() < 365,
    ensures
        to.year == from.year || to.year == from.year + 1,
{
    lemma_ordinal_bounds(from);
    lemma_ordinal_bounds(to);
    if to.year < from.year {
        lemma_days_before_year_step(to.year as int);
        lemma_days_before_year_monotone(to.year + 1, from.year as int);
    } else if to.year > from.year + 1 {
        lemma_days_before_year_step(from.year as int);
        lemma_days_before_year_monotone(from.year + 1, to.year as int);
    }
}

/// The search from day `k` on stops at a day from `k` to the limit that is
/// open, and every day from `k` up to it is closed.
pub proof fn lemma_search_from(table: Map<u32, (u32, u32)>, date: CalendarDate, k: nat)
    requires
        search_from(table, date, k) is Ok,
    ensures
        k <= search_from(table, date, k)->Ok_0 <= SEARCH_LIMIT,
        holiday_status(table, date.after(search_from(table, date, k)->Ok_0)) == Ok::<
            bool,
            CalendarError,
        >(false),
        forall|j: nat|
            k <= j < search_from(table, date, k)->Ok_0 ==> #[trigger] holiday_status(
                table,
                date.after(j),
            ) == Ok::<bool, CalendarError>(true),
    decreases SEARCH_LIMIT + 1 - k,
{
    if k <= SEARCH_LIMIT {
        match holiday_status(table, date.after(k)) {
            Err(e) => {},
            Ok(closed) => {
                if closed {
                    lemma_search_from(table, date, k + 1);
                }
            },
        }
    }
}

/// The search for the next trading day ends with a day from 1 to the
/// limit where it succeeds.
pub proof fn lemma_search_from_start(table: Map<u32, (u32, u32)>, date: CalendarDate)
    ensures
        trading_offset(table, date) is Ok ==> 1 <= trading_offset(table, date)->Ok_0
            <= SEARCH_LIMIT,
{
    if trading_offset(table, date) is Ok {
        lemma_search_from(table, date, 1);
    }
}

/// Where the search for the next trading day succeeds, the day that it
/// names is open and the days between the date and that day are closed:
/// the count of days to the next trading day is not negative, and the day
/// one more than the count after the date is no holiday.
pub proof fn lemma_trading_offset(table: Map<u32, (u32, u32)>, date: CalendarDate)
    requires
        trading_offset(table, date) is Ok,
    ensures
        1 <= trading_offset(table, date)->Ok_0 <= SEARCH_LIMIT,
        trading_offset(table, date)->Ok_0 - 1 >= 0,
        holiday_status(table, date.after(trading_offset(table, date)->Ok_0)) == Ok::<
            bool,
            CalendarError,
        >(false),
        forall|j: nat|
            1 <= j < trading_offset(table, date)->Ok_0 ==> #[trigger] holiday_status(
                table,
                date.after(j),
            ) == Ok::<bool, CalendarError>(true),
{
    lemma_search_from(table, date, 1);
}

} // verus!
