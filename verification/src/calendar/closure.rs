//! How long trading stays closed.
//!
//! The listed holidays of a year are few and lie in three stretches, and a
//! weekend has two days: no more than 19 days in a row are closed, and the
//! search for the next trading day never comes to its limit.
use vstd::prelude::*;
use crate::calendar::date::{
    days_before_year, lemma_days_before_month_table, lemma_days_before_year_step,
    lemma_ordinal_bounds, names_a_day, year_length, CalendarDate, CalendarError, MAX_YEAR,
};
use crate::calendar::holiday::{
    festival_day, holiday_status, in_festival_week, listed_holiday, lunar_entry, lunar_eve,
    table_is_valid,
};
use crate::calendar::offset::lemma_after_counts;
use crate::calendar::trading::{
    lemma_search_from_start, lemma_within_a_year, search_from, trading_offset, SEARCH_LIMIT,
};

verus! {

/// The largest number of days in a row that are closed.
pub const LONGEST_CLOSURE: u32 = 19;

/// Whether the day with the number `n` is a listed holiday of its year,
/// which begins after the day `start`, has `length` days and has its lunar
/// new year on the day `lunar`: the first of January, one of the first
/// five days of May, a day from the eve of the lunar new year to the sixth
/// day after it, or a day that stands for one of these at the other end of
/// the year.
pub open spec fn is_listed_number(start: int, length: int, lunar: int, n: int) -> bool {
    ||| n == start + 1
    ||| start + length - 244 <= n <= start + length - 240
    ||| lunar - 1 <= n <= lunar + 6
    ||| n <= start + 6 && n - start <= lunar + 6 - (start + length)
    ||| n == start + length && lunar == start + 1
}

/// Whether the day with the number `n` is closed, in one of two years that
/// follow each other: the first begins after the day `start`, has `length`
/// days and its lunar new year on the day `lunar`; the second has
/// `next_length` days and its lunar new year on the day `next_lunar`.
pub open spec fn is_closed_number(
    start: int,
    length: int,
    lunar: int,
    next_length: int,
    next_lunar: int,
    n: int,
) -> bool {
    ||| (n - 1) % 7 >= 5
    ||| n <= start + length && is_listed_number(start, length, lunar, n)
    ||| n > start + length && is_listed_number(start + length, next_length, next_lunar, n)
}

/// Whether one of the `k` days after the day `n` is open.
pub open spec fn opens_within(
    start: int,
    length: int,
    lunar: int,
    next_length: int,
    next_lunar: int,
    n: int,
    k: int,
) -> bool
    decreases k,
{
    k >= 1 && (!is_closed_number(start, length, lunar, next_length, next_lunar, n + k)
        || opens_within(start, length, lunar, next_length, next_lunar, n, k - 1))
}

/// One of the 20 days after any day of a year is open, wherever the lunar
/// new years of that year and of the next lie.
#[verifier::rlimit(100)]
pub proof fn lemma_opens_within_twenty(
    start: int,
    length: int,
    lunar: int,
    next_length: int,
    next_lunar: int,
    n: int,
)
    requires
        365 <= length <= 366,
        365 <= next_length <= 366,
        start < lunar <= start + length,
        start + length < next_lunar <= start + length + next_length,
        start < n <= start + length,
    ensures
        opens_within(start, length, lunar, next_length, next_lunar, n, LONGEST_CLOSURE + 1),
{
    reveal_with_fuel(opens_within, 21);
}

/// Where the `k` days after the day `n` are closed, none of them is open.
pub proof fn lemma_closed_run(
    start: int,
    length: int,
    lunar: int,
    next_length: int,
    next_lunar: int,
    n: int,
    k: int,
)
    requires
        forall|i: int|
            1 <= i <= k ==> is_closed_number(
                start,
                length,
                lunar,
                next_length,
                next_lunar,
                #[trigger] (n + i),
            ),
    ensures
        !opens_within(start, length, lunar, next_length, next_lunar, n, k),
    decreases k,
{
    if k >= 1 {
        lemma_closed_run(start, length, lunar, next_length, next_lunar, n, k - 1);
        assert(is_closed_number(start, length, lunar, next_length, next_lunar, n + k));
    }
}

/// The day number of the lunar new year of `year`, which falls on `lunar`.
pub open spec fn lunar_number(year: int, lunar: (u32, u32)) -> int {
    (CalendarDate { year: year as u32, month: lunar.0, day: lunar.1 }).day_number()
}

/// A listed holiday has the day number of one.
pub proof fn lemma_listed_number(date: CalendarDate, lunar: (u32, u32))
    requires
        date.is_valid(),
        names_a_day(date.year as int, lunar.0 as int, lunar.1 as int),
        listed_holiday(date.year as int, lunar, date.month as int, date.day as int),
    ensures
        is_listed_number(
            days_before_year(date.year as int),
            year_length(date.year as int),
            lunar_number(date.year as int, lunar),
            date.day_number(),
        ),
{
    let year = date.year as int;
    let festival = CalendarDate { year: date.year, month: lunar.0, day: lunar.1 };
    lemma_days_before_month_table(year);
    lemma_days_before_year_step(year);
    lemma_ordinal_bounds(date);
    lemma_ordinal_bounds(festival);
    if date.month == 1 && date.day == 1 {
    } else if date.month == 5 && 1 <= date.day <= 5 {
    } else if (date.month as int, date.day as int) == lunar_eve(
        year,
        lunar.0 as int,
        lunar.1 as int,
    ) {
    } else {
        assert(in_festival_week(year, lunar, date.month as int, date.day as int));
        let k = choose|k: nat|
            k < 7 && date.month == (#[trigger] festival_day(year, lunar, k)).month && date.day
                == festival_day(year, lunar, k).day;
        let reached = festival_day(year, lunar, k);
        lemma_after_counts(festival, k);
        lemma_within_a_year(festival, reached);
        lemma_ordinal_bounds(reached);
        if reached.year == date.year {
            assert(reached == date);
        } else {
            lemma_days_before_month_table(year + 1);
            assert(reached.month == 1);
        }
    }
}

/// A closed day has the day number of one.
pub proof fn lemma_closed_number(
    table: Map<u32, (u32, u32)>,
    first: CalendarDate,
    date: CalendarDate,
)
    requires
        table_is_valid(table),
        first.is_valid(),
        date.is_day(),
        date.year == first.year || date.year == first.year + 1,
        holiday_status(table, date) == Ok::<bool, CalendarError>(true),
    ensures
        is_closed_number(
            days_before_year(first.year as int),
            year_length(first.year as int),
            lunar_number_in(table, first.year as int),
            year_length(first.year + 1),
            lunar_number_in(table, first.year + 1),
            date.day_number(),
        ),
{
    let year = date.year as int;
    let lunar = lunar_entry(table, year)->Some_0;
    assert(table.contains_key(date.year));
    assert(names_a_day(year, lunar.0 as int, lunar.1 as int));
    assert(date.is_valid());
    lemma_ordinal_bounds(date);
    lemma_days_before_year_step(first.year as int);
    if !date.on_weekend() {
        lemma_listed_number(date, lunar);
    }
}

/// The day number of the lunar new year of `year` in `table`, or of the
/// first of January where the table has none.
pub open spec fn lunar_number_in(table: Map<u32, (u32, u32)>, year: int) -> int {
    match lunar_entry(table, year) {
        Some(lunar) => lunar_number(year, lunar),
        None => days_before_year(year) + 1,
    }
}

/// Where the search from the day `k` on fails at its limit, or ends after
/// the day `j`, the days from `k` to `j` are closed.
pub proof fn lemma_search_passes(table: Map<u32, (u32, u32)>, date: CalendarDate, k: nat, j: nat)
    requires
        j <= SEARCH_LIMIT,
        match search_from(table, date, k) {
            Ok(found) => found > j,
            Err(e) => e == CalendarError::SearchLimitExceeded,
        },
    ensures
        forall|i: nat|
            k <= i <= j ==> #[trigger] holiday_status(table, date.after(i)) == Ok::<
                bool,
                CalendarError,
            >(true),
    decreases SEARCH_LIMIT + 1 - k,
{
    if k <= j {
        lemma_search_passes(table, date, k + 1, j);
    }
}

/// The search for the next trading day never fails at its limit: after a
/// day of the calendar, the next trading day is found among the 20 days
/// that follow, unless the table lacks the lunar new year of one of their
/// years.
pub proof fn lemma_search_ends(table: Map<u32, (u32, u32)>, date: CalendarDate)
    requires
        table_is_valid(table),
        date.is_valid(),
    ensures
        trading_offset(table, date) != Err::<nat, CalendarError>(
            CalendarError::SearchLimitExceeded,
        ),
        trading_offset(table, date) is Ok ==> 1 <= trading_offset(table, date)->Ok_0
            <= LONGEST_CLOSURE + 1,
{
    let year = date.year as int;
    let start = days_before_year(year);
    let length = year_length(year);
    let next_length = year_length(year + 1);
    let lunar = lunar_number_in(table, year);
    let next_lunar = lunar_number_in(table, year + 1);
    let n = date.day_number();
    let passed = match trading_offset(table, date) {
        Ok(found) => found > LONGEST_CLOSURE + 1,
        Err(e) => e == CalendarError::SearchLimitExceeded,
    };
    lemma_search_from_start(table, date);
    if passed {
        lemma_search_passes(table, date, 1, (LONGEST_CLOSURE + 1) as nat);
        assert forall|i: int| 1 <= i <= LONGEST_CLOSURE + 1 implies is_closed_number(
            start,
            length,
            lunar,
            next_length,
            next_lunar,
            #[trigger] (n + i),
        ) by {
            let reached = date.after(i as nat);
            assert(holiday_status(table, reached) == Ok::<bool, CalendarError>(true));
            lemma_after_counts(date, i as nat);
            lemma_within_a_year(date, reached);
            lemma_closed_number(table, date, reached);
        }
        lemma_closed_run(
            start,
            length,
            lunar,
            next_length,
            next_lunar,
            n,
            LONGEST_CLOSURE + 1,
        );
        lemma_ordinal_bounds(date);
        lemma_days_before_year_step(year);
        lemma_lunar_number_in(table, year);
        lemma_lunar_number_in(table, year + 1);
        lemma_opens_within_twenty(start, length, lunar, next_length, next_lunar, n);
    }
}

/// The lunar new year of a year lies in that year.
pub proof fn lemma_lunar_number_in(table: Map<u32, (u32, u32)>, year: int)
    requires
        table_is_valid(table),
        1 <= year <= MAX_YEAR + 1,
    ensures
        days_before_year(year) < lunar_number_in(table, year) <= days_before_year(year)
            + year_length(year),
{
    match lunar_entry(table, year) {
        Some(lunar) => {
            assert(table.contains_key(year as u32));
            assert(names_a_day(year, lunar.0 as int, lunar.1 as int));
            lemma_ordinal_bounds(CalendarDate { year: year as u32, month: lunar.0, day: lunar.1 });
        },
        None => {},
    }
}

} // verus!
