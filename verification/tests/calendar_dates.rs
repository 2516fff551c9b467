use exercises::calendar::date::{
    is_leap_year, month_length, month_lengths, successor, CalendarDate, CalendarError,
};
use exercises::calendar::offset::{day_of_year, days_between, days_remaining_in_year};
use exercises::calendar::week::week_number;
use exercises::calendar::weekday::weekday;

fn date(year: u32, month: u32, day: u32) -> CalendarDate {
    CalendarDate::new(year, month, day).unwrap()
}

#[test]
fn leap_years_follow_the_gregorian_rule() {
    assert_eq!(is_leap_year(1900), false);
    assert_eq!(is_leap_year(2000), true);
    assert_eq!(is_leap_year(2024), true);
    assert_eq!(is_leap_year(2023), false);
    assert_eq!(is_leap_year(2100), false);
    assert_eq!(is_leap_year(2400), true);
}

#[test]
fn month_lengths_of_common_and_leap_years() {
    assert_eq!(month_lengths(2023), [0, 31, 28, 31, 30, 31, 30, 31, 31, 30, 31, 30, 31]);
    assert_eq!(month_lengths(2024), [0, 31, 29, 31, 30, 31, 30, 31, 31, 30, 31, 30, 31]);
    assert_eq!(month_length(1900, 2), 28);
    assert_eq!(month_length(2000, 2), 29);
    assert_eq!(month_length(2025, 4), 30);
    assert_eq!(month_length(2025, 12), 31);
}

#[test]
fn new_accepts_days_of_the_calendar_only() {
    assert_eq!(CalendarDate::new(2024, 2, 29), Ok(CalendarDate { year: 2024, month: 2, day: 29 }));
    assert_eq!(CalendarDate::new(2023, 2, 29), Err(CalendarError::InvalidDate));
    assert_eq!(CalendarDate::new(0, 1, 1), Err(CalendarError::InvalidDate));
    assert_eq!(CalendarDate::new(10000, 1, 1), Err(CalendarError::InvalidDate));
    assert_eq!(CalendarDate::new(2025, 0, 1), Err(CalendarError::InvalidDate));
    assert_eq!(CalendarDate::new(2025, 13, 1), Err(CalendarError::InvalidDate));
    assert_eq!(CalendarDate::new(2025, 4, 0), Err(CalendarError::InvalidDate));
    assert_eq!(CalendarDate::new(2025, 4, 31), Err(CalendarError::InvalidDate));
    assert_eq!(CalendarDate::new(9999, 12, 31), Ok(CalendarDate { year: 9999, month: 12, day: 31 }));
}

#[test]
fn a_date_taken_apart_and_made_again_is_the_same() {
    let d = date(2024, 2, 29);
    assert_eq!(CalendarDate::new(d.year(), d.month(), d.day()), Ok(d));
    let e = date(1, 1, 1);
    assert_eq!(CalendarDate::new(e.year(), e.month(), e.day()), Ok(e));
}

#[test]
fn successor_rolls_over_months_and_years() {
    assert_eq!(successor(date(2025, 1, 1)), date(2025, 1, 2));
    assert_eq!(successor(date(2025, 1, 31)), date(2025, 2, 1));
    assert_eq!(successor(date(2025, 2, 28)), date(2025, 3, 1));
    assert_eq!(successor(date(2024, 2, 28)), date(2024, 2, 29));
    assert_eq!(successor(date(2024, 2, 29)), date(2024, 3, 1));
    assert_eq!(successor(date(2025, 12, 31)), date(2026, 1, 1));
}

#[test]
fn a_year_of_successors_ends_on_the_next_first_of_january() {
    for (year, length) in [(2023u32, 365u32), (2024, 366), (1900, 365), (2000, 366)] {
        let mut d = date(year, 1, 1);
        for _ in 0..length {
            d = successor(d);
        }
        assert_eq!(d, date(year + 1, 1, 1));
    }
}

#[test]
fn weekday_counts_from_monday() {
    // The first of January 2000 was a Saturday.
    assert_eq!(weekday(date(2000, 1, 1)), 6);
    assert_eq!(weekday(date(2000, 2, 29)), 2);
    assert_eq!(weekday(date(2025, 1, 1)), 3);
    assert_eq!(weekday(date(2025, 1, 29)), 3);
    assert_eq!(weekday(date(2024, 2, 29)), 4);
    assert_eq!(weekday(date(2023, 1, 1)), 7);
    assert_eq!(weekday(date(2026, 2, 17)), 2);
    assert_eq!(weekday(date(1, 1, 1)), 1);
    assert_eq!(weekday(date(1970, 1, 1)), 4);
    assert_eq!(weekday(date(2100, 2, 28)), 7);
    assert_eq!(weekday(date(9999, 12, 31)), 5);
}

#[test]
fn weekday_follows_the_successor() {
    let mut d = date(2023, 12, 25);
    let mut w = weekday(d);
    assert_eq!(w, 1);
    for _ in 0..800 {
        d = successor(d);
        w = w % 7 + 1;
        assert_eq!(weekday(d), w);
    }
}

#[test]
fn day_of_year_and_days_remaining() {
    assert_eq!(day_of_year(date(2025, 1, 1)), 1);
    assert_eq!(days_remaining_in_year(date(2025, 1, 1)), 364);
    assert_eq!(day_of_year(date(2025, 12, 31)), 365);
    assert_eq!(days_remaining_in_year(date(2025, 12, 31)), 0);
    assert_eq!(day_of_year(date(2024, 12, 31)), 366);
    assert_eq!(day_of_year(date(2024, 3, 1)), 61);
    assert_eq!(day_of_year(date(2025, 3, 1)), 60);
    assert_eq!(days_remaining_in_year(date(2024, 3, 1)), 305);
}

#[test]
fn position_and_remainder_make_up_the_year() {
    for year in [2023u32, 2024] {
        let length = if is_leap_year(year) { 366 } else { 365 };
        let mut d = date(year, 1, 1);
        loop {
            assert_eq!(day_of_year(d) + days_remaining_in_year(d), length);
            if d.month() == 12 && d.day() == 31 {
                break;
            }
            d = successor(d);
        }
    }
}

#[test]
fn days_between_in_one_year_and_across_the_new_year() {
    assert_eq!(days_between(date(2025, 1, 29), date(2025, 1, 1)), 28);
    assert_eq!(days_between(date(2025, 1, 1), date(2025, 1, 29)), -28);
    assert_eq!(days_between(date(2025, 3, 1), date(2025, 3, 1)), 0);
    assert_eq!(days_between(date(2026, 2, 17), date(2025, 1, 30)), 383);
    assert_eq!(days_between(date(2026, 1, 1), date(2025, 12, 31)), 1);
    assert_eq!(days_between(date(2025, 1, 1), date(2024, 1, 1)), 366);
}

#[test]
fn week_number_in_the_middle_of_a_year() {
    assert_eq!(week_number(date(2025, 1, 1)), 1);
    assert_eq!(week_number(date(2025, 1, 5)), 1);
    assert_eq!(week_number(date(2025, 1, 6)), 2);
    assert_eq!(week_number(date(2025, 6, 15)), 24);
    assert_eq!(week_number(date(2026, 1, 1)), 1);
    assert_eq!(week_number(date(2026, 2, 17)), 8);
    assert_eq!(week_number(date(2024, 12, 29)), 52);
}

#[test]
fn week_number_at_the_turn_of_a_year() {
    // 2025 ends on a Wednesday: its last three days are in week 1.
    assert_eq!(week_number(date(2025, 12, 28)), 52);
    assert_eq!(week_number(date(2025, 12, 29)), 1);
    assert_eq!(week_number(date(2025, 12, 30)), 1);
    assert_eq!(week_number(date(2025, 12, 31)), 1);
    // 2024 ends on a Tuesday, 2018 on a Monday.
    assert_eq!(week_number(date(2024, 12, 30)), 1);
    assert_eq!(week_number(date(2024, 12, 31)), 1);
    assert_eq!(week_number(date(2018, 12, 31)), 1);
    assert_eq!(week_number(date(2018, 12, 30)), 52);
    // 2020 ends on a Thursday: its last four days are in week 1, and the
    // first three days of 2021, which begins on a Friday, go with them.
    assert_eq!(week_number(date(2020, 12, 27)), 52);
    assert_eq!(week_number(date(2020, 12, 28)), 1);
    assert_eq!(week_number(date(2020, 12, 31)), 1);
    assert_eq!(week_number(date(2021, 1, 1)), 1);
    assert_eq!(week_number(date(2021, 1, 3)), 1);
    assert_eq!(week_number(date(2021, 1, 4)), 1);
    // 2026 ends on a Thursday too.
    assert_eq!(week_number(date(2026, 12, 27)), 52);
    assert_eq!(week_number(date(2026, 12, 28)), 1);
    assert_eq!(week_number(date(2026, 12, 31)), 1);
    // 2022 begins on a Saturday, after a year that began on a Friday and
    // counted its weeks three days late.
    assert_eq!(week_number(date(2021, 12, 31)), 53);
    assert_eq!(week_number(date(2022, 1, 1)), 53);
    assert_eq!(week_number(date(2022, 1, 2)), 53);
    assert_eq!(week_number(date(2022, 1, 3)), 1);
    // 2028 begins on a Saturday, after a year that began on a Friday.
    assert_eq!(week_number(date(2028, 1, 2)), 53);
    // 2011 begins on a Saturday, after a year that began on a Friday.
    assert_eq!(week_number(date(2011, 1, 1)), 53);
    // 2005 begins on a Saturday, after a leap year that began on a
    // Thursday: the week before is week 53.
    assert_eq!(week_number(date(2005, 1, 1)), 53);
    // 2023 begins on a Sunday.
    assert_eq!(week_number(date(2023, 1, 1)), 1);
    assert_eq!(week_number(date(2023, 1, 2)), 1);
    assert_eq!(week_number(date(2023, 1, 8)), 1);
    assert_eq!(week_number(date(2023, 1, 9)), 2);
}

#[test]
fn week_number_counts_three_days_late_after_a_friday_start() {
    // The count of a year that begins on a Friday or a Saturday puts the
    // days after its first Monday one week further.
    assert_eq!(week_number(date(2021, 1, 5)), 2);
    assert_eq!(week_number(date(2022, 1, 4)), 2);
}
