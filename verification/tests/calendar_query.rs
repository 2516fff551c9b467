use exercises::calendar::date::{CalendarDate, CalendarError};
use exercises::calendar::holiday::{build_holidays, is_holiday, LunarNewYearTable};
use exercises::calendar::query::{facts, parse_date, query, QueryResult};
use exercises::calendar::trading::{
    days_to_lunar_new_year, days_to_next_trading_day, next_trading_day,
};
use exercises::calendar::weekday::weekday;
use exercises::time_info;

fn date(year: u32, month: u32, day: u32) -> CalendarDate {
    CalendarDate::new(year, month, day).unwrap()
}

fn table() -> LunarNewYearTable {
    let mut t = LunarNewYearTable::new();
    assert_eq!(t.insert(2025, 1, 29), Ok(()));
    assert_eq!(t.insert(2026, 2, 17), Ok(()));
    t
}

#[test]
fn table_holds_what_was_inserted() {
    let mut t = table();
    assert_eq!(t.lookup(2025), Some((1, 29)));
    assert_eq!(t.lookup(2026), Some((2, 17)));
    assert_eq!(t.lookup(2024), None);
    assert_eq!(t.insert(2023, 2, 29), Err(CalendarError::InvalidDate));
    assert_eq!(t.lookup(2023), None);
    assert_eq!(t.insert(2025, 1, 30), Ok(()));
    assert_eq!(t.lookup(2025), Some((1, 30)));
}

#[test]
fn holidays_of_a_year() {
    let t = table();
    let h = build_holidays(2025, &t).unwrap();
    assert!(h.contains(1, 1));
    assert!(h.contains(1, 28));
    for day in 29..=31 {
        assert!(h.contains(1, day));
    }
    for day in 1..=4 {
        assert!(h.contains(2, day));
    }
    assert!(!h.contains(2, 5));
    assert!(!h.contains(1, 27));
    for day in 1..=5 {
        assert!(h.contains(5, day));
    }
    assert!(!h.contains(5, 6));
    assert!(!h.contains(4, 30));
    assert!(!h.contains(12, 31));
    assert_eq!(build_holidays(2024, &t).err(), Some(CalendarError::MissingLunarData(2024)));
}

#[test]
fn eve_of_a_lunar_new_year_on_a_first() {
    let mut t = LunarNewYearTable::new();
    assert_eq!(t.insert(2024, 3, 1), Ok(()));
    assert_eq!(t.insert(2023, 1, 1), Ok(()));
    assert_eq!(t.insert(2022, 12, 28), Ok(()));
    let leap = build_holidays(2024, &t).unwrap();
    assert!(leap.contains(2, 29));
    assert!(!leap.contains(2, 28));
    assert!(leap.contains(3, 7));
    assert!(!leap.contains(3, 8));
    let first = build_holidays(2023, &t).unwrap();
    assert!(first.contains(12, 31));
    assert!(first.contains(1, 7));
    assert!(!first.contains(1, 8));
    let late = build_holidays(2022, &t).unwrap();
    assert!(late.contains(12, 27));
    assert!(late.contains(12, 31));
    assert!(late.contains(1, 3));
    assert!(!late.contains(1, 4));
}

#[test]
fn a_saturday_is_a_holiday_whatever_the_list_says() {
    let t = table();
    let saturday = date(2025, 3, 8);
    assert_eq!(weekday(saturday), 6);
    assert!(!build_holidays(2025, &t).unwrap().contains(3, 8));
    assert_eq!(is_holiday(saturday, &t), Ok(true));
    assert_eq!(is_holiday(date(2025, 3, 9), &t), Ok(true));
    assert_eq!(is_holiday(date(2025, 3, 10), &t), Ok(false));
    assert_eq!(is_holiday(date(2025, 1, 1), &t), Ok(true));
    assert_eq!(is_holiday(date(2025, 5, 5), &t), Ok(true));
    assert_eq!(is_holiday(date(2025, 5, 6), &t), Ok(false));
    assert_eq!(is_holiday(date(2024, 3, 9), &t), Err(CalendarError::MissingLunarData(2024)));
}

#[test]
fn days_to_the_lunar_new_year() {
    let t = table();
    assert_eq!(days_to_lunar_new_year(date(2025, 1, 1), &t), Ok(28));
    assert_eq!(days_to_lunar_new_year(date(2025, 1, 29), &t), Ok(0));
    assert_eq!(days_to_lunar_new_year(date(2025, 1, 30), &t), Ok(383));
    assert_eq!(days_to_lunar_new_year(date(2025, 12, 31), &t), Ok(48));
    assert_eq!(days_to_lunar_new_year(date(2026, 2, 17), &t), Ok(0));
    assert_eq!(
        days_to_lunar_new_year(date(2026, 2, 18), &t),
        Err(CalendarError::MissingLunarData(2027))
    );
    assert_eq!(
        days_to_lunar_new_year(date(2024, 6, 1), &t),
        Err(CalendarError::MissingLunarData(2024))
    );
}

#[test]
fn the_next_trading_day() {
    let t = table();
    // A Wednesday that is a holiday, before a Thursday that is none.
    assert_eq!(next_trading_day(date(2025, 1, 1), &t), Ok(date(2025, 1, 2)));
    assert_eq!(days_to_next_trading_day(date(2025, 1, 1), &t), Ok(0));
    // A Friday before a weekend.
    assert_eq!(next_trading_day(date(2025, 3, 7), &t), Ok(date(2025, 3, 10)));
    assert_eq!(days_to_next_trading_day(date(2025, 3, 7), &t), Ok(2));
    // The day before the eve: the festival week and the eve are closed.
    assert_eq!(next_trading_day(date(2025, 1, 27), &t), Ok(date(2025, 2, 5)));
    assert_eq!(days_to_next_trading_day(date(2025, 1, 27), &t), Ok(8));
    // Across the end of the year.
    assert_eq!(next_trading_day(date(2025, 12, 31), &t), Ok(date(2026, 1, 2)));
    assert_eq!(days_to_next_trading_day(date(2025, 12, 31), &t), Ok(1));
    // Into a year that the table lacks.
    assert_eq!(
        next_trading_day(date(2026, 12, 31), &t),
        Err(CalendarError::MissingLunarData(2027))
    );
    assert_eq!(
        days_to_next_trading_day(date(2024, 5, 1), &t),
        Err(CalendarError::MissingLunarData(2024))
    );
}

#[test]
fn the_day_after_the_closed_days_is_open() {
    let t = table();
    let mut d = date(2025, 1, 1);
    while d != date(2026, 12, 1) {
        let n = days_to_next_trading_day(d, &t).unwrap();
        let mut next = d;
        for k in 0..=n {
            next = exercises::calendar::date::successor(next);
            assert_eq!(is_holiday(next, &t), Ok(k < n));
        }
        d = exercises::calendar::date::successor(d);
    }
}

#[test]
fn the_longest_closure_has_nineteen_days() {
    let mut t = LunarNewYearTable::new();
    assert_eq!(t.insert(1990, 12, 25), Ok(()));
    assert_eq!(t.insert(1991, 1, 3), Ok(()));
    // A Friday before a weekend, the eve and the week of one lunar new
    // year, New Year's Day, and the eve and the week of the next.
    assert_eq!(weekday(date(1990, 12, 21)), 5);
    assert_eq!(is_holiday(date(1990, 12, 21), &t), Ok(false));
    assert_eq!(next_trading_day(date(1990, 12, 21), &t), Ok(date(1991, 1, 10)));
    assert_eq!(days_to_next_trading_day(date(1990, 12, 21), &t), Ok(19));
    assert_eq!(days_to_next_trading_day(date(1991, 1, 9), &t), Ok(0));
}

#[test]
fn the_end_of_the_calendar_has_no_next_trading_day() {
    let mut t = LunarNewYearTable::new();
    assert_eq!(t.insert(9999, 2, 1), Ok(()));
    assert_eq!(
        next_trading_day(date(9999, 12, 31), &t),
        Err(CalendarError::MissingLunarData(10000))
    );
    assert_eq!(
        days_to_lunar_new_year(date(9999, 12, 31), &t),
        Err(CalendarError::MissingLunarData(10000))
    );
}

#[test]
fn parse_date_reads_three_numbers() {
    assert_eq!(parse_date("2025-01-01"), Ok(date(2025, 1, 1)));
    assert_eq!(parse_date("2025-1-1"), Ok(date(2025, 1, 1)));
    assert_eq!(parse_date("0001-01-01"), Ok(date(1, 1, 1)));
    assert_eq!(parse_date("2025-01"), Err(CalendarError::FormatError));
    assert_eq!(parse_date("2025-01-01-01"), Err(CalendarError::FormatError));
    assert_eq!(parse_date(""), Err(CalendarError::FormatError));
    assert_eq!(parse_date("2025--01"), Err(CalendarError::FormatError));
    assert_eq!(parse_date("2025-0a-01"), Err(CalendarError::FormatError));
    assert_eq!(parse_date("2025/01/01"), Err(CalendarError::FormatError));
    assert_eq!(parse_date("2025-01-01 "), Err(CalendarError::FormatError));
    assert_eq!(parse_date("2025-13-01"), Err(CalendarError::InvalidDate));
    assert_eq!(parse_date("2025-02-29"), Err(CalendarError::InvalidDate));
    assert_eq!(parse_date("0000-01-01"), Err(CalendarError::InvalidDate));
    assert_eq!(parse_date("10000-01-01"), Err(CalendarError::InvalidDate));
    assert_eq!(parse_date("99999999999999999999-01-01"), Err(CalendarError::InvalidDate));
    assert_eq!(parse_date("4294969321-01-01"), Err(CalendarError::InvalidDate));
}

#[test]
fn query_for_new_years_day() {
    let t = table();
    let facts_of_day = query("2025-01-01", &t).unwrap();
    assert_eq!(
        facts_of_day,
        QueryResult {
            week_number: 1,
            weekday: 3,
            day_of_year: 1,
            days_remaining: 364,
            days_to_lunar_new_year: 28,
            days_to_next_trading_day: 0,
        }
    );
    assert_eq!(facts(date(2025, 1, 1), &t), Ok(facts_of_day));
    assert_eq!(facts_of_day.record(), "1,3,1,364,28,0");
}

#[test]
fn query_fails_in_order() {
    let t = table();
    assert_eq!(query("20250101", &t), Err(CalendarError::FormatError));
    assert_eq!(query("2025-02-30", &t), Err(CalendarError::InvalidDate));
    assert_eq!(query("2024-02-29", &t), Err(CalendarError::MissingLunarData(2024)));
    assert_eq!(query("2026-02-18", &t), Err(CalendarError::MissingLunarData(2027)));
}

#[test]
fn time_info_reports_the_six_facts() {
    assert_eq!(time_info("2025-01-01"), "1,3,1,364,28,0");
    assert_eq!(time_info("2025-01-18"), "3,6,18,347,11,1");
    assert_eq!(time_info("2025-01-28"), "5,2,28,337,1,7");
    assert_eq!(time_info("2025-01-30"), "5,4,30,335,383,5");
    assert_eq!(time_info("2025-02-09"), "6,7,40,325,373,0");
    assert_eq!(time_info("2025-02-28"), "9,5,59,306,354,2");
    assert_eq!(time_info("2025-04-01"), "14,2,91,274,322,0");
    assert_eq!(time_info("2025-05-01"), "18,4,121,244,292,4");
    assert_eq!(time_info("2025-11-01"), "44,6,305,60,108,1");
    assert_eq!(time_info("2025-11-11"), "46,2,315,50,98,0");
    assert_eq!(time_info("2025-12-31"), "1,3,365,0,48,1");
    assert_eq!(time_info("2026-02-17"), "8,2,48,317,0,6");
}

#[test]
fn time_info_reports_failures() {
    assert_eq!(time_info("2025/01/01"), "格式错误: 请使用yyyy-MM-dd格式");
    assert_eq!(time_info("2025-01"), "格式错误: 请使用yyyy-MM-dd格式");
    assert_eq!(time_info("2025-02-29"), "日期无效: 没有这一天");
    assert_eq!(time_info("2024-06-01"), "春节日期数据缺失：2024");
    assert_eq!(time_info("2026-03-01"), "春节日期数据缺失：2027");
    assert_eq!(CalendarError::SearchLimitExceeded.message(), "未找到下一个交易日");
}
