//! The facts of one date, asked for by its text.
use vstd::prelude::*;
use crate::calendar::date::{names_a_day, CalendarDate, CalendarError};
use crate::calendar::holiday::LunarNewYearTable;
use crate::calendar::offset::{day_of_year, days_remaining_in_year};
use crate::calendar::trading::{
    days_to_lunar_new_year, days_to_next_trading_day, next_lunar_new_year, trading_offset,
};
use crate::calendar::week::week_number;
use crate::calendar::weekday::weekday;
use crate::text::{
    chars_of, decimal_digits, decimal_value, is_decimal, parse_decimal, push_comma, push_decimal,
    split, split_by,
};

verus! {

/// What a query tells of a date.
#[derive(Clone, Copy, Debug, PartialEq, Eq, Structural)]
pub struct QueryResult {
    /// The number of the week in which the date lies.
    pub week_number: u32,
    /// The weekday of the date, 1 for Monday to 7 for Sunday.
    pub weekday: u32,
    /// The position of the date in its year.
    pub day_of_year: u32,
    /// The number of days of the year after the date.
    pub days_remaining: u32,
    /// The number of days to the next lunar new year.
    pub days_to_lunar_new_year: u32,
    /// The number of closed days before the next trading day.
    pub days_to_next_trading_day: u32,
}

/// The date that `text` denotes: three numbers in decimal notation, with a
/// hyphen between each two, for the year, the month and the day.  A text of
/// another shape is a `FormatError`; three numbers that name no day of the
/// calendar are an `InvalidDate`.
pub open spec fn date_of_text(text: Seq<char>) -> Result<CalendarDate, CalendarError> {
    let fields = split_by(text, '-');
    if fields.len() != 3 || !is_decimal(fields[0]) || !is_decimal(fields[1]) || !is_decimal(
        fields[2],
    ) {
        Err(CalendarError::FormatError)
    } else {
        let year = decimal_value(fields[0]);
        let month = decimal_value(fields[1]);
        let day = decimal_value(fields[2]);
        if names_a_day(year as int, month as int, day as int) {
            Ok(CalendarDate { year: year as u32, month: month as u32, day: day as u32 })
        } else {
            Err(CalendarError::InvalidDate)
        }
    }
}

/// The facts of `date` under the lunar new years of `table`, or the first
/// failure among the distance to the lunar new year and the search for the
/// next trading day.
pub open spec fn facts_of(table: Map<u32, (u32, u32)>, date: CalendarDate) -> Result<
    QueryResult,
    CalendarError,
> {
    match next_lunar_new_year(table, date) {
        Err(e) => Err(e),
        Ok(festival) => match trading_offset(table, date) {
            Err(e) => Err(e),
            Ok(k) => Ok(
                QueryResult {
                    week_number: date.week() as u32,
                    weekday: date.weekday() as u32,
                    day_of_year: date.ordinal() as u32,
                    days_remaining: date.remaining() as u32,
                    days_to_lunar_new_year: (festival.day_number() - date.day_number()) as u32,
                    days_to_next_trading_day: (k - 1) as u32,
                },
            ),
        },
    }
}

/// What a query for `text` gives under the lunar new years of `table`.
pub open spec fn query_outcome(table: Map<u32, (u32, u32)>, text: Seq<char>) -> Result<
    QueryResult,
    CalendarError,
> {
    match date_of_text(text) {
        Err(e) => Err(e),
        Ok(date) => facts_of(table, date),
    }
}

/// The record of the six facts: their decimal notations in order, with a
/// comma between each two.
pub open spec fn record_text(facts: QueryResult) -> Seq<char> {
    decimal_digits(facts.week_number as nat) + seq![','] + decimal_digits(facts.weekday as nat)
        + seq![','] + decimal_digits(facts.day_of_year as nat) + seq![','] + decimal_digits(
        facts.days_remaining as nat,
    ) + seq![','] + decimal_digits(facts.days_to_lunar_new_year as nat) + seq![',']
        + decimal_digits(facts.days_to_next_trading_day as nat)
}

/// The message for a failure.
pub open spec fn error_text(e: CalendarError) -> Seq<char> {
    match e {
        CalendarError::FormatError => "格式错误: 请使用yyyy-MM-dd格式"@,
        CalendarError::InvalidDate => "日期无效: 没有这一天"@,
        CalendarError::MissingLunarData(year) => "春节日期数据缺失："@ + decimal_digits(
            year as nat,
        ),
        CalendarError::SearchLimitExceeded => "未找到下一个交易日"@,
    }
}

/// The text that reports the outcome of a query: the record of the facts,
/// or the message for the failure.
pub open spec fn report_text(outcome: Result<QueryResult, CalendarError>) -> Seq<char> {
    match outcome {
        Ok(facts) => record_text(facts),
        Err(e) => error_text(e),
    }
}

/// The lunar new years that `time_info` knows: the 29th of January 2025 and
/// the 17th of February 2026.
pub open spec fn known_lunar_new_years() -> Map<u32, (u32, u32)> {
    Map::<u32, (u32, u32)>::empty().insert(2025u32, (1u32, 29u32)).insert(2026u32, (2u32, 17u32))
}

impl CalendarError {
    /// The message for the failure.
    pub fn message(&self) -> (text: String)
        ensures
            text@ == error_text(*self),
    {
        match self {
            CalendarError::FormatError => "格式错误: 请使用yyyy-MM-dd格式".to_owned(),
            CalendarError::InvalidDate => "日期无效: 没有这一天".to_owned(),
            CalendarError::MissingLunarData(year) => {
                let mut text: String = "春节日期数据缺失：".to_owned();
                push_decimal(&mut text, *year as u64);
                text
            },
            CalendarError::SearchLimitExceeded => "未找到下一个交易日".to_owned(),
        }
    }
}

impl QueryResult {
    /// The record of the six facts: their decimal notations in order, with
    /// a comma between each two.
    pub fn record(&self) -> (text: String)
        ensures
            text@ == record_text(*self),
    {
        let mut text = String::new();
        push_decimal(&mut text, self.week_number as u64);
        push_comma(&mut text);
        push_decimal(&mut text, self.weekday as u64);
        push_comma(&mut text);
        push_decimal(&mut text, self.day_of_year as u64);
        push_comma(&mut text);
        push_decimal(&mut text, self.days_remaining as u64);
        push_comma(&mut text);
        push_decimal(&mut text, self.days_to_lunar_new_year as u64);
        push_comma(&mut text);
        push_decimal(&mut text, self.days_to_next_trading_day as u64);
        assert(text@ =~= record_text(*self));
        text
    }
}

/// Reads a date from `text`: year, month and day in decimal notation, with
/// a hyphen between each two.
pub fn parse_date(text: &str) -> (r: Result<CalendarDate, CalendarError>)
    ensures
        r == date_of_text(text@),
        r is Ok ==> r->Ok_0.is_valid(),
{
    let chars: Vec<char> = chars_of(text);
    let fields: Vec<Vec<char>> = split(&chars, '-');
    if fields.len() != 3 {
        return Err(CalendarError::FormatError);
    }
    let year: u32 = match parse_decimal(&fields[0]) {
        Some(n) => n,
        None => {
            return Err(CalendarError::FormatError);
        },
    };
    let month: u32 = match parse_decimal(&fields[1]) {
        Some(n) => n,
        None => {
            return Err(CalendarError::FormatError);
        },
    };
    let day: u32 = match parse_decimal(&fields[2]) {
        Some(n) => n,
        None => {
            return Err(CalendarError::FormatError);
        },
    };
    CalendarDate::new(year, month, day)
}

/// The six facts of `date` under the lunar new years of `table`.
pub fn facts(date: CalendarDate, table: &LunarNewYearTable) -> (r: Result<
    QueryResult,
    CalendarError,
>)
    requires
        date.is_valid(),
        table.is_valid(),
    ensures
        r == facts_of(table@, date),
{
    let week: u32 = week_number(date);
    let day_of_week: u32 = weekday(date);
    let position: u32 = day_of_year(date);
    let remaining: u32 = days_remaining_in_year(date);
    let to_festival: u32 = match days_to_lunar_new_year(date, table) {
        Ok(n) => n,
        Err(e) => {
            return Err(e);
        },
    };
    let to_trading: u32 = match days_to_next_trading_day(date, table) {
        Ok(n) => n,
        Err(e) => {
            return Err(e);
        },
    };
    Ok(
        QueryResult {
            week_number: week,
            weekday: day_of_week,
            day_of_year: position,
            days_remaining: remaining,
            days_to_lunar_new_year: to_festival,
            days_to_next_trading_day: to_trading,
        },
    )
}

/// Answers a query: reads the date from `text` and gives its six facts
/// under the lunar new years of `table`.
///
/// A text that is not three numbers with hyphens between them is a
/// `FormatError`, and numbers that name no day an `InvalidDate`; after
/// these, a year without an entry in the table is `MissingLunarData`.
pub fn query(text: &str, table: &LunarNewYearTable) -> (r: Result<QueryResult, CalendarError>)
    requires
        table.is_valid(),
    ensures
        r == query_outcome(table@, text@),
{
    match parse_date(text) {
        Ok(date) => facts(date, table),
        Err(e) => Err(e),
    }
}

/// The table of the lunar new years that `time_info` knows.
pub fn known_table() -> (table: LunarNewYearTable)
    ensures
        table@ == known_lunar_new_years(),
        table.is_valid(),
{
    let mut table = LunarNewYearTable::new();
    let first = table.insert(2025, 1, 29);
    let second = table.insert(2026, 2, 17);
    table
}

/// Reports on the date that `time` denotes: the week number, the weekday,
/// the day of the year, the days that remain of the year, the days to the
/// next lunar new year and the closed days before the next trading day,
/// with commas between them.  Where the query fails, the report is the
/// message for the failure.
pub fn time_info(time: &str) -> (report: String)
    ensures
        report@ == report_text(query_outcome(known_lunar_new_years(), time@)),
{
    let table = known_table();
    match query(time, &table) {
        Ok(facts) => facts.record(),
        Err(e) => e.message(),
    }
}

} // verus!
