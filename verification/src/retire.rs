//! The month of retirement under a policy that delays it step by step.
//!
//! A policy names the years of work after which one retires, the year of
//! birth from which retirement is delayed, and the largest delay.  From
//! that year of birth on, each four months of birth add one month of
//! delay, up to the largest.
use vstd::prelude::*;
use crate::base_conversion::{number_in, parse_in_base};
use crate::text::{
    chars_of, decimal_digits, padded_digits, push_comma, push_decimal, push_digit, push_hyphen,
    push_padded, push_point, same_text, split, split_by,
};

verus! {

/// The terms of retirement of one group of workers.
#[derive(Clone, Copy, Debug, PartialEq, Eq, Structural)]
pub struct Policy {
    /// The years from birth to retirement without delay.
    pub base_work_years: i32,
    /// The first year of birth for which retirement is delayed.
    pub start_delay_year: i32,
    /// The largest delay, in months.
    pub max_delay_months: i32,
}

/// The last year of birth that a date of birth can name.
pub const MAX_BIRTH_YEAR: i32 = 9999;

impl Policy {
    /// The validity of a policy: none of its numbers is negative, and they
    /// are small enough for the month of retirement to be computed.
    pub open spec fn is_valid(self) -> bool {
        &&& 0 <= self.base_work_years <= 1000
        &&& 0 <= self.start_delay_year <= MAX_BIRTH_YEAR
        &&& 0 <= self.max_delay_months <= 12000
    }
}

/// The policy for men.
pub open spec fn policy_for_men() -> Policy {
    Policy { base_work_years: 60, start_delay_year: 1965, max_delay_months: 36 }
}

/// The policy for women who retired at 55.
pub open spec fn policy_for_women_at_55() -> Policy {
    Policy { base_work_years: 55, start_delay_year: 1970, max_delay_months: 36 }
}

/// The policy for women who retired at 50.
pub open spec fn policy_for_women_at_50() -> Policy {
    Policy { base_work_years: 50, start_delay_year: 1975, max_delay_months: 60 }
}

/// The policy of the group that `tp` names, where it names one.
pub open spec fn policy_of(tp: Seq<char>) -> Option<Policy> {
    if tp == "男职工"@ {
        Some(policy_for_men())
    } else if tp == "原法定退休年龄55周岁女职工"@ {
        Some(policy_for_women_at_55())
    } else if tp == "原法定退休年龄50周岁女职工"@ {
        Some(policy_for_women_at_50())
    } else {
        None
    }
}

/// The year and month of birth that `time` denotes: two numbers in decimal
/// notation with a hyphen between them, and maybe more after another
/// hyphen.  The year is at most `MAX_BIRTH_YEAR`, the month from 1 to 12.
pub open spec fn birth_of(time: Seq<char>) -> Option<(i32, i32)> {
    let fields = split_by(time, '-');
    if fields.len() < 2 {
        None
    } else {
        match (number_in(fields[0], 10), number_in(fields[1], 10)) {
            (Some(year), Some(month)) => if year <= MAX_BIRTH_YEAR && 1 <= month <= 12 {
                Some((year as i32, month as i32))
            } else {
                None
            },
            _ => None,
        }
    }
}

/// The months of birth from the first month of the year `policy_year` to
/// the month of birth, without the latter.
pub open spec fn eligible(birth_year: int, birth_month: int, policy_year: int) -> int {
    (birth_year - policy_year) * 12 + birth_month - 1
}

/// The delay in months: one for each four months begun since the policy
/// began, up to the largest delay.
pub open spec fn delay_of(birth: (i32, i32), policy: Policy) -> int {
    let months = eligible(birth.0 as int, birth.1 as int, policy.start_delay_year as int);
    if months / 4 + 1 <= policy.max_delay_months {
        months / 4 + 1
    } else {
        policy.max_delay_months as int
    }
}

/// An age of `months` months in years: a whole number of years as it is,
/// any other with two decimals, rounded.
pub open spec fn age_text(months: nat) -> Seq<char> {
    if months % 12 == 0 {
        decimal_digits(months / 12)
    } else {
        decimal_digits(months / 12) + seq!['.'] + padded_digits(
            ((months % 12) * 100 + 6) / 12,
            2,
        )
    }
}

/// The record of the retirement of someone born in the month `birth` under
/// `policy`: year and month of retirement, the age at retirement in years,
/// and the months of delay.
pub open spec fn retirement_text(birth: (i32, i32), policy: Policy) -> Seq<char> {
    if birth.0 < policy.start_delay_year {
        padded_digits((birth.0 + policy.base_work_years) as nat, 4) + seq!['-'] + padded_digits(
            birth.1 as nat,
            2,
        ) + seq![','] + decimal_digits(policy.base_work_years as nat) + seq![',', '0']
    } else {
        let months = eligible(birth.0 as int, birth.1 as int, policy.start_delay_year as int);
        let delay = delay_of(birth, policy);
        let total = months + policy.base_work_years * 12 + delay;
        padded_digits((policy.start_delay_year + total / 12) as nat, 4) + seq!['-']
            + padded_digits((total % 12 + 1) as nat, 2) + seq![','] + age_text(
            (total - months) as nat,
        ) + seq![','] + decimal_digits(delay as nat)
    }
}

/// The months of birth from the first month of the year `policy_year` to
/// the month of birth, without the latter.
pub fn eligible_months(birth_year: i32, birth_month: i32, policy_year: i32) -> (months: i32)
    requires
        0 <= policy_year <= birth_year <= MAX_BIRTH_YEAR,
        1 <= birth_month <= 12,
    ensures
        months == eligible(birth_year as int, birth_month as int, policy_year as int),
        0 <= months < 120000,
{
    (birth_year - policy_year) * 12 + birth_month - 1
}

/// Appends an age of `months` months in years to `out`.
pub fn format_age(out: &mut String, months: i32)
    requires
        months >= 0,
    ensures
        final(out)@ == old(out)@ + age_text(months as nat),
{
    push_decimal(out, (months / 12) as u64);
    if months % 12 != 0 {
        push_point(out);
        push_padded(out, (((months % 12) * 100 + 6) / 12) as u32, 2);
        assert(out@ =~= old(out)@ + age_text(months as nat));
    }
}

/// The record of the retirement of someone born in the month `birth_date`,
/// a year and a month, under `policy`.
pub fn calc(birth_date: (i32, i32), policy: Policy) -> (record: String)
    requires
        policy.is_valid(),
        0 <= birth_date.0 <= MAX_BIRTH_YEAR,
        1 <= birth_date.1 <= 12,
    ensures
        record@ == retirement_text(birth_date, policy),
{
    let (year, month) = birth_date;
    let mut record = String::new();
    if year < policy.start_delay_year {
        push_padded(&mut record, (year + policy.base_work_years) as u32, 4);
        push_hyphen(&mut record);
        push_padded(&mut record, month as u32, 2);
        push_comma(&mut record);
        push_decimal(&mut record, policy.base_work_years as u64);
        push_comma(&mut record);
        push_digit(&mut record, 0);
        assert(record@ =~= retirement_text(birth_date, policy));
        return record;
    }
    let eligible: i32 = eligible_months(year, month, policy.start_delay_year);
    let delay: i32 = if eligible / 4 + 1 <= policy.max_delay_months {
        eligible / 4 + 1
    } else {
        policy.max_delay_months
    };
    let total_months: i32 = eligible + policy.base_work_years * 12 + delay;
    let ret_year: i32 = policy.start_delay_year + total_months / 12;
    let ret_month: i32 = total_months % 12 + 1;
    let worked_months: i32 = total_months - eligible;
    push_padded(&mut record, ret_year as u32, 4);
    push_hyphen(&mut record);
    push_padded(&mut record, ret_month as u32, 2);
    push_comma(&mut record);
    format_age(&mut record, worked_months);
    push_comma(&mut record);
    push_decimal(&mut record, delay as u64);
    assert(record@ =~= retirement_text(birth_date, policy));
    record
}

/// Reads the year and the month of birth from `time`.
pub fn read_birth(time: &str) -> (r: Option<(i32, i32)>)
    ensures
        r == birth_of(time@),
{
    let chars: Vec<char> = chars_of(time);
    let fields: Vec<Vec<char>> = split(&chars, '-');
    if fields.len() < 2 {
        return None;
    }
    let year: u32 = match parse_in_base(&fields[0], 10) {
        Some(n) => n,
        None => {
            return None;
        },
    };
    let month: u32 = match parse_in_base(&fields[1], 10) {
        Some(n) => n,
        None => {
            return None;
        },
    };
    if year <= MAX_BIRTH_YEAR as u32 && 1 <= month && month <= 12 {
        Some((year as i32, month as i32))
    } else {
        None
    }
}

/// The policy of the group that `tp` names, where it names one.
pub fn read_policy(tp: &str) -> (r: Option<Policy>)
    ensures
        r == policy_of(tp@),
        r is Some ==> r->Some_0.is_valid(),
{
    let group: Vec<char> = chars_of(tp);
    if same_text(&group, &chars_of("男职工")) {
        Some(Policy { base_work_years: 60, start_delay_year: 1965, max_delay_months: 36 })
    } else if same_text(&group, &chars_of("原法定退休年龄55周岁女职工")) {
        Some(Policy { base_work_years: 55, start_delay_year: 1970, max_delay_months: 36 })
    } else if same_text(&group, &chars_of("原法定退休年龄50周岁女职工")) {
        Some(Policy { base_work_years: 50, start_delay_year: 1975, max_delay_months: 60 })
    } else {
        None
    }
}

/// The record of the retirement of someone born in the month `time`, a
/// year and a month with a hyphen between them, in the group that `tp`
/// names: year and month of retirement, age at retirement and months of
/// delay.  A group without a policy gives the record `未知`.
pub fn retire_time(time: &str, tp: &str) -> (record: String)
    requires
        birth_of(time@) is Some,
    ensures
        record@ == match policy_of(tp@) {
            Some(policy) => retirement_text(birth_of(time@)->Some_0, policy),
            None => "未知"@,
        },
{
    let birth: (i32, i32) = read_birth(time).unwrap();
    match read_policy(tp) {
        Some(policy) => calc(birth, policy),
        None => "未知".to_owned(),
    }
}

} // verus!
