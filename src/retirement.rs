//! Retirement date under the gradual raising of the statutory retirement
//! age that starts in 2025.
use crate::text::{
    append_decimal, append_two_digit, chars_of, decimal, parse_u32, parse_u32_of, same_chars,
    split_fields, split_on, two_digit,
};
use vstd::prelude::*;
use vstd::string::*;

verus! {

/// The category text of a female employee with an original retirement
/// age of 50.
pub const FEMALE50: &'static str = "原法定退休年龄50周岁女职工";

/// The category text of a female employee with an original retirement
/// age of 55.
pub const FEMALE55: &'static str = "原法定退休年龄55周岁女职工";

/// The category text of a male employee.
pub const MALE: &'static str = "男职工";

/// The year from which the retirement age is raised.
pub const REFORM_YEAR: u32 = 2025;

/// A year and a month.
#[derive(Clone, Copy, Debug, PartialEq, Eq, Structural)]
pub struct Date {
    pub year: u32,
    pub month: u32,
}

impl Date {
    pub fn new(year: u32, month: u32) -> (r: Date)
        ensures
            r.year == year,
            r.month == month,
    {
        Date { year, month }
    }
}

/// The category of an employee, which fixes the retirement rule.
#[derive(Clone, Copy, Debug, PartialEq, Eq, Structural)]
pub enum Employee {
    Male,
    Female50,
    Female55,
}

/// The rule of a category: original retirement age, months of birth per
/// month of delay, and the largest delay in months.
pub open spec fn rule_of(e: Employee) -> (nat, nat, nat) {
    match e {
        Employee::Male => (60, 4, 36),
        Employee::Female55 => (55, 4, 36),
        Employee::Female50 => (50, 2, 60),
    }
}

/// The category that the text `s` names, if any.
pub open spec fn employee_of_text(s: Seq<char>) -> Option<Employee> {
    if s == FEMALE50@ {
        Some(Employee::Female50)
    } else if s == FEMALE55@ {
        Some(Employee::Female55)
    } else if s == MALE@ {
        Some(Employee::Male)
    } else {
        None
    }
}

impl Employee {
    /// The rule of the category: original retirement age, months of birth
    /// per month of delay, and the largest delay in months.
    pub fn infos(&self) -> (r: (u32, u32, u32))
        ensures
            (r.0 as nat, r.1 as nat, r.2 as nat) == rule_of(*self),
    {
        match self {
            Employee::Male => (60, 4, 36),
            Employee::Female55 => (55, 4, 36),
            Employee::Female50 => (50, 2, 60),
        }
    }

    /// The category that the text `s` names, if any.
    pub fn from_text(s: &str) -> (r: Option<Employee>)
        ensures
            r == employee_of_text(s@),
    {
        let c = chars_of(s);
        if same_chars(&c, &chars_of(FEMALE50)) {
            Some(Employee::Female50)
        } else if same_chars(&c, &chars_of(FEMALE55)) {
            Some(Employee::Female55)
        } else if same_chars(&c, &chars_of(MALE)) {
            Some(Employee::Male)
        } else {
            None
        }
    }
}

/// The year and month that a text `"Y-M"` writes, each an `u32`.
pub open spec fn birth_of_text(s: Seq<char>) -> Option<(u32, u32)> {
    let f = split_on(s, '-');
    if f.len() >= 2 && parse_u32(f[0]) is Some && parse_u32(f[1]) is Some {
        Some((parse_u32(f[0])->Some_0, parse_u32(f[1])->Some_0))
    } else {
        None
    }
}

/// Reads a date written `"Y-M"`.
pub fn parse_date(s: &str) -> (r: Option<Date>)
    ensures
        r matches Some(d) ==> birth_of_text(s@) == Some((d.year, d.month)),
        r is None ==> birth_of_text(s@) is None,
{
    let c = chars_of(s);
    let parts = split_fields(&c, '-');
    if parts.len() < 2 {
        return None;
    }
    match (parse_u32_of(&parts[0]), parse_u32_of(&parts[1])) {
        (Some(year), Some(month)) => Some(Date::new(year, month)),
        _ => None,
    }
}

/// The months by which retirement is delayed for a birth in `year` and
/// `month` under `rule`: none if the original retirement age is reached
/// before the reform year; otherwise one month per `factor` months from
/// January of the reform year to the original retirement date, rounded up,
/// and at most `bound`.
pub open spec fn extension_months(year: nat, month: nat, rule: (nat, nat, nat)) -> nat {
    let (age, factor, bound) = rule;
    let period = if year + age < REFORM_YEAR {
        0
    } else {
        ((year + age - REFORM_YEAR) * 12 + month) as nat
    };
    if period == 0 {
        0
    } else if period < bound {
        ((period + factor - 1) / (factor as int)) as nat
    } else {
        bound
    }
}

/// A retirement age of `age` years and `extra` months, in years: a whole
/// number when `extra` is a multiple of 12, otherwise rounded to two
/// decimal places.
pub open spec fn age_text(age: nat, extra: nat) -> Seq<char> {
    if extra % 12 == 0 {
        decimal(age + extra / 12)
    } else {
        let hundredths = age * 100 + (100 * extra + 6) / 12;
        decimal(hundredths / 100) + seq!['.'] + two_digit(hundredths % 100)
    }
}

/// The report `"Y-MM,age,delay"`: the retirement year and month, the
/// retirement age in years and the delay in months.
pub open spec fn retirement_report(year: nat, month: nat, rule: (nat, nat, nat)) -> Seq<char> {
    let ext = extension_months(year, month, rule);
    let base_year = year + rule.0;
    let shifted = (month - 1 + ext) as nat;
    decimal(base_year + shifted / 12) + seq!['-'] + two_digit(shifted % 12 + 1) + seq![',']
        + age_text(rule.0, ext) + seq![','] + decimal(ext)
}

/// The year and month `months` after `ym`.
fn add_month(ym: (u32, u32), months: u32) -> (r: (u32, u32))
    requires
        1 <= ym.1,
        ym.1 + months <= u32::MAX,
        ym.0 + (ym.1 + months) / 12 <= u32::MAX,
    ensures
        r.0 == ym.0 + (ym.1 - 1 + months) / 12,
        r.1 == (ym.1 - 1 + months) % 12 + 1,
{
    let (y, m) = ym;
    let new_m = m - 1 + months;
    (y + new_m / 12, new_m % 12 + 1)
}

/// Appends a retirement age of `age` years and `extra` months, in years.
fn append_age(s: &mut String, age: u32, extra: u32)
    requires
        age <= 100,
        extra <= 100,
    ensures
        final(s)@ == old(s)@ + age_text(age as nat, extra as nat),
{
    if extra % 12 == 0 {
        append_decimal(s, (age + extra / 12) as u64);
    } else {
        let hundredths = age * 100 + (100 * extra + 6) / 12;
        append_decimal(s, (hundredths / 100) as u64);
        proof {
            reveal_strlit(".");
        }
        s.append(".");
        append_two_digit(s, (hundredths % 100) as u64);
    }
    assert(final(s)@ =~= old(s)@ + age_text(age as nat, extra as nat));
}

/// The retirement date, age and delay of an employee born in the month
/// that `time` writes as `"Y-M"`, of the category that `tp` names.
pub fn retire_time(time: &str, tp: &str) -> (r: String)
    requires
        birth_of_text(time@) matches Some((y, m)) && 1 <= m <= 300_000_000 && y <= 300_000_000,
        employee_of_text(tp@) is Some,
    ensures
        r@ == retirement_report(
            birth_of_text(time@)->Some_0.0 as nat,
            birth_of_text(time@)->Some_0.1 as nat,
            rule_of(employee_of_text(tp@)->Some_0),
        ),
{
    let birth_date = match parse_date(time) {
        Some(d) => d,
        None => {
            return String::new();
        },
    };
    let kind = match Employee::from_text(tp) {
        Some(e) => e,
        None => {
            return String::new();
        },
    };
    let (original_retire_age, factor, bound) = kind.infos();
    let period_months = if birth_date.year + original_retire_age < REFORM_YEAR {
        0
    } else {
        (birth_date.year + original_retire_age - REFORM_YEAR) * 12 + birth_date.month
    };
    let extend_month = if period_months == 0 {
        0
    } else if period_months < bound {
        (period_months + factor - 1) / factor
    } else {
        bound
    };
    let (retire_year, retire_month) = add_month(
        (birth_date.year + original_retire_age, birth_date.month),
        extend_month,
    );
    let mut r = String::new();
    append_decimal(&mut r, retire_year as u64);
    proof {
        reveal_strlit("-");
        reveal_strlit(",");
    }
    r.append("-");
    append_two_digit(&mut r, retire_month as u64);
    r.append(",");
    append_age(&mut r, original_retire_age, extend_month);
    r.append(",");
    append_decimal(&mut r, extend_month as u64);
    assert(r@ =~= retirement_report(
        birth_date.year as nat,
        birth_date.month as nat,
        rule_of(kind),
    ));
    r
}

} // verus!
