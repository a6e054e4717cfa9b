//! Calendar facts about a date: weekday, day and week of the year, and the
//! days until the A-share market next opens.
use crate::text::{
    append_signed_decimal, chars_of, parse_i32_or_zero, parse_i32_or_zero_of, signed_decimal,
    split_fields, split_on,
};
use vstd::prelude::*;
use vstd::string::*;

verus! {

/// The weekday number of Friday.
pub const FRIDAY: i32 = 5;

/// The weekday number of Saturday.
pub const SATURDAY: i32 = 6;

/// The weekday number of Sunday.
pub const SUNDAY: i32 = 7;

/// Gregorian leap year.
pub open spec fn is_leap(y: int) -> bool {
    (y % 4 == 0 && y % 100 != 0) || y % 400 == 0
}

/// The length of month `m` (1 to 12) in a common year.
pub open spec fn common_month_length(m: int) -> int {
    if m == 2 {
        28
    } else if m == 4 || m == 6 || m == 9 || m == 11 {
        30
    } else {
        31
    }
}

/// The days of a common year before month `m` (1 to 13).
pub open spec fn days_before_month(m: int) -> int
    decreases m,
{
    if m <= 1 {
        0
    } else {
        days_before_month(m - 1) + common_month_length(m - 1)
    }
}

/// The number of `day` of `month` within its year, 1 for January 1st.
pub open spec fn day_of_year(year: int, month: int, day: int) -> int {
    days_before_month(month) + (if month > 2 && is_leap(year) {
        1int
    } else {
        0int
    }) + day
}

/// The weekday of a date, 1 for Monday to 7 for Sunday, by Zeller's
/// congruence with January and February counted as months 13 and 14 of the
/// year before.
pub open spec fn weekday(year: int, month: int, day: int) -> int {
    let y = if month < 3 {
        year - 1
    } else {
        year
    };
    let m = if month < 3 {
        month + 12
    } else {
        month
    };
    let k = y % 100;
    let j = y / 100;
    let h = (day + (13 * (m + 1)) / 5 + k + k / 4 + j / 4 + 5 * j) % 7;
    (h + 5) % 7 + 1
}

/// The week of the year: `(day of year + 1) / 7 + 1`.
pub open spec fn week_number(year: int, month: int, day: int) -> int {
    (day_of_year(year, month, day) + 1) / 7 + 1
}

/// The days from a date until the market next opens: during a holiday
/// closure, the days left until the first trading day after it; on a
/// Friday 2, on a Saturday 1, otherwise 0.
pub open spec fn days_to_opening(year: int, month: int, day: int) -> int {
    let current = day_of_year(year, month, day);
    if month == 1 && day == 1 {
        day_of_year(year, 1, 2) - current - 1
    } else if (month == 1 && 28 <= day <= 31) || (month == 2 && 1 <= day <= 4) {
        day_of_year(year, 2, 5) - current - 1
    } else if month == 4 && 4 <= day <= 6 {
        day_of_year(year, 4, 7) - current - 1
    } else if month == 5 && 1 <= day <= 5 {
        day_of_year(year, 5, 6) - current - 1
    } else if (month == 5 && day == 31) || (month == 6 && 1 <= day <= 2) {
        day_of_year(year, 6, 3) - current - 1
    } else if month == 10 && 1 <= day <= 8 {
        day_of_year(year, 10, 9) - current - 1
    } else if month == 12 && day == 31 {
        day_of_year(year + 1, 1, 1) - current + if is_leap(year) {
            366int
        } else {
            365int
        }
    } else {
        let w = weekday(year, month, day);
        if w == FRIDAY {
            2
        } else if w == SATURDAY {
            1
        } else {
            0
        }
    }
}

/// A month from 1 to 12 and a day from 1 to 31.
pub open spec fn is_date_shape(month: int, day: int) -> bool {
    1 <= month <= 12 && 1 <= day <= 31
}

/// A date whose arithmetic here stays within `i32`.
pub open spec fn is_supported_date(year: int, month: int, day: int) -> bool {
    1 <= year < i32::MAX && 1 <= month <= 12 && 1 <= day <= 31
}

/// Gregorian leap year.
pub fn is_leap_year(year: i32) -> (r: bool)
    ensures
        r == is_leap(year as int),
{
    (year % 4 == 0 && year % 100 != 0) || (year % 400 == 0)
}

/// The weekday of a date, 1 for Monday to 7 for Sunday.
pub fn calculate_weekday(year: i32, month: i32, day: i32) -> (r: i32)
    requires
        is_supported_date(year as int, month as int, day as int),
    ensures
        r == weekday(year as int, month as int, day as int),
        1 <= r <= 7,
{
    let mut y = year;
    let mut m = month;
    let q = day;
    if m < 3 {
        m = m + 12;
        y = y - 1;
    }
    let k = y % 100;
    let j = y / 100;
    let h = (q + ((13 * (m + 1)) / 5) + k + (k / 4) + (j / 4) + (5 * j)) % 7;
    let res = (h + 5) % 7;
    res + 1
}

proof fn lemma_days_before_month_bounds(m: int)
    requires
        1 <= m <= 13,
    ensures
        0 <= days_before_month(m) <= 365,
        m <= 12 ==> days_before_month(m) <= 334,
    decreases m,
{
    if m > 1 {
        lemma_days_before_month_bounds(m - 1);
    }
    reveal_with_fuel(days_before_month, 13);
}

/// The number of a date within its year, 1 for January 1st.
pub fn days_of_year(year: i32, month: i32, day: i32) -> (r: i32)
    requires
        1 <= month <= 12,
        1 <= day <= 31,
    ensures
        r == day_of_year(year as int, month as int, day as int),
{
    let days_in_month: [i32; 12] = [31, 28, 31, 30, 31, 30, 31, 31, 30, 31, 30, 31];
    let mut day_count: i32 = 0;
    let mut m: i32 = 1;
    proof {
        lemma_days_before_month_bounds(month as int);
    }
    while m < month
        invariant
            1 <= m <= month <= 12,
            day_count == days_before_month(m as int),
            forall|t: int| 0 <= t < 12 ==> days_in_month[t] == common_month_length(t + 1),
        decreases month - m,
    {
        proof {
            lemma_days_before_month_bounds(m as int + 1);
        }
        day_count = day_count + days_in_month[(m - 1) as usize];
        m = m + 1;
    }
    if month > 2 && is_leap_year(year) {
        day_count = day_count + 1;
    }
    day_count + day
}

/// The week of the year: `(day of year + 1) / 7 + 1`.
pub fn week_of_year(year: i32, month: i32, day: i32) -> (r: i32)
    requires
        1 <= month <= 12,
        1 <= day <= 31,
    ensures
        r == week_number(year as int, month as int, day as int),
{
    let day_of_year = days_of_year(year, month, day);
    proof {
        lemma_days_before_month_bounds(month as int);
    }
    (day_of_year + 1) / 7 + 1
}

/// The days from a date until the A-share market next opens.
pub fn days_to_next_a_share_opening(year: i32, month: i32, day: i32) -> (r: i32)
    requires
        is_supported_date(year as int, month as int, day as int),
    ensures
        r == days_to_opening(year as int, month as int, day as int),
{
    proof {
        lemma_days_before_month_bounds(month as int);
    }
    let new_year_day_open = days_of_year(year, 1, 2);
    let spring_year_day_open = days_of_year(year, 2, 5);
    let qingming_day_open = days_of_year(year, 4, 7);
    let labor_day_open = days_of_year(year, 5, 6);
    let zongzi_day_open = days_of_year(year, 6, 3);
    let autumn_day_open = days_of_year(year, 10, 9);
    let next_new_year_day_open = days_of_year(year + 1, 1, 1);
    let current_day_of_year = days_of_year(year, month, day);
    proof {
        reveal_with_fuel(days_before_month, 13);
    }
    if month == 1 && day == 1 {
        return new_year_day_open - current_day_of_year - 1;
    }
    if (month == 1 && 28 <= day && day <= 31) || (month == 2 && 1 <= day && day <= 4) {
        return spring_year_day_open - current_day_of_year - 1;
    }
    if month == 4 && 4 <= day && day <= 6 {
        return qingming_day_open - current_day_of_year - 1;
    }
    if month == 5 && 1 <= day && day <= 5 {
        return labor_day_open - current_day_of_year - 1;
    }
    if (month == 5 && day == 31) || (month == 6 && 1 <= day && day <= 2) {
        return zongzi_day_open - current_day_of_year - 1;
    }
    if month == 10 && 1 <= day && day <= 8 {
        return autumn_day_open - current_day_of_year - 1;
    }
    if month == 12 && day == 31 {
        let days_in_year = if is_leap_year(year) {
            366
        } else {
            365
        };
        return next_new_year_day_open - current_day_of_year + days_in_year;
    }
    let weekday = calculate_weekday(year, month, day);
    if weekday == FRIDAY {
        2
    } else if weekday == SATURDAY {
        1
    } else {
        0
    }
}

/// The year, month and day that the text `time` writes as `"Y-M-D"`; a
/// field that is not an `i32` counts as 0.
pub open spec fn date_of_text(time: Seq<char>) -> (int, int, int) {
    let f = split_on(time, '-');
    (
        parse_i32_or_zero(f[0]) as int,
        parse_i32_or_zero(f[1]) as int,
        parse_i32_or_zero(f[2]) as int,
    )
}

/// `time` writes a supported date as `"Y-M-D"`.
pub open spec fn is_date_text(time: Seq<char>) -> bool {
    split_on(time, '-').len() >= 3 && is_supported_date(
        date_of_text(time).0,
        date_of_text(time).1,
        date_of_text(time).2,
    )
}

/// The report on a date: week of the year (a week 53 counts as week 1 of
/// the next year), weekday, day of the year, days left in the year, days
/// until the lunar new year, and days until the market next opens, joined
/// by commas.
pub open spec fn date_report(y: int, m: int, d: int) -> Seq<char> {
    let doy = day_of_year(y, m, d);
    let week = if week_number(y, m, d) >= 53 {
        1
    } else {
        week_number(y, m, d)
    };
    let rest = if is_leap(y) {
        366 - doy
    } else {
        365 - doy
    };
    let lunar = if doy > 29 {
        413 - doy
    } else {
        29 - doy
    };
    signed_decimal(week) + seq![','] + signed_decimal(weekday(y, m, d)) + seq![',']
        + signed_decimal(doy) + seq![','] + signed_decimal(rest) + seq![','] + signed_decimal(
        lunar,
    ) + seq![','] + signed_decimal(days_to_opening(y, m, d))
}

fn append_field(r: &mut String, value: i32)
    ensures
        final(r)@ == old(r)@ + seq![','] + signed_decimal(value as int),
{
    proof {
        reveal_strlit(",");
    }
    r.append(",");
    append_signed_decimal(r, value as i64);
    assert(final(r)@ =~= old(r)@ + seq![','] + signed_decimal(value as int));
}

/// The report on the date that `time` writes as `"Y-M-D"`: week of the
/// year, weekday, day of the year, days left in the year, days until the
/// lunar new year and days until the market next opens.
pub fn time_info(time: &str) -> (r: String)
    requires
        is_date_text(time@),
    ensures
        r@ == date_report(date_of_text(time@).0, date_of_text(time@).1, date_of_text(time@).2),
{
    let chars = chars_of(time);
    let times = split_fields(&chars, '-');
    let year = parse_i32_or_zero_of(&times[0]);
    let month = parse_i32_or_zero_of(&times[1]);
    let day = parse_i32_or_zero_of(&times[2]);
    let mut week_of_year = week_of_year(year, month, day);
    let day_of_week = calculate_weekday(year, month, day);
    let day_of_year = days_of_year(year, month, day);
    proof {
        lemma_days_before_month_bounds(month as int);
    }
    let day_rest = if is_leap_year(year) {
        366 - day_of_year
    } else {
        365 - day_of_year
    };
    let day_lunar = if day_of_year > 29 {
        413 - day_of_year
    } else {
        29 - day_of_year
    };
    let days_to_trading = days_to_next_a_share_opening(year, month, day);
    if week_of_year >= 53 {
        week_of_year = 1;
    }
    let mut r = String::new();
    append_signed_decimal(&mut r, week_of_year as i64);
    append_field(&mut r, day_of_week);
    append_field(&mut r, day_of_year);
    append_field(&mut r, day_rest);
    append_field(&mut r, day_lunar);
    append_field(&mut r, days_to_trading);
    proof {
        let ghost y = year as int;
        let ghost m = month as int;
        let ghost d = day as int;
        assert(r@ =~= date_report(y, m, d));
    }
    r
}

/// The days that a search for the next trading day looks ahead.
pub const TRADING_SEARCH_DAYS: u32 = 366;

/// The listed public holidays: the spring festival, 28 January to
/// 4 February 2025, and the national day holiday, 1 to 7 October 2025.
pub open spec fn is_listed_holiday(year: int, month: int, day: int) -> bool {
    year == 2025 && ((month == 1 && 28 <= day <= 31) || (month == 2 && 1 <= day <= 4) || (month
        == 10 && 1 <= day <= 7))
}

/// A trading day: not a listed holiday, and neither a Saturday nor a
/// Sunday.
pub open spec fn is_trading(year: int, month: int, day: int) -> bool {
    !is_listed_holiday(year, month, day) && weekday(year, month, day) != SATURDAY && weekday(
        year,
        month,
        day,
    ) != SUNDAY
}

/// The date after `(year, month, day)`.
pub open spec fn next_date(year: int, month: int, day: int) -> (int, int, int) {
    let len = common_month_length(month) + if month == 2 && is_leap(year) {
        1int
    } else {
        0int
    };
    if day + 1 > len {
        if month + 1 > 12 {
            (year + 1, 1, 1)
        } else {
            (year, month + 1, 1)
        }
    } else {
        (year, month, day + 1)
    }
}

/// The date `k` days after `(year, month, day)`.
pub open spec fn date_after(year: int, month: int, day: int, k: nat) -> (int, int, int)
    decreases k,
{
    if k == 0 {
        (year, month, day)
    } else {
        let p = date_after(year, month, day, (k - 1) as nat);
        next_date(p.0, p.1, p.2)
    }
}

/// Whether a date is one of the listed public holidays.
pub fn is_holiday(year: i32, month: i32, day: i32) -> (r: bool)
    ensures
        r == is_listed_holiday(year as int, month as int, day as int),
{
    let holidays: [(i32, i32, i32); 15] = [
        (2025, 1, 28),
        (2025, 1, 29),
        (2025, 1, 30),
        (2025, 1, 31),
        (2025, 2, 1),
        (2025, 2, 2),
        (2025, 2, 3),
        (2025, 2, 4),
        (2025, 10, 1),
        (2025, 10, 2),
        (2025, 10, 3),
        (2025, 10, 4),
        (2025, 10, 5),
        (2025, 10, 6),
        (2025, 10, 7),
    ];
    let mut i: usize = 0;
    while i < 15
        invariant
            i <= 15,
            holidays@ == seq![
                (2025i32, 1i32, 28i32),
                (2025, 1, 29),
                (2025, 1, 30),
                (2025, 1, 31),
                (2025, 2, 1),
                (2025, 2, 2),
                (2025, 2, 3),
                (2025, 2, 4),
                (2025, 10, 1),
                (2025, 10, 2),
                (2025, 10, 3),
                (2025, 10, 4),
                (2025, 10, 5),
                (2025, 10, 6),
                (2025, 10, 7),
            ],
            forall|t: int| 0 <= t < i ==> holidays@[t] != (year, month, day),
        decreases 15 - i,
    {
        let (hy, hm, hd) = holidays[i];
        if hy == year && hm == month && hd == day {
            return true;
        }
        i = i + 1;
    }
    proof {
        if is_listed_holiday(year as int, month as int, day as int) {
            if month == 1 {
                assert(holidays@[day - 28] == (year, month, day));
            } else if month == 2 {
                assert(holidays@[day + 3] == (year, month, day));
            } else {
                assert(holidays@[day + 7] == (year, month, day));
            }
        }
    }
    false
}

/// A trading day: not a listed holiday, and neither a Saturday nor a
/// Sunday.
pub fn is_trading_day(year: i32, month: i32, day: i32) -> (r: bool)
    requires
        is_supported_date(year as int, month as int, day as int),
    ensures
        r == is_trading(year as int, month as int, day as int),
{
    let weekday = calculate_weekday(year, month, day);
    !is_holiday(year, month, day) && weekday != SATURDAY && weekday != SUNDAY
}

/// The date after `(year, month, day)`.
pub fn add_one_day(year: i32, month: i32, day: i32) -> (r: (i32, i32, i32))
    requires
        is_date_shape(month as int, day as int),
        year < i32::MAX,
    ensures
        (r.0 as int, r.1 as int, r.2 as int) == next_date(year as int, month as int, day as int),
        is_date_shape(r.1 as int, r.2 as int),
        year <= r.0 <= year + 1,
{
    let days_in_month: [i32; 12] = [31, 28, 31, 30, 31, 30, 31, 31, 30, 31, 30, 31];
    assert(forall|t: int| 0 <= t < 12 ==> days_in_month[t] == common_month_length(t + 1));
    let mut new_day = day + 1;
    let mut new_month = month;
    let mut new_year = year;
    let month_days = days_in_month[(month - 1) as usize] + if month == 2 && is_leap_year(year) {
        1
    } else {
        0
    };
    if new_day > month_days {
        new_day = 1;
        new_month = new_month + 1;
        if new_month > 12 {
            new_month = 1;
            new_year = new_year + 1;
        }
    }
    (new_year, new_month, new_day)
}

/// The first trading day on or after a date, looking at most
/// [`TRADING_SEARCH_DAYS`] days ahead; `None` when there is none that soon.
pub fn next_trading_day(year: i32, month: i32, day: i32) -> (r: Option<(i32, i32, i32)>)
    requires
        is_supported_date(year as int, month as int, day as int),
        year < i32::MAX - 400,
    ensures
        r matches Some(t) ==> exists|k: nat|
            k <= TRADING_SEARCH_DAYS && date_after(year as int, month as int, day as int, k) == (
                t.0 as int,
                t.1 as int,
                t.2 as int,
            ) && is_trading(t.0 as int, t.1 as int, t.2 as int) && forall|j: nat|
                j < k ==> !is_trading(
                    #[trigger] date_after(year as int, month as int, day as int, j).0,
                    date_after(year as int, month as int, day as int, j).1,
                    date_after(year as int, month as int, day as int, j).2,
                ),
        r is None ==> forall|j: nat|
            j <= TRADING_SEARCH_DAYS ==> !is_trading(
                #[trigger] date_after(year as int, month as int, day as int, j).0,
                date_after(year as int, month as int, day as int, j).1,
                date_after(year as int, month as int, day as int, j).2,
            ),
{
    let mut current_year = year;
    let mut current_month = month;
    let mut current_day = day;
    let mut k: u32 = 0;
    loop
        invariant
            k <= TRADING_SEARCH_DAYS,
            year < i32::MAX - 400,
            year <= current_year <= year + k,
            is_supported_date(current_year as int, current_month as int, current_day as int),
            date_after(year as int, month as int, day as int, k as nat) == (
                current_year as int,
                current_month as int,
                current_day as int,
            ),
            forall|j: nat|
                j < k ==> !is_trading(
                    #[trigger] date_after(year as int, month as int, day as int, j).0,
                    date_after(year as int, month as int, day as int, j).1,
                    date_after(year as int, month as int, day as int, j).2,
                ),
        decreases TRADING_SEARCH_DAYS - k,
    {
        if is_trading_day(current_year, current_month, current_day) {
            return Some((current_year, current_month, current_day));
        }
        if k == TRADING_SEARCH_DAYS {
            return None;
        }
        let (new_year, new_month, new_day) = add_one_day(current_year, current_month, current_day);
        current_year = new_year;
        current_month = new_month;
        current_day = new_day;
        k = k + 1;
    }
}

} // verus!
