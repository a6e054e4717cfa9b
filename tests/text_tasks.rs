use algorithms::calendar::{
    add_one_day, calculate_weekday, days_of_year, days_to_next_a_share_opening, is_holiday,
    is_leap_year, is_trading_day, next_trading_day, week_of_year,
};
use algorithms::retirement::{parse_date, Employee, FEMALE50, FEMALE55, MALE};
use algorithms::{convert_base, new_count_distinct, retire_time, time_info};

#[test]
fn time_info_values() {
    assert_eq!(time_info("2025-01-01"), "1,3,1,364,28,0");
    assert_eq!(time_info("2025-01-18"), "3,6,18,347,11,1");
    assert_eq!(time_info("2025-02-21"), "8,5,52,313,361,2");
    assert_eq!(time_info("2025-05-01"), "18,4,121,244,292,4");
    assert_eq!(time_info("2025-04-05"), "14,6,95,270,318,1");
    assert_eq!(time_info("2025-06-18"), "25,3,169,196,244,0");
    assert_eq!(time_info("2025-10-01"), "40,3,274,91,139,7");
    assert_eq!(time_info("2025-11-02"), "44,7,306,59,107,0");
    assert_eq!(time_info("2025-12-31"), "1,3,365,0,48,1");
    assert_eq!(time_info("2024-12-31"), "1,2,366,0,47,1");
    assert_eq!(time_info("2024-02-29"), "9,4,60,306,353,0");
}

#[test]
fn time_info_on_mondays() {
    assert_eq!(time_info("2025-01-06"), "2,1,6,359,23,0");
    assert_eq!(time_info("2025-03-03"), "10,1,62,303,351,0");
}

#[test]
fn weekdays_and_trading_days_around_a_weekend() {
    assert_eq!(calculate_weekday(2025, 1, 4), 6);
    assert_eq!(calculate_weekday(2025, 1, 5), 7);
    assert_eq!(calculate_weekday(2025, 1, 6), 1);
    assert!(!is_trading_day(2025, 1, 4));
    assert!(!is_trading_day(2025, 1, 5));
    assert!(is_trading_day(2025, 1, 6));
    assert_eq!(next_trading_day(2025, 1, 4), Some((2025, 1, 6)));
    assert_eq!(add_one_day(0, 12, 31), (1, 1, 1));
    assert_eq!(add_one_day(-4, 2, 28), (-4, 2, 29));
}

#[test]
fn calendar_helpers() {
    assert!(is_leap_year(2024));
    assert!(!is_leap_year(1900));
    assert!(is_leap_year(2000));
    assert_eq!(calculate_weekday(2025, 1, 1), 3);
    assert_eq!(calculate_weekday(2025, 11, 2), 7);
    assert_eq!(days_of_year(2024, 3, 1), 61);
    assert_eq!(days_of_year(2025, 3, 1), 60);
    assert_eq!(week_of_year(2025, 12, 31), 53);
    assert_eq!(days_to_next_a_share_opening(2025, 8, 15), 2);
    assert_eq!(add_one_day(2024, 2, 28), (2024, 2, 29));
    assert_eq!(add_one_day(2025, 2, 28), (2025, 3, 1));
    assert_eq!(add_one_day(2025, 12, 31), (2026, 1, 1));
    assert!(is_holiday(2025, 10, 3));
    assert!(!is_holiday(2024, 10, 3));
    assert!(!is_trading_day(2025, 10, 3));
    assert!(is_trading_day(2025, 10, 14));
    // 2025-10-01 to 07 are holidays; 2025-10-08 is a Wednesday.
    assert_eq!(next_trading_day(2025, 10, 1), Some((2025, 10, 8)));
}

#[test]
fn retire_time_values() {
    assert_eq!(retire_time("1971-04", MALE), "2034-04,63,36");
    assert_eq!(retire_time("1995-12", FEMALE50), "2050-12,55,60");
    assert_eq!(retire_time("1995-12", FEMALE55), "2053-12,58,36");
    assert_eq!(retire_time("1964-11", MALE), "2024-11,60,0");
    assert_eq!(retire_time("1965-01", MALE), "2025-02,60.08,1");
    assert_eq!(retire_time("1968-01", FEMALE55), "2023-01,55,0");
    assert_eq!(retire_time("1975-07", FEMALE50), "2025-11,50.33,4");
}

#[test]
fn retirement_parts() {
    let d = parse_date("1990-07").unwrap();
    assert_eq!((d.year, d.month), (1990, 7));
    assert!(parse_date("1990").is_none());
    assert!(parse_date("x-7").is_none());
    assert_eq!(Employee::from_text(MALE), Some(Employee::Male));
    assert_eq!(Employee::from_text("other"), None);
    assert_eq!(Employee::Female50.infos(), (50, 2, 60));
}

#[test]
fn convert_base_values() {
    assert_eq!(convert_base("10(2)", 10), "2");
    assert_eq!(convert_base("9(10)", 2), "1001");
    assert_eq!(convert_base("1A(16)", 8), "32");
    assert_eq!(convert_base("255", 16), "ff");
    assert_eq!(convert_base("0(8)", 2), "0");
    assert_eq!(convert_base("zz(36)", 16), "50f");
    assert_eq!(convert_base("4294967295", 16), "ffffffff");
    assert_eq!(convert_base("+17(8)", 10), "15");
}

#[test]
fn count_distinct_values() {
    assert_eq!(new_count_distinct("a,b,c,a,e,cd"), 5);
    assert_eq!(new_count_distinct("a,b,a"), 2);
    assert_eq!(new_count_distinct(""), 1);
    assert_eq!(new_count_distinct("a,,b,,"), 3);
    assert_eq!(new_count_distinct("x"), 1);
}
