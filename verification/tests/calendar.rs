use iex_download::calendar::{MAX_YEAR, MIN_YEAR};
use iex_download::dateset::{contains_date, insert_date};
use iex_download::token::hyphenated;
use iex_download::CalendarDate;

fn day(year: i32, month: u32, day: u32) -> CalendarDate {
    CalendarDate { year, month, day }
}

fn month_length(year: i32, month: u32) -> u32 {
    match month {
        1 | 3 | 5 | 7 | 8 | 10 | 12 => 31,
        4 | 6 | 9 | 11 => 30,
        _ => {
            if year.rem_euclid(4) == 0 && (year.rem_euclid(100) != 0 || year.rem_euclid(400) == 0) {
                29
            } else {
                28
            }
        }
    }
}

#[test]
fn validity_follows_the_calendar() {
    assert!(day(2025, 1, 31).check_valid());
    assert!(!day(2025, 1, 32).check_valid());
    assert!(!day(2025, 1, 0).check_valid());
    assert!(!day(2025, 0, 1).check_valid());
    assert!(!day(2025, 13, 1).check_valid());
    assert!(day(2024, 2, 29).check_valid());
    assert!(!day(2025, 2, 29).check_valid());
    assert!(!day(1900, 2, 29).check_valid());
    assert!(day(2000, 2, 29).check_valid());
    assert!(day(0, 2, 29).check_valid());
    assert!(day(-4, 2, 29).check_valid());
    assert!(!day(-1, 2, 29).check_valid());
    assert!(day(-100, 2, 28).check_valid());
    assert!(!day(-100, 2, 29).check_valid());
    assert!(day(-400, 2, 29).check_valid());
    assert!(!day(2025, 4, 31).check_valid());
    assert!(day(MAX_YEAR, 12, 31).check_valid());
    assert!(!day(MAX_YEAR + 1, 1, 1).check_valid());
    assert!(day(MIN_YEAR, 1, 1).check_valid());
    assert!(!day(MIN_YEAR - 1, 12, 31).check_valid());
}

#[test]
fn the_year_bounds() {
    assert_eq!(MIN_YEAR, -262143);
    assert_eq!(MAX_YEAR, 262142);
}

#[test]
fn successor_steps_over_month_and_year_ends() {
    assert_eq!(day(2025, 1, 30).successor(), Some(day(2025, 1, 31)));
    assert_eq!(day(2025, 1, 31).successor(), Some(day(2025, 2, 1)));
    assert_eq!(day(2025, 2, 28).successor(), Some(day(2025, 3, 1)));
    assert_eq!(day(2024, 2, 28).successor(), Some(day(2024, 2, 29)));
    assert_eq!(day(2024, 2, 29).successor(), Some(day(2024, 3, 1)));
    assert_eq!(day(2025, 12, 31).successor(), Some(day(2026, 1, 1)));
    assert_eq!(day(-1, 12, 31).successor(), Some(day(0, 1, 1)));
    assert_eq!(day(MAX_YEAR, 12, 30).successor(), Some(day(MAX_YEAR, 12, 31)));
    assert_eq!(day(MAX_YEAR, 12, 31).successor(), None);
}

#[test]
fn successor_follows_the_calendar() {
    for year in [-401i32, -400, -100, -4, -1, 0, 1, 1900, 2000, 2023, 2024] {
        for month in 1..=12u32 {
            for dom in 1..=month_length(year, month) {
                let want = if dom < month_length(year, month) {
                    day(year, month, dom + 1)
                } else if month < 12 {
                    day(year, month + 1, 1)
                } else {
                    day(year + 1, 1, 1)
                };
                let today = day(year, month, dom);
                assert!(today.check_valid());
                assert_eq!(today.successor(), Some(want));
                assert!(today.is_before(&want));
                assert!(!want.is_before(&today));
            }
        }
    }
}

#[test]
fn is_before_orders_by_year_month_day() {
    assert!(day(2024, 12, 31).is_before(&day(2025, 1, 1)));
    assert!(day(2025, 1, 31).is_before(&day(2025, 2, 1)));
    assert!(day(2025, 2, 1).is_before(&day(2025, 2, 2)));
    assert!(!day(2025, 2, 2).is_before(&day(2025, 2, 2)));
    assert!(!day(2025, 2, 2).is_before(&day(2025, 1, 31)));
    assert!(day(-5, 6, 1).is_before(&day(-4, 1, 1)));
}

#[test]
fn insert_date_keeps_order_and_drops_repeats() {
    let mut dates = Vec::new();
    for d in [day(2025, 3, 1), day(2025, 1, 1), day(2025, 2, 1), day(2025, 1, 1), day(2025, 3, 1)] {
        insert_date(&mut dates, d);
    }
    assert_eq!(dates, vec![day(2025, 1, 1), day(2025, 2, 1), day(2025, 3, 1)]);
    insert_date(&mut dates, day(2024, 12, 31));
    insert_date(&mut dates, day(2025, 12, 31));
    assert_eq!(dates.len(), 5);
    assert_eq!(dates[0], day(2024, 12, 31));
    assert_eq!(dates[4], day(2025, 12, 31));
}

#[test]
fn contains_date_finds_members_only() {
    let dates: Vec<CalendarDate> = (1..=28).filter(|d| d % 3 != 0).map(|d| day(2025, 2, d)).collect();
    for d in 1..=28u32 {
        assert_eq!(contains_date(&dates, day(2025, 2, d)), d % 3 != 0);
    }
    assert!(!contains_date(&dates, day(2025, 1, 31)));
    assert!(!contains_date(&dates, day(2025, 3, 1)));
    assert!(!contains_date(&Vec::new(), day(2025, 3, 1)));
}

#[test]
fn hyphenated_writes_four_two_and_two_digits() {
    assert_eq!(hyphenated(&day(2025, 1, 31)), "2025-01-31");
    assert_eq!(hyphenated(&day(987, 12, 5)), "0987-12-05");
    assert_eq!(hyphenated(&day(0, 1, 1)), "0000-01-01");
    assert_eq!(hyphenated(&day(9999, 12, 31)), "9999-12-31");
}
