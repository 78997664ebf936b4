use iex_download::pattern::read_dates;
use iex_download::{
    candidates, dates_between, expand_datespec, expand_pattern, parse_date, parse_datespec,
    resolve_range, CalendarDate, DateSpec,
};

fn day(year: i32, month: u32, day: u32) -> CalendarDate {
    CalendarDate { year, month, day }
}

fn january(days: &[u32]) -> Vec<CalendarDate> {
    days.iter().map(|d| day(2025, 1, *d)).collect()
}

#[test]
fn single_valid_date_yields_itself() {
    let got = expand_datespec(DateSpec::Single("2025-01-15".to_string()));
    assert_eq!(got, vec![day(2025, 1, 15)]);
    let got = expand_datespec(DateSpec::Single("20250115".to_string()));
    assert_eq!(got, vec![day(2025, 1, 15)]);
}

#[test]
fn single_invalid_date_yields_nothing() {
    assert!(expand_datespec(DateSpec::Single("2025-02-30".to_string())).is_empty());
    assert!(expand_datespec(DateSpec::Single("2025-13-01".to_string())).is_empty());
    assert!(expand_datespec(DateSpec::Single("2025-00-10".to_string())).is_empty());
    assert!(expand_datespec(DateSpec::Single("20250431".to_string())).is_empty());
}

#[test]
fn wildcard_in_day_keeps_the_days_that_exist() {
    let got = expand_datespec(DateSpec::Single("2025-01-?1".to_string()));
    assert_eq!(got, january(&[1, 11, 21, 31]));
    let got = expand_datespec(DateSpec::Single("2025-04-?1".to_string()));
    assert_eq!(got, vec![day(2025, 4, 1), day(2025, 4, 11), day(2025, 4, 21)]);
}

#[test]
fn wildcards_in_month_and_day() {
    let got = expand_pattern("2025-??-31");
    let months = [1u32, 3, 5, 7, 8, 10, 12];
    let want: Vec<CalendarDate> = months.iter().map(|m| day(2025, *m, 31)).collect();
    assert_eq!(got, want);
    assert_eq!(expand_pattern("2025-??-??").len(), 365);
    assert_eq!(expand_pattern("2024????").len(), 366);
    assert_eq!(expand_pattern("2024-02-??").len(), 29);
    assert_eq!(expand_pattern("1900-02-??").len(), 28);
    assert_eq!(expand_pattern("2000-02-??").len(), 29);
}

#[test]
fn expanding_twice_gives_the_same_days() {
    let first = expand_pattern("2025-0?-1?");
    let second = expand_pattern("2025-0?-1?");
    assert_eq!(first, second);
    assert_eq!(first.len(), 90);
    let a = expand_datespec(DateSpec::Range("2025-01-??".to_string(), "2025-02-??".to_string()));
    let b = expand_datespec(DateSpec::Range("2025-01-??".to_string(), "2025-02-??".to_string()));
    assert_eq!(a, b);
}

#[test]
fn range_of_plain_dates_is_inclusive() {
    let got = expand_datespec(DateSpec::Range("2025-01-01".to_string(), "2025-01-03".to_string()));
    assert_eq!(got, january(&[1, 2, 3]));
    let got = expand_datespec(DateSpec::Range("20250101".to_string(), "2025-01-01".to_string()));
    assert_eq!(got, january(&[1]));
}

#[test]
fn range_crosses_months_and_years() {
    let got = expand_datespec(DateSpec::Range("2024-12-30".to_string(), "2025-01-02".to_string()));
    assert_eq!(got, vec![day(2024, 12, 30), day(2024, 12, 31), day(2025, 1, 1), day(2025, 1, 2)]);
    let got = expand_datespec(DateSpec::Range("2024-02-27".to_string(), "2024-03-01".to_string()));
    assert_eq!(got, vec![day(2024, 2, 27), day(2024, 2, 28), day(2024, 2, 29), day(2024, 3, 1)]);
    let got = expand_datespec(DateSpec::Range("2024-01-01".to_string(), "2024-12-31".to_string()));
    assert_eq!(got.len(), 366);
    let got = expand_datespec(DateSpec::Range("2016-01-01".to_string(), "2025-01-01".to_string()));
    assert_eq!(got.len(), 3289);
}

#[test]
fn inverted_range_is_empty() {
    let got = expand_datespec(DateSpec::Range("2025-01-03".to_string(), "2025-01-01".to_string()));
    assert!(got.is_empty());
    let got = expand_datespec(DateSpec::Range("2025-02-??".to_string(), "2025-01-??".to_string()));
    assert!(got.is_empty());
}

#[test]
fn range_with_an_endpoint_that_denotes_no_day_is_empty() {
    let got = expand_datespec(DateSpec::Range("2025-02-30".to_string(), "2025-03-05".to_string()));
    assert!(got.is_empty());
    let got = expand_datespec(DateSpec::Range("2025-03-01".to_string(), "2025-02-3?".to_string()));
    assert!(got.is_empty());
}

#[test]
fn range_endpoints_widen_with_wildcards() {
    let got = expand_datespec(DateSpec::Range("2025-01-1?".to_string(), "2025-01-2?".to_string()));
    let want: Vec<CalendarDate> = (10..=29).map(|d| day(2025, 1, d)).collect();
    assert_eq!(got, want);
    let got = expand_datespec(DateSpec::Range("2025-0?-15".to_string(), "2025-0?-15".to_string()));
    assert_eq!(got.first(), Some(&day(2025, 1, 15)));
    assert_eq!(got.last(), Some(&day(2025, 9, 15)));
    assert_eq!(got.len(), 244);
}

#[test]
fn range_with_one_character_day_fields() {
    let got = expand_datespec(DateSpec::Range("2025-01-?".to_string(), "2025-01-2?".to_string()));
    let want: Vec<CalendarDate> = (1..=29).map(|d| day(2025, 1, d)).collect();
    assert_eq!(got, want);
}

#[test]
fn sequence_collapses_duplicates() {
    let tokens = vec![
        "2025-01-01".to_string(),
        "2025-01-02".to_string(),
        "2025-01-01".to_string(),
    ];
    assert_eq!(expand_datespec(DateSpec::Sequence(tokens)), january(&[1, 2]));
}

#[test]
fn sequence_is_the_union_of_its_tokens() {
    let tokens = vec![
        "2025-01-3?".to_string(),
        "20250102".to_string(),
        "2025-02-30".to_string(),
        "2025-01-?1".to_string(),
    ];
    assert_eq!(expand_datespec(DateSpec::Sequence(tokens)), january(&[1, 2, 11, 21, 30, 31]));
    assert!(expand_datespec(DateSpec::Sequence(Vec::new())).is_empty());
}

#[test]
fn candidates_of_a_pattern() {
    let got = candidates("2025-01-?1");
    let want: Vec<String> = (0..10).map(|d| format!("2025-01-{}1", d)).collect();
    assert_eq!(got, want);
    assert_eq!(candidates("2025-01-01"), vec!["2025-01-01".to_string()]);
    assert_eq!(candidates(""), vec![String::new()]);
    assert_eq!(candidates("2025-??-??").len(), 10000);
    let two = candidates("?-?");
    assert_eq!(two.len(), 100);
    assert_eq!(two[0], "0-0");
    assert_eq!(two[37], "3-7");
    assert_eq!(two[99], "9-9");
}

#[test]
fn candidates_are_all_different() {
    let mut got = candidates("20250?0?");
    got.sort();
    got.dedup();
    assert_eq!(got.len(), 100);
}

#[test]
fn candidates_keep_characters_outside_ascii() {
    let got = candidates("é?");
    assert_eq!(got.len(), 10);
    assert_eq!(got[4], "é4");
}

#[test]
fn parse_date_reads_both_forms() {
    assert_eq!(parse_date("2025-01-31"), Some(day(2025, 1, 31)));
    assert_eq!(parse_date("20250131"), Some(day(2025, 1, 31)));
    assert_eq!(parse_date("0000-01-01"), Some(day(0, 1, 1)));
    assert_eq!(parse_date("99991231"), Some(day(9999, 12, 31)));
    assert_eq!(parse_date("2024-02-29"), Some(day(2024, 2, 29)));
    assert_eq!(parse_date("2025-02-29"), None);
    assert_eq!(parse_date("1900-02-29"), None);
    assert_eq!(parse_date("2000-02-29"), Some(day(2000, 2, 29)));
    assert_eq!(parse_date("2025-06-31"), None);
    assert_eq!(parse_date("2025-01-00"), None);
    assert_eq!(parse_date("2025-01-32"), None);
    assert_eq!(parse_date("2025-13-01"), None);
    assert_eq!(parse_date("not-a-date"), None);
    assert_eq!(parse_date(""), None);
}

#[test]
fn parse_date_on_other_shapes() {
    assert_eq!(parse_date("2025-1-5"), Some(day(2025, 1, 5)));
    assert_eq!(parse_date("+12345-01-01"), Some(day(12345, 1, 1)));
    assert_eq!(parse_date("2025-01-01 "), None);
    assert_eq!(parse_date("2025/01/01"), None);
}

#[test]
fn parse_date_agrees_with_the_calendar() {
    for year in [1900i32, 2000, 2023, 2024] {
        let leap = year % 4 == 0 && (year % 100 != 0 || year % 400 == 0);
        for month in 0u32..=99 {
            for dom in 0u32..=99 {
                let length = match month {
                    1 | 3 | 5 | 7 | 8 | 10 | 12 => 31,
                    4 | 6 | 9 | 11 => 30,
                    2 => {
                        if leap {
                            29
                        } else {
                            28
                        }
                    }
                    _ => 0,
                };
                let want = if 1 <= dom && dom <= length { Some(day(year, month, dom)) } else { None };
                assert_eq!(parse_date(&format!("{:04}-{:02}-{:02}", year, month, dom)), want);
                assert_eq!(parse_date(&format!("{:04}{:02}{:02}", year, month, dom)), want);
            }
        }
    }
}

#[test]
fn dates_between_counts_days() {
    assert_eq!(dates_between(day(2025, 1, 1), day(2025, 1, 1)), vec![day(2025, 1, 1)]);
    assert!(dates_between(day(2025, 1, 2), day(2025, 1, 1)).is_empty());
    assert_eq!(dates_between(day(2023, 1, 1), day(2023, 12, 31)).len(), 365);
    assert_eq!(dates_between(day(1, 1, 1), day(1, 12, 31)).len(), 365);
    assert_eq!(dates_between(day(0, 1, 1), day(0, 12, 31)).len(), 366);
    assert_eq!(dates_between(day(-4, 2, 28), day(-4, 3, 1)).len(), 3);
    assert_eq!(dates_between(day(1999, 12, 31), day(2000, 3, 1)).len(), 62);
}

#[test]
fn dates_between_reaches_the_last_day() {
    let got = dates_between(day(262142, 12, 30), day(262142, 12, 31));
    assert_eq!(got, vec![day(262142, 12, 30), day(262142, 12, 31)]);
    assert_eq!(day(262142, 12, 31).successor(), None);
}

#[test]
fn parsed_then_expanded() {
    let spec = parse_datespec("2025-01-30..2025-02-0?").unwrap();
    let got = expand_datespec(spec);
    assert_eq!(got.len(), 11);
    assert_eq!(got[0], day(2025, 1, 30));
    assert_eq!(got[10], day(2025, 2, 9));
    let spec = parse_datespec("2025-13-01").unwrap();
    assert!(expand_datespec(spec).is_empty());
    let spec = parse_datespec("20250228,2025-02-29,2025-03-01").unwrap();
    assert_eq!(expand_datespec(spec), vec![day(2025, 2, 28), day(2025, 3, 1)]);
}

#[test]
fn resolve_range_takes_the_earliest_and_the_latest() {
    let lows = vec![day(2025, 1, 10), day(2025, 1, 20)];
    let highs = vec![day(2025, 1, 12), day(2025, 1, 14)];
    let want: Vec<CalendarDate> = (10..=14).map(|d| day(2025, 1, d)).collect();
    assert_eq!(resolve_range(&lows, &highs), want);
    assert!(resolve_range(&highs, &vec![day(2025, 1, 11)]).is_empty());
    assert!(resolve_range(&Vec::new(), &highs).is_empty());
    assert!(resolve_range(&lows, &Vec::new()).is_empty());
}

#[test]
fn read_dates_passes_over_what_is_no_day() {
    let texts: Vec<String> = ["2025-03-01", "nothing", "20250101", "2025-02-30", "2025-03-01"]
        .iter()
        .map(|t| t.to_string())
        .collect();
    assert_eq!(read_dates(&texts), vec![day(2025, 1, 1), day(2025, 3, 1)]);
    assert!(read_dates(&Vec::new()).is_empty());
}
