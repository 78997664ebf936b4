use iex_download::{parse_datespec, without_blanks, DateSpec, SyntaxError};

fn s(text: &str) -> String {
    text.to_string()
}

#[test]
fn a_lone_date_is_single() {
    assert_eq!(parse_datespec("2025-01-31"), Ok(DateSpec::Single(s("2025-01-31"))));
    assert_eq!(parse_datespec("20250131"), Ok(DateSpec::Single(s("20250131"))));
    assert_eq!(parse_datespec("2025-??-?1"), Ok(DateSpec::Single(s("2025-??-?1"))));
    assert_eq!(parse_datespec("2025????"), Ok(DateSpec::Single(s("2025????"))));
}

#[test]
fn a_date_out_of_the_calendar_is_still_grammatical() {
    assert_eq!(parse_datespec("2025-13-01"), Ok(DateSpec::Single(s("2025-13-01"))));
    assert_eq!(parse_datespec("2025-02-30"), Ok(DateSpec::Single(s("2025-02-30"))));
    assert_eq!(parse_datespec("00000000"), Ok(DateSpec::Single(s("00000000"))));
}

#[test]
fn two_dates_with_a_separator_are_a_range() {
    assert_eq!(
        parse_datespec("2025-01-01..2025-01-03"),
        Ok(DateSpec::Range(s("2025-01-01"), s("2025-01-03")))
    );
    assert_eq!(
        parse_datespec("2025-01-01:2025-01-03"),
        Ok(DateSpec::Range(s("2025-01-01"), s("2025-01-03")))
    );
    assert_eq!(
        parse_datespec("20250101..2025-01-??"),
        Ok(DateSpec::Range(s("20250101"), s("2025-01-??")))
    );
    assert_eq!(
        parse_datespec("2025-0?-01:20251231"),
        Ok(DateSpec::Range(s("2025-0?-01"), s("20251231")))
    );
}

#[test]
fn dates_with_commas_are_a_sequence() {
    assert_eq!(
        parse_datespec("2025-01-01,2025-01-02"),
        Ok(DateSpec::Sequence(vec![s("2025-01-01"), s("2025-01-02")]))
    );
    assert_eq!(
        parse_datespec("2025-01-01,20250102,2025-01-??,2025-01-01"),
        Ok(DateSpec::Sequence(vec![
            s("2025-01-01"),
            s("20250102"),
            s("2025-01-??"),
            s("2025-01-01")
        ]))
    );
}

#[test]
fn a_long_sequence() {
    let tokens: Vec<String> = (1..=28).map(|d| format!("2025-02-{:02}", d)).collect();
    let text = tokens.join(",");
    assert_eq!(parse_datespec(&text), Ok(DateSpec::Sequence(tokens)));
}

#[test]
fn text_that_is_no_specification_is_rejected() {
    for text in [
        "",
        "not-a-date",
        "2025/01/01",
        "2025-1-01",
        "2025-01-1",
        "2025-01-?",
        "20?5-01-01",
        "????-01-01",
        "2025-01-011",
        "202501011",
        "2025010",
        "2025-0101",
        "202501-01",
        "2025-01_01",
        "2025-01-0a",
        "２０２５-01-01",
    ] {
        assert_eq!(parse_datespec(text), Err(SyntaxError), "{}", text);
    }
}

#[test]
fn white_space_is_not_skipped() {
    for text in [
        " 2025-01-01",
        "2025-01-01 ",
        "2025-01-01, 2025-01-02",
        "2025-01-01 ,2025-01-02",
        "2025-01-01 .. 2025-01-02",
        "2025-01-01 2025-01-02",
        "2025-01-01\n",
    ] {
        assert_eq!(parse_datespec(text), Err(SyntaxError), "{}", text);
    }
}

#[test]
fn separators_must_stand_between_two_dates() {
    for text in [
        ",",
        "..",
        ":",
        "2025-01-01,",
        ",2025-01-01",
        "2025-01-01,,2025-01-02",
        "2025-01-01..",
        "2025-01-01:",
        "..2025-01-01",
        "2025-01-01.2025-01-02",
        "2025-01-01...2025-01-02",
        "2025-01-01::2025-01-02",
        "2025-01-01-2025-01-02",
        "2025-01-01..2025-01-02..2025-01-03",
        "2025-01-01:2025-01-02:2025-01-03",
        "2025-01-01,2025-01-02..2025-01-03",
        "2025-01-01..2025-01-02,2025-01-03",
        "2025-01-01,2025-01-02,",
        "2025-01-01,2025-01-02x",
        "2025-01-01,2025-01",
    ] {
        assert_eq!(parse_datespec(text), Err(SyntaxError), "{}", text);
    }
}

#[test]
fn the_error_describes_itself() {
    let error = parse_datespec("not-a-date").unwrap_err();
    assert_eq!(error.describe(), "not a date, a list of dates or a range of dates");
}

#[test]
fn blanks_are_taken_out() {
    assert_eq!(without_blanks("2025-01-01 .. 2025-01-05"), "2025-01-01..2025-01-05");
    assert_eq!(without_blanks(" 2025-01-01,\t2025-01-02\r\n"), "2025-01-01,2025-01-02");
    assert_eq!(without_blanks(""), "");
    assert_eq!(without_blanks("   "), "");
    assert_eq!(without_blanks("a\u{a0}b"), "a\u{a0}b");
    let spec = parse_datespec(&without_blanks("2025-01-01 : 2025-01-05"));
    assert_eq!(spec, Ok(DateSpec::Range(s("2025-01-01"), s("2025-01-05"))));
}
