//! Date tokens: the written form of one day, and how a text is read as a day.

use crate::calendar::CalendarDate;
use chrono::{Datelike, NaiveDate};
use vstd::prelude::*;

verus! {

/// The format of a day written with hyphens, as in `2025-01-31`.
pub const HYPHENATED_FORMAT: &'static str = "%Y-%m-%d";

/// The format of a day written without separators, as in `20250131`.
pub const COMPACT_FORMAT: &'static str = "%Y%m%d";

/// Whether `c` is one of the ten decimal digits.
pub open spec fn is_digit(c: char) -> bool {
    '0' <= c <= '9'
}

/// The value of the decimal digit `c`.
pub open spec fn digit_value(c: char) -> int {
    c as int - '0' as int
}

/// Whether `text` is ten characters long: four digits, a hyphen, two digits,
/// a hyphen and two digits.
pub open spec fn is_hyphenated_digits(text: Seq<char>) -> bool {
    &&& text.len() == 10
    &&& is_digit(text[0]) && is_digit(text[1]) && is_digit(text[2]) && is_digit(text[3])
    &&& text[4] == '-'
    &&& is_digit(text[5]) && is_digit(text[6])
    &&& text[7] == '-'
    &&& is_digit(text[8]) && is_digit(text[9])
}

/// Whether `text` is eight digits.
pub open spec fn is_compact_digits(text: Seq<char>) -> bool {
    &&& text.len() == 8
    &&& forall|i: int| 0 <= i < 8 ==> is_digit(#[trigger] text[i])
}

/// The number that the four digits of `text` from position `at` on spell.
pub open spec fn four_digits(text: Seq<char>, at: int) -> int {
    1000 * digit_value(text[at]) + 100 * digit_value(text[at + 1]) + 10 * digit_value(
        text[at + 2],
    ) + digit_value(text[at + 3])
}

/// The number that the two digits of `text` from position `at` on spell.
pub open spec fn two_digits(text: Seq<char>, at: int) -> int {
    10 * digit_value(text[at]) + digit_value(text[at + 1])
}

/// The day with the given year, month and day of the month, if it exists.
pub open spec fn civil(year: int, month: int, day: int) -> Option<CalendarDate> {
    let date = CalendarDate { year: year as i32, month: month as u32, day: day as u32 };
    if 0 <= year <= 9999 && 0 <= month <= 99 && 0 <= day <= 99 && date.is_valid() {
        Some(date)
    } else {
        None
    }
}

/// The day that a text of the shape [`is_hyphenated_digits`] names, if it
/// exists.
pub open spec fn hyphenated_reading(text: Seq<char>) -> Option<CalendarDate> {
    civil(four_digits(text, 0), two_digits(text, 5), two_digits(text, 8))
}

/// The day that a text of the shape [`is_compact_digits`] names, if it exists.
pub open spec fn compact_reading(text: Seq<char>) -> Option<CalendarDate> {
    civil(four_digits(text, 0), two_digits(text, 4), two_digits(text, 6))
}

/// The character of the decimal digit with value `v`.
pub open spec fn digit_of(v: int) -> char {
    (v + 48) as u8 as char
}

/// The day written with hyphens: the year in four digits, the month in two
/// and the day in two. For a year from 0 to 9999.
pub open spec fn hyphenated_text(date: CalendarDate) -> Seq<char> {
    let year = date.year as int;
    let month = date.month as int;
    let day = date.day as int;
    seq![
        digit_of(year / 1000),
        digit_of(year / 100 % 10),
        digit_of(year / 10 % 10),
        digit_of(year % 10),
        '-',
        digit_of(month / 10),
        digit_of(month % 10),
        '-',
        digit_of(day / 10),
        digit_of(day % 10),
    ]
}

/// The day written without separators: the year in four digits, the month in
/// two and the day in two. For a year from 0 to 9999.
pub open spec fn compact_text(date: CalendarDate) -> Seq<char> {
    let year = date.year as int;
    let month = date.month as int;
    let day = date.day as int;
    seq![
        digit_of(year / 1000),
        digit_of(year / 100 % 10),
        digit_of(year / 10 % 10),
        digit_of(year % 10),
        digit_of(month / 10),
        digit_of(month % 10),
        digit_of(day / 10),
        digit_of(day % 10),
    ]
}

/// A day that exists, of a year from 0 to 9999, is read back from either of
/// its written forms.
pub proof fn lemma_text_reads_back(date: CalendarDate)
    requires
        date.is_valid(),
        0 <= date.year <= 9999,
    ensures
        is_hyphenated_digits(hyphenated_text(date)),
        is_compact_digits(compact_text(date)),
        date_of_text(hyphenated_text(date)) == Some(date),
        date_of_text(compact_text(date)) == Some(date),
{
    lemma_hyphenated_text(date);
    lemma_compact_text(date);
}

/// The hyphenated form of a day spells its year, month and day.
proof fn lemma_hyphenated_text(date: CalendarDate)
    requires
        0 <= date.year <= 9999,
        date.month <= 99,
        date.day <= 99,
    ensures
        is_hyphenated_digits(hyphenated_text(date)),
        four_digits(hyphenated_text(date), 0) == date.year,
        two_digits(hyphenated_text(date), 5) == date.month,
        two_digits(hyphenated_text(date), 8) == date.day,
{
    let h = hyphenated_text(date);
    let year = date.year as int;
    let month = date.month as int;
    let day = date.day as int;
    lemma_four_digits(year);
    lemma_two_digits(month);
    lemma_two_digits(day);
    assert(h.len() == 10);
    assert(h[0] == digit_of(year / 1000) && h[1] == digit_of(year / 100 % 10) && h[2] == digit_of(
        year / 10 % 10,
    ) && h[3] == digit_of(year % 10));
    assert(h[4] == '-' && h[7] == '-');
    assert(h[5] == digit_of(month / 10) && h[6] == digit_of(month % 10));
    assert(h[8] == digit_of(day / 10) && h[9] == digit_of(day % 10));
}

/// The compact form of a day spells its year, month and day.
proof fn lemma_compact_text(date: CalendarDate)
    requires
        0 <= date.year <= 9999,
        date.month <= 99,
        date.day <= 99,
    ensures
        is_compact_digits(compact_text(date)),
        four_digits(compact_text(date), 0) == date.year,
        two_digits(compact_text(date), 4) == date.month,
        two_digits(compact_text(date), 6) == date.day,
{
    let c = compact_text(date);
    let year = date.year as int;
    let month = date.month as int;
    let day = date.day as int;
    lemma_four_digits(year);
    lemma_two_digits(month);
    lemma_two_digits(day);
    assert(c.len() == 8);
    assert(c[0] == digit_of(year / 1000) && c[1] == digit_of(year / 100 % 10) && c[2] == digit_of(
        year / 10 % 10,
    ) && c[3] == digit_of(year % 10));
    assert(c[4] == digit_of(month / 10) && c[5] == digit_of(month % 10));
    assert(c[6] == digit_of(day / 10) && c[7] == digit_of(day % 10));
}

/// The four decimal digits of a number below 10000 spell it.
proof fn lemma_four_digits(v: int)
    requires
        0 <= v <= 9999,
    ensures
        is_digit(digit_of(v / 1000)),
        is_digit(digit_of(v / 100 % 10)),
        is_digit(digit_of(v / 10 % 10)),
        is_digit(digit_of(v % 10)),
        1000 * digit_value(digit_of(v / 1000)) + 100 * digit_value(digit_of(v / 100 % 10)) + 10
            * digit_value(digit_of(v / 10 % 10)) + digit_value(digit_of(v % 10)) == v,
{
    lemma_digits(v / 1000);
    lemma_digits(v / 100 % 10);
    lemma_digits(v / 10 % 10);
    lemma_digits(v % 10);
}

/// The two decimal digits of a number below 100 spell it.
proof fn lemma_two_digits(v: int)
    requires
        0 <= v <= 99,
    ensures
        is_digit(digit_of(v / 10)),
        is_digit(digit_of(v % 10)),
        10 * digit_value(digit_of(v / 10)) + digit_value(digit_of(v % 10)) == v,
{
    lemma_digits(v / 10);
    lemma_digits(v % 10);
}

/// The character of a digit is a digit and has the digit's value.
proof fn lemma_digits(v: int)
    requires
        0 <= v <= 9,
    ensures
        is_digit(digit_of(v)),
        digit_value(digit_of(v)) == v,
{
}

/// What chrono's `NaiveDate::parse_from_str` makes of `text` under `format`:
/// the year, month and day of the date it returns, or `None` where it returns
/// an error.
pub uninterp spec fn chrono_parse(text: Seq<char>, format: Seq<char>) -> Option<CalendarDate>;

/// What [`chrono_parse`] gives, kept only where it is a day that exists.
pub open spec fn lenient_reading(text: Seq<char>, format: Seq<char>) -> Option<CalendarDate> {
    match chrono_parse(text, format) {
        Some(date) => if date.is_valid() {
            Some(date)
        } else {
            None
        },
        None => None,
    }
}

/// The day that `text` is read as, if any.
///
/// A text of four digits, two digits and two digits, with or without hyphens
/// between them, names the day with that year, month and day of the month
/// where it exists, and no day where it does not. On any other text the
/// reading is chrono's: under the hyphenated format first, and under the
/// compact one where that fails.
pub open spec fn date_of_text(text: Seq<char>) -> Option<CalendarDate> {
    if is_hyphenated_digits(text) {
        hyphenated_reading(text)
    } else if is_compact_digits(text) {
        compact_reading(text)
    } else {
        match lenient_reading(text, HYPHENATED_FORMAT@) {
            Some(date) => Some(date),
            None => lenient_reading(text, COMPACT_FORMAT@),
        }
    }
}

/// `NaiveDate::parse_from_str` of chrono, its date read back through
/// `Datelike`, an error turned into `None`.
///
/// Claims that the result depends on the two texts alone; that a date chrono
/// returns exists in the calendar; that under `%Y-%m-%d` a text of the shape
/// `dddd-dd-dd` gives the day it spells if that day exists and an error
/// otherwise, and under `%Y%m%d` a text of eight digits likewise; and that
/// each of the two shapes is an error under the other format.
#[verifier::external_body]
pub(crate) fn parse_with_format(text: &str, format: &str) -> (r: Option<CalendarDate>)
    ensures
        r == chrono_parse(text@, format@),
        r matches Some(date) ==> date.is_valid(),
        format@ == HYPHENATED_FORMAT@ && is_hyphenated_digits(text@) ==> r == hyphenated_reading(
            text@,
        ),
        format@ == COMPACT_FORMAT@ && is_compact_digits(text@) ==> r == compact_reading(text@),
        format@ == HYPHENATED_FORMAT@ && is_compact_digits(text@) ==> r is None,
        format@ == COMPACT_FORMAT@ && is_hyphenated_digits(text@) ==> r is None,
{
    match NaiveDate::parse_from_str(text, format) {
        Ok(date) => Some(CalendarDate { year: date.year(), month: date.month(), day: date.day() }),
        Err(_) => None,
    }
}

/// The character for the digit `d`.
pub fn digit_char(d: u8) -> (c: char)
    requires
        d < 10,
    ensures
        c == digit_of(d as int),
        is_digit(c),
        digit_value(c) == d,
{
    (48u8 + d) as char
}

/// Writes `date` with hyphens, as in `2025-01-31`.
pub fn hyphenated(date: &CalendarDate) -> (s: String)
    requires
        date.is_valid(),
        0 <= date.year <= 9999,
    ensures
        s@ == hyphenated_text(*date),
{
    let year = date.year as u32;
    let mut s = String::new();
    s.push(digit_char((year / 1000) as u8));
    s.push(digit_char((year / 100 % 10) as u8));
    s.push(digit_char((year / 10 % 10) as u8));
    s.push(digit_char((year % 10) as u8));
    s.push('-');
    s.push(digit_char((date.month / 10) as u8));
    s.push(digit_char((date.month % 10) as u8));
    s.push('-');
    s.push(digit_char((date.day / 10) as u8));
    s.push(digit_char((date.day % 10) as u8));
    assert(s@ =~= hyphenated_text(*date));
    s
}

/// Reads `text` as a day: written with hyphens, or else without.
pub fn parse_date(text: &str) -> (r: Option<CalendarDate>)
    ensures
        r == date_of_text(text@),
        r matches Some(date) ==> date.is_valid(),
{
    match parse_with_format(text, HYPHENATED_FORMAT) {
        Some(date) => Some(date),
        None => parse_with_format(text, COMPACT_FORMAT),
    }
}

} // verus!
