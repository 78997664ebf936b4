//! Days of the proleptic Gregorian calendar, their order and their successor.

use chrono::{Datelike, NaiveDate};
use vstd::prelude::*;

verus! {

/// The earliest year a [`CalendarDate`] can lie in.
pub const MIN_YEAR: i32 = -262143;

/// The latest year a [`CalendarDate`] can lie in.
pub const MAX_YEAR: i32 = 262142;

/// Whether `year` has a 29th of February.
pub open spec fn is_leap_year(year: int) -> bool {
    year % 4 == 0 && (year % 100 != 0 || year % 400 == 0)
}

/// The number of days of `month` (1 to 12) in `year`.
pub open spec fn days_in_month(year: int, month: int) -> int {
    if month == 2 {
        if is_leap_year(year) {
            29
        } else {
            28
        }
    } else if month == 4 || month == 6 || month == 9 || month == 11 {
        30
    } else {
        31
    }
}

/// The number of days from the first of January of year 0 to the first of
/// January of `year`; negative for years before 0.
pub open spec fn days_before_year(year: int) -> int {
    365 * year + (year + 3) / 4 - (year + 99) / 100 + (year + 399) / 400
}

/// The number of days of `year` that lie before the first of `month`.
pub open spec fn days_before_month(year: int, month: int) -> int {
    let common: int = if month <= 1 {
        0
    } else if month == 2 {
        31
    } else if month == 3 {
        59
    } else if month == 4 {
        90
    } else if month == 5 {
        120
    } else if month == 6 {
        151
    } else if month == 7 {
        181
    } else if month == 8 {
        212
    } else if month == 9 {
        243
    } else if month == 10 {
        273
    } else if month == 11 {
        304
    } else {
        334
    };
    if month > 2 && is_leap_year(year) {
        common + 1
    } else {
        common
    }
}

/// The number of days of `year`.
pub open spec fn days_in_year(year: int) -> int {
    if is_leap_year(year) {
        366
    } else {
        365
    }
}

/// A year, a month and a day of the month, with no time of day and no zone.
#[derive(Clone, Copy, Debug, PartialEq, Eq, Hash, Structural)]
pub struct CalendarDate {
    pub year: i32,
    pub month: u32,
    pub day: u32,
}

impl CalendarDate {
    /// Whether the three fields name a day that exists.
    pub open spec fn is_valid(self) -> bool {
        &&& MIN_YEAR <= self.year <= MAX_YEAR
        &&& 1 <= self.month <= 12
        &&& 1 <= self.day <= days_in_month(self.year as int, self.month as int)
    }

    /// The position of the day on the line of all days: the first of January
    /// of year 0 has number 1, and each day has one more than the day before.
    pub open spec fn day_number(self) -> int {
        days_before_year(self.year as int) + days_before_month(
            self.year as int,
            self.month as int,
        ) + self.day
    }

    /// Whether `self` is strictly earlier than `other`.
    pub open spec fn precedes(self, other: CalendarDate) -> bool {
        self.year < other.year || (self.year == other.year && (self.month < other.month || (
        self.month == other.month && self.day < other.day)))
    }

    /// Whether `self` is `other` or earlier.
    pub open spec fn at_most(self, other: CalendarDate) -> bool {
        self == other || self.precedes(other)
    }

    /// Whether `self` is the last day that can be represented.
    pub open spec fn is_last(self) -> bool {
        self.year == MAX_YEAR && self.month == 12 && self.day == 31
    }

    /// The day after `self`, for a valid day other than the last one.
    pub open spec fn next(self) -> CalendarDate {
        if self.day < days_in_month(self.year as int, self.month as int) {
            CalendarDate { year: self.year, month: self.month, day: (self.day + 1) as u32 }
        } else if self.month < 12 {
            CalendarDate { year: self.year, month: (self.month + 1) as u32, day: 1 }
        } else {
            CalendarDate { year: (self.year + 1) as i32, month: 1, day: 1 }
        }
    }

    /// Tells whether the three fields name a day that exists.
    pub fn check_valid(&self) -> (b: bool)
        ensures
            b == self.is_valid(),
    {
        if self.year < MIN_YEAR || self.year > MAX_YEAR || self.month < 1 || self.month > 12 {
            return false;
        }
        let leap = self.year % 4 == 0 && (self.year % 100 != 0 || self.year % 400 == 0);
        let length: u32 = if self.month == 2 {
            if leap {
                29
            } else {
                28
            }
        } else if self.month == 4 || self.month == 6 || self.month == 9 || self.month == 11 {
            30
        } else {
            31
        };
        1 <= self.day && self.day <= length
    }

    /// The day after `self`, or `None` after the last day.
    pub fn successor(&self) -> (r: Option<CalendarDate>)
        requires
            self.is_valid(),
        ensures
            r == if self.is_last() {
                None
            } else {
                Some(self.next())
            },
            r matches Some(n) ==> n.is_valid() && n.day_number() == self.day_number() + 1,
    {
        let r = chrono_successor(*self);
        proof {
            if !self.is_last() {
                lemma_next_day(*self);
            }
        }
        r
    }

    /// Compares two days by year, then month, then day.
    pub fn is_before(&self, other: &CalendarDate) -> (b: bool)
        ensures
            b == self.precedes(*other),
    {
        self.year < other.year || (self.year == other.year && (self.month < other.month || (
        self.month == other.month && self.day < other.day)))
    }
}

/// `NaiveDate::succ_opt` of chrono, on the day that `NaiveDate::from_ymd_opt`
/// makes of the three fields and read back through `Datelike`. Claims that
/// chrono gives the next day of the calendar as [`CalendarDate::next`] spells
/// it out, and nothing after 31 December of [`MAX_YEAR`].
#[verifier::external_body]
fn chrono_successor(d: CalendarDate) -> (r: Option<CalendarDate>)
    requires
        d.is_valid(),
    ensures
        r == if d.is_last() {
            None
        } else {
            Some(d.next())
        },
{
    let day = NaiveDate::from_ymd_opt(d.year, d.month, d.day).unwrap();
    match day.succ_opt() {
        Some(n) => Some(CalendarDate { year: n.year(), month: n.month(), day: n.day() }),
        None => None,
    }
}

/// Each month begins where the month before it ends, and twelve months make
/// the year.
pub proof fn lemma_months_of_year(year: int, month: int)
    requires
        1 <= month <= 12,
    ensures
        days_before_month(year, month) + days_in_month(year, month) == if month == 12 {
            days_in_year(year)
        } else {
            days_before_month(year, month + 1)
        },
        0 <= days_before_month(year, month),
{
}

/// Each year begins where the year before it ends.
pub proof fn lemma_years_follow(year: int)
    ensures
        days_before_year(year + 1) == days_before_year(year) + days_in_year(year),
{
    lemma_quotient_steps(year);
}

/// Rounding up to fours, hundreds and four hundreds gains one exactly at the
/// multiples.
proof fn lemma_quotient_steps(year: int)
    ensures
        (year + 4) / 4 - (year + 3) / 4 == if year % 4 == 0 {
            1int
        } else {
            0int
        },
        (year + 100) / 100 - (year + 99) / 100 == if year % 100 == 0 {
            1int
        } else {
            0int
        },
        (year + 400) / 400 - (year + 399) / 400 == if year % 400 == 0 {
            1int
        } else {
            0int
        },
        year % 400 == 0 ==> year % 100 == 0,
        year % 100 == 0 ==> year % 4 == 0,
{
}

/// A later year begins no earlier than any year before it ends.
pub proof fn lemma_years_ascend(y1: int, y2: int)
    requires
        y1 < y2,
    ensures
        days_before_year(y1) + days_in_year(y1) <= days_before_year(y2),
{
    lemma_years_follow(y1);
    let a = y1 + 1;
    assert((a + 3) / 4 <= (y2 + 3) / 4);
    assert((a + 399) / 400 <= (y2 + 399) / 400);
    assert((y2 + 99) / 100 - (a + 99) / 100 <= y2 - a);
}

/// The day after a valid day is valid, comes right after it on the line of
/// days, and is later in the calendar order.
pub proof fn lemma_next_day(d: CalendarDate)
    requires
        d.is_valid(),
        !d.is_last(),
    ensures
        d.next().is_valid(),
        d.next().day_number() == d.day_number() + 1,
        d.precedes(d.next()),
{
    lemma_months_of_year(d.year as int, d.month as int);
    lemma_years_follow(d.year as int);
}

/// No valid day lies strictly between a day and the day after it.
pub proof fn lemma_next_day_is_adjacent(d: CalendarDate, x: CalendarDate)
    requires
        d.is_valid(),
        x.is_valid(),
        d.precedes(x),
    ensures
        !d.is_last(),
        d.next().at_most(x),
{
}

/// The calendar order agrees with the order of day numbers.
pub proof fn lemma_order_by_day_number(a: CalendarDate, b: CalendarDate)
    requires
        a.is_valid(),
        b.is_valid(),
    ensures
        a.precedes(b) <==> a.day_number() < b.day_number(),
        a == b <==> a.day_number() == b.day_number(),
{
    lemma_day_of_year(a);
    lemma_day_of_year(b);
    if a.year < b.year {
        lemma_years_ascend(a.year as int, b.year as int);
    } else if b.year < a.year {
        lemma_years_ascend(b.year as int, a.year as int);
    } else if a.month < b.month {
        lemma_months_ascend(a.year as int, a.month as int, b.month as int);
    } else if b.month < a.month {
        lemma_months_ascend(a.year as int, b.month as int, a.month as int);
    }
}

/// A valid day lies within its year.
proof fn lemma_day_of_year(d: CalendarDate)
    requires
        d.is_valid(),
    ensures
        1 <= days_before_month(d.year as int, d.month as int) + d.day <= days_in_year(
            d.year as int,
        ),
{
}

/// A later month begins no earlier than any month before it ends.
proof fn lemma_months_ascend(year: int, m1: int, m2: int)
    requires
        1 <= m1 < m2 <= 12,
    ensures
        days_before_month(year, m1) + days_in_month(year, m1) <= days_before_month(year, m2),
{
}

} // verus!
