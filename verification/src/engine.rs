//! From a date specification to the days it selects.

use crate::calendar::{
    lemma_next_day, lemma_next_day_is_adjacent, lemma_order_by_day_number, CalendarDate,
};
use crate::dateset::{insert_date, is_ascending, lemma_ascending_is_unique};
use crate::grammar::{spells, DateSpec, SpecTree};
use crate::pattern::{
    expand_pattern, lemma_token_dates_exist, lemma_written_date_denotes_itself, token_dates,
};
use crate::text::texts_of;
use crate::token::{compact_text, hyphenated_text, lemma_text_reads_back};
use vstd::prelude::*;

verus! {

/// Whether `date` is the earliest member of `dates`.
pub open spec fn is_earliest(dates: Set<CalendarDate>, date: CalendarDate) -> bool {
    dates.contains(date) && forall|other: CalendarDate|
        dates.contains(other) ==> date.at_most(other)
}

/// Whether `date` is the latest member of `dates`.
pub open spec fn is_latest(dates: Set<CalendarDate>, date: CalendarDate) -> bool {
    dates.contains(date) && forall|other: CalendarDate|
        dates.contains(other) ==> other.at_most(date)
}

/// Every day of the calendar from `low` to `high`, both included.
pub open spec fn days_between(low: CalendarDate, high: CalendarDate) -> Set<CalendarDate> {
    Set::new(|date: CalendarDate| date.is_valid() && low.at_most(date) && date.at_most(high))
}

/// Every day from the earliest member of `lows` to the latest member of
/// `highs`; no day where either set has no such member.
pub open spec fn range_dates(lows: Set<CalendarDate>, highs: Set<CalendarDate>) -> Set<
    CalendarDate,
> {
    Set::new(
        |date: CalendarDate|
            exists|low: CalendarDate, high: CalendarDate|
                is_earliest(lows, low) && is_latest(highs, high) && #[trigger] days_between(
                    low,
                    high,
                ).contains(date),
    )
}

/// The days that some token of `tokens` denotes.
pub open spec fn sequence_dates(tokens: Seq<Seq<char>>) -> Set<CalendarDate> {
    Set::new(
        |date: CalendarDate|
            exists|i: int| 0 <= i < tokens.len() && token_dates(#[trigger] tokens[i]).contains(date),
    )
}

/// The days that a date specification selects.
pub open spec fn spec_dates(tree: SpecTree) -> Set<CalendarDate> {
    match tree {
        SpecTree::Single(token) => token_dates(token),
        SpecTree::Sequence(tokens) => sequence_dates(tokens),
        SpecTree::Range(low, high) => range_dates(token_dates(low), token_dates(high)),
    }
}

/// A day that exists, of a year from 0 to 9999, written out alone, is a
/// specification that selects that day and no other.
pub proof fn lemma_single_date(date: CalendarDate)
    requires
        date.is_valid(),
        0 <= date.year <= 9999,
    ensures
        spells(SpecTree::Single(hyphenated_text(date)), hyphenated_text(date)),
        spells(SpecTree::Single(compact_text(date)), compact_text(date)),
        spec_dates(SpecTree::Single(hyphenated_text(date))) == set![date],
        spec_dates(SpecTree::Single(compact_text(date))) == set![date],
{
    lemma_text_reads_back(date);
    lemma_written_date_denotes_itself(date);
}

/// Two expansions of one specification are the same: an ascending sequence
/// is fixed by the days in it.
pub proof fn lemma_expansion_is_repeatable(
    tree: SpecTree,
    first: Seq<CalendarDate>,
    second: Seq<CalendarDate>,
)
    requires
        is_ascending(first),
        first.to_set() == spec_dates(tree),
        is_ascending(second),
        second.to_set() == spec_dates(tree),
    ensures
        first == second,
{
    lemma_ascending_is_unique(first, second);
}

/// A range whose latest last day is earlier than its earliest first day
/// selects no day.
pub proof fn lemma_inverted_range_is_empty(
    lows: Set<CalendarDate>,
    highs: Set<CalendarDate>,
    low: CalendarDate,
    high: CalendarDate,
)
    requires
        is_earliest(lows, low),
        is_latest(highs, high),
        high.precedes(low),
    ensures
        range_dates(lows, highs) == Set::<CalendarDate>::empty(),
{
    assert forall|date: CalendarDate| !range_dates(lows, highs).contains(date) by {
        if range_dates(lows, highs).contains(date) {
            let (a, b) = choose|a: CalendarDate, b: CalendarDate|
                is_earliest(lows, a) && is_latest(highs, b) && #[trigger] days_between(
                    a,
                    b,
                ).contains(date);
            assert(a.at_most(low) && low.at_most(a));
            assert(b.at_most(high) && high.at_most(b));
        }
    }
    assert(range_dates(lows, highs) =~= Set::<CalendarDate>::empty());
}

/// A range with an endpoint that denotes no day selects no day.
pub proof fn lemma_range_without_endpoint_is_empty(
    lows: Set<CalendarDate>,
    highs: Set<CalendarDate>,
)
    requires
        lows == Set::<CalendarDate>::empty() || highs == Set::<CalendarDate>::empty(),
    ensures
        range_dates(lows, highs) == Set::<CalendarDate>::empty(),
{
    assert forall|date: CalendarDate| !range_dates(lows, highs).contains(date) by {
        if range_dates(lows, highs).contains(date) {
            let (a, b) = choose|a: CalendarDate, b: CalendarDate|
                is_earliest(lows, a) && is_latest(highs, b) && #[trigger] days_between(
                    a,
                    b,
                ).contains(date);
            assert(lows.contains(a));
            assert(highs.contains(b));
        }
    }
    assert(range_dates(lows, highs) =~= Set::<CalendarDate>::empty());
}

/// From a day to a day that is not earlier there are as many days as their
/// day numbers differ by, and one more.
pub proof fn lemma_days_between_count(low: CalendarDate, high: CalendarDate)
    requires
        low.is_valid(),
        high.is_valid(),
        low.at_most(high),
    ensures
        days_between(low, high).finite(),
        days_between(low, high).len() == high.day_number() - low.day_number() + 1,
    decreases high.day_number() - low.day_number(),
{
    lemma_order_by_day_number(low, high);
    if low == high {
        assert(days_between(low, high) =~= set![low]);
    } else {
        lemma_next_day_is_adjacent(low, high);
        lemma_next_day(low);
        let next = low.next();
        lemma_order_by_day_number(next, high);
        lemma_days_between_count(next, high);
        assert forall|date: CalendarDate|
            days_between(low, high).contains(date) <==> days_between(next, high).insert(
                low,
            ).contains(date) by {
            if date.is_valid() && low.precedes(date) {
                lemma_next_day_is_adjacent(low, date);
            }
        }
        assert(days_between(low, high) =~= days_between(next, high).insert(low));
        assert(!days_between(next, high).contains(low));
    }
}

/// A range between two days that exist, of years from 0 to 9999, written
/// out, selects every day from the first to the second.
pub proof fn lemma_plain_range(low: CalendarDate, high: CalendarDate)
    requires
        low.is_valid(),
        high.is_valid(),
        0 <= low.year <= 9999,
        0 <= high.year <= 9999,
    ensures
        spec_dates(SpecTree::Range(hyphenated_text(low), hyphenated_text(high))) == days_between(
            low,
            high,
        ),
        spec_dates(SpecTree::Range(compact_text(low), compact_text(high))) == days_between(
            low,
            high,
        ),
        high.precedes(low) ==> days_between(low, high) == Set::<CalendarDate>::empty(),
        low.at_most(high) ==> days_between(low, high).finite() && days_between(low, high).len()
            == high.day_number() - low.day_number() + 1,
{
    lemma_written_date_denotes_itself(low);
    lemma_written_date_denotes_itself(high);
    let lows = set![low];
    let highs = set![high];
    assert(is_earliest(lows, low));
    assert(is_latest(highs, high));
    assert forall|date: CalendarDate|
        range_dates(lows, highs).contains(date) <==> days_between(low, high).contains(date) by {
        if range_dates(lows, highs).contains(date) {
            let (a, b) = choose|a: CalendarDate, b: CalendarDate|
                is_earliest(lows, a) && is_latest(highs, b) && #[trigger] days_between(
                    a,
                    b,
                ).contains(date);
            assert(a == low && b == high);
        }
    }
    assert(range_dates(lows, highs) =~= days_between(low, high));
    if high.precedes(low) {
        assert(days_between(low, high) =~= Set::<CalendarDate>::empty());
    } else {
        lemma_days_between_count(low, high);
    }
}

/// Every day from `low` to `high`, both included, in ascending order; none
/// where `high` is earlier than `low`.
pub fn dates_between(low: CalendarDate, high: CalendarDate) -> (r: Vec<CalendarDate>)
    requires
        low.is_valid(),
        high.is_valid(),
    ensures
        is_ascending(r@),
        r@.to_set() == days_between(low, high),
        r.len() == if high.precedes(low) {
            0
        } else {
            high.day_number() - low.day_number() + 1
        },
        forall|i: int|
            0 <= i < r.len() ==> (#[trigger] r[i]).is_valid() && r[i].day_number()
                == low.day_number() + i,
{
    let mut r: Vec<CalendarDate> = Vec::new();
    proof {
        lemma_order_by_day_number(low, high);
        lemma_order_by_day_number(high, low);
    }
    if !high.is_before(&low) {
        let mut cur = low;
        let mut done = false;
        while !done
            invariant
                low.is_valid(),
                high.is_valid(),
                cur.is_valid(),
                low.day_number() <= cur.day_number() <= high.day_number(),
                !done ==> r.len() == cur.day_number() - low.day_number(),
                done ==> r.len() == high.day_number() - low.day_number() + 1,
                forall|i: int|
                    0 <= i < r.len() ==> (#[trigger] r[i]).is_valid() && r[i].day_number()
                        == low.day_number() + i,
            decreases
                    high.day_number() - cur.day_number() + if done {
                        0int
                    } else {
                        1int
                    },
        {
            r.push(cur);
            proof {
                lemma_order_by_day_number(cur, high);
            }
            if cur == high {
                done = true;
            } else {
                proof {
                    lemma_next_day_is_adjacent(cur, high);
                }
                match cur.successor() {
                    Some(next) => {
                        proof {
                            lemma_order_by_day_number(next, high);
                        }
                        cur = next;
                    },
                    None => {
                        done = true;
                    },
                }
            }
        }
    }
    proof {
        assert forall|i: int, j: int| 0 <= i < j < r.len() implies (#[trigger] r[i]).precedes(
            #[trigger] r[j],
        ) by {
            lemma_order_by_day_number(r[i], r[j]);
        }
        assert forall|date: CalendarDate| r@.contains(date) <==> days_between(low, high).contains(
            date,
        ) by {
            if r@.contains(date) {
                let i = choose|i: int| 0 <= i < r.len() && r[i] == date;
                lemma_order_by_day_number(low, date);
                lemma_order_by_day_number(date, high);
            }
            if days_between(low, high).contains(date) {
                lemma_order_by_day_number(low, date);
                lemma_order_by_day_number(date, high);
                let i = date.day_number() - low.day_number();
                lemma_order_by_day_number(r[i], date);
                assert(r[i] == date);
            }
        }
        assert(r@.to_set() =~= days_between(low, high));
    }
    r
}

/// One more token adds the days it denotes.
pub proof fn lemma_sequence_dates_push(tokens: Seq<Seq<char>>, token: Seq<char>)
    ensures
        sequence_dates(tokens.push(token)) == sequence_dates(tokens).union(token_dates(token)),
{
    let more = tokens.push(token);
    let expected = sequence_dates(tokens).union(token_dates(token));
    assert forall|date: CalendarDate| sequence_dates(more).contains(date) <==> expected.contains(
        date,
    ) by {
        if sequence_dates(more).contains(date) {
            let i = choose|i: int|
                0 <= i < more.len() && token_dates(#[trigger] more[i]).contains(date);
            if i < tokens.len() {
                assert(token_dates(tokens[i]).contains(date));
            }
        }
        if sequence_dates(tokens).contains(date) {
            let i = choose|i: int|
                0 <= i < tokens.len() && token_dates(#[trigger] tokens[i]).contains(date);
            assert(token_dates(more[i]).contains(date));
        }
        if token_dates(token).contains(date) {
            assert(token_dates(more[tokens.len() as int]).contains(date));
        }
    }
    assert(sequence_dates(more) =~= expected);
}

/// Adds each day of `more` to the ascending vector `dates`.
fn insert_all(dates: &mut Vec<CalendarDate>, more: &Vec<CalendarDate>)
    requires
        is_ascending(old(dates)@),
    ensures
        is_ascending(final(dates)@),
        final(dates)@.to_set() == old(dates)@.to_set().union(more@.to_set()),
{
    let ghost before = dates@;
    let mut i: usize = 0;
    assert(dates@.to_set() =~= before.to_set().union(more@.take(0).to_set()));
    while i < more.len()
        invariant
            i <= more.len(),
            is_ascending(dates@),
            dates@.to_set() == before.to_set().union(more@.take(i as int).to_set()),
        decreases more.len() - i,
    {
        let ghost so_far = dates@;
        insert_date(dates, more[i]);
        proof {
            let done = more@.take(i as int);
            let next = more@.take(i + 1);
            assert(next =~= done.push(more[i as int]));
            done.lemma_push_to_set_commute(more[i as int]);
            assert(dates@.to_set() =~= before.to_set().union(next.to_set()));
        }
        i += 1;
    }
    assert(more@.take(i as int) =~= more@);
}

/// The days that a date specification selects exist in the calendar.
pub proof fn lemma_spec_dates_exist(tree: SpecTree, date: CalendarDate)
    requires
        spec_dates(tree).contains(date),
    ensures
        date.is_valid(),
{
    match tree {
        SpecTree::Single(token) => {
            lemma_token_dates_exist(token, date);
        },
        SpecTree::Sequence(tokens) => {
            let i = choose|i: int|
                0 <= i < tokens.len() && token_dates(#[trigger] tokens[i]).contains(date);
            lemma_token_dates_exist(tokens[i], date);
        },
        SpecTree::Range(low, high) => {},
    }
}

/// The days that `spec` selects, in ascending order, each once.
///
/// A single token gives the days it denotes, and a sequence those of all its
/// tokens together. A range gives every day from the earliest day of its
/// first token to the latest day of its second: none where a token denotes no
/// day, or where that latest day is earlier than that earliest one.
pub fn expand_datespec(spec: DateSpec) -> (r: Vec<CalendarDate>)
    ensures
        is_ascending(r@),
        r@.to_set() == spec_dates(spec@),
        forall|i: int| 0 <= i < r.len() ==> (#[trigger] r[i]).is_valid(),
{
    let ghost tree = spec@;
    let r = match spec {
        DateSpec::Single(token) => expand_pattern(token.as_str()),
        DateSpec::Sequence(tokens) => {
            let ghost texts = texts_of(tokens@);
            let mut dates: Vec<CalendarDate> = Vec::new();
            let mut i: usize = 0;
            assert(dates@.to_set() =~= sequence_dates(texts.take(0)));
            while i < tokens.len()
                invariant
                    i <= tokens.len(),
                    texts == texts_of(tokens@),
                    is_ascending(dates@),
                    dates@.to_set() == sequence_dates(texts.take(i as int)),
                decreases tokens.len() - i,
            {
                let more = expand_pattern(tokens[i].as_str());
                insert_all(&mut dates, &more);
                proof {
                    lemma_sequence_dates_push(texts.take(i as int), texts[i as int]);
                    assert(texts.take(i + 1) =~= texts.take(i as int).push(texts[i as int]));
                }
                i += 1;
            }
            assert(texts.take(i as int) =~= texts);
            dates
        },
        DateSpec::Range(low, high) => {
            let lows = expand_pattern(low.as_str());
            let highs = expand_pattern(high.as_str());
            resolve_range(&lows, &highs)
        },
    };
    proof {
        assert forall|i: int| 0 <= i < r.len() implies (#[trigger] r[i]).is_valid() by {
            assert(r@.contains(r[i]));
            assert(r@.to_set().contains(r[i]));
            lemma_spec_dates_exist(tree, r[i]);
        }
    }
    r
}

/// Every day from the earliest of `lows` to the latest of `highs`, in
/// ascending order: none where either is empty, or where that latest day is
/// earlier than that earliest one.
pub fn resolve_range(lows: &Vec<CalendarDate>, highs: &Vec<CalendarDate>) -> (r: Vec<
    CalendarDate,
>)
    requires
        is_ascending(lows@),
        is_ascending(highs@),
        forall|i: int| 0 <= i < lows.len() ==> (#[trigger] lows[i]).is_valid(),
        forall|i: int| 0 <= i < highs.len() ==> (#[trigger] highs[i]).is_valid(),
    ensures
        is_ascending(r@),
        r@.to_set() == range_dates(lows@.to_set(), highs@.to_set()),
        lows.len() > 0 && highs.len() > 0 ==> r@.to_set() == days_between(
            lows[0],
            highs[highs.len() - 1],
        ),
{
    let ghost low_set = lows@.to_set();
    let ghost high_set = highs@.to_set();
    if lows.len() == 0 || highs.len() == 0 {
        let r: Vec<CalendarDate> = Vec::new();
        proof {
            assert forall|date: CalendarDate| !range_dates(low_set, high_set).contains(date) by {
                if range_dates(low_set, high_set).contains(date) {
                    let (a, b) = choose|a: CalendarDate, b: CalendarDate|
                        is_earliest(low_set, a) && is_latest(high_set, b)
                            && #[trigger] days_between(a, b).contains(date);
                    assert(lows@.contains(a));
                    assert(highs@.contains(b));
                }
            }
            assert(r@.to_set() =~= range_dates(low_set, high_set));
        }
        return r;
    }
    let first = lows[0];
    let last = highs[highs.len() - 1];
    let r = dates_between(first, last);
    proof {
        assert(lows@.contains(first));
        assert(highs@.contains(last));
        assert(is_earliest(low_set, first)) by {
            assert forall|other: CalendarDate| low_set.contains(other) implies first.at_most(
                other,
            ) by {
                assert(lows@.contains(other));
                let j = choose|j: int| 0 <= j < lows.len() && lows[j] == other;
                if j > 0 {
                    assert(lows[0].precedes(lows[j]));
                }
            }
        }
        assert(is_latest(high_set, last)) by {
            assert forall|other: CalendarDate| high_set.contains(other) implies other.at_most(
                last,
            ) by {
                assert(highs@.contains(other));
                let j = choose|j: int| 0 <= j < highs.len() && highs[j] == other;
                if j < highs.len() - 1 {
                    assert(highs[j].precedes(highs[highs.len() - 1]));
                }
            }
        }
        assert forall|date: CalendarDate|
            days_between(first, last).contains(date) <==> range_dates(low_set, high_set).contains(
                date,
            ) by {
            if range_dates(low_set, high_set).contains(date) {
                let (a, b) = choose|a: CalendarDate, b: CalendarDate|
                    is_earliest(low_set, a) && is_latest(high_set, b)
                        && #[trigger] days_between(a, b).contains(date);
                assert(a == first);
                assert(b == last);
            }
        }
        assert(days_between(first, last) =~= range_dates(low_set, high_set));
    }
    r
}

} // verus!
