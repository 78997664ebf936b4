//! Sets of days, kept as vectors in ascending order.

use crate::calendar::CalendarDate;
use vstd::prelude::*;

verus! {

/// Whether each day of `dates` is strictly earlier than those after it, so
/// that no day occurs twice.
pub open spec fn is_ascending(dates: Seq<CalendarDate>) -> bool {
    forall|i: int, j: int| 0 <= i < j < dates.len() ==> (#[trigger] dates[i]).precedes(#[trigger] dates[j])
}

/// Two ascending sequences with the same members are the same sequence.
pub proof fn lemma_ascending_is_unique(a: Seq<CalendarDate>, b: Seq<CalendarDate>)
    requires
        is_ascending(a),
        is_ascending(b),
        a.to_set() == b.to_set(),
    ensures
        a == b,
    decreases a.len(),
{
    assert forall|d: CalendarDate| a.contains(d) <==> b.contains(d) by {
        assert(a.to_set().contains(d) <==> a.contains(d));
        assert(b.to_set().contains(d) <==> b.contains(d));
    }
    if a.len() == 0 {
        if b.len() > 0 {
            assert(b.contains(b[0]));
        }
        assert(a =~= b);
    } else {
        assert(a.contains(a[0]));
        assert(b.contains(a[0]));
        let k = choose|k: int| 0 <= k < b.len() && b[k] == a[0];
        assert(b.contains(b[0]));
        let m = choose|m: int| 0 <= m < a.len() && a[m] == b[0];
        assert(k == 0) by {
            if k > 0 {
                assert(b[0].precedes(b[k]));
                if m > 0 {
                    assert(a[0].precedes(a[m]));
                }
            }
        }
        let a1 = a.drop_first();
        let b1 = b.drop_first();
        assert forall|d: CalendarDate| a1.contains(d) <==> b1.contains(d) by {
            if a1.contains(d) {
                let i = choose|i: int| 0 <= i < a1.len() && a1[i] == d;
                assert(a[i + 1] == d);
                assert(a[0].precedes(a[i + 1]));
                assert(a.contains(d));
                let j = choose|j: int| 0 <= j < b.len() && b[j] == d;
                assert(b1[j - 1] == d);
            }
            if b1.contains(d) {
                let i = choose|i: int| 0 <= i < b1.len() && b1[i] == d;
                assert(b[i + 1] == d);
                assert(b[0].precedes(b[i + 1]));
                assert(b.contains(d));
                let j = choose|j: int| 0 <= j < a.len() && a[j] == d;
                assert(a1[j - 1] == d);
            }
        }
        assert(is_ascending(a1)) by {
            assert forall|i: int, j: int| 0 <= i < j < a1.len() implies (#[trigger] a1[i]).precedes(
                #[trigger] a1[j],
            ) by {
                assert(a[i + 1].precedes(a[j + 1]));
            }
        }
        assert(is_ascending(b1)) by {
            assert forall|i: int, j: int| 0 <= i < j < b1.len() implies (#[trigger] b1[i]).precedes(
                #[trigger] b1[j],
            ) by {
                assert(b[i + 1].precedes(b[j + 1]));
            }
        }
        assert(a1.to_set() =~= b1.to_set());
        lemma_ascending_is_unique(a1, b1);
        assert(a =~= seq![a[0]] + a1);
        assert(b =~= seq![b[0]] + b1);
    }
}

/// Adds `date` to the ascending vector `dates`, unless it is there already.
pub fn insert_date(dates: &mut Vec<CalendarDate>, date: CalendarDate)
    requires
        is_ascending(old(dates)@),
    ensures
        is_ascending(final(dates)@),
        final(dates)@.to_set() == old(dates)@.to_set().insert(date),
        final(dates)@ == old(dates)@ || final(dates)@.len() == old(dates)@.len() + 1,
{
    let mut i: usize = dates.len();
    while i > 0 && date.is_before(&dates[i - 1])
        invariant
            i <= dates.len(),
            forall|j: int| i <= j < dates.len() ==> date.precedes(#[trigger] dates[j]),
        decreases i,
    {
        i -= 1;
    }
    if i > 0 && dates[i - 1] == date {
        assert(dates@.contains(date));
        assert(dates@.to_set() =~= dates@.to_set().insert(date));
        return ;
    }
    let ghost before = dates@;
    dates.insert(i, date);
    proof {
        let after = dates@;
        assert(after[i as int] == date);
        assert forall|a: int, b: int| 0 <= a < b < after.len() implies (#[trigger] after[a]).precedes(
            #[trigger] after[b],
        ) by {
            let x = after[a];
            let y = after[b];
            if a < i {
                assert(x == before[a]);
            }
            if a > i {
                assert(x == before[a - 1]);
            }
            if b < i {
                assert(y == before[b]);
            }
            if b > i {
                assert(y == before[b - 1]);
            }
            if b == i {
                assert(before[a].precedes(before[i - 1]) || a == i - 1);
            }
        }
        assert forall|d: CalendarDate| after.contains(d) <==> (d == date || before.contains(
            d,
        )) by {
            if after.contains(d) {
                let k = choose|k: int| 0 <= k < after.len() && after[k] == d;
                if k < i {
                    assert(before[k] == d);
                } else if k > i {
                    assert(before[k - 1] == d);
                }
            }
            if before.contains(d) {
                let k = choose|k: int| 0 <= k < before.len() && before[k] == d;
                if k < i {
                    assert(after[k] == d);
                } else {
                    assert(after[k + 1] == d);
                }
            }
        }
        assert(after.to_set() =~= before.to_set().insert(date));
    }
}

/// Tells whether `date` is a member of the ascending vector `dates`.
pub fn contains_date(dates: &Vec<CalendarDate>, date: CalendarDate) -> (b: bool)
    requires
        is_ascending(dates@),
    ensures
        b == dates@.contains(date),
{
    let mut low: usize = 0;
    let mut high: usize = dates.len();
    while low < high
        invariant
            low <= high <= dates.len(),
            is_ascending(dates@),
            forall|i: int| 0 <= i < low ==> (#[trigger] dates[i]).precedes(date),
            forall|i: int| high <= i < dates.len() ==> date.precedes(#[trigger] dates[i]),
        decreases high - low,
    {
        let middle = low + (high - low) / 2;
        let found = dates[middle];
        if found == date {
            return true;
        }
        if found.is_before(&date) {
            assert forall|i: int| 0 <= i < middle + 1 implies (#[trigger] dates[i]).precedes(date) by {
                if i < middle {
                    assert(dates[i].precedes(dates[middle as int]));
                }
            }
            low = middle + 1;
        } else {
            assert forall|i: int| middle <= i < dates.len() implies date.precedes(
                #[trigger] dates[i],
            ) by {
                if i > middle {
                    assert(dates[middle as int].precedes(dates[i]));
                }
            }
            high = middle;
        }
    }
    assert(!dates@.contains(date)) by {
        if dates@.contains(date) {
            let i = choose|i: int| 0 <= i < dates.len() && dates[i] == date;
            if i < low {
                assert(dates[i].precedes(date));
            } else {
                assert(date.precedes(dates[i]));
            }
        }
    }
    false
}

} // verus!
