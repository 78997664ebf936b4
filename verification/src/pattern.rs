//! Patterns: date tokens in which `?` stands for any one digit.

use crate::calendar::CalendarDate;
use crate::dateset::{insert_date, is_ascending};
use crate::text::{chars_of, string_of, texts_of};
use crate::token::{
    compact_reading, compact_text, date_of_text, digit_char, digit_of, digit_value,
    hyphenated_reading, hyphenated_text, is_compact_digits, is_digit, is_hyphenated_digits,
    lemma_text_reads_back, parse_date,
};
use vstd::prelude::*;
use vstd::relations::injective_on;
use vstd::set_lib::{lemma_len_subset, lemma_map_size, lemma_map_size_bound, lemma_set_disjoint_lens};

verus! {

/// The character that stands for any one digit.
pub const WILDCARD: char = '?';

/// The number of wildcards in `pattern`.
pub open spec fn wildcard_count(pattern: Seq<char>) -> nat
    decreases pattern.len(),
{
    if pattern.len() == 0 {
        0
    } else if pattern.last() == WILDCARD {
        wildcard_count(pattern.drop_last()) + 1
    } else {
        wildcard_count(pattern.drop_last())
    }
}

/// Ten to the power `k`.
pub open spec fn pow10(k: nat) -> nat
    decreases k,
{
    if k == 0 {
        1
    } else {
        10 * pow10((k - 1) as nat)
    }
}

/// Whether `c` may stand where the pattern has `p`: any digit for a wildcard,
/// and only `p` itself otherwise.
pub open spec fn fills(p: char, c: char) -> bool {
    if p == WILDCARD {
        is_digit(c)
    } else {
        c == p
    }
}

/// Whether `text` is `pattern` with a digit in place of each wildcard.
pub open spec fn is_candidate(pattern: Seq<char>, text: Seq<char>) -> bool {
    &&& text.len() == pattern.len()
    &&& forall|p: int| 0 <= p < pattern.len() ==> fills(pattern[p], #[trigger] text[p])
}

/// The days that `pattern` denotes: those that some candidate of it is read
/// as.
pub open spec fn token_dates(pattern: Seq<char>) -> Set<CalendarDate> {
    Set::new(
        |date: CalendarDate|
            exists|text: Seq<char>|
                is_candidate(pattern, text) && #[trigger] date_of_text(text) == Some(date),
    )
}

/// Whether `text` is `pattern` with a digit in place of each wildcard before
/// position `upto`, and unchanged from there on.
spec fn is_filled_upto(pattern: Seq<char>, upto: int, text: Seq<char>) -> bool {
    &&& text.len() == pattern.len()
    &&& forall|p: int| 0 <= p < upto && p < pattern.len() ==> fills(pattern[p], #[trigger] text[p])
    &&& forall|p: int| upto <= p < pattern.len() ==> #[trigger] text[p] == pattern[p]
}

/// Whether `a` and `b` agree up to some position before `upto`, where `a` has
/// the smaller character.
pub open spec fn differ_before(a: Seq<char>, b: Seq<char>, upto: int) -> bool {
    exists|p: int|
        0 <= p < upto && p < a.len() && p < b.len() && #[trigger] a.take(p) == b.take(p) && a[p]
            < b[p]
}

/// Whether `a` comes before `b` in the order of a dictionary.
pub open spec fn comes_before(a: Seq<char>, b: Seq<char>) -> bool {
    differ_before(a, b, a.len() as int)
}

/// A copy of `text` with `c` at position `at`.
fn substitute(text: &Vec<char>, at: usize, c: char) -> (r: Vec<char>)
    requires
        at < text.len(),
    ensures
        r@ == text@.update(at as int, c),
{
    let mut r: Vec<char> = Vec::new();
    let mut p: usize = 0;
    while p < text.len()
        invariant
            p <= text.len(),
            at < text.len(),
            r.len() == p,
            forall|q: int| 0 <= q < p ==> r[q] == text@.update(at as int, c)[q],
        decreases text.len() - p,
    {
        r.push(if p == at { c } else { text[p] });
        p += 1;
    }
    assert(r@ =~= text@.update(at as int, c));
    r
}

/// Each text of `texts` ten times over, with the digits 0 to 9 in turn at
/// position `at`.
fn branch(texts: &Vec<Vec<char>>, at: usize) -> (r: Vec<Vec<char>>)
    requires
        forall|j: int| 0 <= j < texts.len() ==> at < (#[trigger] texts[j]).len(),
    ensures
        r.len() == 10 * texts.len(),
        forall|k: int|
            0 <= k < r.len() ==> is_digit((#[trigger] r[k])@[at as int]) && r[k]@ == texts[k
                / 10]@.update(at as int, r[k]@[at as int]) && digit_value(r[k]@[at as int]) == k
                % 10,
{
    let mut r: Vec<Vec<char>> = Vec::new();
    let mut j: usize = 0;
    while j < texts.len()
        invariant
            j <= texts.len(),
            forall|j: int| 0 <= j < texts.len() ==> at < (#[trigger] texts[j]).len(),
            r.len() == 10 * j,
            forall|k: int|
                0 <= k < r.len() ==> is_digit((#[trigger] r[k])@[at as int]) && r[k]@ == texts[k
                    / 10]@.update(at as int, r[k]@[at as int]) && digit_value(r[k]@[at as int])
                    == k % 10,
        decreases texts.len() - j,
    {
        let mut d: u8 = 0;
        while d < 10
            invariant
                d <= 10,
                j < texts.len(),
                at < texts[j as int].len(),
                r.len() == 10 * j + d,
                forall|k: int|
                    0 <= k < r.len() ==> is_digit((#[trigger] r[k])@[at as int]) && r[k]@
                        == texts[k / 10]@.update(at as int, r[k]@[at as int]) && digit_value(
                        r[k]@[at as int],
                    ) == k % 10,
            decreases 10 - d,
        {
            let text = substitute(&texts[j], at, digit_char(d));
            r.push(text);
            d += 1;
        }
        j += 1;
    }
    r
}

/// The candidates of `pattern`: every text that has a digit in place of each
/// wildcard and is `pattern` elsewhere, each once, in the order of a
/// dictionary. A pattern with `k` wildcards has ten to the power `k` of them.
pub fn candidates(pattern: &str) -> (r: Vec<String>)
    ensures
        r.len() == pow10(wildcard_count(pattern@)),
        forall|j: int| 0 <= j < r.len() ==> is_candidate(pattern@, (#[trigger] r[j])@),
        forall|text: Seq<char>|
            is_candidate(pattern@, text) ==> exists|j: int| 0 <= j < r.len() && (#[trigger] r[j])@ == text,
        forall|j: int, k: int|
            0 <= j < k < r.len() ==> comes_before((#[trigger] r[j])@, (#[trigger] r[k])@),
{
    let chars = chars_of(pattern);
    let ghost pat = chars@;
    let mut texts: Vec<Vec<char>> = Vec::new();
    texts.push(chars_of(pattern));
    let mut i: usize = 0;
    assert(pat.take(0) =~= Seq::<char>::empty());
    assert forall|text: Seq<char>| is_filled_upto(pat, 0, text) implies text == texts[0]@ by {
        assert(text =~= pat);
    }
    while i < chars.len()
        invariant
            i <= chars.len(),
            pat == chars@,
            texts.len() == pow10(wildcard_count(pat.take(i as int))),
            forall|j: int| 0 <= j < texts.len() ==> is_filled_upto(pat, i as int, (#[trigger] texts[j])@),
            forall|text: Seq<char>|
                is_filled_upto(pat, i as int, text) ==> exists|j: int|
                    0 <= j < texts.len() && (#[trigger] texts[j])@ == text,
            forall|j: int, k: int|
                0 <= j < k < texts.len() ==> differ_before(
                    (#[trigger] texts[j])@,
                    (#[trigger] texts[k])@,
                    i as int,
                ),
        decreases chars.len() - i,
    {
        let ghost up: int = i + 1;
        assert(pat.take(i + 1).drop_last() =~= pat.take(i as int));
        assert(pat.take(i + 1).last() == pat[i as int]);
        if chars[i] == WILDCARD {
            let ghost before = texts@;
            assert forall|j: int| 0 <= j < texts.len() implies i < (#[trigger] texts[j]).len() by {
                assert(is_filled_upto(pat, i as int, texts[j]@));
            }
            texts = branch(&texts, i);
            proof {
                assert forall|k: int| 0 <= k < texts.len() implies is_filled_upto(
                    pat,
                    up,
                    (#[trigger] texts[k])@,
                ) by {
                    assert(is_filled_upto(pat, i as int, before[k / 10]@));
                }
                assert forall|text: Seq<char>| #[trigger] is_filled_upto(pat, up, text) implies exists|
                    k: int,
                |
                    0 <= k < texts.len() && (#[trigger] texts[k])@ == text by {
                    let origin = text.update(i as int, WILDCARD);
                    assert(is_filled_upto(pat, i as int, origin));
                    let j = choose|j: int| 0 <= j < before.len() && (#[trigger] before[j])@ == origin;
                    let k = 10 * j + digit_value(text[i as int]);
                    assert(fills(pat[i as int], text[i as int]));
                    assert(texts[k]@[i as int] == text[i as int]);
                    assert(texts[k]@ =~= text);
                }
                assert forall|j: int, k: int| 0 <= j < k < texts.len() implies differ_before(
                    (#[trigger] texts[j])@,
                    (#[trigger] texts[k])@,
                    up,
                ) by {
                    let a = texts[j]@;
                    let b = texts[k]@;
                    let a0 = before[j / 10]@;
                    let b0 = before[k / 10]@;
                    assert(is_filled_upto(pat, i as int, a0));
                    assert(is_filled_upto(pat, i as int, b0));
                    if j / 10 < k / 10 {
                        assert(differ_before(a0, b0, i as int));
                        let p = choose|p: int|
                            0 <= p < i && p < a0.len() && p < b0.len() && #[trigger] a0.take(p)
                                == b0.take(p) && a0[p] < b0[p];
                        assert(a.take(p) =~= a0.take(p));
                        assert(b.take(p) =~= b0.take(p));
                        assert(a[p] == a0[p] && b[p] == b0[p]);
                    } else {
                        assert(a0 == b0);
                        assert(a.take(i as int) =~= b.take(i as int));
                        assert(digit_value(a[i as int]) < digit_value(b[i as int]));
                    }
                }
            }
        } else {
            proof {
                assert forall|j: int| 0 <= j < texts.len() implies is_filled_upto(
                    pat,
                    up,
                    (#[trigger] texts[j])@,
                ) by {
                    assert(is_filled_upto(pat, i as int, texts[j]@));
                }
                assert forall|text: Seq<char>| #[trigger] is_filled_upto(pat, up, text) implies exists|
                    j: int,
                |
                    0 <= j < texts.len() && (#[trigger] texts[j])@ == text by {
                    assert(fills(pat[i as int], text[i as int]));
                    assert(is_filled_upto(pat, i as int, text));
                }
                assert forall|j: int, k: int| 0 <= j < k < texts.len() implies differ_before(
                    (#[trigger] texts[j])@,
                    (#[trigger] texts[k])@,
                    up,
                ) by {
                    let a = texts[j]@;
                    let b = texts[k]@;
                    assert(differ_before(a, b, i as int));
                    let p = choose|p: int|
                        0 <= p < i && p < a.len() && p < b.len() && #[trigger] a.take(p) == b.take(
                            p,
                        ) && a[p] < b[p];
                    assert(0 <= p < up && a.take(p) == b.take(p) && a[p] < b[p]);
                }
            }
        }
        i += 1;
    }
    assert(pat.take(i as int) =~= pat);
    let mut r: Vec<String> = Vec::new();
    let mut j: usize = 0;
    while j < texts.len()
        invariant
            j <= texts.len(),
            r.len() == j,
            forall|k: int| 0 <= k < j ==> (#[trigger] r[k])@ == texts[k]@,
        decreases texts.len() - j,
    {
        r.push(string_of(&texts[j]));
        j += 1;
    }
    proof {
        assert forall|j: int| 0 <= j < r.len() implies is_candidate(pattern@, (#[trigger] r[j])@) by {
            assert(is_filled_upto(pat, i as int, texts[j]@));
        }
        assert forall|text: Seq<char>| is_candidate(pattern@, text) implies exists|j: int|
            0 <= j < r.len() && (#[trigger] r[j])@ == text by {
            assert(is_filled_upto(pat, i as int, text));
            let j = choose|j: int| 0 <= j < texts.len() && (#[trigger] texts[j])@ == text;
            assert(r[j]@ == text);
        }
        assert forall|j: int, k: int| 0 <= j < k < r.len() implies comes_before(
            (#[trigger] r[j])@,
            (#[trigger] r[k])@,
        ) by {
            assert(differ_before(texts[j]@, texts[k]@, i as int));
            assert(is_filled_upto(pat, i as int, texts[j]@));
        }
    }
    r
}

/// A text that is read as a day is read as one that exists.
pub proof fn lemma_read_dates_exist(text: Seq<char>)
    ensures
        date_of_text(text) matches Some(date) ==> date.is_valid(),
{
}

/// The texts that are candidates of `pattern`.
pub open spec fn candidate_set(pattern: Seq<char>) -> Set<Seq<char>> {
    Set::new(|text: Seq<char>| is_candidate(pattern, text))
}

/// The function that adds `c` to the end of a text.
spec fn appending(c: char) -> spec_fn(Seq<char>) -> Seq<char> {
    |text: Seq<char>| text.push(c)
}

/// The texts of `texts`, each with one of the first `n` digits added to its
/// end.
spec fn with_digits(texts: Set<Seq<char>>, n: int) -> Set<Seq<char>>
    decreases n,
{
    if n <= 0 {
        Set::empty()
    } else {
        with_digits(texts, n - 1).union(texts.map(appending(digit_of(n - 1))))
    }
}

/// Adding one character to each text of a finite set gives as many texts:
/// those that end in the character and begin with a text of the set.
proof fn lemma_appending(texts: Set<Seq<char>>, c: char)
    requires
        texts.finite(),
    ensures
        texts.map(appending(c)).finite(),
        texts.map(appending(c)).len() == texts.len(),
        forall|text: Seq<char>| #[trigger]
            texts.map(appending(c)).contains(text) <==> text.len() > 0 && text.last() == c
                && texts.contains(text.drop_last()),
{
    let f = appending(c);
    assert forall|a: Seq<char>, b: Seq<char>| #[trigger] f(a) == #[trigger] f(b) implies a == b by {
        assert(a =~= f(a).drop_last());
        assert(b =~= f(b).drop_last());
    }
    lemma_map_size(texts, texts.map(f), f);
    assert forall|text: Seq<char>| #[trigger]
        texts.map(f).contains(text) <==> text.len() > 0 && text.last() == c && texts.contains(
            text.drop_last(),
        ) by {
        if texts.map(f).contains(text) {
            let origin = choose|origin: Seq<char>| texts.contains(origin) && f(origin) == text;
            assert(text.drop_last() =~= origin);
        }
        if text.len() > 0 && text.last() == c && texts.contains(text.drop_last()) {
            assert(f(text.drop_last()) =~= text);
        }
    }
}

/// Adding each of the first `n` digits to each text of a finite set gives `n`
/// times as many texts.
proof fn lemma_with_digits(texts: Set<Seq<char>>, n: int)
    requires
        texts.finite(),
        0 <= n <= 10,
    ensures
        with_digits(texts, n).finite(),
        with_digits(texts, n).len() == n * texts.len(),
        forall|text: Seq<char>| #[trigger]
            with_digits(texts, n).contains(text) <==> text.len() > 0 && is_digit(text.last())
                && digit_value(text.last()) < n && texts.contains(text.drop_last()),
    decreases n,
{
    if n > 0 {
        let c = digit_of(n - 1);
        let fewer = with_digits(texts, n - 1);
        let added = texts.map(appending(c));
        lemma_with_digits(texts, n - 1);
        lemma_appending(texts, c);
        assert(fewer.disjoint(added));
        lemma_set_disjoint_lens(fewer, added);
        assert(n * texts.len() == (n - 1) * texts.len() + texts.len()) by (nonlinear_arith);
        assert forall|text: Seq<char>| #[trigger]
            with_digits(texts, n).contains(text) <==> text.len() > 0 && is_digit(text.last())
                && digit_value(text.last()) < n && texts.contains(text.drop_last()) by {
            assert(with_digits(texts, n).contains(text) <==> fewer.contains(text) || added.contains(
                text,
            ));
        }
    }
}

/// A pattern with `k` wildcards has ten to the power `k` candidates.
pub proof fn lemma_candidate_count(pattern: Seq<char>)
    ensures
        candidate_set(pattern).finite(),
        candidate_set(pattern).len() == pow10(wildcard_count(pattern)),
    decreases pattern.len(),
{
    let all = candidate_set(pattern);
    if pattern.len() == 0 {
        assert(all =~= set![Seq::<char>::empty()]) by {
            assert forall|text: Seq<char>| all.contains(text) <==> text == Seq::<char>::empty() by {
                if all.contains(text) {
                    assert(text =~= Seq::<char>::empty());
                }
            }
        }
    } else {
        let shorter = pattern.drop_last();
        let last = pattern.last();
        let fewer = candidate_set(shorter);
        lemma_candidate_count(shorter);
        assert forall|text: Seq<char>| #[trigger]
            all.contains(text) <==> text.len() > 0 && fills(last, text.last()) && fewer.contains(
                text.drop_last(),
            ) by {
            if all.contains(text) {
                assert(fills(pattern[pattern.len() - 1], text[pattern.len() - 1]));
                assert forall|p: int| 0 <= p < shorter.len() implies fills(
                    shorter[p],
                    #[trigger] text.drop_last()[p],
                ) by {
                    assert(fills(pattern[p], text[p]));
                }
            }
            if text.len() > 0 && fills(last, text.last()) && fewer.contains(text.drop_last()) {
                assert forall|p: int| 0 <= p < pattern.len() implies fills(
                    pattern[p],
                    #[trigger] text[p],
                ) by {
                    if p < shorter.len() {
                        assert(fills(shorter[p], text.drop_last()[p]));
                    }
                }
            }
        }
        if last == WILDCARD {
            lemma_with_digits(fewer, 10);
            assert(all =~= with_digits(fewer, 10));
        } else {
            lemma_appending(fewer, last);
            assert(all =~= fewer.map(appending(last)));
        }
    }
}

/// A pattern with `k` wildcards denotes at most ten to the power `k` days.
pub proof fn lemma_token_dates_count(pattern: Seq<char>)
    ensures
        token_dates(pattern).finite(),
        token_dates(pattern).len() <= pow10(wildcard_count(pattern)),
{
    let texts = candidate_set(pattern);
    let read = |text: Seq<char>| date_of_text(text);
    let found = texts.map(read);
    lemma_candidate_count(pattern);
    lemma_map_size_bound(texts, found, read);
    let days = token_dates(pattern);
    let wrapped = days.map(|date: CalendarDate| Some(date));
    assert(wrapped.subset_of(found)) by {
        assert forall|x: Option<CalendarDate>| wrapped.contains(x) implies found.contains(x) by {
            let date = choose|date: CalendarDate| days.contains(date) && Some(date) == x;
            let text = choose|text: Seq<char>|
                is_candidate(pattern, text) && #[trigger] date_of_text(text) == Some(date);
            assert(texts.contains(text) && read(text) == x);
        }
    }
    lemma_len_subset(wrapped, found);
    let unwrap = |x: Option<CalendarDate>| x->Some_0;
    assert(wrapped.map(unwrap) =~= days) by {
        assert forall|date: CalendarDate| days.contains(date) implies wrapped.map(unwrap).contains(
            date,
        ) by {
            assert(wrapped.contains(Some(date)));
            assert(unwrap(Some(date)) == date);
        }
    }
    assert(injective_on(unwrap, wrapped));
    lemma_map_size(wrapped, days, unwrap);
}

/// The days that the members of `texts` are read as.
pub open spec fn dates_read(texts: Seq<Seq<char>>) -> Set<CalendarDate> {
    Set::new(
        |date: CalendarDate|
            exists|k: int| 0 <= k < texts.len() && date_of_text(#[trigger] texts[k]) == Some(date),
    )
}

/// One more text adds the day it is read as, if any.
pub proof fn lemma_dates_read_push(texts: Seq<Seq<char>>, text: Seq<char>)
    ensures
        dates_read(texts.push(text)) == match date_of_text(text) {
            Some(date) => dates_read(texts).insert(date),
            None => dates_read(texts),
        },
{
    let more = texts.push(text);
    let expected = match date_of_text(text) {
        Some(date) => dates_read(texts).insert(date),
        None => dates_read(texts),
    };
    assert forall|date: CalendarDate| dates_read(more).contains(date) <==> expected.contains(
        date,
    ) by {
        if dates_read(more).contains(date) {
            let k = choose|k: int|
                0 <= k < more.len() && date_of_text(#[trigger] more[k]) == Some(date);
            if k < texts.len() {
                assert(date_of_text(texts[k]) == Some(date));
            }
        }
        if dates_read(texts).contains(date) {
            let k = choose|k: int|
                0 <= k < texts.len() && date_of_text(#[trigger] texts[k]) == Some(date);
            assert(date_of_text(more[k]) == Some(date));
        }
        if date_of_text(text) == Some(date) {
            assert(date_of_text(more[texts.len() as int]) == Some(date));
        }
    }
    assert(dates_read(more) =~= expected);
}

/// The days that the members of `texts` are read as, in ascending order, each
/// once. A text that names no day of the calendar is passed over.
pub fn read_dates(texts: &Vec<String>) -> (r: Vec<CalendarDate>)
    ensures
        is_ascending(r@),
        r@.to_set() == dates_read(texts_of(texts@)),
        r.len() <= texts.len(),
{
    let ghost all = texts_of(texts@);
    let mut dates: Vec<CalendarDate> = Vec::new();
    let mut j: usize = 0;
    assert(dates@.to_set() =~= dates_read(all.take(0)));
    while j < texts.len()
        invariant
            j <= texts.len(),
            all == texts_of(texts@),
            is_ascending(dates@),
            dates@.to_set() == dates_read(all.take(j as int)),
            dates.len() <= j,
        decreases texts.len() - j,
    {
        proof {
            lemma_dates_read_push(all.take(j as int), all[j as int]);
            assert(all.take(j + 1) =~= all.take(j as int).push(all[j as int]));
        }
        match parse_date(texts[j].as_str()) {
            Some(found) => {
                insert_date(&mut dates, found);
            },
            None => {},
        }
        j += 1;
    }
    assert(all.take(j as int) =~= all);
    dates
}

/// The days that `pattern` denotes exist in the calendar, and each is what
/// some candidate of `pattern` is read as.
pub proof fn lemma_token_dates_exist(pattern: Seq<char>, date: CalendarDate)
    requires
        token_dates(pattern).contains(date),
    ensures
        date.is_valid(),
        exists|text: Seq<char>|
            is_candidate(pattern, text) && #[trigger] date_of_text(text) == Some(date),
{
    let text = choose|text: Seq<char>|
        is_candidate(pattern, text) && #[trigger] date_of_text(text) == Some(date);
    lemma_read_dates_exist(text);
}

/// Whether `pattern` holds no wildcard.
pub open spec fn is_plain(pattern: Seq<char>) -> bool {
    forall|p: int| 0 <= p < pattern.len() ==> #[trigger] pattern[p] != WILDCARD
}

/// A pattern without wildcards is its own only candidate: it denotes the day
/// it is read as, and no day where it is read as none.
pub proof fn lemma_plain_token(pattern: Seq<char>)
    requires
        is_plain(pattern),
    ensures
        wildcard_count(pattern) == 0,
        forall|text: Seq<char>| is_candidate(pattern, text) <==> text == pattern,
        token_dates(pattern) == match date_of_text(pattern) {
            Some(date) => set![date],
            None => Set::empty(),
        },
    decreases pattern.len(),
{
    if pattern.len() > 0 {
        assert(pattern.last() == pattern[pattern.len() - 1]);
        assert forall|p: int| 0 <= p < pattern.drop_last().len() implies #[trigger] pattern.drop_last()[p]
            != WILDCARD by {
            assert(pattern.drop_last()[p] == pattern[p]);
        }
        lemma_plain_token(pattern.drop_last());
    }
    assert forall|text: Seq<char>| is_candidate(pattern, text) <==> text == pattern by {
        if is_candidate(pattern, text) {
            assert forall|p: int| 0 <= p < pattern.len() implies text[p] == pattern[p] by {
                assert(fills(pattern[p], text[p]));
            }
            assert(text =~= pattern);
        }
    }
    let expected = match date_of_text(pattern) {
        Some(date) => set![date],
        None => Set::empty(),
    };
    assert forall|date: CalendarDate| token_dates(pattern).contains(date) <==> expected.contains(
        date,
    ) by {
        if token_dates(pattern).contains(date) {
            let text = choose|text: Seq<char>|
                is_candidate(pattern, text) && #[trigger] date_of_text(text) == Some(date);
            assert(text == pattern);
        }
        if date_of_text(pattern) == Some(date) {
            assert(is_candidate(pattern, pattern));
        }
    }
    assert(token_dates(pattern) =~= expected);
}

/// A day that exists, of a year from 0 to 9999, written out as a token,
/// denotes itself and no other day.
pub proof fn lemma_written_date_denotes_itself(date: CalendarDate)
    requires
        date.is_valid(),
        0 <= date.year <= 9999,
    ensures
        token_dates(hyphenated_text(date)) == set![date],
        token_dates(compact_text(date)) == set![date],
{
    lemma_text_reads_back(date);
    lemma_plain_token(hyphenated_text(date));
    lemma_plain_token(compact_text(date));
}

/// A token of digits that names no day of the calendar denotes no day.
pub proof fn lemma_date_out_of_calendar(token: Seq<char>)
    requires
        is_hyphenated_digits(token) && hyphenated_reading(token) is None || is_compact_digits(token)
            && compact_reading(token) is None,
    ensures
        token_dates(token) == Set::<CalendarDate>::empty(),
{
    lemma_plain_token(token);
}

/// The days that `pattern` denotes, in ascending order, each once: those that
/// a candidate of `pattern` is read as. A candidate that names no day of the
/// calendar is passed over.
pub fn expand_pattern(pattern: &str) -> (r: Vec<CalendarDate>)
    ensures
        is_ascending(r@),
        r@.to_set() == token_dates(pattern@),
        r.len() <= pow10(wildcard_count(pattern@)),
        forall|i: int| 0 <= i < r.len() ==> (#[trigger] r[i]).is_valid(),
{
    let texts = candidates(pattern);
    let dates = read_dates(&texts);
    proof {
        let all = texts_of(texts@);
        assert forall|date: CalendarDate| dates_read(all).contains(date) <==> token_dates(
            pattern@,
        ).contains(date) by {
            if dates_read(all).contains(date) {
                let k = choose|k: int|
                    0 <= k < all.len() && date_of_text(#[trigger] all[k]) == Some(date);
                assert(is_candidate(pattern@, texts[k]@));
            }
            if token_dates(pattern@).contains(date) {
                let text = choose|text: Seq<char>|
                    is_candidate(pattern@, text) && #[trigger] date_of_text(text) == Some(date);
                let k = choose|k: int| 0 <= k < texts.len() && (#[trigger] texts[k])@ == text;
                assert(date_of_text(all[k]) == Some(date));
            }
        }
        assert(dates_read(all) =~= token_dates(pattern@));
        assert forall|i: int| 0 <= i < dates.len() implies (#[trigger] dates[i]).is_valid() by {
            assert(dates@.contains(dates[i]));
            assert(dates@.to_set().contains(dates[i]));
            lemma_token_dates_exist(pattern@, dates[i]);
        }
    }
    dates
}

} // verus!
