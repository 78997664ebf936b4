//! The written form of a date specification, and its parser.

use crate::pattern::WILDCARD;
use crate::text::{chars_of, string_of_range, texts_of};
use crate::token::is_digit;
use vstd::prelude::*;

verus! {

/// A date specification: one token, several, or a first and a last one.
#[derive(Debug, PartialEq, Eq)]
pub enum DateSpec {
    /// A first and a last token, written with `..` or `:` between them.
    Range(String, String),
    /// Two or more tokens, written with commas between them.
    Sequence(Vec<String>),
    /// One token.
    Single(String),
}

/// A [`DateSpec`] with its tokens as sequences of characters.
pub enum SpecTree {
    Range(Seq<char>, Seq<char>),
    Sequence(Seq<Seq<char>>),
    Single(Seq<char>),
}

impl View for DateSpec {
    type V = SpecTree;

    open spec fn view(&self) -> SpecTree {
        match self {
            DateSpec::Range(low, high) => SpecTree::Range(low@, high@),
            DateSpec::Sequence(tokens) => SpecTree::Sequence(texts_of(tokens@)),
            DateSpec::Single(token) => SpecTree::Single(token@),
        }
    }
}

/// The text is not a date specification.
#[derive(Debug, Clone, Copy, PartialEq, Eq)]
pub struct SyntaxError;

/// Whether `c` is a digit or the wildcard.
pub open spec fn is_digit_or_wildcard(c: char) -> bool {
    is_digit(c) || c == WILDCARD
}

/// Whether `token` has the hyphenated form: a year of four digits, a hyphen,
/// a month of two digits or wildcards, a hyphen, and a day of two digits or
/// wildcards.
pub open spec fn is_hyphenated_token(token: Seq<char>) -> bool {
    &&& token.len() == 10
    &&& is_digit(token[0]) && is_digit(token[1]) && is_digit(token[2]) && is_digit(token[3])
    &&& token[4] == '-'
    &&& is_digit_or_wildcard(token[5]) && is_digit_or_wildcard(token[6])
    &&& token[7] == '-'
    &&& is_digit_or_wildcard(token[8]) && is_digit_or_wildcard(token[9])
}

/// Whether `token` has the compact form: a year of four digits, a month of
/// two digits or wildcards, and a day of two digits or wildcards.
pub open spec fn is_compact_token(token: Seq<char>) -> bool {
    &&& token.len() == 8
    &&& is_digit(token[0]) && is_digit(token[1]) && is_digit(token[2]) && is_digit(token[3])
    &&& is_digit_or_wildcard(token[4]) && is_digit_or_wildcard(token[5])
    &&& is_digit_or_wildcard(token[6]) && is_digit_or_wildcard(token[7])
}

/// Whether `token` is a date token, in either form.
pub open spec fn is_date_token(token: Seq<char>) -> bool {
    is_hyphenated_token(token) || is_compact_token(token)
}

/// Whether every member of `tokens` is a date token.
pub open spec fn are_date_tokens(tokens: Seq<Seq<char>>) -> bool {
    forall|i: int| 0 <= i < tokens.len() ==> is_date_token(#[trigger] tokens[i])
}

/// The tokens written one after the other with a comma between neighbours.
pub open spec fn joined(tokens: Seq<Seq<char>>) -> Seq<char>
    decreases tokens.len(),
{
    if tokens.len() == 0 {
        Seq::empty()
    } else if tokens.len() == 1 {
        tokens[0]
    } else {
        tokens[0] + seq![','] + joined(tokens.drop_first())
    }
}

/// Whether `text` is a written form of `tree`: a date token alone; two date
/// tokens with `..` or `:` between them; or two or more date tokens with
/// commas between them. Nothing may stand before, between or after.
pub open spec fn spells(tree: SpecTree, text: Seq<char>) -> bool {
    match tree {
        SpecTree::Single(token) => is_date_token(token) && text == token,
        SpecTree::Range(low, high) => {
            &&& is_date_token(low)
            &&& is_date_token(high)
            &&& (text == low + seq!['.', '.'] + high || text == low + seq![':'] + high)
        },
        SpecTree::Sequence(tokens) => {
            &&& tokens.len() >= 2
            &&& are_date_tokens(tokens)
            &&& text == joined(tokens)
        },
    }
}

/// The length that a date token beginning at position `at` of `text` has:
/// ten where a hyphen follows the year, eight otherwise.
pub open spec fn token_length_at(text: Seq<char>, at: int) -> int {
    if at + 4 < text.len() && text[at + 4] == '-' {
        10
    } else {
        8
    }
}

/// Whether a date token begins at position `at` of `text`.
pub open spec fn token_begins_at(text: Seq<char>, at: int) -> bool {
    &&& 0 <= at
    &&& at + token_length_at(text, at) <= text.len()
    &&& is_date_token(text.subrange(at, at + token_length_at(text, at)))
}

/// A date token that stands at position `at` of `text` is the one that
/// [`token_begins_at`] finds.
pub proof fn lemma_token_in_text(text: Seq<char>, at: int, token: Seq<char>)
    requires
        is_date_token(token),
        0 <= at,
        at + token.len() <= text.len(),
        text.subrange(at, at + token.len()) == token,
    ensures
        token.len() == token_length_at(text, at),
        token_begins_at(text, at),
{
    assert(token[4] == text[at + 4]);
}

fn is_digit_char(c: char) -> (b: bool)
    ensures
        b == is_digit(c),
{
    '0' <= c && c <= '9'
}

fn is_digit_or_wildcard_char(c: char) -> (b: bool)
    ensures
        b == is_digit_or_wildcard(c),
{
    is_digit_char(c) || c == WILDCARD
}

/// The end of the date token that begins at position `at`, if one does.
fn token_end(chars: &Vec<char>, at: usize) -> (r: Option<usize>)
    requires
        at <= chars.len(),
    ensures
        r is Some <==> token_begins_at(chars@, at as int),
        r matches Some(end) ==> end == at + token_length_at(chars@, at as int),
{
    let left = chars.len() - at;
    if left < 8 {
        return None;
    }
    let ghost token = chars@.subrange(at as int, at + token_length_at(chars@, at as int));
    if !(is_digit_char(chars[at]) && is_digit_char(chars[at + 1]) && is_digit_char(chars[at + 2])
        && is_digit_char(chars[at + 3])) {
        assert(!token_begins_at(chars@, at as int)) by {
            if at + token_length_at(chars@, at as int) <= chars.len() {
                assert(token[0] == chars[at as int] && token[1] == chars[at + 1] && token[2]
                    == chars[at + 2] && token[3] == chars[at + 3]);
            }
        }
        return None;
    }
    if chars[at + 4] == '-' {
        if left < 10 {
            return None;
        }
        let good = is_digit_or_wildcard_char(chars[at + 5]) && is_digit_or_wildcard_char(
            chars[at + 6],
        ) && chars[at + 7] == '-' && is_digit_or_wildcard_char(chars[at + 8])
            && is_digit_or_wildcard_char(chars[at + 9]);
        assert(token[0] == chars[at as int] && token[1] == chars[at + 1] && token[2] == chars[at
            + 2] && token[3] == chars[at + 3] && token[4] == chars[at + 4] && token[5] == chars[at
            + 5] && token[6] == chars[at + 6] && token[7] == chars[at + 7] && token[8] == chars[at
            + 8] && token[9] == chars[at + 9]);
        if good {
            Some(at + 10)
        } else {
            None
        }
    } else {
        let good = is_digit_or_wildcard_char(chars[at + 4]) && is_digit_or_wildcard_char(
            chars[at + 5],
        ) && is_digit_or_wildcard_char(chars[at + 6]) && is_digit_or_wildcard_char(chars[at + 7]);
        assert(token[0] == chars[at as int] && token[1] == chars[at + 1] && token[2] == chars[at
            + 2] && token[3] == chars[at + 3] && token[4] == chars[at + 4] && token[5] == chars[at
            + 5] && token[6] == chars[at + 6] && token[7] == chars[at + 7]);
        if good {
            Some(at + 8)
        } else {
            None
        }
    }
}

/// The tokens before position `k` and those from it on, written out with a
/// comma between the two parts, are all the tokens written out.
pub proof fn lemma_joined_split(tokens: Seq<Seq<char>>, k: int)
    requires
        1 <= k < tokens.len(),
    ensures
        joined(tokens) == joined(tokens.take(k)) + seq![','] + joined(tokens.skip(k)),
    decreases k,
{
    let rest = tokens.drop_first();
    if k == 1 {
        assert(tokens.take(1) =~= seq![tokens[0]]);
        assert(tokens.skip(1) =~= rest);
    } else {
        lemma_joined_split(rest, k - 1);
        assert(tokens.take(k).drop_first() =~= rest.take(k - 1));
        assert(tokens.skip(k) =~= rest.skip(k - 1));
        assert(tokens.take(k)[0] == tokens[0]);
        assert(joined(tokens) =~= joined(tokens.take(k)) + seq![','] + joined(tokens.skip(k)));
    }
}

/// In the written form of a sequence, the first `k` tokens end either at the
/// end of the text or before a comma that the next token follows.
pub proof fn lemma_sequence_step(tokens: Seq<Seq<char>>, k: int)
    requires
        are_date_tokens(tokens),
        1 <= k <= tokens.len(),
    ensures
        ({
            let text = joined(tokens);
            let pos = joined(tokens.take(k)).len() as int;
            &&& pos <= text.len()
            &&& text.subrange(0, pos) == joined(tokens.take(k))
            &&& k == tokens.len() ==> pos == text.len()
            &&& k < tokens.len() ==> {
                &&& pos < text.len()
                &&& text[pos] == ','
                &&& token_begins_at(text, pos + 1)
                &&& tokens[k] == text.subrange(pos + 1, pos + 1 + token_length_at(text, pos + 1))
                &&& joined(tokens.take(k + 1)).len() == pos + 1 + tokens[k].len()
                &&& tokens[k].len() == token_length_at(text, pos + 1)
            }
        }),
{
    let text = joined(tokens);
    let head = joined(tokens.take(k));
    let pos = head.len() as int;
    if k == tokens.len() {
        assert(tokens.take(k) =~= tokens);
        assert(text.subrange(0, pos) =~= head);
    } else {
        lemma_joined_split(tokens, k);
        let tail = joined(tokens.skip(k));
        assert(text == head + seq![','] + tail);
        assert(text.subrange(0, pos) =~= head);
        let next = tokens[k];
        assert(is_date_token(next));
        assert(tokens.skip(k)[0] == next);
        assert(tail.subrange(0, next.len() as int) =~= next) by {
            if tokens.skip(k).len() > 1 {
                assert(tail == next + seq![','] + joined(tokens.skip(k).drop_first()));
            }
        }
        assert(text.subrange(pos + 1, pos + 1 + next.len()) =~= next);
        lemma_token_in_text(text, pos + 1, next);
        let more = tokens.take(k + 1);
        lemma_joined_split(more, k);
        assert(more.take(k) =~= tokens.take(k));
        assert(more.skip(k) =~= seq![next]);
        assert(joined(more.skip(k)) == next);
    }
}

/// A written form begins with a date token. After it the text ends, for a
/// single token; a comma follows, for a sequence; or `..` or `:` follows, and
/// then a second date token that ends the text, for a range.
pub proof fn lemma_spelling_shape(tree: SpecTree, text: Seq<char>)
    requires
        spells(tree, text),
    ensures
        token_begins_at(text, 0),
        ({
            let end = token_length_at(text, 0);
            match tree {
                SpecTree::Single(token) => end == text.len(),
                SpecTree::Sequence(tokens) => end < text.len() && text[end] == ',',
                SpecTree::Range(low, high) => {
                    let gap: int = if text[end] == ':' {
                        1
                    } else {
                        2
                    };
                    &&& end < text.len()
                    &&& low == text.subrange(0, end)
                    &&& text[end] == ':' || (text[end] == '.' && end + 1 < text.len() && text[end
                        + 1] == '.')
                    &&& token_begins_at(text, end + gap)
                    &&& end + gap + token_length_at(text, end + gap) == text.len()
                    &&& high == text.subrange(end + gap, text.len() as int)
                },
            }
        }),
{
    match tree {
        SpecTree::Single(token) => {
            assert(text.subrange(0, token.len() as int) =~= token);
            lemma_token_in_text(text, 0, token);
        },
        SpecTree::Sequence(tokens) => {
            lemma_sequence_step(tokens, 1);
            assert(tokens.take(1) =~= seq![tokens[0]]);
            lemma_token_in_text(text, 0, tokens[0]);
        },
        SpecTree::Range(low, high) => {
            assert(text.subrange(0, low.len() as int) =~= low);
            lemma_token_in_text(text, 0, low);
            let end = low.len() as int;
            if text == low + seq![':'] + high {
                assert(text[end] == ':');
                assert(text.subrange(end + 1, end + 1 + high.len()) =~= high);
                lemma_token_in_text(text, end + 1, high);
            } else {
                assert(text == low + seq!['.', '.'] + high);
                assert(text[end] == '.');
                assert(text[end + 1] == '.');
                assert(text.subrange(end + 2, end + 2 + high.len()) =~= high);
                lemma_token_in_text(text, end + 2, high);
            }
        },
    }
}

/// A text is the written form of at most one tree.
pub proof fn lemma_spelling_is_unique(first: SpecTree, second: SpecTree, text: Seq<char>)
    requires
        spells(first, text),
        spells(second, text),
    ensures
        first == second,
{
    lemma_spelling_shape(first, text);
    lemma_spelling_shape(second, text);
    match (first, second) {
        (SpecTree::Sequence(a), SpecTree::Sequence(b)) => {
            lemma_same_tokens(a, b, a.len() as int);
            assert(a.take(a.len() as int) =~= a);
            if a.len() < b.len() {
                lemma_same_tokens(b, a, a.len() as int);
                lemma_sequence_step(a, a.len() as int);
                lemma_sequence_step(b, a.len() as int);
            }
            assert(b.take(b.len() as int) =~= b);
        },
        _ => {},
    }
}

/// Two sequences of date tokens with the same written form agree on their
/// first `k` tokens.
proof fn lemma_same_tokens(a: Seq<Seq<char>>, b: Seq<Seq<char>>, k: int)
    requires
        are_date_tokens(a),
        are_date_tokens(b),
        joined(a) == joined(b),
        1 <= k <= a.len(),
        1 <= b.len(),
    ensures
        k <= b.len(),
        a.take(k) == b.take(k),
    decreases k,
{
    let text = joined(a);
    if k == 1 {
        lemma_sequence_step(a, 1);
        lemma_sequence_step(b, 1);
        assert(a.take(1) =~= seq![a[0]]);
        assert(b.take(1) =~= seq![b[0]]);
        lemma_token_in_text(text, 0, a[0]);
        lemma_token_in_text(text, 0, b[0]);
        assert(a[0] =~= text.subrange(0, a[0].len() as int));
        assert(b[0] =~= text.subrange(0, b[0].len() as int));
    } else {
        lemma_same_tokens(a, b, k - 1);
        lemma_sequence_step(a, k - 1);
        lemma_sequence_step(b, k - 1);
        assert(a.take(k) =~= a.take(k - 1).push(a[k - 1]));
        assert(b.take(k) =~= b.take(k - 1).push(b[k - 1]));
    }
}

/// Reads the tokens of a sequence whose first token ends at `first`, before a
/// comma.
fn parse_sequence(chars: &Vec<char>, first: usize) -> (r: Result<DateSpec, SyntaxError>)
    requires
        token_begins_at(chars@, 0),
        first == token_length_at(chars@, 0),
        first < chars.len(),
        chars[first as int] == ',',
    ensures
        match r {
            Ok(spec) => spells(spec@, chars@),
            Err(_) => forall|tokens: Seq<Seq<char>>| !spells(SpecTree::Sequence(tokens), chars@),
        },
{
    let ghost text = chars@;
    let mut tokens: Vec<String> = Vec::new();
    tokens.push(string_of_range(chars, 0, first));
    let mut pos: usize = first;
    proof {
        let read = texts_of(tokens@);
        assert(read =~= seq![text.subrange(0, first as int)]);
        assert forall|all: Seq<Seq<char>>| #[trigger]
            spells(SpecTree::Sequence(all), text) implies read.len() <= all.len() && all.take(
            read.len() as int,
        ) == read by {
            lemma_sequence_step(all, 1);
            assert(all.take(1) =~= seq![all[0]]);
            lemma_token_in_text(text, 0, all[0]);
        }
    }
    while pos < chars.len()
        invariant
            text == chars@,
            first <= pos <= chars.len(),
            tokens.len() >= 1,
            pos > first ==> tokens.len() >= 2,
            are_date_tokens(texts_of(tokens@)),
            text.subrange(0, pos as int) == joined(texts_of(tokens@)),
            forall|all: Seq<Seq<char>>| #[trigger]
                spells(SpecTree::Sequence(all), text) ==> tokens.len() <= all.len() && all.take(
                    tokens.len() as int,
                ) == texts_of(tokens@),
        decreases chars.len() - pos,
    {
        let ghost read = texts_of(tokens@);
        let ghost k = tokens.len() as int;
        proof {
            assert forall|all: Seq<Seq<char>>| #[trigger]
                spells(SpecTree::Sequence(all), text) implies k < all.len() && text[pos as int]
                == ',' && token_begins_at(text, pos + 1) && all[k] == text.subrange(
                pos + 1,
                pos + 1 + token_length_at(text, pos + 1),
            ) by {
                lemma_sequence_step(all, k);
            }
        }
        if chars[pos] != ',' {
            return Err(SyntaxError);
        }
        let end = match token_end(chars, pos + 1) {
            Some(end) => end,
            None => {
                return Err(SyntaxError);
            },
        };
        let token = string_of_range(chars, pos + 1, end);
        tokens.push(token);
        proof {
            let more = texts_of(tokens@);
            assert(more =~= read.push(token@));
            lemma_joined_split(more, k);
            assert(more.take(k) =~= read);
            assert(more.skip(k) =~= seq![token@]);
            assert(joined(more.skip(k)) == token@);
            assert(text.subrange(0, end as int) =~= text.subrange(0, pos as int) + seq![','] + token@);
            assert forall|all: Seq<Seq<char>>| #[trigger]
                spells(SpecTree::Sequence(all), text) implies more.len() <= all.len() && all.take(
                more.len() as int,
            ) == more by {
                assert(all.take(k + 1) =~= all.take(k).push(all[k]));
            }
        }
        pos = end;
    }
    assert(text.subrange(0, pos as int) =~= text);
    Ok(DateSpec::Sequence(tokens))
}

impl SyntaxError {
    /// A sentence that says what is wrong.
    pub fn describe(&self) -> (s: String)
        ensures
            s@ == "not a date, a list of dates or a range of dates"@,
    {
        "not a date, a list of dates or a range of dates".to_owned()
    }
}

/// Reads a date specification.
///
/// The text is accepted where it is, from its first to its last character, a
/// date token, two date tokens with `..` or `:` between them, or two or more
/// date tokens with commas between them; the result holds the tokens as
/// written. Any other text is an error.
pub fn parse_datespec(input: &str) -> (r: Result<DateSpec, SyntaxError>)
    ensures
        match r {
            Ok(spec) => spells(spec@, input@),
            Err(_) => forall|tree: SpecTree| !spells(tree, input@),
        },
{
    let chars = chars_of(input);
    let ghost text = chars@;
    proof {
        assert forall|tree: SpecTree| spells(tree, text) implies token_begins_at(text, 0) by {
            lemma_spelling_shape(tree, text);
        }
    }
    let first = match token_end(&chars, 0) {
        Some(end) => end,
        None => {
            return Err(SyntaxError);
        },
    };
    if first == chars.len() {
        let token = string_of_range(&chars, 0, first);
        assert(text.subrange(0, first as int) =~= text);
        return Ok(DateSpec::Single(token));
    }
    let mark = chars[first];
    if mark == ',' {
        let r = parse_sequence(&chars, first);
        proof {
            if r is Err {
                assert forall|tree: SpecTree| !spells(tree, text) by {
                    if spells(tree, text) {
                        lemma_spelling_shape(tree, text);
                    }
                }
            }
        }
        return r;
    }
    let second: usize = if mark == ':' {
        first + 1
    } else if mark == '.' && chars.len() - first > 1 && chars[first + 1] == '.' {
        first + 2
    } else {
        proof {
            assert forall|tree: SpecTree| !spells(tree, text) by {
                if spells(tree, text) {
                    lemma_spelling_shape(tree, text);
                }
            }
        }
        return Err(SyntaxError);
    };
    proof {
        assert forall|tree: SpecTree| spells(tree, text) implies token_begins_at(
            text,
            second as int,
        ) && second + token_length_at(text, second as int) == text.len() by {
            lemma_spelling_shape(tree, text);
        }
    }
    match token_end(&chars, second) {
        Some(end) => {
            if end == chars.len() {
                let low = string_of_range(&chars, 0, first);
                let high = string_of_range(&chars, second, end);
                proof {
                    if mark == ':' {
                        assert(text =~= low@ + seq![':'] + high@);
                    } else {
                        assert(text =~= low@ + seq!['.', '.'] + high@);
                    }
                }
                Ok(DateSpec::Range(low, high))
            } else {
                Err(SyntaxError)
            }
        },
        None => Err(SyntaxError),
    }
}

} // verus!
