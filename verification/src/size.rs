//! Sizes in bytes, written for people.

use crate::token::{digit_char, digit_of};
use vstd::arithmetic::div_mod::lemma_div_is_ordered_by_denominator;
use vstd::prelude::*;
use vstd::string::StringExecFns;

verus! {

/// The bytes of a kilobyte.
pub const KB: u64 = 1024;

/// The bytes of a megabyte.
pub const MB: u64 = 1048576;

/// The bytes of a gigabyte.
pub const GB: u64 = 1073741824;

/// The numbers below this one can all be told apart with 53 binary digits.
pub const EXACT_LIMIT: u64 = 9007199254740992;

/// `n` divided by `unit` and rounded to the nearest whole number; halfway
/// between two, to the even one.
pub open spec fn nearest(n: int, unit: int) -> int {
    let q = n / unit;
    let r = n % unit;
    if 2 * r < unit || (2 * r == unit && q % 2 == 0) {
        q
    } else {
        q + 1
    }
}

/// The distance between neighbours among the numbers of 53 binary digits,
/// around `n`: 1 below [`EXACT_LIMIT`], and twice as much each time `n`
/// doubles from there.
pub open spec fn spacing(n: int) -> int
    decreases n,
{
    if n < EXACT_LIMIT {
        1
    } else {
        2 * spacing(n / 2)
    }
}

/// `n` rounded to 53 binary digits.
pub open spec fn rounded(n: int) -> int {
    nearest(n, spacing(n)) * spacing(n)
}

/// The hundredths of `unit` in `bytes`, rounded.
pub open spec fn hundredths(bytes: int, unit: int) -> int {
    nearest(rounded(bytes) * 100, unit)
}

/// `n` in decimal digits, without leading zeros.
pub open spec fn decimal_text(n: int) -> Seq<char>
    decreases n,
{
    if n < 10 {
        seq![digit_of(n)]
    } else {
        decimal_text(n / 10).push(digit_of(n % 10))
    }
}

/// `bytes` in units of `unit`, with two digits after the point.
pub open spec fn scaled_text(bytes: int, unit: int) -> Seq<char> {
    let h = hundredths(bytes, unit);
    decimal_text(h / 100) + seq!['.', digit_of(h / 10 % 10), digit_of(h % 10)]
}

/// `bytes` in the largest of the units GB, MB and KB that it reaches, with
/// two digits after the point; in whole bytes below a kilobyte.
pub open spec fn human_text(bytes: int) -> Seq<char> {
    if bytes >= GB {
        scaled_text(bytes, GB as int) + " GB"@
    } else if bytes >= MB {
        scaled_text(bytes, MB as int) + " MB"@
    } else if bytes >= KB {
        scaled_text(bytes, KB as int) + " KB"@
    } else {
        decimal_text(bytes) + " B"@
    }
}

fn nearest_of(n: u128, unit: u128) -> (r: u128)
    requires
        0 < unit <= 0x1_0000_0000_0000_0000,
        n <= 0x1_0000_0000_0000_0000_0000,
    ensures
        r == nearest(n as int, unit as int),
        r <= n / unit + 1,
{
    let q = n / unit;
    let r = n % unit;
    if 2 * r < unit || (2 * r == unit && q % 2 == 0) {
        q
    } else {
        q + 1
    }
}

fn spacing_of(n: u64) -> (r: u64)
    ensures
        r == spacing(n as int),
        r == 1 || r * 4503599627370496 <= n,
        r >= 1,
    decreases n,
{
    if n < EXACT_LIMIT {
        1
    } else {
        2 * spacing_of(n / 2)
    }
}

fn rounded_of(n: u64) -> (r: u128)
    ensures
        r == rounded(n as int),
        r <= 0x1_0000_0000_0000_1000,
{
    let unit = spacing_of(n) as u128;
    let count = nearest_of(n as u128, unit);
    assert(count * unit <= n + unit) by (nonlinear_arith)
        requires
            count <= n as u128 / unit + 1,
            unit > 0,
    ;
    count * unit
}

/// Adds `n` in decimal digits to the end of `s`.
fn push_decimal(s: &mut String, n: u64)
    ensures
        final(s)@ == old(s)@ + decimal_text(n as int),
    decreases n,
{
    if n < 10 {
        s.push(digit_char(n as u8));
        assert(s@ =~= old(s)@ + decimal_text(n as int));
    } else {
        push_decimal(s, n / 10);
        s.push(digit_char((n % 10) as u8));
        assert(s@ =~= old(s)@ + decimal_text(n as int));
    }
}

/// Adds `bytes` in units of `unit`, with two digits after the point, to the
/// end of `s`.
fn push_scaled(s: &mut String, bytes: u64, unit: u64)
    requires
        unit >= 1024,
    ensures
        final(s)@ == old(s)@ + scaled_text(bytes as int, unit as int),
{
    let scaled = rounded_of(bytes) * 100;
    let h = nearest_of(scaled, unit as u128);
    proof {
        lemma_div_is_ordered_by_denominator(scaled as int, 1024, unit as int);
    }
    let h = h as u64;
    push_decimal(s, h / 100);
    s.push('.');
    s.push(digit_char((h / 10 % 10) as u8));
    s.push(digit_char((h % 10) as u8));
    assert(s@ =~= old(s)@ + scaled_text(bytes as int, unit as int));
}

/// Writes a size in bytes for people: in the largest of the units GB, MB and
/// KB that it reaches, with two digits after the point, as in `1.50 KB`; in
/// whole bytes below a kilobyte, as in `512 B`.
pub fn to_human(bytes: u64) -> (s: String)
    ensures
        s@ == human_text(bytes as int),
{
    let mut s = String::new();
    if bytes >= GB {
        push_scaled(&mut s, bytes, GB);
        s.append(" GB");
    } else if bytes >= MB {
        push_scaled(&mut s, bytes, MB);
        s.append(" MB");
    } else if bytes >= KB {
        push_scaled(&mut s, bytes, KB);
        s.append(" KB");
    } else {
        push_decimal(&mut s, bytes);
        s.append(" B");
    }
    s
}

} // verus!
