//! Reading a decimal number as an exact fixed-point value.
//!
//! A number is an optional sign, digits, and optionally a point and more
//! digits, with at least one digit in all. Its value is held as a count of
//! millionths; fraction digits behind the sixth are dropped.

use vstd::prelude::*;
use vstd::slice::slice_subrange;
use crate::bytes::{find_byte, first_of};

verus! {

/// How many fraction digits a value keeps.
pub const FRACTION_DIGITS: usize = 6;

/// How many units make up the number one.
pub const UNITS_PER_ONE: i64 = 1_000_000;

/// The sign `+`.
pub const PLUS: u8 = 43;

/// The sign `-`.
pub const MINUS: u8 = 45;

/// The decimal point.
pub const POINT: u8 = 46;

/// Whether `b` is one of the digits `0` to `9`.
pub open spec fn is_digit(b: u8) -> bool {
    48 <= b <= 57
}

/// Whether `s` holds digits only.
pub open spec fn all_digits(s: Seq<u8>) -> bool {
    forall|i: int| 0 <= i < s.len() ==> is_digit(#[trigger] s[i])
}

/// The number that the first `n` digits of `s` spell, a missing digit read
/// as zero.
pub open spec fn prefix_value(s: Seq<u8>, n: int) -> int
    decreases n,
{
    if n <= 0 {
        0
    } else {
        prefix_value(s, n - 1) * 10 + (if n - 1 < s.len() {
            s[n - 1] - 48
        } else {
            0
        })
    }
}

/// Ten to the power `n`.
pub open spec fn pow10(n: int) -> int
    decreases n,
{
    if n <= 0 {
        1
    } else {
        10 * pow10(n - 1)
    }
}

/// The text without its sign.
pub open spec fn unsigned_part(text: Seq<u8>) -> Seq<u8> {
    if text.len() > 0 && (text[0] == PLUS || text[0] == MINUS) {
        text.subrange(1, text.len() as int)
    } else {
        text
    }
}

/// The digits before the point.
pub open spec fn whole_digits(body: Seq<u8>) -> Seq<u8> {
    body.subrange(0, first_of(body, POINT, 0))
}

/// The digits behind the point.
pub open spec fn fraction_digits(body: Seq<u8>) -> Seq<u8> {
    let dot = first_of(body, POINT, 0);
    if dot < body.len() {
        body.subrange(dot + 1, body.len() as int)
    } else {
        Seq::empty()
    }
}

/// An unsigned number: digits around at most one point, at least one digit.
pub open spec fn well_formed(body: Seq<u8>) -> bool {
    &&& all_digits(whole_digits(body))
    &&& all_digits(fraction_digits(body))
    &&& whole_digits(body).len() + fraction_digits(body).len() >= 1
}

/// The value of an unsigned number, in units.
pub open spec fn magnitude(body: Seq<u8>) -> int {
    prefix_value(whole_digits(body), whole_digits(body).len() as int) * UNITS_PER_ONE
        + prefix_value(fraction_digits(body), FRACTION_DIGITS as int)
}

/// The value of `text` in units, where it is a number whose magnitude fits.
pub open spec fn spec_parse(text: Seq<u8>) -> Option<int> {
    let body = unsigned_part(text);
    if well_formed(body) && magnitude(body) <= i64::MAX {
        if text[0] == MINUS {
            Some(-magnitude(body))
        } else {
            Some(magnitude(body))
        }
    } else {
        None
    }
}

/// The first `n` digits spell a number below ten to the `n`, and one more
/// digit never spells less.
pub proof fn lemma_prefix_value_bounds(s: Seq<u8>, n: int)
    requires
        all_digits(s),
        0 <= n,
    ensures
        0 <= prefix_value(s, n) < pow10(n),
        n > 0 ==> prefix_value(s, n - 1) <= prefix_value(s, n),
    decreases n,
{
    if n > 0 {
        lemma_prefix_value_bounds(s, n - 1);
        if n - 1 < s.len() {
            assert(is_digit(s[n - 1]));
        }
    }
}

/// Whether `s` holds digits only.
fn digits_only(s: &[u8]) -> (r: bool)
    ensures
        r == all_digits(s@),
{
    let mut j: usize = 0;
    while j < s.len()
        invariant
            0 <= j <= s@.len(),
            forall|i: int| 0 <= i < j ==> is_digit(#[trigger] s@[i]),
        decreases s@.len() - j,
    {
        if s[j] < 48 || s[j] > 57 {
            assert(!is_digit(s@[j as int]));
            return false;
        }
        j += 1;
    }
    true
}

/// The number that `s` spells, where it is at most `i64::MAX`.
fn whole_value(s: &[u8]) -> (r: Option<u64>)
    requires
        all_digits(s@),
    ensures
        match r {
            Some(v) => v == prefix_value(s@, s@.len() as int) && v <= i64::MAX,
            None => prefix_value(s@, s@.len() as int) > i64::MAX,
        },
{
    let mut acc: u64 = 0;
    let mut over: bool = false;
    let mut j: usize = 0;
    while j < s.len()
        invariant
            0 <= j <= s@.len(),
            all_digits(s@),
            !over ==> acc == prefix_value(s@, j as int) && acc <= i64::MAX,
            over ==> prefix_value(s@, j as int) > i64::MAX,
        decreases s@.len() - j,
    {
        proof {
            lemma_prefix_value_bounds(s@, j as int + 1);
            assert(is_digit(s@[j as int]));
        }
        if !over {
            let next: u128 = acc as u128 * 10 + (s[j] - 48) as u128;
            if next > 0x7fff_ffff_ffff_ffff {
                over = true;
            } else {
                acc = next as u64;
            }
        }
        j += 1;
    }
    if over {
        None
    } else {
        Some(acc)
    }
}

/// The first six digits of `s`, read as millionths.
fn fraction_value(s: &[u8]) -> (r: u64)
    requires
        all_digits(s@),
    ensures
        r == prefix_value(s@, FRACTION_DIGITS as int),
        r < UNITS_PER_ONE,
{
    let mut acc: u64 = 0;
    let mut j: usize = 0;
    while j < FRACTION_DIGITS
        invariant
            0 <= j <= 6,
            all_digits(s@),
            acc == prefix_value(s@, j as int),
            acc < pow10(j as int),
            pow10(j as int) <= 1_000_000,
        decreases 6 - j,
    {
        proof {
            lemma_prefix_value_bounds(s@, j as int + 1);
            reveal_with_fuel(pow10, 8);
        }
        let d: u64 = if j < s.len() {
            assert(is_digit(s@[j as int]));
            (s[j] - 48) as u64
        } else {
            0
        };
        acc = acc * 10 + d;
        j += 1;
    }
    proof {
        reveal_with_fuel(pow10, 8);
    }
    acc
}

/// Reads `text` as a decimal number.
///
/// Gives the value in units where `text` is a number whose magnitude is at
/// most `i64::MAX` units, and nothing for any other text.
pub fn parse_decimal(text: &[u8]) -> (r: Option<i64>)
    ensures
        match r {
            Some(v) => spec_parse(text@) == Some(v as int),
            None => spec_parse(text@) is None,
        },
{
    let n: usize = text.len();
    let negative: bool = n > 0 && text[0] == MINUS;
    let skip: usize = if n > 0 && (text[0] == PLUS || text[0] == MINUS) {
        1
    } else {
        0
    };
    let body = slice_subrange(text, skip, n);
    assert(body@ == unsigned_part(text@));
    let dot: usize = find_byte(body, POINT, 0);
    let whole = slice_subrange(body, 0, dot);
    let frac = if dot < body.len() {
        slice_subrange(body, dot + 1, body.len())
    } else {
        slice_subrange(body, 0, 0)
    };
    assert(whole@ == whole_digits(body@));
    assert(frac@ == fraction_digits(body@));
    if whole.len() == 0 && frac.len() == 0 {
        return None;
    }
    if !digits_only(whole) || !digits_only(frac) {
        return None;
    }
    let f: u64 = fraction_value(frac);
    match whole_value(whole) {
        None => None,
        Some(w) => {
            assert(UNITS_PER_ONE == 1_000_000 && FRACTION_DIGITS == 6);
            let total: u128 = w as u128 * 1_000_000 + f as u128;
            if total > 0x7fff_ffff_ffff_ffff {
                None
            } else if negative {
                Some(-(total as i64))
            } else {
                Some(total as i64)
            }
        },
    }
}

} // verus!
