//! Numbers spelled in decimal digits.

use vstd::prelude::*;

use crate::chars::{chars_of, push_decimal, push_text, text_of_decimal};
use crate::geometry::POINT;
use crate::types::WHOLE;

verus! {

/// The value of a decimal digit.
pub open spec fn digit_value(c: char) -> Option<nat> {
    if '0' <= c <= '9' {
        Some((c as int - '0' as int) as nat)
    } else {
        None
    }
}

/// The value of the first `n` characters as a decimal number.
pub open spec fn decimal_value(s: Seq<char>, n: int) -> Option<nat>
    decreases n,
{
    if n <= 0 {
        Some(0)
    } else {
        match (decimal_value(s, n - 1), digit_value(s[n - 1])) {
            (Some(v), Some(d)) => Some(10 * v + d),
            _ => None,
        }
    }
}

/// The number of 32 bits that a text spells: digits, with or without a plus sign.
pub open spec fn spelled_number(s: Seq<char>) -> Option<nat> {
    let start = if s.len() > 0 && s[0] == '+' {
        1int
    } else {
        0
    };
    let digits = s.skip(start);
    match decimal_value(digits, digits.len() as int) {
        Some(v) => if digits.len() > 0 && v <= u32::MAX {
            Some(v)
        } else {
            None
        },
        None => None,
    }
}

/// A number that is too large, or none, stays so with every further digit.
proof fn lemma_too_large(s: Seq<char>, k: int, n: int)
    requires
        0 <= k <= n,
        decimal_value(s, k) matches Some(v) ==> v > u32::MAX,
    ensures
        decimal_value(s, n) matches Some(v) ==> v > u32::MAX,
    decreases n - k,
{
    if k < n {
        lemma_too_large(s, k, n - 1);
    }
}

/// The number of 32 bits that a text spells.
pub fn read_number(text: &str) -> (number: Option<u32>)
    ensures
        match number {
            None => spelled_number(text@) is None,
            Some(v) => spelled_number(text@) == Some(v as nat),
        },
{
    let all: Vec<char> = chars_of(text);
    let n: usize = all.len();
    let start: usize = if n > 0 && all[0] == '+' {
        1
    } else {
        0
    };
    let ghost digits = all@.skip(start as int);
    if start >= n {
        return None;
    }
    let mut value: u32 = 0;
    let mut i: usize = start;
    while i < n
        invariant
            n == all@.len(),
            start <= i <= n,
            start < n,
            digits == all@.skip(start as int),
            start == (if all@.len() > 0 && all@[0] == '+' {
                1int
            } else {
                0
            }),
            all@ == text@,
            decimal_value(digits, i - start) == Some(value as nat),
        decreases n - i,
    {
        let c: char = all[i];
        assert(digits[i - start] == c);
        if c < '0' || c > '9' {
            proof {
                lemma_too_large(digits, i - start + 1, n - start);
            }
            return None;
        }
        let next: u64 = 10 * (value as u64) + (c as u64 - '0' as u64);
        assert(decimal_value(digits, i - start + 1) == Some(next as nat));
        if next > u32::MAX as u64 {
            proof {
                lemma_too_large(digits, i - start + 1, n - start);
            }
            return None;
        }
        value = next as u32;
        i = i + 1;
    }
    Some(value)
}

/// The first `n` digits of a number of six digits.
pub open spec fn leading_digits(value: nat, n: nat) -> Seq<char>
    decreases n,
{
    if n == 0 {
        Seq::empty()
    } else {
        leading_digits(value / 10, (n - 1) as nat).push(crate::chars::digit(value % 10))
    }
}

/// A share in millionths as a decimal fraction without needless zeros.
pub open spec fn fraction_digits(value: nat, n: nat) -> Seq<char>
    decreases n,
{
    if n == 0 {
        Seq::empty()
    } else if value % 10 == 0 {
        fraction_digits(value / 10, (n - 1) as nat)
    } else {
        "."@ + leading_digits(value, n)
    }
}

/// A share in millionths as it is written.
pub open spec fn share_text(share: nat) -> Seq<char> {
    text_of_decimal(share / WHOLE as nat) + fraction_digits(share % WHOLE as nat, 6)
}

/// A share in millionths with all six digits behind the point.
pub open spec fn fixed_text(share: nat) -> Seq<char> {
    text_of_decimal(share / WHOLE as nat) + "."@ + leading_digits(share % WHOLE as nat, 6)
}

/// Appends the first `n` digits of a number.
fn push_digits(text: &mut String, value: u32, n: u8)
    ensures
        final(text)@ == old(text)@ + leading_digits(value as nat, n as nat),
    decreases n,
{
    let ghost before = text@;
    if n > 0 {
        push_digits(text, value / 10, n - 1);
        let ghost head = text@;
        push_decimal(text, (value % 10) as u64);
        proof {
            let d = (value % 10) as nat;
            assert(text_of_decimal(d) == seq![crate::chars::digit(d)]);
            assert(text@ =~= head.push(crate::chars::digit(d)));
        }
    }
    assert(text@ =~= before + leading_digits(value as nat, n as nat));
}

/// Appends the digits behind the point, without needless zeros.
fn push_fraction(text: &mut String, value: u32, n: u8)
    ensures
        final(text)@ == old(text)@ + fraction_digits(value as nat, n as nat),
    decreases n,
{
    let ghost before = text@;
    if n > 0 {
        if value % 10 == 0 {
            push_fraction(text, value / 10, n - 1);
        } else {
            push_text(text, ".");
            push_digits(text, value, n);
            assert(text@ =~= before + ("."@ + leading_digits(value as nat, n as nat)));
        }
    } else {
        assert(text@ =~= before + fraction_digits(value as nat, n as nat));
    }
}

/// Appends a share in millionths.
pub fn push_share(text: &mut String, share: u32)
    ensures
        final(text)@ == old(text)@ + share_text(share as nat),
{
    let ghost before = text@;
    push_decimal(text, (share / WHOLE) as u64);
    push_fraction(text, share % WHOLE, 6);
    assert(text@ =~= before + share_text(share as nat));
}

/// A length in ten-thousandths of a point, in points.
pub open spec fn points_text(length: int) -> Seq<char> {
    let size = if length < 0 {
        (-length) as nat
    } else {
        length as nat
    };
    (if length < 0 {
        "-"@
    } else {
        Seq::empty()
    }) + text_of_decimal(size / POINT as nat) + fraction_digits(size % POINT as nat, 4)
}

/// Appends a length in points.
pub fn push_points(text: &mut String, length: i32)
    ensures
        final(text)@ == old(text)@ + points_text(length as int),
{
    let ghost before = text@;
    let size: u32 = if length < 0 {
        push_text(text, "-");
        (-(length as i64)) as u32
    } else {
        length as u32
    };
    push_decimal(text, (size / POINT as u32) as u64);
    push_fraction(text, size % POINT as u32, 4);
    assert(text@ =~= before + points_text(length as int));
}

/// Appends a share in millionths with all six digits behind the point.
pub fn push_fixed(text: &mut String, share: u32)
    ensures
        final(text)@ == old(text)@ + fixed_text(share as nat),
{
    let ghost before = text@;
    push_decimal(text, (share / WHOLE) as u64);
    push_text(text, ".");
    push_digits(text, share % WHOLE, 6);
    assert(text@ =~= before + fixed_text(share as nat));
}

} // verus!
