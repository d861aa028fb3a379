//! Decimal numerals: the number that a run of digits denotes, and the digits
//! that denote a number.

use crate::chars::{all_digits, is_digit};
use vstd::prelude::*;
use vstd::string::StringExecFns;

verus! {

/// The value of one digit; 0 for any other character.
pub open spec fn digit_value(c: char) -> nat {
    if is_digit(c) {
        (c as int - '0' as int) as nat
    } else {
        0
    }
}

/// The number that the digits of `digits` denote in base 10, the first digit
/// being the most significant. The empty run denotes 0.
pub open spec fn decimal_value(digits: Seq<char>) -> nat
    decreases digits.len(),
{
    if digits.len() == 0 {
        0
    } else {
        10 * decimal_value(digits.drop_last()) + digit_value(digits.last())
    }
}

/// The value of the digit `c`.
pub(crate) fn digit_of(c: char) -> (value: u32)
    requires
        is_digit(c),
    ensures
        value == digit_value(c),
        value <= 9,
{
    c as u32 - '0' as u32
}

/// Appends the digit `c` to a numeral of value `value`, unless the result
/// is more than an `i32` holds.
pub(crate) fn push_digit(value: i32, c: char) -> (extended: Option<i32>)
    requires
        is_digit(c),
        0 <= value,
    ensures
        extended == if 10 * value + digit_value(c) <= i32::MAX {
            Some((10 * value + digit_value(c)) as i32)
        } else {
            None
        },
{
    let wide: i64 = 10 * (value as i64) + digit_of(c) as i64;
    if wide > i32::MAX as i64 {
        None
    } else {
        Some(wide as i32)
    }
}

/// One more digit at the end multiplies a numeral's value by 10 and adds the
/// digit's value.
pub proof fn lemma_decimal_value_push(digits: Seq<char>, c: char)
    ensures
        decimal_value(digits.push(c)) == 10 * decimal_value(digits) + digit_value(c),
{
    assert(digits.push(c).drop_last() =~= digits);
}

/// Every prefix of a numeral denotes at most what the numeral denotes.
pub proof fn lemma_decimal_value_prefix(digits: Seq<char>, n: int)
    requires
        0 <= n <= digits.len(),
    ensures
        decimal_value(digits.take(n)) <= decimal_value(digits),
    decreases digits.len() - n,
{
    if n == digits.len() {
        assert(digits.take(n) =~= digits);
    } else {
        lemma_decimal_value_prefix(digits.drop_last(), n);
        assert(digits.drop_last().take(n) =~= digits.take(n));
    }
}

/// The digit whose value is `d`.
pub open spec fn digit_char(d: nat) -> char
    recommends
        d < 10,
{
    ('0' as nat + d) as char
}

/// The digits that denote `n` in base 10, with no more zeros before them than
/// the one that denotes 0.
pub open spec fn digits_text(n: nat) -> Seq<char>
    decreases n,
{
    if n < 10 {
        seq![digit_char(n)]
    } else {
        digits_text(n / 10).push(digit_char(n % 10))
    }
}

/// The decimal numeral of `n`: its digits, after a `-` where `n` is negative.
pub open spec fn decimal_text(n: int) -> Seq<char> {
    if n < 0 {
        seq!['-'] + digits_text((-n) as nat)
    } else {
        digits_text(n as nat)
    }
}

/// The digits of a number are digits, and they denote the number.
pub proof fn lemma_digits_text_value(n: nat)
    ensures
        digits_text(n).len() > 0,
        all_digits(digits_text(n)),
        decimal_value(digits_text(n)) == n,
    decreases n,
{
    if n < 10 {
        assert(digits_text(n).drop_last() =~= Seq::<char>::empty());
        assert(decimal_value(digits_text(n)) == digit_value(digit_char(n))) by {
            reveal_with_fuel(decimal_value, 2);
        }
    } else {
        lemma_digits_text_value(n / 10);
        lemma_decimal_value_push(digits_text(n / 10), digit_char(n % 10));
    }
}

/// The text of the digit whose value is `d`.
fn digit_str(d: u64) -> (text: &'static str)
    requires
        d < 10,
    ensures
        text@ == seq![digit_char(d as nat)],
{
    proof {
        reveal_strlit("0");
        reveal_strlit("1");
        reveal_strlit("2");
        reveal_strlit("3");
        reveal_strlit("4");
        reveal_strlit("5");
        reveal_strlit("6");
        reveal_strlit("7");
        reveal_strlit("8");
        reveal_strlit("9");
    }
    let text = if d == 0 {
        "0"
    } else if d == 1 {
        "1"
    } else if d == 2 {
        "2"
    } else if d == 3 {
        "3"
    } else if d == 4 {
        "4"
    } else if d == 5 {
        "5"
    } else if d == 6 {
        "6"
    } else if d == 7 {
        "7"
    } else if d == 8 {
        "8"
    } else {
        "9"
    };
    assert(text@ =~= seq![digit_char(d as nat)]);
    text
}

/// Appends the digits of `n` to `out`.
fn push_digits(out: &mut String, n: u64)
    ensures
        final(out)@ == old(out)@ + digits_text(n as nat),
    decreases n,
{
    if n >= 10 {
        push_digits(out, n / 10);
    }
    out.append(digit_str(n % 10));
    proof {
        if n >= 10 {
            assert(old(out)@ + digits_text((n / 10) as nat) + seq![digit_char((n % 10) as nat)]
                =~= old(out)@ + digits_text(n as nat));
        }
    }
}

/// Appends the decimal numeral of `n` to `out`.
pub fn push_decimal(out: &mut String, n: i64)
    ensures
        final(out)@ == old(out)@ + decimal_text(n as int),
{
    if n < 0 {
        out.append("-");
        proof {
            reveal_strlit("-");
            assert("-"@ =~= seq!['-']);
        }
        let magnitude: u64 = (-(n + 1)) as u64 + 1;
        push_digits(out, magnitude);
        proof {
            assert(old(out)@ + seq!['-'] + digits_text(magnitude as nat) =~= old(out)@ + (seq!['-']
                + digits_text((-n) as nat)));
        }
    } else {
        push_digits(out, n as u64);
    }
}

} // verus!
