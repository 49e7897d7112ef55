//! Decimal numbers as text: reading the value of a variable as a 32-bit
//! integer, and writing a total.

use crate::text::{chars_of, digit_char, is_digit};
use vstd::prelude::*;

verus! {

/// The digit character for a value from 0 to 9.
pub open spec fn digit_of(d: int) -> char {
    (d + 48) as u8 as char
}

/// The value of a digit character.
pub open spec fn digit_value(c: char) -> int {
    c as u32 as int - 48
}

/// Every character of `s` is a decimal digit.
pub open spec fn all_digits(s: Seq<char>) -> bool {
    forall|i: int| 0 <= i < s.len() ==> is_digit(#[trigger] s[i])
}

/// The number that a sequence of decimal digits writes.
pub open spec fn decimal_value(digits: Seq<char>) -> int
    decreases digits.len(),
{
    if digits.len() == 0 {
        0
    } else {
        decimal_value(digits.drop_last()) * 10 + digit_value(digits.last())
    }
}

/// What a text is worth as a number: it is an optional sign, `+` or `-`,
/// followed by one or more decimal digits, and the number fits in 32 bits
/// with a sign; any other text is worth 0.
pub open spec fn number_value(s: Seq<char>) -> int {
    let signed = s.len() > 0 && (s[0] == '-' || s[0] == '+');
    let digits = if signed {
        s.skip(1)
    } else {
        s
    };
    let value = if s.len() > 0 && s[0] == '-' {
        -decimal_value(digits)
    } else {
        decimal_value(digits)
    };
    if digits.len() > 0 && all_digits(digits) && i32::MIN <= value <= i32::MAX {
        value
    } else {
        0
    }
}

/// The decimal digits of a natural number, without leading zeros.
pub open spec fn digits_of(n: nat) -> Seq<char>
    decreases n,
{
    if n < 10 {
        seq![digit_of(n as int)]
    } else {
        digits_of(n / 10).push(digit_of((n % 10) as int))
    }
}

/// An integer in decimal, with `-` in front where it is negative.
pub open spec fn decimal(n: int) -> Seq<char> {
    if n < 0 {
        seq!['-'] + digits_of((-n) as nat)
    } else {
        digits_of(n as nat)
    }
}

/// Digits written in front of others never make the number smaller.
pub proof fn lemma_decimal_value_grows(digits: Seq<char>, k: int)
    requires
        all_digits(digits),
        0 <= k <= digits.len(),
    ensures
        0 <= decimal_value(digits.take(k)) <= decimal_value(digits),
    decreases digits.len() - k,
{
    if k == digits.len() {
        assert(digits.take(k) =~= digits);
        lemma_decimal_value_positive(digits);
    } else {
        lemma_decimal_value_grows(digits, k + 1);
        let longer = digits.take(k + 1);
        assert(longer.drop_last() =~= digits.take(k));
        assert(is_digit(digits[k]));
        assert(longer.last() == digits[k]);
        lemma_decimal_value_positive(digits.take(k));
        assert forall|i: int| 0 <= i < digits.take(k).len() implies is_digit(
            #[trigger] digits.take(k)[i],
        ) by {
            assert(digits.take(k)[i] == digits[i]);
        }
    }
}

/// Digits write no negative number.
pub proof fn lemma_decimal_value_positive(digits: Seq<char>)
    requires
        all_digits(digits),
    ensures
        0 <= decimal_value(digits),
    decreases digits.len(),
{
    if digits.len() > 0 {
        let shorter = digits.drop_last();
        assert forall|i: int| 0 <= i < shorter.len() implies is_digit(#[trigger] shorter[i]) by {
            assert(shorter[i] == digits[i]);
        }
        lemma_decimal_value_positive(shorter);
        assert(is_digit(digits[digits.len() - 1]));
    }
}

/// Reads a text as a 32-bit integer; a text that is none is worth 0.
#[verifier::loop_isolation(false)]
pub fn parse_number(s: &str) -> (n: i32)
    ensures
        n == number_value(s@),
{
    let v = chars_of(s);
    let negative = v.len() > 0 && v[0] == '-';
    let start: usize = if v.len() > 0 && (v[0] == '-' || v[0] == '+') {
        1
    } else {
        0
    };
    let ghost digits = v@.skip(start as int);
    assert(start == 0 ==> digits =~= s@);
    if start == v.len() {
        return 0;
    }
    let mut total: i64 = 0;
    let mut i: usize = start;
    assert(digits.take(0) =~= Seq::<char>::empty());
    while i < v.len()
        invariant
            start <= i <= v.len(),
            digits == v@.skip(start as int),
            all_digits(digits.take(i - start)),
            total == decimal_value(digits.take(i - start)),
            0 <= total <= 0x8000_0000,
        decreases v.len() - i,
    {
        let c = v[i];
        let ghost k = i - start;
        assert(digits[k] == c);
        assert(digits.take(k + 1).drop_last() =~= digits.take(k));
        if !digit_char(c) {
            return 0;
        }
        total = total * 10 + (c as u32 - 48) as i64;
        assert forall|j: int| 0 <= j < k + 1 implies is_digit(#[trigger] digits.take(k + 1)[j]) by {
            if j < k {
                assert(digits.take(k)[j] == digits[j]);
            }
        }
        assert(digits.take(k + 1).last() == c);
        assert(total == decimal_value(digits.take(k + 1)));
        i += 1;
        if total > 0x8000_0000 {
            proof {
                if all_digits(digits) {
                    lemma_decimal_value_grows(digits, k + 1);
                }
            }
            return 0;
        }
    }
    assert(digits.take(i - start) =~= digits);
    if negative {
        (-total) as i32
    } else if total <= 0x7fff_ffff {
        total as i32
    } else {
        0
    }
}

/// The digit character for a value from 0 to 9.
fn digit(d: u8) -> (c: char)
    requires
        d < 10,
    ensures
        c == digit_of(d as int),
{
    (d + 48u8) as char
}

/// Appends the decimal digits of `n` to `out`.
fn push_digits(out: &mut String, n: u128)
    ensures
        final(out)@ == old(out)@ + digits_of(n as nat),
    decreases n,
{
    if n >= 10 {
        push_digits(out, n / 10);
    }
    out.push(digit((n % 10) as u8));
    assert(final(out)@ =~= old(out)@ + digits_of(n as nat));
}

/// Writes an integer in decimal.
pub fn decimal_text(n: i128) -> (text: String)
    ensures
        text@ == decimal(n as int),
{
    let mut text = String::new();
    if n < 0 {
        text.push('-');
        let magnitude: u128 = (-(n + 1)) as u128 + 1;
        push_digits(&mut text, magnitude);
        assert(text@ =~= decimal(n as int));
    } else {
        push_digits(&mut text, n as u128);
        assert(text@ =~= decimal(n as int));
    }
    text
}

} // verus!
