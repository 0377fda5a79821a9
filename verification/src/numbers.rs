//! Numbers written in decimal.

use vstd::prelude::*;

verus! {

/// `c` is one of the digits `0` to `9`.
pub open spec fn is_digit(c: char) -> bool {
    '0' <= c <= '9'
}

/// The number that the digit `c` stands for.
pub open spec fn digit_value(c: char) -> nat {
    (c as u32 - '0' as u32) as nat
}

/// The digit that stands for `d`, a number below ten.
pub open spec fn digit_char(d: nat) -> char {
    ((d + '0' as u32) as u32) as char
}

/// Every character is a digit.
pub open spec fn all_digits(text: Seq<char>) -> bool {
    forall|i: int| 0 <= i < text.len() ==> is_digit(#[trigger] text[i])
}

/// The number that a sequence of digits stands for; the empty sequence
/// stands for zero.
pub open spec fn decimal_value(digits: Seq<char>) -> nat
    decreases digits.len(),
{
    if digits.len() == 0 {
        0
    } else {
        decimal_value(digits.drop_last()) * 10 + digit_value(digits.last())
    }
}

/// The text without a plus sign in front of it.
pub open spec fn unsigned_part(text: Seq<char>) -> Seq<char> {
    if text.len() > 0 && text[0] == '+' {
        text.skip(1)
    } else {
        text
    }
}

/// The number that a sequence of digits stands for, if there is at least one
/// digit, there is nothing but digits, and a `usize` holds the value.
pub open spec fn digits_number(digits: Seq<char>) -> Option<usize> {
    if digits.len() > 0 && all_digits(digits) && decimal_value(digits) <= usize::MAX {
        Some(decimal_value(digits) as usize)
    } else {
        None
    }
}

/// The number that `text` stands for: digits, at least one, with or without
/// a plus sign in front, whose value a `usize` holds. Anything else stands for
/// no number.
pub open spec fn parsed_number(text: Seq<char>) -> Option<usize> {
    digits_number(unsigned_part(text))
}

/// The whole number that `text` stands for: digits, at least one, with or
/// without a sign in front, whose value a 32-bit signed number holds.
/// Anything else stands for no number.
pub open spec fn parsed_int32(text: Seq<char>) -> Option<int> {
    let negative = text.len() > 0 && text[0] == '-';
    let digits = if text.len() > 0 && (text[0] == '-' || text[0] == '+') {
        text.skip(1)
    } else {
        text
    };
    let value = if negative {
        -(decimal_value(digits) as int)
    } else {
        decimal_value(digits) as int
    };
    if digits.len() > 0 && all_digits(digits) && -0x8000_0000 <= value <= 0x7fff_ffff {
        Some(value)
    } else {
        None
    }
}

/// The value of a sequence of digits is at least that of any of its
/// beginnings.
pub proof fn lemma_decimal_grows(digits: Seq<char>, n: int)
    requires
        0 <= n <= digits.len(),
    ensures
        decimal_value(digits.take(n)) <= decimal_value(digits),
    decreases digits.len(),
{
    if n < digits.len() {
        let rest = digits.drop_last();
        assert(rest.take(n) =~= digits.take(n));
        lemma_decimal_grows(rest, n);
    } else {
        assert(digits.take(n) =~= digits);
    }
}

/// The number that the digits from `start` on stand for, if they stand for
/// one.
pub fn parse_digits(text: &Vec<char>, start: usize) -> (r: Option<usize>)
    requires
        start <= text.len(),
    ensures
        r == digits_number(text@.skip(start as int)),
{
    let ghost digits = text@.skip(start as int);
    if start == text.len() {
        return None;
    }
    let mut value: usize = 0;
    let mut i: usize = start;
    while i < text.len()
        invariant
            start <= i <= text.len(),
            digits == text@.skip(start as int),
            all_digits(digits.take(i - start)),
            value == decimal_value(digits.take(i - start)),
        decreases text.len() - i,
    {
        let c = text[i];
        let ghost next = digits.take(i - start + 1);
        assert(next.drop_last() =~= digits.take(i - start));
        assert(next.last() == c);
        assert(digits[i - start] == c);
        if !('0' <= c && c <= '9') {
            assert(!is_digit(digits[i - start]));
            return None;
        }
        let d: usize = (c as u32 - '0' as u32) as usize;
        assert(d == digit_value(c));
        assert(decimal_value(next) == value * 10 + d);
        if value > (usize::MAX - d) / 10 {
            proof {
                assert(decimal_value(next) > usize::MAX);
                lemma_decimal_grows(digits, i - start + 1);
            }
            return None;
        }
        value = value * 10 + d;
        i += 1;
        assert forall|j: int| 0 <= j < next.len() implies is_digit(#[trigger] next[j]) by {
            if j < next.len() - 1 {
                assert(digits.take(i - 1 - start)[j] == next[j]);
            }
        }
    }
    assert(digits.take(text.len() - start) =~= digits);
    Some(value)
}

/// The number that the text from `from` on stands for, if it stands for one.
pub fn parse_number(text: &Vec<char>, from: usize) -> (r: Option<usize>)
    requires
        from <= text.len(),
    ensures
        r == parsed_number(text@.skip(from as int)),
{
    let start: usize = if from < text.len() && text[from] == '+' {
        from + 1
    } else {
        from
    };
    assert(unsigned_part(text@.skip(from as int)) =~= text@.skip(start as int));
    parse_digits(text, start)
}

/// The whole number that the text stands for, if it stands for one that a
/// 32-bit signed number holds.
pub fn parse_int32(text: &Vec<char>) -> (r: Option<i64>)
    ensures
        match r {
            Some(n) => parsed_int32(text@) == Some(n as int),
            None => parsed_int32(text@) is None,
        },
{
    let negative = text.len() > 0 && text[0] == '-';
    let start: usize = if text.len() > 0 && (text[0] == '-' || text[0] == '+') {
        1
    } else {
        0
    };
    if start == 0 {
        assert(text@.skip(0) =~= text@);
    }
    match parse_digits(text, start) {
        Some(n) => {
            if negative {
                if n <= 0x8000_0000 {
                    Some(-(n as i64))
                } else {
                    None
                }
            } else {
                if n <= 0x7fff_ffff {
                    Some(n as i64)
                } else {
                    None
                }
            }
        },
        None => {
            proof {
                let digits = text@.skip(start as int);
                if digits.len() > 0 && all_digits(digits) {
                    assert(decimal_value(digits) > usize::MAX);
                    assert(usize::MAX >= 0xffff_ffff);
                }
            }
            None
        },
    }
}

/// The digits of `n` in decimal, without leading zeros; `0` for zero.
pub open spec fn decimal_digits(n: nat) -> Seq<char>
    decreases n,
{
    if n < 10 {
        seq![digit_char(n)]
    } else {
        decimal_digits(n / 10).push(digit_char(n % 10))
    }
}

/// The digits of `n` in decimal.
pub fn digits_of(n: usize) -> (r: Vec<char>)
    ensures
        r@ == decimal_digits(n as nat),
    decreases n,
{
    if n < 10 {
        let c = ((n as u32) + ('0' as u32)) as u8 as char;
        let mut r: Vec<char> = Vec::new();
        r.push(c);
        assert(r@ =~= seq![digit_char(n as nat)]);
        r
    } else {
        let mut r = digits_of(n / 10);
        let d = n % 10;
        let c = ((d as u32) + ('0' as u32)) as u8 as char;
        r.push(c);
        r
    }
}

} // verus!
