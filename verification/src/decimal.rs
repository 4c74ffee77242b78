//! Decimal integers as they stand in a record: an optional sign and then
//! digits, nothing else.

use vstd::prelude::*;

verus! {

pub const ASCII_ZERO: u8 = 0x30;

pub const ASCII_NINE: u8 = 0x39;

pub const ASCII_PLUS: u8 = 0x2b;

pub const ASCII_MINUS: u8 = 0x2d;

pub open spec fn is_digit(byte: u8) -> bool {
    ASCII_ZERO <= byte <= ASCII_NINE
}

pub open spec fn all_digits(text: Seq<u8>) -> bool {
    forall|i: int| 0 <= i < text.len() ==> is_digit(#[trigger] text[i])
}

/// The number that a run of digits writes, most significant digit first.
pub open spec fn digits_value(text: Seq<u8>) -> int
    decreases text.len(),
{
    if text.len() == 0 {
        0
    } else {
        digits_value(text.drop_last()) * 10 + (text.last() - ASCII_ZERO)
    }
}

/// The text begins with a sign that is read as one: `+` always, `-` only
/// where negative numbers are allowed.
pub open spec fn has_sign(text: Seq<u8>, signed: bool) -> bool {
    text.len() > 0 && (text[0] == ASCII_PLUS || (signed && text[0] == ASCII_MINUS))
}

/// The integer that `text` writes, if it writes one: an optional sign, then
/// at least one digit, then nothing more. Without `signed`, a leading `-`
/// is no number.
pub open spec fn decimal_value(text: Seq<u8>, signed: bool) -> Option<int> {
    let digits = if has_sign(text, signed) { text.skip(1) } else { text };
    if digits.len() > 0 && all_digits(digits) {
        if has_sign(text, signed) && text[0] == ASCII_MINUS {
            Some(-digits_value(digits))
        } else {
            Some(digits_value(digits))
        }
    } else {
        None
    }
}

/// What `parse_decimal` returns: the integer written, where it fits `i32`.
pub open spec fn decimal_i32(text: Seq<u8>, signed: bool) -> Option<i32> {
    match decimal_value(text, signed) {
        Some(value) => if i32::MIN <= value <= i32::MAX {
            Some(value as i32)
        } else {
            None
        },
        None => None,
    }
}

/// A run of digits writes no negative number, and one more digit at its end
/// does not make the number smaller.
pub proof fn lemma_digits_value_grows(text: Seq<u8>)
    requires
        all_digits(text),
    ensures
        0 <= digits_value(text),
        text.len() > 0 ==> digits_value(text.drop_last()) <= digits_value(text),
    decreases text.len(),
{
    if text.len() > 0 {
        assert(all_digits(text.drop_last())) by {
            assert forall|i: int| 0 <= i < text.drop_last().len() implies is_digit(
                #[trigger] text.drop_last()[i],
            ) by {
                assert(text.drop_last()[i] == text[i]);
            }
        }
        lemma_digits_value_grows(text.drop_last());
        assert(is_digit(text[text.len() - 1]));
    }
}

/// Reads a decimal integer. The result is `None` where `text` is not a
/// number as `decimal_value` has it, and where the number is outside `i32`.
pub fn parse_decimal(text: &[u8], signed: bool) -> (number: Option<i32>)
    ensures
        number == decimal_i32(text@, signed),
        !signed && number is Some ==> number->Some_0 >= 0,
{
    let length: usize = text.len();
    if length == 0 {
        return None;
    }
    let first: u8 = text[0];
    let negative: bool = signed && first == ASCII_MINUS;
    let start: usize = if first == ASCII_PLUS || negative { 1 } else { 0 };
    if start == length {
        return None;
    }
    let ghost digits: Seq<u8> = if has_sign(text@, signed) { text@.skip(1) } else { text@ };
    assert(digits =~= text@.subrange(start as int, length as int));
    let limit: i64 = 0x8000_0000;
    let mut magnitude: i64 = 0;
    let mut too_large: bool = false;
    let mut i: usize = start;
    while i < length
        invariant
            start <= i <= length,
            length == text@.len(),
            limit == 0x8000_0000,
            digits == text@.subrange(start as int, length as int),
            digits == (if has_sign(text@, signed) { text@.skip(1) } else { text@ }),
            all_digits(digits.take(i - start)),
            0 <= magnitude <= limit,
            !too_large ==> magnitude == digits_value(digits.take(i - start)),
            too_large ==> digits_value(digits.take(i - start)) > limit,
        decreases length - i,
    {
        let byte: u8 = text[i];
        let ghost before: Seq<u8> = digits.take(i - start);
        let ghost after: Seq<u8> = digits.take(i - start + 1);
        assert(after.drop_last() =~= before);
        assert(after.last() == byte);
        if byte < ASCII_ZERO || byte > ASCII_NINE {
            assert(!is_digit(digits[i - start]));
            return None;
        }
        assert(all_digits(after)) by {
            assert forall|k: int| 0 <= k < after.len() implies is_digit(#[trigger] after[k]) by {
                if k < before.len() {
                    assert(after[k] == before[k]);
                }
            }
        }
        proof {
            lemma_digits_value_grows(after);
        }
        if !too_large {
            let next: i64 = magnitude * 10 + (byte - ASCII_ZERO) as i64;
            if next > limit {
                too_large = true;
            } else {
                magnitude = next;
            }
        }
        i = i + 1;
    }
    assert(digits.take(length - start) =~= digits);
    proof {
        lemma_digits_value_grows(digits);
    }
    if too_large {
        None
    } else if negative {
        Some((-magnitude) as i32)
    } else if magnitude == limit {
        None
    } else {
        Some(magnitude as i32)
    }
}

} // verus!
