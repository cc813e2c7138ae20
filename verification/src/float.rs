//! Reading binary numbers in decimal notation, as in a command line option.

use vstd::prelude::*;
use vstd::slice::slice_subrange;

use crate::ascii::{
    DOT, LOWER_A, LOWER_E, LOWER_F, LOWER_I, LOWER_N, LOWER_T, LOWER_Y, MINUS, PLUS, UPPER_A,
    UPPER_E, UPPER_Z,
};
use crate::binary64::{signed, Binary64, INFINITE};
use crate::decimal::{decimal_magnitude, exponent_value, read_decimal};
use crate::grammar::{after_digits, at, lemma_after_digits};
use crate::parser::{byte_is, skip_digits};
use crate::text::{digits_value, is_digit};

verus! {

/// The bits of a pattern that stands for no number.
pub const NOT_A_NUMBER: u64 = 0x7FF8_0000_0000_0000;

/// A byte, as a small letter if it is a capital one.
pub open spec fn small(b: u8) -> u8 {
    if UPPER_A <= b <= UPPER_Z {
        (b - UPPER_A + LOWER_A) as u8
    } else {
        b
    }
}

/// Whether bytes spell a word, in whatever case.
pub open spec fn spells(s: Seq<u8>, word: Seq<u8>) -> bool {
    s.len() == word.len() && forall|i: int| 0 <= i < s.len() ==> small(#[trigger] s[i]) == word[i]
}

/// The bytes of `inf`.
pub open spec fn inf_word() -> Seq<u8> {
    seq![LOWER_I, LOWER_N, LOWER_F]
}

/// The bytes of `infinity`.
pub open spec fn infinity_word() -> Seq<u8> {
    seq![LOWER_I, LOWER_N, LOWER_F, LOWER_I, LOWER_N, LOWER_I, LOWER_T, LOWER_Y]
}

/// The bytes of `nan`.
pub open spec fn nan_word() -> Seq<u8> {
    seq![LOWER_N, LOWER_A, LOWER_N]
}

/// The magnitude that digits, with a point and an exponent or without, stand
/// for. There are digits before the point or behind it, and behind the letter
/// of the exponent.
pub open spec fn plain_number(b: Seq<u8>) -> Option<nat> {
    let whole = after_digits(b, 0);
    let point = at(b, whole, DOT);
    let from = if point {
        whole + 1
    } else {
        whole
    };
    let end = if point {
        after_digits(b, from)
    } else {
        whole
    };
    let digits = b.subrange(0, whole) + b.subrange(from, end);
    let low = at(b, end + 1, MINUS);
    let power = if low || at(b, end + 1, PLUS) {
        end + 2
    } else {
        end + 1
    };
    if digits.len() == 0 {
        None
    } else if end == b.len() {
        Some(decimal_magnitude(digits_value(digits), -(end - from)))
    } else if (b[end] == LOWER_E || b[end] == UPPER_E) && power < b.len() && after_digits(b, power)
        == b.len() {
        Some(
            decimal_magnitude(
                digits_value(digits),
                exponent_value(low, b.subrange(power, b.len() as int)) - (end - from),
            ),
        )
    } else {
        None
    }
}

/// The magnitude that bytes without a sign stand for.
pub open spec fn unsigned_float(b: Seq<u8>) -> Option<nat> {
    if spells(b, inf_word()) || spells(b, infinity_word()) {
        Some(INFINITE as nat)
    } else if spells(b, nan_word()) {
        Some(NOT_A_NUMBER as nat)
    } else {
        plain_number(b)
    }
}

/// The bits of the binary number that bytes stand for: a sign or none, and a
/// decimal number or one of the words `inf`, `infinity` and `nan`.
pub open spec fn float_number(s: Seq<u8>) -> Option<u64> {
    let minus = at(s, 0, MINUS);
    let body = if minus || at(s, 0, PLUS) {
        s.skip(1)
    } else {
        s
    };
    match unsigned_float(body) {
        Some(m) => Some(signed(minus, m)),
        None => None,
    }
}

fn reads(s: &[u8], word: &[u8]) -> (r: bool)
    ensures
        r == spells(s@, word@),
{
    if s.len() != word.len() {
        return false;
    }
    let mut i: usize = 0;
    while i < s.len()
        invariant
            i <= s@.len(),
            s@.len() == word@.len(),
            forall|j: int| 0 <= j < i ==> small(#[trigger] s@[j]) == word@[j],
        decreases s@.len() - i,
    {
        let b: u8 = s[i];
        let c: u8 = if UPPER_A <= b && b <= UPPER_Z {
            b - UPPER_A + LOWER_A
        } else {
            b
        };
        if c != word[i] {
            assert(small(s@[i as int]) != word@[i as int]);
            return false;
        }
        i += 1;
    }
    true
}

fn read_plain(b: &[u8]) -> (r: Option<u64>)
    ensures
        match r {
            Some(m) => plain_number(b@) == Some(m as nat) && m <= INFINITE,
            None => plain_number(b@) is None,
        },
{
    let whole: usize = skip_digits(b, 0);
    let point: bool = byte_is(b, whole, DOT);
    let from: usize = if point {
        whole + 1
    } else {
        whole
    };
    let end: usize = if point {
        skip_digits(b, from)
    } else {
        whole
    };
    proof {
        lemma_after_digits(b@, 0);
        lemma_after_digits(b@, from as int);
    }
    let before = slice_subrange(b, 0, whole);
    let behind = slice_subrange(b, from, end);
    if before.len() == 0 && behind.len() == 0 {
        assert(before@ + behind@ =~= Seq::<u8>::empty());
        return None;
    }
    assert((before@ + behind@).len() > 0);
    proof {
        assert forall|i: int| 0 <= i < before@.len() implies is_digit(#[trigger] before@[i]) by {
            assert(is_digit(b@[i]));
        }
        assert forall|i: int| 0 <= i < behind@.len() implies is_digit(#[trigger] behind@[i]) by {
            assert(is_digit(b@[from + i]));
        }
    }
    if end == b.len() {
        let nothing = slice_subrange(b, end, end);
        assert(nothing@ =~= Seq::<u8>::empty());
        return Some(read_decimal(before, behind, false, nothing));
    }
    if !(b[end] == LOWER_E || b[end] == UPPER_E) {
        return None;
    }
    let low: bool = byte_is(b, end + 1, MINUS);
    let power: usize = if low || byte_is(b, end + 1, PLUS) {
        end + 2
    } else {
        end + 1
    };
    if power >= b.len() || skip_digits(b, power) != b.len() {
        return None;
    }
    let exponent = slice_subrange(b, power, b.len());
    proof {
        lemma_after_digits(b@, power as int);
        assert forall|i: int| 0 <= i < exponent@.len() implies is_digit(#[trigger] exponent@[i]) by {
            assert(is_digit(b@[power + i]));
        }
    }
    Some(read_decimal(before, behind, low, exponent))
}

/// Reads a binary number.
pub fn read_f64(s: &[u8]) -> (r: Option<Binary64>)
    ensures
        match r {
            Some(x) => float_number(s@) == Some(x@),
            None => float_number(s@) is None,
        },
{
    let minus: bool = byte_is(s, 0, MINUS);
    let body = if minus || byte_is(s, 0, PLUS) {
        slice_subrange(s, 1, s.len())
    } else {
        s
    };
    assert(s@.len() > 0 ==> s@.subrange(1, s@.len() as int) =~= s@.skip(1));
    let inf: [u8; 3] = [LOWER_I, LOWER_N, LOWER_F];
    let infinity: [u8; 8] = [
        LOWER_I,
        LOWER_N,
        LOWER_F,
        LOWER_I,
        LOWER_N,
        LOWER_I,
        LOWER_T,
        LOWER_Y,
    ];
    let nan: [u8; 3] = [LOWER_N, LOWER_A, LOWER_N];
    proof {
        assert(inf@ =~= inf_word());
        assert(infinity@ =~= infinity_word());
        assert(nan@ =~= nan_word());
    }
    if reads(body, inf.as_slice()) || reads(body, infinity.as_slice()) {
        return Some(Binary64::with_sign(minus, INFINITE));
    }
    if reads(body, nan.as_slice()) {
        return Some(Binary64::with_sign(minus, NOT_A_NUMBER));
    }
    match read_plain(body) {
        Some(m) => Some(Binary64::with_sign(minus, m)),
        None => None,
    }
}

} // verus!
