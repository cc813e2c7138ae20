//! Integers in decimal notation, with a sign or without.

use vstd::prelude::*;
use vstd::slice::slice_subrange;

use crate::ascii::{MINUS, NINE, PLUS, ZERO};
use crate::decimal::{lemma_digits_grow, lemma_digits_push};
use crate::text::{all_digits, digits_value, is_digit};

verus! {

/// The number that digits behind an optional plus sign stand for.
pub open spec fn unsigned_number(s: Seq<u8>) -> Option<nat> {
    let digits = if s.len() > 0 && s[0] == PLUS {
        s.skip(1)
    } else {
        s
    };
    if digits.len() > 0 && all_digits(digits) {
        Some(digits_value(digits))
    } else {
        None
    }
}

/// The number that digits behind an optional sign stand for.
pub open spec fn signed_number(s: Seq<u8>) -> Option<int> {
    if s.len() > 0 && s[0] == MINUS {
        let digits = s.skip(1);
        if digits.len() > 0 && all_digits(digits) {
            Some(-(digits_value(digits) as int))
        } else {
            None
        }
    } else {
        match unsigned_number(s) {
            Some(n) => Some(n as int),
            None => None,
        }
    }
}

/// The `u64` that some bytes stand for.
pub open spec fn number_u64(s: Seq<u8>) -> Option<u64> {
    match unsigned_number(s) {
        Some(n) => if n <= u64::MAX {
            Some(n as u64)
        } else {
            None
        },
        None => None,
    }
}

/// The `usize` that some bytes stand for.
pub open spec fn number_usize(s: Seq<u8>) -> Option<usize> {
    match unsigned_number(s) {
        Some(n) => if n <= usize::MAX {
            Some(n as usize)
        } else {
            None
        },
        None => None,
    }
}

/// The `i64` that some bytes stand for.
pub open spec fn number_i64(s: Seq<u8>) -> Option<i64> {
    match signed_number(s) {
        Some(n) => if i64::MIN <= n <= i64::MAX {
            Some(n as i64)
        } else {
            None
        },
        None => None,
    }
}

/// Whether every byte is an ASCII digit.
fn only_digits(s: &[u8]) -> (r: bool)
    ensures
        r == all_digits(s@),
{
    let mut i: usize = 0;
    while i < s.len()
        invariant
            i <= s.len(),
            forall|j: int| 0 <= j < i ==> is_digit(#[trigger] s@[j]),
        decreases s.len() - i,
    {
        if !(ZERO <= s[i] && s[i] <= NINE) {
            assert(!is_digit(s@[i as int]));
            return false;
        }
        i += 1;
    }
    true
}

/// The number that digits stand for, unless it is beyond a limit.
fn limited(digits: &[u8], limit: u64) -> (r: Option<u64>)
    requires
        all_digits(digits@),
    ensures
        match r {
            Some(n) => n == digits_value(digits@) && n <= limit,
            None => digits_value(digits@) > limit,
        },
{
    let mut n: u128 = 0;
    let mut i: usize = 0;
    assert(digits@.take(0) =~= Seq::<u8>::empty());
    while i < digits.len()
        invariant
            i <= digits.len(),
            all_digits(digits@),
            n <= limit,
            n == digits_value(digits@.take(i as int)),
        decreases digits.len() - i,
    {
        assert(is_digit(digits@[i as int]));
        proof {
            lemma_digits_push(digits@, i as int);
            lemma_digits_grow(digits@, i + 1);
        }
        n = n * 10 + (digits[i] - ZERO) as u128;
        if n > limit as u128 {
            return None;
        }
        i += 1;
    }
    assert(digits@.take(i as int) =~= digits@);
    Some(n as u64)
}

/// The integer that a sign and digits stand for, if it fits.
pub fn read_integer(minus: bool, digits: &[u8]) -> (r: Option<i64>)
    requires
        all_digits(digits@),
    ensures
        ({
            let n = if minus {
                -(digits_value(digits@) as int)
            } else {
                digits_value(digits@) as int
            };
            match r {
                Some(k) => k == n,
                None => !(i64::MIN <= n <= i64::MAX),
            }
        }),
{
    let limit: u64 = if minus {
        0x8000_0000_0000_0000
    } else {
        0x7fff_ffff_ffff_ffff
    };
    match limited(digits, limit) {
        Some(n) => if !minus {
            Some(n as i64)
        } else if n == 0x8000_0000_0000_0000 {
            Some(i64::MIN)
        } else {
            Some(-(n as i64))
        },
        None => None,
    }
}

/// Reads an `i64`.
pub fn read_i64(s: &[u8]) -> (r: Option<i64>)
    ensures
        r == number_i64(s@),
{
    let minus: bool = s.len() > 0 && s[0] == MINUS;
    let digits = if minus || (s.len() > 0 && s[0] == PLUS) {
        slice_subrange(s, 1, s.len())
    } else {
        s
    };
    assert(s@.len() > 0 ==> s@.subrange(1, s@.len() as int) =~= s@.skip(1));
    if digits.len() == 0 || !only_digits(digits) {
        return None;
    }
    read_integer(minus, digits)
}

/// Reads a `u64`.
pub fn read_u64(s: &[u8]) -> (r: Option<u64>)
    ensures
        r == number_u64(s@),
{
    let digits = if s.len() > 0 && s[0] == PLUS {
        slice_subrange(s, 1, s.len())
    } else {
        s
    };
    assert(s@.len() > 0 ==> s@.subrange(1, s@.len() as int) =~= s@.skip(1));
    if digits.len() == 0 || !only_digits(digits) {
        return None;
    }
    limited(digits, u64::MAX)
}

/// Reads a `usize`.
pub fn read_usize(s: &[u8]) -> (r: Option<usize>)
    ensures
        r == number_usize(s@),
{
    match read_u64(s) {
        Some(n) => if n <= usize::MAX as u64 {
            Some(n as usize)
        } else {
            None
        },
        None => None,
    }
}

} // verus!
