//! The grammar of JSON documents, over their UTF-8 bytes.
//!
//! Every function here takes the bytes of a document and an offset, and gives
//! what stands there together with the offset behind it, or the first error
//! together with the offset at which it is reported.

use vstd::prelude::*;
use vstd::utf8::*;

use crate::ascii::{
    BACKSLASH, CLOSE_BRACE, CLOSE_BRACKET, COLON, COMMA, DOT, LOWER_A, LOWER_B, LOWER_E, LOWER_F,
    LOWER_L, LOWER_N, LOWER_R, LOWER_S, LOWER_T, LOWER_U, MINUS, NEWLINE, NINE, OPEN_BRACE,
    OPEN_BRACKET, PLUS, QUOTE, RETURN, SLASH, SPACE, TAB, UPPER_A, UPPER_E, UPPER_F, ZERO,
};
use crate::binary64::{signed, INFINITE};
use crate::decimal::{decimal_magnitude, exponent_value};
use crate::json::{ErrorKind, Json, MAX_DEPTH};
use crate::text::{digits_value, is_digit};

verus! {

/// What stands at an offset and where it ends, or the error.
pub type Outcome<T> = Result<(T, int), (int, ErrorKind)>;

/// Whether a byte is JSON whitespace.
pub open spec fn is_space(b: u8) -> bool {
    b == SPACE || b == TAB || b == NEWLINE || b == RETURN
}

/// The end of the whitespace at an offset.
pub open spec fn after_space(b: Seq<u8>, i: int) -> int
    decreases b.len() - i,
{
    if 0 <= i < b.len() && is_space(b[i]) {
        after_space(b, i + 1)
    } else {
        i
    }
}

/// The end of the digits at an offset.
pub open spec fn after_digits(b: Seq<u8>, i: int) -> int
    decreases b.len() - i,
{
    if 0 <= i < b.len() && is_digit(b[i]) {
        after_digits(b, i + 1)
    } else {
        i
    }
}

/// Whether the byte at an offset is the given one.
pub open spec fn at(b: Seq<u8>, i: int, byte: u8) -> bool {
    i < b.len() && b[i] == byte
}

pub proof fn lemma_after_space(b: Seq<u8>, i: int)
    requires
        0 <= i,
    ensures
        i <= after_space(b, i),
        i <= b.len() ==> after_space(b, i) <= b.len(),
        i > b.len() ==> after_space(b, i) == i,
        after_space(b, i) < b.len() ==> !is_space(b[after_space(b, i)]),
        forall|j: int| i <= j < after_space(b, i) ==> is_space(b[j]),
    decreases b.len() - i,
{
    if i < b.len() && is_space(b[i]) {
        lemma_after_space(b, i + 1);
    }
}

pub proof fn lemma_after_digits(b: Seq<u8>, i: int)
    requires
        0 <= i,
    ensures
        i <= after_digits(b, i),
        i <= b.len() ==> after_digits(b, i) <= b.len(),
        after_digits(b, i) < b.len() ==> !is_digit(b[after_digits(b, i)]),
        forall|j: int| i <= j < after_digits(b, i) ==> is_digit(b[j]),
    decreases b.len() - i,
{
    if i < b.len() && is_digit(b[i]) {
        lemma_after_digits(b, i + 1);
    }
}

/// The literal `word` at an offset.
pub open spec fn literal(b: Seq<u8>, i: int, word: Seq<u8>, value: Json) -> Outcome<Json> {
    if i + word.len() <= b.len() && b.subrange(i, i + word.len()) == word {
        Ok((value, i + word.len()))
    } else {
        Err((i, ErrorKind::InvalidLiteral))
    }
}

/// The bytes of `true`.
pub open spec fn true_word() -> Seq<u8> {
    seq![LOWER_T, LOWER_R, LOWER_U, LOWER_E]
}

/// The bytes of `false`.
pub open spec fn false_word() -> Seq<u8> {
    seq![LOWER_F, LOWER_A, LOWER_L, LOWER_S, LOWER_E]
}

/// The bytes of `null`.
pub open spec fn null_word() -> Seq<u8> {
    seq![LOWER_N, LOWER_U, LOWER_L, LOWER_L]
}

/// The number that the parts of a number literal stand for; nothing if it is
/// beyond every finite number.
#[verifier::opaque]
pub open spec fn number_value(
    minus: bool,
    whole: Seq<u8>,
    part: Seq<u8>,
    small: bool,
    exponent: Seq<u8>,
    integral: bool,
) -> Option<Json> {
    let n = if minus {
        -(digits_value(whole) as int)
    } else {
        digits_value(whole) as int
    };
    let m = decimal_magnitude(
        digits_value(whole + part),
        exponent_value(small, exponent) - part.len(),
    );
    if integral && i64::MIN <= n <= i64::MAX {
        Some(Json::Int(n as i64))
    } else if m < INFINITE {
        Some(Json::Float(signed(minus, m)))
    } else {
        None
    }
}

/// The number at an offset.
pub open spec fn number(b: Seq<u8>, start: int) -> Outcome<Json> {
    let minus = at(b, start, MINUS);
    let s = if minus {
        start + 1
    } else {
        start
    };
    if s >= b.len() {
        Err((s, ErrorKind::UnexpectedEof))
    } else if !is_digit(b[s]) {
        Err((start, ErrorKind::InvalidNumber))
    } else {
        let whole_end = if b[s] == ZERO {
            s + 1
        } else {
            after_digits(b, s)
        };
        let point = at(b, whole_end, DOT);
        let part_end = if point {
            after_digits(b, whole_end + 1)
        } else {
            whole_end
        };
        let power = at(b, part_end, LOWER_E) || at(b, part_end, UPPER_E);
        let small = at(b, part_end + 1, MINUS);
        let exponent = if power {
            if small || at(b, part_end + 1, PLUS) {
                part_end + 2
            } else {
                part_end + 1
            }
        } else {
            part_end
        };
        let end = if power {
            after_digits(b, exponent)
        } else {
            part_end
        };
        if point && part_end == whole_end + 1 {
            Err((part_end, ErrorKind::InvalidNumber))
        } else if power && end == exponent {
            Err((end, ErrorKind::InvalidNumber))
        } else {
            let value = number_value(
                minus,
                b.subrange(s, whole_end),
                if point {
                    b.subrange(whole_end + 1, part_end)
                } else {
                    Seq::empty()
                },
                power && small,
                b.subrange(exponent, end),
                !point && !power,
            );
            match value {
                Some(v) => Ok((v, end)),
                None => Err((start, ErrorKind::NumberOutOfRange)),
            }
        }
    }
}

/// The value of a hexadecimal digit.
pub open spec fn hex_digit(b: u8) -> Option<nat> {
    if ZERO <= b <= NINE {
        Some((b - ZERO) as nat)
    } else if LOWER_A <= b <= LOWER_F {
        Some((b - LOWER_A + 10) as nat)
    } else if UPPER_A <= b <= UPPER_F {
        Some((b - UPPER_A + 10) as nat)
    } else {
        None
    }
}

/// How many hexadecimal digits stand at an offset, `limit` at most.
pub open spec fn hex_run(b: Seq<u8>, i: int, limit: nat) -> nat
    decreases limit,
{
    if limit > 0 && hex_digit(b[i]) is Some {
        1 + hex_run(b, i + 1, (limit - 1) as nat)
    } else {
        0
    }
}

/// The number that four hexadecimal digits stand for.
pub open spec fn hex_value(b: Seq<u8>, i: int) -> nat {
    hex_digit(b[i])->0 * 4096 + hex_digit(b[i + 1])->0 * 256 + hex_digit(b[i + 2])->0 * 16
        + hex_digit(b[i + 3])->0
}

/// The four hexadecimal digits at an offset.
pub open spec fn hex4(b: Seq<u8>, i: int) -> Outcome<nat> {
    if i + 4 > b.len() {
        Err((b.len() as int, ErrorKind::UnexpectedEof))
    } else if hex_run(b, i, 4) < 4 {
        Err((i + hex_run(b, i, 4), ErrorKind::InvalidUnicodeEscape))
    } else {
        Ok((hex_value(b, i), i + 4))
    }
}

/// Whether a code unit is the first half of a surrogate pair.
pub open spec fn high_surrogate(unit: nat) -> bool {
    0xD800 <= unit <= 0xDBFF
}

/// Whether a code unit is the second half of a surrogate pair.
pub open spec fn low_surrogate(unit: nat) -> bool {
    0xDC00 <= unit <= 0xDFFF
}

/// The character behind `\u`, whose backslash stands at `start`.
pub open spec fn unicode_escape(b: Seq<u8>, start: int) -> Outcome<char> {
    match hex4(b, start + 2) {
        Err(e) => Err(e),
        Ok((unit, i)) => if high_surrogate(unit) {
            if !at(b, i, BACKSLASH) || !at(b, i + 1, LOWER_U) {
                Err((start, ErrorKind::UnpairedSurrogate))
            } else {
                match hex4(b, i + 2) {
                    Err(e) => Err(e),
                    Ok((low, j)) => if low_surrogate(low) {
                        Ok((
                            (0x1_0000 + (unit - 0xD800) * 0x400 + (low - 0xDC00)) as u32 as char,
                            j,
                        ))
                    } else {
                        Err((start, ErrorKind::UnpairedSurrogate))
                    },
                }
            }
        } else if low_surrogate(unit) {
            Err((start, ErrorKind::UnpairedSurrogate))
        } else {
            Ok((unit as u32 as char, i))
        },
    }
}

/// The character that a one-letter escape stands for.
pub open spec fn short_escape(b: u8) -> Option<char> {
    if b == QUOTE {
        Some('"')
    } else if b == BACKSLASH {
        Some('\\')
    } else if b == SLASH {
        Some('/')
    } else if b == LOWER_B {
        Some('\u{8}')
    } else if b == LOWER_F {
        Some('\u{c}')
    } else if b == LOWER_N {
        Some('\n')
    } else if b == LOWER_R {
        Some('\r')
    } else if b == LOWER_T {
        Some('\t')
    } else {
        None
    }
}

/// The escape sequence whose backslash stands at `start`.
pub open spec fn escape(b: Seq<u8>, start: int) -> Outcome<char> {
    let i = start + 1;
    if i >= b.len() {
        Err((i, ErrorKind::UnexpectedEof))
    } else if b[i] == LOWER_U {
        unicode_escape(b, start)
    } else {
        match short_escape(b[i]) {
            Some(c) => Ok((c, i + 1)),
            None => Err((start, ErrorKind::InvalidEscape(b[i]))),
        }
    }
}

/// Puts bytes before those of an outcome.
pub open spec fn prefixed(head: Seq<u8>, rest: Outcome<Seq<u8>>) -> Outcome<Seq<u8>> {
    match rest {
        Ok((tail, end)) => Ok((head + tail, end)),
        Err(e) => Err(e),
    }
}

/// The bytes of a string up to its closing quote, escapes decoded.
pub open spec fn string_bytes(b: Seq<u8>, i: int) -> Outcome<Seq<u8>>
    decreases b.len() - i,
{
    if i < 0 || i >= b.len() {
        Err((i, ErrorKind::UnexpectedEof))
    } else if b[i] == QUOTE {
        Ok((Seq::empty(), i + 1))
    } else if b[i] == BACKSLASH {
        match escape(b, i) {
            Err(e) => Err(e),
            Ok((c, j)) => prefixed(encode_utf8(seq![c]), string_bytes(b, j)),
        }
    } else if b[i] < SPACE {
        Err((i, ErrorKind::ControlCharacter(b[i])))
    } else {
        prefixed(seq![b[i]], string_bytes(b, i + 1))
    }
}

/// The string whose opening quote stands at an offset.
pub open spec fn string(b: Seq<u8>, i: int) -> Outcome<Seq<char>> {
    match string_bytes(b, i + 1) {
        Ok((bytes, end)) => Ok((decode_utf8(bytes), end)),
        Err(e) => Err(e),
    }
}

/// The value at an offset, inside `depth` arrays and objects.
pub open spec fn value(b: Seq<u8>, i: int, depth: nat) -> Outcome<Json>
    decreases b.len() - i, 1nat,
{
    if i < 0 || i >= b.len() {
        Err((i, ErrorKind::UnexpectedEof))
    } else if b[i] == OPEN_BRACE {
        object(b, i, depth)
    } else if b[i] == OPEN_BRACKET {
        array(b, i, depth)
    } else if b[i] == QUOTE {
        match string(b, i) {
            Ok((text, end)) => Ok((Json::Str(text), end)),
            Err(e) => Err(e),
        }
    } else if b[i] == LOWER_T {
        literal(b, i, true_word(), Json::Bool(true))
    } else if b[i] == LOWER_F {
        literal(b, i, false_word(), Json::Bool(false))
    } else if b[i] == LOWER_N {
        literal(b, i, null_word(), Json::Null)
    } else if b[i] == MINUS || is_digit(b[i]) {
        number(b, i)
    } else if b[i] == DOT && i + 1 < b.len() && is_digit(b[i + 1]) {
        Err((i, ErrorKind::InvalidNumber))
    } else {
        Err((i, ErrorKind::UnexpectedByte(b[i])))
    }
}

/// The array whose opening bracket stands at an offset.
pub open spec fn array(b: Seq<u8>, i: int, depth: nat) -> Outcome<Json>
    decreases b.len() - i, 0nat,
{
    let first = after_space(b, i + 1);
    if depth >= MAX_DEPTH {
        Err((i, ErrorKind::DepthLimitExceeded))
    } else if i < 0 || i >= b.len() {
        Err((i, ErrorKind::UnexpectedEof))
    } else if at(b, first, CLOSE_BRACKET) {
        Ok((Json::Array(Seq::empty()), first + 1))
    } else {
        proof {
            lemma_after_space(b, i + 1);
        }
        match items(b, first, depth + 1) {
            Ok((values, end)) => Ok((Json::Array(values), end)),
            Err(e) => Err(e),
        }
    }
}

/// The rest of an array, from the start of a value on.
pub open spec fn items(b: Seq<u8>, i: int, depth: nat) -> Outcome<Seq<Json>>
    decreases b.len() - i, 2nat,
{
    match value(b, i, depth) {
        Err(e) => Err(e),
        Ok((item, j)) => {
            let k = after_space(b, j);
            if !(0 <= i < j) || k >= b.len() {
                Err((k, ErrorKind::UnexpectedEof))
            } else if b[k] == COMMA {
                proof {
                    lemma_after_space(b, j);
                    lemma_after_space(b, k + 1);
                }
                match items(b, after_space(b, k + 1), depth) {
                    Ok((rest, end)) => Ok((seq![item] + rest, end)),
                    Err(e) => Err(e),
                }
            } else if b[k] == CLOSE_BRACKET {
                Ok((seq![item], k + 1))
            } else {
                Err((k, ErrorKind::ExpectedCommaOrCloseBracket))
            }
        },
    }
}

/// The object whose opening brace stands at an offset.
pub open spec fn object(b: Seq<u8>, i: int, depth: nat) -> Outcome<Json>
    decreases b.len() - i, 0nat,
{
    let first = after_space(b, i + 1);
    if depth >= MAX_DEPTH {
        Err((i, ErrorKind::DepthLimitExceeded))
    } else if i < 0 || i >= b.len() {
        Err((i, ErrorKind::UnexpectedEof))
    } else if at(b, first, CLOSE_BRACE) {
        Ok((Json::Object(Seq::empty()), first + 1))
    } else {
        proof {
            lemma_after_space(b, i + 1);
        }
        match members(b, first, depth + 1) {
            Ok((fields, end)) => Ok((Json::Object(fields), end)),
            Err(e) => Err(e),
        }
    }
}

/// The name of an object member and the offset of its value.
pub open spec fn name(b: Seq<u8>, i: int) -> Outcome<Seq<char>> {
    if i >= b.len() {
        Err((i, ErrorKind::UnexpectedEof))
    } else if b[i] != QUOTE {
        Err((i, ErrorKind::ExpectedKey))
    } else {
        match string(b, i) {
            Err(e) => Err(e),
            Ok((key, j)) => {
                let k = after_space(b, j);
                if k >= b.len() {
                    Err((k, ErrorKind::UnexpectedEof))
                } else if b[k] != COLON {
                    Err((k, ErrorKind::ExpectedColon))
                } else {
                    Ok((key, after_space(b, k + 1)))
                }
            },
        }
    }
}

/// The rest of an object, from the start of a member on.
pub open spec fn members(b: Seq<u8>, i: int, depth: nat) -> Outcome<Seq<(Seq<char>, Json)>>
    decreases b.len() - i, 2nat,
{
    match name(b, i) {
        Err(e) => Err(e),
        Ok((key, v)) => if !(0 <= i < v <= b.len()) {
            Err((v, ErrorKind::UnexpectedEof))
        } else {
            match value(b, v, depth) {
                Err(e) => Err(e),
                Ok((field, j)) => {
                    let k = after_space(b, j);
                    if j <= v || k >= b.len() {
                        Err((k, ErrorKind::UnexpectedEof))
                    } else if b[k] == COMMA {
                        proof {
                            lemma_after_space(b, j);
                            lemma_after_space(b, k + 1);
                        }
                        match members(b, after_space(b, k + 1), depth) {
                            Ok((rest, end)) => Ok((seq![(key, field)] + rest, end)),
                            Err(e) => Err(e),
                        }
                    } else if b[k] == CLOSE_BRACE {
                        Ok((seq![(key, field)], k + 1))
                    } else {
                        Err((k, ErrorKind::ExpectedCommaOrCloseBrace))
                    }
                },
            }
        },
    }
}

/// A whole document: one value with whitespace around it.
pub open spec fn document(b: Seq<u8>) -> Result<Json, (int, ErrorKind)> {
    match value(b, after_space(b, 0), 0) {
        Err(e) => Err(e),
        Ok((v, j)) => {
            let k = after_space(b, j);
            if k != b.len() {
                Err((k, ErrorKind::TrailingData))
            } else {
                Ok(v)
            }
        },
    }
}

/// A number takes at least one byte.
pub proof fn lemma_number_end(b: Seq<u8>, start: int)
    requires
        0 <= start < b.len(),
    ensures
        number(b, start) matches Ok((v, end)) ==> start < end <= b.len(),
{
    let s = if at(b, start, MINUS) {
        start + 1
    } else {
        start
    };
    let whole_end = if b[s] == ZERO {
        s + 1
    } else {
        after_digits(b, s)
    };
    let part_end = if at(b, whole_end, DOT) {
        after_digits(b, whole_end + 1)
    } else {
        whole_end
    };
    if s < b.len() && is_digit(b[s]) {
        lemma_after_digits(b, s);
        lemma_after_digits(b, s + 1);
        lemma_after_digits(b, whole_end + 1);
        lemma_after_digits(b, part_end + 1);
        lemma_after_digits(b, part_end + 2);
    }
}

/// A string ends inside the document, behind its closing quote.
pub proof fn lemma_string_end(b: Seq<u8>, i: int)
    ensures
        string_bytes(b, i) matches Ok((w, end)) ==> i < end <= b.len(),
    decreases b.len() - i,
{
    if 0 <= i < b.len() && b[i] != QUOTE {
        if b[i] == BACKSLASH {
            match escape(b, i) {
                Ok((c, j)) => {
                    lemma_string_end(b, j);
                },
                Err(e) => {},
            }
        } else if b[i] >= SPACE {
            lemma_string_end(b, i + 1);
        }
    }
}

/// A value takes at least one byte and ends inside the document.
pub proof fn lemma_value_end(b: Seq<u8>, i: int, depth: nat)
    ensures
        value(b, i, depth) matches Ok((v, end)) ==> 0 <= i < end <= b.len(),
    decreases b.len() - i, 1nat,
{
    if 0 <= i < b.len() {
        let first = after_space(b, i + 1);
        lemma_after_space(b, i + 1);
        if b[i] == OPEN_BRACE {
            lemma_members_end(b, first, depth + 1);
        } else if b[i] == OPEN_BRACKET {
            lemma_items_end(b, first, depth + 1);
        } else if b[i] == QUOTE {
            lemma_string_end(b, i + 1);
        } else if b[i] == MINUS || is_digit(b[i]) {
            lemma_number_end(b, i);
        }
    }
}

/// The rest of an array ends inside the document.
pub proof fn lemma_items_end(b: Seq<u8>, i: int, depth: nat)
    ensures
        items(b, i, depth) matches Ok((list, end)) ==> i < end <= b.len(),
    decreases b.len() - i, 2nat,
{
    lemma_value_end(b, i, depth);
    match value(b, i, depth) {
        Ok((item, j)) => {
            let k = after_space(b, j);
            lemma_after_space(b, j);
            if k < b.len() && b[k] == COMMA {
                lemma_after_space(b, k + 1);
                lemma_items_end(b, after_space(b, k + 1), depth);
            }
        },
        Err(e) => {},
    }
}

/// The value of a member stands behind its name.
pub proof fn lemma_name_end(b: Seq<u8>, i: int)
    requires
        0 <= i,
    ensures
        name(b, i) matches Ok((key, v)) ==> i < v <= b.len(),
{
    if i < b.len() && b[i] == QUOTE {
        lemma_string_end(b, i + 1);
        match string(b, i) {
            Ok((key, j)) => {
                let k = after_space(b, j);
                lemma_after_space(b, j);
                lemma_after_space(b, k + 1);
            },
            Err(e) => {},
        }
    }
}

/// The rest of an object ends inside the document.
pub proof fn lemma_members_end(b: Seq<u8>, i: int, depth: nat)
    requires
        0 <= i,
    ensures
        members(b, i, depth) matches Ok((list, end)) ==> i < end <= b.len(),
    decreases b.len() - i, 2nat,
{
    lemma_name_end(b, i);
    match name(b, i) {
        Ok((key, v)) => {
            lemma_value_end(b, v, depth);
            match value(b, v, depth) {
                Ok((field, j)) => {
                    let k = after_space(b, j);
                    lemma_after_space(b, j);
                    if k < b.len() && b[k] == COMMA {
                        lemma_after_space(b, k + 1);
                        lemma_members_end(b, after_space(b, k + 1), depth);
                    }
                },
                Err(e) => {},
            }
        },
        Err(e) => {},
    }
}

} // verus!
