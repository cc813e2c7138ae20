//! The recursive descent parser behind [`crate::json::parse`].
//!
//! Each function takes the document and an offset, and follows the function
//! of the same purpose in [`crate::grammar`].

use vstd::prelude::*;
use vstd::slice::slice_subrange;
use vstd::string::*;
use vstd::utf8::*;

use crate::ascii::{
    BACKSLASH, CLOSE_BRACE, CLOSE_BRACKET, COLON, COMMA, DOT, LOWER_A, LOWER_B, LOWER_E, LOWER_F,
    LOWER_N, LOWER_R, LOWER_T, LOWER_U, MINUS, NEWLINE, NINE, OPEN_BRACE, OPEN_BRACKET, PLUS, QUOTE,
    RETURN, SLASH, SPACE, TAB, UPPER_A, UPPER_E, UPPER_F, ZERO,
};
use crate::binary64::{Binary64, INFINITE};
use crate::decimal::read_decimal;
use crate::integer::read_integer;
use crate::grammar::{
    after_digits, after_space, array, at, escape, false_word, hex4, hex_digit, hex_run, items,
    lemma_after_digits, lemma_after_space, lemma_number_end, literal, members, name, null_word,
    number, number_value, object, prefixed, string, string_bytes, true_word, unicode_escape, value,
    Outcome,
};
use crate::json::{ErrorKind, Json, ParseError, Value, MAX_DEPTH};
use crate::text::{
    all_digits, is_digit, lemma_ascii_boundary, lemma_encode_ascii, lemma_encode_concat, same_bytes,
    slice_text,
};

verus! {

/// Where and why parsing failed.
pub open spec fn failure(e: ParseError) -> (int, ErrorKind) {
    (e.offset as int, e.kind)
}

/// Whether a result is what the grammar says, taking values by their view.
pub open spec fn agrees(r: Result<(Value, usize), ParseError>, expected: Outcome<Json>) -> bool {
    match r {
        Ok((v, end)) => expected == Ok::<(Json, int), (int, ErrorKind)>((v@, end as int)),
        Err(e) => expected == Err::<(Json, int), (int, ErrorKind)>(failure(e)),
    }
}

fn fail(offset: usize, kind: ErrorKind) -> (e: ParseError)
    ensures
        failure(e) == (offset as int, kind),
{
    ParseError { offset, kind }
}

/// The end of the whitespace at an offset.
pub fn skip_space(b: &[u8], start: usize) -> (end: usize)
    requires
        start <= b.len(),
    ensures
        end == after_space(b@, start as int),
        start <= end <= b.len(),
{
    let mut i: usize = start;
    while i < b.len() && (b[i] == SPACE || b[i] == TAB || b[i] == NEWLINE || b[i] == RETURN)
        invariant
            start <= i <= b.len(),
            after_space(b@, start as int) == after_space(b@, i as int),
        decreases b.len() - i,
    {
        i += 1;
    }
    i
}

/// The end of the digits at an offset.
pub fn skip_digits(b: &[u8], start: usize) -> (end: usize)
    requires
        start <= b.len(),
    ensures
        end == after_digits(b@, start as int),
        start <= end <= b.len(),
{
    let mut i: usize = start;
    while i < b.len() && ZERO <= b[i] && b[i] <= NINE
        invariant
            start <= i <= b.len(),
            after_digits(b@, start as int) == after_digits(b@, i as int),
        decreases b.len() - i,
    {
        i += 1;
    }
    i
}

/// Whether the byte at an offset is the given one.
pub fn byte_is(b: &[u8], i: usize, byte: u8) -> (r: bool)
    ensures
        r == at(b@, i as int, byte),
{
    i < b.len() && b[i] == byte
}

fn parse_literal(
    b: &[u8],
    i: usize,
    word: &str,
    result: Value,
) -> (r: Result<(Value, usize), ParseError>)
    requires
        i <= b.len(),
        word.spec_bytes().len() > 0,
    ensures
        agrees(r, literal(b@, i as int, word.spec_bytes(), result@)),
        r matches Ok((v, end)) ==> i < end <= b@.len(),
{
    let w = word.as_bytes();
    if w.len() <= b.len() - i && same_bytes(slice_subrange(b, i, i + w.len()), w) {
        Ok((result, i + w.len()))
    } else {
        Err(fail(i, ErrorKind::InvalidLiteral))
    }
}

/// Reads one of the three literals, which start with different letters.
fn parse_word(b: &[u8], i: usize) -> (r: Result<(Value, usize), ParseError>)
    requires
        i < b@.len(),
        b@[i as int] == LOWER_T || b@[i as int] == LOWER_F || b@[i as int] == LOWER_N,
    ensures
        agrees(
            r,
            if b@[i as int] == LOWER_T {
                literal(b@, i as int, true_word(), Json::Bool(true))
            } else if b@[i as int] == LOWER_F {
                literal(b@, i as int, false_word(), Json::Bool(false))
            } else {
                literal(b@, i as int, null_word(), Json::Null)
            },
        ),
        r matches Ok((v, end)) ==> i < end <= b@.len(),
{
    proof {
        lemma_words();
    }
    if b[i] == LOWER_T {
        parse_literal(b, i, "true", Value::Bool(true))
    } else if b[i] == LOWER_F {
        parse_literal(b, i, "false", Value::Bool(false))
    } else {
        parse_literal(b, i, "null", Value::Null)
    }
}

fn parse_number(b: &[u8], start: usize) -> (r: Result<(Value, usize), ParseError>)
    requires
        start < b.len(),
    ensures
        agrees(r, number(b@, start as int)),
{
    let minus = byte_is(b, start, MINUS);
    let s: usize = if minus {
        start + 1
    } else {
        start
    };
    if s >= b.len() {
        return Err(fail(s, ErrorKind::UnexpectedEof));
    }
    if !(ZERO <= b[s] && b[s] <= NINE) {
        return Err(fail(start, ErrorKind::InvalidNumber));
    }
    // A leading zero may not be followed by more digits. Stopping here lets
    // the caller report the stray digit as trailing data or as a missing
    // separator, which points at the right column.
    let whole_end: usize = if b[s] == ZERO {
        s + 1
    } else {
        skip_digits(b, s)
    };
    proof {
        lemma_after_digits(b@, s as int);
    }
    let point = byte_is(b, whole_end, DOT);
    let part_end: usize = if point {
        skip_digits(b, whole_end + 1)
    } else {
        whole_end
    };
    proof {
        lemma_after_digits(b@, whole_end + 1);
    }
    if point && part_end == whole_end + 1 {
        return Err(fail(part_end, ErrorKind::InvalidNumber));
    }
    let power = byte_is(b, part_end, LOWER_E) || byte_is(b, part_end, UPPER_E);
    let small = power && byte_is(b, part_end + 1, MINUS);
    let exponent: usize = if power {
        if small || byte_is(b, part_end + 1, PLUS) {
            part_end + 2
        } else {
            part_end + 1
        }
    } else {
        part_end
    };
    let end: usize = if power {
        skip_digits(b, exponent)
    } else {
        part_end
    };
    proof {
        lemma_after_digits(b@, exponent as int);
    }
    if power && end == exponent {
        return Err(fail(end, ErrorKind::InvalidNumber));
    }
    let whole = slice_subrange(b, s, whole_end);
    let part = if point {
        slice_subrange(b, whole_end + 1, part_end)
    } else {
        slice_subrange(b, part_end, part_end)
    };
    let digits = slice_subrange(b, exponent, end);
    proof {
        assert(!point ==> part@ =~= Seq::<u8>::empty());
        lemma_digit_run(b@, s as int, whole_end as int);
        lemma_digit_run(b@, exponent as int, end as int);
        if point {
            lemma_digit_run(b@, whole_end + 1, part_end as int);
        }
    }
    match read_number(minus, whole, part, small, digits, !point && !power) {
        Some(v) => Ok((v, end)),
        None => Err(fail(start, ErrorKind::NumberOutOfRange)),
    }
}

proof fn lemma_digit_run(b: Seq<u8>, from: int, to: int)
    requires
        0 <= from <= to <= b.len(),
        forall|i: int| from <= i < to ==> is_digit(#[trigger] b[i]),
    ensures
        all_digits(b.subrange(from, to)),
{
    let run = b.subrange(from, to);
    assert forall|i: int| 0 <= i < run.len() implies is_digit(#[trigger] run[i]) by {
        assert(is_digit(b[from + i]));
    }
}

/// Reads the number that the parts of a number literal stand for.
fn read_number(
    minus: bool,
    whole: &[u8],
    part: &[u8],
    small: bool,
    exponent: &[u8],
    integral: bool,
) -> (r: Option<Value>)
    requires
        all_digits(whole@),
        all_digits(part@),
        all_digits(exponent@),
    ensures
        match r {
            Some(v) => number_value(minus, whole@, part@, small, exponent@, integral) == Some(v@),
            None => number_value(minus, whole@, part@, small, exponent@, integral) is None,
        },
{
    proof {
        reveal(number_value);
    }
    if integral {
        match read_integer(minus, whole) {
            Some(n) => {
                return Some(Value::Int(n));
            },
            None => {},
        }
    }
    let magnitude: u64 = read_decimal(whole, part, small, exponent);
    if magnitude < INFINITE {
        Some(Value::Float(Binary64::with_sign(minus, magnitude)))
    } else {
        None
    }
}

fn read_hex(b: u8) -> (r: Option<u32>)
    ensures
        match r {
            Some(d) => hex_digit(b) == Some(d as nat) && d < 16,
            None => hex_digit(b) is None,
        },
{
    if ZERO <= b && b <= NINE {
        Some((b - ZERO) as u32)
    } else if LOWER_A <= b && b <= LOWER_F {
        Some((b - LOWER_A) as u32 + 10)
    } else if UPPER_A <= b && b <= UPPER_F {
        Some((b - UPPER_A) as u32 + 10)
    } else {
        None
    }
}

fn parse_hex4(b: &[u8], i: usize) -> (r: Result<(u32, usize), ParseError>)
    requires
        i <= b.len(),
    ensures
        match r {
            Ok((n, end)) => hex4(b@, i as int) == Ok::<(nat, int), (int, ErrorKind)>(
                (n as nat, end as int),
            ) && n <= 0xFFFF && end == i + 4 && end <= b.len(),
            Err(e) => hex4(b@, i as int) == Err::<(nat, int), (int, ErrorKind)>(failure(e)),
        },
{
    if b.len() - i < 4 {
        return Err(fail(b.len(), ErrorKind::UnexpectedEof));
    }
    proof {
        reveal_with_fuel(hex_run, 5);
    }
    let mut digits: [u32; 4] = [0; 4];
    let mut k: usize = 0;
    while k < 4
        invariant
            k <= 4,
            i + 4 <= b.len(),
            hex_run(b@, i as int, 4) == k + hex_run(b@, i + k, (4 - k) as nat),
            forall|j: int|
                0 <= j < k ==> hex_digit(b@[i + j]) == Some(#[trigger] digits@[j] as nat)
                    && digits@[j] < 16,
        decreases 4 - k,
    {
        match read_hex(b[i + k]) {
            Some(d) => {
                digits[k] = d;
            },
            None => {
                return Err(fail(i + k, ErrorKind::InvalidUnicodeEscape));
            },
        }
        k += 1;
    }
    assert(hex_digit(b@[i + 0]) == Some(digits@[0] as nat));
    let n: u32 = digits[0] * 4096 + digits[1] * 256 + digits[2] * 16 + digits[3];
    Ok((n, i + 4))
}

fn read_char(code: u32) -> (c: char)
    requires
        code <= 0x10FFFF,
        !(0xD800 <= code <= 0xDFFF),
    ensures
        c as u32 == code,
{
    match char::from_u32(code) {
        Some(c) => c,
        None => '?',
    }
}

/// Reads the `\\u` escape whose backslash stands at `start`.
fn parse_unicode_escape(b: &[u8], start: usize) -> (r: Result<(char, usize), ParseError>)
    requires
        start + 2 <= b.len(),
    ensures
        match r {
            Ok((c, end)) => unicode_escape(b@, start as int) == Ok::<(char, int), (int, ErrorKind)>(
                (c, end as int),
            ) && start < end <= b.len(),
            Err(e) => unicode_escape(b@, start as int) == Err::<(char, int), (int, ErrorKind)>(
                failure(e),
            ),
        },
{
    match parse_hex4(b, start + 2) {
        Err(e) => Err(e),
        Ok((unit, i)) => {
            if 0xD800 <= unit && unit <= 0xDBFF {
                if !byte_is(b, i, BACKSLASH) || !byte_is(b, i + 1, LOWER_U) {
                    return Err(fail(start, ErrorKind::UnpairedSurrogate));
                }
                match parse_hex4(b, i + 2) {
                    Err(e) => Err(e),
                    Ok((low, j)) => {
                        if !(0xDC00 <= low && low <= 0xDFFF) {
                            return Err(fail(start, ErrorKind::UnpairedSurrogate));
                        }
                        let c = read_char(0x1_0000 + (unit - 0xD800) * 0x400 + (low - 0xDC00));
                        Ok((c, j))
                    },
                }
            } else if 0xDC00 <= unit && unit <= 0xDFFF {
                Err(fail(start, ErrorKind::UnpairedSurrogate))
            } else {
                Ok((read_char(unit), i))
            }
        },
    }
}

fn parse_escape(b: &[u8], start: usize) -> (r: Result<(char, usize), ParseError>)
    requires
        start < b.len(),
    ensures
        match r {
            Ok((c, end)) => escape(b@, start as int) == Ok::<(char, int), (int, ErrorKind)>(
                (c, end as int),
            ) && start < end <= b.len(),
            Err(e) => escape(b@, start as int) == Err::<(char, int), (int, ErrorKind)>(failure(e)),
        },
{
    let i: usize = start + 1;
    if i >= b.len() {
        return Err(fail(i, ErrorKind::UnexpectedEof));
    }
    let c: u8 = b[i];
    if c == LOWER_U {
        return parse_unicode_escape(b, start);
    }
    let ch: char = if c == QUOTE {
        '"'
    } else if c == BACKSLASH {
        '\\'
    } else if c == SLASH {
        '/'
    } else if c == LOWER_B {
        '\u{8}'
    } else if c == LOWER_F {
        '\u{c}'
    } else if c == LOWER_N {
        '\n'
    } else if c == LOWER_R {
        '\r'
    } else if c == LOWER_T {
        '\t'
    } else {
        return Err(fail(start, ErrorKind::InvalidEscape(c)));
    };
    Ok((ch, i + 1))
}

proof fn lemma_prefixed(a: Seq<u8>, b: Seq<u8>, rest: Outcome<Seq<u8>>)
    ensures
        prefixed(a, prefixed(b, rest)) == prefixed(a + b, rest),
{
    match rest {
        Ok((tail, end)) => {
            assert(a + (b + tail) =~= (a + b) + tail);
        },
        Err(e) => {},
    }
}

/// Reads the string whose opening quote stands at `start`.
pub fn parse_string(text: &str, start: usize) -> (r: Result<(String, usize), ParseError>)
    requires
        at(text.spec_bytes(), start as int, QUOTE),
    ensures
        match r {
            Ok((s, end)) => string(text.spec_bytes(), start as int) == Ok::<
                (Seq<char>, int),
                (int, ErrorKind),
            >((s@, end as int)) && start < end <= text.spec_bytes().len(),
            Err(e) => string(text.spec_bytes(), start as int) == Err::<
                (Seq<char>, int),
                (int, ErrorKind),
            >(failure(e)),
        },
{
    let b = text.as_bytes();
    let ghost expected = string_bytes(b@, start + 1);
    let mut decoded = String::new();
    assert(start < b.len());
    let mut i: usize = start + 1;
    let mut chunk_start: usize = i;
    proof {
        encode_utf8_valid_utf8(text@);
        lemma_ascii_boundary(b@, start as int);
        assert(encode_utf8(decoded@) + b@.subrange(i as int, i as int) =~= Seq::<u8>::empty());
        lemma_prefixed(Seq::empty(), Seq::empty(), expected);
        match expected {
            Ok((tail, end)) => {
                assert(Seq::<u8>::empty() + tail =~= tail);
            },
            Err(e) => {},
        }
    }
    loop
        invariant
            b@ == text.spec_bytes(),
            valid_utf8(b@),
            start < chunk_start <= i <= b.len(),
            is_char_boundary(b@, chunk_start as int),
            expected == string_bytes(b@, start + 1),
            expected == prefixed(
                encode_utf8(decoded@) + b@.subrange(chunk_start as int, i as int),
                string_bytes(b@, i as int),
            ),
        decreases b.len() - i,
    {
        if i >= b.len() {
            return Err(fail(i, ErrorKind::UnexpectedEof));
        }
        let c: u8 = b[i];
        let ghost so_far = encode_utf8(decoded@) + b@.subrange(chunk_start as int, i as int);
        if c == QUOTE || c == BACKSLASH {
            proof {
                lemma_ascii_boundary(b@, i as int);
            }
            let chunk = slice_text(text, chunk_start, i);
            proof {
                lemma_encode_concat(decoded@, chunk@);
            }
            decoded.append(chunk);
            assert(encode_utf8(decoded@) == so_far);
        }
        if c == QUOTE {
            proof {
                encode_utf8_decode_utf8(decoded@);
                assert(so_far + Seq::<u8>::empty() =~= so_far);
            }
            return Ok((decoded, i + 1));
        } else if c == BACKSLASH {
            match parse_escape(b, i) {
                Err(e) => {
                    return Err(e);
                },
                Ok((ch, end)) => {
                    let ghost before = decoded@;
                    decoded.push(ch);
                    proof {
                        assert(decoded@ =~= before + seq![ch]);
                        lemma_encode_concat(before, seq![ch]);
                        lemma_prefixed(
                            so_far,
                            encode_utf8(seq![ch]),
                            string_bytes(b@, end as int),
                        );
                        assert(encode_utf8(decoded@) + b@.subrange(end as int, end as int)
                            =~= so_far + encode_utf8(seq![ch]));
                        lemma_escape_boundary(b@, i as int);
                    }
                    i = end;
                    chunk_start = i;
                },
            }
        } else if c < SPACE {
            return Err(fail(i, ErrorKind::ControlCharacter(c)));
        } else {
            proof {
                lemma_prefixed(so_far, seq![c], string_bytes(b@, i + 1));
                assert(so_far + seq![c] =~= encode_utf8(decoded@) + b@.subrange(
                    chunk_start as int,
                    i + 1,
                ));
            }
            i += 1;
        }
    }
}

/// An escape sequence ends at a character boundary.
proof fn lemma_escape_boundary(b: Seq<u8>, start: int)
    requires
        valid_utf8(b),
        0 <= start < b.len(),
        escape(b, start) is Ok,
    ensures
        is_char_boundary(b, escape(b, start)->Ok_0.1),
{
    let end = escape(b, start)->Ok_0.1;
    reveal_with_fuel(hex_run, 5);
    lemma_ascii_boundary(b, end - 1);
}

/// What a list of values stands for.
pub open spec fn meanings(values: Seq<Value>) -> Seq<Json> {
    Seq::new(values.len(), |i: int| values[i]@)
}

/// What a list of object members stands for.
pub open spec fn member_meanings(fields: Seq<(String, Value)>) -> Seq<(Seq<char>, Json)> {
    Seq::new(fields.len(), |i: int| (fields[i].0@, fields[i].1@))
}

/// Puts items before those of an outcome.
spec fn following<T>(head: Seq<T>, rest: Outcome<Seq<T>>) -> Outcome<Seq<T>> {
    match rest {
        Ok((tail, end)) => Ok((head + tail, end)),
        Err(e) => Err(e),
    }
}

proof fn lemma_following<T>(head: Seq<T>, item: T, rest: Outcome<Seq<T>>)
    ensures
        following(head.push(item), rest) == following(head, following(seq![item], rest)),
{
    match rest {
        Ok((tail, end)) => {
            assert(head.push(item) + tail =~= head + (seq![item] + tail));
        },
        Err(e) => {},
    }
}

/// Reads the value at `i`, inside `depth` arrays and objects.
pub fn parse_value(text: &str, i: usize, depth: usize) -> (r: Result<(Value, usize), ParseError>)
    requires
        i <= text.spec_bytes().len(),
        depth <= MAX_DEPTH,
    ensures
        agrees(r, value(text.spec_bytes(), i as int, depth as nat)),
        r matches Ok((v, end)) ==> i < end <= text.spec_bytes().len(),
    decreases text.spec_bytes().len() - i, 1nat,
{
    let b = text.as_bytes();
    if i >= b.len() {
        return Err(fail(i, ErrorKind::UnexpectedEof));
    }
    let c: u8 = b[i];
    if c == OPEN_BRACE {
        parse_object(text, i, depth)
    } else if c == OPEN_BRACKET {
        parse_array(text, i, depth)
    } else if c == QUOTE {
        match parse_string(text, i) {
            Ok((s, end)) => Ok((Value::Str(s), end)),
            Err(e) => Err(e),
        }
    } else if c == LOWER_T || c == LOWER_F || c == LOWER_N {
        parse_word(b, i)
    } else if c == MINUS || (ZERO <= c && c <= NINE) {
        proof {
            lemma_number_end(b@, i as int);
        }
        parse_number(b, i)
    } else if c == DOT && i + 1 < b.len() && ZERO <= b[i + 1] && b[i + 1] <= NINE {
        // A fraction needs a digit before its point.
        Err(fail(i, ErrorKind::InvalidNumber))
    } else {
        Err(fail(i, ErrorKind::UnexpectedByte(c)))
    }
}

/// The three literals are ASCII.
pub proof fn lemma_words()
    ensures
        "true".spec_bytes() == true_word(),
        "false".spec_bytes() == false_word(),
        "null".spec_bytes() == null_word(),
{
    reveal_strlit("true");
    reveal_strlit("false");
    reveal_strlit("null");
    lemma_encode_ascii("true"@);
    lemma_encode_ascii("false"@);
    lemma_encode_ascii("null"@);
    assert("true".spec_bytes() =~= true_word());
    assert("false".spec_bytes() =~= false_word());
    assert("null".spec_bytes() =~= null_word());
}

/// Reads the array whose opening bracket stands at `i`.
fn parse_array(text: &str, i: usize, depth: usize) -> (r: Result<(Value, usize), ParseError>)
    requires
        at(text.spec_bytes(), i as int, OPEN_BRACKET),
        depth <= MAX_DEPTH,
    ensures
        agrees(r, array(text.spec_bytes(), i as int, depth as nat)),
        r matches Ok((v, end)) ==> i < end <= text.spec_bytes().len(),
    decreases text.spec_bytes().len() - i, 0nat,
{
    let b = text.as_bytes();
    if depth >= MAX_DEPTH {
        return Err(fail(i, ErrorKind::DepthLimitExceeded));
    }
    assert(i < b.len());
    let first: usize = skip_space(b, i + 1);
    let mut values: Vec<Value> = Vec::new();
    if byte_is(b, first, CLOSE_BRACKET) {
        let r = Value::Array(values);
        proof {
            assert(r@->Array_0 =~= Seq::<Json>::empty());
        }
        return Ok((r, first + 1));
    }
    let ghost expected = items(b@, first as int, (depth + 1) as nat);
    let mut at_item: usize = first;
    proof {
        assert(meanings(values@) =~= Seq::<Json>::empty());
        match expected {
            Ok((tail, end)) => {
                assert(Seq::<Json>::empty() + tail =~= tail);
            },
            Err(e) => {},
        }
    }
    loop
        invariant
            b@ == text.spec_bytes(),
            depth < MAX_DEPTH,
            i < first <= at_item <= b.len(),
            at(b@, i as int, OPEN_BRACKET),
            first == after_space(b@, i + 1),
            !at(b@, first as int, CLOSE_BRACKET),
            expected == items(b@, first as int, (depth + 1) as nat),
            expected == following(
                meanings(values@),
                items(b@, at_item as int, (depth + 1) as nat),
            ),
        decreases b.len() - at_item,
    {
        match parse_value(text, at_item, depth + 1) {
            Err(e) => {
                return Err(e);
            },
            Ok((item, end)) => {
                let k: usize = skip_space(b, end);
                if k >= b.len() {
                    return Err(fail(k, ErrorKind::UnexpectedEof));
                }
                let ghost before = meanings(values@);
                let ghost view = item@;
                values.push(item);
                proof {
                    assert(meanings(values@) =~= before.push(view));
                }
                if b[k] == COMMA {
                    proof {
                        lemma_after_space(b@, k + 1);
                        lemma_following(
                            before,
                            view,
                            items(b@, after_space(b@, k + 1), (depth + 1) as nat),
                        );
                    }
                    at_item = skip_space(b, k + 1);
                } else if b[k] == CLOSE_BRACKET {
                    let r = Value::Array(values);
                    proof {
                        assert(before + seq![view] =~= before.push(view));
                        assert(r@->Array_0 =~= before.push(view));
                    }
                    return Ok((r, k + 1));
                } else {
                    return Err(fail(k, ErrorKind::ExpectedCommaOrCloseBracket));
                }
            },
        }
    }
}

/// Reads the name of an object member, and gives the offset of its value.
fn parse_name(text: &str, i: usize) -> (r: Result<(String, usize), ParseError>)
    requires
        i <= text.spec_bytes().len(),
    ensures
        match r {
            Ok((s, end)) => name(text.spec_bytes(), i as int) == Ok::<
                (Seq<char>, int),
                (int, ErrorKind),
            >((s@, end as int)) && i < end <= text.spec_bytes().len(),
            Err(e) => name(text.spec_bytes(), i as int) == Err::<
                (Seq<char>, int),
                (int, ErrorKind),
            >(failure(e)),
        },
{
    let b = text.as_bytes();
    if i >= b.len() {
        return Err(fail(i, ErrorKind::UnexpectedEof));
    }
    if b[i] != QUOTE {
        return Err(fail(i, ErrorKind::ExpectedKey));
    }
    match parse_string(text, i) {
        Err(e) => Err(e),
        Ok((key, j)) => {
            let k: usize = skip_space(b, j);
            if k >= b.len() {
                Err(fail(k, ErrorKind::UnexpectedEof))
            } else if b[k] != COLON {
                Err(fail(k, ErrorKind::ExpectedColon))
            } else {
                Ok((key, skip_space(b, k + 1)))
            }
        },
    }
}

/// Reads the object whose opening brace stands at `i`.
fn parse_object(text: &str, i: usize, depth: usize) -> (r: Result<(Value, usize), ParseError>)
    requires
        at(text.spec_bytes(), i as int, OPEN_BRACE),
        depth <= MAX_DEPTH,
    ensures
        agrees(r, object(text.spec_bytes(), i as int, depth as nat)),
        r matches Ok((v, end)) ==> i < end <= text.spec_bytes().len(),
    decreases text.spec_bytes().len() - i, 0nat,
{
    let b = text.as_bytes();
    if depth >= MAX_DEPTH {
        return Err(fail(i, ErrorKind::DepthLimitExceeded));
    }
    assert(i < b.len());
    let first: usize = skip_space(b, i + 1);
    let mut fields: Vec<(String, Value)> = Vec::new();
    if byte_is(b, first, CLOSE_BRACE) {
        let r = Value::Object(fields);
        proof {
            assert(r@->Object_0 =~= Seq::<(Seq<char>, Json)>::empty());
        }
        return Ok((r, first + 1));
    }
    let ghost expected = members(b@, first as int, (depth + 1) as nat);
    let mut at_member: usize = first;
    proof {
        assert(member_meanings(fields@) =~= Seq::<(Seq<char>, Json)>::empty());
        match expected {
            Ok((tail, end)) => {
                assert(Seq::<(Seq<char>, Json)>::empty() + tail =~= tail);
            },
            Err(e) => {},
        }
    }
    loop
        invariant
            b@ == text.spec_bytes(),
            depth < MAX_DEPTH,
            i < first <= at_member <= b.len(),
            at(b@, i as int, OPEN_BRACE),
            first == after_space(b@, i + 1),
            !at(b@, first as int, CLOSE_BRACE),
            expected == members(b@, first as int, (depth + 1) as nat),
            expected == following(
                member_meanings(fields@),
                members(b@, at_member as int, (depth + 1) as nat),
            ),
        decreases b.len() - at_member,
    {
        let (key, at_value) = match parse_name(text, at_member) {
            Err(e) => {
                return Err(e);
            },
            Ok(found) => found,
        };
        match parse_value(text, at_value, depth + 1) {
            Err(e) => {
                return Err(e);
            },
            Ok((field, end)) => {
                let k: usize = skip_space(b, end);
                if k >= b.len() {
                    return Err(fail(k, ErrorKind::UnexpectedEof));
                }
                let ghost before = member_meanings(fields@);
                let ghost view = (key@, field@);
                fields.push((key, field));
                proof {
                    assert(member_meanings(fields@) =~= before.push(view));
                }
                if b[k] == COMMA {
                    proof {
                        lemma_after_space(b@, k + 1);
                        lemma_following(
                            before,
                            view,
                            members(b@, after_space(b@, k + 1), (depth + 1) as nat),
                        );
                    }
                    at_member = skip_space(b, k + 1);
                } else if b[k] == CLOSE_BRACE {
                    let r = Value::Object(fields);
                    proof {
                        assert(before + seq![view] =~= before.push(view));
                        assert(r@->Object_0 =~= before.push(view));
                    }
                    return Ok((r, k + 1));
                } else {
                    return Err(fail(k, ErrorKind::ExpectedCommaOrCloseBrace));
                }
            },
        }
    }
}

} // verus!
