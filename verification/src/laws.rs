//! What holds of every parsed document and of every parse failure.

use vstd::prelude::*;
use vstd::utf8::*;

use crate::ascii::{BACKSLASH, COMMA, DOT, MINUS, OPEN_BRACE, OPEN_BRACKET, QUOTE, SPACE, ZERO};
use crate::binary64::{finite, magnitude, signed, INFINITE};
use crate::grammar::{
    after_digits, after_space, at, document, escape, hex_run, items, lemma_after_digits,
    lemma_after_space, lemma_name_end, lemma_string_end, lemma_value_end, members, name, number,
    number_value, string, string_bytes, value,
};
use crate::json::{ErrorKind, Json, MAX_DEPTH};
use crate::locality::{
    all_space, space_before_a_document_shifts_it, space_behind_a_document_does_not_matter,
};
use crate::roundtrip::nested_within;
use crate::text::{is_ascii, is_digit, lemma_encode_ascii, lemma_encode_concat};

verus! {

/// Whether every float in a value is finite.
pub open spec fn floats_finite(v: Json) -> bool
    decreases v,
{
    match v {
        Json::Float(bits) => finite(bits),
        Json::Array(list) => forall|i: int|
            0 <= i < list.len() ==> floats_finite(#[trigger] list[i]),
        Json::Object(fields) => forall|i: int|
            0 <= i < fields.len() ==> floats_finite((#[trigger] fields[i]).1),
        _ => true,
    }
}

/// Whether a value fits inside `depth` arrays and objects.
spec fn fits(v: Json, depth: nat) -> bool {
    depth <= MAX_DEPTH && nested_within(v, (MAX_DEPTH - depth) as nat) && floats_finite(v)
}

proof fn lemma_value_fits(b: Seq<u8>, i: int, depth: nat)
    requires
        depth <= MAX_DEPTH,
    ensures
        value(b, i, depth) matches Ok((v, end)) ==> fits(v, depth),
    decreases b.len() - i, 1nat,
{
    if 0 <= i < b.len() && depth < MAX_DEPTH {
        let first = after_space(b, i + 1);
        lemma_after_space(b, i + 1);
        if b[i] == OPEN_BRACE {
            lemma_members_fit(b, first, depth + 1);
        } else if b[i] == OPEN_BRACKET {
            lemma_items_fit(b, first, depth + 1);
        }
    }
    lemma_number_fits(b, i);
}

proof fn lemma_number_fits(b: Seq<u8>, i: int)
    ensures
        number(b, i) matches Ok((v, end)) ==> (v is Int || (v matches Json::Float(bits) && finite(
            bits,
        ))),
{
    reveal(number_value);
    assert forall|minus: bool, m: nat| m < INFINITE implies finite(#[trigger] signed(minus, m)) by {
        assert(magnitude(signed(minus, m)) == m);
    }
}

proof fn lemma_items_fit(b: Seq<u8>, i: int, depth: nat)
    requires
        depth <= MAX_DEPTH,
    ensures
        items(b, i, depth) matches Ok((list, end)) ==> forall|j: int|
            0 <= j < list.len() ==> fits(#[trigger] list[j], depth),
    decreases b.len() - i, 2nat,
{
    lemma_value_fits(b, i, depth);
    lemma_value_end(b, i, depth);
    match value(b, i, depth) {
        Ok((item, j)) => {
            let k = after_space(b, j);
            lemma_after_space(b, j);
            if k < b.len() && b[k] == COMMA {
                lemma_after_space(b, k + 1);
                lemma_items_fit(b, after_space(b, k + 1), depth);
            }
        },
        Err(e) => {},
    }
}

proof fn lemma_members_fit(b: Seq<u8>, i: int, depth: nat)
    requires
        depth <= MAX_DEPTH,
        0 <= i,
    ensures
        members(b, i, depth) matches Ok((list, end)) ==> forall|j: int|
            0 <= j < list.len() ==> fits((#[trigger] list[j]).1, depth),
    decreases b.len() - i, 2nat,
{
    lemma_name_end(b, i);
    match name(b, i) {
        Ok((key, v)) => {
            lemma_value_fits(b, v, depth);
            lemma_value_end(b, v, depth);
            match value(b, v, depth) {
                Ok((field, j)) => {
                    let k = after_space(b, j);
                    lemma_after_space(b, j);
                    if k < b.len() && b[k] == COMMA {
                        lemma_after_space(b, k + 1);
                        lemma_members_fit(b, after_space(b, k + 1), depth);
                    }
                },
                Err(e) => {},
            }
        },
        Err(e) => {},
    }
}

/// A parsed document is nested no deeper than [`MAX_DEPTH`], and its floats
/// are finite.
pub proof fn parsed_documents_fit_the_limits(b: Seq<u8>)
    ensures
        document(b) matches Ok(v) ==> nested_within(v, MAX_DEPTH as nat) && floats_finite(v),
{
    lemma_value_fits(b, after_space(b, 0), 0);
}

/// Whether an error is reported inside the document or at its end.
spec fn inside(b: Seq<u8>, e: (int, ErrorKind)) -> bool {
    0 <= e.0 <= b.len()
}

proof fn lemma_number_error(b: Seq<u8>, start: int)
    requires
        0 <= start < b.len(),
    ensures
        number(b, start) matches Err(e) ==> inside(b, e),
{
    let s = if at(b, start, MINUS) {
        start + 1
    } else {
        start
    };
    if s < b.len() && is_digit(b[s]) {
        let whole_end = if b[s] == ZERO {
            s + 1
        } else {
            after_digits(b, s)
        };
        let part_end = if at(b, whole_end, DOT) {
            after_digits(b, whole_end + 1)
        } else {
            whole_end
        };
        lemma_after_digits(b, s);
        lemma_after_digits(b, whole_end + 1);
        lemma_after_digits(b, part_end + 1);
        lemma_after_digits(b, part_end + 2);
    }
}

proof fn lemma_string_error(b: Seq<u8>, i: int)
    requires
        0 <= i <= b.len(),
    ensures
        string_bytes(b, i) matches Err(e) ==> inside(b, e),
    decreases b.len() - i,
{
    if i < b.len() && b[i] != QUOTE {
        if b[i] == BACKSLASH {
            reveal_with_fuel(hex_run, 5);
            match escape(b, i) {
                Ok((c, j)) => {
                    lemma_string_error(b, j);
                },
                Err(e) => {},
            }
        } else if b[i] >= SPACE {
            lemma_string_error(b, i + 1);
        }
    }
}

proof fn lemma_value_error(b: Seq<u8>, i: int, depth: nat)
    requires
        0 <= i <= b.len(),
    ensures
        value(b, i, depth) matches Err(e) ==> inside(b, e),
    decreases b.len() - i, 1nat,
{
    if i < b.len() {
        let first = after_space(b, i + 1);
        lemma_after_space(b, i + 1);
        if b[i] == OPEN_BRACE {
            lemma_members_error(b, first, depth + 1);
        } else if b[i] == OPEN_BRACKET {
            lemma_items_error(b, first, depth + 1);
        } else if b[i] == QUOTE {
            lemma_string_error(b, i + 1);
        } else if b[i] == MINUS || is_digit(b[i]) {
            lemma_number_error(b, i);
        }
    }
}

proof fn lemma_items_error(b: Seq<u8>, i: int, depth: nat)
    requires
        0 <= i <= b.len(),
    ensures
        items(b, i, depth) matches Err(e) ==> inside(b, e),
    decreases b.len() - i, 2nat,
{
    lemma_value_error(b, i, depth);
    lemma_value_end(b, i, depth);
    match value(b, i, depth) {
        Ok((item, j)) => {
            let k = after_space(b, j);
            lemma_after_space(b, j);
            if k < b.len() && b[k] == COMMA {
                lemma_after_space(b, k + 1);
                lemma_items_error(b, after_space(b, k + 1), depth);
            }
        },
        Err(e) => {},
    }
}

proof fn lemma_name_error(b: Seq<u8>, i: int)
    requires
        0 <= i <= b.len(),
    ensures
        name(b, i) matches Err(e) ==> inside(b, e),
{
    if i < b.len() && b[i] == QUOTE {
        lemma_string_error(b, i + 1);
        lemma_string_end(b, i + 1);
        match string(b, i) {
            Ok((key, j)) => {
                lemma_after_space(b, j);
            },
            Err(e) => {},
        }
    }
}

proof fn lemma_members_error(b: Seq<u8>, i: int, depth: nat)
    requires
        0 <= i <= b.len(),
    ensures
        members(b, i, depth) matches Err(e) ==> inside(b, e),
    decreases b.len() - i, 2nat,
{
    lemma_name_error(b, i);
    lemma_name_end(b, i);
    match name(b, i) {
        Ok((key, v)) => {
            lemma_value_error(b, v, depth);
            lemma_value_end(b, v, depth);
            match value(b, v, depth) {
                Ok((field, j)) => {
                    let k = after_space(b, j);
                    lemma_after_space(b, j);
                    if k < b.len() && b[k] == COMMA {
                        lemma_after_space(b, k + 1);
                        lemma_members_error(b, after_space(b, k + 1), depth);
                    }
                },
                Err(e) => {},
            }
        },
        Err(e) => {},
    }
}

/// Every parse failure carries an offset inside the document, or that of its
/// end.
pub proof fn failures_point_into_the_document(b: Seq<u8>)
    ensures
        document(b) matches Err(e) ==> 0 <= e.0 <= b.len(),
{
    let i = after_space(b, 0);
    lemma_after_space(b, 0);
    lemma_value_error(b, i, 0);
    lemma_value_end(b, i, 0);
    match value(b, i, 0) {
        Ok((v, j)) => {
            lemma_after_space(b, j);
        },
        Err(e) => {},
    }
}

/// Whether a text is made of the four characters that JSON has for whitespace.
pub open spec fn space_text(w: Seq<char>) -> bool {
    forall|i: int|
        0 <= i < w.len() ==> (#[trigger] w[i]) == ' ' || w[i] == '\t' || w[i] == '\n' || w[i]
            == '\r'
}

/// Whitespace before or behind a document keeps its value. Whitespace before a
/// document that is broken keeps the error and shifts its offset, which is at
/// most the length of the document.
pub proof fn whitespace_around_a_document_keeps_it(w: Seq<char>, s: Seq<char>)
    requires
        space_text(w),
    ensures
        document(encode_utf8(s)) matches Ok(v) ==> document(encode_utf8(w + s)) == Ok::<
            Json,
            (int, ErrorKind),
        >(v) && document(encode_utf8(s + w)) == Ok::<Json, (int, ErrorKind)>(v),
        document(encode_utf8(s)) matches Err((offset, kind)) ==> 0 <= offset <= encode_utf8(s).len()
            && document(encode_utf8(w + s)) == Err::<Json, (int, ErrorKind)>(
            (offset + encode_utf8(w).len(), kind),
        ),
        encode_utf8(w).len() == w.len(),
{
    let b = encode_utf8(s);
    let x = encode_utf8(w);
    assert forall|i: int| 0 <= i < w.len() implies is_ascii(#[trigger] w[i]) by {
        assert(w[i] == ' ' || w[i] == '\t' || w[i] == '\n' || w[i] == '\r');
    }
    lemma_encode_ascii(w);
    assert(all_space(x)) by {
        assert forall|i: int| 0 <= i < x.len() implies crate::grammar::is_space(#[trigger] x[i]) by {
            assert(x[i] == w[i] as u8);
            assert(w[i] == ' ' || w[i] == '\t' || w[i] == '\n' || w[i] == '\r');
        }
    }
    lemma_encode_concat(w, s);
    lemma_encode_concat(s, w);
    space_before_a_document_shifts_it(x, b);
    failures_point_into_the_document(b);
    if document(b) is Ok {
        space_behind_a_document_does_not_matter(b, x);
    }
}

} // verus!
