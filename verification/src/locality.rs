//! What is read at an offset depends on nothing before it, and on nothing
//! behind it once it has ended.

use vstd::prelude::*;

use crate::ascii::{
    BACKSLASH, CLOSE_BRACE, CLOSE_BRACKET, COMMA, DOT, LOWER_E, LOWER_F, LOWER_N, LOWER_T, LOWER_U,
    MINUS, OPEN_BRACE, OPEN_BRACKET, QUOTE, SPACE, UPPER_E, ZERO,
};
use crate::grammar::{
    after_digits, after_space, at, document, escape, false_word, hex4, hex_run, is_space, items,
    lemma_after_digits, lemma_after_space, lemma_name_end, lemma_string_end, lemma_value_end,
    literal, members, name, null_word, number, string, string_bytes, true_word, value, Outcome,
};
use crate::json::{ErrorKind, Json};
use crate::text::is_digit;

verus! {

/// An outcome with all offsets moved.
pub open spec fn moved<T>(r: Outcome<T>, by: int) -> Outcome<T> {
    match r {
        Ok((v, end)) => Ok((v, end + by)),
        Err((offset, kind)) => Err((offset + by, kind)),
    }
}

pub proof fn lemma_space_moved(w: Seq<u8>, b: Seq<u8>, i: int)
    requires
        0 <= i,
    ensures
        after_space(w + b, w.len() + i) == w.len() + after_space(b, i),
    decreases b.len() - i,
{
    if i < b.len() && is_space(b[i]) {
        lemma_space_moved(w, b, i + 1);
    }
}

proof fn lemma_digits_moved(w: Seq<u8>, b: Seq<u8>, i: int)
    requires
        0 <= i,
    ensures
        after_digits(w + b, w.len() + i) == w.len() + after_digits(b, i),
    decreases b.len() - i,
{
    if i < b.len() && is_digit(b[i]) {
        lemma_digits_moved(w, b, i + 1);
    }
}

pub proof fn lemma_part_moved(w: Seq<u8>, b: Seq<u8>, from: int, to: int)
    requires
        0 <= from <= to <= b.len(),
    ensures
        (w + b).subrange(w.len() + from, w.len() + to) == b.subrange(from, to),
{
    assert((w + b).subrange(w.len() + from, w.len() + to) =~= b.subrange(from, to));
}

proof fn lemma_literal_moved(w: Seq<u8>, b: Seq<u8>, i: int, word: Seq<u8>, v: Json)
    requires
        0 <= i,
    ensures
        literal(w + b, w.len() + i, word, v) == moved(literal(b, i, word, v), w.len() as int),
{
    if i + word.len() <= b.len() {
        lemma_part_moved(w, b, i, i + word.len());
    }
}

proof fn lemma_number_moved(w: Seq<u8>, b: Seq<u8>, start: int)
    requires
        0 <= start < b.len(),
    ensures
        number(w + b, w.len() + start) == moved(number(b, start), w.len() as int),
{
    let c = w + b;
    let n = w.len() as int;
    let s = if at(b, start, MINUS) {
        start + 1
    } else {
        start
    };
    if s < b.len() && is_digit(b[s]) {
        lemma_digits_moved(w, b, s);
        lemma_after_digits(b, s);
        let whole_end = if b[s] == ZERO {
            s + 1
        } else {
            after_digits(b, s)
        };
        let point = at(b, whole_end, DOT);
        lemma_digits_moved(w, b, whole_end + 1);
        lemma_after_digits(b, whole_end + 1);
        let part_end = if point {
            after_digits(b, whole_end + 1)
        } else {
            whole_end
        };
        lemma_digits_moved(w, b, part_end + 1);
        lemma_digits_moved(w, b, part_end + 2);
        lemma_after_digits(b, part_end + 1);
        lemma_after_digits(b, part_end + 2);
        lemma_part_moved(w, b, s, whole_end);
        if point {
            lemma_part_moved(w, b, whole_end + 1, part_end);
        }
        assert forall|x: int, y: int| 0 <= x <= y <= b.len() implies #[trigger] b.subrange(x, y)
            == c.subrange(n + x, n + y) by {
            lemma_part_moved(w, b, x, y);
        }
    }
}

proof fn lemma_hex_moved(w: Seq<u8>, b: Seq<u8>, i: int)
    requires
        0 <= i,
    ensures
        hex4(w + b, w.len() + i) == moved(hex4(b, i), w.len() as int),
{
    reveal_with_fuel(hex_run, 5);
}

#[verifier::spinoff_prover]
proof fn lemma_escape_moved(w: Seq<u8>, b: Seq<u8>, start: int)
    requires
        0 <= start < b.len(),
    ensures
        escape(w + b, w.len() + start) == moved(escape(b, start), w.len() as int),
{
    if start + 1 < b.len() && b[start + 1] == LOWER_U {
        lemma_hex_moved(w, b, start + 2);
        match hex4(b, start + 2) {
            Ok((unit, i)) => {
                lemma_hex_moved(w, b, i + 2);
            },
            Err(e) => {},
        }
    }
}

/// A string is the same wherever it stands.
#[verifier::spinoff_prover]
pub proof fn lemma_string_moved(w: Seq<u8>, b: Seq<u8>, i: int)
    requires
        0 <= i,
    ensures
        string_bytes(w + b, w.len() + i) == moved(string_bytes(b, i), w.len() as int),
    decreases b.len() - i,
{
    if i < b.len() && b[i] != QUOTE {
        if b[i] == BACKSLASH {
            lemma_escape_moved(w, b, i);
            match escape(b, i) {
                Ok((c, j)) => {
                    lemma_string_moved(w, b, j);
                },
                Err(e) => {},
            }
        } else if b[i] >= SPACE {
            lemma_string_moved(w, b, i + 1);
        }
    }
}

#[verifier::spinoff_prover]
pub proof fn lemma_value_moved(w: Seq<u8>, b: Seq<u8>, i: int, depth: nat)
    requires
        0 <= i,
    ensures
        value(w + b, w.len() + i, depth) == moved(value(b, i, depth), w.len() as int),
    decreases b.len() - i, 1nat,
{
    if i < b.len() {
        let first = after_space(b, i + 1);
        lemma_after_space(b, i + 1);
        lemma_space_moved(w, b, i + 1);
        assert((w + b)[w.len() + i] == b[i]);
        if b[i] == OPEN_BRACE {
            assert(at(w + b, w.len() + first, CLOSE_BRACE) == at(b, first, CLOSE_BRACE));
            lemma_members_moved(w, b, first, depth + 1);
        } else if b[i] == OPEN_BRACKET {
            assert(at(w + b, w.len() + first, CLOSE_BRACKET) == at(b, first, CLOSE_BRACKET));
            lemma_items_moved(w, b, first, depth + 1);
        } else if b[i] == QUOTE {
            lemma_string_moved(w, b, i + 1);
        } else if b[i] == LOWER_T {
            lemma_literal_moved(w, b, i, true_word(), Json::Bool(true));
        } else if b[i] == LOWER_F {
            lemma_literal_moved(w, b, i, false_word(), Json::Bool(false));
        } else if b[i] == LOWER_N {
            lemma_literal_moved(w, b, i, null_word(), Json::Null);
        } else if b[i] == MINUS || is_digit(b[i]) {
            lemma_number_moved(w, b, i);
        }
    }
}

#[verifier::spinoff_prover]
pub proof fn lemma_items_moved(w: Seq<u8>, b: Seq<u8>, i: int, depth: nat)
    requires
        0 <= i,
    ensures
        items(w + b, w.len() + i, depth) == moved(items(b, i, depth), w.len() as int),
    decreases b.len() - i, 2nat,
{
    lemma_value_moved(w, b, i, depth);
    lemma_value_end(b, i, depth);
    match value(b, i, depth) {
        Ok((item, j)) => {
            let k = after_space(b, j);
            lemma_after_space(b, j);
            lemma_space_moved(w, b, j);
            if k < b.len() && b[k] == COMMA {
                lemma_after_space(b, k + 1);
                lemma_space_moved(w, b, k + 1);
                lemma_items_moved(w, b, after_space(b, k + 1), depth);
            }
        },
        Err(e) => {},
    }
}

#[verifier::spinoff_prover]
proof fn lemma_name_moved(w: Seq<u8>, b: Seq<u8>, i: int)
    requires
        0 <= i,
    ensures
        name(w + b, w.len() + i) == moved(name(b, i), w.len() as int),
{
    let c = w + b;
    let n = w.len() as int;
    if i < b.len() && b[i] == QUOTE {
        assert(c[n + i] == b[i]);
        assert(string(c, n + i) == moved(string(b, i), n)) by {
            lemma_string_moved(w, b, i + 1);
        }
        lemma_string_end(b, i + 1);
        if string(b, i) is Ok {
            let (key, j) = string(b, i)->Ok_0;
            let k = after_space(b, j);
            lemma_after_space(b, j);
            lemma_space_moved(w, b, j);
            lemma_space_moved(w, b, k + 1);
            assert(k < b.len() ==> c[n + k] == b[k]);
        }
    }
}

/// What is read behind a member, given what is read behind the comma.
pub open spec fn behind_member(
    b: Seq<u8>,
    k: int,
    member: (Seq<char>, Json),
    rest: Outcome<Seq<(Seq<char>, Json)>>,
) -> Outcome<Seq<(Seq<char>, Json)>> {
    if k >= b.len() {
        Err((k, ErrorKind::UnexpectedEof))
    } else if b[k] == COMMA {
        match rest {
            Ok((list, end)) => Ok((seq![member] + list, end)),
            Err(e) => Err(e),
        }
    } else if b[k] == CLOSE_BRACE {
        Ok((seq![member], k + 1))
    } else {
        Err((k, ErrorKind::ExpectedCommaOrCloseBrace))
    }
}

/// The members of an object are one member and what stands behind it.
pub proof fn lemma_member_read(
    b: Seq<u8>,
    i: int,
    depth: nat,
    key: Seq<char>,
    v: int,
    field: Json,
    j: int,
)
    requires
        0 <= i,
        name(b, i) == Ok::<(Seq<char>, int), (int, ErrorKind)>((key, v)),
        value(b, v, depth) == Ok::<(Json, int), (int, ErrorKind)>((field, j)),
    ensures
        0 <= i < v < j <= b.len(),
        members(b, i, depth) == behind_member(
            b,
            after_space(b, j),
            (key, field),
            members(b, after_space(b, after_space(b, j) + 1), depth),
        ),
{
    lemma_name_end(b, i);
    lemma_value_end(b, v, depth);
}

/// Without a member there is its error.
pub proof fn lemma_member_fails(b: Seq<u8>, i: int, depth: nat)
    requires
        0 <= i,
    ensures
        name(b, i) matches Err(e) ==> members(b, i, depth) == Err::<
            (Seq<(Seq<char>, Json)>, int),
            (int, ErrorKind),
        >(e),
        name(b, i) matches Ok((key, v)) ==> (value(b, v, depth) matches Err(e) ==> members(
            b,
            i,
            depth,
        ) == Err::<(Seq<(Seq<char>, Json)>, int), (int, ErrorKind)>(e)),
{
    lemma_name_end(b, i);
}

#[verifier::spinoff_prover]
pub proof fn lemma_members_moved(w: Seq<u8>, b: Seq<u8>, i: int, depth: nat)
    requires
        0 <= i,
    ensures
        members(w + b, w.len() + i, depth) == moved(members(b, i, depth), w.len() as int),
    decreases b.len() - i, 2nat,
{
    let c = w + b;
    let n = w.len() as int;
    lemma_name_moved(w, b, i);
    lemma_name_end(b, i);
    lemma_member_fails(b, i, depth);
    lemma_member_fails(c, n + i, depth);
    if name(b, i) is Ok {
        let (key, v) = name(b, i)->Ok_0;
        lemma_value_moved(w, b, v, depth);
        if value(b, v, depth) is Ok {
            let (field, j) = value(b, v, depth)->Ok_0;
            let k = after_space(b, j);
            let next = after_space(b, k + 1);
            lemma_member_read(b, i, depth, key, v, field, j);
            lemma_member_read(c, n + i, depth, key, n + v, field, n + j);
            lemma_after_space(b, j);
            lemma_after_space(b, k + 1);
            lemma_space_moved(w, b, j);
            lemma_space_moved(w, b, k + 1);
            let rest = members(b, next, depth);
            if k < b.len() {
                lemma_members_moved(w, b, next, depth);
                lemma_behind_moved(w, b, k, (key, field), rest, moved(rest, n));
            }
        }
    }
}

proof fn lemma_behind_moved(
    w: Seq<u8>,
    b: Seq<u8>,
    k: int,
    member: (Seq<char>, Json),
    rest: Outcome<Seq<(Seq<char>, Json)>>,
    rest_moved: Outcome<Seq<(Seq<char>, Json)>>,
)
    requires
        0 <= k,
        rest_moved == moved(rest, w.len() as int),
    ensures
        behind_member(w + b, w.len() + k, member, rest_moved) == moved(
            behind_member(b, k, member, rest),
            w.len() as int,
        ),
{
}

pub proof fn lemma_part_kept(b: Seq<u8>, x: Seq<u8>, from: int, to: int)
    requires
        0 <= from <= to <= b.len(),
    ensures
        (b + x).subrange(from, to) == b.subrange(from, to),
{
    assert((b + x).subrange(from, to) =~= b.subrange(from, to));
}

/// White space that ends before the end is the same with more behind it.
pub proof fn lemma_space_kept(b: Seq<u8>, x: Seq<u8>, i: int)
    requires
        0 <= i <= b.len(),
    ensures
        after_space(b, i) < b.len() ==> after_space(b + x, i) == after_space(b, i),
        after_space(b, i) == b.len() ==> after_space(b + x, i) == after_space(
            b + x,
            b.len() as int,
        ),
    decreases b.len() - i,
{
    if i < b.len() && is_space(b[i]) {
        lemma_space_kept(b, x, i + 1);
    }
}

proof fn lemma_digits_kept(b: Seq<u8>, x: Seq<u8>, i: int)
    requires
        0 <= i,
        x.len() > 0 ==> !is_digit(x[0]),
    ensures
        i <= b.len() ==> after_digits(b + x, i) == after_digits(b, i),
    decreases b.len() - i,
{
    if i < b.len() && is_digit(b[i]) {
        lemma_digits_kept(b, x, i + 1);
    }
}

/// Whether a byte cannot go on a number.
pub open spec fn ends_number(b: u8) -> bool {
    !is_digit(b) && b != DOT && b != LOWER_E && b != UPPER_E
}

proof fn lemma_number_kept(b: Seq<u8>, x: Seq<u8>, start: int)
    requires
        0 <= start < b.len(),
        x.len() > 0 ==> ends_number(x[0]),
        number(b, start) is Ok,
    ensures
        number(b + x, start) == number(b, start),
{
    let c = b + x;
    let s = if at(b, start, MINUS) {
        start + 1
    } else {
        start
    };
    lemma_digits_kept(b, x, s);
    lemma_after_digits(b, s);
    let whole_end = if b[s] == ZERO {
        s + 1
    } else {
        after_digits(b, s)
    };
    let point = at(b, whole_end, DOT);
    assert(at(c, whole_end, DOT) == point);
    lemma_digits_kept(b, x, whole_end + 1);
    lemma_after_digits(b, whole_end + 1);
    let part_end = if point {
        after_digits(b, whole_end + 1)
    } else {
        whole_end
    };
    assert(at(c, part_end, LOWER_E) == at(b, part_end, LOWER_E));
    assert(at(c, part_end, UPPER_E) == at(b, part_end, UPPER_E));
    lemma_digits_kept(b, x, part_end + 1);
    lemma_digits_kept(b, x, part_end + 2);
    lemma_after_digits(b, part_end + 1);
    lemma_after_digits(b, part_end + 2);
    lemma_part_kept(b, x, s, whole_end);
    if point {
        lemma_part_kept(b, x, whole_end + 1, part_end);
    }
    assert forall|from: int, to: int| 0 <= from <= to <= b.len() implies #[trigger] b.subrange(
        from,
        to,
    ) == c.subrange(from, to) by {
        lemma_part_kept(b, x, from, to);
    }
}

proof fn lemma_escape_kept(b: Seq<u8>, x: Seq<u8>, start: int)
    requires
        0 <= start < b.len(),
        escape(b, start) is Ok,
    ensures
        escape(b + x, start) == escape(b, start),
{
    reveal_with_fuel(hex_run, 5);
}

/// A string is the same with more behind it.
pub proof fn lemma_string_kept(b: Seq<u8>, x: Seq<u8>, i: int)
    requires
        string_bytes(b, i) is Ok,
    ensures
        string_bytes(b + x, i) == string_bytes(b, i),
    decreases b.len() - i,
{
    if b[i] != QUOTE {
        if b[i] == BACKSLASH {
            lemma_escape_kept(b, x, i);
            lemma_string_kept(b, x, escape(b, i)->Ok_0.1);
        } else {
            lemma_string_kept(b, x, i + 1);
        }
    }
}

pub proof fn lemma_value_kept(b: Seq<u8>, x: Seq<u8>, i: int, depth: nat)
    requires
        x.len() > 0 ==> ends_number(x[0]),
        value(b, i, depth) is Ok,
    ensures
        value(b + x, i, depth) == value(b, i, depth),
    decreases b.len() - i, 1nat,
{
    let first = after_space(b, i + 1);
    lemma_after_space(b, i + 1);
    lemma_space_kept(b, x, i + 1);
    if b[i] == OPEN_BRACE {
        if !at(b, first, CLOSE_BRACE) {
            lemma_members_kept(b, x, first, depth + 1);
        }
    } else if b[i] == OPEN_BRACKET {
        if !at(b, first, CLOSE_BRACKET) {
            lemma_items_kept(b, x, first, depth + 1);
        }
    } else if b[i] == QUOTE {
        lemma_string_kept(b, x, i + 1);
    } else if b[i] == LOWER_T {
        lemma_part_kept(b, x, i, i + true_word().len());
    } else if b[i] == LOWER_F {
        lemma_part_kept(b, x, i, i + false_word().len());
    } else if b[i] == LOWER_N {
        lemma_part_kept(b, x, i, i + null_word().len());
    } else {
        lemma_number_kept(b, x, i);
    }
}

proof fn lemma_items_kept(b: Seq<u8>, x: Seq<u8>, i: int, depth: nat)
    requires
        0 <= i,
        x.len() > 0 ==> ends_number(x[0]),
        items(b, i, depth) is Ok,
    ensures
        i < b.len(),
        items(b + x, i, depth) == items(b, i, depth),
    decreases b.len() - i, 2nat,
{
    lemma_value_kept(b, x, i, depth);
    lemma_value_end(b, i, depth);
    let j = value(b, i, depth)->Ok_0.1;
    let k = after_space(b, j);
    lemma_after_space(b, j);
    lemma_space_kept(b, x, j);
    if b[k] == COMMA {
        lemma_after_space(b, k + 1);
        lemma_space_kept(b, x, k + 1);
        lemma_items_kept(b, x, after_space(b, k + 1), depth);
    }
}

proof fn lemma_name_kept(b: Seq<u8>, x: Seq<u8>, i: int)
    requires
        0 <= i,
        name(b, i) is Ok,
        name(b, i)->Ok_0.1 < b.len(),
    ensures
        name(b + x, i) == name(b, i),
{
    lemma_string_kept(b, x, i + 1);
    lemma_string_end(b, i + 1);
    let j = string(b, i)->Ok_0.1;
    let k = after_space(b, j);
    lemma_after_space(b, j);
    lemma_space_kept(b, x, j);
    lemma_space_kept(b, x, k + 1);
}

#[verifier::spinoff_prover]
proof fn lemma_members_kept(b: Seq<u8>, x: Seq<u8>, i: int, depth: nat)
    requires
        0 <= i,
        x.len() > 0 ==> ends_number(x[0]),
        members(b, i, depth) is Ok,
    ensures
        i < b.len(),
        members(b + x, i, depth) == members(b, i, depth),
    decreases b.len() - i, 2nat,
{
    let c = b + x;
    lemma_member_fails(b, i, depth);
    let (key, v) = name(b, i)->Ok_0;
    let (field, j) = value(b, v, depth)->Ok_0;
    lemma_member_read(b, i, depth, key, v, field, j);
    lemma_name_kept(b, x, i);
    lemma_value_kept(b, x, v, depth);
    lemma_member_read(c, i, depth, key, v, field, j);
    let k = after_space(b, j);
    lemma_after_space(b, j);
    lemma_space_kept(b, x, j);
    if b[k] == COMMA {
        let next = after_space(b, k + 1);
        lemma_after_space(b, k + 1);
        lemma_space_kept(b, x, k + 1);
        lemma_members_kept(b, x, next, depth);
    }
}

/// Whether every byte is JSON whitespace.
pub open spec fn all_space(w: Seq<u8>) -> bool {
    forall|i: int| 0 <= i < w.len() ==> is_space(#[trigger] w[i])
}

pub proof fn lemma_space_run(b: Seq<u8>, i: int, end: int)
    requires
        0 <= i <= end <= b.len(),
        forall|j: int| i <= j < end ==> is_space(#[trigger] b[j]),
    ensures
        after_space(b, i) == after_space(b, end),
    decreases end - i,
{
    if i < end {
        assert(is_space(b[i]));
        lemma_space_run(b, i + 1, end);
    }
}

/// A document with whitespace before it has the same value. An error is the
/// same, and its offset is larger by the length of the whitespace.
pub proof fn space_before_a_document_shifts_it(w: Seq<u8>, b: Seq<u8>)
    requires
        all_space(w),
    ensures
        document(w + b) == match document(b) {
            Ok(v) => Ok::<Json, (int, ErrorKind)>(v),
            Err((offset, kind)) => Err((offset + w.len(), kind)),
        },
{
    let c = w + b;
    let n = w.len() as int;
    assert forall|j: int| 0 <= j < n implies is_space(#[trigger] c[j]) by {
        assert(is_space(w[j]));
    }
    lemma_space_run(c, 0, n);
    lemma_space_moved(w, b, 0);
    let i = after_space(b, 0);
    lemma_after_space(b, 0);
    lemma_value_moved(w, b, i, 0);
    lemma_value_end(b, i, 0);
    match value(b, i, 0) {
        Ok((v, j)) => {
            lemma_space_moved(w, b, j);
        },
        Err(e) => {},
    }
}

/// A document with whitespace behind it has the same value.
pub proof fn space_behind_a_document_does_not_matter(b: Seq<u8>, w: Seq<u8>)
    requires
        all_space(w),
        document(b) is Ok,
    ensures
        document(b + w) == document(b),
{
    let c = b + w;
    let n = b.len() as int;
    let i = after_space(b, 0);
    lemma_after_space(b, 0);
    lemma_value_end(b, i, 0);
    lemma_space_kept(b, w, 0);
    if w.len() > 0 {
        assert(is_space(w[0]));
    }
    lemma_value_kept(b, w, i, 0);
    let j = value(b, i, 0)->Ok_0.1;
    lemma_space_kept(b, w, j);
    assert forall|m: int| n <= m < c.len() implies is_space(#[trigger] c[m]) by {
        assert(is_space(w[m - n]));
    }
    lemma_space_run(c, n, c.len() as int);
}

} // verus!
