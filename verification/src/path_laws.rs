//! How paths are put together: a path with one more step written behind it has
//! one more step, and a path with another one written behind it selects what
//! the second selects out of what the first selects.

use vstd::prelude::*;
use vstd::utf8::*;

use crate::ascii::{CLOSE_BRACKET, DOT, OPEN_BRACKET, QUOTE};
use crate::grammar::{at, string};
use crate::integer::number_i64;
use crate::json::{quoted, Json};
use crate::locality::{
    lemma_part_kept, lemma_part_moved, lemma_string_kept, lemma_string_moved,
};
use crate::path::{
    bracket_end, element_path, ends_key, index_path, key_end, key_step, lemma_bracket_end,
    lemma_key_end, lemma_step_end, member_path, path_steps, plain_key, quoted_key, selected,
    selected_from, step_at, step_into_all, steps_from, with_steps, PathErrorKind, Step,
};
use crate::roundtrip::{
    lemma_beyond_ascii, lemma_number_text, lemma_read_string, lemma_subrange, lemma_text_char,
    lemma_text_concat, size, stands, text_at,
};
use crate::text::{
    is_ascii, lemma_encode_ascii, lemma_encode_concat, lemma_encode_empty, signed_text,
};

verus! {

/// Bytes in quotes are no number.
proof fn lemma_quote_no_number(b: Seq<u8>, from: int, to: int)
    requires
        0 <= from < to <= b.len(),
        b[from] == QUOTE,
    ensures
        number_i64(b.subrange(from, to)) is None,
{
    let w = b.subrange(from, to);
    assert(w[0] == QUOTE);
    assert(!crate::text::is_digit(w[0]));
}

proof fn lemma_key_end_kept(b: Seq<u8>, x: Seq<u8>, i: int)
    requires
        0 <= i <= b.len(),
        x.len() > 0 ==> ends_key(x[0]),
    ensures
        key_end(b + x, i) == key_end(b, i),
    decreases b.len() - i,
{
    if i < b.len() && !ends_key(b[i]) {
        lemma_key_end_kept(b, x, i + 1);
    }
}

proof fn lemma_bracket_end_kept(b: Seq<u8>, x: Seq<u8>, i: int)
    requires
        0 <= i <= b.len(),
        bracket_end(b, i) < b.len(),
    ensures
        bracket_end(b + x, i) == bracket_end(b, i),
    decreases b.len() - i,
{
    if i < b.len() && b[i] != CLOSE_BRACKET {
        lemma_bracket_end_kept(b, x, i + 1);
    }
}

/// A step is the same with a separator behind it.
proof fn lemma_step_kept(b: Seq<u8>, x: Seq<u8>, i: int)
    requires
        0 <= i < b.len(),
        x.len() > 0 ==> ends_key(x[0]),
        step_at(b, i) is Ok,
    ensures
        step_at(b + x, i) == step_at(b, i),
{
    let c = b + x;
    lemma_step_end(b, i);
    if b[i] == OPEN_BRACKET {
        let close = bracket_end(b, i + 1);
        lemma_bracket_end(b, i + 1);
        if quoted_key(b, i) is Some {
            lemma_string_kept(b, x, i + 2);
            lemma_part_kept(b, x, i + 1, string(b, i + 1)->Ok_0.1);
        } else {
            if b[i + 1] == QUOTE {
                lemma_quote_no_number(b, i + 1, close);
            }
            lemma_bracket_end_kept(b, x, i + 1);
            lemma_part_kept(b, x, i + 1, close);
            assert(quoted_key(c, i) is None);
        }
    } else {
        let start = if b[i] == DOT {
            i + 1
        } else {
            i
        };
        lemma_key_end(b, start);
        lemma_key_end_kept(b, x, start);
        lemma_part_kept(b, x, start, key_end(b, start));
    }
}

/// The steps of a path come first when a separator and more is behind it.
pub proof fn lemma_steps_kept(b: Seq<u8>, x: Seq<u8>, i: int)
    requires
        0 <= i <= b.len(),
        x.len() > 0 ==> ends_key(x[0]),
        steps_from(b, i) is Ok,
    ensures
        steps_from(b + x, i) == with_steps(
            steps_from(b, i)->Ok_0,
            steps_from(b + x, b.len() as int),
        ),
    decreases b.len() - i,
{
    let c = b + x;
    let rest = steps_from(c, b.len() as int);
    if i == b.len() {
        match rest {
            Ok(tail) => {
                assert(Seq::<Step>::empty() + tail =~= tail);
            },
            Err(e) => {},
        }
    } else {
        lemma_step_end(b, i);
        lemma_step_kept(b, x, i);
        let (step, end) = step_at(b, i)->Ok_0;
        lemma_steps_kept(b, x, end);
        let behind = steps_from(b, end)->Ok_0;
        match rest {
            Ok(tail) => {
                assert(seq![step] + (behind + tail) =~= (seq![step] + behind) + tail);
            },
            Err(e) => {},
        }
    }
}

proof fn lemma_key_end_moved(w: Seq<u8>, b: Seq<u8>, i: int)
    requires
        0 <= i,
    ensures
        key_end(w + b, w.len() + i) == w.len() + key_end(b, i),
    decreases b.len() - i,
{
    if i < b.len() && !ends_key(b[i]) {
        lemma_key_end_moved(w, b, i + 1);
    }
}

proof fn lemma_bracket_end_moved(w: Seq<u8>, b: Seq<u8>, i: int)
    requires
        0 <= i,
    ensures
        bracket_end(w + b, w.len() + i) == w.len() + bracket_end(b, i),
    decreases b.len() - i,
{
    if i < b.len() && b[i] != CLOSE_BRACKET {
        lemma_bracket_end_moved(w, b, i + 1);
    }
}

/// A step is the same wherever it stands.
proof fn lemma_step_moved(w: Seq<u8>, b: Seq<u8>, i: int)
    requires
        0 <= i < b.len(),
        step_at(b, i) is Ok,
    ensures
        step_at(w + b, w.len() + i) == Ok::<(Step, int), (int, PathErrorKind)>(
            (step_at(b, i)->Ok_0.0, w.len() + step_at(b, i)->Ok_0.1),
        ),
{
    let c = w + b;
    let n = w.len() as int;
    lemma_step_end(b, i);
    if b[i] == OPEN_BRACKET {
        lemma_string_moved(w, b, i + 2);
        lemma_bracket_end(b, i + 1);
        lemma_bracket_end_moved(w, b, i + 1);
        let close = bracket_end(b, i + 1);
        assert(at(c, n + i + 1, QUOTE) == at(b, i + 1, QUOTE));
        match string(b, i + 1) {
            Ok((key, end)) => {
                crate::grammar::lemma_string_end(b, i + 2);
                assert(at(c, n + end, CLOSE_BRACKET) == at(b, end, CLOSE_BRACKET));
                lemma_part_moved(w, b, i + 1, end);
            },
            Err(e) => {},
        }
        if close < b.len() {
            lemma_part_moved(w, b, i + 1, close);
        }
    } else {
        let start = if b[i] == DOT {
            i + 1
        } else {
            i
        };
        lemma_key_end(b, start);
        lemma_key_end_moved(w, b, start);
        lemma_part_moved(w, b, start, key_end(b, start));
    }
}

/// Steps are the same wherever they stand.
proof fn lemma_steps_moved(w: Seq<u8>, b: Seq<u8>, i: int)
    requires
        0 <= i,
        steps_from(b, i) is Ok,
    ensures
        steps_from(w + b, w.len() + i) == steps_from(b, i),
    decreases b.len() - i,
{
    if i < b.len() {
        lemma_step_end(b, i);
        lemma_step_moved(w, b, i);
        lemma_steps_moved(w, b, step_at(b, i)->Ok_0.1);
    }
}

proof fn lemma_plain_char(c: char)
    requires
        is_ascii(c),
        c != '.' && c != '[' && c != ']',
    ensures
        !ends_key(c as u8),
{
}

/// No byte of a plain key separates segments.
proof fn lemma_key_bytes(key: Seq<char>)
    requires
        forall|i: int|
            0 <= i < key.len() ==> (#[trigger] key[i]) != '.' && key[i] != '[' && key[i] != ']',
    ensures
        forall|i: int| 0 <= i < encode_utf8(key).len() ==> !ends_key(#[trigger] encode_utf8(key)[i]),
    decreases key.len(),
{
    if key.len() > 0 {
        let c = key[0];
        let rest = key.drop_first();
        assert forall|i: int| 0 <= i < rest.len() implies (#[trigger] rest[i]) != '.' && rest[i]
            != '[' && rest[i] != ']' by {
            assert(key[i + 1] != '.');
        }
        lemma_key_bytes(rest);
        assert(key =~= seq![c] + rest);
        lemma_encode_concat(seq![c], rest);
        let head = encode_utf8(seq![c]);
        if is_ascii(c) {
            lemma_encode_ascii(seq![c]);
            assert(head[0] == c as u8);
            lemma_plain_char(c);
        } else {
            lemma_beyond_ascii(c);
        }
        assert forall|i: int| 0 <= i < encode_utf8(key).len() implies !ends_key(
            #[trigger] encode_utf8(key)[i],
        ) by {
            if i < head.len() {
                assert(encode_utf8(key)[i] == head[i]);
            } else {
                assert(encode_utf8(key)[i] == encode_utf8(rest)[i - head.len()]);
            }
        }
    }
}

/// A key ends where a separator follows it.
pub proof fn lemma_key_run(b: Seq<u8>, i: int, w: Seq<u8>)
    requires
        stands(b, i, w),
        forall|j: int| 0 <= j < w.len() ==> !ends_key(#[trigger] w[j]),
        i + w.len() < b.len() ==> ends_key(b[i + w.len()]),
    ensures
        key_end(b, i) == i + w.len(),
    decreases w.len(),
{
    if w.len() > 0 {
        let rest = w.drop_first();
        assert(b[i + 0] == w[0]);
        assert forall|j: int| 0 <= j < rest.len() implies b[i + 1 + j] == #[trigger] rest[j] by {
            assert(b[i + (j + 1)] == w[j + 1]);
        }
        assert forall|j: int| 0 <= j < rest.len() implies !ends_key(#[trigger] rest[j]) by {
            assert(!ends_key(w[j + 1]));
        }
        lemma_key_run(b, i + 1, rest);
    }
}

/// A plain key at the end of a path is read.
proof fn lemma_read_key(b: Seq<u8>, i: int, key: Seq<char>)
    requires
        plain_key(key),
        text_at(b, i, key),
        i + size(key) == b.len(),
    ensures
        0 <= i < b.len(),
        !ends_key(b[i]),
        key_step(b, i) == Ok::<(Step, int), (int, PathErrorKind)>((Step::Key(key), b.len() as int)),
{
    lemma_key_bytes(key);
    lemma_encode_empty(key);
    lemma_key_run(b, i, encode_utf8(key));
    lemma_subrange(b, i, encode_utf8(key));
    encode_utf8_decode_utf8(key);
    assert(b[i + 0] == encode_utf8(key)[0]);
}

/// Whether the path ends with one step at an offset.
spec fn ends_with(b: Seq<u8>, i: int, step: Step) -> bool {
    &&& 0 <= i < b.len()
    &&& step_at(b, i) == Ok::<(Step, int), (int, PathErrorKind)>((step, b.len() as int))
}

/// A key in brackets at the end of a path is read.
proof fn lemma_read_quoted(b: Seq<u8>, i: int, key: Seq<char>)
    requires
        !plain_key(key),
        text_at(b, i, seq!['['] + quoted(key) + seq![']']),
        i + size(seq!['['] + quoted(key) + seq![']']) == b.len(),
    ensures
        ends_with(b, i, Step::Key(key)),
        b[i] == OPEN_BRACKET,
{
    let text = quoted(key);
    lemma_text_concat(b, i, seq!['['] + text, seq![']']);
    lemma_text_concat(b, i, seq!['['], text);
    lemma_text_char(b, i, '[');
    lemma_read_string(b, i + 1, key);
    lemma_subrange(b, i + 1, encode_utf8(text));
    lemma_text_char(b, i + 1 + size(text), ']');
    assert(quoted_key(b, i) == Some((key, b.len() as int)));
}

/// A wildcard at the end of a path is read.
proof fn lemma_read_wildcard(b: Seq<u8>, i: int)
    requires
        text_at(b, i, seq!['[', ']']),
        i + size(seq!['[', ']']) == b.len(),
    ensures
        ends_with(b, i, Step::Wildcard),
        b[i] == OPEN_BRACKET,
{
    assert(seq!['[', ']'] =~= seq!['['] + seq![']']);
    lemma_text_concat(b, i, seq!['['], seq![']']);
    lemma_text_char(b, i, '[');
    lemma_text_char(b, i + 1, ']');
    assert(bracket_end(b, i + 1) == i + 1);
    assert(quoted_key(b, i) is None);
}

/// The brackets round some bytes close behind them.
pub proof fn lemma_bracket_run(b: Seq<u8>, i: int, w: Seq<u8>)
    requires
        stands(b, i, w),
        forall|j: int| 0 <= j < w.len() ==> #[trigger] w[j] != CLOSE_BRACKET,
        at(b, i + w.len(), CLOSE_BRACKET),
    ensures
        bracket_end(b, i) == i + w.len(),
    decreases w.len(),
{
    if w.len() > 0 {
        let rest = w.drop_first();
        assert(b[i + 0] == w[0]);
        assert forall|j: int| 0 <= j < rest.len() implies b[i + 1 + j] == #[trigger] rest[j] by {
            assert(b[i + (j + 1)] == w[j + 1]);
        }
        assert forall|j: int| 0 <= j < rest.len() implies #[trigger] rest[j] != CLOSE_BRACKET by {
            assert(w[j + 1] != CLOSE_BRACKET);
        }
        lemma_bracket_run(b, i + 1, rest);
    }
}

/// An index at the end of a path is read.
proof fn lemma_read_index(b: Seq<u8>, i: int, index: i64)
    requires
        text_at(b, i, seq!['['] + signed_text(index as int) + seq![']']),
        i + size(seq!['['] + signed_text(index as int) + seq![']']) == b.len(),
    ensures
        ends_with(b, i, Step::Index(index)),
        b[i] == OPEN_BRACKET,
{
    let text = signed_text(index as int);
    let w = encode_utf8(text);
    lemma_text_concat(b, i, seq!['['] + text, seq![']']);
    lemma_text_concat(b, i, seq!['['], text);
    lemma_text_char(b, i, '[');
    lemma_text_char(b, i + 1 + size(text), ']');
    lemma_number_text(index);
    lemma_bracket_run(b, i + 1, w);
    lemma_subrange(b, i + 1, w);
    assert(b[i + 1 + 0] == w[0]);
    assert(quoted_key(b, i) is None);
}

/// A path with a step at its end has this step more.
proof fn lemma_one_more(a: Seq<u8>, x: Seq<u8>, step: Step)
    requires
        path_steps(a) is Ok,
        x.len() > 0,
        ends_key(x[0]),
        ends_with(a + x, a.len() as int, step),
    ensures
        path_steps(a + x) == Ok::<Seq<Step>, (int, PathErrorKind)>(
            path_steps(a)->Ok_0.push(step),
        ),
{
    let c = a + x;
    let steps = path_steps(a)->Ok_0;
    lemma_steps_kept(a, x, 0);
    assert(steps_from(c, c.len() as int) == Ok::<Seq<Step>, (int, PathErrorKind)>(Seq::empty()));
    assert(seq![step] + Seq::<Step>::empty() =~= seq![step]);
    assert(steps + seq![step] =~= steps.push(step));
}

/// A path with a key written behind it has one segment more, this key: behind
/// a dot, if the key can stand in a path as it is, or else in quotes between
/// brackets.
pub proof fn paths_are_extended_by_keys(path: Seq<char>, key: Seq<char>)
    requires
        path_steps(encode_utf8(path)) is Ok,
    ensures
        ({
            let steps = path_steps(encode_utf8(path))->Ok_0.push(Step::Key(key));
            let expected = Ok::<Seq<Step>, (int, PathErrorKind)>(steps);
            &&& plain_key(key) ==> path_steps(encode_utf8(path + seq!['.'] + key)) == expected
            &&& !plain_key(key) ==> path_steps(
                encode_utf8(path + (seq!['['] + quoted(key) + seq![']'])),
            ) == expected
            &&& path_steps(encode_utf8(member_path(path, key))) == expected
        }),
{
    let a = encode_utf8(path);
    lemma_encode_empty(path);
    if !plain_key(key) {
        let in_quotes = seq!['['] + quoted(key) + seq![']'];
        lemma_encode_concat(path, in_quotes);
        let c = a + encode_utf8(in_quotes);
        assert(text_at(c, a.len() as int, in_quotes));
        lemma_read_quoted(c, a.len() as int, key);
        assert(c[a.len() as int] == encode_utf8(in_quotes)[0]);
        lemma_one_more(a, encode_utf8(in_quotes), Step::Key(key));
    } else {
        let dotted = seq!['.'] + key;
        assert(path + seq!['.'] + key =~= path + dotted);
        lemma_encode_concat(path, dotted);
        let d = a + encode_utf8(dotted);
        assert(text_at(d, a.len() as int, dotted));
        lemma_text_concat(d, a.len() as int, seq!['.'], key);
        lemma_text_char(d, a.len() as int, '.');
        lemma_read_key(d, (a.len() + 1) as int, key);
        assert(d[a.len() as int] == encode_utf8(dotted)[0]);
        lemma_one_more(a, encode_utf8(dotted), Step::Key(key));
    }
}

/// A path with `[]` behind it has one segment more, the wildcard.
pub proof fn paths_are_extended_by_wildcards(path: Seq<char>)
    requires
        path_steps(encode_utf8(path)) is Ok,
    ensures
        path_steps(encode_utf8(element_path(path))) == Ok::<Seq<Step>, (int, PathErrorKind)>(
            path_steps(encode_utf8(path))->Ok_0.push(Step::Wildcard),
        ),
{
    let a = encode_utf8(path);
    let text = seq!['[', ']'];
    lemma_encode_concat(path, text);
    let c = a + encode_utf8(text);
    assert(text_at(c, a.len() as int, text));
    lemma_read_wildcard(c, a.len() as int);
    assert(c[a.len() as int] == encode_utf8(text)[0]);
    lemma_one_more(a, encode_utf8(text), Step::Wildcard);
}

/// A path with an index in brackets behind it has one segment more, this index.
pub proof fn paths_are_extended_by_indices(path: Seq<char>, index: i64)
    requires
        path_steps(encode_utf8(path)) is Ok,
    ensures
        path_steps(encode_utf8(index_path(path, index))) == Ok::<Seq<Step>, (int, PathErrorKind)>(
            path_steps(encode_utf8(path))->Ok_0.push(Step::Index(index)),
        ),
{
    let a = encode_utf8(path);
    let text = seq!['['] + signed_text(index as int) + seq![']'];
    lemma_encode_concat(path, text);
    let c = a + encode_utf8(text);
    assert(text_at(c, a.len() as int, text));
    lemma_read_index(c, a.len() as int, index);
    assert(c[a.len() as int] == encode_utf8(text)[0]);
    lemma_one_more(a, encode_utf8(text), Step::Index(index));
}

/// The text of steps. Keys that can stand in a path as they are stand behind a
/// dot, the others in quotes between brackets.
pub open spec fn written(steps: Seq<Step>) -> Seq<char>
    decreases steps.len(),
{
    if steps.len() == 0 {
        Seq::empty()
    } else {
        let before = written(steps.drop_last());
        match steps.last() {
            Step::Key(key) => member_path(before, key),
            Step::Index(index) => index_path(before, index),
            Step::Wildcard => element_path(before),
        }
    }
}

/// A path of one step.
proof fn lemma_only_step(b: Seq<u8>, step: Step)
    requires
        ends_with(b, 0, step),
    ensures
        path_steps(b) == Ok::<Seq<Step>, (int, PathErrorKind)>(seq![step]),
{
    assert(steps_from(b, b.len() as int) == Ok::<Seq<Step>, (int, PathErrorKind)>(Seq::empty()));
    assert(seq![step] + Seq::<Step>::empty() =~= seq![step]);
}

proof fn lemma_first_written(step: Step)
    ensures
        path_steps(encode_utf8(written(seq![step]))) == Ok::<Seq<Step>, (int, PathErrorKind)>(
            seq![step],
        ),
{
    let before = Seq::<char>::empty();
    let text = written(seq![step]);
    let b = encode_utf8(text);
    assert(seq![step].drop_last() =~= Seq::<Step>::empty());
    assert(written(seq![step].drop_last()) =~= before);
    assert(text_at(b, 0, text));
    match step {
        Step::Key(key) => {
            if plain_key(key) {
                lemma_read_key(b, 0, key);
            } else {
                assert(text =~= seq!['['] + quoted(key) + seq![']']);
                lemma_read_quoted(b, 0, key);
            }
        },
        Step::Index(index) => {
            assert(text =~= seq!['['] + signed_text(index as int) + seq![']']);
            lemma_read_index(b, 0, index);
        },
        Step::Wildcard => {
            assert(text =~= seq!['[', ']']);
            lemma_read_wildcard(b, 0);
        },
    }
    lemma_only_step(b, step);
}

/// The text of steps, whatever their keys and indices are, is parsed as these
/// steps.
pub proof fn written_steps_are_read_back(steps: Seq<Step>)
    requires
        steps.len() > 0,
    ensures
        path_steps(encode_utf8(written(steps))) == Ok::<Seq<Step>, (int, PathErrorKind)>(steps),
    decreases steps.len(),
{
    let rest = steps.drop_last();
    if rest.len() == 0 {
        assert(steps =~= seq![steps.last()]);
        lemma_first_written(steps.last());
    } else {
        written_steps_are_read_back(rest);
        let path = written(rest);
        assert(rest.push(steps.last()) =~= steps);
        match steps.last() {
            Step::Key(key) => {
                paths_are_extended_by_keys(path, key);
            },
            Step::Index(index) => {
                paths_are_extended_by_indices(path, index);
            },
            Step::Wildcard => {
                paths_are_extended_by_wildcards(path);
            },
        }
    }
}

/// A path with another one behind it.
pub open spec fn joined_path(first: Seq<char>, second: Seq<char>) -> Seq<char> {
    if second.len() > 0 && second[0] == '[' {
        first + second
    } else {
        first + seq!['.'] + second
    }
}

proof fn lemma_no_bracket(c: char)
    requires
        is_ascii(c),
        c != '[',
    ensures
        c as u8 != OPEN_BRACKET,
{
}

/// A path that does not start with a bracket starts with a key.
proof fn lemma_starts_with_key(path: Seq<char>)
    requires
        path_steps(encode_utf8(path)) is Ok,
        path[0] != '[',
    ensures
        encode_utf8(path).len() > 0,
        !ends_key(encode_utf8(path)[0]),
{
    let b = encode_utf8(path);
    lemma_encode_empty(path);
    let c = path[0];
    let rest = path.drop_first();
    assert(path =~= seq![c] + rest);
    lemma_encode_concat(seq![c], rest);
    lemma_encode_empty(seq![c]);
    assert(b[0] == encode_utf8(seq![c])[0]);
    if is_ascii(c) {
        lemma_encode_ascii(seq![c]);
        assert(b[0] == c as u8);
        lemma_no_bracket(c);
    } else {
        lemma_beyond_ascii(c);
    }
    assert(step_at(b, 0) is Ok);
}

/// A path with another one behind it, the second behind a dot unless it starts
/// with a bracket, has the segments of both, one after the other.
pub proof fn joined_paths_have_the_segments_of_both(first: Seq<char>, second: Seq<char>)
    requires
        path_steps(encode_utf8(first)) is Ok,
        path_steps(encode_utf8(second)) is Ok,
    ensures
        path_steps(encode_utf8(joined_path(first, second))) == Ok::<
            Seq<Step>,
            (int, PathErrorKind),
        >(path_steps(encode_utf8(first))->Ok_0 + path_steps(encode_utf8(second))->Ok_0),
{
    let a = encode_utf8(first);
    let b = encode_utf8(second);
    lemma_encode_empty(second);
    if second[0] == '[' {
        let rest = second.drop_first();
        assert(second =~= seq!['['] + rest);
        lemma_encode_concat(seq!['['], rest);
        lemma_encode_ascii(seq!['[']);
        assert(b[0] == encode_utf8(seq!['['])[0]);
        lemma_encode_concat(first, second);
        lemma_steps_kept(a, b, 0);
        lemma_steps_moved(a, b, 0);
    } else {
        let dot = encode_utf8(seq!['.']);
        lemma_encode_ascii(seq!['.']);
        assert(dot[0] == DOT);
        lemma_encode_concat(first, seq!['.']);
        lemma_encode_concat(first + seq!['.'], second);
        lemma_starts_with_key(second);
        let w = a + dot;
        let x = dot + b;
        let c = w + b;
        assert(c =~= a + x);
        lemma_steps_kept(a, x, 0);
        lemma_step_moved(w, b, 0);
        lemma_steps_moved(w, b, 0);
        assert(c[a.len() as int] == DOT);
        assert(c[w.len() as int] == b[0]);
        assert(step_at(c, a.len() as int) == step_at(c, w.len() as int));
        lemma_step_end(c, a.len() as int);
        lemma_step_end(c, w.len() as int);
    }
}

pub proof fn lemma_selected_none(steps: Seq<Step>)
    ensures
        selected_from(steps, Seq::<Json>::empty()) == Seq::<Json>::empty(),
    decreases steps.len(),
{
    if steps.len() > 0 {
        assert(step_into_all(steps[0], Seq::<Json>::empty()) =~= Seq::<Json>::empty());
        lemma_selected_none(steps.drop_first());
    }
}

proof fn lemma_into_all_concat(step: Step, a: Seq<Json>, b: Seq<Json>)
    ensures
        step_into_all(step, a + b) == step_into_all(step, a) + step_into_all(step, b),
    decreases b.len(),
{
    if b.len() == 0 {
        assert(a + b =~= a);
        assert(step_into_all(step, a) + step_into_all(step, b) =~= step_into_all(step, a));
    } else {
        assert((a + b).drop_last() =~= a + b.drop_last());
        lemma_into_all_concat(step, a, b.drop_last());
        assert(step_into_all(step, a + b) =~= step_into_all(step, a) + step_into_all(step, b));
    }
}

/// Selecting out of several values selects out of each.
pub proof fn lemma_selected_concat(steps: Seq<Step>, a: Seq<Json>, b: Seq<Json>)
    ensures
        selected_from(steps, a + b) == selected_from(steps, a) + selected_from(steps, b),
    decreases steps.len(),
{
    if steps.len() > 0 {
        lemma_into_all_concat(steps[0], a, b);
        lemma_selected_concat(
            steps.drop_first(),
            step_into_all(steps[0], a),
            step_into_all(steps[0], b),
        );
    }
}

/// What a path selects out of each of several values, one after the other.
pub open spec fn selected_each(steps: Seq<Step>, values: Seq<Json>) -> Seq<Json>
    decreases values.len(),
{
    if values.len() == 0 {
        Seq::empty()
    } else {
        selected_each(steps, values.drop_last()) + selected(steps, values.last())
    }
}

proof fn lemma_selected_each(steps: Seq<Step>, values: Seq<Json>)
    ensures
        selected_from(steps, values) == selected_each(steps, values),
    decreases values.len(),
{
    if values.len() == 0 {
        assert(values =~= Seq::<Json>::empty());
        lemma_selected_none(steps);
    } else {
        lemma_selected_each(steps, values.drop_last());
        assert(values.drop_last() + seq![values.last()] =~= values);
        lemma_selected_concat(steps, values.drop_last(), seq![values.last()]);
    }
}

proof fn lemma_selected_on(first: Seq<Step>, second: Seq<Step>, values: Seq<Json>)
    ensures
        selected_from(first + second, values) == selected_from(
            second,
            selected_from(first, values),
        ),
    decreases first.len(),
{
    if first.len() == 0 {
        assert(first + second =~= second);
    } else {
        assert((first + second).drop_first() =~= first.drop_first() + second);
        lemma_selected_on(first.drop_first(), second, step_into_all(first[0], values));
    }
}

/// A path with another one behind it selects, in their order, what the second
/// selects out of each value that the first selects.
pub proof fn joined_paths_select_in_turn(first: Seq<char>, second: Seq<char>, document: Json)
    requires
        path_steps(encode_utf8(first)) is Ok,
        path_steps(encode_utf8(second)) is Ok,
    ensures
        ({
            let p = path_steps(encode_utf8(first))->Ok_0;
            let q = path_steps(encode_utf8(second))->Ok_0;
            &&& path_steps(encode_utf8(joined_path(first, second))) matches Ok(pq)
            &&& selected(pq, document) == selected_each(q, selected(p, document))
        }),
{
    let p = path_steps(encode_utf8(first))->Ok_0;
    let q = path_steps(encode_utf8(second))->Ok_0;
    joined_paths_have_the_segments_of_both(first, second);
    lemma_selected_on(p, q, seq![document]);
    lemma_selected_each(q, selected(p, document));
}

} // verus!
