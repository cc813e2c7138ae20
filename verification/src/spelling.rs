//! How the segments of a path are spelled, and what is refused in a path.

use vstd::prelude::*;
use vstd::utf8::*;

use crate::integer::number_i64;
use crate::numerals::{are_digits, integers_are_read_by_their_places, place_value};
use crate::path::{
    bracket_end, key_end, lemma_bracket_end, path_steps, quoted_key, step_at, steps_from,
    PathErrorKind, Step,
};
use crate::path_laws::{lemma_bracket_run, lemma_key_run, lemma_steps_kept};
use crate::roundtrip::{lemma_subrange, stands};

verus! {

/// Whether bytes can be a key between dots: none is a dot or a bracket.
pub open spec fn is_key(w: Seq<u8>) -> bool {
    &&& w.len() > 0
    &&& forall|i: int| 0 <= i < w.len() ==> #[trigger] w[i] != 46 && w[i] != 91 && w[i] != 93
}

/// What is read behind a path that is in order.
proof fn lemma_behind(a: Seq<u8>, x: Seq<u8>)
    requires
        path_steps(a) is Ok,
        x.len() > 0,
        x[0] == 46 || x[0] == 91 || x[0] == 93,
    ensures
        ({
            let b = a + x;
            let i = a.len() as int;
            &&& a.len() > 0
            &&& b[i] == x[0]
            &&& step_at(b, i) matches Err(e) ==> path_steps(b) == Err::<
                Seq<Step>,
                (int, PathErrorKind),
            >(e)
            &&& step_at(b, i) matches Ok((step, end)) ==> end == b.len() ==> path_steps(b) == Ok::<
                Seq<Step>,
                (int, PathErrorKind),
            >(path_steps(a)->Ok_0.push(step))
        }),
{
    let b = a + x;
    let i = a.len() as int;
    let steps = path_steps(a)->Ok_0;
    lemma_steps_kept(a, x, 0);
    assert(b[i] == x[0]);
    if let Ok((step, end)) = step_at(b, i) {
        if end == b.len() {
            assert(steps_from(b, end) == Ok::<Seq<Step>, (int, PathErrorKind)>(Seq::empty()));
            assert(seq![step] + Seq::<Step>::empty() =~= seq![step]);
            assert(steps_from(b, i) == Ok::<Seq<Step>, (int, PathErrorKind)>(seq![step]));
            assert(steps + seq![step] =~= steps.push(step));
        }
    }
}

/// A key is a segment on its own, and behind a dot it is a further one.
pub proof fn keys_are_segments(a: Seq<u8>, w: Seq<u8>)
    requires
        path_steps(a) is Ok,
        is_key(w),
    ensures
        path_steps(w) == Ok::<Seq<Step>, (int, PathErrorKind)>(seq![Step::Key(decode_utf8(w))]),
        path_steps(a + (seq![46u8] + w)) == Ok::<Seq<Step>, (int, PathErrorKind)>(
            path_steps(a)->Ok_0.push(Step::Key(decode_utf8(w))),
        ),
{
    assert(stands(w, 0, w));
    lemma_key_run(w, 0, w);
    assert(w.subrange(0, w.len() as int) =~= w);
    assert(w[0] != 46 && w[0] != 91 && w[0] != 93);
    let step = Step::Key(decode_utf8(w));
    let n = w.len() as int;
    assert(step_at(w, 0) == Ok::<(Step, int), (int, PathErrorKind)>((step, n)));
    assert(steps_from(w, n) == Ok::<Seq<Step>, (int, PathErrorKind)>(Seq::empty()));
    assert(seq![step] + Seq::<Step>::empty() =~= seq![step]);
    let x = seq![46u8] + w;
    let b = a + x;
    let i = a.len() as int;
    lemma_behind(a, x);
    assert(stands(b, i + 1, w)) by {
        assert forall|j: int| 0 <= j < w.len() implies b[i + 1 + j] == #[trigger] w[j] by {}
    }
    lemma_key_run(b, i + 1, w);
    lemma_subrange(b, i + 1, w);
}

proof fn lemma_bracket(a: Seq<u8>, w: Seq<u8>)
    requires
        path_steps(a) is Ok,
        forall|i: int| 0 <= i < w.len() ==> #[trigger] w[i] != 93,
        w.len() > 0 ==> w[0] != 34,
    ensures
        ({
            let b = a + (seq![91u8] + w + seq![93u8]);
            let i = a.len() as int;
            &&& bracket_end(b, i + 1) == i + 1 + w.len()
            &&& quoted_key(b, i) is None
            &&& b.subrange(i + 1, i + 1 + w.len()) == w
            &&& b.len() == i + w.len() + 2
            &&& b[i] == 91
        }),
{
    let b = a + (seq![91u8] + w + seq![93u8]);
    let i = a.len() as int;
    assert(stands(b, i + 1, w)) by {
        assert forall|j: int| 0 <= j < w.len() implies b[i + 1 + j] == #[trigger] w[j] by {}
    }
    assert(b[i + 1 + w.len()] == 93);
    lemma_bracket_run(b, i + 1, w);
    lemma_subrange(b, i + 1, w);
    if w.len() > 0 {
        assert(b[i + 1 + 0] == w[0]);
    }
}

/// A number in brackets is an index, whether it has a sign or zeros before it
/// or not; brackets with nothing in them are the wildcard.
pub proof fn numbers_in_brackets_are_indices(a: Seq<u8>, digits: Seq<u8>)
    requires
        path_steps(a) is Ok,
        are_digits(digits),
        digits.len() > 0,
        place_value(digits) <= i64::MAX,
    ensures
        ({
            let steps = path_steps(a)->Ok_0;
            let n = place_value(digits) as int;
            &&& path_steps(a + (seq![91u8] + digits + seq![93u8])) == Ok::<
                Seq<Step>,
                (int, PathErrorKind),
            >(steps.push(Step::Index(n as i64)))
            &&& path_steps(a + (seq![91u8] + (seq![43u8] + digits) + seq![93u8])) == Ok::<
                Seq<Step>,
                (int, PathErrorKind),
            >(steps.push(Step::Index(n as i64)))
            &&& path_steps(a + (seq![91u8] + (seq![45u8] + digits) + seq![93u8])) == Ok::<
                Seq<Step>,
                (int, PathErrorKind),
            >(steps.push(Step::Index((-n) as i64)))
            &&& path_steps(a + (seq![91u8] + Seq::empty() + seq![93u8])) == Ok::<
                Seq<Step>,
                (int, PathErrorKind),
            >(steps.push(Step::Wildcard))
        }),
{
    integers_are_read_by_their_places(digits);
    assert forall|i: int| 0 <= i < digits.len() implies #[trigger] digits[i] != 93 by {
        assert(48 <= digits[i] <= 57);
    }
    assert(48 <= digits[0] <= 57);
    let (plus, minus) = (seq![43u8] + digits, seq![45u8] + digits);
    assert forall|i: int| 0 <= i < plus.len() implies #[trigger] plus[i] != 93 by {
        if i > 0 {
            assert(48 <= digits[i - 1] <= 57);
        }
    }
    assert forall|i: int| 0 <= i < minus.len() implies #[trigger] minus[i] != 93 by {
        if i > 0 {
            assert(48 <= digits[i - 1] <= 57);
        }
    }
    lemma_bracket(a, digits);
    lemma_behind(a, seq![91u8] + digits + seq![93u8]);
    lemma_bracket(a, plus);
    lemma_behind(a, seq![91u8] + plus + seq![93u8]);
    lemma_bracket(a, minus);
    lemma_behind(a, seq![91u8] + minus + seq![93u8]);
    lemma_bracket(a, Seq::empty());
    lemma_behind(a, seq![91u8] + Seq::empty() + seq![93u8]);
}

/// What is refused behind a path that is in order: a dot with no key behind
/// it, a bracket that is not closed, one that was not opened, and brackets with
/// something else in them than a number or a key in quotes.
pub proof fn other_segments_are_refused(a: Seq<u8>, w: Seq<u8>)
    requires
        path_steps(a) is Ok,
    ensures
        path_steps(Seq::empty()) == Err::<Seq<Step>, (int, PathErrorKind)>(
            (0, PathErrorKind::EmptyPath),
        ),
        path_steps(seq![46u8] + w) == Err::<Seq<Step>, (int, PathErrorKind)>(
            (0, PathErrorKind::EmptyKey),
        ),
        w.len() == 0 || w[0] == 46 || w[0] == 91 || w[0] == 93 ==> path_steps(a + (seq![46u8] + w))
            == Err::<Seq<Step>, (int, PathErrorKind)>(
            (a.len() as int + 1, PathErrorKind::EmptyKey),
        ),
        path_steps(a + (seq![93u8] + w)) == Err::<Seq<Step>, (int, PathErrorKind)>(
            (a.len() as int, PathErrorKind::UnexpectedChar(']')),
        ),
        (forall|i: int| 0 <= i < w.len() ==> #[trigger] w[i] != 93) && (w.len() > 0 ==> w[0] != 34)
            ==> path_steps(a + (seq![91u8] + w)) == Err::<Seq<Step>, (int, PathErrorKind)>(
            (a.len() as int, PathErrorKind::UnterminatedIndex),
        ),
        w.len() > 0 && (forall|i: int| 0 <= i < w.len() ==> #[trigger] w[i] != 93) && w[0] != 34
            && number_i64(w) is None ==> path_steps(a + (seq![91u8] + w + seq![93u8])) == Err::<
            Seq<Step>,
            (int, PathErrorKind),
        >((a.len() as int + 1, PathErrorKind::InvalidIndex)),
{
    let i = a.len() as int;
    let first = seq![46u8] + w;
    assert(first[0] == 46);
    if w.len() == 0 || w[0] == 46 || w[0] == 91 || w[0] == 93 {
        let b = a + first;
        lemma_behind(a, first);
        if w.len() > 0 {
            assert(b[i + 1] == w[0]);
        }
        assert(key_end(b, i + 1) == i + 1);
    }
    lemma_behind(a, seq![93u8] + w);
    if (forall|j: int| 0 <= j < w.len() ==> #[trigger] w[j] != 93) && (w.len() > 0 ==> w[0] != 34) {
        let x = seq![91u8] + w;
        let b = a + x;
        lemma_behind(a, x);
        lemma_bracket_end(b, i + 1);
        let close = bracket_end(b, i + 1);
        if close < b.len() {
            assert(b[close] == w[close - i - 1]);
        }
        if w.len() > 0 {
            assert(b[i + 1] == w[0]);
        }
        assert(quoted_key(b, i) is None);
        if w.len() > 0 && number_i64(w) is None {
            lemma_bracket(a, w);
            lemma_behind(a, seq![91u8] + w + seq![93u8]);
        }
    }
}

} // verus!
