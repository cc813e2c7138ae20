//! How lines are put together and taken apart again.

use vstd::prelude::*;

use crate::exact::how_many;
use crate::excerpt::{first_of, numbered, written};
use crate::lines::{blank, content, contents, lemma_line_end, line_end, marked, raw_lines, trimmed};
use crate::reported::holds_nothing;

verus! {

/// Whether a line has no line feed.
pub open spec fn has_no_feed(line: Seq<u8>) -> bool {
    forall|i: int| 0 <= i < line.len() ==> #[trigger] line[i] != 10
}

/// Whether a line can be written with a newline behind it and read again: it
/// has no line feed and no carriage return at its end.
pub open spec fn is_plain_line(line: Seq<u8>) -> bool {
    &&& has_no_feed(line)
    &&& line.len() > 0 ==> line[line.len() - 1] != 13
}

/// Whether lines can be written and read again; the first one must not start
/// with the byte order mark.
pub open spec fn are_plain_lines(lines: Seq<Seq<u8>>) -> bool {
    &&& forall|i: int| 0 <= i < lines.len() ==> is_plain_line(#[trigger] lines[i])
    &&& lines.len() > 0 && lines[0].len() >= 3 ==> !(lines[0][0] == 0xEF && lines[0][1] == 0xBB
        && lines[0][2] == 0xBF)
}

proof fn lemma_written_first(lines: Seq<Seq<u8>>)
    requires
        lines.len() > 0,
    ensures
        written(lines) == lines[0] + seq![10u8] + written(lines.drop_first()),
    decreases lines.len(),
{
    let rest = lines.drop_first();
    if lines.len() == 1 {
        assert(lines.drop_last() =~= Seq::<Seq<u8>>::empty());
        assert(rest =~= Seq::<Seq<u8>>::empty());
        assert(written(Seq::empty()) =~= Seq::<u8>::empty());
        assert(lines.last() == lines[0]);
        assert(written(lines) =~= lines[0] + seq![10u8] + written(rest));
    } else {
        lemma_written_first(lines.drop_last());
        assert(lines.drop_last().drop_first() =~= rest.drop_last());
        assert(lines.drop_last()[0] == lines[0]);
        assert(written(lines) =~= lines[0] + seq![10u8] + written(rest));
    }
}

proof fn lemma_raw_lines(lines: Seq<Seq<u8>>)
    requires
        forall|i: int| 0 <= i < lines.len() ==> has_no_feed(#[trigger] lines[i]),
    ensures
        raw_lines(written(lines)).len() == lines.len(),
        forall|i: int|
            0 <= i < lines.len() ==> #[trigger] raw_lines(written(lines))[i] == lines[i] + seq![
                10u8,
            ],
    decreases lines.len(),
{
    let b = written(lines);
    if lines.len() > 0 {
        let rest = lines.drop_first();
        let first = lines[0];
        assert forall|i: int| 0 <= i < rest.len() implies has_no_feed(#[trigger] rest[i]) by {
            assert(rest[i] == lines[i + 1]);
        }
        assert(has_no_feed(first));
        lemma_raw_lines(rest);
        lemma_written_first(lines);
        lemma_line_end(b, 0);
        let n = first.len() as int;
        let end = line_end(b, 0);
        assert(b[n] == 10);
        assert(end == n + 1) by {
            if end <= n {
                assert(b[end - 1] == first[end - 1]);
            }
        }
        assert(b.take(end) =~= first + seq![10u8]);
        assert(b.skip(end) =~= written(rest));
        let all = raw_lines(b);
        assert(all == seq![b.take(end)] + raw_lines(written(rest)));
        assert forall|i: int| 0 <= i < lines.len() implies #[trigger] all[i] == lines[i] + seq![
            10u8,
        ] by {
            if i > 0 {
                assert(all[i] == raw_lines(written(rest))[i - 1]);
                assert(rest[i - 1] == lines[i]);
            }
        }
    }
}

/// Lines that are written with a newline behind each are read back.
pub proof fn written_lines_are_read_back(lines: Seq<Seq<u8>>)
    requires
        are_plain_lines(lines),
    ensures
        contents(written(lines)) == lines,
{
    assert forall|i: int| 0 <= i < lines.len() implies has_no_feed(#[trigger] lines[i]) by {
        assert(is_plain_line(lines[i]));
    }
    lemma_raw_lines(lines);
    let raw = raw_lines(written(lines));
    let found = contents(written(lines));
    assert forall|i: int| 0 <= i < lines.len() implies #[trigger] found[i] == lines[i] by {
        let line = lines[i];
        let r = raw[i];
        assert(is_plain_line(line));
        assert(r == line + seq![10u8]);
        if i == 0 && marked(r) {
            assert(r.take(3)[0] == r[0] && r.take(3)[1] == r[1] && r.take(3)[2] == r[2]);
            assert(line.len() >= 3);
        }
        assert(r.drop_last() =~= line);
        assert(content(r, i == 0) == trimmed(r));
    }
    assert(found =~= lines);
}

/// The head of a file that is written is read back as its first lines.
pub proof fn heads_hold_the_first_lines(b: Seq<u8>, n: nat)
    requires
        are_plain_lines(contents(b)),
    ensures
        ({
            let all = contents(b);
            contents(written(first_of(all, n))) == all.take(
                if n < all.len() {
                    n as int
                } else {
                    all.len() as int
                },
            )
        }),
{
    let all = contents(b);
    let some = first_of(all, n);
    assert forall|i: int| 0 <= i < some.len() implies is_plain_line(#[trigger] some[i]) by {
        assert(is_plain_line(all[i]));
    }
    written_lines_are_read_back(some);
    assert(all.take(all.len() as int) =~= all);
}

/// The lines that a sample is taken of are those that hold something, each
/// with its number: before the line of the k-th one, counted from zero, k
/// lines hold something.
pub proof fn sampled_lines_hold_something(lines: Seq<Seq<u8>>, k: int)
    requires
        lines.len() <= u64::MAX,
    ensures
        numbered(lines).len() + how_many(lines, holds_nothing()) == lines.len(),
        0 <= k < numbered(lines).len() ==> {
            let (number, line) = numbered(lines)[k];
            &&& 1 <= number <= lines.len()
            &&& line == lines[number - 1]
            &&& !holds_nothing()(line)
            &&& k + how_many(lines.take(number - 1), holds_nothing()) == number - 1
        },
    decreases lines.len(),
{
    if lines.len() > 0 {
        let rest = lines.drop_last();
        let line = lines.last();
        sampled_lines_hold_something(rest, k);
        lemma_nothing(line);
        if 0 <= k < numbered(lines).len() {
            if k < numbered(rest).len() {
                let number = numbered(rest)[k].0;
                assert(lines.take(number - 1) =~= rest.take(number - 1));
            } else {
                assert(lines.take(lines.len() - 1) =~= rest);
            }
        }
    }
}

proof fn lemma_nothing(line: Seq<u8>)
    ensures
        holds_nothing()(line) == blank(line),
{
    crate::reported::lemma_lines(seq![line]);
    let none = seq![line].drop_last();
    assert(none =~= Seq::<Seq<u8>>::empty());
    assert(how_many(none, holds_nothing()) == 0);
    assert(how_many(none, crate::exact::is_blank()) == 0);
    assert(seq![line].last() == line);
}

/// Lines with a carriage return and a newline behind each.
pub open spec fn written_with_returns(lines: Seq<Seq<u8>>) -> Seq<u8> {
    written(Seq::new(lines.len(), |i: int| lines[i] + seq![13u8]))
}

/// Lines that are written with a carriage return and a newline behind each are
/// read back, whatever they end in: one carriage return is part of the line
/// ending, and no more.
pub proof fn returns_are_read_once(lines: Seq<Seq<u8>>)
    requires
        forall|i: int, j: int|
            0 <= i < lines.len() && 0 <= j < lines[i].len() ==> #[trigger] lines[i][j] != 10,
        lines.len() > 0 && lines[0].len() >= 3 ==> !(lines[0][0] == 0xEF && lines[0][1] == 0xBB
            && lines[0][2] == 0xBF),
    ensures
        contents(written_with_returns(lines)) == lines,
{
    let longer = Seq::new(lines.len(), |i: int| lines[i] + seq![13u8]);
    assert forall|i: int| 0 <= i < longer.len() implies has_no_feed(#[trigger] longer[i]) by {
        assert forall|j: int| 0 <= j < longer[i].len() implies #[trigger] longer[i][j] != 10 by {
            if j < lines[i].len() {
                assert(lines[i][j] != 10);
            }
        }
    }
    lemma_raw_lines(longer);
    let raw = raw_lines(written(longer));
    let found = contents(written(longer));
    assert forall|i: int| 0 <= i < lines.len() implies #[trigger] found[i] == lines[i] by {
        let line = lines[i];
        let r = raw[i];
        assert(r == longer[i] + seq![10u8]);
        if i == 0 && marked(r) {
            assert(r.take(3)[0] == r[0] && r.take(3)[1] == r[1] && r.take(3)[2] == r[2]);
            assert(line.len() >= 3);
        }
        assert(r.drop_last() =~= longer[i]);
        assert(longer[i].last() == 13);
        assert(longer[i].drop_last() =~= line);
        assert(content(r, i == 0) == trimmed(r));
    }
    assert(found =~= lines);
}

} // verus!
