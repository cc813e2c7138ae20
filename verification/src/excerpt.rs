//! Excerpts of a file: its first lines, or a uniform sample of them.
//!
//! [`head`] and [`sample`] take bytes that are at hand. [`HeadPass`] and
//! [`SamplePass`] take one raw line at a time, for input that is streamed
//! through a buffer.

use vstd::prelude::*;

use crate::ascii::NEWLINE;
use crate::lines::{
    blank, contents, first_raw, lemma_line_end, line_end, raw_lines, Line, LineReader,
};
use crate::rng::{
    next_slot, offered, positions, sampled, samples_pick_distinct_positions, Reservoir, Sample,
};
use crate::sort::{lemma_sorted_items, ordered, sorted_from, with_key};
use crate::stats::trimmed_lines;

verus! {

/// Lines as they are written, each with a newline behind it.
pub open spec fn written(lines: Seq<Seq<u8>>) -> Seq<u8>
    decreases lines.len(),
{
    if lines.len() == 0 {
        Seq::empty()
    } else {
        written(lines.drop_last()) + lines.last().push(NEWLINE)
    }
}

/// Appends a line with a newline behind it.
fn push_line(bytes: &[u8], out: &mut Vec<u8>)
    ensures
        final(out)@ == old(out)@ + bytes@.push(NEWLINE),
{
    let ghost start = out@;
    out.extend_from_slice(bytes);
    out.push(NEWLINE);
    assert(out@ =~= start + bytes@.push(NEWLINE));
}

fn copied(bytes: &[u8]) -> (r: Vec<u8>)
    ensures
        r@ == bytes@,
{
    let mut r: Vec<u8> = Vec::new();
    r.extend_from_slice(bytes);
    assert(r@ =~= bytes@);
    r
}

/// The first `n` items of a sequence, or all of them.
pub open spec fn first_of<T>(s: Seq<T>, n: nat) -> Seq<T> {
    if n < s.len() {
        s.take(n as int)
    } else {
        s
    }
}

/// A pass over the first lines of a file.
pub struct HeadPass {
    left: usize,
}

impl HeadPass {
    /// How many lines are still wanted.
    pub closed spec fn wanted(&self) -> nat {
        self.left as nat
    }

    /// Starts before the first of `n` lines.
    pub fn new(n: usize) -> (r: HeadPass)
        ensures
            r.wanted() == n,
    {
        HeadPass { left: n }
    }

    /// Whether another line is wanted.
    pub fn wants_line(&self) -> (r: bool)
        ensures
            r == (self.wanted() > 0),
    {
        self.left > 0
    }

    /// Takes the next line and writes it out.
    pub fn take_line(&mut self, line: &Line, out: &mut Vec<u8>)
        requires
            old(self).wanted() > 0,
        ensures
            final(self).wanted() == old(self).wanted() - 1,
            final(out)@ == old(out)@ + line.bytes@.push(NEWLINE),
    {
        self.left = self.left - 1;
        push_line(line.bytes, out);
    }
}

/// The first `n` lines of some bytes, without their line endings and the byte
/// order mark, each with a newline behind it.
pub fn head(input: &[u8], n: usize) -> (out: Vec<u8>)
    ensures
        out@ == written(first_of(contents(input@), n as nat)),
{
    let mut reader = LineReader::new(input);
    let mut pass = HeadPass::new(n);
    let mut out: Vec<u8> = Vec::new();
    let ghost all = contents(input@);
    let ghost mut done = Seq::<Seq<u8>>::empty();
    proof {
        assert(done + raw_lines(input@) =~= raw_lines(input@));
        assert(first_of(all, 0) =~= Seq::<Seq<u8>>::empty());
        assert(trimmed_lines(done) =~= Seq::<Seq<u8>>::empty());
    }
    while pass.wants_line()
        invariant
            reader.wf(),
            all == contents(input@),
            raw_lines(input@) == done + raw_lines(reader.rest()),
            reader.lines() == done.len(),
            done.len() + pass.wanted() == n,
            out@ == written(trimmed_lines(done)),
        ensures
            raw_lines(input@) == done + raw_lines(reader.rest()),
            out@ == written(trimmed_lines(done)),
            done.len() == n || (done.len() < n && raw_lines(input@) == done),
        decreases pass.wanted(),
    {
        let ghost rest = reader.rest();
        match reader.next_line() {
            None => {
                proof {
                    assert(done + raw_lines(rest) =~= done);
                }
                break;
            },
            Some(line) => {
                proof {
                    lemma_line_end(rest, 0);
                    let raw = first_raw(rest);
                    assert(rest.skip(raw.len() as int) =~= rest.skip(line_end(rest, 0)));
                    assert(done.push(raw) + raw_lines(reader.rest()) =~= done + raw_lines(rest));
                    assert(trimmed_lines(done.push(raw)) =~= trimmed_lines(done).push(
                        line.bytes@,
                    ));
                    assert(trimmed_lines(done).push(line.bytes@).drop_last() =~= trimmed_lines(
                        done,
                    ));
                    done = done.push(raw);
                }
                pass.take_line(&line, &mut out);
            },
        }
    }
    assert(trimmed_lines(done) =~= first_of(all, n as nat));
    out
}

/// The lines that are not blank, each with its number, counted from one.
pub open spec fn numbered(lines: Seq<Seq<u8>>) -> Seq<(u64, Seq<u8>)>
    decreases lines.len(),
{
    if lines.len() == 0 {
        Seq::empty()
    } else if blank(lines.last()) {
        numbered(lines.drop_last())
    } else {
        numbered(lines.drop_last()).push((lines.len() as u64, lines.last()))
    }
}

/// The lines of a sample of `n` lines, in the order of the file.
pub open spec fn is_excerpt(
    lines: Seq<Seq<u8>>,
    n: nat,
    seed: u64,
    picked: Seq<(u64, Seq<u8>)>,
) -> bool {
    sorted_from(sampled(n, seed, numbered(lines)).items, picked)
}

/// Lines without their numbers.
pub open spec fn unnumbered(picked: Seq<(u64, Seq<u8>)>) -> Seq<Seq<u8>> {
    Seq::new(picked.len(), |i: int| picked[i].1)
}

/// Retained lines as mathematics.
pub open spec fn retained(items: Seq<(u64, Vec<u8>)>) -> Seq<(u64, Seq<u8>)> {
    Seq::new(items.len(), |i: int| (items[i].0, items[i].1@))
}

/// A sample of retained lines as mathematics.
pub open spec fn sample_of(s: Sample<Vec<u8>>) -> Sample<Seq<u8>> {
    Sample { capacity: s.capacity, seen: s.seen, items: retained(s.items), state: s.state }
}

proof fn lemma_offered(s: Sample<Vec<u8>>, index: u64, item: Vec<u8>)
    requires
        s.items.len() <= s.capacity,
    ensures
        sample_of(offered(s, index, item)) == offered(sample_of(s), index, item@),
{
    let t = offered(s, index, item);
    assert(retained(t.items) =~= offered(sample_of(s), index, item@).items);
}

proof fn lemma_retained_key(items: Seq<(u64, Vec<u8>)>, key: u64)
    ensures
        with_key(retained(items), key) == retained(with_key(items, key)),
    decreases items.len(),
{
    if items.len() > 0 {
        lemma_retained_key(items.drop_last(), key);
        assert(retained(items).drop_last() =~= retained(items.drop_last()));
        if items.last().0 == key {
            assert(retained(with_key(items, key)) =~= retained(
                with_key(items.drop_last(), key),
            ).push((items.last().0, items.last().1@)));
        }
    } else {
        assert(with_key(retained(items), key) =~= retained(with_key(items, key)));
    }
}

proof fn lemma_retained_sorted(before: Seq<(u64, Vec<u8>)>, after: Seq<(u64, Vec<u8>)>)
    requires
        sorted_from(before, after),
    ensures
        sorted_from(retained(before), retained(after)),
{
    assert(ordered(retained(after)));
    assert forall|key: u64| #[trigger] with_key(retained(after), key) == with_key(
        retained(before),
        key,
    ) by {
        lemma_retained_key(before, key);
        lemma_retained_key(after, key);
        assert(with_key(after, key) == with_key(before, key));
    }
}

/// A pass that samples the lines of a file.
pub struct SamplePass {
    reservoir: Reservoir<Vec<u8>>,
    seed: Ghost<u64>,
    seen: Ghost<Seq<Seq<u8>>>,
}

impl SamplePass {
    /// The lines taken so far.
    pub closed spec fn lines(&self) -> Seq<Seq<u8>> {
        self.seen@
    }

    /// How many lines are retained at most.
    pub closed spec fn capacity(&self) -> nat {
        self.reservoir@.capacity
    }

    /// The seed of the generator.
    pub closed spec fn seed(&self) -> u64 {
        self.seed@
    }

    /// The reservoir holds the sample of the lines taken so far.
    pub closed spec fn wf(&self) -> bool {
        &&& sample_of(self.reservoir@) == sampled(
            self.capacity(),
            self.seed@,
            numbered(self.seen@),
        )
        &&& self.reservoir@.items.len() <= self.reservoir@.capacity
        &&& self.reservoir@.seen <= self.seen@.len()
    }

    /// Starts before the first line.
    pub fn new(n: usize, seed: u64) -> (r: SamplePass)
        ensures
            r.wf(),
            r.lines() == Seq::<Seq<u8>>::empty(),
            r.capacity() == n,
            r.seed() == seed,
    {
        let reservoir: Reservoir<Vec<u8>> = Reservoir::new(n, seed);
        let r = SamplePass { reservoir, seed: Ghost(seed), seen: Ghost(Seq::empty()) };
        proof {
            assert(retained(r.reservoir@.items) =~= Seq::<(u64, Seq<u8>)>::empty());
        }
        r
    }

    /// Takes the next line; a blank one is skipped.
    pub fn take_line(&mut self, line: &Line)
        requires
            old(self).wf(),
            line.number == old(self).lines().len() + 1,
        ensures
            final(self).wf(),
            final(self).lines() == old(self).lines().push(line.bytes@),
            final(self).capacity() == old(self).capacity(),
            final(self).seed() == old(self).seed(),
    {
        let ghost longer = self.seen@.push(line.bytes@);
        let ghost before = self.reservoir@;
        proof {
            assert(longer.drop_last() =~= self.seen@);
        }
        if !line.is_blank() {
            let bytes: &[u8] = line.bytes;
            let make = || -> (copy: Vec<u8>)
                ensures
                    copy@ == bytes@,
                { copied(bytes) };
            self.reservoir.offer(line.number, make);
            proof {
                let stream = numbered(longer);
                assert(stream.drop_last() =~= numbered(self.seen@));
                if next_slot(before) is None {
                    let any: Vec<u8> = choose|any: Vec<u8>| any@ == bytes@;
                    assert(self.reservoir@ == offered(before, line.number, any));
                    lemma_offered(before, line.number, any);
                    assert(sample_of(offered(before, line.number, any)) =~= offered(
                        sample_of(before),
                        line.number,
                        bytes@,
                    ));
                } else {
                    let item = choose|item: Vec<u8>|
                        make.ensures((), item) && self.reservoir@ == #[trigger] offered(
                            before,
                            line.number,
                            item,
                        );
                    lemma_offered(before, line.number, item);
                }
            }
        }
        proof {
            self.seen@ = longer;
        }
    }

    /// The sampled lines in the order of the file, each with a newline behind
    /// it.
    pub fn finish(self) -> (out: Vec<u8>)
        requires
            self.wf(),
        ensures
            exists|picked: Seq<(u64, Seq<u8>)>|
                #![trigger unnumbered(picked)]
                is_excerpt(self.lines(), self.capacity(), self.seed(), picked) && out@ == written(
                    unnumbered(picked),
                ),
    {
        let ghost before = self.reservoir@.items;
        let items = self.reservoir.into_sorted();
        let ghost picked = retained(items@);
        let ghost rows = unnumbered(picked);
        proof {
            lemma_retained_sorted(before, items@);
        }
        let mut out: Vec<u8> = Vec::new();
        let mut i: usize = 0;
        assert(rows.take(0) =~= Seq::<Seq<u8>>::empty());
        while i < items.len()
            invariant
                i <= items@.len(),
                rows == unnumbered(retained(items@)),
                out@ == written(rows.take(i as int)),
            decreases items@.len() - i,
        {
            push_line(items[i].1.as_slice(), &mut out);
            assert(rows.take(i + 1).drop_last() =~= rows.take(i as int));
            i += 1;
        }
        assert(rows.take(i as int) =~= rows);
        out
    }
}

/// A uniform sample of `n` lines that are not blank, in the order of the file,
/// each with a newline behind it.
pub fn sample(input: &[u8], n: usize, seed: u64) -> (out: Vec<u8>)
    ensures
        exists|picked: Seq<(u64, Seq<u8>)>|
            #![trigger unnumbered(picked)]
            is_excerpt(contents(input@), n as nat, seed, picked) && out@ == written(
                unnumbered(picked),
            ),
{
    let mut reader = LineReader::new(input);
    let mut pass = SamplePass::new(n, seed);
    let ghost mut done = Seq::<Seq<u8>>::empty();
    proof {
        assert(done + raw_lines(input@) =~= raw_lines(input@));
        assert(pass.lines() =~= trimmed_lines(done));
    }
    loop
        invariant
            reader.wf(),
            pass.wf(),
            pass.capacity() == n,
            pass.seed() == seed,
            raw_lines(input@) == done + raw_lines(reader.rest()),
            pass.lines() == trimmed_lines(done),
            reader.lines() == done.len(),
        ensures
            pass.wf(),
            pass.capacity() == n,
            pass.seed() == seed,
            raw_lines(input@) == done,
            pass.lines() == trimmed_lines(done),
        decreases reader.rest().len(),
    {
        let ghost rest = reader.rest();
        match reader.next_line() {
            None => {
                proof {
                    assert(done + raw_lines(rest) =~= done);
                }
                break;
            },
            Some(line) => {
                proof {
                    lemma_line_end(rest, 0);
                    let raw = first_raw(rest);
                    assert(rest.skip(raw.len() as int) =~= rest.skip(line_end(rest, 0)));
                    assert(done.push(raw) + raw_lines(reader.rest()) =~= done + raw_lines(rest));
                    assert(trimmed_lines(done.push(raw)) =~= trimmed_lines(done).push(
                        line.bytes@,
                    ));
                    done = done.push(raw);
                }
                pass.take_line(&line);
            },
        }
    }
    assert(trimmed_lines(done) =~= contents(input@));
    pass.finish()
}

proof fn lemma_numbered(lines: Seq<Seq<u8>>)
    requires
        lines.len() <= u64::MAX,
    ensures
        forall|i: int|
            0 <= i < numbered(lines).len() ==> {
                let (number, line) = #[trigger] numbered(lines)[i];
                1 <= number <= lines.len() && line == lines[number - 1] && !blank(line)
            },
        forall|i: int, j: int|
            0 <= i < j < numbered(lines).len() ==> (#[trigger] numbered(lines)[i]).0 < (
            #[trigger] numbered(lines)[j]).0,
    decreases lines.len(),
{
    if lines.len() > 0 {
        let rest = lines.drop_last();
        lemma_numbered(rest);
        assert forall|i: int| 0 <= i < numbered(lines).len() implies {
            let (number, line) = #[trigger] numbered(lines)[i];
            1 <= number <= lines.len() && line == lines[number - 1] && !blank(line)
        } by {
            if i < numbered(rest).len() {
                assert(numbered(lines)[i] == numbered(rest)[i]);
            }
        }
        assert forall|i: int, j: int| 0 <= i < j < numbered(lines).len() implies (
        #[trigger] numbered(lines)[i]).0 < (#[trigger] numbered(lines)[j]).0 by {
            assert(numbered(lines)[i] == numbered(rest)[i]);
            if j < numbered(rest).len() {
                assert(numbered(lines)[j] == numbered(rest)[j]);
            }
        }
    }
}

/// A sample is made of as many lines as asked for, or of all if there are
/// fewer; they are lines of the file that are not blank, each one once and in
/// the order of the file.
pub proof fn excerpts_keep_file_order(
    lines: Seq<Seq<u8>>,
    n: nat,
    seed: u64,
    picked: Seq<(u64, Seq<u8>)>,
)
    requires
        lines.len() <= u64::MAX,
        is_excerpt(lines, n, seed, picked),
    ensures
        picked.len() == first_of(numbered(lines), n).len(),
        forall|i: int|
            0 <= i < picked.len() ==> {
                let (number, line) = #[trigger] picked[i];
                1 <= number <= lines.len() && line == lines[number - 1] && !blank(line)
            },
        forall|i: int, j: int|
            0 <= i < j < picked.len() ==> (#[trigger] picked[i]).0 < (#[trigger] picked[j]).0,
{
    lemma_excerpt(lines, n, seed, picked);
}

proof fn lemma_excerpt(
    lines: Seq<Seq<u8>>,
    n: nat,
    seed: u64,
    picked: Seq<(u64, Seq<u8>)>,
)
    requires
        lines.len() <= u64::MAX,
        is_excerpt(lines, n, seed, picked),
    ensures
        picked.len() == first_of(numbered(lines), n).len(),
        forall|i: int|
            0 <= i < picked.len() ==> {
                let (number, line) = #[trigger] picked[i];
                1 <= number <= lines.len() && line == lines[number - 1] && !blank(line)
            },
        forall|i: int, j: int|
            0 <= i < j < picked.len() ==> (#[trigger] picked[i]).0 < (#[trigger] picked[j]).0,
        forall|i: int|
            0 <= i < picked.len() ==> sampled(n, seed, numbered(lines)).items.contains(
                #[trigger] picked[i],
            ),
        forall|i: int|
            0 <= i < sampled(n, seed, numbered(lines)).items.len() ==> picked.contains(
                #[trigger] sampled(n, seed, numbered(lines)).items[i],
            ),
{
    let stream = numbered(lines);
    let items = sampled(n, seed, stream).items;
    let slots = positions(n, seed, stream.len()).0;
    lemma_numbered(lines);
    samples_pick_distinct_positions(n, seed, stream);
    assert forall|i: int, j: int| 0 <= i < j < items.len() implies (#[trigger] items[i]).0 != (
    #[trigger] items[j]).0 by {
        assert(items[i] == stream[slots[i]] && items[j] == stream[slots[j]]);
        if slots[i] < slots[j] {
            assert(stream[slots[i]].0 < stream[slots[j]].0);
        } else {
            assert(stream[slots[j]].0 < stream[slots[i]].0);
        }
    }
    lemma_sorted_items(items, picked);
    assert forall|i: int| 0 <= i < picked.len() implies {
        let (number, line) = #[trigger] picked[i];
        1 <= number <= lines.len() && line == lines[number - 1] && !blank(line)
    } by {
        let k = choose|k: int| 0 <= k < items.len() && items[k] == picked[i];
        assert(picked[i] == stream[slots[k]]);
    }
}

/// The same seed gives the same sample.
pub proof fn excerpts_are_reproducible(
    lines: Seq<Seq<u8>>,
    n: nat,
    seed: u64,
    a: Seq<(u64, Seq<u8>)>,
    b: Seq<(u64, Seq<u8>)>,
)
    requires
        lines.len() <= u64::MAX,
        is_excerpt(lines, n, seed, a),
        is_excerpt(lines, n, seed, b),
    ensures
        a == b,
{
    lemma_excerpt(lines, n, seed, a);
    lemma_excerpt(lines, n, seed, b);
    let items = sampled(n, seed, numbered(lines)).items;
    assert forall|i: int| 0 <= i < a.len() implies b.contains(#[trigger] a[i]) by {
        let k = choose|k: int| 0 <= k < items.len() && items[k] == a[i];
        assert(b.contains(items[k]));
    }
    assert forall|i: int| 0 <= i < b.len() implies a.contains(#[trigger] b[i]) by {
        let k = choose|k: int| 0 <= k < items.len() && items[k] == b[i];
        assert(a.contains(items[k]));
    }
    lemma_same_prefix(a, b, a.len());
    assert(a =~= b);
}

proof fn lemma_same_prefix(a: Seq<(u64, Seq<u8>)>, b: Seq<(u64, Seq<u8>)>, n: nat)
    requires
        n <= a.len(),
        a.len() == b.len(),
        forall|i: int, j: int| 0 <= i < j < a.len() ==> (#[trigger] a[i]).0 < (#[trigger] a[j]).0,
        forall|i: int, j: int| 0 <= i < j < b.len() ==> (#[trigger] b[i]).0 < (#[trigger] b[j]).0,
        forall|i: int| 0 <= i < a.len() ==> b.contains(#[trigger] a[i]),
        forall|i: int| 0 <= i < b.len() ==> a.contains(#[trigger] b[i]),
    ensures
        forall|i: int| 0 <= i < n ==> #[trigger] a[i] == b[i],
    decreases n,
{
    if n > 0 {
        let k = n - 1;
        lemma_same_prefix(a, b, k as nat);
        let i = choose|i: int| 0 <= i < b.len() && b[i] == a[k];
        let j = choose|j: int| 0 <= j < a.len() && a[j] == b[k];
        if i < k {
            assert(a[i] == b[i]);
            assert(a[i].0 < a[k].0);
        }
        if j < k {
            assert(a[j] == b[j]);
            assert(b[j].0 < b[k].0);
        }
        if i > k && j > k {
            assert(b[k].0 < b[i].0);
            assert(a[k].0 < a[j].0);
        }
        if i > k && j == k {
            assert(a[k] == b[k]);
        }
        assert(a[k] == b[k]);
    }
}

} // verus!
