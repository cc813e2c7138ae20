//! Line splitting.
//!
//! The reader normalises the things that break naive `split('\n')` pipelines:
//! CRLF endings, a UTF-8 BOM on the first line and a final line without a
//! trailing newline.
//!
//! [`LineReader`] splits bytes that are at hand. [`LineSplitter`] is the part
//! behind it that takes one raw line at a time, for input that is streamed
//! through a buffer.

use vstd::prelude::*;
use vstd::slice::slice_subrange;

use crate::ascii::{FORM_FEED, NEWLINE, RETURN, SPACE, TAB};

verus! {

/// Whether a byte is ASCII whitespace.
pub open spec fn is_white(b: u8) -> bool {
    b == SPACE || b == TAB || b == NEWLINE || b == FORM_FEED || b == RETURN
}

/// Whether a line holds nothing but whitespace.
pub open spec fn blank(bytes: Seq<u8>) -> bool {
    forall|i: int| 0 <= i < bytes.len() ==> is_white(#[trigger] bytes[i])
}

/// The offset behind the first newline from `i` on, or the end of the input.
pub open spec fn line_end(b: Seq<u8>, i: int) -> int
    decreases b.len() - i,
{
    if i < 0 || i >= b.len() {
        b.len() as int
    } else if b[i] == NEWLINE {
        i + 1
    } else {
        line_end(b, i + 1)
    }
}

/// The first line of some input, its line ending included.
pub open spec fn first_raw(b: Seq<u8>) -> Seq<u8> {
    b.take(line_end(b, 0))
}

/// The lines of some input, their line endings included.
pub open spec fn raw_lines(b: Seq<u8>) -> Seq<Seq<u8>>
    decreases b.len(),
{
    if b.len() == 0 {
        Seq::empty()
    } else {
        proof {
            lemma_line_end(b, 0);
        }
        seq![first_raw(b)] + raw_lines(b.skip(line_end(b, 0)))
    }
}

/// The UTF-8 byte order mark.
pub open spec fn byte_order_mark() -> Seq<u8> {
    seq![0xEF, 0xBB, 0xBF]
}

/// Whether some bytes start with the byte order mark.
pub open spec fn marked(raw: Seq<u8>) -> bool {
    raw.len() >= 3 && raw.take(3) == byte_order_mark()
}

/// A line without its line ending.
pub open spec fn trimmed(raw: Seq<u8>) -> Seq<u8> {
    if raw.len() > 0 && raw.last() == NEWLINE {
        let line = raw.drop_last();
        if line.len() > 0 && line.last() == RETURN {
            line.drop_last()
        } else {
            line
        }
    } else {
        raw
    }
}

/// The content of a raw line; a byte order mark on the first one is removed.
pub open spec fn content(raw: Seq<u8>, first: bool) -> Seq<u8> {
    trimmed(
        if first && marked(raw) {
            raw.skip(3)
        } else {
            raw
        },
    )
}

/// The contents of the lines of some input.
pub open spec fn contents(b: Seq<u8>) -> Seq<Seq<u8>> {
    Seq::new(raw_lines(b).len(), |i: int| content(raw_lines(b)[i], i == 0))
}

pub proof fn lemma_line_end(b: Seq<u8>, i: int)
    requires
        0 <= i,
    ensures
        i < b.len() ==> i < line_end(b, i) <= b.len(),
        i >= b.len() ==> line_end(b, i) == b.len(),
        forall|j: int| i <= j < line_end(b, i) - 1 ==> b[j] != NEWLINE,
        line_end(b, i) < b.len() ==> b[line_end(b, i) - 1] == NEWLINE,
    decreases b.len() - i,
{
    if i < b.len() && b[i] != NEWLINE {
        lemma_line_end(b, i + 1);
    }
}

/// One line of input.
#[derive(Debug)]
pub struct Line<'a> {
    /// 1-based line number.
    pub number: u64,
    /// Line content with the BOM and the end-of-line marker removed.
    pub bytes: &'a [u8],
    /// Bytes consumed from the input for this line, including the line ending.
    pub raw_len: usize,
}

impl<'a> Line<'a> {
    /// True when the line has no content at all.
    pub fn is_blank(&self) -> (r: bool)
        ensures
            r == blank(self.bytes@),
    {
        let mut i: usize = 0;
        while i < self.bytes.len()
            invariant
                i <= self.bytes.len(),
                forall|j: int| 0 <= j < i ==> is_white(#[trigger] self.bytes@[j]),
            decreases self.bytes.len() - i,
        {
            let b: u8 = self.bytes[i];
            if !(b == SPACE || b == TAB || b == NEWLINE || b == FORM_FEED || b == RETURN) {
                assert(!is_white(self.bytes@[i as int]));
                return false;
            }
            i += 1;
        }
        true
    }
}

/// Numbers and trims the raw lines of one input, in their order.
#[derive(Debug)]
pub struct LineSplitter {
    number: u64,
    bytes_read: u64,
}

impl LineSplitter {
    /// How many lines were taken so far.
    pub closed spec fn lines(&self) -> nat {
        self.number as nat
    }

    /// How many bytes were taken so far, line endings included.
    pub closed spec fn bytes(&self) -> nat {
        self.bytes_read as nat
    }

    /// Starts before the first line.
    pub fn new() -> (r: LineSplitter)
        ensures
            r.lines() == 0,
            r.bytes() == 0,
    {
        LineSplitter { number: 0, bytes_read: 0 }
    }

    /// Total number of bytes taken so far, line endings included.
    pub fn bytes_read(&self) -> (n: u64)
        ensures
            n == self.bytes(),
    {
        self.bytes_read
    }

    /// Number of lines taken so far.
    pub fn lines_read(&self) -> (n: u64)
        ensures
            n == self.lines(),
    {
        self.number
    }

    /// Takes the next raw line, its line ending included.
    pub fn accept<'a>(&mut self, raw: &'a [u8]) -> (line: Line<'a>)
        requires
            old(self).lines() < u64::MAX,
            old(self).bytes() + raw@.len() <= u64::MAX,
        ensures
            final(self).lines() == old(self).lines() + 1,
            final(self).bytes() == old(self).bytes() + raw@.len(),
            line.number == final(self).lines(),
            line.raw_len == raw@.len(),
            line.bytes@ == content(raw@, old(self).lines() == 0),
    {
        let first: bool = self.number == 0;
        self.bytes_read = self.bytes_read + raw.len() as u64;
        self.number = self.number + 1;
        let mut start: usize = 0;
        if first && raw.len() >= 3 && raw[0] == 0xEF && raw[1] == 0xBB && raw[2] == 0xBF {
            assert(raw@.take(3) =~= byte_order_mark());
            start = 3;
        } else {
            assert(first && raw@.len() >= 3 ==> (raw@.take(3)[0] != 0xEF || raw@.take(3)[1] != 0xBB
                || raw@.take(3)[2] != 0xBF));
        }
        let ghost rest = raw@.skip(start as int);
        assert(raw@.skip(0) =~= raw@);
        let mut end: usize = raw.len();
        if end > start && raw[end - 1] == NEWLINE {
            end -= 1;
            if end > start && raw[end - 1] == RETURN {
                end -= 1;
            }
        }
        let bytes = slice_subrange(raw, start, end);
        assert(bytes@ =~= trimmed(rest));
        Line { number: self.number, bytes, raw_len: raw.len() }
    }
}

/// Reads bytes one line at a time.
#[derive(Debug)]
pub struct LineReader<'a> {
    input: &'a [u8],
    at: usize,
    splitter: LineSplitter,
}

impl<'a> LineReader<'a> {
    /// What is left to read.
    pub closed spec fn rest(&self) -> Seq<u8> {
        self.input@.skip(self.at as int)
    }

    /// How many lines were returned so far.
    pub closed spec fn lines(&self) -> nat {
        self.splitter.lines()
    }

    /// How many bytes were consumed so far.
    pub closed spec fn bytes(&self) -> nat {
        self.splitter.bytes()
    }

    /// No more lines than bytes were taken.
    pub closed spec fn wf(&self) -> bool {
        &&& self.at <= self.input@.len()
        &&& self.splitter.bytes() == self.at
        &&& self.splitter.lines() <= self.at
    }

    /// Starts at the first of the given bytes.
    pub fn new(input: &'a [u8]) -> (r: LineReader<'a>)
        ensures
            r.wf(),
            r.rest() == input@,
            r.lines() == 0,
            r.bytes() == 0,
    {
        let r = LineReader { input, at: 0, splitter: LineSplitter::new() };
        assert(r.rest() =~= input@);
        r
    }

    /// Total number of bytes consumed so far, line endings included.
    pub fn bytes_read(&self) -> (n: u64)
        ensures
            n == self.bytes(),
    {
        self.splitter.bytes_read()
    }

    /// Number of lines returned so far.
    pub fn lines_read(&self) -> (n: u64)
        ensures
            n == self.lines(),
    {
        self.splitter.lines_read()
    }

    /// Reads the next line, or `None` at end of input.
    pub fn next_line(&mut self) -> (r: Option<Line<'a>>)
        requires
            old(self).wf(),
        ensures
            final(self).wf(),
            match r {
                Some(line) => {
                    let raw = first_raw(old(self).rest());
                    &&& old(self).rest().len() > 0
                    &&& final(self).rest() == old(self).rest().skip(raw.len() as int)
                    &&& final(self).lines() == old(self).lines() + 1
                    &&& final(self).bytes() == old(self).bytes() + raw.len()
                    &&& line.number == final(self).lines()
                    &&& line.raw_len == raw.len()
                    &&& line.bytes@ == content(raw, old(self).lines() == 0)
                },
                None => old(self).rest().len() == 0 && *final(self) == *old(self),
            },
    {
        let ghost rest = self.rest();
        if self.at >= self.input.len() {
            return None;
        }
        let mut end: usize = self.at;
        let ghost start = self.at as int;
        while end < self.input.len() && self.input[end] != NEWLINE
            invariant
                self.at == start,
                start <= end <= self.input@.len(),
                rest == self.input@.skip(start),
                line_end(rest, 0) == line_end(rest, end - start),
            decreases self.input@.len() - end,
        {
            end += 1;
        }
        if end < self.input.len() {
            end += 1;
        }
        proof {
            lemma_line_end(rest, 0);
        }
        assert(line_end(rest, 0) == end - start);
        let raw = slice_subrange(self.input, self.at, end);
        assert(raw@ =~= first_raw(rest));
        let line = self.splitter.accept(raw);
        self.at = end;
        assert(self.rest() =~= rest.skip(raw@.len() as int));
        Some(line)
    }
}

/// The raw lines put together again.
pub open spec fn joined(lines: Seq<Seq<u8>>) -> Seq<u8>
    decreases lines.len(),
{
    if lines.len() == 0 {
        Seq::empty()
    } else {
        lines[0] + joined(lines.drop_first())
    }
}

/// Splitting loses and adds nothing: the raw lines make up the input.
pub proof fn raw_lines_cover_the_input(b: Seq<u8>)
    ensures
        joined(raw_lines(b)) == b,
    decreases b.len(),
{
    if b.len() > 0 {
        lemma_line_end(b, 0);
        let rest = b.skip(line_end(b, 0));
        raw_lines_cover_the_input(rest);
        assert(raw_lines(b).drop_first() =~= raw_lines(rest));
        assert(first_raw(b) + rest =~= b);
    }
}

/// Every raw line holds a newline in its last place at most, and only the last
/// line can lack it.
pub proof fn newlines_end_lines(b: Seq<u8>)
    ensures
        forall|i: int, j: int|
            0 <= i < raw_lines(b).len() && 0 <= j < raw_lines(b)[i].len() - 1
                ==> #[trigger] raw_lines(b)[i][j] != NEWLINE,
        forall|i: int|
            0 <= i < raw_lines(b).len() - 1 ==> (#[trigger] raw_lines(b)[i]).last() == NEWLINE,
        forall|i: int| 0 <= i < raw_lines(b).len() ==> (#[trigger] raw_lines(b)[i]).len() > 0,
    decreases b.len(),
{
    if b.len() > 0 {
        lemma_line_end(b, 0);
        let rest = b.skip(line_end(b, 0));
        newlines_end_lines(rest);
        let all = raw_lines(b);
        assert(all[0] == first_raw(b));
        assert forall|i: int, j: int|
            0 <= i < all.len() && 0 <= j < all[i].len() - 1 implies #[trigger] all[i][j]
            != NEWLINE by {
            if i > 0 {
                assert(all[i] == raw_lines(rest)[i - 1]);
                assert(raw_lines(rest)[i - 1][j] != NEWLINE);
            }
        }
        assert forall|i: int| 0 <= i < all.len() - 1 implies (#[trigger] all[i]).last()
            == NEWLINE by {
            if i > 0 {
                assert(all[i] == raw_lines(rest)[i - 1]);
            } else {
                assert(all.len() == 1 + raw_lines(rest).len());
                assert(rest.len() > 0);
            }
        }
        assert forall|i: int| 0 <= i < all.len() implies (#[trigger] all[i]).len() > 0 by {
            if i > 0 {
                assert(all[i] == raw_lines(rest)[i - 1]);
            }
        }
    }
}

/// No line content holds a newline.
pub proof fn contents_hold_no_newline(b: Seq<u8>)
    ensures
        forall|i: int, j: int|
            0 <= i < contents(b).len() && 0 <= j < contents(b)[i].len()
                ==> #[trigger] contents(b)[i][j] != NEWLINE,
{
    newlines_end_lines(b);
    assert forall|i: int, j: int|
        0 <= i < contents(b).len() && 0 <= j < contents(b)[i].len() implies #[trigger] contents(
        b,
    )[i][j] != NEWLINE by {
        let raw = raw_lines(b)[i];
        assert(raw.len() > 0);
        let shift: int = if i == 0 && marked(raw) {
            3
        } else {
            0
        };
        assert(contents(b)[i][j] == raw[j + shift]);
        if j + shift < raw.len() - 1 {
            assert(raw_lines(b)[i][j + shift] != NEWLINE);
        }
    }
}

/// A line has the same content with a CRLF ending, with an LF ending and, at
/// the end of the input, without any.
pub proof fn line_endings_do_not_matter(line: Seq<u8>)
    requires
        line.len() > 0 ==> line.last() != NEWLINE && line.last() != RETURN,
    ensures
        trimmed(line + seq![RETURN, NEWLINE]) == line,
        trimmed(line + seq![NEWLINE]) == line,
        trimmed(line) == line,
{
    let crlf = line + seq![RETURN, NEWLINE];
    assert(crlf.drop_last() =~= line + seq![RETURN]);
    assert((line + seq![RETURN]).drop_last() =~= line);
    assert((line + seq![NEWLINE]).drop_last() =~= line);
}

/// What a newline at the very end does to the raw lines.
proof fn lemma_final_newline(b: Seq<u8>)
    requires
        b.len() > 0,
        b.last() != NEWLINE,
    ensures
        raw_lines(b).len() > 0,
        raw_lines(b).last().len() > 0,
        raw_lines(b).last().last() == b.last(),
        raw_lines(b.push(NEWLINE)) == raw_lines(b).drop_last().push(
            raw_lines(b).last().push(NEWLINE),
        ),
    decreases b.len(),
{
    let c = b.push(NEWLINE);
    lemma_line_end(b, 0);
    lemma_line_end(c, 0);
    let e = line_end(b, 0);
    let rest = b.skip(e);
    lemma_same_line_end(b, 0);
    if e < b.len() {
        assert(rest.last() == b.last());
        lemma_final_newline(rest);
        assert(c.skip(e) =~= rest.push(NEWLINE));
        assert(first_raw(c) =~= first_raw(b));
        let all = raw_lines(b);
        assert(all =~= seq![first_raw(b)] + raw_lines(rest));
        assert(raw_lines(c) =~= all.drop_last().push(all.last().push(NEWLINE)));
    } else {
        assert(rest =~= Seq::<u8>::empty());
        assert(first_raw(b) =~= b);
        assert(raw_lines(b) =~= seq![b]);
        assert(first_raw(c) =~= c);
        assert(c.skip(c.len() as int) =~= Seq::<u8>::empty());
        assert(raw_lines(c) =~= seq![c]);
    }
}

proof fn lemma_same_line_end(b: Seq<u8>, i: int)
    requires
        0 <= i <= b.len(),
        b.len() > 0,
        b.last() != NEWLINE,
    ensures
        line_end(b, i) < b.len() ==> line_end(b.push(NEWLINE), i) == line_end(b, i),
        line_end(b, i) == b.len() ==> line_end(b.push(NEWLINE), i) == b.len() + 1,
    decreases b.len() - i,
{
    if i < b.len() && b[i] != NEWLINE {
        lemma_same_line_end(b, i + 1);
    }
}

/// A missing final newline does not change the lines.
pub proof fn final_newline_does_not_matter(b: Seq<u8>)
    requires
        b.len() > 0,
        b.last() != NEWLINE,
        b.last() != RETURN,
    ensures
        contents(b.push(NEWLINE)) == contents(b),
{
    lemma_final_newline(b);
    let c = b.push(NEWLINE);
    assert forall|i: int| 0 <= i < contents(b).len() implies #[trigger] contents(c)[i] == contents(
        b,
    )[i] by {
        let raw = raw_lines(b)[i];
        if i == raw_lines(b).len() - 1 {
            let long = raw.push(NEWLINE);
            assert(raw_lines(c)[i] == long);
            assert(raw.last() == b.last());
            let shift: int = if i == 0 && marked(raw) {
                3
            } else {
                0
            };
            if raw.len() >= 3 {
                assert(long.take(3) =~= raw.take(3));
            } else if long.len() == 3 {
                assert(long.take(3)[2] == NEWLINE);
            }
            assert(marked(long) == marked(raw));
            assert(raw.skip(0) =~= raw);
            assert(long.skip(0) =~= long);
            assert(long.skip(shift) =~= raw.skip(shift) + seq![NEWLINE]);
            line_endings_do_not_matter(raw.skip(shift));
        }
    }
    assert(contents(c) =~= contents(b));
}

/// Some input with a CRLF ending in place of every newline.
pub open spec fn with_crlf(b: Seq<u8>) -> Seq<u8>
    decreases b.len(),
{
    if b.len() == 0 {
        Seq::empty()
    } else {
        with_crlf(b.drop_last()) + if b.last() == NEWLINE {
            seq![RETURN, NEWLINE]
        } else {
            seq![b.last()]
        }
    }
}

/// How many newlines some input holds.
pub open spec fn newlines(b: Seq<u8>) -> nat
    decreases b.len(),
{
    if b.len() == 0 {
        0
    } else {
        newlines(b.drop_last()) + if b.last() == NEWLINE {
            1nat
        } else {
            0nat
        }
    }
}

proof fn lemma_crlf_concat(x: Seq<u8>, y: Seq<u8>)
    ensures
        with_crlf(x + y) == with_crlf(x) + with_crlf(y),
    decreases y.len(),
{
    if y.len() == 0 {
        assert(x + y =~= x);
        assert(with_crlf(x) + with_crlf(y) =~= with_crlf(x));
    } else {
        assert((x + y).drop_last() =~= x + y.drop_last());
        lemma_crlf_concat(x, y.drop_last());
        assert(with_crlf(x + y) =~= with_crlf(x) + with_crlf(y));
    }
}

proof fn lemma_crlf_size(b: Seq<u8>)
    ensures
        with_crlf(b).len() == b.len() + newlines(b),
    decreases b.len(),
{
    if b.len() > 0 {
        lemma_crlf_size(b.drop_last());
    }
}

proof fn lemma_crlf_none(line: Seq<u8>)
    requires
        forall|i: int| 0 <= i < line.len() ==> #[trigger] line[i] != NEWLINE,
    ensures
        with_crlf(line) == line,
    decreases line.len(),
{
    if line.len() > 0 {
        let rest = line.drop_last();
        assert forall|i: int| 0 <= i < rest.len() implies #[trigger] rest[i] != NEWLINE by {
            assert(line[i] != NEWLINE);
        }
        assert(line[line.len() - 1] != NEWLINE);
        lemma_crlf_none(rest);
        assert(with_crlf(line) =~= line);
    } else {
        assert(with_crlf(line) =~= line);
    }
}

/// What a CRLF ending does to a raw line.
proof fn lemma_crlf_line(raw: Seq<u8>)
    requires
        raw.len() > 0,
        forall|i: int| 0 <= i < raw.len() - 1 ==> #[trigger] raw[i] != NEWLINE,
    ensures
        with_crlf(raw) == if raw.last() == NEWLINE {
            raw.drop_last() + seq![RETURN, NEWLINE]
        } else {
            raw
        },
{
    let line = raw.drop_last();
    assert forall|i: int| 0 <= i < line.len() implies #[trigger] line[i] != NEWLINE by {
        assert(raw[i] != NEWLINE);
    }
    lemma_crlf_none(line);
    assert(line.push(raw.last()) =~= raw);
}

proof fn lemma_line_end_is(b: Seq<u8>, i: int, end: int)
    requires
        0 <= i < end <= b.len(),
        forall|j: int| i <= j < end - 1 ==> #[trigger] b[j] != NEWLINE,
        b[end - 1] == NEWLINE || end == b.len(),
    ensures
        line_end(b, i) == end,
    decreases end - i,
{
    if i < end - 1 {
        assert(b[i] != NEWLINE);
        lemma_line_end_is(b, i + 1, end);
    } else if b[i] != NEWLINE {
        assert(line_end(b, i + 1) == b.len());
    }
}

/// CRLF endings change nothing but the endings of the raw lines.
proof fn lemma_crlf_lines(b: Seq<u8>)
    ensures
        raw_lines(with_crlf(b)).len() == raw_lines(b).len(),
        forall|i: int|
            0 <= i < raw_lines(b).len() ==> #[trigger] raw_lines(with_crlf(b))[i] == with_crlf(
                raw_lines(b)[i],
            ),
    decreases b.len(),
{
    if b.len() == 0 {
        assert(with_crlf(b) =~= Seq::<u8>::empty());
    } else {
        let c = with_crlf(b);
        lemma_line_end(b, 0);
        let end = line_end(b, 0);
        let raw = first_raw(b);
        let rest = b.skip(end);
        assert(raw + rest =~= b);
        lemma_crlf_concat(raw, rest);
        lemma_crlf_line(raw);
        lemma_crlf_lines(rest);
        let long = with_crlf(raw);
        assert(end < b.len() ==> raw.last() == NEWLINE);
        if end == b.len() {
            assert(rest =~= Seq::<u8>::empty());
            assert(with_crlf(rest) =~= Seq::<u8>::empty());
        }
        assert forall|j: int| 0 <= j < long.len() - 1 implies #[trigger] c[j] != NEWLINE by {
            assert(c[j] == long[j]);
            if j < raw.len() - 1 {
                assert(raw[j] == b[j]);
            }
        }
        assert(c[long.len() - 1] == long[long.len() - 1]);
        lemma_line_end_is(c, 0, long.len() as int);
        assert(first_raw(c) =~= long);
        assert(c.skip(long.len() as int) =~= with_crlf(rest));
        assert forall|i: int| 0 <= i < raw_lines(b).len() implies #[trigger] raw_lines(c)[i]
            == with_crlf(raw_lines(b)[i]) by {
            if i > 0 {
                assert(raw_lines(b)[i] == raw_lines(rest)[i - 1]);
                assert(raw_lines(c)[i] == raw_lines(with_crlf(rest))[i - 1]);
            }
        }
    }
}

/// No raw line holds a byte that the input does not.
proof fn lemma_no_return(b: Seq<u8>)
    requires
        forall|i: int| 0 <= i < b.len() ==> #[trigger] b[i] != RETURN,
    ensures
        forall|i: int, j: int|
            0 <= i < raw_lines(b).len() && 0 <= j < raw_lines(b)[i].len()
                ==> #[trigger] raw_lines(b)[i][j] != RETURN,
    decreases b.len(),
{
    if b.len() > 0 {
        lemma_line_end(b, 0);
        let rest = b.skip(line_end(b, 0));
        assert forall|i: int| 0 <= i < rest.len() implies #[trigger] rest[i] != RETURN by {
            assert(rest[i] == b[line_end(b, 0) + i]);
        }
        lemma_no_return(rest);
        assert forall|i: int, j: int|
            0 <= i < raw_lines(b).len() && 0 <= j < raw_lines(b)[i].len() implies #[trigger] raw_lines(
            b,
        )[i][j] != RETURN by {
            if i > 0 {
                assert(raw_lines(b)[i] == raw_lines(rest)[i - 1]);
                assert(raw_lines(rest)[i - 1][j] != RETURN);
            } else {
                assert(raw_lines(b)[0] == first_raw(b));
                assert(first_raw(b)[j] == b[j]);
            }
        }
    }
}

/// Input whose newlines all become CRLF endings has the same lines, and one
/// byte more for each newline.
pub proof fn crlf_endings_do_not_matter(b: Seq<u8>)
    requires
        forall|i: int| 0 <= i < b.len() ==> #[trigger] b[i] != RETURN,
    ensures
        contents(with_crlf(b)) == contents(b),
        with_crlf(b).len() == b.len() + newlines(b),
{
    let c = with_crlf(b);
    lemma_crlf_size(b);
    lemma_crlf_lines(b);
    lemma_no_return(b);
    newlines_end_lines(b);
    assert forall|i: int| 0 <= i < contents(b).len() implies #[trigger] contents(c)[i] == contents(
        b,
    )[i] by {
        let raw = raw_lines(b)[i];
        assert forall|j: int| 0 <= j < raw.len() - 1 implies #[trigger] raw[j] != NEWLINE by {
            assert(raw_lines(b)[i][j] != NEWLINE);
        }
        assert forall|j: int| 0 <= j < raw.len() implies #[trigger] raw[j] != RETURN by {
            assert(raw_lines(b)[i][j] != RETURN);
        }
        assert(raw.len() > 0);
        lemma_crlf_line(raw);
        let long = raw_lines(c)[i];
        assert(long == with_crlf(raw));
        if raw.last() == NEWLINE {
            let line = raw.drop_last();
            if line.len() >= 3 {
                assert(long.take(3) =~= raw.take(3));
            } else {
                if long.len() >= 3 {
                    assert(long.take(3)[line.len() as int] == RETURN);
                }
                if raw.len() >= 3 {
                    assert(raw.take(3)[line.len() as int] == NEWLINE);
                }
            }
            assert(marked(long) == marked(raw));
            let shift: int = if i == 0 && marked(raw) {
                3
            } else {
                0
            };
            if shift == 3 {
                assert(line.len() >= 3);
            }
            let text = line.skip(shift);
            assert(line.skip(0) =~= line);
            assert(raw.skip(0) =~= raw);
            assert(long.skip(0) =~= long);
            assert(raw.skip(shift) =~= text + seq![NEWLINE]);
            assert(long.skip(shift) =~= text + seq![RETURN, NEWLINE]);
            if text.len() > 0 {
                assert(text.last() == raw[raw.len() - 2]);
            }
            line_endings_do_not_matter(text);
        }
    }
    assert(contents(c) =~= contents(b));
}

/// A byte order mark before the first line does not change the lines. Only one
/// is removed.
pub proof fn leading_mark_does_not_matter(b: Seq<u8>)
    requires
        b.len() > 0,
        !marked(b),
    ensures
        contents(byte_order_mark() + b) == contents(b),
{
    let mark = byte_order_mark();
    let c = mark + b;
    let end = line_end(b, 0);
    lemma_line_end(b, 0);
    assert forall|j: int| 0 <= j < 3 + end - 1 implies #[trigger] c[j] != NEWLINE by {
        if j >= 3 {
            assert(c[j] == b[j - 3]);
        }
    }
    assert(c[3 + end - 1] == b[end - 1]);
    lemma_line_end_is(c, 0, 3 + end);
    let first = first_raw(b);
    assert(first_raw(c) =~= mark + first);
    assert(c.skip(3 + end) =~= b.skip(end));
    assert(first_raw(c).take(3) =~= mark);
    assert(first_raw(c).skip(3) =~= first);
    if marked(first) {
        assert(b.take(3) =~= first.take(3));
    }
    assert forall|i: int| 0 <= i < contents(b).len() implies #[trigger] contents(c)[i] == contents(
        b,
    )[i] by {
        if i > 0 {
            assert(raw_lines(c)[i] == raw_lines(b.skip(end))[i - 1]);
            assert(raw_lines(b)[i] == raw_lines(b.skip(end))[i - 1]);
        }
    }
    assert(contents(c) =~= contents(b));
}

} // verus!
