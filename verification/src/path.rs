//! Field paths for pulling a value out of a parsed JSON document.
//!
//! A path is a sequence of segments: a bare or dotted key (`meta.source`), a
//! bracketed index (`messages[0]`, `messages[-1]` for "from the end"), or an
//! empty bracket meaning "every element" (`messages[].role`). A path can also
//! start with an index, for documents whose top level is itself an array
//! (`[0].id`).
//!
//! A key that is empty or holds one of the characters `.`, `[` and `]` cannot
//! stand in a path as it is. Such a key, and no other, is written as a JSON
//! string between brackets: `meta["file.name"]`. The string is the one that
//! [`escape_into`] writes.

use vstd::prelude::*;
use vstd::slice::slice_subrange;
use vstd::string::*;
use vstd::utf8::*;

use crate::ascii::{CLOSE_BRACKET, DOT, OPEN_BRACKET, QUOTE};
use crate::grammar::{at, lemma_string_end, string};
use crate::integer::{number_i64, read_i64};
use crate::json::{escape_into, lemma_array_view, member, quoted, Json, Value};
use crate::parser::{byte_is, parse_string};
use crate::text::{decimal_text, lemma_ascii_boundary, push_decimal, same_bytes, signed_text, slice_text};

verus! {

/// One step of a [`FieldPath`].
#[derive(Debug, Clone, PartialEq, Eq)]
pub enum Segment {
    /// An object member, by name.
    Key(String),
    /// An array element. Negative indices count from the end, `-1` being the
    /// last element.
    Index(i64),
    /// Every element of an array.
    Wildcard,
}

/// What a [`Segment`] stands for.
pub enum Step {
    Key(Seq<char>),
    Index(i64),
    Wildcard,
}

impl View for Segment {
    type V = Step;

    open spec fn view(&self) -> Step {
        match self {
            Segment::Key(name) => Step::Key(name@),
            Segment::Index(index) => Step::Index(*index),
            Segment::Wildcard => Step::Wildcard,
        }
    }
}

/// What went wrong while parsing a field path.
#[derive(Debug, Clone, PartialEq, Eq)]
pub enum PathErrorKind {
    /// The path was the empty string.
    EmptyPath,
    /// A `.` or the start of the path was followed by another separator.
    EmptyKey,
    /// A `[` was never closed.
    UnterminatedIndex,
    /// The text between `[` and `]` was not a valid integer. A key that cannot
    /// stand in a path as it is may be there in its place.
    InvalidIndex,
    /// A character that cannot appear outside a key, such as a stray `]`.
    UnexpectedChar(char),
}

/// The message of a path error.
pub open spec fn path_kind_text(kind: PathErrorKind) -> Seq<char> {
    match kind {
        PathErrorKind::EmptyPath => "empty field path"@,
        PathErrorKind::EmptyKey => "empty key segment"@,
        PathErrorKind::UnterminatedIndex => "unterminated '[' index"@,
        PathErrorKind::InvalidIndex => "invalid index inside '[...]'"@,
        PathErrorKind::UnexpectedChar(c) => "unexpected '"@ + seq![c] + "'"@,
    }
}

impl PathErrorKind {
    /// The message of this error.
    pub fn to_string(&self) -> (s: String)
        ensures
            s@ == path_kind_text(*self),
    {
        let mut s = String::new();
        match self {
            PathErrorKind::EmptyPath => s.append("empty field path"),
            PathErrorKind::EmptyKey => s.append("empty key segment"),
            PathErrorKind::UnterminatedIndex => s.append("unterminated '[' index"),
            PathErrorKind::InvalidIndex => s.append("invalid index inside '[...]'"),
            PathErrorKind::UnexpectedChar(c) => {
                s.append("unexpected '");
                s.push(*c);
                s.append("'");
            },
        }
        assert(s@ =~= path_kind_text(*self));
        s
    }
}

/// A parse failure together with the byte offset where it was detected.
#[derive(Debug, Clone, PartialEq, Eq)]
pub struct PathError {
    /// Zero based byte offset into the parsed path string.
    pub offset: usize,
    /// What went wrong.
    pub kind: PathErrorKind,
}

/// The message of a path error with its offset.
pub open spec fn path_error_text(e: PathError) -> Seq<char> {
    "at byte "@ + decimal_text(e.offset as nat) + ": "@ + path_kind_text(e.kind)
}

impl PathError {
    /// The offset and the message of this error.
    pub fn to_string(&self) -> (s: String)
        ensures
            s@ == path_error_text(*self),
    {
        let mut s = String::new();
        s.append("at byte ");
        push_decimal(self.offset as u64, &mut s);
        s.append(": ");
        s.append(self.kind.to_string().as_str());
        assert(s@ =~= path_error_text(*self));
        s
    }
}

/// Whether a byte ends a key.
pub open spec fn ends_key(b: u8) -> bool {
    b == DOT || b == OPEN_BRACKET || b == CLOSE_BRACKET
}

/// The end of the key at an offset.
pub open spec fn key_end(b: Seq<u8>, i: int) -> int
    decreases b.len() - i,
{
    if 0 <= i < b.len() && !ends_key(b[i]) {
        key_end(b, i + 1)
    } else {
        i
    }
}

/// The first closing bracket from an offset on, or the end of the path.
pub open spec fn bracket_end(b: Seq<u8>, i: int) -> int
    decreases b.len() - i,
{
    if 0 <= i < b.len() && b[i] != CLOSE_BRACKET {
        bracket_end(b, i + 1)
    } else {
        i
    }
}

/// A segment and the offset behind it, or the error.
pub type StepOutcome = Result<(Step, int), (int, PathErrorKind)>;

/// The key at an offset.
pub open spec fn key_step(b: Seq<u8>, i: int) -> StepOutcome {
    let end = key_end(b, i);
    if end == i {
        Err((i, PathErrorKind::EmptyKey))
    } else {
        Ok((Step::Key(decode_utf8(b.subrange(i, end))), end))
    }
}

/// The key in quotes behind the opening bracket at an offset, and the offset
/// behind its closing bracket. Only a key that cannot stand in a path as it is
/// is in quotes, and it is in no other spelling than the one it is written in.
pub open spec fn quoted_key(b: Seq<u8>, i: int) -> Option<(Seq<char>, int)> {
    if !at(b, i + 1, QUOTE) {
        None
    } else {
        match string(b, i + 1) {
            Ok((key, end)) => if at(b, end, CLOSE_BRACKET) && !plain_key(key) && b.subrange(
                i + 1,
                end,
            ) == encode_utf8(quoted(key)) {
                Some((key, end + 1))
            } else {
                None
            },
            Err(_) => None,
        }
    }
}

/// The segment at an offset.
pub open spec fn step_at(b: Seq<u8>, i: int) -> StepOutcome {
    if b[i] == OPEN_BRACKET {
        let close = bracket_end(b, i + 1);
        if quoted_key(b, i) is Some {
            let (key, end) = quoted_key(b, i)->0;
            Ok((Step::Key(key), end))
        } else if close >= b.len() {
            Err((i, PathErrorKind::UnterminatedIndex))
        } else if close == i + 1 {
            Ok((Step::Wildcard, close + 1))
        } else {
            match number_i64(b.subrange(i + 1, close)) {
                Some(n) => Ok((Step::Index(n), close + 1)),
                None => Err((i + 1, PathErrorKind::InvalidIndex)),
            }
        }
    } else if b[i] == DOT {
        if i == 0 {
            Err((0, PathErrorKind::EmptyKey))
        } else {
            key_step(b, i + 1)
        }
    } else if b[i] == CLOSE_BRACKET {
        Err((i, PathErrorKind::UnexpectedChar(']')))
    } else {
        key_step(b, i)
    }
}

/// The segments from an offset on.
pub open spec fn steps_from(b: Seq<u8>, i: int) -> Result<Seq<Step>, (int, PathErrorKind)>
    decreases b.len() - i,
{
    if i < 0 || i >= b.len() {
        Ok(Seq::empty())
    } else {
        match step_at(b, i) {
            Err(e) => Err(e),
            Ok((step, end)) => {
                proof {
                    lemma_step_end(b, i);
                }
                match steps_from(b, end) {
                    Ok(rest) => Ok(seq![step] + rest),
                    Err(e) => Err(e),
                }
            },
        }
    }
}

/// The segments of a path.
pub open spec fn path_steps(b: Seq<u8>) -> Result<Seq<Step>, (int, PathErrorKind)> {
    if b.len() == 0 {
        Err((0, PathErrorKind::EmptyPath))
    } else {
        steps_from(b, 0)
    }
}

pub proof fn lemma_key_end(b: Seq<u8>, i: int)
    requires
        0 <= i <= b.len(),
    ensures
        i <= key_end(b, i) <= b.len(),
        forall|j: int| i <= j < key_end(b, i) ==> !ends_key(b[j]),
        key_end(b, i) < b.len() ==> ends_key(b[key_end(b, i)]),
    decreases b.len() - i,
{
    if i < b.len() && !ends_key(b[i]) {
        lemma_key_end(b, i + 1);
    }
}

pub proof fn lemma_bracket_end(b: Seq<u8>, i: int)
    requires
        0 <= i <= b.len(),
    ensures
        i <= bracket_end(b, i) <= b.len(),
        bracket_end(b, i) < b.len() ==> b[bracket_end(b, i)] == CLOSE_BRACKET,
    decreases b.len() - i,
{
    if i < b.len() && b[i] != CLOSE_BRACKET {
        lemma_bracket_end(b, i + 1);
    }
}

/// A segment takes at least one byte.
pub proof fn lemma_step_end(b: Seq<u8>, i: int)
    requires
        0 <= i < b.len(),
    ensures
        step_at(b, i) matches Ok((step, end)) ==> i < end <= b.len(),
{
    lemma_bracket_end(b, i + 1);
    lemma_key_end(b, i + 1);
    lemma_key_end(b, i);
    lemma_string_end(b, i + 2);
}

/// Whether a key can stand in a path as it is: it is not empty and holds none
/// of the characters that separate segments.
pub open spec fn plain_key(key: Seq<char>) -> bool {
    &&& key.len() > 0
    &&& forall|i: int|
        0 <= i < key.len() ==> (#[trigger] key[i]) != '.' && key[i] != '[' && key[i] != ']'
}

/// A path with one more key, written plainly if it can be.
pub open spec fn member_path(prefix: Seq<char>, key: Seq<char>) -> Seq<char> {
    if !plain_key(key) {
        prefix + (seq!['['] + quoted(key) + seq![']'])
    } else if prefix.len() == 0 {
        key
    } else {
        prefix + seq!['.'] + key
    }
}

/// The path of the elements of an array.
pub open spec fn element_path(prefix: Seq<char>) -> Seq<char> {
    prefix + seq!['[', ']']
}

/// The path of one element of an array.
pub open spec fn index_path(prefix: Seq<char>, index: i64) -> Seq<char> {
    prefix + (seq!['['] + signed_text(index as int) + seq![']'])
}

/// Whether a key can stand in a path as it is.
fn is_plain_key(key: &str) -> (r: bool)
    ensures
        r == plain_key(key@),
{
    let mut plain: bool = key.unicode_len() > 0;
    for c in it: key.chars()
        invariant
            it.seq() == key@,
            plain == (key@.len() > 0 && forall|j: int|
                0 <= j < it.index() ==> (#[trigger] key@[j]) != '.' && key@[j] != '[' && key@[j]
                    != ']'),
    {
        assert(key@[it.index()] == c);
        if c == '.' || c == '[' || c == ']' {
            plain = false;
        }
    }
    plain
}

/// Writes a path with one more key.
pub fn with_member(prefix: &str, key: &str) -> (path: String)
    ensures
        path@ == member_path(prefix@, key@),
{
    let mut path = prefix.to_string();
    if !is_plain_key(key) {
        path.push('[');
        escape_into(key, &mut path);
        path.push(']');
    } else {
        if prefix.unicode_len() > 0 {
            path.push('.');
        }
        path.append(key);
    }
    assert(path@ =~= member_path(prefix@, key@));
    path
}

/// Writes the path of the elements of an array.
pub fn with_elements(prefix: &str) -> (path: String)
    ensures
        path@ == element_path(prefix@),
{
    let mut path = prefix.to_string();
    path.push('[');
    path.push(']');
    assert(path@ =~= element_path(prefix@));
    path
}

/// A parsed field path, ready to be matched against many documents.
#[derive(Debug, Clone, PartialEq, Eq)]
pub struct FieldPath {
    raw: String,
    segments: Vec<Segment>,
}

/// What a list of segments stands for.
pub open spec fn steps_of(segments: Seq<Segment>) -> Seq<Step> {
    Seq::new(segments.len(), |i: int| segments[i]@)
}

/// Where and why parsing a path failed.
pub open spec fn path_failure(e: PathError) -> (int, PathErrorKind) {
    (e.offset as int, e.kind)
}

/// The position that an index stands for in an array of the given length.
pub open spec fn resolved(len: nat, index: i64) -> Option<int> {
    let position = if index >= 0 {
        index as int
    } else {
        len + index
    };
    if 0 <= position < len {
        Some(position)
    } else {
        None
    }
}

/// What one step selects out of one value.
pub open spec fn step_into(step: Step, v: Json) -> Seq<Json> {
    match (step, v) {
        (Step::Key(name), Json::Object(_)) => match member(v, name) {
            Some(found) => seq![found],
            None => Seq::empty(),
        },
        (Step::Index(index), Json::Array(list)) => match resolved(list.len(), index) {
            Some(position) => seq![list[position]],
            None => Seq::empty(),
        },
        (Step::Wildcard, Json::Array(list)) => list,
        _ => Seq::empty(),
    }
}

/// What one step selects out of several values, in their order.
pub open spec fn step_into_all(step: Step, values: Seq<Json>) -> Seq<Json>
    decreases values.len(),
{
    if values.len() == 0 {
        Seq::empty()
    } else {
        step_into_all(step, values.drop_last()) + step_into(step, values.last())
    }
}

/// What the steps of a path select, one after the other.
pub open spec fn selected_from(steps: Seq<Step>, values: Seq<Json>) -> Seq<Json>
    decreases steps.len(),
{
    if steps.len() == 0 {
        values
    } else {
        selected_from(steps.drop_first(), step_into_all(steps[0], values))
    }
}

/// What a path selects out of a document.
pub open spec fn selected(steps: Seq<Step>, document: Json) -> Seq<Json> {
    selected_from(steps, seq![document])
}

/// What a list of borrowed values stands for.
pub open spec fn borrowed_meanings(values: Seq<&Value>) -> Seq<Json> {
    Seq::new(values.len(), |i: int| values[i]@)
}

impl FieldPath {
    /// The path as it was given.
    pub closed spec fn text(&self) -> Seq<char> {
        self.raw@
    }

    /// The steps of the path.
    pub closed spec fn steps(&self) -> Seq<Step> {
        steps_of(self.segments@)
    }

    /// Parses a path such as `messages[].role` or `[0].id`.
    pub fn parse(input: &str) -> (r: Result<FieldPath, PathError>)
        ensures
            match r {
                Ok(path) => path.text() == input@ && path_steps(input.spec_bytes()) == Ok::<
                    Seq<Step>,
                    (int, PathErrorKind),
                >(path.steps()),
                Err(e) => path_steps(input.spec_bytes()) == Err::<
                    Seq<Step>,
                    (int, PathErrorKind),
                >(path_failure(e)),
            },
    {
        let b = input.as_bytes();
        if b.len() == 0 {
            return Err(PathError { offset: 0, kind: PathErrorKind::EmptyPath });
        }
        let mut segments: Vec<Segment> = Vec::new();
        let mut i: usize = 0;
        let ghost expected = steps_from(b@, 0);
        proof {
            encode_utf8_valid_utf8(input@);
            is_char_boundary_start_end_of_seq(b@);
            assert(steps_of(segments@) =~= Seq::<Step>::empty());
            lemma_with_no_steps(Seq::empty(), expected);
        }
        while i < b.len()
            invariant
                b@ == input.spec_bytes(),
                valid_utf8(b@),
                0 < b.len(),
                i <= b.len(),
                is_char_boundary(b@, i as int),
                is_char_boundary(b@, b@.len() as int),
                expected == steps_from(b@, 0),
                expected == with_steps(steps_of(segments@), steps_from(b@, i as int)),
            decreases b.len() - i,
        {
            match Self::parse_segment(input, i) {
                Err(e) => {
                    return Err(e);
                },
                Ok((segment, end)) => {
                    let ghost before = steps_of(segments@);
                    let ghost step = segment@;
                    segments.push(segment);
                    proof {
                        assert(steps_of(segments@) =~= before.push(step));
                        lemma_with_steps_push(before, step, steps_from(b@, end as int));
                    }
                    i = end;
                },
            }
        }
        proof {
            assert(steps_of(segments@) + Seq::<Step>::empty() =~= steps_of(segments@));
        }
        Ok(FieldPath { raw: input.to_string(), segments })
    }

    /// Reads the segment at an offset.
    fn parse_segment(input: &str, i: usize) -> (r: Result<(Segment, usize), PathError>)
        requires
            i < input.spec_bytes().len(),
            is_char_boundary(input.spec_bytes(), i as int),
        ensures
            match r {
                Ok((segment, end)) => step_at(input.spec_bytes(), i as int) == Ok::<
                    (Step, int),
                    (int, PathErrorKind),
                >((segment@, end as int)) && i < end <= input.spec_bytes().len()
                    && is_char_boundary(input.spec_bytes(), end as int),
                Err(e) => step_at(input.spec_bytes(), i as int) == Err::<
                    (Step, int),
                    (int, PathErrorKind),
                >(path_failure(e)),
            },
    {
        let b = input.as_bytes();
        proof {
            encode_utf8_valid_utf8(input@);
            lemma_bracket_end(b@, i + 1);
        }
        if b[i] == OPEN_BRACKET {
            if let Some((key, end)) = Self::parse_quoted(input, i) {
                return Ok((Segment::Key(key), end));
            }
            let start: usize = i + 1;
            let mut close: usize = start;
            while close < b.len() && b[close] != CLOSE_BRACKET
                invariant
                    start <= close <= b.len(),
                    bracket_end(b@, start as int) == bracket_end(b@, close as int),
                decreases b.len() - close,
            {
                close += 1;
            }
            if close >= b.len() {
                return Err(PathError { offset: i, kind: PathErrorKind::UnterminatedIndex });
            }
            proof {
                lemma_ascii_boundary(b@, close as int);
            }
            if close == start {
                return Ok((Segment::Wildcard, close + 1));
            }
            match read_i64(slice_subrange(b, start, close)) {
                Some(index) => Ok((Segment::Index(index), close + 1)),
                None => Err(PathError { offset: start, kind: PathErrorKind::InvalidIndex }),
            }
        } else if b[i] == DOT {
            if i == 0 {
                return Err(PathError { offset: 0, kind: PathErrorKind::EmptyKey });
            }
            proof {
                lemma_ascii_boundary(b@, i as int);
            }
            Self::parse_key(input, i + 1)
        } else if b[i] == CLOSE_BRACKET {
            Err(PathError { offset: i, kind: PathErrorKind::UnexpectedChar(']') })
        } else {
            Self::parse_key(input, i)
        }
    }

    /// Reads the key in quotes behind the opening bracket at an offset.
    fn parse_quoted(input: &str, i: usize) -> (r: Option<(String, usize)>)
        requires
            i < input.spec_bytes().len(),
        ensures
            match r {
                Some((key, end)) => quoted_key(input.spec_bytes(), i as int) == Some(
                    (key@, end as int),
                ) && i < end <= input.spec_bytes().len() && is_char_boundary(
                    input.spec_bytes(),
                    end as int,
                ),
                None => quoted_key(input.spec_bytes(), i as int) is None,
            },
    {
        let b = input.as_bytes();
        assert(i < b.len());
        if !byte_is(b, i + 1, QUOTE) {
            return None;
        }
        match parse_string(input, i + 1) {
            Ok((key, end)) => {
                if !byte_is(b, end, CLOSE_BRACKET) || is_plain_key(key.as_str()) {
                    return None;
                }
                let mut text = String::new();
                escape_into(key.as_str(), &mut text);
                assert(text@ =~= quoted(key@));
                if !same_bytes(slice_subrange(b, i + 1, end), text.as_str().as_bytes()) {
                    return None;
                }
                assert(end < b.len());
                proof {
                    encode_utf8_valid_utf8(input@);
                    lemma_ascii_boundary(b@, end as int);
                }
                Some((key, end + 1))
            },
            Err(_) => None,
        }
    }

    /// Reads the key at an offset.
    fn parse_key(input: &str, start: usize) -> (r: Result<(Segment, usize), PathError>)
        requires
            start <= input.spec_bytes().len(),
            is_char_boundary(input.spec_bytes(), start as int),
        ensures
            match r {
                Ok((segment, end)) => key_step(input.spec_bytes(), start as int) == Ok::<
                    (Step, int),
                    (int, PathErrorKind),
                >((segment@, end as int)) && start < end <= input.spec_bytes().len()
                    && is_char_boundary(input.spec_bytes(), end as int),
                Err(e) => key_step(input.spec_bytes(), start as int) == Err::<
                    (Step, int),
                    (int, PathErrorKind),
                >(path_failure(e)),
            },
    {
        let b = input.as_bytes();
        let mut i: usize = start;
        while i < b.len() && !(b[i] == DOT || b[i] == OPEN_BRACKET || b[i] == CLOSE_BRACKET)
            invariant
                start <= i <= b.len(),
                key_end(b@, start as int) == key_end(b@, i as int),
            decreases b.len() - i,
        {
            i += 1;
        }
        if i == start {
            return Err(PathError { offset: start, kind: PathErrorKind::EmptyKey });
        }
        proof {
            encode_utf8_valid_utf8(input@);
            if i < b.len() {
                lemma_ascii_boundary(b@, i as int);
            } else {
                is_char_boundary_start_end_of_seq(b@);
            }
        }
        let key = slice_text(input, start, i);
        proof {
            encode_utf8_decode_utf8(key@);
        }
        Ok((Segment::Key(key.to_string()), i))
    }

    /// The path exactly as it was given to [`parse`](FieldPath::parse).
    pub fn as_str(&self) -> (s: &str)
        ensures
            s@ == self.text(),
    {
        self.raw.as_str()
    }

    /// The path as it was given.
    pub fn to_string(&self) -> (s: String)
        ensures
            s@ == self.text(),
    {
        self.raw.clone()
    }

    /// The parsed steps, in order.
    pub fn segments(&self) -> (segments: &[Segment])
        ensures
            steps_of(segments@) == self.steps(),
    {
        self.segments.as_slice()
    }

    /// Every value this path selects out of `document`.
    ///
    /// A wildcard or an index into a non-array yields nothing rather than an
    /// error, since "the field is absent from this record" is the normal,
    /// expected case when profiling a dataset.
    pub fn select<'a>(&self, document: &'a Value) -> (r: Vec<&'a Value>)
        ensures
            borrowed_meanings(r@) == selected(self.steps(), document@),
    {
        let mut current: Vec<&'a Value> = Vec::new();
        current.push(document);
        let ghost steps = self.steps();
        proof {
            assert(borrowed_meanings(current@) =~= seq![document@]);
            assert(steps.skip(0) =~= steps);
        }
        let mut i: usize = 0;
        while i < self.segments.len()
            invariant
                i <= self.segments.len(),
                steps == steps_of(self.segments@),
                selected(steps, document@) == selected_from(
                    steps.skip(i as int),
                    borrowed_meanings(current@),
                ),
            decreases self.segments.len() - i,
        {
            let segment = &self.segments[i];
            let next = segment.step_all(&current);
            proof {
                assert(steps.skip(i as int)[0] == segment@);
                assert(steps.skip(i as int).drop_first() =~= steps.skip(i + 1));
            }
            current = next;
            i += 1;
        }
        assert(steps.skip(i as int) =~= Seq::<Step>::empty());
        current
    }
}

impl Segment {
    /// Every value this step selects out of several values, in their order.
    fn step_all<'a>(&self, values: &Vec<&'a Value>) -> (next: Vec<&'a Value>)
        ensures
            borrowed_meanings(next@) == step_into_all(self@, borrowed_meanings(values@)),
    {
        let mut next: Vec<&'a Value> = Vec::new();
        let ghost all = borrowed_meanings(values@);
        let mut i: usize = 0;
        proof {
            assert(borrowed_meanings(next@) =~= Seq::<Json>::empty());
            assert(all.take(0) =~= Seq::<Json>::empty());
        }
        while i < values.len()
            invariant
                i <= values.len(),
                all == borrowed_meanings(values@),
                borrowed_meanings(next@) == step_into_all(self@, all.take(i as int)),
            decreases values.len() - i,
        {
            let ghost before = borrowed_meanings(next@);
            let value: &'a Value = values[i];
            match self {
                Segment::Key(name) => {
                    match value.get(name.as_str()) {
                        Some(found) => {
                            next.push(found);
                            assert(borrowed_meanings(next@) =~= before + seq![found@]);
                        },
                        None => {
                            assert(before + Seq::<Json>::empty() =~= before);
                        },
                    }
                },
                Segment::Index(index) => {
                    match value.as_array() {
                        Some(items) => {
                            proof {
                                lemma_array_view(*value);
                            }
                            match resolve_index(items, *index) {
                                Some(item) => {
                                    next.push(item);
                                    assert(borrowed_meanings(next@) =~= before + seq![item@]);
                                },
                                None => {
                                    assert(before + Seq::<Json>::empty() =~= before);
                                },
                            }
                        },
                        None => {
                            assert(before + Seq::<Json>::empty() =~= before);
                        },
                    }
                },
                Segment::Wildcard => {
                    match value.as_array() {
                        Some(items) => {
                            proof {
                                lemma_array_view(*value);
                            }
                            let ghost list = value@->Array_0;
                            let mut j: usize = 0;
                            assert(before + list.take(0) =~= before);
                            while j < items.len()
                                invariant
                                    j <= items.len(),
                                    list.len() == items@.len(),
                                    forall|k: int|
                                        0 <= k < items@.len() ==> list[k] == (
                                        #[trigger] items@[k])@,
                                    borrowed_meanings(next@) == before + list.take(j as int),
                                decreases items.len() - j,
                            {
                                let item: &'a Value = &items[j];
                                let ghost had = borrowed_meanings(next@);
                                next.push(item);
                                proof {
                                    assert(items@[j as int]@ == list[j as int]);
                                    assert(borrowed_meanings(next@) =~= had.push(item@));
                                    assert(had.push(item@) =~= before + list.take(j + 1));
                                }
                                j += 1;
                            }
                            assert(list.take(j as int) =~= list);
                        },
                        None => {
                            assert(before + Seq::<Json>::empty() =~= before);
                        },
                    }
                },
            }
            proof {
                assert(all.take(i + 1).drop_last() =~= all.take(i as int));
            }
            i += 1;
        }
        assert(all.take(i as int) =~= all);
        next
    }
}

/// Resolves a (possibly negative) index against a slice, the way `[-1]`
/// means the last element.
fn resolve_index(items: &[Value], index: i64) -> (r: Option<&Value>)
    ensures
        match r {
            Some(v) => resolved(items@.len(), index) matches Some(i) && items@[i] == v,
            None => resolved(items@.len(), index) is None,
        },
{
    let len: u64 = items.len() as u64;
    let position: u64 = if index >= 0 {
        index as u64
    } else {
        let from_end: u64 = if index == i64::MIN {
            0x8000_0000_0000_0000
        } else {
            (-index) as u64
        };
        if from_end > len {
            return None;
        }
        len - from_end
    };
    if position < len {
        Some(&items[position as usize])
    } else {
        None
    }
}

/// Puts steps before those of an outcome.
pub open spec fn with_steps(
    head: Seq<Step>,
    rest: Result<Seq<Step>, (int, PathErrorKind)>,
) -> Result<Seq<Step>, (int, PathErrorKind)> {
    match rest {
        Ok(tail) => Ok(head + tail),
        Err(e) => Err(e),
    }
}

proof fn lemma_with_no_steps(head: Seq<Step>, rest: Result<Seq<Step>, (int, PathErrorKind)>)
    requires
        head.len() == 0,
    ensures
        with_steps(head, rest) == rest,
{
    match rest {
        Ok(tail) => {
            assert(head + tail =~= tail);
        },
        Err(e) => {},
    }
}

proof fn lemma_with_steps_push(
    head: Seq<Step>,
    step: Step,
    rest: Result<Seq<Step>, (int, PathErrorKind)>,
)
    ensures
        with_steps(head.push(step), rest) == with_steps(head, with_steps(seq![step], rest)),
{
    match rest {
        Ok(tail) => {
            assert(head.push(step) + tail =~= head + (seq![step] + tail));
        },
        Err(e) => {},
    }
}

} // verus!
