//! A small, dependency-free JSON reader.
//!
//! The parser is a hand written recursive descent parser over `&str`. It is
//! strict: it follows RFC 8259 and rejects the usual "almost JSON" mistakes
//! that show up in scraped training data (trailing commas, single quotes,
//! `NaN`, leading zeros, unescaped control characters, lone surrogates).
//!
//! Every failure carries the byte offset inside the input, which is what makes
//! it possible to point at the exact column of a broken line in a JSONL file.
//! What a document is, and which error is reported where, is the subject of
//! [`crate::grammar`].

use vstd::prelude::*;
use vstd::string::*;
use vstd::utf8::*;

use crate::binary64::{nearest, signed, Binary64};
use crate::grammar::document;
use crate::notation::{float_text, push_float};
use crate::parser::{failure, parse_value, skip_space};
use crate::text::{decimal_text, push_decimal, push_signed, same_text, signed_text};

verus! {

/// Maximum nesting depth accepted by [`parse`].
///
/// Deeply nested input is rejected instead of blowing the native stack.
pub const MAX_DEPTH: usize = 128;

/// A JSON value as mathematics: what a [`Value`] stands for.
///
/// A float is given by its bits, a string by its characters.
pub enum Json {
    Null,
    Bool(bool),
    Int(i64),
    Float(u64),
    Str(Seq<char>),
    Array(Seq<Json>),
    Object(Seq<(Seq<char>, Json)>),
}

/// A parsed JSON value.
///
/// JSON has a single numeric type, but telling integers from floats is useful
/// when profiling datasets, so the two are kept apart. A number without a
/// fraction or exponent that fits in an `i64` becomes [`Value::Int`], anything
/// else becomes [`Value::Float`].
#[derive(Debug, PartialEq)]
pub enum Value {
    /// `null`
    Null,
    /// `true` / `false`
    Bool(bool),
    /// An integral number that fits in an `i64`.
    Int(i64),
    /// Any other number.
    Float(Binary64),
    /// A string, with escape sequences already decoded.
    Str(String),
    /// An array, in source order.
    Array(Vec<Value>),
    /// An object. Member order is preserved and duplicate keys are kept.
    Object(Vec<(String, Value)>),
}

/// What a value stands for.
pub open spec fn meaning(v: Value) -> Json
    decreases v,
{
    match v {
        Value::Null => Json::Null,
        Value::Bool(b) => Json::Bool(b),
        Value::Int(n) => Json::Int(n),
        Value::Float(f) => Json::Float(f@),
        Value::Str(s) => Json::Str(s@),
        Value::Array(items) => Json::Array(
            Seq::new(
                items@.len(),
                |i: int|
                    if 0 <= i < items@.len() {
                        meaning(items@[i])
                    } else {
                        Json::Null
                    },
            ),
        ),
        Value::Object(fields) => Json::Object(
            Seq::new(
                fields@.len(),
                |i: int|
                    if 0 <= i < fields@.len() {
                        (fields@[i].0@, meaning(fields@[i].1))
                    } else {
                        (Seq::empty(), Json::Null)
                    },
            ),
        ),
    }
}

impl View for Value {
    type V = Json;

    open spec fn view(&self) -> Json {
        meaning(*self)
    }
}

impl Clone for Value {
    fn clone(&self) -> (r: Value)
        ensures
            r@ == self@,
        decreases self,
    {
        match self {
            Value::Null => Value::Null,
            Value::Bool(b) => Value::Bool(*b),
            Value::Int(n) => Value::Int(*n),
            Value::Float(f) => Value::Float(*f),
            Value::Str(s) => Value::Str(s.clone()),
            Value::Array(items) => {
                let mut copies: Vec<Value> = Vec::new();
                let mut i: usize = 0;
                while i < items.len()
                    invariant
                        self matches Value::Array(v) && v == items,
                        i <= items.len(),
                        copies.len() == i,
                        forall|j: int| 0 <= j < i ==> (#[trigger] copies@[j])@ == items@[j]@,
                    decreases items.len() - i,
                {
                    copies.push(items[i].clone());
                    i += 1;
                }
                let r = Value::Array(copies);
                proof {
                    lemma_array_view(r);
                    lemma_array_view(*self);
                    assert(r@->Array_0 =~= self@->Array_0);
                }
                r
            },
            Value::Object(fields) => {
                let mut copies: Vec<(String, Value)> = Vec::new();
                let mut i: usize = 0;
                while i < fields.len()
                    invariant
                        self matches Value::Object(v) && v == fields,
                        i <= fields.len(),
                        copies.len() == i,
                        forall|j: int|
                            0 <= j < i ==> (#[trigger] copies@[j]).0@ == fields@[j].0@
                                && copies@[j].1@ == fields@[j].1@,
                    decreases fields.len() - i,
                {
                    copies.push((fields[i].0.clone(), fields[i].1.clone()));
                    i += 1;
                }
                let r = Value::Object(copies);
                proof {
                    lemma_object_view(r);
                    lemma_object_view(*self);
                    assert(r@->Object_0 =~= self@->Object_0);
                }
                r
            },
        }
    }
}

/// The view of an array holds the views of its elements.
pub proof fn lemma_array_view(v: Value)
    requires
        v is Array,
    ensures
        v@ is Array,
        v@->Array_0.len() == v->Array_0@.len(),
        forall|i: int| 0 <= i < v->Array_0@.len() ==> v@->Array_0[i] == (#[trigger] v->Array_0@[i])@,
{
}

/// The view of an object holds the views of its members.
pub proof fn lemma_object_view(v: Value)
    requires
        v is Object,
    ensures
        v@ is Object,
        v@->Object_0.len() == v->Object_0@.len(),
        forall|i: int|
            0 <= i < v->Object_0@.len() ==> v@->Object_0[i] == (
                (#[trigger] v->Object_0@[i]).0@,
                v->Object_0@[i].1@,
            ),
{
}

/// Short type name of a value.
pub open spec fn type_text(v: Json) -> Seq<char> {
    match v {
        Json::Null => "null"@,
        Json::Bool(_) => "bool"@,
        Json::Int(_) => "int"@,
        Json::Float(_) => "float"@,
        Json::Str(_) => "string"@,
        Json::Array(_) => "array"@,
        Json::Object(_) => "object"@,
    }
}

/// The first member with a given name, from the `from`-th member on.
pub open spec fn first_member(
    fields: Seq<(Seq<char>, Json)>,
    key: Seq<char>,
    from: int,
) -> Option<Json>
    decreases fields.len() - from,
{
    if from < 0 || from >= fields.len() {
        None
    } else if fields[from].0 == key {
        Some(fields[from].1)
    } else {
        first_member(fields, key, from + 1)
    }
}

/// The member of a value with a given name.
pub open spec fn member(v: Json, key: Seq<char>) -> Option<Json> {
    match v {
        Json::Object(fields) => first_member(fields, key, 0),
        _ => None,
    }
}

/// A value as compact JSON.
pub open spec fn json_text(v: Json) -> Seq<char>
    decreases v, 0int,
{
    match v {
        Json::Null => "null"@,
        Json::Bool(b) => if b {
            "true"@
        } else {
            "false"@
        },
        Json::Int(n) => signed_text(n as int),
        Json::Float(bits) => float_text(bits),
        Json::Str(s) => quoted(s),
        Json::Array(items) => seq!['['] + items_text(items, 0) + seq![']'],
        Json::Object(fields) => seq!['{'] + fields_text(fields, 0) + seq!['}'],
    }
}

/// The elements of an array from the `from`-th on, each but the very first
/// behind a comma.
pub open spec fn items_text(items: Seq<Json>, from: int) -> Seq<char>
    decreases items, items.len() - from,
{
    if from < 0 || from >= items.len() {
        Seq::empty()
    } else {
        comma(from) + json_text(items[from]) + items_text(items, from + 1)
    }
}

/// The members of an object from the `from`-th on, each but the very first
/// behind a comma.
pub open spec fn fields_text(fields: Seq<(Seq<char>, Json)>, from: int) -> Seq<char>
    decreases fields, fields.len() - from,
{
    if from < 0 || from >= fields.len() {
        Seq::empty()
    } else {
        comma(from) + quoted(fields[from].0) + seq![':'] + json_text(fields[from].1) + fields_text(
            fields,
            from + 1,
        )
    }
}

/// What stands before the item with a given number.
pub open spec fn comma(number: int) -> Seq<char> {
    if number > 0 {
        seq![',']
    } else {
        Seq::empty()
    }
}

/// A lower case hexadecimal digit.
pub open spec fn hex_char(d: nat) -> char {
    if d < 10 {
        (0x30 + d) as u8 as char
    } else {
        (0x61 + d - 10) as u8 as char
    }
}

/// A character as it stands inside a JSON string.
pub open spec fn escaped_char(c: char) -> Seq<char> {
    if c == '"' {
        seq!['\\', '"']
    } else if c == '\\' {
        seq!['\\', '\\']
    } else if c == '\n' {
        seq!['\\', 'n']
    } else if c == '\r' {
        seq!['\\', 'r']
    } else if c == '\t' {
        seq!['\\', 't']
    } else if c == '\u{8}' {
        seq!['\\', 'b']
    } else if c == '\u{c}' {
        seq!['\\', 'f']
    } else if (c as u32) < 0x20 {
        seq![
            '\\',
            'u',
            '0',
            '0',
            hex_char((c as u32 / 16) as nat),
            hex_char((c as u32 % 16) as nat),
        ]
    } else {
        seq![c]
    }
}

/// Characters as they stand inside a JSON string.
pub open spec fn escaped(s: Seq<char>) -> Seq<char>
    decreases s.len(),
{
    if s.len() == 0 {
        Seq::empty()
    } else {
        escaped_char(s[0]) + escaped(s.drop_first())
    }
}

/// A JSON string with its quotes.
pub open spec fn quoted(s: Seq<char>) -> Seq<char> {
    seq!['"'] + escaped(s) + seq!['"']
}

proof fn lemma_escaped_push(s: Seq<char>, c: char)
    ensures
        escaped(s.push(c)) == escaped(s) + escaped_char(c),
    decreases s.len(),
{
    if s.len() == 0 {
        assert(s.push(c).drop_first() =~= s);
        assert(escaped(s.push(c)) =~= escaped(s) + escaped_char(c));
    } else {
        assert(s.push(c).drop_first() =~= s.drop_first().push(c));
        lemma_escaped_push(s.drop_first(), c);
        assert(escaped(s.push(c)) =~= escaped(s) + escaped_char(c));
    }
}

impl Value {
    /// Short type name used in reports: `null`, `bool`, `int`, `float`,
    /// `string`, `array` or `object`.
    pub fn type_label(&self) -> (name: &'static str)
        ensures
            name@ == type_text(self@),
    {
        match self {
            Value::Null => "null",
            Value::Bool(_) => "bool",
            Value::Int(_) => "int",
            Value::Float(_) => "float",
            Value::Str(_) => "string",
            Value::Array(_) => "array",
            Value::Object(_) => "object",
        }
    }

    /// Looks up an object member by name, returning the first match.
    pub fn get(&self, key: &str) -> (r: Option<&Value>)
        ensures
            match r {
                Some(v) => member(self@, key@) == Some(v@),
                None => member(self@, key@) is None,
            },
    {
        match self {
            Value::Object(fields) => {
                proof {
                    lemma_object_view(*self);
                }
                let mut i: usize = 0;
                while i < fields.len()
                    invariant
                        i <= fields.len(),
                        self@ is Object,
                        self@->Object_0.len() == fields@.len(),
                        forall|j: int|
                            0 <= j < fields@.len() ==> self@->Object_0[j] == (
                                (#[trigger] fields@[j]).0@,
                                fields@[j].1@,
                            ),
                        member(self@, key@) == first_member(self@->Object_0, key@, i as int),
                    decreases fields.len() - i,
                {
                    if same_text(fields[i].0.as_str(), key) {
                        return Some(&fields[i].1);
                    }
                    i += 1;
                }
                None
            },
            _ => None,
        }
    }

    /// Borrows the value as a string slice, if it is a string.
    pub fn as_str(&self) -> (r: Option<&str>)
        ensures
            match r {
                Some(s) => self@ == Json::Str(s@),
                None => !(self@ is Str),
            },
    {
        match self {
            Value::Str(s) => Some(s.as_str()),
            _ => None,
        }
    }

    /// Returns the value as an `i64`, if it is an integral number.
    pub fn as_i64(&self) -> (r: Option<i64>)
        ensures
            match r {
                Some(n) => self@ == Json::Int(n),
                None => !(self@ is Int),
            },
    {
        match self {
            Value::Int(n) => Some(*n),
            _ => None,
        }
    }

    /// Returns the value as a binary number, widening integers.
    pub fn as_f64(&self) -> (r: Option<Binary64>)
        ensures
            match (r, self@) {
                (Some(x), Json::Float(bits)) => x@ == bits,
                (Some(x), Json::Int(n)) => x@ == signed(
                    n < 0,
                    nearest(
                        if n < 0 {
                            -n
                        } else {
                            n as int
                        } as nat,
                        1,
                    ),
                ),
                (Some(_), _) => false,
                (None, v) => !(v is Int) && !(v is Float),
            },
    {
        match self {
            Value::Int(n) => Some(Binary64::from_i64(*n)),
            Value::Float(f) => Some(*f),
            _ => None,
        }
    }

    /// Returns the boolean payload, if any.
    pub fn as_bool(&self) -> (r: Option<bool>)
        ensures
            match r {
                Some(b) => self@ == Json::Bool(b),
                None => !(self@ is Bool),
            },
    {
        match self {
            Value::Bool(b) => Some(*b),
            _ => None,
        }
    }

    /// Borrows the elements of an array.
    pub fn as_array(&self) -> (r: Option<&[Value]>)
        ensures
            match r {
                Some(items) => *self matches Value::Array(v) && v@ == items@,
                None => !(self@ is Array),
            },
    {
        match self {
            Value::Array(items) => Some(items.as_slice()),
            _ => None,
        }
    }

    /// Borrows the members of an object.
    pub fn as_object(&self) -> (r: Option<&[(String, Value)]>)
        ensures
            match r {
                Some(fields) => *self matches Value::Object(v) && v@ == fields@,
                None => !(self@ is Object),
            },
    {
        match self {
            Value::Object(fields) => Some(fields.as_slice()),
            _ => None,
        }
    }

    /// True for [`Value::Null`].
    pub fn is_null(&self) -> (r: bool)
        ensures
            r == (self@ is Null),
    {
        matches!(self, Value::Null)
    }

    /// Serialises back to compact JSON.
    pub fn to_json(&self) -> (text: String)
        ensures
            text@ == json_text(self@),
    {
        let mut out = String::new();
        self.write_json(&mut out);
        assert(out@ =~= json_text(self@));
        out
    }

    /// Appends the compact JSON encoding of this value to `out`.
    pub fn write_json(&self, out: &mut String)
        ensures
            final(out)@ == old(out)@ + json_text(self@),
        decreases self,
    {
        let ghost start = out@;
        match self {
            Value::Null => out.append("null"),
            Value::Bool(b) => if *b {
                out.append("true");
            } else {
                out.append("false");
            },
            Value::Int(n) => push_signed(*n, out),
            Value::Float(f) => push_float(*f, out),
            Value::Str(s) => escape_into(s.as_str(), out),
            Value::Array(items) => {
                proof {
                    lemma_array_view(*self);
                }
                let ghost views = self@->Array_0;
                out.push('[');
                let ghost open = out@;
                let mut i: usize = 0;
                while i < items.len()
                    invariant
                        self matches Value::Array(v) && v == items,
                        i <= items.len(),
                        views.len() == items@.len(),
                        forall|j: int|
                            0 <= j < items@.len() ==> views[j] == (#[trigger] items@[j])@,
                        out@ + items_text(views, i as int) == open + items_text(views, 0),
                    decreases items.len() - i,
                {
                    let ghost before = out@;
                    if i > 0 {
                        out.push(',');
                    }
                    items[i].write_json(out);
                    proof {
                        assert(out@ + items_text(views, i + 1) =~= before + items_text(
                            views,
                            i as int,
                        ));
                    }
                    i += 1;
                }
                assert(out@ + items_text(views, i as int) =~= out@);
                out.push(']');
                assert(out@ =~= start + json_text(self@));
            },
            Value::Object(fields) => {
                proof {
                    lemma_object_view(*self);
                }
                let ghost views = self@->Object_0;
                out.push('{');
                let ghost open = out@;
                let mut i: usize = 0;
                while i < fields.len()
                    invariant
                        self matches Value::Object(v) && v == fields,
                        i <= fields.len(),
                        views.len() == fields@.len(),
                        forall|j: int|
                            0 <= j < fields@.len() ==> views[j] == (
                                (#[trigger] fields@[j]).0@,
                                fields@[j].1@,
                            ),
                        out@ + fields_text(views, i as int) == open + fields_text(views, 0),
                    decreases fields.len() - i,
                {
                    let ghost before = out@;
                    if i > 0 {
                        out.push(',');
                    }
                    escape_into(fields[i].0.as_str(), out);
                    out.push(':');
                    fields[i].1.write_json(out);
                    proof {
                        assert(out@ + fields_text(views, i + 1) =~= before + fields_text(
                            views,
                            i as int,
                        ));
                    }
                    i += 1;
                }
                assert(out@ + fields_text(views, i as int) =~= out@);
                out.push('}');
                assert(out@ =~= start + json_text(self@));
            },
        }
    }
}

fn hex_digit_char(d: u8) -> (c: char)
    requires
        d < 16,
    ensures
        c == hex_char(d as nat),
{
    if d < 10 {
        (0x30 + d) as char
    } else {
        (0x61 + (d - 10)) as char
    }
}

/// Appends `s` to `out` as a quoted, escaped JSON string.
pub fn escape_into(s: &str, out: &mut String)
    ensures
        final(out)@ == old(out)@ + quoted(s@),
{
    let ghost start = out@;
    out.push('"');
    let ghost mut n: int = 0;
    assert(s@.take(0) =~= Seq::<char>::empty());
    for c in it: s.chars()
        invariant
            it.seq() == s@,
            n == it.index(),
            out@ == start + seq!['"'] + escaped(s@.take(n)),
    {
        let ghost before = out@;
        if c == '"' {
            out.push('\\');
            out.push('"');
        } else if c == '\\' {
            out.push('\\');
            out.push('\\');
        } else if c == '\n' {
            out.push('\\');
            out.push('n');
        } else if c == '\r' {
            out.push('\\');
            out.push('r');
        } else if c == '\t' {
            out.push('\\');
            out.push('t');
        } else if c == '\u{8}' {
            out.push('\\');
            out.push('b');
        } else if c == '\u{c}' {
            out.push('\\');
            out.push('f');
        } else if (c as u32) < 0x20 {
            let code: u32 = c as u32;
            out.push('\\');
            out.push('u');
            out.push('0');
            out.push('0');
            out.push(hex_digit_char((code / 16) as u8));
            out.push(hex_digit_char((code % 16) as u8));
        } else {
            out.push(c);
        }
        proof {
            assert(out@ =~= before + escaped_char(c));
            assert(s@.take(n + 1) =~= s@.take(n).push(c));
            lemma_escaped_push(s@.take(n), c);
            assert(out@ =~= start + seq!['"'] + escaped(s@.take(n + 1)));
            n = n + 1;
        }
    }
    assert(s@.take(n) =~= s@);
    out.push('"');
    assert(out@ =~= start + quoted(s@));
}

/// What went wrong while parsing.
#[derive(Debug, Clone, PartialEq, Eq)]
pub enum ErrorKind {
    /// Input ended in the middle of a value.
    UnexpectedEof,
    /// A byte that cannot start a value.
    UnexpectedByte(u8),
    /// Something that looked like `true`, `false` or `null` but was not.
    InvalidLiteral,
    /// A malformed number, e.g. `1.`, `.5`, `1e`.
    InvalidNumber,
    /// A number the `f64` type cannot represent, e.g. `1e400`.
    NumberOutOfRange,
    /// An unknown `\x` escape inside a string.
    InvalidEscape(u8),
    /// A `\u` escape with fewer than four hex digits.
    InvalidUnicodeEscape,
    /// A surrogate half without its partner.
    UnpairedSurrogate,
    /// A raw control character inside a string; it must be escaped.
    ControlCharacter(u8),
    /// An object member without its `:`.
    ExpectedColon,
    /// An object that continued with something other than `,` or `}`.
    ExpectedCommaOrCloseBrace,
    /// An array that continued with something other than `,` or `]`.
    ExpectedCommaOrCloseBracket,
    /// An object member that did not start with a quoted key.
    ExpectedKey,
    /// Non-whitespace bytes after the top level value.
    TrailingData,
    /// Nesting deeper than [`MAX_DEPTH`].
    DepthLimitExceeded,
}

/// A parse failure together with the byte offset where it was detected.
#[derive(Debug, Clone, PartialEq, Eq)]
pub struct ParseError {
    /// Zero based byte offset into the parsed input.
    pub offset: usize,
    /// What went wrong.
    pub kind: ErrorKind,
}

/// A byte as it is named in an error message.
pub open spec fn byte_text(b: u8) -> Seq<char> {
    if 0x21 <= b <= 0x7e {
        seq!['\'', b as char, '\'']
    } else {
        "byte 0x"@ + seq![hex_char((b / 16) as nat), hex_char((b % 16) as nat)]
    }
}

/// The message of an error.
pub open spec fn kind_text(kind: ErrorKind) -> Seq<char> {
    match kind {
        ErrorKind::UnexpectedEof => "unexpected end of input"@,
        ErrorKind::UnexpectedByte(b) => "unexpected "@ + byte_text(b),
        ErrorKind::InvalidLiteral => "invalid literal, expected true/false/null"@,
        ErrorKind::InvalidNumber => "invalid number"@,
        ErrorKind::NumberOutOfRange => "number out of range for f64"@,
        ErrorKind::InvalidEscape(b) => "invalid escape sequence \\"@ + byte_text(b),
        ErrorKind::InvalidUnicodeEscape => "invalid \\u escape"@,
        ErrorKind::UnpairedSurrogate => "unpaired UTF-16 surrogate"@,
        ErrorKind::ControlCharacter(b) => "unescaped control character "@ + byte_text(b),
        ErrorKind::ExpectedColon => "expected ':' after object key"@,
        ErrorKind::ExpectedCommaOrCloseBrace => "expected ',' or '}' in object"@,
        ErrorKind::ExpectedCommaOrCloseBracket => "expected ',' or ']' in array"@,
        ErrorKind::ExpectedKey => "expected a quoted object key"@,
        ErrorKind::TrailingData => "trailing data after JSON value"@,
        ErrorKind::DepthLimitExceeded => "nesting too deep"@,
    }
}

fn describe_byte(b: u8) -> (s: String)
    ensures
        s@ == byte_text(b),
{
    let mut s = String::new();
    if 0x21 <= b && b <= 0x7e {
        s.push('\'');
        s.push(b as char);
        s.push('\'');
    } else {
        s.append("byte 0x");
        s.push(hex_digit_char(b / 16));
        s.push(hex_digit_char(b % 16));
    }
    assert(s@ =~= byte_text(b));
    s
}

impl ErrorKind {
    /// The message of this error.
    pub fn to_string(&self) -> (s: String)
        ensures
            s@ == kind_text(*self),
    {
        let mut s = String::new();
        match self {
            ErrorKind::UnexpectedEof => s.append("unexpected end of input"),
            ErrorKind::UnexpectedByte(b) => {
                s.append("unexpected ");
                s.append(describe_byte(*b).as_str());
            },
            ErrorKind::InvalidLiteral => s.append("invalid literal, expected true/false/null"),
            ErrorKind::InvalidNumber => s.append("invalid number"),
            ErrorKind::NumberOutOfRange => s.append("number out of range for f64"),
            ErrorKind::InvalidEscape(b) => {
                s.append("invalid escape sequence \\");
                s.append(describe_byte(*b).as_str());
            },
            ErrorKind::InvalidUnicodeEscape => s.append("invalid \\u escape"),
            ErrorKind::UnpairedSurrogate => s.append("unpaired UTF-16 surrogate"),
            ErrorKind::ControlCharacter(b) => {
                s.append("unescaped control character ");
                s.append(describe_byte(*b).as_str());
            },
            ErrorKind::ExpectedColon => s.append("expected ':' after object key"),
            ErrorKind::ExpectedCommaOrCloseBrace => s.append("expected ',' or '}' in object"),
            ErrorKind::ExpectedCommaOrCloseBracket => s.append("expected ',' or ']' in array"),
            ErrorKind::ExpectedKey => s.append("expected a quoted object key"),
            ErrorKind::TrailingData => s.append("trailing data after JSON value"),
            ErrorKind::DepthLimitExceeded => s.append("nesting too deep"),
        }
        assert(s@ =~= kind_text(*self));
        s
    }
}

impl ParseError {
    /// The offset and the message of this error.
    pub fn to_string(&self) -> (s: String)
        ensures
            s@ == "at byte "@ + decimal_text(self.offset as nat) + ": "@ + kind_text(self.kind),
    {
        let mut s = String::new();
        s.append("at byte ");
        push_decimal(self.offset as u64, &mut s);
        s.append(": ");
        s.append(self.kind.to_string().as_str());
        assert(s@ =~= "at byte "@ + decimal_text(self.offset as nat) + ": "@ + kind_text(
            self.kind,
        ));
        s
    }
}

/// Parses a complete JSON document.
///
/// Leading and trailing whitespace is allowed; anything else after the value is
/// reported as [`ErrorKind::TrailingData`].
pub fn parse(input: &str) -> (r: Result<Value, ParseError>)
    ensures
        match r {
            Ok(v) => document(input.spec_bytes()) == Ok::<Json, (int, ErrorKind)>(v@),
            Err(e) => document(input.spec_bytes()) == Err::<Json, (int, ErrorKind)>(failure(e)),
        },
{
    let b = input.as_bytes();
    match parse_value(input, skip_space(b, 0), 0) {
        Err(e) => Err(e),
        Ok((v, end)) => {
            let k: usize = skip_space(b, end);
            if k != b.len() {
                Err(ParseError { offset: k, kind: ErrorKind::TrailingData })
            } else {
                Ok(v)
            }
        },
    }
}

} // verus!
