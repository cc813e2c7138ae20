//! What the characters and escapes of a string stand for.

use vstd::prelude::*;
use vstd::utf8::*;

use crate::grammar::{
    after_space, document, escape, hex4, hex_run, prefixed, short_escape, string, string_bytes,
    unicode_escape, value,
};
use crate::json::{byte_text, escaped_char, ErrorKind, Json};
use crate::locality::{lemma_string_moved, moved};
use crate::roundtrip::lemma_beyond_ascii;
use crate::text::{lemma_encode_ascii, lemma_encode_concat};

verus! {

/// A piece of a string literal: a character that stands for itself, a
/// backslash with a letter, four hexadecimal digits, or two times four.
pub enum Piece {
    Plain(char),
    Letter(u8),
    Unit(Seq<u8>),
    Pair(Seq<u8>, Seq<u8>),
}

/// The value of a hexadecimal digit in either case.
pub open spec fn sixteenth(b: u8) -> Option<int> {
    if 48 <= b <= 57 {
        Some(b - 48)
    } else if 65 <= b <= 70 {
        Some(b - 55)
    } else if 97 <= b <= 102 {
        Some(b - 87)
    } else {
        None
    }
}

/// Whether bytes are four hexadecimal digits.
pub open spec fn are_four(h: Seq<u8>) -> bool {
    h.len() == 4 && forall|i: int| 0 <= i < 4 ==> sixteenth(#[trigger] h[i]) is Some
}

/// The number that four hexadecimal digits are.
pub open spec fn unit(h: Seq<u8>) -> int {
    ((sixteenth(h[0])->0 * 16 + sixteenth(h[1])->0) * 16 + sixteenth(h[2])->0) * 16 + sixteenth(
        h[3],
    )->0
}

/// The character behind a backslash that a letter stands for.
pub open spec fn letter_meaning(letter: u8) -> Option<char> {
    match letter {
        34 => Some('"'),
        92 => Some('\\'),
        47 => Some('/'),
        98 => Some('\u{8}'),
        102 => Some('\u{c}'),
        110 => Some('\n'),
        114 => Some('\r'),
        116 => Some('\t'),
        _ => None,
    }
}

impl Piece {
    /// Whether the piece can stand in a literal.
    pub open spec fn wf(self) -> bool {
        match self {
            Piece::Plain(c) => c as u32 >= 32 && c != '"' && c != '\\',
            Piece::Letter(letter) => letter_meaning(letter) is Some,
            Piece::Unit(h) => are_four(h) && !(0xD800 <= unit(h) <= 0xDFFF),
            Piece::Pair(h, l) => are_four(h) && are_four(l) && 0xD800 <= unit(h) <= 0xDBFF
                && 0xDC00 <= unit(l) <= 0xDFFF,
        }
    }

    /// How the piece is spelled.
    pub open spec fn bytes(self) -> Seq<u8> {
        match self {
            Piece::Plain(c) => encode_utf8(seq![c]),
            Piece::Letter(letter) => seq![92u8, letter],
            Piece::Unit(h) => seq![92u8, 117u8] + h,
            Piece::Pair(h, l) => seq![92u8, 117u8] + h + seq![92u8, 117u8] + l,
        }
    }

    /// The character that the piece stands for.
    pub open spec fn meaning(self) -> char {
        match self {
            Piece::Plain(c) => c,
            Piece::Letter(letter) => letter_meaning(letter)->0,
            Piece::Unit(h) => unit(h) as u32 as char,
            Piece::Pair(h, l) => (0x1_0000 + (unit(h) - 0xD800) * 0x400 + (unit(l) - 0xDC00)) as u32
                as char,
        }
    }
}

/// How pieces are spelled one after the other.
pub open spec fn spelled(pieces: Seq<Piece>) -> Seq<u8>
    decreases pieces.len(),
{
    if pieces.len() == 0 {
        Seq::empty()
    } else {
        pieces[0].bytes() + spelled(pieces.drop_first())
    }
}

/// The characters that pieces stand for.
pub open spec fn meant(pieces: Seq<Piece>) -> Seq<char> {
    Seq::new(pieces.len(), |i: int| pieces[i].meaning())
}

/// Whether every piece can stand in a literal.
pub open spec fn all_wf(pieces: Seq<Piece>) -> bool {
    forall|i: int| 0 <= i < pieces.len() ==> (#[trigger] pieces[i]).wf()
}

proof fn lemma_four(b: Seq<u8>, i: int, h: Seq<u8>)
    requires
        are_four(h),
        0 <= i,
        i + 4 <= b.len(),
        b.subrange(i, i + 4) == h,
    ensures
        hex4(b, i) == Ok::<(nat, int), (int, ErrorKind)>((unit(h) as nat, i + 4)),
        0 <= unit(h) <= 0xFFFF,
{
    let s = b.subrange(i, i + 4);
    assert(s[0] == b[i] && s[1] == b[i + 1] && s[2] == b[i + 2] && s[3] == b[i + 3]);
    assert(sixteenth(h[0]) is Some && sixteenth(h[1]) is Some && sixteenth(h[2]) is Some
        && sixteenth(h[3]) is Some);
    reveal_with_fuel(hex_run, 5);
}

/// A byte that stands for itself is taken over.
proof fn lemma_byte_taken_over(x: u8, t: Seq<u8>)
    requires
        x >= 32,
        x != 34,
        x != 92,
    ensures
        string_bytes(seq![x] + t, 0) == prefixed(seq![x], moved(string_bytes(t, 0), 1)),
{
    let b = seq![x] + t;
    lemma_string_moved(seq![x], t, 0);
    assert(b[0] == x);
    assert(string_bytes(b, 0) == prefixed(seq![x], string_bytes(b, 1)));
}

/// Bytes that stand for themselves are taken over.
proof fn lemma_taken_over(w: Seq<u8>, t: Seq<u8>)
    requires
        forall|i: int| 0 <= i < w.len() ==> #[trigger] w[i] >= 32 && w[i] != 34 && w[i] != 92,
    ensures
        string_bytes(w + t, 0) == prefixed(w, moved(string_bytes(t, 0), w.len() as int)),
    decreases w.len(),
{
    let r = string_bytes(t, 0);
    if w.len() == 0 {
        assert(w + t =~= t);
        if let Ok((tail, end)) = r {
            assert(w + tail =~= tail);
        }
        assert(prefixed(w, moved(r, 0)) == r);
    } else {
        let rest = w.drop_first();
        assert forall|i: int| 0 <= i < rest.len() implies #[trigger] rest[i] >= 32 && rest[i] != 34
            && rest[i] != 92 by {
            assert(rest[i] == w[i + 1]);
        }
        lemma_taken_over(rest, t);
        assert(w[0] >= 32 && w[0] != 34 && w[0] != 92);
        lemma_byte_taken_over(w[0], rest + t);
        assert(w + t =~= seq![w[0]] + (rest + t));
        if let Ok((tail, end)) = r {
            assert(seq![w[0]] + (rest + tail) =~= w + tail);
        }
        let inner = prefixed(rest, moved(r, rest.len() as int));
        assert(prefixed(seq![w[0]], moved(inner, 1)) == prefixed(w, moved(r, w.len() as int)));
    }
}

proof fn lemma_letter(letter: u8, t: Seq<u8>)
    requires
        letter_meaning(letter) is Some,
    ensures
        escape(seq![92u8, letter] + t, 0) == Ok::<(char, int), (int, ErrorKind)>(
            (letter_meaning(letter)->0, 2),
        ),
{
    let b = seq![92u8, letter] + t;
    assert(b.len() >= 2 && b[1] == letter);
    assert(short_escape(letter) == letter_meaning(letter));
}

proof fn lemma_unit(h: Seq<u8>, t: Seq<u8>)
    requires
        are_four(h),
        !(0xD800 <= unit(h) <= 0xDFFF),
    ensures
        escape(seq![92u8, 117u8] + h + t, 0) == Ok::<(char, int), (int, ErrorKind)>(
            (unit(h) as u32 as char, 6),
        ),
{
    let b = seq![92u8, 117u8] + h + t;
    assert(b.len() >= 6 && b[1] == 117);
    assert(b.subrange(2, 6) =~= h);
    lemma_four(b, 2, h);
    assert(escape(b, 0) == unicode_escape(b, 0));
}

proof fn lemma_pair(h: Seq<u8>, l: Seq<u8>, t: Seq<u8>)
    requires
        are_four(h),
        are_four(l),
        0xD800 <= unit(h) <= 0xDBFF,
        0xDC00 <= unit(l) <= 0xDFFF,
    ensures
        escape(seq![92u8, 117u8] + h + seq![92u8, 117u8] + l + t, 0) == Ok::<
            (char, int),
            (int, ErrorKind),
        >((Piece::Pair(h, l).meaning(), 12)),
{
    let b = seq![92u8, 117u8] + h + seq![92u8, 117u8] + l + t;
    assert(b.len() >= 12 && b[1] == 117);
    assert(b.subrange(2, 6) =~= h);
    lemma_four(b, 2, h);
    assert(b[6] == 92 && b[7] == 117);
    assert(b.subrange(8, 12) =~= l);
    lemma_four(b, 8, l);
    assert(escape(b, 0) == unicode_escape(b, 0));
}

proof fn lemma_escape(p: Piece, t: Seq<u8>)
    requires
        p.wf(),
        !(p is Plain),
    ensures
        escape(p.bytes() + t, 0) == Ok::<(char, int), (int, ErrorKind)>(
            (p.meaning(), p.bytes().len() as int),
        ),
{
    match p {
        Piece::Plain(c) => {},
        Piece::Letter(letter) => lemma_letter(letter, t),
        Piece::Unit(h) => lemma_unit(h, t),
        Piece::Pair(h, l) => lemma_pair(h, l, t),
    }
}

/// A piece is read as its character.
#[verifier::rlimit(40)]
proof fn lemma_piece(p: Piece, t: Seq<u8>)
    requires
        p.wf(),
    ensures
        string_bytes(p.bytes() + t, 0) == prefixed(
            encode_utf8(seq![p.meaning()]),
            moved(string_bytes(t, 0), p.bytes().len() as int),
        ),
{
    let w = p.bytes();
    match p {
        Piece::Plain(c) => {
            let s = seq![c];
            if c as u32 <= 0x7f {
                lemma_encode_ascii(s);
                assert(w[0] == s[0] as u8);
                assert(w[0] >= 32 && w[0] != 34 && w[0] != 92);
            } else {
                lemma_beyond_ascii(c);
                assert forall|i: int| 0 <= i < w.len() implies #[trigger] w[i] >= 32 && w[i] != 34
                    && w[i] != 92 by {
                    assert(w[i] >= 0x80);
                }
            }
            lemma_taken_over(w, t);
        },
        _ => {
            lemma_escape(p, t);
            lemma_string_moved(w, t, 0);
            assert((w + t)[0] == 92);
        },
    }
}

proof fn lemma_prefixed_twice(
    a: Seq<u8>,
    b: Seq<u8>,
    r: Result<(Seq<u8>, int), (int, ErrorKind)>,
    m: int,
    n: int,
)
    ensures
        prefixed(a, moved(prefixed(b, moved(r, n)), m)) == prefixed(a + b, moved(r, m + n)),
{
    if let Ok((tail, end)) = r {
        assert(a + (b + tail) =~= a + b + tail);
    }
}

/// Pieces are read as their characters, whatever comes behind them.
#[verifier::spinoff_prover]
proof fn lemma_pieces(pieces: Seq<Piece>, t: Seq<u8>)
    requires
        all_wf(pieces),
    ensures
        string_bytes(spelled(pieces) + t, 0) == prefixed(
            encode_utf8(meant(pieces)),
            moved(string_bytes(t, 0), spelled(pieces).len() as int),
        ),
    decreases pieces.len(),
{
    let w = spelled(pieces);
    if pieces.len() == 0 {
        assert(w + t =~= t);
        assert(meant(pieces) =~= Seq::<char>::empty());
        assert(encode_utf8(meant(pieces)) =~= Seq::<u8>::empty());
        if let Ok((tail, end)) = string_bytes(t, 0) {
            assert(Seq::<u8>::empty() + tail =~= tail);
        }
    } else {
        let rest = pieces.drop_first();
        assert forall|i: int| 0 <= i < rest.len() implies (#[trigger] rest[i]).wf() by {
            assert(rest[i] == pieces[i + 1]);
        }
        assert(pieces[0].wf());
        lemma_pieces(rest, t);
        let first = pieces[0].bytes();
        assert(w + t =~= first + (spelled(rest) + t));
        lemma_piece(pieces[0], spelled(rest) + t);
        let head = seq![pieces[0].meaning()];
        assert(meant(pieces) =~= head + meant(rest));
        lemma_encode_concat(head, meant(rest));
        lemma_prefixed_twice(
            encode_utf8(head),
            encode_utf8(meant(rest)),
            string_bytes(t, 0),
            first.len() as int,
            spelled(rest).len() as int,
        );
    }
}

/// What stands behind an opening quote and some pieces decides.
proof fn lemma_literal(pieces: Seq<Piece>, t: Seq<u8>)
    requires
        all_wf(pieces),
    ensures
        ({
            let b = seq![34u8] + spelled(pieces) + t;
            &&& after_space(b, 0) == 0
            &&& b[0] == 34
            &&& string_bytes(b, 1) == moved(
                prefixed(
                    encode_utf8(meant(pieces)),
                    moved(string_bytes(t, 0), spelled(pieces).len() as int),
                ),
                1,
            )
        }),
{
    let b = seq![34u8] + spelled(pieces) + t;
    lemma_pieces(pieces, t);
    assert(b =~= seq![34u8] + (spelled(pieces) + t));
    lemma_string_moved(seq![34u8], spelled(pieces) + t, 0);
}

pub proof fn lemma_quoted(pieces: Seq<Piece>)
    requires
        all_wf(pieces),
    ensures
        ({
            let b = seq![34u8] + spelled(pieces) + seq![34u8];
            &&& string(b, 0) == Ok::<(Seq<char>, int), (int, ErrorKind)>(
                (meant(pieces), b.len() as int),
            )
            &&& string_bytes(b, 1) is Ok
            &&& b[0] == 34
            &&& after_space(b, 0) == 0
        }),
{
    let t = seq![34u8];
    lemma_literal(pieces, t);
    assert(string_bytes(t, 0) == Ok::<(Seq<u8>, int), (int, ErrorKind)>((Seq::empty(), 1)));
    assert(encode_utf8(meant(pieces)) + Seq::<u8>::empty() =~= encode_utf8(meant(pieces)));
    encode_utf8_decode_utf8(meant(pieces));
}

/// A string literal is read as the characters that its pieces stand for:
/// characters for themselves, letters behind a backslash for theirs, four
/// hexadecimal digits for the character of that number, and a surrogate pair
/// for the character that the two make up.
pub proof fn string_literals_are_read_as_their_pieces(pieces: Seq<Piece>)
    requires
        all_wf(pieces),
    ensures
        document(seq![34u8] + spelled(pieces) + seq![34u8]) == Ok::<Json, (int, ErrorKind)>(
            Json::Str(meant(pieces)),
        ),
{
    let b = seq![34u8] + spelled(pieces) + seq![34u8];
    lemma_quoted(pieces);
    assert(after_space(b, b.len() as int) == b.len());
}

/// A control character in a string is refused where it stands.
pub proof fn control_characters_in_strings_are_refused(
    pieces: Seq<Piece>,
    control: u8,
    rest: Seq<u8>,
)
    requires
        all_wf(pieces),
        control < 32,
    ensures
        document(seq![34u8] + spelled(pieces) + (seq![control] + rest)) == Err::<
            Json,
            (int, ErrorKind),
        >((1 + spelled(pieces).len() as int, ErrorKind::ControlCharacter(control))),
{
    let t = seq![control] + rest;
    lemma_literal(pieces, t);
    assert(t[0] == control);
}

/// A letter behind a backslash that stands for nothing is refused, at the
/// backslash.
pub proof fn unknown_escapes_are_refused(pieces: Seq<Piece>, letter: u8, rest: Seq<u8>)
    requires
        all_wf(pieces),
        letter_meaning(letter) is None,
        letter != 117,
    ensures
        document(seq![34u8] + spelled(pieces) + (seq![92u8, letter] + rest)) == Err::<
            Json,
            (int, ErrorKind),
        >((1 + spelled(pieces).len() as int, ErrorKind::InvalidEscape(letter))),
{
    let t = seq![92u8, letter] + rest;
    lemma_literal(pieces, t);
    assert(t[0] == 92 && t[1] == letter);
}

/// Half a surrogate pair is refused, at its backslash: the second half on its
/// own, and the first half with no escape behind it or one that is no second
/// half.
pub proof fn unpaired_surrogates_are_refused(pieces: Seq<Piece>, h: Seq<u8>, rest: Seq<u8>)
    requires
        all_wf(pieces),
        are_four(h),
        0xD800 <= unit(h) <= 0xDFFF,
        unit(h) <= 0xDBFF && rest.len() >= 2 && rest[0] == 92 && rest[1] == 117 ==> rest.len() >= 6
            && are_four(rest.subrange(2, 6)) && !(0xDC00 <= unit(rest.subrange(2, 6)) <= 0xDFFF),
    ensures
        document(seq![34u8] + spelled(pieces) + (seq![92u8, 117u8] + h + rest)) == Err::<
            Json,
            (int, ErrorKind),
        >((1 + spelled(pieces).len() as int, ErrorKind::UnpairedSurrogate)),
{
    let t = seq![92u8, 117u8] + h + rest;
    lemma_literal(pieces, t);
    assert(t[0] == 92 && t[1] == 117);
    assert(t.subrange(2, 6) =~= h);
    lemma_four(t, 2, h);
    if unit(h) <= 0xDBFF && rest.len() >= 2 && rest[0] == 92 && rest[1] == 117 {
        let l = rest.subrange(2, 6);
        assert(t[6] == 92 && t[7] == 117);
        assert(t.subrange(8, 12) =~= l);
        lemma_four(t, 8, l);
    } else if unit(h) <= 0xDBFF {
        if rest.len() >= 1 {
            assert(t[6] == rest[0]);
        }
        if rest.len() >= 2 {
            assert(t[7] == rest[1]);
        }
    }
}

/// A string that is not closed is refused at the end.
pub proof fn open_strings_are_refused(pieces: Seq<Piece>)
    requires
        all_wf(pieces),
    ensures
        document(seq![34u8] + spelled(pieces)) == Err::<Json, (int, ErrorKind)>(
            (1 + spelled(pieces).len() as int, ErrorKind::UnexpectedEof),
        ),
{
    lemma_literal(pieces, Seq::empty());
    assert(seq![34u8] + spelled(pieces) + Seq::<u8>::empty() =~= seq![34u8] + spelled(pieces));
}

/// How many bytes a character takes where it stands for itself.
proof fn lemma_plain_size(c: char)
    ensures
        1 <= encode_utf8(seq![c]).len() <= 4,
        c as u32 <= 0x7F ==> encode_utf8(seq![c]).len() == 1,
        c as u32 <= 0xFFFF ==> encode_utf8(seq![c]).len() <= 3,
{
    let s = seq![c];
    assert(s.drop_first() =~= Seq::<char>::empty());
    assert(encode_utf8(s.drop_first()) =~= Seq::<u8>::empty());
    assert(encode_utf8(s) =~= encode_scalar(c as u32));
}

/// No way to spell a character in a literal is shorter than the one in which
/// it is written.
pub proof fn characters_are_written_in_the_shortest_way(p: Piece)
    requires
        p.wf(),
    ensures
        encode_utf8(escaped_char(p.meaning())).len() <= p.bytes().len(),
{
    let c = p.meaning();
    let e = escaped_char(c);
    lemma_plain_size(c);
    match p {
        Piece::Plain(c) => {
            assert(e == seq![c]);
        },
        Piece::Letter(letter) => {
            lemma_escaped_ascii(c);
        },
        Piece::Unit(h) => {
            assert(are_four(h));
            lemma_escaped_ascii(c);
        },
        Piece::Pair(h, l) => {
            assert(c as u32 >= 0x1_0000);
            assert(e == seq![c]);
        },
    }
}

proof fn lemma_escaped_ascii(c: char)
    ensures
        escaped_char(c) == seq![c] || encode_utf8(escaped_char(c)).len() == escaped_char(c).len(),
        escaped_char(c).len() <= 6,
        letter_meaning(34) == Some(c) || letter_meaning(92) == Some(c) || letter_meaning(98) == Some(
            c,
        ) || letter_meaning(102) == Some(c) || letter_meaning(110) == Some(c) || letter_meaning(114)
            == Some(c) || letter_meaning(116) == Some(c) ==> escaped_char(c).len() == 2,
        c == '/' ==> escaped_char(c).len() == 1,
{
    let e = escaped_char(c);
    if e != seq![c] {
        assert forall|i: int| 0 <= i < e.len() implies crate::text::is_ascii(#[trigger] e[i]) by {}
        lemma_encode_ascii(e);
    }
}

/// A byte in an error message is named by itself in quotes, if it is visible,
/// and else by the two hexadecimal digits of its number.
pub proof fn messages_name_the_byte(b: u8)
    ensures
        33 <= b <= 126 ==> byte_text(b).len() == 3 && byte_text(b)[1] == b as char,
        !(33 <= b <= 126) ==> {
            let text = byte_text(b);
            &&& text.len() == 9
            &&& sixteenth(text[7] as u8) matches Some(high)
            &&& sixteenth(text[8] as u8) matches Some(low)
            &&& high * 16 + low == b
        },
{
    reveal_strlit("byte 0x");
}

} // verus!
