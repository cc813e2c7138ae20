//! Text building blocks.

use vstd::prelude::*;
use vstd::string::*;
use vstd::utf8::*;

use crate::ascii::{NINE, ZERO};

verus! {

/// `String::push`: appends one character to the end of the string.
pub assume_specification[ String::push ](s: &mut String, c: char)
    ensures
        final(s)@ == old(s)@.push(c),
;

/// `char::from_u32`: a character for every Unicode scalar value, nothing for
/// any other number.
pub assume_specification[ char::from_u32 ](code: u32) -> (c: Option<char>)
    ensures
        c is Some <==> is_scalar(code),
        c matches Some(ch) ==> ch as u32 == code,
;

/// Whether bytes are valid UTF-8 up to an offset and no further.
pub open spec fn is_valid_up_to(bytes: Seq<u8>, n: int) -> bool {
    &&& 0 <= n <= bytes.len()
    &&& valid_utf8(bytes.take(n))
    &&& forall|m: int| n < m <= bytes.len() ==> !valid_utf8(#[trigger] bytes.take(m))
}

/// `std::str::from_utf8`: the bytes as text if they are valid UTF-8, else the
/// offset that `Utf8Error::valid_up_to` gives, the largest one up to which
/// they are valid.
#[verifier::external_body]
pub(crate) fn decode(bytes: &[u8]) -> (r: Result<&str, usize>)
    ensures
        match r {
            Ok(s) => s.spec_bytes() == bytes@,
            Err(n) => !valid_utf8(bytes@) && is_valid_up_to(bytes@, n as int),
        },
{
    match std::str::from_utf8(bytes) {
        Ok(s) => Ok(s),
        Err(e) => Err(e.valid_up_to()),
    }
}

/// Encoding a concatenation concatenates the encodings.
pub proof fn lemma_encode_concat(a: Seq<char>, b: Seq<char>)
    ensures
        encode_utf8(a + b) == encode_utf8(a) + encode_utf8(b),
    decreases a.len(),
{
    if a.len() == 0 {
        assert(a + b =~= b);
        assert(encode_utf8(a) + encode_utf8(b) =~= encode_utf8(b));
    } else {
        assert((a + b).drop_first() =~= a.drop_first() + b);
        lemma_encode_concat(a.drop_first(), b);
        assert(encode_utf8(a + b) =~= encode_utf8(a) + encode_utf8(b));
    }
}

/// Only the empty text takes no bytes.
pub proof fn lemma_encode_empty(s: Seq<char>)
    ensures
        encode_utf8(s).len() == 0 <==> s.len() == 0,
{
    if s.len() > 0 {
        assert(encode_scalar(s[0] as u32).len() > 0);
    }
}

/// Texts with the same UTF-8 bytes are the same text.
pub proof fn lemma_encode_injective(a: Seq<char>, b: Seq<char>)
    requires
        encode_utf8(a) == encode_utf8(b),
    ensures
        a == b,
{
    encode_utf8_decode_utf8(a);
    encode_utf8_decode_utf8(b);
}

/// Whether a character is one of ASCII.
pub open spec fn is_ascii(c: char) -> bool {
    c as u32 <= 0x7f
}

proof fn lemma_encode_ascii_char(c: char)
    requires
        is_ascii(c),
    ensures
        encode_scalar(c as u32) == seq![c as u8],
{
    let code = c as u32;
    assert((code & 0x7f) as u8 == code as u8) by (bit_vector)
        requires
            code <= 0x7f,
    ;
    assert(encode_scalar(code) =~= seq![c as u8]);
}

/// ASCII characters are encoded as themselves.
pub proof fn lemma_encode_ascii(s: Seq<char>)
    requires
        forall|i: int| 0 <= i < s.len() ==> is_ascii(#[trigger] s[i]),
    ensures
        encode_utf8(s).len() == s.len(),
        forall|i: int| 0 <= i < s.len() ==> #[trigger] encode_utf8(s)[i] == s[i] as u8,
    decreases s.len(),
{
    if s.len() > 0 {
        let rest = s.drop_first();
        assert forall|i: int| 0 <= i < rest.len() implies is_ascii(#[trigger] rest[i]) by {
            assert(rest[i] == s[i + 1]);
        }
        lemma_encode_ascii(rest);
        lemma_encode_ascii_char(s[0]);
        assert forall|i: int| 0 <= i < s.len() implies #[trigger] encode_utf8(s)[i] == s[i] as u8 by {
            if i > 0 {
                assert(encode_utf8(s)[i] == encode_utf8(rest)[i - 1]);
                assert(rest[i - 1] == s[i]);
            }
        }
    }
}

/// On both sides of an ASCII byte there is a character boundary.
pub proof fn lemma_ascii_boundary(bytes: Seq<u8>, i: int)
    requires
        valid_utf8(bytes),
        0 <= i < bytes.len(),
        bytes[i] <= 0x7f,
    ensures
        is_char_boundary(bytes, i),
        is_char_boundary(bytes, i + 1),
    decreases bytes.len(),
{
    let n = length_of_first_scalar(bytes);
    let rest = pop_first_scalar(bytes);
    if i == 0 {
        reveal_with_fuel(is_char_boundary, 2);
    } else if i >= n {
        assert(rest[i - n] == bytes[i]);
        lemma_ascii_boundary(rest, i - n);
    }
}

/// Whether two runs of bytes are equal.
pub fn same_bytes(a: &[u8], b: &[u8]) -> (same: bool)
    ensures
        same == (a@ == b@),
{
    if a.len() != b.len() {
        return false;
    }
    let mut i: usize = 0;
    while i < a.len()
        invariant
            i <= a.len(),
            a.len() == b.len(),
            forall|j: int| 0 <= j < i ==> a@[j] == b@[j],
        decreases a.len() - i,
    {
        if a[i] != b[i] {
            return false;
        }
        i += 1;
    }
    assert(a@ =~= b@);
    true
}

/// Whether two texts are equal.
pub fn same_text(a: &str, b: &str) -> (same: bool)
    ensures
        same == (a@ == b@),
{
    let same = same_bytes(a.as_bytes(), b.as_bytes());
    proof {
        if same {
            lemma_encode_injective(a@, b@);
        }
    }
    same
}

/// The text between two character boundaries.
pub fn slice_text(s: &str, from: usize, to: usize) -> (r: &str)
    requires
        from <= to <= s.spec_bytes().len(),
        is_char_boundary(s.spec_bytes(), from as int),
        is_char_boundary(s.spec_bytes(), to as int),
    ensures
        r.spec_bytes() == s.spec_bytes().subrange(from as int, to as int),
{
    let head = s.split_at(to).0;
    proof {
        encode_utf8_valid_utf8(s@);
        encode_utf8_valid_utf8(head@);
        let hb = head.spec_bytes();
        let sb = s.spec_bytes();
        if from < to {
            is_char_boundary_iff_not_is_continuation_byte(sb, from as int);
            is_char_boundary_iff_not_is_continuation_byte(hb, from as int);
        } else {
            is_char_boundary_start_end_of_seq(hb);
        }
    }
    let r = head.split_at(from).1;
    assert(r.spec_bytes() =~= s.spec_bytes().subrange(from as int, to as int));
    r
}

/// The character of a decimal digit.
pub open spec fn digit_char(d: nat) -> char {
    (ZERO + d) as u8 as char
}

/// A number written in decimal.
pub open spec fn decimal_text(n: nat) -> Seq<char>
    decreases n,
{
    if n < 10 {
        seq![digit_char(n)]
    } else {
        decimal_text(n / 10).push(digit_char(n % 10))
    }
}

/// A signed number written in decimal.
pub open spec fn signed_text(n: int) -> Seq<char> {
    if n < 0 {
        seq!['-'] + decimal_text((-n) as nat)
    } else {
        decimal_text(n as nat)
    }
}

/// Whether a byte is an ASCII digit.
pub open spec fn is_digit(b: u8) -> bool {
    ZERO <= b <= NINE
}

/// Whether every byte is an ASCII digit.
pub open spec fn all_digits(s: Seq<u8>) -> bool {
    forall|i: int| 0 <= i < s.len() ==> is_digit(#[trigger] s[i])
}

/// The number that a run of digits stands for.
pub open spec fn digits_value(s: Seq<u8>) -> nat
    decreases s.len(),
{
    if s.len() == 0 {
        0
    } else {
        digits_value(s.drop_last()) * 10 + (s.last() - ZERO) as nat
    }
}

/// Appends a number in decimal.
pub fn push_decimal(n: u64, out: &mut String)
    ensures
        final(out)@ == old(out)@ + decimal_text(n as nat),
{
    let ghost start = out@;
    let mut digits: Vec<u8> = Vec::new();
    let mut rest: u64 = n;
    while rest >= 10
        invariant
            forall|j: int| 0 <= j < digits.len() ==> is_digit(#[trigger] digits@[j]),
            decimal_text(n as nat) == decimal_text(rest as nat) + backwards(digits@),
        decreases rest,
    {
        let ghost before = digits@;
        digits.push(ZERO + (rest % 10) as u8);
        proof {
            assert(decimal_text(rest as nat) == decimal_text((rest / 10) as nat).push(
                digit_char((rest % 10) as nat),
            ));
            assert(digits@.drop_last() =~= before);
            assert(decimal_text((rest / 10) as nat) + backwards(digits@) =~= decimal_text(
                rest as nat,
            ) + backwards(before));
        }
        rest = rest / 10;
    }
    out.push((ZERO + rest as u8) as char);
    let mut i: usize = digits.len();
    assert(digits@.take(i as int) =~= digits@);
    assert(out@ =~= start + decimal_text(rest as nat));
    while i > 0
        invariant
            i <= digits.len(),
            forall|j: int| 0 <= j < digits.len() ==> is_digit(#[trigger] digits@[j]),
            start + decimal_text(n as nat) == out@ + backwards(digits@.take(i as int)),
        decreases i,
    {
        i -= 1;
        let ghost before = out@;
        out.push(digits[i] as char);
        proof {
            assert(digits@.take(i + 1).drop_last() =~= digits@.take(i as int));
            assert(out@ + backwards(digits@.take(i as int)) =~= before + backwards(
                digits@.take(i + 1),
            ));
        }
    }
    assert(out@ + backwards(digits@.take(0)) =~= out@);
}

/// A run of digits from the last to the first, as characters.
spec fn backwards(digits: Seq<u8>) -> Seq<char>
    decreases digits.len(),
{
    if digits.len() == 0 {
        Seq::empty()
    } else {
        seq![digits.last() as char] + backwards(digits.drop_last())
    }
}

/// Appends a signed number in decimal.
pub fn push_signed(n: i64, out: &mut String)
    ensures
        final(out)@ == old(out)@ + signed_text(n as int),
{
    let ghost start = out@;
    if n >= 0 {
        push_decimal(n as u64, out);
    } else {
        out.push('-');
        let size: u64 = if n == i64::MIN {
            0x8000_0000_0000_0000
        } else {
            (-n) as u64
        };
        push_decimal(size, out);
        assert(out@ =~= start + signed_text(n as int));
    }
}

} // verus!
