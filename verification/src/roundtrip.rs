//! Writing a JSON value and parsing the text gives the value back.

use vstd::arithmetic::power::*;
use vstd::prelude::*;
use vstd::utf8::*;

use crate::ascii::{
    BACKSLASH, CLOSE_BRACE, CLOSE_BRACKET, COLON, COMMA, DOT, LOWER_E, MINUS, QUOTE, SPACE, UPPER_E,
    ZERO,
};
use crate::binary64::{
    finite, lemma_nearest, lemma_one_positive, lemma_parts, lemma_rounds_scaled,
    lemma_units_increase, magnitude, negative, one, parts, rounds_to, signed, units, FRACTION,
    INFINITE,
};
use crate::decimal::{decimal_den, decimal_magnitude, decimal_num, lemma_ten, ten};
use crate::grammar::{
    after_digits, after_space, at, document, escape, hex4, hex_digit, hex_run, items,
    lemma_name_end, lemma_value_end, literal, members, name, number, number_value, prefixed, string,
    string_bytes, value,
};
use crate::integer::number_i64;
use crate::json::{
    escaped, escaped_char, fields_text, hex_char, items_text, json_text, quoted, ErrorKind, Json,
    MAX_DEPTH,
};
use crate::notation::{float_text, large, magnitude_text, shortest_pair, small_whole, zeros};
use crate::shortest::{lemma_shortest_exists, shortest, stands_for};
use crate::text::{
    all_digits, decimal_text, digits_value, is_ascii, is_digit, lemma_encode_ascii,
    lemma_encode_concat, signed_text,
};

verus! {

/// Whether the bytes `w` stand at an offset.
pub open spec fn stands(b: Seq<u8>, i: int, w: Seq<u8>) -> bool {
    &&& 0 <= i
    &&& i + w.len() <= b.len()
    &&& forall|j: int| 0 <= j < w.len() ==> b[i + j] == #[trigger] w[j]
}

/// Whether no number goes on at an offset.
spec fn number_ends(b: Seq<u8>, i: int) -> bool {
    i < b.len() ==> !is_digit(b[i]) && b[i] != DOT && b[i] != LOWER_E && b[i] != UPPER_E
}

proof fn lemma_stands_concat(b: Seq<u8>, i: int, x: Seq<u8>, y: Seq<u8>)
    ensures
        stands(b, i, x + y) <==> stands(b, i, x) && stands(b, i + x.len(), y),
{
    if stands(b, i, x + y) {
        assert forall|j: int| 0 <= j < x.len() implies b[i + j] == #[trigger] x[j] by {
            assert((x + y)[j] == x[j]);
        }
        assert forall|j: int| 0 <= j < y.len() implies b[i + x.len() + j] == #[trigger] y[j] by {
            assert((x + y)[x.len() + j] == y[j]);
        }
    }
    if stands(b, i, x) && stands(b, i + x.len(), y) {
        assert forall|j: int| 0 <= j < (x + y).len() implies b[i + j] == #[trigger] (x + y)[j] by {
            if j < x.len() {
                assert(b[i + j] == x[j]);
            } else {
                assert(b[i + x.len() + (j - x.len())] == y[j - x.len()]);
            }
        }
    }
}

/// The bytes of a text stand at an offset.
pub open spec fn text_at(b: Seq<u8>, i: int, s: Seq<char>) -> bool {
    stands(b, i, encode_utf8(s))
}

/// How many bytes a text takes.
pub open spec fn size(s: Seq<char>) -> int {
    encode_utf8(s).len() as int
}

pub proof fn lemma_text_concat(b: Seq<u8>, i: int, x: Seq<char>, y: Seq<char>)
    ensures
        text_at(b, i, x + y) <==> text_at(b, i, x) && text_at(b, i + size(x), y),
        size(x + y) == size(x) + size(y),
{
    lemma_encode_concat(x, y);
    lemma_stands_concat(b, i, encode_utf8(x), encode_utf8(y));
}

pub proof fn lemma_text_char(b: Seq<u8>, i: int, c: char)
    requires
        is_ascii(c),
    ensures
        size(seq![c]) == 1,
        text_at(b, i, seq![c]) ==> 0 <= i < b.len() && b[i] == c as u8,
{
    lemma_encode_ascii(seq![c]);
    assert(encode_utf8(seq![c])[0] == c as u8);
}

/// A text of digits.
spec fn digit_text(s: Seq<char>) -> bool {
    forall|i: int| 0 <= i < s.len() ==> '0' <= #[trigger] s[i] <= '9'
}

/// The digits of a text, as bytes.
spec fn digits_of(s: Seq<char>) -> Seq<u8> {
    Seq::new(s.len(), |i: int| s[i] as u8)
}

proof fn lemma_digit_text(s: Seq<char>)
    requires
        digit_text(s),
    ensures
        encode_utf8(s) == digits_of(s),
        all_digits(digits_of(s)),
        size(s) == s.len(),
{
    assert forall|i: int| 0 <= i < s.len() implies is_ascii(#[trigger] s[i]) by {
        assert('0' <= s[i] <= '9');
    }
    lemma_encode_ascii(s);
    assert(encode_utf8(s) =~= digits_of(s));
    assert forall|i: int| 0 <= i < s.len() implies is_digit(#[trigger] digits_of(s)[i]) by {
        assert('0' <= s[i] <= '9');
    }
}

proof fn lemma_decimal(n: nat)
    ensures
        digit_text(decimal_text(n)),
        decimal_text(n).len() > 0,
        digits_value(digits_of(decimal_text(n))) == n,
        n > 0 ==> decimal_text(n)[0] != '0',
    decreases n,
{
    let s = decimal_text(n);
    let w = digits_of(s);
    if n >= 10 {
        lemma_decimal(n / 10);
        assert(w.drop_last() =~= digits_of(decimal_text(n / 10)));
    } else {
        assert(w.drop_last() =~= Seq::<u8>::empty());
        assert(digits_value(w.drop_last()) == 0);
    }
}

/// The digits at an offset end where a run of digits does.
pub proof fn lemma_digit_run(b: Seq<u8>, i: int, w: Seq<u8>)
    requires
        stands(b, i, w),
        all_digits(w),
        i + w.len() < b.len() ==> !is_digit(b[i + w.len()]),
    ensures
        after_digits(b, i) == i + w.len(),
    decreases w.len(),
{
    if w.len() > 0 {
        let rest = w.drop_first();
        assert(b[i + 0] == w[0]);
        assert(is_digit(w[0]));
        assert forall|j: int| 0 <= j < rest.len() implies b[i + 1 + j] == #[trigger] rest[j] by {
            assert(b[i + (j + 1)] == w[j + 1]);
        }
        assert forall|j: int| 0 <= j < rest.len() implies is_digit(#[trigger] rest[j]) by {
            assert(is_digit(w[j + 1]));
        }
        lemma_digit_run(b, i + 1, rest);
    }
}

pub proof fn lemma_subrange(b: Seq<u8>, i: int, w: Seq<u8>)
    requires
        stands(b, i, w),
    ensures
        b.subrange(i, i + w.len()) == w,
{
    assert forall|j: int| 0 <= j < w.len() implies b.subrange(i, i + w.len())[j] == w[j] by {
        assert(b[i + j] == w[j]);
    }
    assert(b.subrange(i, i + w.len()) =~= w);
}

/// The text of a sign.
spec fn sign_text(minus: bool) -> Seq<char> {
    if minus {
        seq!['-']
    } else {
        Seq::empty()
    }
}

/// Reads a number without a fraction.
proof fn lemma_read_integral(b: Seq<u8>, i: int, minus: bool, whole: Seq<char>)
    requires
        text_at(b, i, sign_text(minus) + whole),
        digit_text(whole),
        whole.len() > 0,
        whole.len() > 1 ==> whole[0] != '0',
        number_ends(b, i + size(sign_text(minus) + whole)),
    ensures
        forall|depth: nat| #[trigger] value(b, i, depth) == number(b, i),
        ({
            let end = i + size(sign_text(minus) + whole);
            let w = digits_of(whole);
            match number_value(minus, w, Seq::empty(), false, Seq::empty(), true) {
                Some(v) => number(b, i) == Ok::<(Json, int), (int, ErrorKind)>((v, end)),
                None => true,
            }
        }),
{
    let w = digits_of(whole);
    lemma_digit_text(whole);
    lemma_text_concat(b, i, sign_text(minus), whole);
    lemma_text_char(b, i, '-');
    let s = i + size(sign_text(minus));
    assert(encode_utf8(Seq::<char>::empty()) =~= Seq::empty());
    assert(b[s + 0] == w[0]);
    assert(is_digit(w[0]));
    lemma_digit_run(b, s, w);
    lemma_subrange(b, s, w);
    if w[0] == ZERO && w.len() > 1 {
        assert(whole[0] == '0');
    }
    let end = s + w.len();
    assert(b.subrange(end, end) =~= Seq::empty());
    assert(!at(b, end, DOT));
    if minus {
        assert(at(b, i, MINUS));
    } else {
        assert(!at(b, i, MINUS));
    }
}

/// Reads a number with a fraction.
proof fn lemma_read_fraction(b: Seq<u8>, i: int, minus: bool, whole: Seq<char>, part: Seq<char>)
    requires
        text_at(b, i, sign_text(minus) + (whole + seq!['.'] + part)),
        digit_text(whole),
        digit_text(part),
        whole.len() > 0,
        part.len() > 0,
        whole.len() > 1 ==> whole[0] != '0',
        number_ends(b, i + size(sign_text(minus) + (whole + seq!['.'] + part))),
    ensures
        forall|depth: nat| #[trigger] value(b, i, depth) == number(b, i),
        ({
            let end = i + size(sign_text(minus) + (whole + seq!['.'] + part));
            match number_value(
                minus,
                digits_of(whole),
                digits_of(part),
                false,
                Seq::empty(),
                false,
            ) {
                Some(v) => number(b, i) == Ok::<(Json, int), (int, ErrorKind)>((v, end)),
                None => true,
            }
        }),
{
    let w = digits_of(whole);
    let f = digits_of(part);
    lemma_digit_text(whole);
    lemma_digit_text(part);
    lemma_text_concat(b, i, sign_text(minus), whole + seq!['.'] + part);
    let s = i + size(sign_text(minus));
    lemma_text_concat(b, s, whole + seq!['.'], part);
    lemma_text_concat(b, s, whole, seq!['.']);
    lemma_text_char(b, i, '-');
    lemma_text_char(b, s + w.len(), '.');
    assert(encode_utf8(Seq::<char>::empty()) =~= Seq::empty());
    assert(b[s + 0] == w[0]);
    assert(is_digit(w[0]));
    lemma_digit_run(b, s, w);
    lemma_subrange(b, s, w);
    let p = s + w.len() + 1;
    lemma_digit_run(b, p, f);
    lemma_subrange(b, p, f);
    if w[0] == ZERO && w.len() > 1 {
        assert(whole[0] == '0');
    }
    let end = p + f.len();
    assert(b.subrange(end, end) =~= Seq::empty());
    if minus {
        assert(at(b, i, MINUS));
    } else {
        assert(!at(b, i, MINUS));
    }
}

/// Zeros before a run of digits change nothing.
proof fn lemma_leading_zeros(z: Seq<u8>, w: Seq<u8>)
    requires
        forall|i: int| 0 <= i < z.len() ==> #[trigger] z[i] == ZERO,
    ensures
        digits_value(z + w) == digits_value(w),
    decreases z.len() + w.len(),
{
    let s = z + w;
    if w.len() > 0 {
        assert(s.drop_last() =~= z + w.drop_last());
        lemma_leading_zeros(z, w.drop_last());
    } else if z.len() > 0 {
        assert(s.drop_last() =~= z.drop_last() + w);
        assert(z[z.len() - 1] == ZERO);
        lemma_leading_zeros(z.drop_last(), w);
    } else {
        assert(s =~= w);
    }
}

/// Zeros behind a run of digits multiply by ten.
proof fn lemma_trailing_zeros(w: Seq<u8>, count: nat)
    ensures
        digits_value(w + digits_of(zeros(count))) == digits_value(w) * ten(count as int),
    decreases count,
{
    let s = w + digits_of(zeros(count));
    if count == 0 {
        assert(s =~= w);
        lemma_pow0(10);
        vstd::arithmetic::mul::lemma_mul_basics(digits_value(w) as int);
    } else {
        let less = (count - 1) as nat;
        assert(s.drop_last() =~= w + digits_of(zeros(less)));
        lemma_trailing_zeros(w, less);
        lemma_ten(less as int);
        let a = digits_value(w) as int;
        let t = ten(less as int) as int;
        assert((a * t) * 10 == a * (10 * t)) by (nonlinear_arith);
    }
}

/// The whole number that a float beyond the small ones is written as, if it is
/// written without a point.
pub open spec fn written_whole(bits: u64) -> Option<int> {
    let m = magnitude(bits);
    let (n, p) = shortest_pair(m);
    if small_whole(m) || p < 0 {
        None
    } else if negative(bits) {
        Some(-(n * ten(p)))
    } else {
        Some((n * ten(p)) as int)
    }
}

/// Whether a float is read back as itself: it is finite, and is not written as
/// a whole number that is read as an integer.
pub open spec fn float_reads_back(bits: u64) -> bool {
    &&& finite(bits)
    &&& match written_whole(bits) {
        Some(n) => !(i64::MIN <= n <= i64::MAX),
        None => true,
    }
}

proof fn lemma_sign(bits: u64)
    requires
        finite(bits),
    ensures
        float_text(bits) == sign_text(negative(bits)) + magnitude_text(magnitude(bits)),
        signed(negative(bits), magnitude(bits)) == bits,
{
}

/// Whether a value is read at an offset, whatever it stands in.
spec fn reads(b: Seq<u8>, i: int, v: Json, end: int) -> bool {
    forall|depth: nat| #[trigger]
        value(b, i, depth) == Ok::<(Json, int), (int, ErrorKind)>((v, end))
}

/// Reads a float that is written with a point.
proof fn lemma_read_pointed(
    b: Seq<u8>,
    i: int,
    bits: u64,
    whole: Seq<char>,
    part: Seq<char>,
    n: nat,
)
    requires
        finite(bits),
        magnitude_text(magnitude(bits)) == whole + seq!['.'] + part,
        text_at(b, i, float_text(bits)),
        number_ends(b, i + size(float_text(bits))),
        digit_text(whole),
        digit_text(part),
        whole.len() > 0,
        part.len() > 0,
        whole.len() > 1 ==> whole[0] != '0',
        digits_value(digits_of(whole) + digits_of(part)) == n,
        decimal_magnitude(n, -(part.len() as int)) == magnitude(bits),
    ensures
        reads(b, i, Json::Float(bits), i + size(float_text(bits))),
{
    reveal(number_value);
    lemma_sign(bits);
    assert(digits_value(Seq::<u8>::empty()) == 0);
    lemma_read_fraction(b, i, negative(bits), whole, part);
}

proof fn lemma_read_small(b: Seq<u8>, i: int, bits: u64)
    requires
        finite(bits),
        small_whole(magnitude(bits)),
        text_at(b, i, float_text(bits)),
        number_ends(b, i + size(float_text(bits))),
    ensures
        reads(b, i, Json::Float(bits), i + size(float_text(bits))),
{
    let m = magnitude(bits);
    let n = units(m) / one();
    let whole = decimal_text(n);
    let part = seq!['0'];
    lemma_decimal(n);
    assert(magnitude_text(m) =~= whole + seq!['.'] + part);
    if n == 0 {
        assert(decimal_text(0).len() == 1);
    }
    let w = digits_of(whole);
    assert((w + digits_of(part)).drop_last() =~= w);
    lemma_small_whole(m);
    lemma_read_pointed(b, i, bits, whole, part, n * 10);
}

/// Reads a float that is written as a whole number.
proof fn lemma_read_large(b: Seq<u8>, i: int, bits: u64, n: nat, p: int)
    requires
        finite(bits),
        magnitude_text(magnitude(bits)) == decimal_text(n) + zeros(p as nat),
        text_at(b, i, float_text(bits)),
        number_ends(b, i + size(float_text(bits))),
        p >= 0,
        n > 0,
        decimal_magnitude(n, p) == magnitude(bits),
        ({
            let k = if negative(bits) {
                -(n * ten(p))
            } else {
                (n * ten(p)) as int
            };
            !(i64::MIN <= k <= i64::MAX)
        }),
    ensures
        reads(b, i, Json::Float(bits), i + size(float_text(bits))),
{
    let digits = decimal_text(n);
    let whole = digits + zeros(p as nat);
    reveal(number_value);
    lemma_sign(bits);
    lemma_decimal(n);
    lemma_pow0(10);
    lemma_ten(p);
    assert(digits_value(Seq::<u8>::empty()) == 0);
    assert(digits_of(whole) =~= digits_of(digits) + digits_of(zeros(p as nat)));
    lemma_trailing_zeros(digits_of(digits), p as nat);
    let w = digits_of(whole);
    assert(w + Seq::<u8>::empty() =~= w);
    vstd::arithmetic::mul::lemma_mul_basics(digits_value(w) as int);
    assert(decimal_magnitude(digits_value(w), 0) == magnitude(bits)) by {
        assert(ten(0) == 1);
        assert(ten(-p) == 1);
    }
    lemma_read_integral(b, i, negative(bits), whole);
}

proof fn lemma_digit_parts(s: Seq<char>, at: int)
    requires
        digit_text(s),
        0 <= at <= s.len(),
    ensures
        digit_text(s.take(at)),
        digit_text(s.skip(at)),
        digits_of(s.take(at)) + digits_of(s.skip(at)) == digits_of(s),
{
    assert forall|j: int| 0 <= j < s.take(at).len() implies '0' <= #[trigger] s.take(at)[j]
        <= '9' by {
        assert('0' <= s[j] <= '9');
    }
    assert forall|j: int| 0 <= j < s.skip(at).len() implies '0' <= #[trigger] s.skip(at)[j]
        <= '9' by {
        assert('0' <= s[at + j] <= '9');
    }
    assert(digits_of(s.take(at)) + digits_of(s.skip(at)) =~= digits_of(s));
}

/// Reads a float.
proof fn lemma_read_float(b: Seq<u8>, i: int, bits: u64)
    requires
        float_reads_back(bits),
        text_at(b, i, float_text(bits)),
        number_ends(b, i + size(float_text(bits))),
    ensures
        reads(b, i, Json::Float(bits), i + size(float_text(bits))),
{
    let m = magnitude(bits);
    if small_whole(m) {
        lemma_read_small(b, i, bits);
    } else {
        if m == 0 {
            lemma_zero_small();
        }
        let found = lemma_shortest_exists(m);
        assert(shortest(m, found.0, found.1));
        let (n, p) = shortest_pair(m);
        assert(shortest(m, n, p));
        lemma_ten(p);
        lemma_ten(-p);
        if n == 0 {
            lemma_not_zero(m, p);
        }
        lemma_nearest(decimal_num(n, p), decimal_den(p), m);
        let digits = decimal_text(n);
        lemma_decimal(n);
        if p >= 0 {
            lemma_read_large(b, i, bits, n, p);
        } else {
            let places = (-p) as nat;
            if digits.len() > places {
                let at = digits.len() - places;
                lemma_digit_parts(digits, at);
                lemma_read_pointed(b, i, bits, digits.take(at), digits.skip(at), n);
            } else {
                let whole = seq!['0'];
                let z = zeros((places - digits.len()) as nat);
                let part = z + digits;
                assert(magnitude_text(m) =~= whole + seq!['.'] + part);
                assert(digits_of(whole) + digits_of(part) =~= digits_of(whole + z) + digits_of(
                    digits,
                ));
                lemma_leading_zeros(digits_of(whole + z), digits_of(digits));
                assert(digit_text(part)) by {
                    assert forall|j: int| 0 <= j < part.len() implies '0' <= #[trigger] part[j]
                        <= '9' by {
                        if j >= z.len() {
                            assert('0' <= digits[j - z.len()] <= '9');
                        }
                    }
                }
                lemma_read_pointed(b, i, bits, whole, part, n);
            }
        }
    }
}

proof fn lemma_zero_small()
    ensures
        small_whole(0),
{
    lemma_one_positive();
    vstd::arithmetic::div_mod::lemma_fundamental_div_mod_converse(0, one() as int, 0, 0);
}

/// Zero is not read as anything else.
proof fn lemma_not_zero(m: nat, p: int)
    requires
        m > 0,
    ensures
        !stands_for(0, p, m),
{
    reveal(rounds_to);
    lemma_ten(-p);
    lemma_units_increase((m - 1) as nat, m);
    let u = units((m - 1) as nat) + units(m);
    let d = ten(-p);
    assert(u * d > 0) by (nonlinear_arith)
        requires
            u > 0,
            d > 0,
    ;
    vstd::arithmetic::mul::lemma_mul_basics(ten(p) as int);
    vstd::arithmetic::mul::lemma_mul_basics(one() as int);
}

/// A small whole number with one decimal is read as itself.
proof fn lemma_small_whole(m: nat)
    requires
        small_whole(m),
        m < INFINITE,
    ensures
        decimal_magnitude((units(m) / one()) * 10, -1) == m,
{
    reveal(rounds_to);
    let n = units(m) / one();
    lemma_one_positive();
    vstd::arithmetic::div_mod::lemma_fundamental_div_mod(units(m) as int, one() as int);
    vstd::arithmetic::mul::lemma_mul_is_commutative(n as int, one() as int);
    assert(units(m) == n * one());
    if m > 0 {
        lemma_units_increase((m - 1) as nat, m);
    }
    lemma_units_increase(m, m + 1);
    assert(2 * n * one() == 2 * (n * one())) by (nonlinear_arith);
    assert(forall|x: nat| #[trigger] (x * 1) == x);
    assert(rounds_to(n, 1, m));
    lemma_rounds_scaled(n, 1, 10, m);
    lemma_ten(0);
    lemma_pow0(10);
    assert(ten(1) == 10);
    assert(ten(-1) == 1);
    assert(decimal_num(n * 10, -1) == n * 10);
    lemma_nearest(n * 10, 10, m);
}

/// Reads an integer.
proof fn lemma_read_int(b: Seq<u8>, i: int, n: i64)
    requires
        text_at(b, i, signed_text(n as int)),
        number_ends(b, i + size(signed_text(n as int))),
    ensures
        reads(b, i, Json::Int(n), i + size(signed_text(n as int))),
{
    let minus = n < 0;
    let k = if minus {
        (-n) as nat
    } else {
        n as nat
    };
    let whole = decimal_text(k);
    reveal(number_value);
    lemma_decimal(k);
    assert(signed_text(n as int) =~= sign_text(minus) + whole);
    if k == 0 {
        assert(whole.len() == 1);
    }
    lemma_read_integral(b, i, minus, whole);
}

/// The decimal notation of an integer is read as this integer.
pub proof fn lemma_number_text(n: i64)
    ensures
        number_i64(encode_utf8(signed_text(n as int))) == Some(n),
        encode_utf8(signed_text(n as int)).len() > 0,
        forall|i: int|
            0 <= i < encode_utf8(signed_text(n as int)).len() ==> is_digit(
                #[trigger] encode_utf8(signed_text(n as int))[i],
            ) || encode_utf8(signed_text(n as int))[i] == MINUS,
{
    let minus = n < 0;
    let k = if minus {
        (-n) as nat
    } else {
        n as nat
    };
    let whole = decimal_text(k);
    let digits = digits_of(whole);
    let text = signed_text(n as int);
    let w = encode_utf8(text);
    lemma_decimal(k);
    lemma_digit_text(whole);
    assert(is_digit(digits[0]));
    if minus {
        lemma_encode_concat(seq!['-'], whole);
        lemma_encode_ascii(seq!['-']);
        assert(w[0] == MINUS);
        assert(w.skip(1) =~= digits);
        assert forall|i: int| 0 <= i < w.len() implies is_digit(#[trigger] w[i]) || w[i]
            == MINUS by {
            if i > 0 {
                assert(w[i] == digits[i - 1]);
            }
        }
    }
}

/// Whether a byte stands for itself inside a string.
spec fn plain_byte(b: u8) -> bool {
    b >= SPACE && b != QUOTE && b != BACKSLASH
}

/// Bytes that stand for themselves are read as themselves.
proof fn lemma_plain_bytes(b: Seq<u8>, i: int, w: Seq<u8>)
    requires
        stands(b, i, w),
        forall|j: int| 0 <= j < w.len() ==> plain_byte(#[trigger] w[j]),
    ensures
        string_bytes(b, i) == prefixed(w, string_bytes(b, i + w.len())),
    decreases w.len(),
{
    let tail = string_bytes(b, i + w.len());
    if w.len() == 0 {
        match tail {
            Ok((t, end)) => {
                assert(w + t =~= t);
            },
            Err(e) => {},
        }
    } else {
        let rest = w.drop_first();
        assert(b[i + 0] == w[0]);
        assert(plain_byte(w[0]));
        assert forall|j: int| 0 <= j < rest.len() implies b[i + 1 + j] == #[trigger] rest[j] by {
            assert(b[i + (j + 1)] == w[j + 1]);
        }
        assert forall|j: int| 0 <= j < rest.len() implies plain_byte(#[trigger] rest[j]) by {
            assert(plain_byte(w[j + 1]));
        }
        lemma_plain_bytes(b, i + 1, rest);
        match tail {
            Ok((t, end)) => {
                assert(seq![w[0]] + (rest + t) =~= w + t);
            },
            Err(e) => {},
        }
    }
}

/// The bytes of a character beyond ASCII are no ASCII.
pub proof fn lemma_beyond_ascii(c: char)
    requires
        !is_ascii(c),
    ensures
        forall|j: int|
            0 <= j < encode_utf8(seq![c]).len() ==> #[trigger] encode_utf8(seq![c])[j] >= 0x80,
{
    assert(seq![c].drop_first() =~= Seq::<char>::empty());
    assert(encode_utf8(Seq::<char>::empty()) =~= Seq::empty());
    assert(encode_utf8(seq![c]) =~= encode_scalar(c as u32));
    assert forall|x: u8|
        (#[trigger] (0x80u8 | x)) >= 0x80 && (0xC0u8 | x) >= 0x80 && (0xE0u8 | x) >= 0x80 && (0xF0u8
            | x) >= 0x80 by {
        assert((0x80u8 | x) >= 0x80 && (0xC0u8 | x) >= 0x80 && (0xE0u8 | x) >= 0x80 && (0xF0u8 | x)
            >= 0x80) by (bit_vector);
    }
    let w = encode_scalar(c as u32);
    assert forall|j: int| 0 <= j < w.len() implies #[trigger] w[j] >= 0x80 by {
        let code = c as u32;
        let x1 = ((code >> 6) & 0x1F) as u8;
        let x2 = ((code >> 12) & 0x0F) as u8;
        let x3 = ((code >> 18) & 0x07) as u8;
        assert((0x80u8 | x1) >= 0x80);
        assert((0x80u8 | x2) >= 0x80);
        assert((0x80u8 | x3) >= 0x80);
    }
}

proof fn lemma_hex_char(d: nat)
    requires
        d < 16,
    ensures
        is_ascii(hex_char(d)),
        hex_digit(hex_char(d) as u8) == Some(d),
{
}

/// A character behind a backslash is read back.
proof fn lemma_read_short(b: Seq<u8>, i: int, c: char)
    requires
        escaped_char(c).len() == 2,
        text_at(b, i, escaped_char(c)),
    ensures
        size(escaped_char(c)) == 2,
        0 <= i < b.len(),
        b[i] == BACKSLASH,
        escape(b, i) == Ok::<(char, int), (int, ErrorKind)>((c, i + 2)),
{
    let e = escaped_char(c);
    lemma_encode_ascii(e);
    assert(b[i + 0] == encode_utf8(e)[0]);
    assert(b[i + 1] == encode_utf8(e)[1]);
}

/// A character by its code is read back.
proof fn lemma_read_code(b: Seq<u8>, i: int, c: char)
    requires
        escaped_char(c).len() == 6,
        text_at(b, i, escaped_char(c)),
    ensures
        size(escaped_char(c)) == 6,
        0 <= i < b.len(),
        b[i] == BACKSLASH,
        escape(b, i) == Ok::<(char, int), (int, ErrorKind)>((c, i + 6)),
{
    let e = escaped_char(c);
    let code = c as u32;
    let hi = (code / 16) as nat;
    let lo = (code % 16) as nat;
    lemma_hex_char(hi);
    lemma_hex_char(lo);
    lemma_encode_ascii(e);
    let w = encode_utf8(e);
    assert(b[i + 0] == w[0]);
    assert(b[i + 1] == w[1]);
    assert(b[i + 2] == w[2]);
    assert(b[i + 3] == w[3]);
    assert(b[i + 4] == w[4]);
    assert(b[i + 5] == w[5]);
    reveal_with_fuel(hex_run, 5);
    assert(hex4(b, i + 2) == Ok::<(nat, int), (int, ErrorKind)>((code as nat, i + 6)));
}

/// One character of a string is read back.
proof fn lemma_read_char(b: Seq<u8>, i: int, c: char)
    requires
        text_at(b, i, escaped_char(c)),
    ensures
        string_bytes(b, i) == prefixed(
            encode_utf8(seq![c]),
            string_bytes(b, i + size(escaped_char(c))),
        ),
{
    let e = escaped_char(c);
    if e.len() == 2 {
        lemma_read_short(b, i, c);
    } else if e.len() == 6 {
        lemma_read_code(b, i, c);
    } else {
        let w = encode_utf8(seq![c]);
        if is_ascii(c) {
            lemma_encode_ascii(seq![c]);
            assert(w[0] == c as u8);
        } else {
            lemma_beyond_ascii(c);
        }
        lemma_plain_bytes(b, i, w);
    }
}

/// The characters of a string are read back.
proof fn lemma_read_chars(b: Seq<u8>, i: int, s: Seq<char>)
    requires
        text_at(b, i, escaped(s) + seq!['"']),
    ensures
        string_bytes(b, i) == Ok::<(Seq<u8>, int), (int, ErrorKind)>(
            (encode_utf8(s), i + size(escaped(s)) + 1),
        ),
    decreases s.len(),
{
    lemma_text_concat(b, i, escaped(s), seq!['"']);
    lemma_text_char(b, i + size(escaped(s)), '"');
    if s.len() == 0 {
        assert(encode_utf8(escaped(s)) =~= Seq::empty());
    } else {
        let e = escaped_char(s[0]);
        let rest = s.drop_first();
        lemma_text_concat(b, i, e, escaped(rest));
        lemma_text_concat(b, i + size(e), escaped(rest), seq!['"']);
        lemma_read_chars(b, i + size(e), rest);
        lemma_read_char(b, i, s[0]);
        assert(s =~= seq![s[0]] + rest);
        lemma_encode_concat(seq![s[0]], rest);
    }
}

/// A string is read back.
pub proof fn lemma_read_string(b: Seq<u8>, i: int, s: Seq<char>)
    requires
        text_at(b, i, quoted(s)),
    ensures
        0 <= i < b.len(),
        b[i] == QUOTE,
        string(b, i) == Ok::<(Seq<char>, int), (int, ErrorKind)>((s, i + size(quoted(s)))),
{
    assert(quoted(s) =~= seq!['"'] + (escaped(s) + seq!['"']));
    lemma_text_concat(b, i, seq!['"'], escaped(s) + seq!['"']);
    lemma_text_char(b, i, '"');
    lemma_text_concat(b, i + 1, escaped(s), seq!['"']);
    lemma_text_char(b, i, '"');
    lemma_read_chars(b, i + 1, s);
    encode_utf8_decode_utf8(s);
}

/// A whole number is only read as a whole number.
proof fn lemma_whole_stays_whole(n: nat, m: nat)
    requires
        rounds_to(n, 1, m),
        m < INFINITE,
    ensures
        units(m) % one() == 0,
{
    reveal(rounds_to);
    lemma_one_positive();
    lemma_parts(m);
    let (shift, sig) = parts(m);
    let g = pow(2, shift);
    lemma_pow_positive(2, shift);
    if shift >= 1074 {
        let h = pow(2, (shift - 1074) as nat);
        lemma_pow_adds(2, 1074, (shift - 1074) as nat);
        lemma_pow_positive(2, (shift - 1074) as nat);
        assert(units(m) == (sig * h) * one()) by (nonlinear_arith)
            requires
                units(m) == sig * g,
                g == one() * h,
        ;
        vstd::arithmetic::div_mod::lemma_mod_multiples_basic(sig * h, one() as int);
    } else {
        let h = pow(2, (1074 - shift) as nat);
        lemma_pow_adds(2, shift, (1074 - shift) as nat);
        assert(one() == g * h);
        let t = n * h;
        assert(n * one() == t * g) by (nonlinear_arith)
            requires
                one() == g * h,
                t == n * h,
        ;
        assert(2 * n * one() == 2 * (t * g)) by (nonlinear_arith)
            requires
                n * one() == t * g,
        ;
        vstd::arithmetic::mul::lemma_mul_basics((units(m) + units(m + 1)) as int);
        assert((sig + 1) * g == sig * g + g) by (nonlinear_arith);
        assert(t <= sig) by (nonlinear_arith)
            requires
                2 * (t * g) <= 2 * (sig * g) + g,
                g > 0,
        ;
        if m > 0 {
            let before = (m - 1) as nat;
            lemma_parts(before);
            let (less, other) = parts(before);
            let k = pow(2, less);
            assert(less <= shift) by {
                vstd::arithmetic::div_mod::lemma_div_is_ordered(
                    before as int,
                    m as int,
                    FRACTION as int,
                );
            }
            if less < shift {
                lemma_pow_increases(2, less, shift);
            }
            assert((other + 1) * k == other * k + k) by (nonlinear_arith);
            assert(units(m) <= units(before) + g);
            vstd::arithmetic::mul::lemma_mul_basics((units(before) + units(m)) as int);
            assert(sig <= t) by (nonlinear_arith)
                requires
                    2 * (sig * g) - g <= 2 * (t * g),
                    g > 0,
            ;
        }
        assert(units(m) == n * one());
        vstd::arithmetic::div_mod::lemma_mod_multiples_basic(n as int, one() as int);
    }
}

/// Every finite float below ten to the sixteenth is read back as itself: it is
/// written with a point.
pub proof fn floats_below_the_large_ones_read_back(bits: u64)
    requires
        finite(bits),
        units(magnitude(bits)) < large() * one(),
    ensures
        float_reads_back(bits),
{
    let m = magnitude(bits);
    if !small_whole(m) {
        lemma_one_positive();
        vstd::arithmetic::div_mod::lemma_multiply_divide_lt(
            units(m) as int,
            one() as int,
            large() as int,
        );
        if m == 0 {
            lemma_zero_small();
        }
        let found = lemma_shortest_exists(m);
        assert(shortest(m, found.0, found.1));
        let (n, p) = shortest_pair(m);
        assert(shortest(m, n, p));
        if p >= 0 {
            lemma_pow0(10);
            assert(decimal_den(p) == 1);
            lemma_whole_stays_whole(decimal_num(n, p), m);
        }
    }
}

/// Whether a value is nested at most `limit` deep.
pub open spec fn nested_within(v: Json, limit: nat) -> bool
    decreases v,
{
    match v {
        Json::Array(list) => limit > 0 && forall|i: int|
            0 <= i < list.len() ==> nested_within(#[trigger] list[i], (limit - 1) as nat),
        Json::Object(fields) => limit > 0 && forall|i: int|
            0 <= i < fields.len() ==> nested_within(
                (#[trigger] fields[i]).1,
                (limit - 1) as nat,
            ),
        _ => true,
    }
}

/// Whether every float in a value is read back as itself.
pub open spec fn floats_read_back(v: Json) -> bool
    decreases v,
{
    match v {
        Json::Float(bits) => float_reads_back(bits),
        Json::Array(list) => forall|i: int|
            0 <= i < list.len() ==> floats_read_back(#[trigger] list[i]),
        Json::Object(fields) => forall|i: int|
            0 <= i < fields.len() ==> floats_read_back((#[trigger] fields[i]).1),
        _ => true,
    }
}

proof fn lemma_read_word(b: Seq<u8>, i: int, word: Seq<char>, v: Json, bytes: Seq<u8>)
    requires
        text_at(b, i, word),
        encode_utf8(word) == bytes,
    ensures
        literal(b, i, bytes, v) == Ok::<(Json, int), (int, ErrorKind)>((v, i + size(word))),
{
    lemma_subrange(b, i, bytes);
}

proof fn lemma_read_scalar(b: Seq<u8>, i: int, v: Json)
    requires
        floats_read_back(v),
        !(v is Array),
        !(v is Object),
        text_at(b, i, json_text(v)),
        number_ends(b, i + size(json_text(v))),
    ensures
        reads(b, i, v, i + size(json_text(v))),
{
    match v {
        Json::Int(n) => {
            lemma_read_int(b, i, n);
        },
        Json::Float(bits) => {
            lemma_read_float(b, i, bits);
        },
        Json::Str(s) => {
            lemma_read_string(b, i, s);
        },
        _ => {
            crate::parser::lemma_words();
            let word = json_text(v);
            let bytes = encode_utf8(word);
            assert(b[i + 0] == bytes[0]);
            lemma_read_word(b, i, word, v, bytes);
        },
    }
}

/// A value that is read starts with none of the bytes that end or part values.
proof fn lemma_value_start(b: Seq<u8>, i: int, depth: nat)
    requires
        value(b, i, depth) is Ok,
    ensures
        0 <= i < b.len(),
        after_space(b, i) == i,
        b[i] != CLOSE_BRACKET,
{
}

/// A value is read back.
proof fn lemma_read(b: Seq<u8>, i: int, v: Json, depth: nat)
    requires
        depth <= MAX_DEPTH,
        nested_within(v, (MAX_DEPTH - depth) as nat),
        floats_read_back(v),
        text_at(b, i, json_text(v)),
        number_ends(b, i + size(json_text(v))),
    ensures
        value(b, i, depth) == Ok::<(Json, int), (int, ErrorKind)>((v, i + size(json_text(v)))),
    decreases v, 0int,
{
    match v {
        Json::Array(list) => {
            let body = items_text(list, 0) + seq![']'];
            assert(json_text(v) =~= seq!['['] + body);
            lemma_text_concat(b, i, seq!['['], body);
            lemma_text_char(b, i, '[');
            if list.len() == 0 {
                assert(body =~= seq![']']);
                lemma_text_char(b, i + 1, ']');
                assert(after_space(b, i + 1) == i + 1);
                assert(list =~= Seq::<Json>::empty());
            } else {
                assert(body =~= json_text(list[0]) + items_text(list, 1) + seq![']']);
                lemma_read_items(b, i + 1, list, 0, depth + 1);
                assert(list.skip(0) =~= list);
                lemma_value_start(b, i + 1, depth + 1);
            }
        },
        Json::Object(fields) => {
            let body = fields_text(fields, 0) + seq!['}'];
            assert(json_text(v) =~= seq!['{'] + body);
            lemma_text_concat(b, i, seq!['{'], body);
            lemma_text_char(b, i, '{');
            if fields.len() == 0 {
                assert(body =~= seq!['}']);
                lemma_text_char(b, i + 1, '}');
                assert(after_space(b, i + 1) == i + 1);
                assert(fields =~= Seq::<(Seq<char>, Json)>::empty());
            } else {
                assert(body =~= quoted(fields[0].0) + seq![':'] + json_text(fields[0].1)
                    + fields_text(fields, 1) + seq!['}']);
                lemma_read_members(b, i + 1, fields, 0, depth + 1);
                assert(fields.skip(0) =~= fields);
                assert(b[i + 1] == QUOTE);
                assert(after_space(b, i + 1) == i + 1);
            }
        },
        _ => {
            lemma_read_scalar(b, i, v);
        },
    }
}

/// An element with a comma and more elements behind it.
proof fn lemma_items_more(
    b: Seq<u8>,
    i: int,
    depth: nat,
    item: Json,
    j: int,
    rest: Seq<Json>,
    end: int,
)
    requires
        value(b, i, depth) == Ok::<(Json, int), (int, ErrorKind)>((item, j)),
        at(b, j, COMMA),
        items(b, j + 1, depth) == Ok::<(Seq<Json>, int), (int, ErrorKind)>((rest, end)),
    ensures
        items(b, i, depth) == Ok::<(Seq<Json>, int), (int, ErrorKind)>((seq![item] + rest, end)),
{
    lemma_value_end(b, i, depth);
    lemma_value_start(b, j + 1, depth);
    assert(after_space(b, j) == j);
}

/// An element with the closing bracket behind it.
proof fn lemma_items_last(b: Seq<u8>, i: int, depth: nat, item: Json, j: int)
    requires
        value(b, i, depth) == Ok::<(Json, int), (int, ErrorKind)>((item, j)),
        at(b, j, CLOSE_BRACKET),
    ensures
        items(b, i, depth) == Ok::<(Seq<Json>, int), (int, ErrorKind)>((seq![item], j + 1)),
{
    lemma_value_end(b, i, depth);
    assert(after_space(b, j) == j);
}

/// The elements of an array from the `from`-th on are read back.
proof fn lemma_read_items(b: Seq<u8>, i: int, list: Seq<Json>, from: int, depth: nat)
    requires
        depth <= MAX_DEPTH,
        0 <= from < list.len(),
        forall|j: int|
            0 <= j < list.len() ==> nested_within(#[trigger] list[j], (MAX_DEPTH - depth) as nat),
        forall|j: int| 0 <= j < list.len() ==> floats_read_back(#[trigger] list[j]),
        text_at(b, i, json_text(list[from]) + items_text(list, from + 1) + seq![']']),
    ensures
        value(b, i, depth) is Ok,
        items(b, i, depth) == Ok::<(Seq<Json>, int), (int, ErrorKind)>(
            (
                list.skip(from),
                i + size(json_text(list[from]) + items_text(list, from + 1) + seq![']']),
            ),
        ),
    decreases list, list.len() - from,
{
    let first = json_text(list[from]);
    let tail = items_text(list, from + 1);
    assert(first + tail + seq![']'] =~= first + (tail + seq![']']));
    lemma_text_concat(b, i, first, tail + seq![']']);
    let j = i + size(first);
    if from + 1 < list.len() {
        let next = json_text(list[from + 1]) + items_text(list, from + 2) + seq![']'];
        assert(tail + seq![']'] =~= seq![','] + next);
        lemma_text_concat(b, j, seq![','], next);
        lemma_text_char(b, j, ',');
        lemma_read(b, i, list[from], depth);
        lemma_read_items(b, j + 1, list, from + 1, depth);
        lemma_items_more(
            b,
            i,
            depth,
            list[from],
            j,
            list.skip(from + 1),
            j + 1 + size(next),
        );
        assert(seq![list[from]] + list.skip(from + 1) =~= list.skip(from));
    } else {
        assert(tail + seq![']'] =~= seq![']']);
        lemma_text_char(b, j, ']');
        lemma_read(b, i, list[from], depth);
        lemma_items_last(b, i, depth, list[from], j);
        assert(seq![list[from]] =~= list.skip(from));
    }
}

/// A member with a comma and more members behind it.
proof fn lemma_members_more(
    b: Seq<u8>,
    i: int,
    depth: nat,
    key: Seq<char>,
    v: int,
    field: Json,
    j: int,
    rest: Seq<(Seq<char>, Json)>,
    end: int,
)
    requires
        0 <= i,
        name(b, i) == Ok::<(Seq<char>, int), (int, ErrorKind)>((key, v)),
        value(b, v, depth) == Ok::<(Json, int), (int, ErrorKind)>((field, j)),
        at(b, j, COMMA),
        at(b, j + 1, QUOTE),
        members(b, j + 1, depth) == Ok::<(Seq<(Seq<char>, Json)>, int), (int, ErrorKind)>(
            (rest, end),
        ),
    ensures
        members(b, i, depth) == Ok::<(Seq<(Seq<char>, Json)>, int), (int, ErrorKind)>(
            (seq![(key, field)] + rest, end),
        ),
{
    lemma_name_end(b, i);
    lemma_value_end(b, v, depth);
    assert(after_space(b, j) == j);
    assert(after_space(b, j + 1) == j + 1);
}

/// A member with the closing brace behind it.
proof fn lemma_members_last(
    b: Seq<u8>,
    i: int,
    depth: nat,
    key: Seq<char>,
    v: int,
    field: Json,
    j: int,
)
    requires
        0 <= i,
        name(b, i) == Ok::<(Seq<char>, int), (int, ErrorKind)>((key, v)),
        value(b, v, depth) == Ok::<(Json, int), (int, ErrorKind)>((field, j)),
        at(b, j, CLOSE_BRACE),
    ensures
        members(b, i, depth) == Ok::<(Seq<(Seq<char>, Json)>, int), (int, ErrorKind)>(
            (seq![(key, field)], j + 1),
        ),
{
    lemma_name_end(b, i);
    lemma_value_end(b, v, depth);
    assert(after_space(b, j) == j);
}

/// A name with a colon behind it.
proof fn lemma_read_name(b: Seq<u8>, i: int, key: Seq<char>, depth: nat)
    requires
        text_at(b, i, quoted(key)),
        at(b, i + size(quoted(key)), COLON),
        value(b, i + size(quoted(key)) + 1, depth) is Ok,
    ensures
        at(b, i, QUOTE),
        name(b, i) == Ok::<(Seq<char>, int), (int, ErrorKind)>((key, i + size(quoted(key)) + 1)),
{
    let c = i + size(quoted(key));
    lemma_read_string(b, i, key);
    lemma_value_start(b, c + 1, depth);
    assert(after_space(b, c) == c);
}

/// The members of an object from the `from`-th on are read back.
proof fn lemma_read_members(
    b: Seq<u8>,
    i: int,
    fields: Seq<(Seq<char>, Json)>,
    from: int,
    depth: nat,
)
    requires
        depth <= MAX_DEPTH,
        0 <= from < fields.len(),
        forall|j: int|
            0 <= j < fields.len() ==> nested_within(
                (#[trigger] fields[j]).1,
                (MAX_DEPTH - depth) as nat,
            ),
        forall|j: int| 0 <= j < fields.len() ==> floats_read_back((#[trigger] fields[j]).1),
        text_at(
            b,
            i,
            quoted(fields[from].0) + seq![':'] + json_text(fields[from].1) + fields_text(
                fields,
                from + 1,
            ) + seq!['}'],
        ),
    ensures
        at(b, i, QUOTE),
        members(b, i, depth) == Ok::<(Seq<(Seq<char>, Json)>, int), (int, ErrorKind)>(
            (
                fields.skip(from),
                i + size(
                    quoted(fields[from].0) + seq![':'] + json_text(fields[from].1) + fields_text(
                        fields,
                        from + 1,
                    ) + seq!['}'],
                ),
            ),
        ),
    decreases fields, fields.len() - from,
{
    let key = quoted(fields[from].0);
    let field = json_text(fields[from].1);
    let tail = fields_text(fields, from + 1);
    let rest = field + (tail + seq!['}']);
    assert(key + seq![':'] + field + tail + seq!['}'] =~= key + (seq![':'] + rest));
    lemma_text_concat(b, i, key, seq![':'] + rest);
    let c = i + size(key);
    lemma_text_concat(b, c, seq![':'], rest);
    lemma_text_char(b, c, ':');
    let v = c + 1;
    lemma_text_concat(b, v, field, tail + seq!['}']);
    let j = v + size(field);
    if from + 1 < fields.len() {
        let next = quoted(fields[from + 1].0) + seq![':'] + json_text(fields[from + 1].1)
            + fields_text(fields, from + 2) + seq!['}'];
        assert(tail + seq!['}'] =~= seq![','] + next);
        lemma_text_concat(b, j, seq![','], next);
        lemma_text_char(b, j, ',');
        lemma_read(b, v, fields[from].1, depth);
        lemma_read_name(b, i, fields[from].0, depth);
        lemma_read_members(b, j + 1, fields, from + 1, depth);
        lemma_members_more(
            b,
            i,
            depth,
            fields[from].0,
            v,
            fields[from].1,
            j,
            fields.skip(from + 1),
            j + 1 + size(next),
        );
        assert(seq![fields[from]] + fields.skip(from + 1) =~= fields.skip(from));
    } else {
        assert(tail + seq!['}'] =~= seq!['}']);
        lemma_text_char(b, j, '}');
        lemma_read(b, v, fields[from].1, depth);
        lemma_read_name(b, i, fields[from].0, depth);
        lemma_members_last(b, i, depth, fields[from].0, v, fields[from].1, j);
        assert(seq![fields[from]] =~= fields.skip(from));
    }
}

/// Parsing what was written gives the value back: every value that is nested
/// no deeper than [`MAX_DEPTH`] and whose floats are finite and not written as
/// integers is parsed from its own compact JSON.
pub proof fn parse_reads_what_is_written(v: Json)
    requires
        nested_within(v, MAX_DEPTH as nat),
        floats_read_back(v),
    ensures
        document(encode_utf8(json_text(v))) == Ok::<Json, (int, ErrorKind)>(v),
{
    let b = encode_utf8(json_text(v));
    lemma_read(b, 0, v, 0);
    lemma_value_start(b, 0, 0);
    assert(after_space(b, b.len() as int) == b.len());
}

/// Values with the same compact JSON are the same value, so that counting
/// encodings counts values.
pub proof fn encodings_tell_values_apart(v: Json, w: Json)
    requires
        nested_within(v, MAX_DEPTH as nat),
        floats_read_back(v),
        nested_within(w, MAX_DEPTH as nat),
        floats_read_back(w),
        json_text(v) == json_text(w),
    ensures
        v == w,
{
    parse_reads_what_is_written(v);
    parse_reads_what_is_written(w);
}

} // verus!
