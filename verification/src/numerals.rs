//! What numbers in decimal notation mean: every digit counts by its place, and
//! a number literal is read as the binary number nearest to its value.

use vstd::arithmetic::mul::*;
use vstd::arithmetic::power::*;
use vstd::prelude::*;
use vstd::utf8::*;

use crate::binary64::{
    lemma_nearest, lemma_one_positive, lemma_parts, lemma_rounds_bounded, lemma_rounds_exists,
    lemma_units_increase, nearest, one, parts, rounds_to, units,
};
use crate::decimal::{decimal_den, decimal_magnitude, decimal_num, exponent_value, lemma_ten, ten};
use crate::float::{float_number, inf_word, infinity_word, nan_word, small, spells, unsigned_float};
use crate::grammar::{after_space, at, document, number, number_value, value};
use crate::integer::{number_i64, number_u64, number_usize};
use crate::json::{ErrorKind, Json};
use crate::roundtrip::{lemma_digit_run, lemma_subrange, stands};
use crate::text::{all_digits, decimal_text, digits_value, is_digit, lemma_encode_ascii};

verus! {

/// Whether every byte is one of the ten ASCII digits.
pub open spec fn are_digits(s: Seq<u8>) -> bool {
    forall|i: int| 0 <= i < s.len() ==> 48 <= #[trigger] s[i] <= 57
}

/// The sum of the digits, each times the power of ten of its place.
pub open spec fn place_value(s: Seq<u8>) -> nat
    decreases s.len(),
{
    if s.len() == 0 {
        0
    } else {
        ((s[0] - 48) * pow(10, (s.len() - 1) as nat) + place_value(s.drop_first())) as nat
    }
}

proof fn lemma_digit_kinds(s: Seq<u8>)
    requires
        are_digits(s),
    ensures
        all_digits(s),
{
    assert forall|i: int| 0 <= i < s.len() implies is_digit(#[trigger] s[i]) by {
        assert(48 <= s[i] <= 57);
    }
}

proof fn lemma_place_push(s: Seq<u8>, d: u8)
    requires
        are_digits(s),
        48 <= d <= 57,
    ensures
        place_value(s.push(d)) == 10 * place_value(s) + (d - 48),
    decreases s.len(),
{
    let t = s.push(d);
    lemma_pow0(10);
    if s.len() == 0 {
        assert(t.drop_first() =~= Seq::<u8>::empty());
        assert(place_value(t.drop_first()) == 0);
        assert(place_value(s) == 0);
        assert((d - 48) * 1 == d - 48);
    } else {
        let rest = s.drop_first();
        assert forall|i: int| 0 <= i < rest.len() implies 48 <= #[trigger] rest[i] <= 57 by {
            assert(48 <= s[i + 1] <= 57);
        }
        assert(48 <= s[0] <= 57);
        lemma_place_push(rest, d);
        assert(t.drop_first() =~= rest.push(d));
        let k = (s.len() - 1) as nat;
        lemma_pow_adds(10, 1, k);
        lemma_pow1(10);
        lemma_pow_positive(10, k);
        let a = s[0] - 48;
        let p = pow(10, k);
        assert(pow(10, s.len()) == 10 * p);
        assert(a * (10 * p) == 10 * (a * p)) by (nonlinear_arith);
        assert(a * p >= 0) by (nonlinear_arith)
            requires
                a >= 0,
                p >= 0,
        ;
    }
}

/// Digits are read by their places.
pub proof fn digits_count_by_their_places(s: Seq<u8>)
    requires
        are_digits(s),
    ensures
        digits_value(s) == place_value(s),
    decreases s.len(),
{
    if s.len() > 0 {
        let rest = s.drop_last();
        assert forall|i: int| 0 <= i < rest.len() implies 48 <= #[trigger] rest[i] <= 57 by {
            assert(48 <= s[i] <= 57);
        }
        assert(48 <= s[s.len() - 1] <= 57);
        digits_count_by_their_places(rest);
        lemma_place_push(rest, s.last());
        assert(rest.push(s.last()) =~= s);
    }
}

/// A number is written with digits that count, by their places, to it; there
/// is no leading zero but that of zero itself.
pub proof fn numbers_are_written_in_decimal(n: nat)
    ensures
        are_digits(encode_utf8(decimal_text(n))),
        encode_utf8(decimal_text(n)).len() == decimal_text(n).len(),
        place_value(encode_utf8(decimal_text(n))) == n,
        encode_utf8(decimal_text(n)).len() > 0,
        n > 0 ==> encode_utf8(decimal_text(n))[0] != 48,
        n == 0 ==> encode_utf8(decimal_text(n)).len() == 1,
    decreases n,
{
    let s = decimal_text(n);
    lemma_decimal_chars(n);
    lemma_encode_ascii(s);
    let b = encode_utf8(s);
    assert forall|i: int| 0 <= i < b.len() implies 48 <= #[trigger] b[i] <= 57 by {
        assert('0' <= s[i] <= '9');
        assert(b[i] == s[i] as u8);
    }
    if n < 10 {
        assert(b[0] == s[0] as u8);
        assert(b =~= Seq::<u8>::empty().push(b[0]));
        lemma_place_push(Seq::empty(), b[0]);
        assert(place_value(Seq::<u8>::empty()) == 0);
    } else {
        let t = decimal_text(n / 10);
        numbers_are_written_in_decimal(n / 10);
        lemma_decimal_chars(n / 10);
        lemma_encode_ascii(t);
        let c = encode_utf8(t);
        assert(b.drop_last() =~= c) by {
            assert forall|i: int| 0 <= i < c.len() implies b[i] == #[trigger] c[i] by {
                assert(s[i] == t[i]);
                assert(b[i] == s[i] as u8);
            }
        }
        assert(b[b.len() - 1] == s[s.len() - 1] as u8);
        lemma_place_push(c, b.last());
        assert(c.push(b.last()) =~= b);
        assert(b[0] == c[0]);
    }
}

proof fn lemma_decimal_chars(n: nat)
    ensures
        decimal_text(n).len() > 0,
        forall|i: int| 0 <= i < decimal_text(n).len() ==> '0' <= #[trigger] decimal_text(n)[i] <= '9',
        forall|i: int|
            0 <= i < decimal_text(n).len() ==> crate::text::is_ascii(#[trigger] decimal_text(n)[i]),
    decreases n,
{
    if n >= 10 {
        lemma_decimal_chars(n / 10);
    }
}

/// Bytes that are digits, behind a sign or not, are read as the number that
/// they count to, if it fits.
pub proof fn integers_are_read_by_their_places(digits: Seq<u8>)
    requires
        are_digits(digits),
        digits.len() > 0,
    ensures
        ({
            let n = place_value(digits);
            &&& number_usize(digits) == if n <= usize::MAX {
                Some(n as usize)
            } else {
                None
            }
            &&& number_usize(seq![43u8] + digits) == number_usize(digits)
            &&& number_u64(digits) == if n <= u64::MAX {
                Some(n as u64)
            } else {
                None
            }
            &&& number_u64(seq![43u8] + digits) == number_u64(digits)
            &&& number_i64(digits) == if n <= i64::MAX {
                Some(n as i64)
            } else {
                None
            }
            &&& number_i64(seq![43u8] + digits) == number_i64(digits)
            &&& number_i64(seq![45u8] + digits) == if -n >= i64::MIN {
                Some((-n) as i64)
            } else {
                None
            }
            &&& number_usize(seq![45u8] + digits) is None
            &&& number_u64(seq![45u8] + digits) is None
        }),
{
    digits_count_by_their_places(digits);
    lemma_digit_kinds(digits);
    assert(48 <= digits[0] <= 57);
    let plus = seq![43u8] + digits;
    let minus = seq![45u8] + digits;
    assert(plus.skip(1) =~= digits);
    assert(minus.skip(1) =~= digits);
    assert(plus[0] == 43);
    assert(minus[0] == 45);
    assert(!is_digit(minus[0]));
}

/// Bytes that are no digits behind an optional sign are no integer.
pub proof fn other_bytes_are_no_integer(s: Seq<u8>)
    requires
        !are_digits(
            if s.len() > 0 && (s[0] == 43 || s[0] == 45) {
                s.skip(1)
            } else {
                s
            },
        ) || s.len() == 0 || (s.len() == 1 && (s[0] == 43 || s[0] == 45)),
    ensures
        number_usize(s) is None,
        number_u64(s) is None,
        number_i64(s) is None,
{
    let digits = if s.len() > 0 && (s[0] == 43 || s[0] == 45) {
        s.skip(1)
    } else {
        s
    };
    if !are_digits(digits) {
        let i = choose|i: int| 0 <= i < digits.len() && !(48 <= #[trigger] digits[i] <= 57);
        assert(!is_digit(digits[i]));
        if s[0] == 45 {
            assert(!is_digit(s[0]));
        }
    } else if s.len() > 0 {
        assert(!is_digit(s[0]));
        assert(s.skip(1).len() == 0);
    }
}

/// The parts of a number literal: the digits before the point, those behind
/// it, and the digits of the exponent behind its letter and sign.
pub struct NumberLiteral {
    pub minus: bool,
    pub whole: Seq<u8>,
    pub pointed: bool,
    pub fraction: Seq<u8>,
    pub letter: Seq<u8>,
    pub sign: Seq<u8>,
    pub exponent: Seq<u8>,
}

impl NumberLiteral {
    /// Whether the parts make a literal.
    pub open spec fn wf(self) -> bool {
        &&& are_digits(self.whole)
        &&& self.whole.len() > 0
        &&& self.whole.len() > 1 ==> self.whole[0] != 48
        &&& are_digits(self.fraction)
        &&& self.pointed == (self.fraction.len() > 0)
        &&& are_digits(self.exponent)
        &&& self.letter == Seq::<u8>::empty() || self.letter == seq![101u8] || self.letter == seq![
            69u8,
        ]
        &&& self.sign == Seq::<u8>::empty() || self.sign == seq![43u8] || self.sign == seq![45u8]
        &&& (self.letter.len() > 0) == (self.exponent.len() > 0)
        &&& self.letter.len() == 0 ==> self.sign.len() == 0
    }

    /// The literal.
    pub open spec fn bytes(self) -> Seq<u8> {
        (if self.minus {
            seq![45u8]
        } else {
            Seq::empty()
        }) + self.whole + (if self.pointed {
            seq![46u8]
        } else {
            Seq::empty()
        }) + self.fraction + self.letter + self.sign + self.exponent
    }

    /// The power of ten that the digits are counted in.
    pub open spec fn power(self) -> int {
        (if self.sign == seq![45u8] {
            -(place_value(self.exponent) as int)
        } else {
            place_value(self.exponent) as int
        }) - self.fraction.len()
    }

    /// The numerator of the value without its sign.
    pub open spec fn numerator(self) -> nat {
        if self.power() >= 0 {
            (place_value(self.whole + self.fraction) * pow(10, self.power() as nat)) as nat
        } else {
            place_value(self.whole + self.fraction)
        }
    }

    /// The denominator of the value.
    pub open spec fn denominator(self) -> nat {
        if self.power() >= 0 {
            1
        } else {
            pow(10, (-self.power()) as nat) as nat
        }
    }

    /// Whether the literal has neither a fraction nor an exponent.
    pub open spec fn integral(self) -> bool {
        self.fraction.len() == 0 && self.exponent.len() == 0
    }
}

proof fn lemma_concat_digits(a: Seq<u8>, b: Seq<u8>)
    requires
        are_digits(a),
        are_digits(b),
    ensures
        are_digits(a + b),
{
    assert forall|i: int| 0 <= i < (a + b).len() implies 48 <= #[trigger] (a + b)[i] <= 57 by {
        if i < a.len() {
            assert(48 <= a[i] <= 57);
        } else {
            assert(48 <= b[i - a.len()] <= 57);
        }
    }
}

/// The literal is read as its parts.
proof fn lemma_literal_parts(l: NumberLiteral)
    requires
        l.wf(),
    ensures
        ({
            let b = l.bytes();
            let v = number_value(
                l.minus,
                l.whole,
                l.fraction,
                l.sign == seq![45u8],
                l.exponent,
                l.integral(),
            );
            &&& value(b, 0, 0) == number(b, 0)
            &&& after_space(b, 0) == 0
            &&& number(b, 0) == match v {
                Some(x) => Ok::<(Json, int), (int, ErrorKind)>((x, b.len() as int)),
                None => Err((0, ErrorKind::NumberOutOfRange)),
            }
        }),
{
    let b = l.bytes();
    let s: int = if l.minus {
        1
    } else {
        0
    };
    let whole_end = s + l.whole.len();
    let from: int = if l.pointed {
        whole_end + 1
    } else {
        whole_end
    };
    let part_end = from + l.fraction.len();
    let exponent = part_end + l.letter.len() + l.sign.len();
    lemma_digit_kinds(l.whole);
    lemma_digit_kinds(l.fraction);
    lemma_digit_kinds(l.exponent);
    assert(b.len() == exponent + l.exponent.len());
    assert(stands(b, s, l.whole)) by {
        assert forall|j: int| 0 <= j < l.whole.len() implies b[s + j] == #[trigger] l.whole[j] by {}
    }
    assert(stands(b, from, l.fraction)) by {
        assert forall|j: int| 0 <= j < l.fraction.len() implies b[from + j]
            == #[trigger] l.fraction[j] by {}
    }
    assert(stands(b, exponent, l.exponent)) by {
        assert forall|j: int| 0 <= j < l.exponent.len() implies b[exponent + j]
            == #[trigger] l.exponent[j] by {}
    }
    assert(48 <= l.whole[0] <= 57);
    assert(b[s + 0] == l.whole[0]);
    if l.minus {
        assert(b[0] == 45);
    }
    if l.pointed {
        assert(b[whole_end] == 46);
    }
    if l.letter.len() > 0 {
        assert(b[part_end] == l.letter[0]);
        assert(48 <= l.exponent[0] <= 57);
        assert(b[exponent + 0] == l.exponent[0]);
        if l.sign.len() > 0 {
            assert(b[part_end + 1] == l.sign[0]);
        }
    }
    lemma_digit_run(b, s, l.whole);
    lemma_digit_run(b, from, l.fraction);
    lemma_digit_run(b, exponent, l.exponent);
    lemma_subrange(b, s, l.whole);
    lemma_subrange(b, from, l.fraction);
    lemma_subrange(b, exponent, l.exponent);
    assert(at(b, whole_end, 46) == l.pointed);
    assert(b.subrange(part_end, part_end) =~= Seq::<u8>::empty());
    assert(l.fraction.len() == 0 ==> l.fraction =~= Seq::<u8>::empty());
    assert(l.exponent.len() == 0 ==> l.exponent =~= Seq::<u8>::empty());
}

/// Every number literal is read as its value: as an integer, where it has no
/// fraction, no exponent and fits, and else as the binary number nearest to
/// its digits, counted by their places, times the power of ten that the point
/// and the exponent give. Beyond the finite numbers it is refused.
pub proof fn number_literals_are_read_as_their_value(l: NumberLiteral)
    requires
        l.wf(),
    ensures
        ({
            let n = place_value(l.whole) as int;
            let k = if l.minus {
                -n
            } else {
                n
            };
            if l.integral() && i64::MIN <= k <= i64::MAX {
                document(l.bytes()) == Ok::<Json, (int, ErrorKind)>(Json::Int(k as i64))
            } else {
                forall|m: nat| #[trigger]
                    rounds_to(l.numerator(), l.denominator(), m) ==> document(l.bytes()) == if m
                        < 0x7ff0_0000_0000_0000 {
                        Ok::<Json, (int, ErrorKind)>(
                            Json::Float(
                                (if l.minus {
                                    0x8000_0000_0000_0000 + m
                                } else {
                                    m
                                }) as u64,
                            ),
                        )
                    } else {
                        Err((0, ErrorKind::NumberOutOfRange))
                    }
            }
        }),
        l.denominator() > 0,
        exists|m: nat| rounds_to(l.numerator(), l.denominator(), m),
{
    let b = l.bytes();
    reveal(number_value);
    lemma_literal_parts(l);
    digits_count_by_their_places(l.whole);
    lemma_concat_digits(l.whole, l.fraction);
    digits_count_by_their_places(l.whole + l.fraction);
    digits_count_by_their_places(l.exponent);
    let e = exponent_value(l.sign == seq![45u8], l.exponent) - l.fraction.len();
    assert(e == l.power()) by {
        assert(seq![45u8].len() == 1);
    }
    lemma_ten(e);
    lemma_ten(-e);
    lemma_pow_positive(10, if e >= 0 {
        e as nat
    } else {
        (-e) as nat
    });
    let c = digits_value(l.whole + l.fraction);
    lemma_pow0(10);
    lemma_mul_basics(c as int);
    assert(decimal_num(c, e) == l.numerator());
    assert(decimal_den(e) == l.denominator());
    lemma_rounds_exists(l.numerator(), l.denominator());
    assert(rounds_to(l.numerator(), l.denominator(), nearest(l.numerator(), l.denominator())));
    assert forall|m: nat| #[trigger]
        rounds_to(l.numerator(), l.denominator(), m) implies decimal_magnitude(c, e) == m by {
        lemma_nearest(l.numerator(), l.denominator(), m);
    }
    assert(after_space(b, b.len() as int) == b.len());
}

/// Literals with the same sign, the same digits and the same power of ten are
/// read alike, unless one is read as an integer: neither zeros before the
/// digits of an exponent nor the place of the point matter, if the exponent
/// makes up for it.
pub proof fn literals_of_one_value_are_read_alike(a: NumberLiteral, b: NumberLiteral)
    requires
        a.wf(),
        b.wf(),
        a.minus == b.minus,
        place_value(a.whole + a.fraction) == place_value(b.whole + b.fraction),
        a.power() == b.power(),
        !a.integral(),
        !b.integral(),
    ensures
        document(a.bytes()) == document(b.bytes()),
{
    number_literals_are_read_as_their_value(a);
    number_literals_are_read_as_their_value(b);
    let m = choose|m: nat| rounds_to(a.numerator(), a.denominator(), m);
    assert(rounds_to(b.numerator(), b.denominator(), m));
}

proof fn lemma_leading_zero(s: Seq<u8>)
    requires
        are_digits(s),
    ensures
        are_digits(seq![48u8] + s),
        place_value(seq![48u8] + s) == place_value(s),
{
    let t = seq![48u8] + s;
    lemma_concat_digits(seq![48u8], s);
    assert(t.drop_first() =~= s);
    lemma_mul_basics(pow(10, s.len()));
}

/// A zero before the digits of an exponent changes nothing.
pub proof fn leading_zeros_of_exponents_do_not_matter(l: NumberLiteral)
    requires
        l.wf(),
        l.exponent.len() > 0,
    ensures
        document(
            (NumberLiteral { exponent: seq![48u8] + l.exponent, ..l }).bytes(),
        ) == document(l.bytes()),
{
    lemma_leading_zero(l.exponent);
    literals_of_one_value_are_read_alike(
        NumberLiteral { exponent: seq![48u8] + l.exponent, ..l },
        l,
    );
}

/// How far a magnitude is from a fraction, in units and times the denominator.
pub open spec fn apart(num: nat, den: nat, m: nat) -> int {
    let d = num * pow(2, 1074) - units(m) * den;
    if d >= 0 {
        d
    } else {
        -d
    }
}

proof fn lemma_apart_order(num: nat, den: nat, m: nat, other: nat)
    requires
        den > 0,
        rounds_to(num, den, m),
        m < 0x7ff0_0000_0000_0000,
    ensures
        apart(num, den, m) <= apart(num, den, other),
        apart(num, den, m) == apart(num, den, other) && m != other ==> m % 2 == 0,
{
    reveal(rounds_to);
    lemma_one_positive();
    let x = (num * one()) as int;
    let d = den as int;
    assert(2 * num * one() == 2 * x) by (nonlinear_arith)
        requires
            x == num * one(),
    ;
    if other > m {
        let (u, v, w) = (units(m) as int, units(m + 1) as int, units(other) as int);
        lemma_units_increase(m, m + 1);
        if m + 1 < other {
            lemma_units_increase(m + 1, other);
        }
        assert((u + v) * d == u * d + v * d) by (nonlinear_arith);
        assert(v * d <= w * d) by (nonlinear_arith)
            requires
                v <= w,
                d > 0,
        ;
        assert(u * d < v * d) by (nonlinear_arith)
            requires
                u < v,
                d > 0,
        ;
    } else if other < m {
        let below = (m - 1) as nat;
        let (u, v, w) = (units(m) as int, units(below) as int, units(other) as int);
        lemma_units_increase(below, m);
        if other < below {
            lemma_units_increase(other, below);
        }
        assert((v + u) * d == v * d + u * d) by (nonlinear_arith);
        assert(w * d <= v * d) by (nonlinear_arith)
            requires
                w <= v,
                d > 0,
        ;
        assert(v * d < u * d) by (nonlinear_arith)
            requires
                v < u,
                d > 0,
        ;
    }
}

/// Rounding picks a magnitude that no other is nearer than; of two that are
/// equally near it picks the one whose last bit is zero.
pub proof fn rounded_numbers_are_nearest(num: nat, den: nat, m: nat, other: nat)
    requires
        den > 0,
        rounds_to(num, den, m),
        m < 0x7ff0_0000_0000_0000,
    ensures
        apart(num, den, m) <= apart(num, den, other),
        apart(num, den, m) == apart(num, den, other) && m != other ==> m % 2 == 0,
{
    lemma_apart_order(num, den, m, other);
}

/// Magnitudes count up from zero by one unit, and by twice as much after every
/// two to the power 52 of them; one is two to the power 1074 units.
pub proof fn magnitudes_are_spaced_by_powers_of_two(m: nat)
    ensures
        units(0) == 0,
        units(m + 1) - units(m) == pow(
            2,
            if m < 0x20_0000_0000_0000 {
                0nat
            } else {
                (m / 0x10_0000_0000_0000 - 1) as nat
            },
        ),
        units(0x3FF0_0000_0000_0000) == pow(2, 1074),
{
    lemma_parts(m);
    let (shift, sig) = parts(m);
    let g = pow(2, shift);
    assert((sig + 1) * g == sig * g + g) by (nonlinear_arith);
    crate::hist::lemma_one_bits();
    lemma_one_positive();
}

/// A number does not go on behind a leading zero.
pub proof fn leading_zeros_are_refused(minus: bool, digits: Seq<u8>)
    requires
        are_digits(digits),
        digits.len() > 0,
    ensures
        ({
            let sign = if minus {
                seq![45u8]
            } else {
                Seq::empty()
            };
            document(sign + seq![48u8] + digits) == Err::<Json, (int, ErrorKind)>(
                (sign.len() as int + 1, ErrorKind::TrailingData),
            )
        }),
{
    let sign = if minus {
        seq![45u8]
    } else {
        Seq::empty()
    };
    let b = sign + seq![48u8] + digits;
    let s = sign.len() as int;
    reveal(number_value);
    if minus {
        assert(b[0] == 45);
    }
    assert(b[s] == 48);
    assert(48 <= digits[0] <= 57);
    assert(b[s + 1] == digits[0]);
    assert(after_space(b, 0) == 0);
    assert(after_space(b, s + 1) == s + 1);
    let w = b.subrange(s, s + 1);
    assert(w =~= seq![48u8]);
    assert(w.drop_last() =~= Seq::<u8>::empty());
    assert(digits_value(w.drop_last()) == 0);
    assert(digits_value(w) == 0);
    assert(value(b, 0, 0) == number(b, 0));
    assert(number(b, 0) == Ok::<(Json, int), (int, ErrorKind)>((Json::Int(0), s + 1)));
}

impl NumberLiteral {
    /// Whether the parts make a number of an argument, which may begin with
    /// zeros, and may have no digits on one side of the point.
    pub open spec fn is_lax(self) -> bool {
        &&& are_digits(self.whole)
        &&& are_digits(self.fraction)
        &&& self.whole.len() + self.fraction.len() > 0
        &&& self.fraction.len() > 0 ==> self.pointed
        &&& are_digits(self.exponent)
        &&& self.letter == Seq::<u8>::empty() || self.letter == seq![101u8] || self.letter == seq![
            69u8,
        ]
        &&& self.sign == Seq::<u8>::empty() || self.sign == seq![43u8] || self.sign == seq![45u8]
        &&& (self.letter.len() > 0) == (self.exponent.len() > 0)
        &&& self.letter.len() == 0 ==> self.sign.len() == 0
    }
}

proof fn lemma_lax_parts(l: NumberLiteral)
    requires
        l.is_lax(),
        !l.minus,
    ensures
        unsigned_float(l.bytes()) == Some(
            decimal_magnitude(
                digits_value(l.whole + l.fraction),
                exponent_value(l.sign == seq![45u8], l.exponent) - l.fraction.len(),
            ),
        ),
        l.bytes().len() > 0,
        l.bytes()[0] != 43,
        l.bytes()[0] != 45,
{
    let b = l.bytes();
    let whole_end = l.whole.len() as int;
    let from: int = if l.pointed {
        whole_end + 1
    } else {
        whole_end
    };
    let part_end = from + l.fraction.len();
    let exponent = part_end + l.letter.len() + l.sign.len();
    lemma_digit_kinds(l.whole);
    lemma_digit_kinds(l.fraction);
    lemma_digit_kinds(l.exponent);
    assert(b.len() == exponent + l.exponent.len());
    assert(stands(b, 0, l.whole)) by {
        assert forall|j: int| 0 <= j < l.whole.len() implies b[0 + j] == #[trigger] l.whole[j] by {}
    }
    assert(stands(b, from, l.fraction)) by {
        assert forall|j: int| 0 <= j < l.fraction.len() implies b[from + j]
            == #[trigger] l.fraction[j] by {}
    }
    assert(stands(b, exponent, l.exponent)) by {
        assert forall|j: int| 0 <= j < l.exponent.len() implies b[exponent + j]
            == #[trigger] l.exponent[j] by {}
    }
    if l.whole.len() > 0 {
        assert(48 <= l.whole[0] <= 57);
        assert(b[0] == l.whole[0]);
    }
    if l.pointed {
        assert(b[whole_end] == 46);
    }
    if l.letter.len() > 0 {
        assert(b[part_end] == l.letter[0]);
        assert(48 <= l.exponent[0] <= 57);
        assert(b[exponent + 0] == l.exponent[0]);
        if l.sign.len() > 0 {
            assert(b[part_end + 1] == l.sign[0]);
        }
    }
    lemma_digit_run(b, 0, l.whole);
    lemma_digit_run(b, from, l.fraction);
    lemma_digit_run(b, exponent, l.exponent);
    lemma_subrange(b, 0, l.whole);
    lemma_subrange(b, from, l.fraction);
    lemma_subrange(b, exponent, l.exponent);
    assert(at(b, whole_end, 46) == l.pointed);
    assert(b[0] == 46 || 48 <= b[0] <= 57);
    assert(!spells(b, inf_word()) && !spells(b, infinity_word()) && !spells(b, nan_word())) by {
        assert(small(b[0]) == b[0]);
    }
    assert(l.exponent.len() == 0 ==> l.exponent =~= Seq::<u8>::empty());
    assert(exponent_value(false, Seq::empty()) == 0);
}

/// A number of an argument is the binary number nearest to its value, which
/// may be infinite; a sign before it is its sign.
pub proof fn arguments_are_read_as_their_value(l: NumberLiteral, m: nat)
    requires
        l.is_lax(),
        !l.minus,
        rounds_to(l.numerator(), l.denominator(), m),
    ensures
        m <= 0x7ff0_0000_0000_0000,
        float_number(l.bytes()) == Some(m as u64),
        float_number(seq![43u8] + l.bytes()) == Some(m as u64),
        float_number(seq![45u8] + l.bytes()) == Some((0x8000_0000_0000_0000 + m) as u64),
{
    let b = l.bytes();
    lemma_lax_parts(l);
    lemma_rounds_bounded(l.numerator(), l.denominator(), m);
    lemma_concat_digits(l.whole, l.fraction);
    digits_count_by_their_places(l.whole + l.fraction);
    digits_count_by_their_places(l.exponent);
    let e = exponent_value(l.sign == seq![45u8], l.exponent) - l.fraction.len();
    assert(e == l.power()) by {
        assert(seq![45u8].len() == 1);
    }
    lemma_ten(e);
    lemma_ten(-e);
    lemma_pow0(10);
    let c = digits_value(l.whole + l.fraction);
    lemma_mul_basics(c as int);
    lemma_pow_positive(10, if e >= 0 {
        e as nat
    } else {
        (-e) as nat
    });
    assert(decimal_num(c, e) == l.numerator());
    assert(decimal_den(e) == l.denominator());
    lemma_nearest(l.numerator(), l.denominator(), m);
    let (plus, minus) = (seq![43u8] + b, seq![45u8] + b);
    assert(plus[0] == 43 && plus.skip(1) =~= b);
    assert(minus[0] == 45 && minus.skip(1) =~= b);
}

} // verus!
