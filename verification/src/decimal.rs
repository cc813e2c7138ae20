//! Reading decimal notation: the nearest binary number.

use vstd::arithmetic::mul::*;
use vstd::arithmetic::power::*;
use vstd::arithmetic::power2::{lemma2_to64, lemma_pow2};
use vstd::prelude::*;

use crate::ascii::ZERO;
use crate::bignat::BigNat;
use crate::binary64::{
    lemma_nearest, lemma_one_positive, lemma_round_overflow, lemma_rounds_bounded, lemma_units,
    lemma_units_increase, nearest, one, pattern, round_fraction, rounds_to, units, INFINITE,
};
use crate::text::{all_digits, digits_value, is_digit};

verus! {

/// Ten to the power `n`, or one where `n` is negative.
pub open spec fn ten(n: int) -> nat {
    if n >= 0 {
        pow(10, n as nat) as nat
    } else {
        1
    }
}

/// The numerator of `coefficient` times ten to the power `exponent`.
pub open spec fn decimal_num(coefficient: nat, exponent: int) -> nat {
    coefficient * ten(exponent)
}

/// The denominator that goes with [`decimal_num`].
pub open spec fn decimal_den(exponent: int) -> nat {
    ten(-exponent)
}

/// The magnitude nearest to `coefficient` times ten to the power `exponent`.
pub open spec fn decimal_magnitude(coefficient: nat, exponent: int) -> nat {
    nearest(decimal_num(coefficient, exponent), decimal_den(exponent))
}

pub proof fn lemma_ten(n: int)
    ensures
        ten(n) > 0,
        n >= 0 ==> ten(n) == pow(10, n as nat),
        n >= 0 ==> ten(n + 1) == 10 * ten(n),
{
    if n >= 0 {
        lemma_pow_positive(10, n as nat);
        lemma_pow_positive(10, (n + 1) as nat);
        lemma_pow_adds(10, 1, n as nat);
        lemma_pow1(10);
    }
}

proof fn lemma_pow_base(a: int, b: int, e: nat)
    requires
        0 < a <= b,
    ensures
        pow(a, e) <= pow(b, e),
    decreases e,
{
    if e == 0 {
        lemma_pow0(a);
        lemma_pow0(b);
    } else {
        let f = (e - 1) as nat;
        lemma_pow_base(a, b, f);
        lemma_pow_adds(a, 1, f);
        lemma_pow_adds(b, 1, f);
        lemma_pow1(a);
        lemma_pow1(b);
        lemma_pow_positive(a, f);
        let x = pow(a, f);
        let y = pow(b, f);
        assert(a * x <= b * y) by (nonlinear_arith)
            requires
                0 < a <= b,
                0 < x <= y,
        ;
    }
}

/// Ten to the power 400 is beyond every finite magnitude.
pub proof fn lemma_ten_400()
    ensures
        pow(10, 400) >= pow(2, 1300),
{
    lemma_pow_multiplies(10, 4, 100);
    lemma_pow_multiplies(2, 13, 100);
    assert(pow(10, 4) == 10000) by {
        reveal_with_fuel(pow, 5);
    }
    lemma2_to64();
    lemma_pow2(13);
    lemma_pow_base(8192, 10000, 100);
}

proof fn lemma_decimal_overflow(coefficient: nat, exponent: int)
    requires
        coefficient >= 1,
        exponent >= 400,
    ensures
        decimal_magnitude(coefficient, exponent) == INFINITE,
{
    let num = decimal_num(coefficient, exponent);
    lemma_ten(exponent);
    lemma_ten_400();
    lemma_pow_increases(10, 400, exponent as nat);
    let c = coefficient as int;
    let t = ten(exponent) as int;
    assert(c * t >= t) by (nonlinear_arith)
        requires
            c >= 1,
            t >= 0,
    ;
    lemma_pow_adds(2, 1300, 1074);
    lemma_one_positive();
    lemma_mul_inequality(pow(2, 1300), num as int, one() as int);
    lemma_pow_increases(2, 2098, 2374);
    lemma_pow_adds(2, 52, 2046);
    lemma2_to64();
    vstd::arithmetic::power2::lemma2_to64_rest();
    lemma_pow2(52);
    lemma_round_overflow(num, 1);
    lemma_nearest(num, 1, INFINITE as nat);
}

proof fn lemma_decimal_underflow(coefficient: nat, digits: nat, exponent: int)
    requires
        coefficient < pow(10, digits),
        exponent + digits <= -400,
    ensures
        decimal_magnitude(coefficient, exponent) == 0,
{
    reveal(rounds_to);
    let den = decimal_den(exponent);
    lemma_ten(-exponent);
    lemma_ten_400();
    lemma_pow_positive(10, digits);
    lemma_pow_positive(10, 400);
    lemma_pow_adds(10, digits, 400);
    lemma_pow_increases(10, digits + 400, (-exponent) as nat);
    lemma_pow_increases(2, 1075, 1300);
    lemma_pow_adds(2, 1, 1074);
    lemma_pow1(2);
    lemma_one_positive();
    let c = coefficient as int;
    let a = pow(10, digits);
    let b = pow(10, 400);
    let o = one() as int;
    assert(2 * c * o < a * b) by (nonlinear_arith)
        requires
            0 <= c < a,
            2 * o <= b,
            o > 0,
    ;
    lemma_mul_basics(c);
    lemma_units(0, 0);
    lemma_pow0(2);
    assert(pattern(0, 0) == 0) by (nonlinear_arith);
    assert(units(0) == 0);
    assert(units(1) == 1);
    lemma_mul_basics(den as int);
    assert(decimal_num(coefficient, exponent) == coefficient);
    lemma_nearest(coefficient, den, 0);
}

/// A run of digits is smaller than the power of ten of its length.
pub proof fn lemma_digits_bound(s: Seq<u8>)
    requires
        all_digits(s),
    ensures
        digits_value(s) < pow(10, s.len()),
    decreases s.len(),
{
    if s.len() == 0 {
        lemma_pow0(10);
    } else {
        let n = (s.len() - 1) as nat;
        assert(all_digits(s.drop_last())) by {
            assert forall|i: int| 0 <= i < s.drop_last().len() implies is_digit(
                #[trigger] s.drop_last()[i],
            ) by {
                assert(is_digit(s[i]));
            }
        }
        lemma_digits_bound(s.drop_last());
        lemma_pow_adds(10, n, 1);
        lemma_pow1(10);
        assert(is_digit(s[s.len() - 1]));
    }
}

/// What one more digit does to the number.
pub proof fn lemma_digits_push(s: Seq<u8>, i: int)
    requires
        0 <= i < s.len(),
    ensures
        digits_value(s.take(i + 1)) == digits_value(s.take(i)) * 10 + (s[i] - ZERO) as nat,
{
    assert(s.take(i + 1).drop_last() =~= s.take(i));
}

/// More digits never make a smaller number.
pub proof fn lemma_digits_grow(s: Seq<u8>, i: int)
    requires
        0 <= i <= s.len(),
    ensures
        digits_value(s.take(i)) <= digits_value(s),
    decreases s.len() - i,
{
    if i == s.len() {
        assert(s.take(i) =~= s);
    } else {
        lemma_digits_push(s, i);
        lemma_digits_grow(s, i + 1);
    }
}

/// Exponents beyond this are all alike.
const EXPONENT_CAP: u128 = 1_000_000_000_000_000_000_000_000_000_000;

/// The number that a run of digits stands for, up to a cap.
fn capped_number(digits: &[u8]) -> (n: u128)
    requires
        all_digits(digits@),
    ensures
        n <= EXPONENT_CAP,
        digits_value(digits@) <= EXPONENT_CAP ==> n == digits_value(digits@),
        digits_value(digits@) > EXPONENT_CAP ==> n == EXPONENT_CAP,
{
    let mut n: u128 = 0;
    let mut i: usize = 0;
    assert(digits@.take(0) =~= Seq::<u8>::empty());
    while i < digits.len()
        invariant
            i <= digits.len(),
            all_digits(digits@),
            n <= EXPONENT_CAP,
            n == digits_value(digits@.take(i as int)),
        decreases digits.len() - i,
    {
        let d: u8 = digits[i];
        assert(is_digit(digits@[i as int]));
        proof {
            lemma_digits_push(digits@, i as int);
            lemma_digits_grow(digits@, i + 1);
        }
        n = n * 10 + (d - ZERO) as u128;
        if n > EXPONENT_CAP {
            return EXPONENT_CAP;
        }
        i += 1;
    }
    assert(digits@.take(i as int) =~= digits@);
    n
}

/// Appends digits to a number.
fn read_digits(n: &mut BigNat, digits: &[u8], Ghost(before): Ghost<Seq<u8>>)
    requires
        all_digits(digits@),
        old(n)@ == digits_value(before),
    ensures
        final(n)@ == digits_value(before + digits@),
{
    let mut i: usize = 0;
    assert(before + digits@.take(0) =~= before);
    while i < digits.len()
        invariant
            i <= digits.len(),
            all_digits(digits@),
            n@ == digits_value(before + digits@.take(i as int)),
        decreases digits.len() - i,
    {
        let d: u8 = digits[i];
        assert(is_digit(digits@[i as int]));
        n.mul_add(10, (d - ZERO) as u32);
        i += 1;
        assert((before + digits@.take(i as int)).drop_last() =~= before + digits@.take(i - 1));
    }
    assert(digits@.take(i as int) =~= digits@);
}

/// The exponent that a run of digits with a sign stands for.
pub open spec fn exponent_value(minus: bool, digits: Seq<u8>) -> int {
    if minus {
        -(digits_value(digits) as int)
    } else {
        digits_value(digits) as int
    }
}

/// The magnitude nearest to a number in decimal notation, given as the digits
/// before the point, those after it, and the exponent.
pub fn read_decimal(whole: &[u8], part: &[u8], minus: bool, exponent: &[u8]) -> (r: u64)
    requires
        all_digits(whole@),
        all_digits(part@),
        all_digits(exponent@),
    ensures
        r <= INFINITE,
        r == decimal_magnitude(
            digits_value(whole@ + part@),
            exponent_value(minus, exponent@) - part@.len(),
        ),
{
    let ghost digits = whole@ + part@;
    let ghost coefficient = digits_value(digits);
    let ghost exact = exponent_value(minus, exponent@) - part@.len();
    let mut num = BigNat::zero();
    let ghost nothing = Seq::<u8>::empty();
    proof {
        assert(nothing + whole@ =~= whole@);
    }
    read_digits(&mut num, whole, Ghost(nothing));
    read_digits(&mut num, part, Ghost(whole@));
    let mut den = BigNat::from_u64(1);
    proof {
        assert(all_digits(digits)) by {
            assert forall|i: int| 0 <= i < digits.len() implies is_digit(#[trigger] digits[i]) by {
                if i < whole@.len() {
                    assert(is_digit(whole@[i]));
                } else {
                    assert(is_digit(part@[i - whole@.len()]));
                }
            }
        }
        lemma_digits_bound(digits);
        lemma_ten(exact);
        lemma_ten(-exact);
    }
    let size: u128 = capped_number(exponent);
    let count: i128 = whole.len() as i128 + part.len() as i128;
    let net: i128 = if minus {
        -(size as i128) - part.len() as i128
    } else {
        size as i128 - part.len() as i128
    };
    if num.is_zero() {
        proof {
            lemma_mul_basics(ten(exact) as int);
            lemma_zero_rounds(ten(-exact));
        }
        return 0;
    }
    if net >= 400 {
        proof {
            lemma_decimal_overflow(coefficient, exact);
        }
        return INFINITE;
    }
    if net + count <= -400 {
        proof {
            lemma_decimal_underflow(coefficient, digits.len(), exact);
        }
        return 0;
    }
    assert(net == exact);
    proof {
        lemma_pow0(10);
    }
    if net >= 0 {
        num.scale_ten(net as u128);
    } else {
        den.scale_ten((-net) as u128);
        proof {
            lemma_mul_basics(num@ as int);
            lemma_mul_basics(ten(-exact) as int);
        }
    }
    round(&num, &den)
}

fn round(num: &BigNat, den: &BigNat) -> (r: u64)
    requires
        den@ > 0,
    ensures
        r == nearest(num@, den@),
        r <= INFINITE,
{
    let r: u64 = round_fraction(num, den);
    proof {
        lemma_rounds_bounded(num@, den@, r as nat);
    }
    r
}

proof fn lemma_zero_rounds(den: nat)
    requires
        den > 0,
    ensures
        nearest(0, den) == 0,
{
    reveal(rounds_to);
    lemma_units_increase(0, 1);
    lemma_mul_strictly_positive((units(0) + units(1)) as int, den as int);
    lemma_mul_basics(one() as int);
    lemma_nearest(0, den, 0);
}

} // verus!
