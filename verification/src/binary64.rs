//! Binary floating point numbers in the 64-bit interchange format.
//!
//! A number is held as its bit pattern. Every finite magnitude is a whole
//! multiple of the smallest positive one, so a magnitude is described here by
//! how many of these units it holds, and rounding a fraction means picking the
//! magnitude that is nearest to it, the even one when two are equally near.

use vstd::arithmetic::mul::*;
use vstd::arithmetic::power::*;
use vstd::arithmetic::power2::{lemma2_to64, lemma2_to64_rest, lemma_pow2};
use vstd::prelude::*;

use crate::bignat::BigNat;

verus! {

/// The bit pattern of positive infinity; finite magnitudes lie below it.
pub const INFINITE: u64 = 0x7ff0_0000_0000_0000;

/// The bit that marks a negative number.
pub const SIGN: u64 = 0x8000_0000_0000_0000;

/// How many magnitudes share one exponent.
pub const FRACTION: u64 = 0x10_0000_0000_0000;

/// A 64-bit binary floating point number.
#[derive(Debug, Clone, Copy)]
pub struct Binary64 {
    bits: u64,
}

/// How many units the magnitude with the given bit pattern holds.
///
/// The pattern of infinity gets the value that the next exponent would have.
pub open spec fn units(magnitude: nat) -> nat {
    let exponent = magnitude / (FRACTION as nat);
    let fraction = magnitude % (FRACTION as nat);
    if exponent == 0 {
        fraction
    } else {
        ((FRACTION + fraction) * pow(2, (exponent - 1) as nat)) as nat
    }
}

/// The number one, counted in units.
pub open spec fn one() -> nat {
    pow(2, 1074) as nat
}

/// Whether `magnitude` is the one nearest to the fraction `num / den`.
///
/// The fraction lies between the two points half way to the neighbours. On
/// such a point the magnitude whose last bit is zero wins.
#[verifier::opaque]
pub open spec fn rounds_to(num: nat, den: nat, magnitude: nat) -> bool {
    let twice = 2 * num * one();
    let even = magnitude % 2 == 0;
    &&& magnitude <= INFINITE
    &&& magnitude > 0 ==> {
        let half_way = (units((magnitude - 1) as nat) + units(magnitude)) * den;
        half_way < twice || (even && half_way == twice)
    }
    &&& magnitude < INFINITE ==> {
        let half_way = (units(magnitude) + units(magnitude + 1)) * den;
        twice < half_way || (even && half_way == twice)
    }
}

/// The magnitude nearest to the fraction `num / den`.
pub open spec fn nearest(num: nat, den: nat) -> nat {
    choose|magnitude: nat| rounds_to(num, den, magnitude)
}

pub proof fn lemma_fraction()
    ensures
        pow(2, 52) == FRACTION,
        pow(2, 53) == 2 * FRACTION,
{
    lemma2_to64();
    lemma2_to64_rest();
    lemma_pow2(52);
    lemma_pow2(53);
}

pub proof fn lemma_one_positive()
    ensures
        one() > 0,
        one() == pow(2, 1074),
{
    lemma_pow_positive(2, 1074);
}

/// The bit pattern of the magnitude with the given exponent and significand.
pub open spec fn pattern(shift: nat, significand: nat) -> nat {
    shift * (FRACTION as nat) + significand
}

/// A magnitude made of a significand and an exponent.
pub proof fn lemma_units(shift: nat, significand: nat)
    requires
        significand < 2 * FRACTION,
        shift == 0 || significand >= FRACTION,
    ensures
        units(pattern(shift, significand)) == significand * pow(2, shift),
        units(pattern(shift, significand) + 1) == (significand + 1) * pow(2, shift),
{
    let f = FRACTION as nat;
    lemma_pow_positive(2, shift);
    lemma_pow0(2);
    assert forall|q: nat| q < 2 * f && (shift == 0 || q >= f) implies #[trigger] units(shift * f + q)
        == q * pow(2, shift) by {
        let k = shift * f + q;
        if q < f {
            assert(k / f == 0);
            assert(k % f == q);
        } else {
            assert(k == (shift + 1) * f + (q - f)) by (nonlinear_arith)
                requires
                    k == shift * f + q,
            ;
            vstd::arithmetic::div_mod::lemma_fundamental_div_mod_converse(
                k as int,
                f as int,
                (shift + 1) as int,
                q - f,
            );
        }
        lemma_mul_nonnegative(q as int, pow(2, shift));
    }
    if significand + 1 == 2 * f {
        let k = shift * f + significand + 1;
        assert(k == (shift + 2) * f + 0) by (nonlinear_arith)
            requires
                k == shift * f + 2 * f,
        ;
        vstd::arithmetic::div_mod::lemma_fundamental_div_mod_converse(
            k as int,
            f as int,
            (shift + 2) as int,
            0,
        );
        lemma_pow_adds(2, shift, 1);
        lemma_pow1(2);
        let p = pow(2, shift);
        assert(f * (p * 2) == (2 * f) * p) by (nonlinear_arith);
        lemma_mul_nonnegative(f as int, pow(2, shift + 1));
    } else {
        assert(shift * f + significand + 1 == shift * f + (significand + 1));
    }
}

/// The significand and exponent of a magnitude.
pub open spec fn parts(magnitude: nat) -> (nat, nat) {
    let exponent = magnitude / (FRACTION as nat);
    let shift = if exponent == 0 {
        0
    } else {
        (exponent - 1) as nat
    };
    (shift, (magnitude - shift * FRACTION) as nat)
}

pub proof fn lemma_parts(magnitude: nat)
    ensures
        ({
            let (shift, significand) = parts(magnitude);
            &&& significand < 2 * FRACTION
            &&& shift == 0 || significand >= FRACTION
            &&& magnitude == pattern(shift, significand)
            &&& units(magnitude) == significand * pow(2, shift)
            &&& units(magnitude + 1) == (significand + 1) * pow(2, shift)
        }),
{
    let f = FRACTION as int;
    let (shift, significand) = parts(magnitude);
    let e = magnitude as int / f;
    vstd::arithmetic::div_mod::lemma_fundamental_div_mod(magnitude as int, f);
    if e > 0 {
        assert(magnitude - shift * f == f + magnitude % (f as nat)) by (nonlinear_arith)
            requires
                magnitude as int == f * e + magnitude % (f as nat),
                shift == e - 1,
        ;
    }
    lemma_units(shift, significand);
}

/// Larger bit patterns hold more units.
pub proof fn lemma_units_increase(a: nat, b: nat)
    requires
        a < b,
    ensures
        units(a) < units(b),
    decreases b - a,
{
    let m = (b - 1) as nat;
    lemma_parts(m);
    let (shift, significand) = parts(m);
    lemma_pow_positive(2, shift);
    let p = pow(2, shift);
    assert((significand + 1) * p == significand * p + p) by (nonlinear_arith);
    if a < m {
        lemma_units_increase(a, m);
    }
}

/// At most one magnitude is nearest to a fraction.
pub proof fn lemma_nearest_unique(num: nat, den: nat, a: nat, b: nat)
    requires
        den > 0,
        rounds_to(num, den, a),
        rounds_to(num, den, b),
    ensures
        a == b,
{
    lemma_nearest_order(num, den, a, b);
    lemma_nearest_order(num, den, b, a);
}

proof fn lemma_nearest_order(num: nat, den: nat, a: nat, b: nat)
    requires
        den > 0,
        rounds_to(num, den, a),
        rounds_to(num, den, b),
    ensures
        b <= a,
{
    reveal(rounds_to);
    if a + 1 < b {
        let above = units(a) + units(a + 1);
        let below = units((b - 1) as nat) + units(b);
        lemma_units_increase(a, (b - 1) as nat);
        lemma_units_increase(a + 1, b);
        lemma_mul_strict_inequality(above as int, below as int, den as int);
    }
}

/// The named magnitude is the one that was found.
pub proof fn lemma_nearest(num: nat, den: nat, magnitude: nat)
    requires
        den > 0,
        rounds_to(num, den, magnitude),
    ensures
        nearest(num, den) == magnitude,
{
    lemma_nearest_unique(num, den, nearest(num, den), magnitude);
}

/// The largest magnitude up to `limit` that is not above a fraction.
proof fn lemma_floor(num: nat, den: nat, limit: nat) -> (m: nat)
    ensures
        m <= limit,
        units(m) * den <= num * one(),
        m < limit ==> num * one() < units(m + 1) * den,
    decreases limit,
{
    if limit == 0 {
        lemma_mul_basics(den as int);
        lemma_mul_nonnegative(num as int, one() as int);
        0
    } else {
        let m = lemma_floor(num, den, (limit - 1) as nat);
        if m == limit - 1 && units(limit) * den <= num * one() {
            limit
        } else {
            m
        }
    }
}

/// There is a magnitude nearest to every fraction.
pub proof fn lemma_rounds_exists(num: nat, den: nat)
    requires
        den > 0,
    ensures
        rounds_to(num, den, nearest(num, den)),
{
    let m = lemma_floor(num, den, INFINITE as nat);
    reveal(rounds_to);
    let d = den as int;
    let x = (num * one()) as int;
    assert(2 * num * one() == 2 * x) by (nonlinear_arith)
        requires
            x == num * one(),
    ;
    if m > 0 {
        lemma_units_increase((m - 1) as nat, m);
        lemma_mul_strict_inequality(units((m - 1) as nat) as int, units(m) as int, d);
        lemma_mul_is_distributive_add_other_way(
            d,
            units((m - 1) as nat) as int,
            units(m) as int,
        );
    }
    if m < INFINITE {
        lemma_mul_is_distributive_add_other_way(d, units(m) as int, units(m + 1) as int);
        lemma_units_increase(m + 1, m + 2);
        lemma_mul_strict_inequality(units(m + 1) as int, units(m + 2) as int, d);
        lemma_mul_is_distributive_add_other_way(d, units(m + 1) as int, units(m + 2) as int);
        let half_way = (units(m) + units(m + 1)) * den;
        if 2 * x < half_way || (2 * x == half_way && m % 2 == 0) {
            assert(rounds_to(num, den, m));
        } else {
            assert(rounds_to(num, den, m + 1));
        }
    } else {
        assert(rounds_to(num, den, m));
    }
}

/// A larger fraction is never rounded to a smaller magnitude.
pub proof fn rounding_is_monotonic(num: nat, den: nat, a: nat, other: nat, part: nat, b: nat)
    requires
        den > 0,
        part > 0,
        num * part <= other * den,
        rounds_to(num, den, a),
        rounds_to(other, part, b),
    ensures
        a <= b,
{
    reveal(rounds_to);
    if b < a {
        let low = (units((a - 1) as nat) + units(a)) as int;
        let high = (units(b) + units(b + 1)) as int;
        if b < a - 1 {
            lemma_units_increase(b, (a - 1) as nat);
            lemma_units_increase(b + 1, a);
        }
        let o = one() as int;
        let (n, d, k, p) = (num as int, den as int, other as int, part as int);
        assert(low * d * p <= 2 * n * o * p) by (nonlinear_arith)
            requires
                low * d <= 2 * n * o,
                p > 0,
        ;
        assert(2 * k * o * d <= high * p * d) by (nonlinear_arith)
            requires
                2 * k * o <= high * p,
                d > 0,
        ;
        lemma_one_positive();
        assert(2 * n * o * p <= 2 * k * o * d) by (nonlinear_arith)
            requires
                n * p <= k * d,
                o > 0,
        ;
        assert(low * d * p >= high * p * d) by (nonlinear_arith)
            requires
                low >= high,
                d > 0,
                p > 0,
        ;
        if b < a - 1 {
            assert(low * d * p > high * p * d) by (nonlinear_arith)
                requires
                    low > high,
                    d > 0,
                    p > 0,
            ;
        } else {
            if low * d < 2 * n * o {
                assert(low * d * p < 2 * n * o * p) by (nonlinear_arith)
                    requires
                        low * d < 2 * n * o,
                        p > 0,
                ;
            }
            if 2 * k * o < high * p {
                assert(2 * k * o * d < high * p * d) by (nonlinear_arith)
                    requires
                        2 * k * o < high * p,
                        d > 0,
                ;
            }
        }
    }
}

/// Multiplying both parts of a fraction changes nothing about its rounding.
pub proof fn lemma_rounds_scaled(num: nat, den: nat, factor: nat, magnitude: nat)
    requires
        factor > 0,
    ensures
        rounds_to(num * factor, den * factor, magnitude) == rounds_to(num, den, magnitude),
{
    reveal(rounds_to);
    let twice = (2 * num * one()) as int;
    let f = factor as int;
    let o = one() as int;
    let n = num as int;
    assert(2 * (n * f) * o == (2 * n * o) * f) by (nonlinear_arith);
    if magnitude > 0 {
        let u = (units((magnitude - 1) as nat) + units(magnitude)) as int;
        lemma_scaled_order(u, den as int, f, twice);
    }
    if magnitude < INFINITE {
        let u = (units(magnitude) + units(magnitude + 1)) as int;
        lemma_scaled_order(u, den as int, f, twice);
    }
}

proof fn lemma_scaled_order(u: int, den: int, f: int, t: int)
    requires
        f > 0,
    ensures
        u * (den * f) < t * f <==> u * den < t,
        u * (den * f) == t * f <==> u * den == t,
{
    lemma_mul_is_associative(u, den, f);
    if u * den < t {
        lemma_mul_strict_inequality(u * den, t, f);
    } else if u * den > t {
        lemma_mul_strict_inequality(t, u * den, f);
    }
}

/// From a quotient with its remainder to the nearest magnitude.
proof fn lemma_round_quotient(
    num: nat,
    den: nat,
    shift: nat,
    quotient: nat,
    rest: nat,
    whole: nat,
)
    requires
        den > 0,
        rest < whole,
        quotient < 2 * FRACTION,
        shift == 0 || quotient >= FRACTION,
        shift <= 2045,
        (num * one()) * whole == (den * pow(2, shift)) * (quotient * whole + rest),
    ensures
        2 * rest < whole || (2 * rest == whole && quotient % 2 == 0) ==> rounds_to(
            num,
            den,
            pattern(shift, quotient),
        ),
        2 * rest > whole || (2 * rest == whole && quotient % 2 == 1) ==> rounds_to(
            num,
            den,
            pattern(shift, quotient) + 1,
        ),
{
    reveal(rounds_to);
    let k = pattern(shift, quotient);
    let p = pow(2, shift);
    let x = (num * one()) as int;
    let d = den as int;
    let q = quotient as int;
    let r = rest as int;
    let w = whole as int;
    lemma_pow_positive(2, shift);
    lemma_units(shift, quotient);
    assert(k % 2 == quotient % 2) by {
        assert(shift * FRACTION == 2 * (shift * 0x8_0000_0000_0000)) by (nonlinear_arith);
    }
    assert(k + 1 <= INFINITE) by (nonlinear_arith)
        requires
            k == shift * 0x10_0000_0000_0000nat + quotient,
            shift <= 2045,
            quotient < 0x20_0000_0000_0000,
    ;
    let dp = d * p;
    assert(dp > 0) by (nonlinear_arith)
        requires
            d > 0,
            p > 0,
            dp == d * p,
    ;
    // the fraction lies at or above the quotient and below the next step
    assert(q * p * d <= x && x < (q + 1) * p * d) by (nonlinear_arith)
        requires
            x * w == dp * (q * w + r),
            dp == d * p,
            0 <= r < w,
            dp > 0,
    ;
    // where it lies relative to the half-way point
    let middle = (q * p + (q + 1) * p) * d;
    assert(middle == (2 * q + 1) * dp) by (nonlinear_arith)
        requires
            dp == d * p,
            middle == (q * p + (q + 1) * p) * d,
    ;
    assert(middle * w == dp * (2 * (q * w) + w)) by (nonlinear_arith)
        requires
            middle == (2 * q + 1) * dp,
    ;
    assert(dp * (2 * (q * w) + w) - 2 * (dp * (q * w + r)) == dp * (w - 2 * r)) by (nonlinear_arith);
    assert(2 * x * w == 2 * (x * w)) by (nonlinear_arith);
    if 2 * r < w {
        assert(middle > 2 * x) by (nonlinear_arith)
            requires
                middle * w - 2 * x * w == dp * (w - 2 * r),
                2 * r < w,
                dp > 0,
                w > 0,
        ;
    } else if 2 * r > w {
        assert(middle < 2 * x) by (nonlinear_arith)
            requires
                middle * w - 2 * x * w == dp * (w - 2 * r),
                2 * r > w,
                dp > 0,
                w > 0,
        ;
    } else {
        assert(middle == 2 * x) by (nonlinear_arith)
            requires
                middle * w - 2 * x * w == dp * (w - 2 * r),
                2 * r == w,
                w > 0,
        ;
    }
    assert(2 * num * one() == 2 * x) by (nonlinear_arith)
        requires
            x == num * one(),
    ;
    if k > 0 {
        lemma_units_increase((k - 1) as nat, k);
        let u0 = units((k - 1) as nat) as int;
        let u1 = q * p;
        assert((u0 + u1) * d < 2 * x) by (nonlinear_arith)
            requires
                u0 + 1 <= u1,
                u1 * d <= x,
                d > 0,
        ;
    }
    if k + 1 < INFINITE {
        lemma_units_increase(k + 1, k + 2);
        let u2 = units(k + 2) as int;
        let u1 = (q + 1) * p;
        assert(2 * x < (u1 + u2) * d) by (nonlinear_arith)
            requires
                u1 + 1 <= u2,
                x < u1 * d,
                d > 0,
        ;
    }
}

/// A fraction of at least two to the power 1024 is rounded to infinity.
pub proof fn lemma_round_overflow(num: nat, den: nat)
    requires
        den > 0,
        num * one() >= den * (FRACTION * pow(2, 2046)),
    ensures
        rounds_to(num, den, INFINITE as nat),
{
    reveal(rounds_to);
    let k = INFINITE as nat;
    assert(k == 2046 * FRACTION + FRACTION);
    lemma_units(2046, FRACTION as nat);
    lemma_units_increase((k - 1) as nat, k);
    let u0 = units((k - 1) as nat) as int;
    let u1 = units(k) as int;
    let x = (num * one()) as int;
    let d = den as int;
    assert((u0 + u1) * d < 2 * x) by (nonlinear_arith)
        requires
            u0 + 1 <= u1,
            x >= d * u1,
            d > 0,
    ;
    assert(2 * num * one() == 2 * x) by (nonlinear_arith)
        requires
            x == num * one(),
    ;
}

/// A fraction below two to the power 1000 is rounded to a finite magnitude.
pub proof fn lemma_rounds_finite(num: nat, den: nat, m: nat)
    requires
        den > 0,
        num <= den * pow(2, 1000),
        rounds_to(num, den, m),
    ensures
        m < INFINITE,
{
    reveal(rounds_to);
    if m == INFINITE {
        let f = FRACTION as nat;
        let k = INFINITE as nat;
        assert(pattern(2046, f) == k);
        lemma_units(2046, f);
        lemma_fraction();
        lemma_one_positive();
        lemma_pow_adds(2, 52, 2046);
        lemma_pow_adds(2, 1024, 1074);
        lemma_pow_adds(2, 1000, 24);
        lemma_pow_positive(2, 1000);
        assert(pow(2, 24) == 0x100_0000) by {
            lemma2_to64();
            lemma_pow2(24);
        }
        let u0 = units((k - 1) as nat) as int;
        let u1 = units(k) as int;
        let o = one() as int;
        let p = pow(2, 1000);
        let d = den as int;
        let n = num as int;
        assert(u1 == (p * 0x100_0000) * o);
        assert(2 * n * o < (u0 + u1) * d) by (nonlinear_arith)
            requires
                n <= d * p,
                u1 == (p * 0x100_0000) * o,
                u0 >= 0,
                p > 0,
                o > 0,
                d > 0,
        ;
    }
}

proof fn lemma_power_128(n: u128)
    ensures
        n < pow(2, 128),
        n <= 1 * pow(2, 1000),
{
    lemma2_to64();
    lemma_pow2(64);
    lemma_pow_adds(2, 64, 64);
    lemma_pow_increases(2, 128, 1000);
}

/// A whole number and the magnitude nearest to it are off by a factor of two
/// at most.
pub proof fn lemma_whole_bounds(n: nat, m: nat)
    requires
        rounds_to(n, 1, m),
        m < INFINITE,
    ensures
        units(m) <= 2 * n * one(),
        n > 0 ==> m > 0 && n * one() <= 2 * units(m),
{
    reveal(rounds_to);
    lemma_one_positive();
    let o = one() as int;
    let k = n as int;
    lemma_pow0(2);
    lemma_units(0, 0);
    assert(pattern(0, 0) == 0);
    assert(2 * n * one() == 2 * (n * one())) by (nonlinear_arith);
    if n > 0 {
        assert(k * o >= 1) by (nonlinear_arith)
            requires
                k > 0,
                o > 0,
        ;
    }
    if m > 0 {
        let (s, sig) = parts(m);
        lemma_parts(m);
        lemma_pow_positive(2, s);
        let p = pow(2, s);
        lemma_mul_basics(p);
        if sig == 0 {
            assert(pattern(0, 0) == 0);
        }
        assert((sig + 1) * p <= 2 * (sig * p)) by (nonlinear_arith)
            requires
                sig >= 1,
                p > 0,
        ;
    }
}

/// A rounded fraction is at most infinite.
pub proof fn lemma_rounds_bounded(num: nat, den: nat, m: nat)
    requires
        rounds_to(num, den, m),
    ensures
        m <= INFINITE,
{
    reveal(rounds_to);
}

/// Rounds a fraction to the nearest magnitude.
pub fn round_fraction(num: &BigNat, den: &BigNat) -> (magnitude: u64)
    requires
        den@ > 0,
    ensures
        rounds_to(num@, den@, magnitude as nat),
        magnitude == nearest(num@, den@),
{
    let ghost top = num@ as int;
    let ghost bottom = den@ as int;
    let ghost unit = one() as int;
    let guess: usize = num.bit_count();
    let less: usize = den.bit_count();
    let mut shift: usize = if guess + 1021 > less {
        guess + 1021 - less
    } else {
        0
    };
    if shift > 2046 {
        shift = 2046;
    }
    // n / d is the fraction counted in units, divided by two to the power shift
    let mut n = num.copy();
    let mut d = den.copy();
    proof {
        lemma_one_positive();
    }
    if shift <= 1074 {
        n.shift_left(1074 - shift);
        proof {
            lemma_pow_adds(2, (1074 - shift) as nat, shift as nat);
            let a = pow(2, (1074 - shift) as nat);
            let b = pow(2, shift as nat);
            assert((top * a) * (bottom * b) == (top * (a * b)) * bottom) by (nonlinear_arith);
        }
    } else {
        d.shift_left(shift - 1074);
        proof {
            lemma_pow_adds(2, 1074, (shift - 1074) as nat);
            let a = pow(2, (shift - 1074) as nat);
            assert(top * (bottom * (unit * a)) == (top * unit) * (bottom * a)) by (nonlinear_arith);
            lemma_pow_positive(2, (shift - 1074) as nat);
            lemma_mul_strictly_positive(bottom, a);
        }
    }
    let mut limit = d.copy();
    limit.shift_left(53);
    proof {
        lemma_fraction();
    }
    while shift < 2046 && n.at_least(&limit)
        invariant
            top == num@,
            bottom == den@,
            unit == one(),
            bottom > 0,
            shift <= 2046,
            d@ > 0,
            limit@ == d@ * (2 * FRACTION),
            n@ * (bottom * pow(2, shift as nat)) == (top * unit) * d@,
        decreases 2046 - shift,
    {
        let ghost d0 = d@ as int;
        let ghost p0 = pow(2, shift as nat);
        d.mul_add(2, 0);
        limit.mul_add(2, 0);
        shift += 1;
        proof {
            lemma_pow_adds(2, (shift - 1) as nat, 1);
            lemma_pow1(2);
            let n0 = n@ as int;
            assert((d0 * 2) * (2 * FRACTION) == (d0 * (2 * FRACTION)) * 2) by (nonlinear_arith);
            assert(n0 * (bottom * (p0 * 2)) == (top * unit) * (d0 * 2)) by (nonlinear_arith)
                requires
                    n0 * (bottom * p0) == (top * unit) * d0,
            ;
        }
    }
    let mut floor = d.copy();
    floor.shift_left(52);
    while shift > 0 && !n.at_least(&floor)
        invariant
            top == num@,
            bottom == den@,
            unit == one(),
            bottom > 0,
            shift <= 2046,
            d@ > 0,
            floor@ == d@ * FRACTION,
            limit@ == d@ * (2 * FRACTION),
            n@ * (bottom * pow(2, shift as nat)) == (top * unit) * d@,
            shift < 2046 ==> n@ < limit@,
        decreases shift,
    {
        let ghost n0 = n@ as int;
        n.mul_add(2, 0);
        shift -= 1;
        proof {
            lemma_pow_adds(2, shift as nat, 1);
            lemma_pow1(2);
            let p = pow(2, shift as nat);
            let d0 = d@ as int;
            assert((n0 * 2) * (bottom * p) == (top * unit) * d0) by (nonlinear_arith)
                requires
                    n0 * (bottom * (p * 2)) == (top * unit) * d0,
            ;
            assert(d0 * (2 * FRACTION) == 2 * (d0 * FRACTION)) by (nonlinear_arith);
        }
    }
    let ghost p = pow(2, shift as nat);
    if shift == 2046 {
        proof {
            let n0 = n@ as int;
            let d0 = d@ as int;
            lemma_pow_positive(2, 2046);
            let x = top * unit;
            assert(x >= bottom * (FRACTION * p)) by (nonlinear_arith)
                requires
                    n0 * (bottom * p) == x * d0,
                    n0 >= d0 * FRACTION,
                    d0 > 0,
                    bottom > 0,
                    p > 0,
            ;
            lemma_round_overflow(num@, den@);
            lemma_nearest(num@, den@, INFINITE as nat);
        }
        return INFINITE;
    }
    // long division, one binary digit at a time
    let ghost n0 = n@ as int;
    let ghost w = limit@ as int;
    let mut quotient: u64 = 0;
    let mut i: u32 = 0;
    proof {
        lemma_pow0(2);
        lemma_mul_basics(w);
        lemma_mul_basics(n0);
    }
    while i < 53
        invariant
            i <= 53,
            w == limit@,
            n@ < w,
            quotient < pow(2, i as nat),
            pow(2, 53) == 2 * FRACTION,
            quotient * w + n@ == n0 * pow(2, i as nat),
        decreases 53 - i,
    {
        let ghost q0 = quotient as int;
        let ghost r0 = n@ as int;
        proof {
            lemma_pow_adds(2, i as nat, 1);
            lemma_pow1(2);
            lemma_pow_increases(2, (i + 1) as nat, 53);
            let p0 = pow(2, i as nat);
            assert((2 * q0) * w + 2 * r0 == n0 * (p0 * 2)) by (nonlinear_arith)
                requires
                    q0 * w + r0 == n0 * p0,
            ;
            assert((2 * q0 + 1) * w == (2 * q0) * w + w) by (nonlinear_arith);
        }
        n.mul_add(2, 0);
        quotient = quotient * 2;
        if n.at_least(&limit) {
            n.subtract(&limit);
            quotient = quotient + 1;
        }
        i += 1;
    }
    let ghost rest = n@ as int;
    n.mul_add(2, 0);
    let above: bool = !limit.at_least(&n);
    let reaches: bool = n.at_least(&limit);
    let base: u64 = shift as u64 * FRACTION;
    proof {
        let d0 = d@ as int;
        let q = quotient as int;
        let x = top * unit;
        assert(w == d0 * (2 * FRACTION));
        // undo the scaling of the divisor
        assert(x * w == (bottom * p) * (q * w + rest)) by (nonlinear_arith)
            requires
                n0 * (bottom * p) == x * d0,
                w == d0 * (2 * 0x10_0000_0000_0000),
                q * w + rest == n0 * (2 * 0x10_0000_0000_0000),
        ;
        if shift > 0 {
            assert(q >= 0x10_0000_0000_0000) by (nonlinear_arith)
                requires
                    n0 >= d0 * 0x10_0000_0000_0000,
                    w == d0 * (2 * 0x10_0000_0000_0000),
                    q * w + rest == n0 * (2 * 0x10_0000_0000_0000),
                    rest < w,
                    d0 > 0,
            ;
        }
        lemma_round_quotient(num@, den@, shift as nat, quotient as nat, rest as nat, w as nat);
    }
    assert(base + quotient + 1 <= INFINITE) by (nonlinear_arith)
        requires
            base == shift * 0x10_0000_0000_0000,
            shift <= 2045,
            quotient < 0x20_0000_0000_0000,
    ;
    let magnitude: u64 = if above || (reaches && quotient % 2 == 1) {
        base + quotient + 1
    } else {
        base + quotient
    };
    proof {
        lemma_nearest(num@, den@, magnitude as nat);
    }
    magnitude
}

/// Whether a bit pattern carries the minus sign.
pub open spec fn negative(bits: u64) -> bool {
    bits >= SIGN
}

/// A bit pattern without its sign.
pub open spec fn magnitude(bits: u64) -> nat {
    (bits % SIGN) as nat
}

/// Whether a bit pattern stands for a number rather than infinity or no number.
pub open spec fn finite(bits: u64) -> bool {
    magnitude(bits) < INFINITE
}

/// Whether a bit pattern stands for no number at all.
pub open spec fn not_a_number(bits: u64) -> bool {
    magnitude(bits) > INFINITE
}

/// The bit pattern with the given sign and magnitude.
pub open spec fn signed(minus: bool, magnitude: nat) -> u64 {
    if minus {
        (SIGN + magnitude) as u64
    } else {
        magnitude as u64
    }
}

/// Where a number stands in the order of numbers; both zeros stand at zero.
pub open spec fn rank(bits: u64) -> int {
    if negative(bits) {
        -(magnitude(bits) as int)
    } else {
        magnitude(bits) as int
    }
}

/// Numeric equality: the zeros are equal, and what is no number equals nothing.
pub open spec fn same_number(a: u64, b: u64) -> bool {
    !not_a_number(a) && !not_a_number(b) && rank(a) == rank(b)
}

/// Numeric order, which holds of nothing that is no number.
pub open spec fn below(a: u64, b: u64) -> bool {
    !not_a_number(a) && !not_a_number(b) && rank(a) < rank(b)
}

/// The product of two finite magnitudes, rounded.
pub open spec fn product(a: nat, b: nat) -> nat {
    nearest(units(a) * units(b), one() * one())
}

/// The quotient of two finite magnitudes, rounded.
pub open spec fn quotient(a: nat, b: nat) -> nat {
    nearest(units(a), units(b))
}

/// The smallest whole number that is not below a magnitude.
pub open spec fn ceiling(magnitude: nat) -> nat {
    ((units(magnitude) + one() - 1) / (one() as int)) as nat
}

impl View for Binary64 {
    type V = u64;

    closed spec fn view(&self) -> u64 {
        self.bits
    }
}

impl PartialEq for Binary64 {
    fn eq(&self, other: &Binary64) -> (r: bool) {
        let a: u64 = self.bits % SIGN;
        let b: u64 = other.bits % SIGN;
        a <= INFINITE && b <= INFINITE && (self.bits == other.bits || (a == 0 && b == 0))
    }
}

impl vstd::std_specs::cmp::PartialEqSpecImpl for Binary64 {
    open spec fn obeys_eq_spec() -> bool {
        true
    }

    open spec fn eq_spec(&self, other: &Binary64) -> bool {
        same_number(self@, other@)
    }
}

impl Binary64 {
    /// The number with the given bit pattern.
    pub fn from_bits(bits: u64) -> (r: Binary64)
        ensures
            r@ == bits,
    {
        Binary64 { bits }
    }

    /// The bit pattern of the number.
    pub fn to_bits(self) -> (bits: u64)
        ensures
            bits == self@,
    {
        self.bits
    }

    /// The number with the given sign and magnitude.
    pub fn with_sign(minus: bool, magnitude: u64) -> (r: Binary64)
        requires
            magnitude < SIGN,
        ensures
            r@ == signed(minus, magnitude as nat),
    {
        if minus {
            Binary64 { bits: SIGN + magnitude }
        } else {
            Binary64 { bits: magnitude }
        }
    }

    /// The number nearest to a whole number.
    pub fn from_u128(n: u128) -> (r: Binary64)
        ensures
            r@ == nearest(n as nat, 1),
            rounds_to(n as nat, 1, magnitude(r@)),
            finite(r@),
            !negative(r@),
    {
        let bits: u64 = round_fraction(&BigNat::from_u128(n), &BigNat::from_u64(1));
        proof {
            lemma_power_128(n);
            lemma_rounds_finite(n as nat, 1, bits as nat);
        }
        Binary64 { bits }
    }

    /// The number nearest to a signed whole number.
    pub fn from_i64(n: i64) -> (r: Binary64)
        ensures
            r@ == signed(n < 0, nearest(if n < 0 { -n } else { n as int } as nat, 1)),
    {
        let size: u64 = if n >= 0 {
            n as u64
        } else if n == i64::MIN {
            SIGN
        } else {
            (-n) as u64
        };
        let r = Binary64::from_u128(size as u128);
        Binary64::with_sign(n < 0, r.bits)
    }

    /// Whether the number is negative or the negative zero.
    pub fn is_negative(self) -> (r: bool)
        ensures
            r == negative(self@),
    {
        self.bits >= SIGN
    }

    /// The bit pattern without the sign.
    pub fn magnitude(self) -> (r: u64)
        ensures
            r == magnitude(self@),
            r < SIGN,
    {
        self.bits % SIGN
    }

    /// Whether this stands for no number.
    pub fn is_nan(self) -> (r: bool)
        ensures
            r == not_a_number(self@),
    {
        self.bits % SIGN > INFINITE
    }

    /// Whether this is neither infinite nor no number.
    pub fn is_finite(self) -> (r: bool)
        ensures
            r == finite(self@),
    {
        self.bits % SIGN < INFINITE
    }

    /// Whether this number is less than another.
    pub fn is_below(self, other: Binary64) -> (r: bool)
        ensures
            r == below(self@, other@),
    {
        let a: u64 = self.bits % SIGN;
        let b: u64 = other.bits % SIGN;
        if a > INFINITE || b > INFINITE {
            return false;
        }
        if self.bits >= SIGN {
            if other.bits >= SIGN {
                a > b
            } else {
                a > 0 || b > 0
            }
        } else if other.bits >= SIGN {
            false
        } else {
            a < b
        }
    }

    /// The exponent and the significand of the magnitude.
    pub fn split(self) -> (r: (u64, u64))
        requires
            finite(self@),
        ensures
            (r.0 as nat, r.1 as nat) == parts(magnitude(self@)),
            r.0 <= 2045,
            r.1 < 2 * FRACTION,
            r.0 == 0 || r.1 >= FRACTION,
            units(magnitude(self@)) == r.1 * pow(2, r.0 as nat),
    {
        let m: u64 = self.bits % SIGN;
        let exponent: u64 = m / FRACTION;
        let shift: u64 = if exponent == 0 {
            0
        } else {
            exponent - 1
        };
        proof {
            lemma_parts(m as nat);
        }
        (shift, m - shift * FRACTION)
    }

    /// The rounded quotient of two finite numbers that carry no sign.
    pub fn divide(self, other: Binary64) -> (r: Binary64)
        requires
            finite(self@),
            finite(other@),
            magnitude(other@) > 0,
        ensures
            r@ == quotient(magnitude(self@), magnitude(other@)),
            rounds_to(units(magnitude(self@)), units(magnitude(other@)), magnitude(r@)),
            !negative(r@),
    {
        let (sa, a) = self.split();
        let (sb, b) = other.split();
        let mut num = BigNat::from_u64(a);
        let mut den = BigNat::from_u64(b);
        let ghost common = pow(2, if sa >= sb { sb as nat } else { sa as nat });
        proof {
            lemma_pow_positive(2, if sa >= sb { sb as nat } else { sa as nat });
            lemma_units_increase(0, magnitude(other@));
            lemma_mul_basics(pow(2, sb as nat));
            assert(b > 0);
        }
        if sa >= sb {
            num.shift_left((sa - sb) as usize);
            proof {
                let p = pow(2, (sa - sb) as nat);
                lemma_pow_adds(2, (sa - sb) as nat, sb as nat);
                lemma_mul_is_associative(a as int, p, common);
            }
        } else {
            den.shift_left((sb - sa) as usize);
            proof {
                let p = pow(2, (sb - sa) as nat);
                lemma_pow_positive(2, (sb - sa) as nat);
                lemma_mul_strictly_positive(b as int, p);
                lemma_pow_adds(2, (sb - sa) as nat, sa as nat);
                lemma_mul_is_associative(b as int, p, common);
            }
        }
        let bits: u64 = round_fraction(&num, &den);
        proof {
            lemma_rounds_bounded(num@, den@, bits as nat);
            lemma_rounds_scaled(num@, den@, common as nat, bits as nat);
            lemma_nearest(units(magnitude(self@)), units(magnitude(other@)), bits as nat);
        }
        Binary64 { bits }
    }

    /// The rounded product of two finite numbers that carry no sign.
    pub fn multiply(self, other: Binary64) -> (r: Binary64)
        requires
            finite(self@),
            finite(other@),
        ensures
            r@ == product(magnitude(self@), magnitude(other@)),
            rounds_to(
                units(magnitude(self@)) * units(magnitude(other@)),
                one() * one(),
                magnitude(r@),
            ),
            !negative(r@),
    {
        let (sa, a) = self.split();
        let (sb, b) = other.split();
        let total: u64 = sa + sb;
        assert(a as u128 * b as u128 <= 0x20_0000_0000_0000 * 0x20_0000_0000_0000)
            by (nonlinear_arith)
            requires
                a < 0x20_0000_0000_0000,
                b < 0x20_0000_0000_0000,
        ;
        let mut num = BigNat::from_u128(a as u128 * b as u128);
        let mut den = BigNat::from_u64(1);
        let ghost common = pow(2, if total >= 2148 { 2148 } else { total as nat });
        proof {
            lemma_pow_positive(2, if total >= 2148 { 2148 } else { total as nat });
            lemma_pow_adds(2, 1074, 1074);
            lemma_one_positive();
            lemma_pow_adds(2, sa as nat, sb as nat);
            let pa = pow(2, sa as nat);
            let pb = pow(2, sb as nat);
            assert((a * pa) * (b * pb) == (a * b) * (pa * pb)) by (nonlinear_arith);
        }
        if total >= 2148 {
            num.shift_left((total - 2148) as usize);
            proof {
                lemma_pow_adds(2, (total - 2148) as nat, 2148);
                lemma_mul_is_associative(a * b, pow(2, (total - 2148) as nat), common);
            }
        } else {
            den.shift_left((2148 - total) as usize);
            proof {
                lemma_pow_positive(2, (2148 - total) as nat);
                lemma_pow_adds(2, (2148 - total) as nat, total as nat);
                lemma_mul_basics(pow(2, (2148 - total) as nat));
            }
        }
        let bits: u64 = round_fraction(&num, &den);
        proof {
            lemma_rounds_bounded(num@, den@, bits as nat);
            lemma_rounds_scaled(num@, den@, common as nat, bits as nat);
            lemma_mul_strictly_positive(one() as int, one() as int);
            lemma_nearest(
                units(magnitude(self@)) * units(magnitude(other@)),
                one() * one(),
                bits as nat,
            );
        }
        Binary64 { bits }
    }
}

proof fn lemma_ceiling(m: nat, n: nat)
    requires
        units(m) <= n * one(),
        n * one() < units(m) + one(),
    ensures
        ceiling(m) == n,
{
    lemma_one_positive();
    vstd::arithmetic::div_mod::lemma_fundamental_div_mod_converse(
        units(m) + one() - 1,
        one() as int,
        n as int,
        units(m) + one() - 1 - n * one(),
    );
}

/// Multiplies by two a given number of times.
pub fn double_times(n: u64, times: u64) -> (r: u128)
    requires
        times <= 64,
    ensures
        r == n * pow(2, times as nat),
{
    let mut r: u128 = n as u128;
    let mut i: u64 = 0;
    proof {
        lemma_pow0(2);
        lemma_mul_basics(n as int);
    }
    while i < times
        invariant
            i <= times,
            times <= 64,
            r == n * pow(2, i as nat),
        decreases times - i,
    {
        proof {
            lemma2_to64();
            lemma2_to64_rest();
            lemma_pow2(63);
            lemma_pow_increases(2, i as nat, 63);
            lemma_pow_positive(2, i as nat);
            let p = pow(2, i as nat);
            assert(n * p <= 0xffff_ffff_ffff_ffff * 0x8000_0000_0000_0000) by (nonlinear_arith)
                requires
                    n <= 0xffff_ffff_ffff_ffff,
                    0 <= p <= 0x8000_0000_0000_0000,
            ;
            lemma_pow_adds(2, i as nat, 1);
            lemma_pow1(2);
            lemma_mul_is_associative(n as int, p, 2);
        }
        r = r * 2;
        i += 1;
    }
    r
}

impl Binary64 {
    /// The smallest whole number that is not below this one, the sign left
    /// aside; the largest `u64` where that is too large.
    pub fn ceiling(self) -> (r: u64)
        requires
            finite(self@),
        ensures
            r == if ceiling(magnitude(self@)) <= u64::MAX {
                ceiling(magnitude(self@))
            } else {
                u64::MAX as nat
            },
    {
        let (shift, significand) = self.split();
        let ghost m = magnitude(self@);
        proof {
            lemma_one_positive();
        }
        if shift >= 1074 {
            let times: u64 = shift - 1074;
            proof {
                lemma_pow_adds(2, times as nat, 1074);
                let p = pow(2, times as nat);
                lemma_pow_positive(2, times as nat);
                lemma_mul_is_associative(significand as int, p, one() as int);
                lemma_mul_nonnegative(significand as int, p);
                lemma_ceiling(m, (significand * p) as nat);
            }
            if times >= 12 {
                proof {
                    lemma_pow_increases(2, 12, times as nat);
                    lemma2_to64();
                    lemma_pow2(12);
                    let p = pow(2, times as nat);
                    assert(significand * p >= 0x10_0000_0000_0000 * 0x1000) by (nonlinear_arith)
                        requires
                            significand >= 0x10_0000_0000_0000,
                            p >= 0x1000,
                    ;
                }
                return u64::MAX;
            }
            let n: u128 = double_times(significand, times);
            if n > u64::MAX as u128 {
                u64::MAX
            } else {
                n as u64
            }
        } else {
            let times: u64 = 1074 - shift;
            let ghost small = pow(2, shift as nat);
            let ghost step = pow(2, times as nat);
            proof {
                lemma_pow_positive(2, shift as nat);
                lemma_pow_positive(2, times as nat);
                lemma_pow_adds(2, times as nat, shift as nat);
            }
            if times > 64 {
                proof {
                    lemma_pow_increases(2, 64, times as nat);
                    lemma2_to64();
                    lemma_pow2(64);
                    let sig = significand as int;
                    assert(sig * small <= step * small) by (nonlinear_arith)
                        requires
                            sig <= step,
                            small >= 0,
                    ;
                    lemma_mul_basics(small);
                    if significand == 0 {
                        lemma_ceiling(m, 0);
                    } else {
                        assert(0 < sig * small) by (nonlinear_arith)
                            requires
                                sig > 0,
                                small > 0,
                        ;
                        lemma_ceiling(m, 1);
                    }
                }
                if significand == 0 {
                    0
                } else {
                    1
                }
            } else {
                let unit: u128 = double_times(1, times);
                proof {
                    lemma_mul_basics(step);
                    lemma2_to64();
                    lemma2_to64_rest();
                    lemma_pow2(64);
                    lemma_pow_increases(2, times as nat, 64);
                }
                let raised: u128 = significand as u128 + (unit - 1);
                let n: u128 = raised / unit;
                proof {
                    let sig = significand as int;
                    let u = unit as int;
                    let k = n as int;
                    vstd::arithmetic::div_mod::lemma_fundamental_div_mod(raised as int, u);
                    let rest = raised as int % u;
                    assert(sig <= k * u && k * u < sig + u) by (nonlinear_arith)
                        requires
                            sig + (u - 1) == u * k + rest,
                            0 <= rest < u,
                    ;
                    assert(sig * small <= k * (u * small) && k * (u * small) < sig * small + u
                        * small) by (nonlinear_arith)
                        requires
                            sig <= k * u,
                            k * u < sig + u,
                            small > 0,
                    ;
                    lemma_ceiling(m, n as nat);
                    assert(k <= raised) by (nonlinear_arith)
                        requires
                            k * u < sig + u,
                            u >= 1,
                            raised == sig + (u - 1),
                            sig >= 0,
                    ;
                }
                if n > u64::MAX as u128 {
                    u64::MAX
                } else {
                    n as u64
                }
            }
        }
    }

    /// The magnitude as a whole number, if it is one below ten to the power 16.
    pub fn small_integer(self) -> (r: Option<u64>)
        ensures
            match r {
                Some(n) => n < 10_000_000_000_000_000 && finite(self@) && units(magnitude(self@))
                    == n * one(),
                None => !finite(self@) || forall|n: nat|
                    n < 10_000_000_000_000_000 ==> units(magnitude(self@)) != #[trigger] (n * one()),
            },
    {
        if !self.is_finite() {
            return None;
        }
        let n: u64 = self.ceiling();
        proof {
            lemma_one_positive();
            lemma_ceiling_of_whole(magnitude(self@));
        }
        if n >= 10_000_000_000_000_000 {
            return None;
        }
        let (shift, significand) = self.split();
        if shift >= 1074 {
            proof {
                lemma_pow_adds(2, (shift - 1074) as nat, 1074);
                let p = pow(2, (shift - 1074) as nat);
                lemma_pow_positive(2, (shift - 1074) as nat);
                lemma_mul_is_associative(significand as int, p, one() as int);
                lemma_mul_nonnegative(significand as int, p);
                lemma_ceiling(magnitude(self@), (significand * p) as nat);
            }
            return Some(n);
        }
        let times: u64 = 1074 - shift;
        let ghost small = pow(2, shift as nat);
        let ghost step = pow(2, times as nat);
        proof {
            lemma_pow_positive(2, shift as nat);
            lemma_pow_positive(2, times as nat);
            lemma_pow_adds(2, times as nat, shift as nat);
        }
        if times > 64 {
            proof {
                lemma_pow_increases(2, 64, times as nat);
                lemma2_to64();
                lemma_pow2(64);
                let sig = significand as int;
                assert(sig * small < step * small) by (nonlinear_arith)
                    requires
                        sig < step,
                        small > 0,
                ;
                lemma_mul_basics(small);
                lemma_mul_basics(one() as int);
                if significand > 0 {
                    assert(0 < sig * small) by (nonlinear_arith)
                        requires
                            sig > 0,
                            small > 0,
                    ;
                    lemma_ceiling(magnitude(self@), 1);
                } else {
                    lemma_ceiling(magnitude(self@), 0);
                }
            }
            if significand == 0 {
                Some(n)
            } else {
                None
            }
        } else {
            let unit: u128 = double_times(1, times);
            proof {
                lemma_mul_basics(step);
                lemma2_to64();
                lemma2_to64_rest();
                lemma_pow2(64);
                lemma_pow_increases(2, times as nat, 64);
                let u = unit as int;
                let k = n as int;
                let sig = significand as int;
                lemma_mul_is_associative(k, step, small);
                if sig < k * u {
                    lemma_mul_strict_inequality(sig, k * u, small);
                } else if sig > k * u {
                    lemma_mul_strict_inequality(k * u, sig, small);
                }
                assert(k * u <= 10_000_000_000_000_000 * 0x1_0000_0000_0000_0000)
                    by (nonlinear_arith)
                    requires
                        0 <= k <= 10_000_000_000_000_000,
                        0 <= u <= 0x1_0000_0000_0000_0000,
                ;
            }
            if n as u128 * unit == significand as u128 {
                Some(n)
            } else {
                None
            }
        }
    }
}

/// A magnitude that is a whole number is its own ceiling.
proof fn lemma_ceiling_of_whole(m: nat)
    ensures
        forall|n: nat| units(m) == #[trigger] (n * one()) ==> ceiling(m) == n,
{
    lemma_one_positive();
    assert forall|n: nat| units(m) == #[trigger] (n * one()) implies ceiling(m) == n by {
        lemma_ceiling(m, n);
    }
}

/// The quotient of two whole numbers that are not huge is finite.
proof fn lemma_ratio_finite(a: nat, b: nat, ma: nat, mb: nat, x: nat)
    requires
        a <= u128::MAX,
        b > 0,
        units(ma) <= 2 * a * one(),
        b * one() <= 2 * units(mb),
        rounds_to(units(ma), units(mb), x),
    ensures
        x < INFINITE,
{
    lemma_one_positive();
    lemma2_to64();
    lemma_pow2(64);
    lemma_pow_adds(2, 64, 64);
    lemma_pow_adds(2, 128, 2);
    assert(pow(2, 2) == 4) by {
        reveal_with_fuel(pow, 3);
    }
    lemma_pow_increases(2, 130, 1000);
    let o = one() as int;
    let ua = units(ma) as int;
    let ub = units(mb) as int;
    let p = pow(2, 1000);
    let k = a as int;
    let j = b as int;
    assert(2 * ub >= o) by (nonlinear_arith)
        requires
            j * o <= 2 * ub,
            j >= 1,
            o > 0,
    ;
    assert(ua <= ub * p) by (nonlinear_arith)
        requires
            ua <= 2 * k * o,
            o <= 2 * ub,
            4 * k <= p,
            k >= 0,
            o > 0,
            ub > 0,
    ;
    lemma_rounds_finite(units(ma), units(mb), x);
}

/// The rounded quotient of two whole numbers, each rounded before.
pub fn ratio(a: u128, b: u64) -> (r: Binary64)
    requires
        b > 0,
    ensures
        r@ == quotient(nearest(a as nat, 1), nearest(b as nat, 1)),
        finite(r@),
        !negative(r@),
{
    let x = Binary64::from_u128(a);
    let y = Binary64::from_u128(b as u128);
    proof {
        lemma_whole_bounds(a as nat, magnitude(x@));
        lemma_whole_bounds(b as nat, magnitude(y@));
    }
    let r = x.divide(y);
    proof {
        lemma_ratio_finite(a as nat, b as nat, magnitude(x@), magnitude(y@), magnitude(r@));
    }
    r
}

/// A rounded fraction is less than twice as large.
proof fn lemma_rounds_upper(num: nat, den: nat, m: nat)
    requires
        rounds_to(num, den, m),
    ensures
        units(m) * den <= 2 * num * one(),
{
    reveal(rounds_to);
    lemma_pow0(2);
    lemma_units(0, 0);
    assert(pattern(0, 0) == 0);
    let d = den as int;
    if m > 0 {
        let u0 = units((m - 1) as nat) as int;
        let u = units(m) as int;
        assert(u * d <= (u0 + u) * d) by (nonlinear_arith)
            requires
                u0 >= 0,
                d >= 0,
        ;
    } else {
        assert(0 * d == 0) by (nonlinear_arith);
        lemma_mul_basics(d);
        assert(2 * num * one() >= 0) by (nonlinear_arith);
    }
}

/// The magnitude of the share of `part` in `total`, in percent.
pub open spec fn percentage(part: nat, total: nat) -> nat {
    quotient(product(nearest(part, 1), nearest(100, 1)), nearest(total, 1))
}

/// The share of `part` in `total`, in percent.
pub fn percentage_of(part: u64, total: u64) -> (r: Binary64)
    requires
        total > 0,
    ensures
        r@ == percentage(part as nat, total as nat),
        finite(r@),
        !negative(r@),
{
    let p = hundredfold(part);
    let y = Binary64::from_u128(total as u128);
    proof {
        lemma_whole_bounds(total as nat, magnitude(y@));
    }
    let r = p.divide(y);
    proof {
        lemma_percent_finite(part as nat, total as nat, magnitude(p@), magnitude(y@), magnitude(r@));
    }
    r
}

/// A hundred times a whole number.
fn hundredfold(n: u64) -> (p: Binary64)
    ensures
        p@ == product(nearest(n as nat, 1), nearest(100, 1)),
        finite(p@),
        !negative(p@),
        units(magnitude(p@)) <= 800 * (n as nat) * one(),
{
    let x = Binary64::from_u128(n as u128);
    let hundred = Binary64::from_u128(100);
    let p = x.multiply(hundred);
    proof {
        lemma_whole_bounds(n as nat, magnitude(x@));
        lemma_whole_bounds(100, magnitude(hundred@));
        lemma_percent_product(n as nat, magnitude(x@), magnitude(hundred@), magnitude(p@));
    }
    p
}

proof fn lemma_percent_product(n: nat, a: nat, c: nat, p: nat)
    requires
        n <= u64::MAX,
        units(a) <= 2 * n * one(),
        units(c) <= 2 * 100 * one(),
        rounds_to(units(a) * units(c), one() * one(), p),
    ensures
        p < INFINITE,
        units(p) <= 800 * n * one(),
{
    lemma_one_positive();
    let o = one() as int;
    let x = units(a) as int;
    let y = units(c) as int;
    let k = n as int;
    lemma_rounds_upper(units(a) * units(c), one() * one(), p);
    let u = units(p) as int;
    assert(x * y <= (400 * k) * (o * o)) by (nonlinear_arith)
        requires
            0 <= x <= 2 * k * o,
            0 <= y <= 200 * o,
            k >= 0,
            o > 0,
    ;
    assert(u <= 800 * k * o) by (nonlinear_arith)
        requires
            u * (o * o) <= 2 * (x * y) * o,
            x * y <= (400 * k) * (o * o),
            o > 0,
    ;
    lemma_small_power();
    let w = pow(2, 1000);
    assert(x * y <= (o * o) * w) by (nonlinear_arith)
        requires
            x * y <= (400 * k) * (o * o),
            400 * k <= w,
            o > 0,
    ;
    lemma_mul_strictly_positive(o, o);
    lemma_rounds_finite(units(a) * units(c), one() * one(), p);
}

proof fn lemma_small_power()
    ensures
        1600 * (u64::MAX as int) <= pow(2, 1000),
{
    lemma2_to64();
    lemma_pow2(64);
    lemma_pow2(11);
    lemma_pow_adds(2, 64, 11);
    lemma_pow_increases(2, 75, 1000);
}

proof fn lemma_percent_finite(n: nat, t: nat, p: nat, y: nat, r: nat)
    requires
        n <= u64::MAX,
        t > 0,
        units(p) <= 800 * n * one(),
        t * one() <= 2 * units(y),
        rounds_to(units(p), units(y), r),
    ensures
        r < INFINITE,
{
    lemma_one_positive();
    lemma_small_power();
    let o = one() as int;
    let up = units(p) as int;
    let uy = units(y) as int;
    let k = n as int;
    let j = t as int;
    let w = pow(2, 1000);
    assert(o <= 2 * uy) by (nonlinear_arith)
        requires
            j * o <= 2 * uy,
            j >= 1,
            o > 0,
    ;
    assert(up <= uy * w) by (nonlinear_arith)
        requires
            up <= 800 * k * o,
            o <= 2 * uy,
            1600 * k <= w,
            k >= 0,
            o > 0,
            uy > 0,
    ;
    lemma_rounds_finite(units(p), units(y), r);
}

/// Small numbers can be doubled until they fill a significand.
proof fn lemma_normalised(n: nat) -> (k: nat)
    requires
        0 < n < 2 * FRACTION,
    ensures
        k <= 52,
        FRACTION <= n * pow(2, k) < 2 * FRACTION,
        n * pow(2, k) >= 0,
        k > 0 ==> n * pow(2, (k - 1) as nat) < FRACTION,
    decreases 2 * FRACTION - n,
{
    lemma_pow0(2);
    lemma_mul_basics(n as int);
    if n >= FRACTION {
        0
    } else {
        let less = lemma_normalised(2 * n);
        lemma_pow_adds(2, 1, less);
        lemma_pow1(2);
        let p = pow(2, less);
        assert((2 * n) * p == n * (2 * p)) by (nonlinear_arith);
        if less > 0 {
            lemma_pow_adds(2, 1, (less - 1) as nat);
            let q = pow(2, (less - 1) as nat);
            assert((2 * n) * q == n * (2 * q)) by (nonlinear_arith);
        }
        if less == 52 {
            lemma_fraction();
            lemma_pow_adds(2, 1, 51);
            let q = pow(2, 51);
            assert((2 * n) * q >= FRACTION) by (nonlinear_arith)
                requires
                    2 * q == FRACTION,
                    n >= 1,
            ;
        }
        less + 1
    }
}

/// Whole numbers that fit a significand are held exactly.
pub proof fn lemma_whole_exact(n: nat)
    requires
        n <= 2 * FRACTION,
    ensures
        units(nearest(n, 1)) == n * one(),
{
    reveal(rounds_to);
    lemma_one_positive();
    lemma_mul_basics(one() as int);
    let o = one() as int;
    let mut m: nat = 0;
    if n == 0 {
        assert(units(0) == 0);
    } else if n == 2 * FRACTION {
        lemma_units(1075, FRACTION as nat);
        lemma_pow_adds(2, 1, 1074);
        lemma_pow1(2);
        let f = FRACTION as int;
        assert(f * (2 * o) == (2 * f) * o) by (nonlinear_arith);
        m = pattern(1075, FRACTION as nat);
    } else {
        let k = lemma_normalised(n);
        let significand = (n * pow(2, k)) as nat;
        let shift = (1074 - k) as nat;
        lemma_units(shift, significand);
        lemma_pow_adds(2, k, shift);
        let (p, q) = (pow(2, k), pow(2, shift));
        assert((n * p) * q == n * (p * q)) by (nonlinear_arith);
        m = pattern(shift, significand);
    }
    assert(units(m) == n * one());
    if m > 0 {
        lemma_units_increase((m - 1) as nat, m);
        lemma_mul_basics((units((m - 1) as nat) + units(m)) as int);
    }
    lemma_units_increase(m, m + 1);
    lemma_mul_basics((units(m) + units(m + 1)) as int);
    assert(2 * n * one() == 2 * units(m)) by (nonlinear_arith)
        requires
            units(m) == n * one(),
    ;
    assert(m <= INFINITE);
    assert(rounds_to(n, 1, m));
    lemma_nearest(n, 1, m);
}

/// The quotient of whole numbers up to two to the power of 53 is rounded once:
/// it is the binary number nearest to the exact quotient.
pub proof fn small_quotients_are_nearest(a: nat, b: nat)
    requires
        a <= 2 * FRACTION,
        0 < b <= 2 * FRACTION,
    ensures
        quotient(nearest(a, 1), nearest(b, 1)) == nearest(a, b),
{
    lemma_whole_exact(a);
    lemma_whole_exact(b);
    lemma_one_positive();
    lemma_rounds_exists(a, b);
    lemma_rounds_scaled(a, b, one(), nearest(a, b));
    lemma_mul_strictly_positive(b as int, one() as int);
    lemma_nearest(a * one(), b * one(), nearest(a, b));
}

} // verus!
