//! Which sample a quantile asks for.

use vstd::arithmetic::div_mod::*;
use vstd::arithmetic::mul::*;
use vstd::arithmetic::power::*;
use vstd::prelude::*;

use crate::binary64::{
    ceiling, lemma_nearest, lemma_one_positive, lemma_parts, lemma_rounds_exists,
    lemma_rounds_finite, lemma_rounds_scaled, lemma_whole_exact, nearest, one, parts, product,
    rounds_to, units,
};
use crate::hist::wanted_rank;
use crate::numerals::rounded_numbers_are_nearest;
use crate::report::{HALF, NINETY_NINE_HUNDREDTHS, NINE_TENTHS};

verus! {

/// The product of a magnitude and a whole number is rounded once.
proof fn lemma_scaled_product(q: nat, count: nat)
    requires
        count <= 0x20_0000_0000_0000,
    ensures
        product(q, nearest(count, 1)) == nearest(units(q) * count, one()),
        rounds_to(units(q) * count, one(), nearest(units(q) * count, one())),
{
    lemma_whole_exact(count);
    lemma_one_positive();
    let o = one();
    let x = units(q) * count;
    lemma_rounds_exists(x, o);
    let m = nearest(x, o);
    lemma_rounds_scaled(x, o, o, m);
    assert(x * o == units(q) * (count * o)) by (nonlinear_arith)
        requires
            x == units(q) * count,
    ;
    lemma_mul_strictly_positive(o as int, o as int);
    lemma_nearest(x * o, o * o, m);
}

/// A product is rounded down by a tiny part of it at most.
proof fn lemma_rounded_down(x: nat, m: nat)
    requires
        rounds_to(x, one(), m),
        m < 0x7ff0_0000_0000_0000,
    ensures
        0x20_0000_0000_0000 * x <= 0x20_0000_0000_0001 * units(m) || x <= 0x10_0000_0000_0000,
{
    reveal(rounds_to);
    lemma_one_positive();
    lemma_parts(m);
    let (shift, significand) = parts(m);
    let g = pow(2, shift);
    let (u, v, o) = (units(m) as int, units(m + 1) as int, one() as int);
    lemma_pow_positive(2, shift);
    lemma_pow0(2);
    assert((significand + 1) * g == significand * g + g) by (nonlinear_arith);
    assert(2 * x <= u + v) by (nonlinear_arith)
        requires
            2 * x * o <= (u + v) * o,
            o > 0,
    ;
    if significand >= 0x10_0000_0000_0000 {
        assert(0x10_0000_0000_0000 * g <= significand * g) by (nonlinear_arith)
            requires
                significand >= 0x10_0000_0000_0000,
                g > 0,
        ;
    } else {
        assert(shift == 0);
        assert(significand * 1 == significand);
    }
}

/// A quantile between zero and one asks for a sample that exists, for the
/// first one whose rank is not below the exact product of the quantile and the
/// number of samples; only a product that is larger than a whole number by
/// less than rounding shows counts as that number.
pub proof fn quantiles_ask_for_the_rank_rounded_up(q: u64, count: nat)
    requires
        0 < q < 0x3FF0_0000_0000_0000,
        0 < count <= 0x20_0000_0000_0000,
    ensures
        ({
            let exact = units(q as nat) * count;
            let place = wanted_rank(q, count);
            &&& 1 <= place <= count
            &&& place == 1 || (place - 1) * pow(2, 1074) < exact
            &&& 0x20_0000_0000_0000 * exact <= 0x20_0000_0000_0001 * (place * pow(2, 1074))
        }),
{
    lemma_one_positive();
    let o = one() as int;
    let x = units(q as nat) * count;
    lemma_scaled_product(q as nat, count);
    let m = nearest(x, one());
    crate::binary64::lemma_units_increase(q as nat, 0x3FF0_0000_0000_0000);
    crate::numerals::magnitudes_are_spaced_by_powers_of_two(0);
    let u = units(q as nat) as int;
    assert(u < o);
    assert(x <= count * o) by (nonlinear_arith)
        requires
            x == u * count,
            u < o,
    ;
    let k = (x + o - 1) / o;
    lemma_fundamental_div_mod(x + o - 1, o);
    lemma_mod_bound(x + o - 1, o);
    assert(x <= k * o && (k - 1) * o < x) by (nonlinear_arith)
        requires
            x + o - 1 == o * k + (x + o - 1) % o,
            0 <= (x + o - 1) % o < o,
    ;
    assert(k <= count) by (nonlinear_arith)
        requires
            (k - 1) * o < x,
            x <= count * o,
            o > 0,
    ;
    crate::binary64::lemma_units_increase(0, q as nat);
    assert(x > 0) by (nonlinear_arith)
        requires
            x == u * count,
            u > 0,
            count > 0,
    ;
    assert(k >= 1) by (nonlinear_arith)
        requires
            x <= k * o,
            x > 0,
            o > 0,
    ;
    lemma_whole_exact(k as nat);
    let whole = nearest(k as nat, 1);
    assert(x <= one() * pow(2, 1000)) by {
        lemma_pow_increases(2, 53, 1000);
        vstd::arithmetic::power2::lemma_pow2(53);
        vstd::arithmetic::power2::lemma2_to64_rest();
        let p = pow(2, 1000);
        assert(count <= p);
        assert(count * o <= o * p) by (nonlinear_arith)
            requires
                count <= p,
                o > 0,
        ;
    }
    lemma_rounds_finite(x, one(), m);
    rounded_numbers_are_nearest(x, one(), m, whole);
    let v = units(m) as int;
    let y = units(whole) as int;
    assert(y == k * o);
    assert(x * o <= y * o) by (nonlinear_arith)
        requires
            x <= y,
            o > 0,
    ;
    assert(v * o - x * o <= y * o - x * o);
    assert(v <= y) by (nonlinear_arith)
        requires
            v * o - x * o <= y * o - x * o,
            o > 0,
    ;
    lemma_rounded_down(x, m);
    let c = (v + o - 1) / o;
    lemma_fundamental_div_mod(v + o - 1, o);
    lemma_mod_bound(v + o - 1, o);
    assert(v <= c * o && (c - 1) * o < v && c >= 0) by (nonlinear_arith)
        requires
            v + o - 1 == o * c + (v + o - 1) % o,
            0 <= (v + o - 1) % o < o,
            v >= 0,
            o > 0,
    ;
    assert(ceiling(m) == c);
    assert(c <= k) by (nonlinear_arith)
        requires
            (c - 1) * o < v,
            v <= k * o,
            o > 0,
    ;
    let place = wanted_rank(q, count) as int;
    assert(place == if c < 1 {
        1
    } else {
        c
    });
    if c >= 1 {
        assert((c - 1) * o <= (k - 1) * o) by (nonlinear_arith)
            requires
                c <= k,
                o > 0,
        ;
    } else {
        assert(v <= 0) by (nonlinear_arith)
            requires
                v <= c * o,
                c < 1,
                c >= 0,
        ;
    }
    lemma_pow_increases(2, 60, 1074);
    vstd::arithmetic::power2::lemma_pow2(60);
    vstd::arithmetic::power2::lemma2_to64_rest();
    assert(o >= 0x1000_0000_0000_0000);
    assert(place * o >= o) by (nonlinear_arith)
        requires
            place >= 1,
            o > 0,
    ;
}

proof fn lemma_nearest_below_one(num: nat, den: nat, m: nat, significand: nat)
    requires
        den > 0,
        0x10_0000_0000_0000 <= significand < 0x1F_FFFF_FFFF_FFFF,
        m == 1021 * 0x10_0000_0000_0000 + significand,
        (2 * significand - 1) * den < 2 * num * 0x20_0000_0000_0000 < (2 * significand + 1) * den,
        significand > 0x10_0000_0000_0000 || (4 * significand - 1) * den < 4 * num
            * 0x20_0000_0000_0000,
    ensures
        nearest(num, den) == m,
{
    let g = pow(2, 1021);
    lemma_pow_positive(2, 1021);
    lemma_pow_adds(2, 53, 1021);
    vstd::arithmetic::power2::lemma_pow2(53);
    vstd::arithmetic::power2::lemma2_to64_rest();
    let o = one() as int;
    assert(o == 0x20_0000_0000_0000 * g);
    crate::binary64::lemma_units(1021, significand);
    crate::binary64::lemma_units(1021, significand + 1);
    let (u, v) = (units(m) as int, units(m + 1) as int);
    let below = (m - 1) as nat;
    let w = units(below) as int;
    let (a, b, c) = (significand as int, num as int, den as int);
    assert(u == a * g && v == (a + 1) * g);
    assert(2 * b * o < (u + v) * c) by (nonlinear_arith)
        requires
            o == 0x20_0000_0000_0000 * g,
            u == a * g,
            v == (a + 1) * g,
            2 * b * 0x20_0000_0000_0000 < (2 * a + 1) * c,
            g > 0,
    ;
    if significand > 0x10_0000_0000_0000 {
        crate::binary64::lemma_units(1021, (significand - 1) as nat);
        assert(w == (a - 1) * g);
        assert((w + u) * c < 2 * b * o) by (nonlinear_arith)
            requires
                o == 0x20_0000_0000_0000 * g,
                u == a * g,
                w == (a - 1) * g,
                (2 * a - 1) * c < 2 * b * 0x20_0000_0000_0000,
                g > 0,
        ;
    } else {
        let h = pow(2, 1020);
        lemma_pow_adds(2, 1, 1020);
        lemma_pow1(2);
        assert(g == 2 * h);
        crate::binary64::lemma_units(1020, (2 * significand - 1) as nat);
        assert(w == (2 * a - 1) * h);
        lemma_pow_positive(2, 1020);
        assert((w + u) * c < 2 * b * o) by (nonlinear_arith)
            requires
                o == 0x20_0000_0000_0000 * g,
                g == 2 * h,
                u == a * g,
                w == (2 * a - 1) * h,
                (4 * a - 1) * c < 4 * b * 0x20_0000_0000_0000,
                h > 0,
        ;
    }
    assert(rounds_to(num, den, m)) by {
        reveal(rounds_to);
    }
    lemma_nearest(num, den, m);
}

/// The quantiles of the reports are the binary numbers nearest to a half, to
/// nine tenths and to 99 hundredths.
pub proof fn reported_quantiles_are_the_named_ones()
    ensures
        HALF == nearest(1, 2),
        NINE_TENTHS == nearest(9, 10),
        NINETY_NINE_HUNDREDTHS == nearest(99, 100),
{
    lemma_nearest_below_one(1, 2, HALF as nat, 0x10_0000_0000_0000);
    lemma_nearest_below_one(9, 10, NINE_TENTHS as nat, 0x1C_CCCC_CCCC_CCCD);
    lemma_nearest_below_one(99, 100, NINETY_NINE_HUNDREDTHS as nat, 0x1F_AE14_7AE1_47AE);
}

} // verus!
