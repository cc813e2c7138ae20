//! What the shares and sizes in a report are: the exact number, rounded to the
//! nearest tenth.

use vstd::arithmetic::div_mod::*;
use vstd::arithmetic::mul::*;
use vstd::arithmetic::power::*;
use vstd::prelude::*;

use crate::binary64::{
    lemma_nearest, lemma_one_positive, lemma_parts, lemma_rounds_bounded, lemma_rounds_exists,
    lemma_rounds_scaled, lemma_units, lemma_units_increase, lemma_whole_exact, nearest, one, parts,
    pattern, percentage, product, quotient, rounds_to, small_quotients_are_nearest, units,
};
use crate::notation::tenths;
use crate::numerals::magnitudes_are_spaced_by_powers_of_two;
use crate::report::{grouped_text, kibibytes_text, percent_text};
use crate::text::{decimal_text, digit_char};

verus! {

/// Below 128 the magnitudes are less than one apart by a factor of two to the
/// power 46.
proof fn lemma_gap(m: nat)
    requires
        m < 0x4060_0000_0000_0000,
    ensures
        units(m) <= units(m + 1),
        0x4000_0000_0000 * (units(m + 1) - units(m)) <= one(),
{
    magnitudes_are_spaced_by_powers_of_two(m);
    let e: nat = if m < 0x20_0000_0000_0000 {
        0
    } else {
        (m / 0x10_0000_0000_0000 - 1) as nat
    };
    assert(e <= 1028);
    lemma_pow_increases(2, e, 1028);
    lemma_pow_positive(2, e);
    lemma_pow_adds(2, 46, 1028);
    vstd::arithmetic::power2::lemma_pow2(46);
    vstd::arithmetic::power2::lemma2_to64();
    vstd::arithmetic::power2::lemma2_to64_rest();
    let (g, p) = (pow(2, e), pow(2, 1028));
    assert(pow(2, 46) == 0x4000_0000_0000);
    assert(0x4000_0000_0000 * g <= 0x4000_0000_0000 * p);
}

/// The magnitude of 128.
proof fn lemma_128()
    ensures
        units(0x4060_0000_0000_0000) == 128 * one(),
{
    lemma_pow_adds(2, 52, 1029);
    lemma_pow_adds(2, 7, 1074);
    vstd::arithmetic::power2::lemma_pow2(52);
    vstd::arithmetic::power2::lemma_pow2(7);
    vstd::arithmetic::power2::lemma2_to64();
    vstd::arithmetic::power2::lemma2_to64_rest();
    assert(pow(2, 52) == 0x10_0000_0000_0000);
    assert(pow(2, 7) == 128);
    let m: nat = 0x4060_0000_0000_0000;
    assert(m / 0x10_0000_0000_0000 == 1030 && m % 0x10_0000_0000_0000 == 0);
    lemma_pow_positive(2, 1029);
    let p = pow(2, 1029);
    assert(0x10_0000_0000_0000 * p >= 0);
    assert((0x10_0000_0000_0000 + 0) * p == 0x10_0000_0000_0000 * p);
    assert(units(m) == 0x10_0000_0000_0000 * p);
}

/// A fraction of at most a hundred is rounded by a tiny amount.
proof fn lemma_rounding_error(num: nat, den: nat, m: nat)
    requires
        den > 0,
        num <= 100 * den,
        rounds_to(num, den, m),
    ensures
        0x8000_0000_0000 * (num * one() - units(m) * den) <= den * one(),
        0x8000_0000_0000 * (units(m) * den - num * one()) <= den * one(),
{
    reveal(rounds_to);
    lemma_one_positive();
    let (d, o, x, u) = (den as int, one() as int, num * one(), units(m) as int);
    assert(2 * num * one() == 2 * x) by (nonlinear_arith)
        requires
            x == num * one(),
    ;
    assert(x <= 100 * (d * o)) by (nonlinear_arith)
        requires
            x == num * o,
            num <= 100 * d,
            o > 0,
    ;
    let top: nat = 0x4060_0000_0000_0000;
    if m >= top {
        let (a, b) = (units((m - 1) as nat) as int, units((top - 1) as nat) as int);
        lemma_128();
        lemma_gap((top - 1) as nat);
        if m > top {
            lemma_units_increase((top - 1) as nat, (m - 1) as nat);
        }
        lemma_units_increase((top - 1) as nat, m);
        assert(a + u > 200 * o);
        assert((a + u) * d > 200 * (d * o)) by (nonlinear_arith)
            requires
                a + u > 200 * o,
                d > 0,
        ;
    }
    assert(m < top);
    lemma_gap(m);
    let v = units(m + 1) as int;
    let g = v - u;
    assert((u + v) * d == 2 * (u * d) + g * d) by (nonlinear_arith)
        requires
            g == v - u,
    ;
    assert(0x4000_0000_0000 * (g * d) <= d * o) by (nonlinear_arith)
        requires
            0x4000_0000_0000 * g <= o,
            d > 0,
    ;
    if m > 0 {
        lemma_gap((m - 1) as nat);
        let w = units((m - 1) as nat) as int;
        let h = u - w;
        assert((w + u) * d == 2 * (u * d) - h * d) by (nonlinear_arith)
            requires
                h == u - w,
        ;
        assert(0x4000_0000_0000 * (h * d) <= d * o) by (nonlinear_arith)
            requires
                0x4000_0000_0000 * h <= o,
                d > 0,
        ;
    } else {
        assert(x >= 0) by (nonlinear_arith)
            requires
                x == num * o,
                o > 0,
        ;
        assert(d * o >= 0) by (nonlinear_arith)
            requires
                d > 0,
                o > 0,
        ;
        assert(u * d == 0) by (nonlinear_arith)
            requires
                u == 0,
        ;
    }
}

/// A magnitude is within half a tenth of its tenths; half way between two
/// numbers of tenths it is the even one.
pub proof fn tenths_are_nearest(m: nat)
    ensures
        -one() <= 2 * (tenths(m) * one()) - 20 * units(m) <= one(),
        2 * (tenths(m) * one()) - 20 * units(m) == one() || 2 * (tenths(m) * one()) - 20 * units(m)
            == -one() ==> tenths(m) % 2 == 0,
{
    lemma_one_positive();
    let (x, o) = (10 * units(m) as int, one() as int);
    lemma_fundamental_div_mod(x, o);
    lemma_mod_bound(x, o);
    let q = x / o;
    assert(q * o == o * q && (q + 1) * o == o * q + o) by (nonlinear_arith);
}

proof fn lemma_percentage(part: nat, total: nat)
    requires
        part <= total,
        0 < total <= 0x400_0000_0000,
    ensures
        percentage(part, total) == nearest(100 * part, total),
{
    lemma_whole_exact(part);
    lemma_whole_exact(100);
    lemma_one_positive();
    let o = one();
    let n = 100 * part;
    lemma_rounds_exists(n, 1);
    let m = nearest(n, 1);
    assert(rounds_to(n, 1, m));
    lemma_mul_strictly_positive(o as int, o as int);
    lemma_rounds_scaled(n, 1, o * o, m);
    assert(n * (o * o) == (part * o) * (100 * o)) by (nonlinear_arith)
        requires
            n == 100 * part,
    ;
    assert(1 * (o * o) == o * o);
    lemma_nearest(n * (o * o), o * o, m);
    assert(product(nearest(part, 1), nearest(100, 1)) == m);
    small_quotients_are_nearest(n, total);
}

/// Whether a number of tenths of a percent is the share of `part` in `total`,
/// rounded to the nearest.
pub open spec fn is_share(part: nat, total: nat, t: nat) -> bool {
    -total <= 2 * (t * total - 1000 * part) <= total
}

/// Shares are printed in percent, rounded to the nearest tenth.
pub proof fn shares_are_rounded_to_the_nearest_tenth(part: nat, total: nat) -> (t: nat)
    requires
        part <= total,
        0 < total <= 0x400_0000_0000,
    ensures
        is_share(part, total, t),
        t <= 1000,
        percent_text(part, total) == decimal_text(t / 10) + seq!['.'] + decimal_text(t % 10) + seq![
            '%',
        ],
{
    lemma_percentage(part, total);
    let n = 100 * part;
    lemma_rounds_exists(n, total);
    let m = nearest(n, total);
    assert(rounds_to(n, total, m));
    lemma_rounding_error(n, total, m);
    tenths_are_nearest(m);
    lemma_one_positive();
    let t = tenths(m);
    let (u, o, s, p) = (units(m) as int, one() as int, total as int, part as int);
    let e = t * o;
    assert(-(s * o) <= 2 * (e * s) - 20 * (u * s) <= s * o) by (nonlinear_arith)
        requires
            -o <= 2 * e - 20 * u <= o,
            s > 0,
    ;
    assert(n * o == 100 * (p * o)) by (nonlinear_arith)
        requires
            n == 100 * p,
    ;
    let d = u * s - n * o;
    assert(s * o <= 0x400_0000_0000 * o) by (nonlinear_arith)
        requires
            s <= 0x400_0000_0000,
            o > 0,
    ;
    assert(-o < 20 * d < o);
    assert(e * s == (t * s) * o) by (nonlinear_arith)
        requires
            e == t * o,
    ;
    let k = 2 * (t * s) - 2000 * p;
    assert(k * o == 2 * (e * s) - 2000 * (p * o)) by (nonlinear_arith)
        requires
            e * s == (t * s) * o,
            k == 2 * (t * s) - 2000 * p,
    ;
    assert(-(s * o) - o < k * o < s * o + o);
    assert(-s <= k <= s) by (nonlinear_arith)
        requires
            -(s * o) - o < k * o < s * o + o,
            o > 0,
    ;
    assert(t <= 1000) by (nonlinear_arith)
        requires
            2 * (t * s) - 2000 * p <= s,
            p <= s,
            s > 0,
    ;
    assert(percent_text(part, total) =~= decimal_text(t / 10) + seq!['.'] + decimal_text(t % 10)
        + seq!['%']) by {
        reveal_strlit("%");
        assert(decimal_text(t % 10) == seq![digit_char(t % 10)]);
    }
    t
}

/// The share of nothing is none.
pub proof fn shares_of_nothing_are_none(part: nat)
    ensures
        percent_text(part, 0) == seq!['0', '.', '0', '%'],
{
    reveal_strlit("0.0%");
    assert("0.0%"@ =~= seq!['0', '.', '0', '%']);
}

/// How far from the end the digit stands that is `i` characters from the end
/// of a number in groups.
pub open spec fn digit_place(i: int) -> int {
    i - i / 4
}

proof fn lemma_last_digits(n: nat)
    requires
        n >= 1000,
    ensures
        decimal_text(n) == decimal_text(n / 1000) + seq![
            digit_char(n / 100 % 10),
            digit_char(n / 10 % 10),
            digit_char(n % 10),
        ],
{
    assert(n / 10 >= 10 && n / 10 / 10 >= 10);
    assert(n / 10 / 10 == n / 100 && n / 100 / 10 == n / 1000);
    assert(decimal_text(n) == decimal_text(n / 10).push(digit_char(n % 10)));
    assert(decimal_text(n / 10) == decimal_text(n / 100).push(digit_char(n / 10 % 10)));
    assert(decimal_text(n / 100) == decimal_text(n / 1000).push(digit_char(n / 100 % 10)));
    assert(decimal_text(n) =~= decimal_text(n / 1000) + seq![
        digit_char(n / 100 % 10),
        digit_char(n / 10 % 10),
        digit_char(n % 10),
    ]);
}

/// Whether a text has given digits in their order, with a comma as every
/// fourth character from the end and never as the first one.
pub open spec fn is_grouped(g: Seq<char>, d: Seq<char>) -> bool {
    &&& d.len() > 0
    &&& g.len() == d.len() + (d.len() - 1) / 3
    &&& forall|p: int|
        0 <= p < g.len() ==> #[trigger] g[p] == if (g.len() - 1 - p) % 4 == 3 {
            ','
        } else {
            d[d.len() - 1 - digit_place(g.len() - 1 - p)]
        }
}

proof fn lemma_group_added(h: Seq<char>, e: Seq<char>, a: char, b: char, c: char)
    requires
        is_grouped(h, e),
    ensures
        is_grouped(h + seq![',', a, b, c], e + seq![a, b, c]),
{
    let g = h + seq![',', a, b, c];
    let d = e + seq![a, b, c];
    let (m, n) = (h.len() as int, e.len() as int);
    assert(g.len() == m + 4 && d.len() == n + 3);
    assert forall|p: int| 0 <= p < g.len() implies #[trigger] g[p] == if (g.len() - 1 - p) % 4
        == 3 {
        ','
    } else {
        d[d.len() - 1 - digit_place(g.len() - 1 - p)]
    } by {
        let i = g.len() - 1 - p;
        if p < m {
            let j = m - 1 - p;
            assert(i == j + 4);
            assert(i % 4 == j % 4 && i / 4 == j / 4 + 1);
            assert(g[p] == h[p]);
            if j % 4 != 3 {
                let k = digit_place(j);
                assert(0 <= k);
                assert(k < n);
                assert(digit_place(i) == k + 3);
                assert(d[n - 1 - k] == e[n - 1 - k]);
            }
        } else {
            assert(i < 4 && i / 4 == 0);
        }
    }
}

/// A number in groups has the digits of the number in their order, and from
/// the end every fourth character is a comma, never the first one.
pub proof fn groups_are_of_three_digits(n: nat)
    ensures
        is_grouped(grouped_text(n), decimal_text(n)),
    decreases n,
{
    let d = decimal_text(n);
    if n < 1000 {
        assert(d.len() <= 3 && d.len() > 0) by {
            reveal_with_fuel(decimal_text, 4);
        }
    } else {
        groups_are_of_three_digits(n / 1000);
        lemma_last_digits(n);
        lemma_group_added(
            grouped_text(n / 1000),
            decimal_text(n / 1000),
            digit_char(n / 100 % 10),
            digit_char(n / 10 % 10),
            digit_char(n % 10),
        );
    }
}

proof fn lemma_exact(num: nat, den: nat, m: nat)
    requires
        den > 0,
        m < 0x7ff0_0000_0000_0000,
        units(m) * den == num * one(),
    ensures
        nearest(num, den) == m,
{
    let (u, d, x) = (units(m) as int, den as int, num * one());
    assert(2 * num * one() == 2 * x) by (nonlinear_arith)
        requires
            x == num * one(),
    ;
    lemma_units_increase(m, m + 1);
    let v = units(m + 1) as int;
    assert((u + v) * d > 2 * (u * d)) by (nonlinear_arith)
        requires
            v > u,
            d > 0,
    ;
    if m > 0 {
        lemma_units_increase((m - 1) as nat, m);
        let w = units((m - 1) as nat) as int;
        assert((w + u) * d < 2 * (u * d)) by (nonlinear_arith)
            requires
                w < u,
                d > 0,
        ;
    }
    assert(rounds_to(num, den, m)) by {
        reveal(rounds_to);
    }
    lemma_nearest(num, den, m);
}

proof fn lemma_kibibytes(bytes: nat) -> (m: nat)
    requires
        bytes <= 0x20_0000_0000_0000,
    ensures
        m == quotient(nearest(bytes, 1), nearest(1024, 1)),
        units(m) * 1024 == bytes * one(),
{
    small_quotients_are_nearest(bytes, 1024);
    lemma_whole_exact(bytes);
    lemma_one_positive();
    let o = one() as int;
    if bytes == 0 {
        magnitudes_are_spaced_by_powers_of_two(0);
        assert(0 * o == 0);
        assert(units(0) * 1024 == 0);
        lemma_exact(0, 1024, 0);
        0
    } else {
        let whole = nearest(bytes, 1);
        lemma_parts(whole);
        let (shift, significand) = parts(whole);
        vstd::arithmetic::power2::lemma_pow2(10);
        vstd::arithmetic::power2::lemma_pow2(63);
        vstd::arithmetic::power2::lemma2_to64();
        vstd::arithmetic::power2::lemma2_to64_rest();
        lemma_pow_increases(2, 63, 1074);
        let g = pow(2, shift);
        assert(bytes * o >= o) by (nonlinear_arith)
            requires
                bytes >= 1,
                o > 0,
        ;
        if shift < 10 {
            lemma_pow_increases(2, shift, 9);
            vstd::arithmetic::power2::lemma_pow2(9);
            lemma_pow_positive(2, shift);
            assert(significand * g <= 0x20_0000_0000_0000 * 512) by (nonlinear_arith)
                requires
                    0 <= significand < 0x20_0000_0000_0000,
                    0 < g <= 512,
            ;
        }
        assert(shift >= 10);
        let low = (shift - 10) as nat;
        let m = pattern(low, significand);
        if shift == 10 {
            assert(significand >= 0x10_0000_0000_0000);
        }
        lemma_units(low, significand);
        lemma_pow_adds(2, 10, low);
        let h = pow(2, low);
        assert(g == 1024 * h);
        assert((significand * h) * 1024 == significand * g) by (nonlinear_arith)
            requires
                g == 1024 * h,
        ;
        lemma_rounds_exists(bytes, 1);
        lemma_rounds_bounded(bytes, 1, whole);
        assert(m < whole) by (nonlinear_arith)
            requires
                m == low * 0x10_0000_0000_0000 + significand,
                whole == shift * 0x10_0000_0000_0000 + significand,
                low < shift,
        ;
        lemma_exact(bytes, 1024, m);
        m
    }
}

/// Sizes are printed in units of 1024 bytes, rounded to the nearest tenth.
pub proof fn sizes_are_rounded_to_the_nearest_tenth(bytes: nat) -> (t: nat)
    requires
        bytes <= 0x20_0000_0000_0000,
    ensures
        -1024 <= 2 * (t * 1024 - 10 * bytes) <= 1024,
        kibibytes_text(bytes) == decimal_text(t / 10) + seq!['.'] + decimal_text(t % 10) + " KiB"@,
{
    let m = lemma_kibibytes(bytes);
    tenths_are_nearest(m);
    lemma_one_positive();
    let t = tenths(m);
    let (u, o, b) = (units(m) as int, one() as int, bytes as int);
    let e = t * o;
    let k = 2 * (t * 1024) - 20 * b;
    assert(k * o == 1024 * (2 * e - 20 * u)) by (nonlinear_arith)
        requires
            k == 2 * (t * 1024) - 20 * b,
            e == t * o,
            u * 1024 == b * o,
    ;
    assert(-1024 <= k <= 1024) by (nonlinear_arith)
        requires
            k * o == 1024 * (2 * e - 20 * u),
            -o <= 2 * e - 20 * u <= o,
            o > 0,
    ;
    assert(decimal_text(t % 10) == seq![digit_char(t % 10)]);
    assert(kibibytes_text(bytes) =~= decimal_text(t / 10) + seq!['.'] + decimal_text(t % 10)
        + " KiB"@);
    t
}

} // verus!
