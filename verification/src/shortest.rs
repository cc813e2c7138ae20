//! Writing decimal notation: the decimal fraction with the fewest digits that
//! reads back as the same binary number, the one nearest to it when several
//! are that short.

use vstd::arithmetic::mul::*;
use vstd::arithmetic::power::*;
use vstd::prelude::*;

use crate::bignat::BigNat;
use crate::binary64::{
    finite, lemma_one_positive, lemma_parts, lemma_rounds_scaled, lemma_units, lemma_units_increase,
    magnitude, one, parts, pattern, rounds_to, units, Binary64, FRACTION, INFINITE,
};
use crate::decimal::{decimal_den, decimal_num, lemma_ten, lemma_ten_400, ten};

verus! {

/// Whether a decimal fraction is read as the given magnitude.
pub open spec fn stands_for(n: nat, p: int, m: nat) -> bool {
    rounds_to(decimal_num(n, p), decimal_den(p), m)
}

/// How far a decimal fraction is from a magnitude, on a scale that depends on
/// the exponent alone.
pub open spec fn distance(n: nat, p: int, m: nat) -> nat {
    let offset = decimal_num(n, p) * one() - units(m) * decimal_den(p);
    if offset >= 0 {
        offset as nat
    } else {
        (-offset) as nat
    }
}

/// Whether `n` times ten to the power `p` is the decimal fraction to write for
/// a magnitude: no coarser one is read back as it, and among those as coarse
/// it is the nearest, the larger one when two are equally near.
pub open spec fn shortest(m: nat, n: nat, p: int) -> bool {
    &&& stands_for(n, p, m)
    &&& forall|n2: nat, p2: int| p2 > p ==> !stands_for(n2, p2, m)
    &&& forall|n2: nat|
        stands_for(n2, p, m) && n2 != n ==> {
            ||| distance(n, p, m) < distance(n2, p, m)
            ||| distance(n, p, m) == distance(n2, p, m) && n2 < n
        }
}

/// There is one such decimal fraction at most.
pub proof fn lemma_shortest_unique(m: nat, n1: nat, p1: int, n2: nat, p2: int)
    requires
        shortest(m, n1, p1),
        shortest(m, n2, p2),
    ensures
        n1 == n2,
        p1 == p2,
{
}

/// Twice the gap above a magnitude.
spec fn gap_above(m: nat) -> int {
    2 * (units(m + 1) - units(m))
}

/// Twice the gap below a magnitude.
spec fn gap_below(m: nat) -> int {
    2 * (units(m) - units((m - 1) as nat))
}

/// The state of the digit generation: the magnitude is `n + rest / whole`
/// steps of ten to the power `p`, and `above` and `below` are the distances to
/// the ends of the interval that is read as the magnitude.
spec fn generating(
    m: nat,
    n: int,
    p: int,
    rest: int,
    whole: int,
    above: int,
    below: int,
) -> bool {
    let q = 4 * one() * ten(p);
    let d = ten(-p) as int;
    &&& whole > 0
    &&& n >= 0
    &&& rest >= 0
    &&& (n * whole + rest) * q == (4 * units(m) * d) * whole
    &&& above * q == (gap_above(m) * d) * whole
    &&& below * q == (gap_below(m) * d) * whole
}

proof fn lemma_gaps(m: nat)
    requires
        m > 0,
    ensures
        gap_above(m) > 0,
        0 < gap_below(m) < 4 * units(m),
        gap_above(m) == 2 * pow(2, parts(m).0),
        4 * units(m) == 2 * parts(m).1 * gap_above(m),
        parts(m).1 == FRACTION && parts(m).0 > 0 ==> 2 * gap_below(m) == gap_above(m),
        !(parts(m).1 == FRACTION && parts(m).0 > 0) ==> gap_below(m) == gap_above(m),
{
    let (s, sig) = parts(m);
    let p = pow(2, s);
    lemma_pow_positive(2, s);
    lemma_parts(m);
    lemma_units_increase((m - 1) as nat, m);
    lemma_units_increase(m, m + 1);
    assert((sig + 1) * p == sig * p + p) by (nonlinear_arith);
    assert(4 * (sig * p) == 2 * sig * (2 * p)) by (nonlinear_arith);
    let f = FRACTION as nat;
    if s == 0 {
        assert(pattern(0, sig) == sig);
        assert(pattern(0, (sig - 1) as nat) == sig - 1);
        lemma_units(0, (sig - 1) as nat);
        lemma_pow0(2);
    } else if sig > FRACTION {
        assert(pattern(s, sig) - 1 == pattern(s, (sig - 1) as nat));
        lemma_units(s, (sig - 1) as nat);
        assert((sig - 1) * p == sig * p - p) by (nonlinear_arith);
    } else {
        let t = (s - 1) as nat;
        assert(s * f + f - 1 == t * f + (2 * f - 1)) by (nonlinear_arith)
            requires
                t == s - 1,
        ;
        lemma_units(t, (2 * f - 1) as nat);
        assert(pattern(t, (2 * f - 1) as nat) == m - 1);
        lemma_pow_adds(2, t, 1);
        lemma_pow1(2);
        let h = pow(2, t);
        assert((2 * f - 1) * h == f * (h * 2) - h) by (nonlinear_arith);
    }
}

/// The interval of multiples that are read as a magnitude.
proof fn lemma_stands(m: nat, k: nat, p: int)
    requires
        0 < m < INFINITE,
    ensures
        ({
            let q = 4 * one() * ten(p);
            let lower = (4 * units(m) - gap_below(m)) * ten(-p);
            let upper = (4 * units(m) + gap_above(m)) * ten(-p);
            let even = m % 2 == 0;
            &&& q > 0
            &&& stands_for(k, p, m) <==> {
                &&& lower < k * q || (even && lower == k * q)
                &&& k * q < upper || (even && k * q == upper)
            }
        }),
{
    reveal(rounds_to);
    lemma_ten(p);
    lemma_one_positive();
    let t = ten(p) as int;
    let d = ten(-p) as int;
    let o = one() as int;
    let q = 4 * o * t;
    let ki = k as int;
    assert(q > 0) by (nonlinear_arith)
        requires
            o > 0,
            t > 0,
            q == 4 * o * t,
    ;
    let u = units(m) as int;
    let u0 = units((m - 1) as nat) as int;
    let u1 = units(m + 1) as int;
    let lo = gap_below(m);
    let hi = gap_above(m);
    assert(2 * (2 * (ki * t) * o) == ki * (4 * o * t)) by (nonlinear_arith);
    assert((4 * u - lo) * d == 2 * ((u0 + u) * d)) by (nonlinear_arith)
        requires
            lo == 2 * (u - u0),
    ;
    assert((4 * u + hi) * d == 2 * ((u + u1) * d)) by (nonlinear_arith)
        requires
            hi == 2 * (u1 - u),
    ;
}

/// Which multiples are read as the magnitude.
proof fn lemma_candidates(
    m: nat,
    n: nat,
    p: int,
    rest: int,
    whole: int,
    above: int,
    below: int,
    k: nat,
)
    requires
        0 < m < INFINITE,
        generating(m, n as int, p, rest, whole, above, below),
    ensures
        above > 0,
        below > 0,
        stands_for(k, p, m) <==> {
            &&& n * whole + rest - below < k * whole || (m % 2 == 0 && n * whole + rest - below == k
                * whole)
            &&& k * whole < n * whole + rest + above || (m % 2 == 0 && k * whole == n * whole + rest
                + above)
        },
{
    lemma_gaps(m);
    lemma_ten(-p);
    lemma_stands(m, k, p);
    let q = 4 * one() * ten(p);
    let d = ten(-p) as int;
    let u = units(m) as int;
    let lo = gap_below(m);
    let hi = gap_above(m);
    lemma_candidate(k as int, n as int, rest, whole, above, below, q as int, d, u, lo, hi);
    assert(above > 0) by (nonlinear_arith)
        requires
            above * q == (hi * d) * whole,
            hi > 0,
            d > 0,
            whole > 0,
            q > 0,
    ;
    assert(below > 0) by (nonlinear_arith)
        requires
            below * q == (lo * d) * whole,
            lo > 0,
            d > 0,
            whole > 0,
            q > 0,
    ;
}

/// The two neighbouring multiples decide for all.
proof fn lemma_neighbours(
    m: nat,
    n: nat,
    p: int,
    rest: int,
    whole: int,
    above: int,
    below: int,
)
    requires
        0 < m < INFINITE,
        generating(m, n as int, p, rest, whole, above, below),
        rest < whole,
    ensures
        stands_for(n, p, m) <==> rest < below || (rest == below && m % 2 == 0),
        stands_for(n + 1, p, m) <==> whole - rest < above || (whole - rest == above && m % 2 == 0),
        forall|k: nat| k <= n && #[trigger] stands_for(k, p, m) ==> stands_for(n, p, m),
        forall|k: nat| k > n && #[trigger] stands_for(k, p, m) ==> stands_for(n + 1, p, m),
{
    let ni = n as int;
    assert((ni + 1) * whole == ni * whole + whole) by (nonlinear_arith);
    lemma_candidates(m, n, p, rest, whole, above, below, n);
    lemma_candidates(m, n, p, rest, whole, above, below, n + 1);
    assert forall|k: nat| k <= n && #[trigger] stands_for(k, p, m) implies stands_for(n, p, m) by {
        lemma_candidates(m, n, p, rest, whole, above, below, k);
        lemma_mul_inequality(k as int, ni, whole);
    }
    assert forall|k: nat| k > n && #[trigger] stands_for(k, p, m) implies stands_for(n + 1, p, m) by {
        lemma_candidates(m, n, p, rest, whole, above, below, k);
        lemma_mul_inequality(ni + 1, k as int, whole);
    }
}

/// Whether no multiple of ten to the power `p` or more is read as a magnitude.
spec fn none_from(m: nat, p: int) -> bool {
    forall|n2: nat, p2: int| p2 >= p ==> !stands_for(n2, p2, m)
}

/// A coarse decimal fraction is a finer one too.
proof fn lemma_refine(m: nat, k: nat, p2: int, p: int)
    requires
        p <= p2,
        stands_for(k, p2, m),
    ensures
        exists|j: nat| stands_for(j, p, m),
    decreases p2 - p,
{
    if p < p2 {
        let r = p2 - 1;
        let j = k * 10;
        lemma_ten(r);
        lemma_ten(-p2);
        lemma_pow0(10);
        if r >= 0 {
            assert(k * (10 * ten(r)) == j * ten(r)) by (nonlinear_arith)
                requires
                    j == k * 10,
            ;
            assert(ten(-r) == 1);
            assert(ten(-p2) == 1);
        } else {
            assert(ten(-r) == 10 * ten(-p2));
            assert(ten(r) == 1);
            assert(ten(p2) == 1);
            lemma_rounds_scaled(k, ten(-p2), 10, m);
        }
        assert(stands_for(j, r, m));
        lemma_refine(m, j, r, p);
    }
}

proof fn lemma_none_from(m: nat, p: int)
    requires
        forall|k: nat| !stands_for(k, p, m),
    ensures
        none_from(m, p),
{
    assert forall|n2: nat, p2: int| p2 >= p implies !stands_for(n2, p2, m) by {
        if stands_for(n2, p2, m) {
            lemma_refine(m, n2, p2, p);
        }
    }
}

/// The distance of a multiple in terms of the state.
proof fn lemma_distance(
    m: nat,
    n: nat,
    p: int,
    rest: int,
    whole: int,
    above: int,
    below: int,
    k: nat,
)
    requires
        generating(m, n as int, p, rest, whole, above, below),
    ensures
        ({
            let q = 4 * one() * ten(p);
            let gap = k * whole - (n * whole + rest);
            4 * whole * distance(k, p, m) == q * (if gap >= 0 {
                gap
            } else {
                -gap
            })
        }),
{
    let t = ten(p) as int;
    let d = ten(-p) as int;
    let o = one() as int;
    let q = 4 * o * t;
    let u = units(m) as int;
    let ki = k as int;
    let offset = (ki * t) * o - u * d;
    let gap = ki * whole - (n * whole + rest);
    lemma_ten(p);
    lemma_one_positive();
    let at = n * whole + rest;
    assert(4 * whole * offset == whole * (ki * q) - (4 * u * d) * whole) by (nonlinear_arith)
        requires
            q == 4 * o * t,
            offset == (ki * t) * o - u * d,
    ;
    assert(q * gap == whole * (ki * q) - at * q) by (nonlinear_arith)
        requires
            gap == ki * whole - at,
    ;
    assert(q > 0) by (nonlinear_arith)
        requires
            o > 0,
            t > 0,
            q == 4 * o * t,
    ;
    if offset >= 0 {
        assert(gap >= 0) by (nonlinear_arith)
            requires
                4 * whole * offset == q * gap,
                offset >= 0,
                whole > 0,
                q > 0,
        ;
    } else {
        assert(gap < 0) by (nonlinear_arith)
            requires
                4 * whole * offset == q * gap,
                offset < 0,
                whole > 0,
                q > 0,
        ;
        assert(4 * whole * (-offset) == q * (-gap)) by (nonlinear_arith)
            requires
                4 * whole * offset == q * gap,
        ;
    }
}

/// The choice between the two neighbouring multiples.
proof fn lemma_choice(
    m: nat,
    n: nat,
    p: int,
    rest: int,
    whole: int,
    above: int,
    below: int,
    chosen: nat,
)
    requires
        0 < m < INFINITE,
        generating(m, n as int, p, rest, whole, above, below),
        rest < whole,
        none_from(m, p + 1),
        stands_for(chosen, p, m),
        chosen == n && (2 * rest < whole || !stands_for(n + 1, p, m)) || chosen == n + 1 && (2
            * rest >= whole || !stands_for(n, p, m)),
    ensures
        shortest(m, chosen, p),
{
    lemma_neighbours(m, n, p, rest, whole, above, below);
    let q = 4 * one() * ten(p);
    lemma_ten(p);
    lemma_one_positive();
    assert(q > 0) by (nonlinear_arith)
        requires
            one() > 0,
            ten(p) > 0,
            q == 4 * one() * ten(p),
    ;
    assert forall|k: nat| stands_for(k, p, m) && k != chosen implies {
        ||| distance(chosen, p, m) < distance(k, p, m)
        ||| distance(chosen, p, m) == distance(k, p, m) && k < chosen
    } by {
        lemma_distance(m, n, p, rest, whole, above, below, k);
        lemma_distance(m, n, p, rest, whole, above, below, chosen);
        let ni = n as int;
        let ki = k as int;
        let a = distance(chosen, p, m) as int;
        let b = distance(k, p, m) as int;
        let gap = ki * whole - (ni * whole + rest);
        let size = if gap >= 0 {
            gap
        } else {
            -gap
        };
        let own = if chosen == n {
            rest
        } else {
            whole - rest
        };
        assert((ni + 1) * whole == ni * whole + whole) by (nonlinear_arith);
        assert((ni + 2) * whole == ni * whole + 2 * whole) by (nonlinear_arith);
        assert((ni - 1) * whole == ni * whole - whole) by (nonlinear_arith);
        assert(4 * whole * a == q * own);
        if ki >= ni + 2 {
            lemma_mul_inequality(ni + 2, ki, whole);
        } else if ki <= ni - 1 {
            lemma_mul_inequality(ki, ni - 1, whole);
        }
        assert(size > own || (size == own && k < chosen));
        if size > own {
            assert(a < b) by (nonlinear_arith)
                requires
                    4 * whole * a == q * own,
                    4 * whole * b == q * size,
                    size > own,
                    q > 0,
                    whole > 0,
            ;
        } else {
            assert(a == b) by (nonlinear_arith)
                requires
                    4 * whole * a == q * own,
                    4 * whole * b == q * size,
                    size == own,
                    whole > 0,
            ;
        }
    }
}

/// Where the multiple `k` lies relative to the ends of the interval.
proof fn lemma_candidate(
    k: int,
    n: int,
    rest: int,
    whole: int,
    above: int,
    below: int,
    q: int,
    d: int,
    u: int,
    lo: int,
    hi: int,
)
    requires
        whole > 0,
        q > 0,
        (n * whole + rest) * q == (4 * u * d) * whole,
        above * q == (hi * d) * whole,
        below * q == (lo * d) * whole,
    ensures
        (4 * u - lo) * d < k * q <==> n * whole + rest - below < k * whole,
        (4 * u - lo) * d == k * q <==> n * whole + rest - below == k * whole,
        k * q < (4 * u + hi) * d <==> k * whole < n * whole + rest + above,
        k * q == (4 * u + hi) * d <==> k * whole == n * whole + rest + above,
{
    let a = n * whole + rest - below;
    let b = n * whole + rest + above;
    let x = (4 * u - lo) * d;
    let y = (4 * u + hi) * d;
    assert(a * q == x * whole) by (nonlinear_arith)
        requires
            (n * whole + rest) * q == (4 * u * d) * whole,
            below * q == (lo * d) * whole,
            a == n * whole + rest - below,
            x == (4 * u - lo) * d,
    ;
    assert(b * q == y * whole) by (nonlinear_arith)
        requires
            (n * whole + rest) * q == (4 * u * d) * whole,
            above * q == (hi * d) * whole,
            b == n * whole + rest + above,
            y == (4 * u + hi) * d,
    ;
    lemma_cross(a, k, x, q, whole);
    lemma_cross(b, k, y, q, whole);
}

proof fn lemma_cross(a: int, k: int, x: int, q: int, whole: int)
    requires
        whole > 0,
        q > 0,
        a * q == x * whole,
    ensures
        x < k * q <==> a < k * whole,
        x == k * q <==> a == k * whole,
        x > k * q <==> a > k * whole,
{
    let y = k * q;
    let b = k * whole;
    assert(b * q == y * whole) by (nonlinear_arith)
        requires
            y == k * q,
            b == k * whole,
    ;
    if a < b {
        assert(x < y) by (nonlinear_arith)
            requires
                a < b,
                a * q == x * whole,
                b * q == y * whole,
                q > 0,
                whole > 0,
        ;
    } else if a > b {
        assert(x > y) by (nonlinear_arith)
            requires
                a > b,
                a * q == x * whole,
                b * q == y * whole,
                q > 0,
                whole > 0,
        ;
    } else {
        assert(x == y) by (nonlinear_arith)
            requires
                a == b,
                a * q == x * whole,
                b * q == y * whole,
                whole > 0,
        ;
    }
}

proof fn lemma_start(m: nat, rest: int, whole: int, above: int, below: int, extra: nat, deficit: nat)
    requires
        0 < m < INFINITE,
        parts(m).0 + deficit == extra + 1074,
        rest == 4 * parts(m).1 * pow(2, extra),
        whole == 4 * pow(2, deficit),
        above == 2 * pow(2, extra),
        below == if parts(m).1 == FRACTION && parts(m).0 > 0 {
            pow(2, extra)
        } else {
            2 * pow(2, extra)
        },
    ensures
        generating(m, 0, 0, rest, whole, above, below),
{
    let (s, sig) = parts(m);
    lemma_parts(m);
    lemma_gaps(m);
    lemma_one_positive();
    lemma_pow0(10);
    lemma_pow_adds(2, s, deficit);
    lemma_pow_adds(2, extra, 1074);
    lemma_pow_positive(2, deficit);
    lemma_pow_positive(2, extra);
    let a = pow(2, s);
    let b = pow(2, deficit);
    let c = pow(2, extra);
    let o = one() as int;
    assert(ten(0) == 1);
    assert((0 * whole + rest) * (4 * o * 1) == (4 * (sig * a) * 1) * whole) by (nonlinear_arith)
        requires
            a * b == c * o,
            rest == 4 * sig * c,
            whole == 4 * b,
    ;
    assert(above * (4 * o * 1) == (2 * a * 1) * whole) by (nonlinear_arith)
        requires
            a * b == c * o,
            above == 2 * c,
            whole == 4 * b,
    ;
    let g = gap_below(m);
    if 2 * g == gap_above(m) {
        assert(g == a);
        assert(below == c);
        assert(below * (4 * o * 1) == (g * 1) * whole) by (nonlinear_arith)
            requires
                a * b == c * o,
                below == c,
                g == a,
                whole == 4 * b,
        ;
    } else {
        assert(below == above);
    }
    assert(rest >= 0) by (nonlinear_arith)
        requires
            rest == 4 * sig * c,
            c > 0,
    ;
}

/// A coarser step.
proof fn lemma_step_up(m: nat, p: int, rest: int, whole: int, above: int, below: int)
    requires
        p >= 0,
        generating(m, 0, p, rest, whole, above, below),
    ensures
        generating(m, 0, p + 1, rest, whole * 10, above, below),
{
    lemma_ten(p);
    lemma_pow0(10);
    assert(ten(-p) == 1);
    let t = ten(p) as int;
    let o = one() as int;
    let q = 4 * o * t;
    let u = 4 * units(m) as int;
    let hi = gap_above(m);
    let lo = gap_below(m);
    assert(4 * o * (10 * t) == 10 * q) by (nonlinear_arith)
        requires
            q == 4 * o * t,
    ;
    lemma_scale(0 * whole + rest, q, u * 1, whole);
    lemma_scale(above, q, hi * 1, whole);
    lemma_scale(below, q, lo * 1, whole);
    assert(0 * whole == 0 && 0 * (whole * 10) == 0) by (nonlinear_arith);
}

proof fn lemma_scale(a: int, q: int, b: int, whole: int)
    requires
        a * q == b * whole,
    ensures
        a * (10 * q) == b * (whole * 10),
{
    assert(a * (10 * q) == b * (whole * 10)) by (nonlinear_arith)
        requires
            a * q == b * whole,
    ;
}

/// A finer step: one more digit.
proof fn lemma_step_down(
    m: nat,
    n: int,
    p: int,
    rest: int,
    whole: int,
    above: int,
    below: int,
    digit: int,
    rest2: int,
)
    requires
        generating(m, n, p, rest, whole, above, below),
        rest * 10 == digit * whole + rest2,
        digit >= 0,
        rest2 >= 0,
    ensures
        generating(m, n * 10 + digit, p - 1, rest2, whole, above * 10, below * 10),
{
    lemma_pow0(10);
    lemma_ten(p - 1);
    lemma_ten(-p);
    let t = ten(p) as int;
    let d = ten(-p) as int;
    let o = one() as int;
    let q = 4 * o * t;
    let u = 4 * units(m) as int;
    let hi = gap_above(m);
    let lo = gap_below(m);
    let at = n * whole + rest;
    let at2 = (n * 10 + digit) * whole + rest2;
    assert(at2 == at * 10) by (nonlinear_arith)
        requires
            at == n * whole + rest,
            at2 == (n * 10 + digit) * whole + rest2,
            rest * 10 == digit * whole + rest2,
    ;
    if p > 0 {
        let t2 = ten(p - 1) as int;
        let q2 = 4 * o * t2;
        assert(q == 10 * q2) by (nonlinear_arith)
            requires
                q == 4 * o * t,
                q2 == 4 * o * t2,
                t == 10 * t2,
        ;
        lemma_tenfold(at, q2);
        lemma_tenfold(above, q2);
        lemma_tenfold(below, q2);
        assert(ten(-(p - 1)) == 1);
        assert(d == 1);
    } else {
        let d2 = ten(-(p - 1)) as int;
        assert(d2 == 10 * d);
        assert(ten(p - 1) == 1);
        assert(t == 1);
        lemma_deeper(at, q, u, d, whole);
        lemma_deeper(above, q, hi, d, whole);
        lemma_deeper(below, q, lo, d, whole);
    }
}

proof fn lemma_tenfold(a: int, q: int)
    ensures
        (a * 10) * q == a * (10 * q),
{
    assert((a * 10) * q == a * (10 * q)) by (nonlinear_arith);
}

proof fn lemma_deeper(a: int, q: int, b: int, d: int, whole: int)
    requires
        a * q == (b * d) * whole,
    ensures
        (a * 10) * q == (b * (10 * d)) * whole,
{
    assert((a * 10) * q == (b * (10 * d)) * whole) by (nonlinear_arith)
        requires
            a * q == (b * d) * whole,
    ;
}

/// While the magnitude reaches a whole step, the step is not too coarse.
proof fn lemma_not_too_coarse(m: nat, p: int, rest: int, whole: int, above: int, below: int)
    requires
        0 < m < INFINITE,
        p >= 0,
        generating(m, 0, p, rest, whole, above, below),
        rest + above >= whole,
    ensures
        p < 400,
{
    lemma_ten(p);
    lemma_pow0(10);
    lemma_one_positive();
    let t = ten(p) as int;
    let o = one() as int;
    let q = 4 * o * t;
    let u = units(m) as int;
    let hi = gap_above(m);
    assert(q > 0) by (nonlinear_arith)
        requires
            o > 0,
            t > 0,
            q == 4 * o * t,
    ;
    assert((rest + above) * q == (4 * u + hi) * whole) by (nonlinear_arith)
        requires
            (0 * whole + rest) * q == (4 * u * 1) * whole,
            above * q == (hi * 1) * whole,
    ;
    assert(4 * u + hi >= q) by (nonlinear_arith)
        requires
            (rest + above) * q == (4 * u + hi) * whole,
            rest + above >= whole,
            whole > 0,
            q > 0,
    ;
    lemma_units_bound(m);
    lemma_coarse_step(p);
}

proof fn lemma_units_bound(m: nat)
    requires
        m < INFINITE,
    ensures
        4 * units(m) + gap_above(m) <= 4 * pow(2, 2098),
{
    let i = INFINITE as nat;
    let f = FRACTION as nat;
    lemma_units(2046, f);
    assert(pattern(2046, f) == i) by (nonlinear_arith)
        requires
            f == 0x10_0000_0000_0000,
            i == 0x7FF0_0000_0000_0000,
    ;
    if m + 1 < i {
        lemma_units_increase(m + 1, i);
    }
    lemma_units_increase(m, m + 1);
    lemma_pow_adds(2, 52, 2046);
    vstd::arithmetic::power2::lemma2_to64();
    vstd::arithmetic::power2::lemma2_to64_rest();
    vstd::arithmetic::power2::lemma_pow2(52);
}

/// While a step is wider than the interval, it is not too fine.
proof fn lemma_not_too_fine(m: nat, n: int, p: int, rest: int, whole: int, above: int, below: int)
    requires
        0 < m < INFINITE,
        generating(m, n, p, rest, whole, above, below),
        above < whole,
    ensures
        p > -400,
        n * whole + rest == 2 * parts(m).1 * above,
        n < 2 * parts(m).1,
{
    lemma_ten(p);
    lemma_ten(-p);
    lemma_one_positive();
    lemma_gaps(m);
    let t = ten(p) as int;
    let d = ten(-p) as int;
    let o = one() as int;
    let q = 4 * o * t;
    let hi = gap_above(m);
    let sig = parts(m).1 as int;
    assert(q > 0) by (nonlinear_arith)
        requires
            o > 0,
            t > 0,
            q == 4 * o * t,
    ;
    let at = n * whole + rest;
    let twice = 2 * sig * above;
    assert(at == twice) by (nonlinear_arith)
        requires
            at * q == (4 * units(m) * d) * whole,
            4 * units(m) == 2 * sig * hi,
            above * q == (hi * d) * whole,
            twice == 2 * sig * above,
            q > 0,
    ;
    assert(n < 2 * sig) by (nonlinear_arith)
        requires
            n * whole + rest == 2 * sig * above,
            rest >= 0,
            above < whole,
            sig >= 0,
            whole > 0,
            n >= 0,
            above * q == (hi * d) * whole,
            hi > 0,
            d > 0,
            q > 0,
            sig > 0,
    ;
    assert(hi * d < q) by (nonlinear_arith)
        requires
            above * q == (hi * d) * whole,
            above < whole,
            whole > 0,
            q > 0,
    ;
    if p <= -400 {
        lemma_ten_400();
        lemma_pow_increases(10, 400, (-p) as nat);
        assert(t == 1);
        lemma_pow_adds(2, 1074, 226);
        lemma_pow_adds(2, 3, 223);
        lemma_pow_positive(2, 223);
        assert(pow(2, 3) == 8) by {
            reveal_with_fuel(pow, 4);
        }
        let k = pow(2, 226);
        assert(o * k >= 8 * o) by (nonlinear_arith)
            requires
                o > 0,
                k >= 8,
        ;
        assert(hi * d >= d) by (nonlinear_arith)
            requires
                hi >= 1,
                d > 0,
        ;
    }
}

/// The interval does not reach down to zero.
proof fn lemma_above_zero(m: nat, p: int, rest: int, whole: int, above: int, below: int)
    requires
        0 < m < INFINITE,
        generating(m, 0, p, rest, whole, above, below),
    ensures
        below < rest,
{
    lemma_gaps(m);
    lemma_ten(p);
    lemma_ten(-p);
    lemma_one_positive();
    let q = 4 * one() * ten(p);
    let d = ten(-p) as int;
    let lo = gap_below(m);
    let u = 4 * units(m) as int;
    assert(q > 0) by (nonlinear_arith)
        requires
            one() > 0,
            ten(p) > 0,
            q == 4 * one() * ten(p),
    ;
    assert((lo * d) * whole < (u * d) * whole) by (nonlinear_arith)
        requires
            lo < u,
            d > 0,
            whole > 0,
    ;
    assert(below < rest) by (nonlinear_arith)
        requires
            (0 * whole + rest) * q == (u * d) * whole,
            below * q == (lo * d) * whole,
            (lo * d) * whole < (u * d) * whole,
            q > 0,
    ;
}

/// A magnitude has an exact decimal fraction.
proof fn lemma_exact_decimal(m: nat) -> (k: nat)
    requires
        0 < m < INFINITE,
    ensures
        stands_for(k, -1074, m),
{
    reveal(rounds_to);
    let u = units(m) as int;
    let five = pow(5, 1074);
    let o = one() as int;
    let t = ten(1074) as int;
    lemma_pow_positive(5, 1074);
    lemma_one_positive();
    lemma_ten(1074);
    lemma_pow_distributes(5, 2, 1074);
    assert(u * five >= 0) by (nonlinear_arith)
        requires
            u >= 0,
            five > 0,
    ;
    let k = (u * five) as nat;
    assert(decimal_num(k, -1074) == k);
    assert(k * o == u * t) by (nonlinear_arith)
        requires
            k == u * five,
            t == five * o,
    ;
    let u0 = units((m - 1) as nat) as int;
    let u1 = units(m + 1) as int;
    lemma_units_increase((m - 1) as nat, m);
    lemma_units_increase(m, m + 1);
    assert((u0 + u) * t < 2 * (u * t)) by (nonlinear_arith)
        requires
            u0 < u,
            t > 0,
    ;
    assert(2 * (u * t) < (u + u1) * t) by (nonlinear_arith)
        requires
            u < u1,
            t > 0,
    ;
    assert(2 * k * o == 2 * (u * t)) by (nonlinear_arith)
        requires
            k * o == u * t,
    ;
    k
}

/// No decimal fraction of a step that coarse is read as a finite magnitude.
proof fn lemma_step_bound(m: nat, k: nat, p: int)
    requires
        0 < m < INFINITE,
        stands_for(k, p, m),
    ensures
        p < 400,
{
    if p >= 0 {
        lemma_stands(m, k, p);
        lemma_gaps(m);
        lemma_ten(p);
        lemma_pow0(10);
        let q = 4 * one() * ten(p);
        assert(ten(-p) == 1);
        lemma_mul_basics(4 * units(m) - gap_below(m));
        assert(k > 0) by {
            if k == 0 {
                assert(0 * q == 0) by (nonlinear_arith);
            }
        }
        assert(k * q >= q) by (nonlinear_arith)
            requires
                k >= 1,
                q > 0,
        ;
        lemma_mul_basics(4 * units(m) + gap_above(m));
        lemma_units_bound(m);
        lemma_coarse_step(p);
    }
}

/// Steps from ten to the power 400 on are beyond every finite magnitude.
proof fn lemma_coarse_step(p: int)
    ensures
        p >= 400 ==> 4 * one() * ten(p) > 4 * pow(2, 2098),
{
    if p >= 400 {
        lemma_ten(p);
        lemma_one_positive();
        lemma_ten_400();
        lemma_pow_increases(10, 400, p as nat);
        let t = ten(p) as int;
        let o = one() as int;
        let big = pow(2, 1024);
        lemma_pow_adds(2, 1024, 1074);
        lemma_pow_adds(2, 1024, 276);
        lemma_pow_adds(2, 1, 275);
        lemma_pow1(2);
        lemma_pow_positive(2, 275);
        lemma_pow_positive(2, 1024);
        let k = pow(2, 276);
        assert(big * k >= 2 * big) by (nonlinear_arith)
            requires
                big > 0,
                k >= 2,
        ;
        assert(4 * o * t > 4 * (big * o)) by (nonlinear_arith)
            requires
                t > big,
                o > 0,
        ;
    }
}

/// There is a coarsest step.
proof fn lemma_coarsest(m: nat, k: nat, p: int) -> (r: (nat, int))
    requires
        0 < m < INFINITE,
        stands_for(k, p, m),
    ensures
        stands_for(r.0, r.1, m),
        none_from(m, r.1 + 1),
    decreases 400 - p,
{
    lemma_step_bound(m, k, p);
    let next = p + 1;
    if exists|j: nat| stands_for(j, next, m) {
        let j = choose|j: nat| stands_for(j, next, m);
        lemma_step_bound(m, j, next);
        lemma_coarsest(m, j, next)
    } else {
        lemma_none_from(m, next);
        (k, p)
    }
}

/// Every finite magnitude but zero has a shortest decimal fraction.
pub proof fn lemma_shortest_exists(m: nat) -> (r: (nat, int))
    requires
        0 < m < INFINITE,
    ensures
        shortest(m, r.0, r.1),
{
    let k0 = lemma_exact_decimal(m);
    let (k, p) = lemma_coarsest(m, k0, -1074);
    lemma_stands(m, 0, p);
    lemma_ten(-p);
    lemma_gaps(m);
    let d = ten(-p) as int;
    let whole = 4 * one() * ten(p);
    let full = 4 * units(m) * d;
    assert(full >= 0) by (nonlinear_arith)
        requires
            full == 4 * units(m) * d,
            d > 0,
    ;
    let n = full / (whole as int);
    let rest = full % (whole as int);
    let above = gap_above(m) * d;
    let below = gap_below(m) * d;
    vstd::arithmetic::div_mod::lemma_fundamental_div_mod(full, whole as int);
    lemma_mul_is_commutative(n, whole as int);
    vstd::arithmetic::div_mod::lemma_div_pos_is_pos(full, whole as int);
    assert(generating(m, n, p, rest, whole as int, above, below));
    lemma_neighbours(m, n as nat, p, rest, whole as int, above, below);
    assert(stands_for(n as nat, p, m) || stands_for((n + 1) as nat, p, m)) by {
        assert(k <= n || k > n);
    }
    let up = stands_for((n + 1) as nat, p, m) && (!stands_for(n as nat, p, m) || 2 * rest
        >= whole);
    let chosen = if up {
        (n + 1) as nat
    } else {
        n as nat
    };
    lemma_choice(m, n as nat, p, rest, whole as int, above, below, chosen);
    (chosen, p)
}

/// The difference of two numbers.
fn difference(a: &BigNat, b: &BigNat) -> (r: BigNat)
    requires
        a@ >= b@,
    ensures
        r@ == a@ - b@,
{
    let mut r = a.copy();
    r.subtract(b);
    r
}

/// The shortest decimal fraction `n` times ten to the power `p` that is read
/// back as the magnitude of a finite number that is not zero.
pub fn shortest_digits(x: Binary64) -> (r: (u64, i64))
    requires
        finite(x@),
        magnitude(x@) > 0,
    ensures
        shortest(magnitude(x@), r.0 as nat, r.1 as int),
        -400 <= r.1 < 400,
{
    let ghost m = magnitude(x@);
    let (shift, significand) = x.split();
    let even: bool = x.magnitude() % 2 == 0;
    let extra: u64 = if shift > 1074 {
        shift - 1074
    } else {
        0
    };
    let deficit: u64 = if shift < 1074 {
        1074 - shift
    } else {
        0
    };
    let mut rest = BigNat::from_u64(significand);
    rest.mul_add(4, 0);
    rest.shift_left(extra as usize);
    let mut whole = BigNat::from_u64(4);
    whole.shift_left(deficit as usize);
    let mut above = BigNat::from_u64(2);
    above.shift_left(extra as usize);
    let mut below = BigNat::from_u64(if significand == FRACTION && shift > 0 {
        1
    } else {
        2
    });
    below.shift_left(extra as usize);
    let mut p: i64 = 0;
    proof {
        lemma_mul_basics(pow(2, extra as nat));
        lemma_start(
            m,
            rest@ as int,
            whole@ as int,
            above@ as int,
            below@ as int,
            extra as nat,
            deficit as nat,
        );
    }
    loop
        invariant_except_break
            0 < m < INFINITE,
            0 <= p <= 400,
            generating(m, 0, p as int, rest@ as int, whole@ as int, above@ as int, below@ as int),
        ensures
            0 <= p <= 400,
            generating(m, 0, p as int, rest@ as int, whole@ as int, above@ as int, below@ as int),
            rest@ + above@ < whole@,
        decreases 400 - p,
    {
        if !rest.at_least(&whole) {
            let gap = difference(&whole, &rest);
            if !above.at_least(&gap) {
                break;
            }
        }
        proof {
            lemma_not_too_coarse(
                m,
                p as int,
                rest@ as int,
                whole@ as int,
                above@ as int,
                below@ as int,
            );
            lemma_step_up(
                m,
                p as int,
                rest@ as int,
                whole@ as int,
                above@ as int,
                below@ as int,
            );
        }
        whole.mul_add(10, 0);
        p += 1;
    }
    let mut n: u64 = 0;
    proof {
        lemma_above_zero(m, p as int, rest@ as int, whole@ as int, above@ as int, below@ as int);
        lemma_neighbours(
            m,
            0,
            p as int,
            rest@ as int,
            whole@ as int,
            above@ as int,
            below@ as int,
        );
        assert forall|k: nat| !stands_for(k, p as int, m) by {
            assert(k <= 0 || k > 0);
        }
        lemma_none_from(m, p as int);
    }
    loop
        invariant
            0 < m < INFINITE,
            m == magnitude(x@),
            even == (m % 2 == 0),
            parts(m).1 < 2 * FRACTION,
            p <= 400,
            generating(
                m,
                n as int,
                p as int,
                rest@ as int,
                whole@ as int,
                above@ as int,
                below@ as int,
            ),
            rest@ < whole@,
            above@ < whole@,
            none_from(m, p as int),
        decreases whole@ - above@,
    {
        proof {
            lemma_not_too_fine(
                m,
                n as int,
                p as int,
                rest@ as int,
                whole@ as int,
                above@ as int,
                below@ as int,
            );
            lemma_candidates(
                m,
                n as nat,
                p as int,
                rest@ as int,
                whole@ as int,
                above@ as int,
                below@ as int,
                0,
            );
        }
        let ghost coarse = (rest@ as int, above@ as int, below@ as int);
        rest.mul_add(10, 0);
        above.mul_add(10, 0);
        below.mul_add(10, 0);
        let mut digit: u64 = 0;
        while rest.at_least(&whole)
            invariant
                coarse.0 * 10 == digit * whole@ + rest@,
                0 <= coarse.0 < whole@,
                digit <= 9,
            ensures
                coarse.0 * 10 == digit * whole@ + rest@,
                rest@ < whole@,
                digit <= 9,
            decreases rest@,
        {
            let ghost w = whole@ as int;
            proof {
                let d = digit as int;
                assert((d + 1) * w == d * w + w) by (nonlinear_arith);
                assert(d < 9) by (nonlinear_arith)
                    requires
                        (d + 1) * w <= coarse.0 * 10,
                        coarse.0 < w,
                        w > 0,
                ;
            }
            rest.subtract(&whole);
            digit += 1;
        }
        proof {
            lemma_step_down(
                m,
                n as int,
                p as int,
                coarse.0,
                whole@ as int,
                coarse.1,
                coarse.2,
                digit as int,
                rest@ as int,
            );
        }
        n = n * 10 + digit;
        p -= 1;
        proof {
            lemma_neighbours(
                m,
                n as nat,
                p as int,
                rest@ as int,
                whole@ as int,
                above@ as int,
                below@ as int,
            );
            lemma_candidates(
                m,
                n as nat,
                p as int,
                rest@ as int,
                whole@ as int,
                above@ as int,
                below@ as int,
                0,
            );
        }
        let gap = difference(&whole, &rest);
        let down: bool = if even {
            below.at_least(&rest)
        } else {
            !rest.at_least(&below)
        };
        let up: bool = if even {
            above.at_least(&gap)
        } else {
            !gap.at_least(&above)
        };
        if up || down {
            let chosen: u64 = if up && (!down || rest.at_least(&gap)) {
                n + 1
            } else {
                n
            };
            proof {
                lemma_choice(
                    m,
                    n as nat,
                    p as int,
                    rest@ as int,
                    whole@ as int,
                    above@ as int,
                    below@ as int,
                    chosen as nat,
                );
            }
            return (chosen, p);
        }
        proof {
            assert forall|k: nat| !stands_for(k, p as int, m) by {
                assert(k <= n || k > n);
            }
            lemma_none_from(m, p as int);
        }
    }
}

} // verus!
