//! The text of binary numbers.

use vstd::arithmetic::div_mod::*;
use vstd::arithmetic::mul::*;
use vstd::arithmetic::power::*;
use vstd::arithmetic::power2::{lemma2_to64, lemma2_to64_rest, lemma_pow2};
use vstd::prelude::*;
use vstd::string::*;

use crate::bignat::BigNat;
use crate::binary64::{
    double_times, finite, lemma_one_positive, magnitude, negative, not_a_number, one, units,
    Binary64,
};
use crate::shortest::{lemma_shortest_unique, shortest, shortest_digits};
use crate::text::{decimal_text, digit_char, push_decimal};

verus! {

/// A run of zeros.
pub open spec fn zeros(count: nat) -> Seq<char> {
    Seq::new(count, |i: int| '0')
}

/// Digits with a point before the last `places` of them, and a zero before the
/// point where nothing else stands there.
pub open spec fn pointed(digits: Seq<char>, places: nat) -> Seq<char> {
    if digits.len() > places {
        digits.take(digits.len() - places) + seq!['.'] + digits.skip(digits.len() - places)
    } else {
        seq!['0', '.'] + zeros((places - digits.len()) as nat) + digits
    }
}

/// The number `n` times ten to the power `p`, without an exponent.
pub open spec fn plain_text(n: nat, p: int) -> Seq<char> {
    if p >= 0 {
        decimal_text(n) + zeros(p as nat)
    } else {
        pointed(decimal_text(n), (-p) as nat)
    }
}

/// Numbers from here on are written without a fraction.
pub open spec fn large() -> nat {
    10_000_000_000_000_000
}

/// Whether a magnitude is a whole number that is written with one decimal.
pub open spec fn small_whole(m: nat) -> bool {
    units(m) % one() == 0 && units(m) / one() < large()
}

/// The shortest decimal fraction for a magnitude.
pub open spec fn shortest_pair(m: nat) -> (nat, int) {
    choose|pair: (nat, int)| #[trigger] shortest(m, pair.0, pair.1)
}

/// A finite magnitude as text.
pub open spec fn magnitude_text(m: nat) -> Seq<char> {
    if small_whole(m) {
        decimal_text(units(m) / one()) + seq!['.', '0']
    } else {
        plain_text(shortest_pair(m).0, shortest_pair(m).1)
    }
}

/// A binary number as text.
pub open spec fn float_text(bits: u64) -> Seq<char> {
    if not_a_number(bits) {
        "NaN"@
    } else {
        (if negative(bits) {
            seq!['-']
        } else {
            Seq::empty()
        }) + (if finite(bits) {
            magnitude_text(magnitude(bits))
        } else {
            "inf"@
        })
    }
}

/// The number of tenths nearest to a magnitude, the even one half way.
pub open spec fn tenths(m: nat) -> nat {
    let count = 10 * units(m) / one();
    let rest = 10 * units(m) % one();
    if 2 * rest > one() || (2 * rest == one() && count % 2 == 1) {
        count + 1
    } else {
        count
    }
}

/// A finite magnitude rounded to one decimal.
pub open spec fn tenths_text(m: nat) -> Seq<char> {
    decimal_text(tenths(m) / 10) + seq!['.', digit_char(tenths(m) % 10)]
}

proof fn lemma_decimal_length(n: nat)
    ensures
        decimal_text(n).len() > 0,
        decimal_text(n).len() <= n || decimal_text(n).len() == 1,
    decreases n,
{
    if n >= 10 {
        lemma_decimal_length(n / 10);
    }
}

fn push_zeros(count: u64, out: &mut String)
    ensures
        final(out)@ == old(out)@ + zeros(count as nat),
{
    let ghost start = out@;
    let mut i: u64 = 0;
    assert(start + zeros(0) =~= start);
    while i < count
        invariant
            i <= count,
            out@ == start + zeros(i as nat),
        decreases count - i,
    {
        out.push('0');
        i += 1;
        assert(out@ =~= start + zeros(i as nat));
    }
}

/// Appends the decimal digits `text` with a point before the last `places`.
fn push_pointed(text: &str, places: u64, out: &mut String)
    requires
        text@.len() <= u64::MAX,
    ensures
        final(out)@ == old(out)@ + pointed(text@, places as nat),
{
    let ghost start = out@;
    let mut count: u64 = 0;
    for c in it: text.chars()
        invariant
            count == it.index(),
            it.seq() == text@,
            text@.len() <= u64::MAX,
    {
        count += 1;
    }
    if count > places {
        let whole: u64 = count - places;
        let mut i: u64 = 0;
        assert(text@.take(0) =~= Seq::<char>::empty());
        assert(start + text@.take(0) =~= start);
        for c in it: text.chars()
            invariant
                i == it.index(),
                it.seq() == text@,
                count == text@.len(),
                0 < whole <= count,
                out@ == start + (if i <= whole {
                    text@.take(i as int)
                } else {
                    text@.take(whole as int) + seq!['.'] + text@.subrange(whole as int, i as int)
                }),
        {
            let ghost before = out@;
            if i == whole {
                out.push('.');
            }
            out.push(c);
            proof {
                if i < whole {
                    assert(out@ =~= start + text@.take(i + 1));
                } else {
                    assert(out@ =~= start + (text@.take(whole as int) + seq!['.'] + text@.subrange(
                        whole as int,
                        i + 1,
                    )));
                }
            }
            i += 1;
        }
        if places == 0 {
            out.push('.');
            assert(out@ =~= start + pointed(text@, 0));
        } else {
            assert(text@.subrange(whole as int, count as int) =~= text@.skip(whole as int));
        }
    } else {
        out.push('0');
        out.push('.');
        push_zeros(places - count, out);
        out.append(text);
        assert(out@ =~= start + pointed(text@, places as nat));
    }
}

/// Appends the number `n` times ten to the power `p`, without an exponent.
fn push_plain(n: u64, p: i64, out: &mut String)
    requires
        p > i64::MIN,
    ensures
        final(out)@ == old(out)@ + plain_text(n as nat, p as int),
{
    let ghost start = out@;
    if p >= 0 {
        push_decimal(n, out);
        push_zeros(p as u64, out);
        assert(out@ =~= start + plain_text(n as nat, p as int));
    } else {
        let mut digits = String::new();
        push_decimal(n, &mut digits);
        proof {
            assert(digits@ =~= decimal_text(n as nat));
            lemma_decimal_length(n as nat);
        }
        push_pointed(digits.as_str(), (-p) as u64, out);
    }
}

/// Appends a binary number.
pub fn push_float(x: Binary64, out: &mut String)
    ensures
        final(out)@ == old(out)@ + float_text(x@),
{
    let ghost start = out@;
    if x.is_nan() {
        out.append("NaN");
        return;
    }
    let ghost m = magnitude(x@);
    if x.is_negative() {
        out.push('-');
    }
    let ghost signed = out@;
    if !x.is_finite() {
        out.append("inf");
        assert(out@ =~= start + float_text(x@));
        return;
    }
    proof {
        lemma_one_positive();
        lemma_fundamental_div_mod(units(m) as int, one() as int);
        lemma_mul_is_commutative((units(m) / one()) as int, one() as int);
    }
    match x.small_integer() {
        Some(n) => {
            proof {
                lemma_fundamental_div_mod_converse(units(m) as int, one() as int, n as int, 0);
            }
            push_decimal(n, out);
            out.append(".0");
            proof {
                reveal_strlit(".0");
                assert(out@ =~= signed + magnitude_text(m));
            }
        },
        None => {
            assert(!small_whole(m)) by {
                if small_whole(m) {
                    let n = units(m) / one();
                    assert(units(m) == n * one());
                }
            }
            proof {
                if m == 0 {
                    assert(units(0) == 0);
                    lemma_fundamental_div_mod_converse(0, one() as int, 0, 0);
                }
            }
            let (n, p) = shortest_digits(x);
            push_plain(n, p, out);
            proof {
                let pair = (n as nat, p as int);
                assert(shortest(m, pair.0, pair.1));
                let chosen = shortest_pair(m);
                lemma_shortest_unique(m, pair.0, pair.1, chosen.0, chosen.1);
                assert(out@ =~= signed + magnitude_text(m));
            }
        },
    }
    assert(out@ =~= start + float_text(x@));
}

/// Appends a number of any size in decimal.
fn push_big(n: BigNat, out: &mut String)
    ensures
        final(out)@ == old(out)@ + decimal_text(n@),
{
    let ghost start = out@;
    let ghost value = n@;
    let ten = BigNat::from_u64(10);
    let mut rest = n;
    let mut digits: Vec<char> = Vec::new();
    while rest.at_least(&ten)
        invariant
            ten@ == 10,
            decimal_text(value) == decimal_text(rest@) + digits@.reverse(),
        ensures
            rest@ < 10,
            decimal_text(value) == decimal_text(rest@) + digits@.reverse(),
        decreases rest@,
    {
        let ghost before = rest@;
        let ghost behind = digits@;
        let d: u32 = rest.divide_small(10);
        digits.push(digit_of(d));
        proof {
            assert(before / 10 == rest@ && before % 10 == d);
            assert(decimal_text(before) == decimal_text(rest@).push(digit_char(d as nat)));
            assert(decimal_text(rest@) + digits@.reverse() =~= decimal_text(before)
                + behind.reverse());
        }
    }
    let first: u32 = rest.divide_small(10);
    out.push(digit_of(first));
    assert(out@ =~= start + decimal_text(first as nat));
    let mut i: usize = digits.len();
    assert(out@ + digits@.take(i as int).reverse() =~= start + decimal_text(value)) by {
        assert(digits@.take(i as int) =~= digits@);
    }
    while i > 0
        invariant
            i <= digits.len(),
            start + decimal_text(value) == out@ + digits@.take(i as int).reverse(),
        decreases i,
    {
        i -= 1;
        let ghost before = out@;
        out.push(digits[i]);
        assert(out@ + digits@.take(i as int).reverse() =~= before + digits@.take(i + 1).reverse());
    }
    assert(out@ + digits@.take(0).reverse() =~= out@);
}

fn digit_of(d: u32) -> (c: char)
    requires
        d < 10,
    ensures
        c == digit_char(d as nat),
{
    (crate::ascii::ZERO + d as u8) as char
}

/// Appends the magnitude of a finite number, rounded to one decimal.
pub fn push_tenths(x: Binary64, out: &mut String)
    requires
        finite(x@),
    ensures
        final(out)@ == old(out)@ + tenths_text(magnitude(x@)),
{
    let ghost start = out@;
    let ghost m = magnitude(x@);
    let (shift, significand) = x.split();
    let ghost small = pow(2, shift as nat);
    proof {
        lemma_one_positive();
        lemma_pow_positive(2, shift as nat);
    }
    let mut count: BigNat;
    if shift >= 1074 {
        count = BigNat::from_u64(significand);
        count.mul_add(10, 0);
        count.shift_left((shift - 1074) as usize);
        proof {
            let e = (shift - 1074) as nat;
            lemma_pow_adds(2, e, 1074);
            let p = pow(2, e);
            let o = one() as int;
            let sig = significand as int;
            assert(10 * (sig * (p * o)) == ((sig * 10) * p) * o) by (nonlinear_arith);
            lemma_fundamental_div_mod_converse(10 * units(m) as int, o, count@ as int, 0);
            assert(tenths(m) == count@);
        }
    } else {
        let times: u64 = 1074 - shift;
        let ghost step = pow(2, times as nat);
        proof {
            lemma_pow_positive(2, times as nat);
            lemma_pow_adds(2, times as nat, shift as nat);
        }
        let ten_fold: u64 = significand * 10;
        if times > 60 {
            count = BigNat::zero();
            proof {
                lemma_pow_increases(2, 60, times as nat);
                lemma2_to64();
                lemma2_to64_rest();
                lemma_pow2(60);
                let v = ten_fold as int;
                assert(10 * (significand * small) == v * small) by (nonlinear_arith)
                    requires
                        v == significand * 10,
                ;
                assert(2 * (v * small) < step * small) by (nonlinear_arith)
                    requires
                        2 * v < step,
                        small > 0,
                ;
                assert(0 <= v * small) by (nonlinear_arith)
                    requires
                        v >= 0,
                        small > 0,
                ;
                lemma_fundamental_div_mod_converse(
                    10 * units(m) as int,
                    one() as int,
                    0,
                    v * small,
                );
                assert(tenths(m) == 0);
            }
        } else {
            let unit: u128 = double_times(1, times);
            proof {
                lemma_mul_basics(step);
            }
            let v: u128 = ten_fold as u128;
            let whole: u128 = v / unit;
            let rest: u128 = v % unit;
            proof {
                lemma_pow_increases(2, times as nat, 60);
                lemma2_to64();
                lemma2_to64_rest();
                lemma_pow2(60);
                lemma_fundamental_div_mod(v as int, unit as int);
                let w = whole as int;
                let r = rest as int;
                let u = unit as int;
                let o = one() as int;
                assert(10 * (significand * small) == w * o + r * small) by (nonlinear_arith)
                    requires
                        significand * 10 == u * w + r,
                        o == u * small,
                ;
                assert(0 <= r * small < o) by (nonlinear_arith)
                    requires
                        0 <= r < u,
                        small > 0,
                        o == u * small,
                ;
                lemma_fundamental_div_mod_converse(10 * units(m) as int, o, w, r * small);
                assert(2 * (r * small) > o <==> 2 * r > u) by (nonlinear_arith)
                    requires
                        small > 0,
                        o == u * small,
                ;
                assert(2 * (r * small) == o <==> 2 * r == u) by (nonlinear_arith)
                    requires
                        small > 0,
                        o == u * small,
                ;
            }
            let up: bool = 2 * rest > unit || (2 * rest == unit && whole % 2 == 1);
            count = BigNat::from_u128(if up {
                whole + 1
            } else {
                whole
            });
            assert(tenths(m) == count@);
        }
    }
    let last: u32 = count.divide_small(10);
    let ghost whole_part = count@;
    push_big(count, out);
    out.push('.');
    out.push(digit_of(last));
    proof {
        assert(tenths(m) / 10 == whole_part && tenths(m) % 10 == last);
        assert(out@ =~= start + tenths_text(m));
    }
}

} // verus!
