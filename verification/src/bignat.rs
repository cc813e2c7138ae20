//! Natural numbers of any size.
//!
//! Turning decimal text into a binary fraction and back has to be exact, and
//! the numbers met on the way do not fit any machine integer. The handful of
//! operations that those conversions need is all there is here.

use vstd::arithmetic::mul::*;
use vstd::arithmetic::power::*;
use vstd::arithmetic::power2::{lemma2_to64, lemma_pow2};
use vstd::prelude::*;

verus! {

/// The weight of one limb relative to the one below it.
pub const LIMB: u64 = 0x1_0000_0000;

/// The number that a sequence of limbs stands for, least significant first.
pub open spec fn limbs_value(limbs: Seq<u32>) -> nat
    decreases limbs.len(),
{
    if limbs.len() == 0 {
        0
    } else {
        limbs_value(limbs.drop_last()) + limbs.last() as nat * weight((limbs.len() - 1) as nat)
    }
}

/// What the limb at a given place counts for.
pub open spec fn weight(place: nat) -> nat {
    pow(LIMB as int, place) as nat
}

proof fn lemma_weight(place: nat)
    ensures
        weight(place) > 0,
        weight(place + 1) == weight(place) * LIMB,
        weight(0) == 1,
{
    lemma_pow_positive(LIMB as int, place);
    lemma_pow_positive(LIMB as int, place + 1);
    lemma_pow0(LIMB as int);
    lemma_pow1(LIMB as int);
    lemma_pow_adds(LIMB as int, place, 1);
}

proof fn lemma_limbs_step(limbs: Seq<u32>, i: int)
    requires
        0 <= i < limbs.len(),
    ensures
        limbs_value(limbs.take(i + 1)) == limbs_value(limbs.take(i)) + limbs[i] as nat * weight(
            i as nat,
        ),
{
    assert(limbs.take(i + 1).drop_last() =~= limbs.take(i));
}

proof fn lemma_limbs_bound(limbs: Seq<u32>)
    ensures
        limbs_value(limbs) < weight(limbs.len()),
    decreases limbs.len(),
{
    lemma_weight(0);
    if limbs.len() > 0 {
        let n = (limbs.len() - 1) as nat;
        lemma_limbs_bound(limbs.drop_last());
        lemma_weight(n);
        let top = limbs.last() as int;
        let w = weight(n) as int;
        assert(top * w <= (LIMB - 1) * w) by (nonlinear_arith)
            requires
                top <= LIMB - 1,
                w >= 0,
        ;
        assert((LIMB - 1) * w + w == w * LIMB) by (nonlinear_arith);
    }
}

/// Zero limbs on top do not count.
proof fn lemma_limbs_high_zeros(limbs: Seq<u32>, from: int)
    requires
        0 <= from <= limbs.len(),
        forall|j: int| from <= j < limbs.len() ==> limbs[j] == 0,
    ensures
        limbs_value(limbs) == limbs_value(limbs.take(from)),
    decreases limbs.len(),
{
    if from == limbs.len() {
        assert(limbs.take(from) =~= limbs);
    } else {
        lemma_limbs_high_zeros(limbs.drop_last(), from);
        assert(limbs.drop_last().take(from) =~= limbs.take(from));
        lemma_mul_basics(weight((limbs.len() - 1) as nat) as int);
    }
}

/// Bits are counted up to here.
pub const MANY_BITS: usize = 0x20_0000;

/// How many bits a limb has.
fn bit_length(limb: u32) -> (bits: usize)
    ensures
        bits <= 32,
        limb < pow(2, bits as nat),
        limb > 0 ==> bits > 0 && pow(2, (bits - 1) as nat) <= limb,
{
    let mut bits: usize = 0;
    let mut rest: u32 = limb;
    proof {
        lemma_pow0(2);
        lemma2_to64();
        lemma_pow2(32);
    }
    while rest > 0
        invariant
            bits <= 32,
            pow(2, 32) == LIMB,
            rest * pow(2, bits as nat) <= limb < (rest + 1) * pow(2, bits as nat),
            rest == 0 && limb > 0 ==> bits > 0 && pow(2, (bits - 1) as nat) <= limb,
        decreases rest,
    {
        let ghost p = pow(2, bits as nat);
        let ghost old_rest = rest as int;
        proof {
            lemma_pow_positive(2, bits as nat);
            assert(p <= old_rest * p) by (nonlinear_arith)
                requires
                    old_rest >= 1,
                    p > 0,
            ;
            if bits >= 32 {
                lemma_pow_increases(2, 32, bits as nat);
            }
            lemma_pow_adds(2, bits as nat, 1);
            lemma_pow1(2);
        }
        rest = rest / 2;
        bits += 1;
        proof {
            let half = rest as int;
            assert(half * (p * 2) <= old_rest * p) by (nonlinear_arith)
                requires
                    2 * half <= old_rest,
                    p > 0,
            ;
            assert((old_rest + 1) * p <= (half + 1) * (p * 2)) by (nonlinear_arith)
                requires
                    old_rest + 1 <= 2 * half + 2,
                    p > 0,
            ;
        }
    }
    proof {
        lemma_mul_basics(pow(2, bits as nat));
    }
    bits
}

/// The bits of a number are those of its top limb and 32 for each limb below.
proof fn lemma_bit_count(limbs: Seq<u32>, bits: nat)
    requires
        limbs.len() > 0,
        bits > 0,
        pow(2, (bits - 1) as nat) <= limbs.last() < pow(2, bits),
    ensures
        limbs_value(limbs) < pow(2, (limbs.len() - 1) as nat * 32 + bits),
        pow(2, ((limbs.len() - 1) as nat * 32 + bits - 1) as nat) <= limbs_value(limbs),
{
    let n = (limbs.len() - 1) as nat;
    let w = weight(n) as int;
    let top = limbs.last() as int;
    let low = limbs_value(limbs.drop_last()) as int;
    lemma_limbs_bound(limbs.drop_last());
    lemma2_to64();
    lemma_pow2(32);
    lemma_pow_multiplies(2, 32, n);
    lemma_pow_positive(LIMB as int, n);
    assert(w == pow(2, n * 32));
    lemma_pow_adds(2, n * 32, bits);
    lemma_pow_adds(2, n * 32, (bits - 1) as nat);
    let above = pow(2, bits);
    let below = pow(2, (bits - 1) as nat);
    assert(low + top * w < w * above) by (nonlinear_arith)
        requires
            low < w,
            top + 1 <= above,
            w > 0,
    ;
    assert(w * below <= top * w) by (nonlinear_arith)
        requires
            below <= top,
            w > 0,
    ;
}

/// A natural number.
pub struct BigNat {
    limbs: Vec<u32>,
}

impl View for BigNat {
    type V = nat;

    closed spec fn view(&self) -> nat {
        limbs_value(self.limbs@)
    }
}

impl BigNat {
    /// The number zero.
    pub fn zero() -> (r: BigNat)
        ensures
            r@ == 0,
    {
        BigNat { limbs: Vec::new() }
    }

    /// A machine integer as a natural number.
    pub fn from_u64(n: u64) -> (r: BigNat)
        ensures
            r@ == n,
    {
        let mut limbs: Vec<u32> = Vec::new();
        let low: u64 = n % LIMB;
        let high: u64 = n / LIMB;
        limbs.push(low as u32);
        limbs.push(high as u32);
        proof {
            reveal_with_fuel(limbs_value, 3);
            lemma_weight(0);
            assert(limbs@.drop_last() =~= seq![low as u32]);
            assert(limbs@.drop_last().drop_last() =~= Seq::<u32>::empty());
            assert(weight(1) == LIMB);
            assert(seq![low as u32].drop_last() =~= Seq::<u32>::empty());
            assert(limbs_value(seq![low as u32]) == low as u32 as nat * weight(0));
            assert(limbs@.last() == high as u32);
        }
        BigNat { limbs }
    }

    /// A double-width machine integer as a natural number.
    pub fn from_u128(n: u128) -> (r: BigNat)
        ensures
            r@ == n,
    {
        let mut r = BigNat::from_u64((n / 0x1_0000_0000_0000_0000) as u64);
        let low: u64 = (n % 0x1_0000_0000_0000_0000) as u64;
        r.mul_add(0x8000_0000, 0);
        r.mul_add(2, (low / LIMB) as u32);
        r.mul_add(0x8000_0000, 0);
        r.mul_add(2, (low % LIMB) as u32);
        r
    }

    /// Multiplies by `factor` and then adds `extra`.
    pub fn mul_add(&mut self, factor: u32, extra: u32)
        ensures
            final(self)@ == old(self)@ * factor + extra,
    {
        let n: usize = self.limbs.len();
        let ghost before = self.limbs@;
        let mut carry: u64 = extra as u64;
        let mut i: usize = 0;
        proof {
            lemma_weight(0);
            lemma_mul_basics(factor as int);
            assert(before.take(0) =~= Seq::<u32>::empty());
            assert(self.limbs@.take(0) =~= Seq::<u32>::empty());
        }
        while i < n
            invariant
                i <= n,
                n == self.limbs.len(),
                n == before.len(),
                carry < LIMB,
                forall|j: int| i <= j < n ==> self.limbs@[j] == before[j],
                limbs_value(self.limbs@.take(i as int)) + carry * weight(i as nat) == limbs_value(
                    before.take(i as int),
                ) * factor + extra,
            decreases n - i,
        {
            let limb: u64 = self.limbs[i] as u64;
            assert(limb * factor <= 0xffff_ffff * 0xffff_ffff) by (nonlinear_arith)
                requires
                    limb <= 0xffff_ffff,
                    factor <= 0xffff_ffff,
            ;
            let total: u64 = limb * (factor as u64) + carry;
            let low: u64 = total % LIMB;
            let high: u64 = total / LIMB;
            let ghost prior = self.limbs@;
            self.limbs.set(i, low as u32);
            proof {
                lemma_weight(i as nat);
                lemma_limbs_step(before, i as int);
                lemma_limbs_step(self.limbs@, i as int);
                assert(self.limbs@.take(i as int) =~= prior.take(i as int));
                let w = weight(i as nat) as int;
                let p = limbs_value(before.take(i as int)) as int;
                let f = factor as int;
                assert((p + limb * w) * f == p * f + (limb * f) * w) by (nonlinear_arith);
                assert(low * w + high * (w * LIMB) == (low + high * LIMB) * w) by (nonlinear_arith);
                assert((limb * f + carry) * w == (limb * f) * w + carry * w) by (nonlinear_arith);
            }
            carry = high;
            i += 1;
        }
        proof {
            assert(self.limbs@.take(n as int) =~= self.limbs@);
            assert(before.take(n as int) =~= before);
        }
        if carry != 0 {
            let ghost prior = self.limbs@;
            self.limbs.push(carry as u32);
            assert(self.limbs@.drop_last() =~= prior);
        } else {
            proof {
                lemma_mul_basics(weight(n as nat) as int);
            }
        }
    }

    /// Whether this number is at least as large as another.
    pub fn at_least(&self, other: &BigNat) -> (r: bool)
        ensures
            r == (self@ >= other@),
    {
        let n: usize = if self.limbs.len() >= other.limbs.len() {
            self.limbs.len()
        } else {
            other.limbs.len()
        };
        let ghost a = padded(self.limbs@, n as nat);
        let ghost b = padded(other.limbs@, n as nat);
        proof {
            lemma_padded(self.limbs@, n as nat);
            lemma_padded(other.limbs@, n as nat);
            assert(a.take(n as int) =~= a);
            assert(b.take(n as int) =~= b);
        }
        let mut i: usize = n;
        while i > 0
            invariant
                i <= n,
                n >= self.limbs.len(),
                n >= other.limbs.len(),
                a == padded(self.limbs@, n as nat),
                b == padded(other.limbs@, n as nat),
                limbs_value(a) == self@,
                limbs_value(b) == other@,
                limbs_value(a) - limbs_value(a.take(i as int)) == limbs_value(b) - limbs_value(
                    b.take(i as int),
                ),
            decreases i,
        {
            i -= 1;
            let x: u32 = if i < self.limbs.len() {
                self.limbs[i]
            } else {
                0
            };
            let y: u32 = if i < other.limbs.len() {
                other.limbs[i]
            } else {
                0
            };
            proof {
                lemma_limbs_step(a, i as int);
                lemma_limbs_step(b, i as int);
                lemma_limbs_bound(a.take(i as int));
                lemma_limbs_bound(b.take(i as int));
                let w = weight(i as nat) as int;
                let xi = x as int;
                let yi = y as int;
                if x < y {
                    assert(xi * w + w <= yi * w) by (nonlinear_arith)
                        requires
                            xi + 1 <= yi,
                            w >= 0,
                    ;
                } else if y < x {
                    assert(yi * w + w <= xi * w) by (nonlinear_arith)
                        requires
                            yi + 1 <= xi,
                            w >= 0,
                    ;
                }
            }
            if x != y {
                return x > y;
            }
        }
        true
    }

    /// Takes another number away from this one.
    pub fn subtract(&mut self, other: &BigNat)
        requires
            old(self)@ >= other@,
        ensures
            final(self)@ == old(self)@ - other@,
    {
        let n: usize = if self.limbs.len() >= other.limbs.len() {
            self.limbs.len()
        } else {
            other.limbs.len()
        };
        let ghost b = padded(other.limbs@, n as nat);
        let ghost start = padded(self.limbs@, n as nat);
        proof {
            lemma_padded(self.limbs@, n as nat);
            lemma_padded(other.limbs@, n as nat);
        }
        while self.limbs.len() < n
            invariant
                self.limbs.len() <= n,
                padded(self.limbs@, n as nat) == start,
            decreases n - self.limbs.len(),
        {
            let ghost prior = self.limbs@;
            self.limbs.push(0);
            assert(padded(self.limbs@, n as nat) =~= padded(prior, n as nat));
        }
        assert(self.limbs@ =~= start);
        let ghost before = self.limbs@;
        let mut borrow: u64 = 0;
        let mut i: usize = 0;
        proof {
            lemma_weight(0);
            assert(before.take(0) =~= Seq::<u32>::empty());
            assert(b.take(0) =~= Seq::<u32>::empty());
        }
        while i < n
            invariant
                i <= n,
                n == self.limbs.len(),
                n == before.len(),
                n >= other.limbs.len(),
                b == padded(other.limbs@, n as nat),
                borrow <= 1,
                forall|j: int| i <= j < n ==> self.limbs@[j] == before[j],
                limbs_value(self.limbs@.take(i as int)) + limbs_value(b.take(i as int))
                    == limbs_value(before.take(i as int)) + borrow * weight(i as nat),
            decreases n - i,
        {
            let x: u64 = self.limbs[i] as u64;
            let y: u64 = if i < other.limbs.len() {
                other.limbs[i] as u64
            } else {
                0
            };
            let total: u64 = LIMB + x - y - borrow;
            let low: u64 = total % LIMB;
            let next: u64 = if total >= LIMB {
                0
            } else {
                1
            };
            let ghost prior = self.limbs@;
            self.limbs.set(i, low as u32);
            proof {
                lemma_weight(i as nat);
                lemma_limbs_step(before, i as int);
                lemma_limbs_step(b, i as int);
                lemma_limbs_step(self.limbs@, i as int);
                assert(self.limbs@.take(i as int) =~= prior.take(i as int));
                let w = weight(i as nat) as int;
                assert(low + y + borrow == x + next * LIMB);
                assert((low + y + borrow) * w == low * w + y * w + borrow * w) by (nonlinear_arith);
                assert((x + next * LIMB) * w == x * w + next * (w * LIMB)) by (nonlinear_arith);
            }
            borrow = next;
            i += 1;
        }
        proof {
            assert(self.limbs@.take(n as int) =~= self.limbs@);
            assert(before.take(n as int) =~= before);
            assert(b.take(n as int) =~= b);
            lemma_limbs_bound(self.limbs@);
            lemma_mul_basics(weight(n as nat) as int);
        }
    }

    /// Divides by a small number and returns the remainder.
    pub fn divide_small(&mut self, divisor: u32) -> (remainder: u32)
        requires
            divisor > 0,
        ensures
            remainder < divisor,
            final(self)@ * divisor + remainder == old(self)@,
    {
        let ghost before = self.limbs@;
        let n: usize = self.limbs.len();
        let d: u64 = divisor as u64;
        let mut rest: u64 = 0;
        let mut i: usize = n;
        let ghost mut quotient_high: int = 0;
        proof {
            assert(before.take(n as int) =~= before);
            lemma_mul_basics(d as int);
            lemma_mul_basics(weight(n as nat) as int);
        }
        while i > 0
            invariant
                i <= n,
                n == self.limbs.len(),
                n == before.len(),
                d == divisor,
                0 < d,
                rest < d,
                forall|j: int| 0 <= j < i ==> self.limbs@[j] == before[j],
                quotient_high == limbs_value(self.limbs@) - limbs_value(before.take(i as int)),
                limbs_value(before) == limbs_value(before.take(i as int)) + quotient_high * d + rest
                    * weight(i as nat),
            decreases i,
        {
            i -= 1;
            let limb: u64 = self.limbs[i] as u64;
            assert(rest * LIMB + limb < d * LIMB) by (nonlinear_arith)
                requires
                    rest <= d - 1,
                    limb < LIMB,
            ;
            let total: u64 = rest * LIMB + limb;
            let digit: u64 = total / d;
            let next: u64 = total % d;
            proof {
                assert(total == digit * d + next) by {
                    vstd::arithmetic::div_mod::lemma_fundamental_div_mod(total as int, d as int);
                    lemma_mul_is_commutative(d as int, digit as int);
                }
                assert(digit < LIMB) by (nonlinear_arith)
                    requires
                        total == digit * d + next,
                        total < d * LIMB,
                        next >= 0,
                ;
            }
            let ghost prior = self.limbs@;
            self.limbs.set(i, digit as u32);
            proof {
                lemma_weight(i as nat);
                lemma_limbs_step(before, i as int);
                lemma_limbs_replace(prior, i as int, digit as u32);
                let w = weight(i as nat) as int;
                let q = quotient_high;
                assert(rest * (w * LIMB) + limb * w == (rest * LIMB + limb) * w)
                    by (nonlinear_arith);
                assert((digit * d + next) * w == (digit * w) * d + next * w) by (nonlinear_arith);
                assert((q + digit * w) * d == q * d + (digit * w) * d) by (nonlinear_arith);
                quotient_high = q + digit * w;
            }
            rest = next;
        }
        proof {
            assert(before.take(0) =~= Seq::<u32>::empty());
            lemma_weight(0);
            lemma_mul_basics(rest as int);
            assert(limbs_value(before) == limbs_value(self.limbs@) * d + rest);
        }
        self.trim();
        rest as u32
    }

    /// Drops the zero limbs on top.
    fn trim(&mut self)
        ensures
            final(self)@ == old(self)@,
            final(self).limbs@.len() <= old(self).limbs@.len(),
            final(self).limbs@ == old(self).limbs@.take(final(self).limbs@.len() as int),
            final(self).limbs@.len() > 0 ==> final(self).limbs@.last() != 0,
            forall|j: int|
                final(self).limbs@.len() <= j < old(self).limbs@.len() ==> old(self).limbs@[j] == 0,
    {
        let ghost before = self.limbs@;
        let mut n: usize = self.limbs.len();
        while n > 0 && self.limbs[n - 1] == 0
            invariant
                n <= self.limbs.len(),
                self.limbs@ == before,
                forall|j: int| n <= j < before.len() ==> before[j] == 0,
            decreases n,
        {
            n -= 1;
        }
        self.limbs.truncate(n);
        proof {
            lemma_limbs_high_zeros(before, n as int);
            assert(self.limbs@ =~= before.take(n as int));
        }
    }

    /// Whether this is the number zero.
    pub fn is_zero(&self) -> (r: bool)
        ensures
            r == (self@ == 0),
    {
        !self.at_least(&BigNat::from_u64(1))
    }

    /// A copy of the number.
    pub fn copy(&self) -> (r: BigNat)
        ensures
            r@ == self@,
    {
        let mut limbs: Vec<u32> = Vec::with_capacity(self.limbs.len());
        let mut i: usize = 0;
        while i < self.limbs.len()
            invariant
                i <= self.limbs.len(),
                limbs@ == self.limbs@.take(i as int),
            decreases self.limbs.len() - i,
        {
            limbs.push(self.limbs[i]);
            i += 1;
            assert(limbs@ =~= self.limbs@.take(i as int));
        }
        assert(self.limbs@.take(i as int) =~= self.limbs@);
        BigNat { limbs }
    }

    /// How many bits the number has, as far as [`MANY_BITS`].
    pub fn bit_count(&self) -> (r: usize)
        ensures
            r <= MANY_BITS,
            r < MANY_BITS ==> self@ < pow(2, r as nat),
            r > 0 ==> pow(2, (r - 1) as nat) <= self@,
    {
        let mut n: usize = self.limbs.len();
        while n > 0 && self.limbs[n - 1] == 0
            invariant
                n <= self.limbs.len(),
                forall|j: int| n <= j < self.limbs@.len() ==> self.limbs@[j] == 0,
            decreases n,
        {
            n -= 1;
        }
        proof {
            lemma_limbs_high_zeros(self.limbs@, n as int);
        }
        if n == 0 {
            proof {
                lemma_pow0(2);
            }
            return 0;
        }
        let bits: usize = bit_length(self.limbs[n - 1]);
        proof {
            lemma_bit_count(self.limbs@.take(n as int), bits as nat);
        }
        if n > MANY_BITS / 32 {
            proof {
                lemma_pow_increases(
                    2,
                    (MANY_BITS - 1) as nat,
                    ((n - 1) * 32 + bits - 1) as nat,
                );
            }
            return MANY_BITS;
        }
        (n - 1) * 32 + bits
    }

    /// Multiplies by a power of two.
    pub fn shift_left(&mut self, bits: usize)
        ensures
            final(self)@ == old(self)@ * pow(2, bits as nat),
    {
        let ghost before = self@ as int;
        let mut left: usize = bits;
        proof {
            lemma_pow0(2);
            lemma_mul_basics(before);
            assert(pow(2, 16) == 0x1_0000) by {
                lemma2_to64();
                lemma_pow2(16);
            }
            lemma_pow1(2);
        }
        while left >= 16
            invariant
                left <= bits,
                pow(2, 16) == 0x1_0000,
                self@ == before * pow(2, (bits - left) as nat),
            decreases left,
        {
            self.mul_add(0x1_0000, 0);
            proof {
                lemma_pow_adds(2, (bits - left) as nat, 16);
                lemma_mul_is_associative(before, pow(2, (bits - left) as nat), 0x1_0000);
            }
            left -= 16;
        }
        while left > 0
            invariant
                left <= bits,
                pow(2, 1) == 2,
                self@ == before * pow(2, (bits - left) as nat),
            decreases left,
        {
            self.mul_add(2, 0);
            proof {
                lemma_pow_adds(2, (bits - left) as nat, 1);
                lemma_mul_is_associative(before, pow(2, (bits - left) as nat), 2);
            }
            left -= 1;
        }
    }

    /// Multiplies by a power of ten.
    pub fn scale_ten(&mut self, zeros: u128)
        ensures
            final(self)@ == old(self)@ * pow(10, zeros as nat),
    {
        let ghost before = self@ as int;
        let mut left: u128 = zeros;
        proof {
            lemma_pow0(10);
            lemma_mul_basics(before);
            lemma_pow1(10);
            assert(pow(10, 8) == 1_0000_0000) by {
                reveal_with_fuel(pow, 9);
            }
        }
        while left >= 8
            invariant
                left <= zeros,
                pow(10, 8) == 1_0000_0000,
                self@ == before * pow(10, (zeros - left) as nat),
            decreases left,
        {
            self.mul_add(1_0000_0000, 0);
            proof {
                lemma_pow_adds(10, (zeros - left) as nat, 8);
                lemma_mul_is_associative(before, pow(10, (zeros - left) as nat), 1_0000_0000);
            }
            left -= 8;
        }
        while left > 0
            invariant
                left <= zeros,
                pow(10, 1) == 10,
                self@ == before * pow(10, (zeros - left) as nat),
            decreases left,
        {
            self.mul_add(10, 0);
            proof {
                lemma_pow_adds(10, (zeros - left) as nat, 1);
                lemma_mul_is_associative(before, pow(10, (zeros - left) as nat), 10);
            }
            left -= 1;
        }
    }
}

/// A sequence of limbs filled up with zeros to a given length.
spec fn padded(limbs: Seq<u32>, n: nat) -> Seq<u32> {
    Seq::new(
        n,
        |i: int|
            if i < limbs.len() {
                limbs[i]
            } else {
                0u32
            },
    )
}

proof fn lemma_padded(limbs: Seq<u32>, n: nat)
    requires
        limbs.len() <= n,
    ensures
        limbs_value(padded(limbs, n)) == limbs_value(limbs),
{
    lemma_limbs_high_zeros(padded(limbs, n), limbs.len() as int);
    assert(padded(limbs, n).take(limbs.len() as int) =~= limbs);
}

/// What replacing one limb does to the number.
proof fn lemma_limbs_replace(limbs: Seq<u32>, i: int, limb: u32)
    requires
        0 <= i < limbs.len(),
    ensures
        limbs_value(limbs.update(i, limb)) == limbs_value(limbs) - limbs[i] as nat * weight(
            i as nat,
        ) + limb as nat * weight(i as nat),
    decreases limbs.len(),
{
    if i == limbs.len() - 1 {
        assert(limbs.update(i, limb).drop_last() =~= limbs.drop_last());
    } else {
        assert(limbs.update(i, limb).drop_last() =~= limbs.drop_last().update(i, limb));
        lemma_limbs_replace(limbs.drop_last(), i, limb);
    }
}

} // verus!
