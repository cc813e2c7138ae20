//! A fixed-memory histogram for approximate quantiles.
//!
//! Percentiles over a multi-gigabyte file cannot be computed by keeping every
//! sample around. This histogram buckets values on a log scale with 16
//! sub-buckets per octave, which bounds the relative error of any reported
//! quantile to about 3% (values below 16 are counted exactly), while using a
//! few kilobytes no matter how many samples arrive.

use vstd::arithmetic::div_mod::{lemma_div_is_ordered, lemma_div_pos_is_pos};
use vstd::arithmetic::mul::*;
use vstd::arithmetic::power::*;
use vstd::prelude::*;

use crate::binary64::{
    ceiling, finite, lemma_fraction, lemma_one_positive, lemma_rounds_bounded, lemma_rounds_exists,
    lemma_rounds_finite, lemma_units, lemma_units_increase, lemma_whole_bounds, magnitude, nearest,
    negative, not_a_number, one, pattern, product, quotient, rank, ratio, rounding_is_monotonic,
    small_quotients_are_nearest, units, Binary64, FRACTION,
};

verus! {

/// Number of sub-buckets per power of two. 16 gives ~3% relative error.
const SUB_COUNT: u64 = 16;

/// How many buckets hold all `u64` values.
pub const BUCKETS: usize = 976;

/// The bucket of a value: values below 32 have their own, and from there on
/// every doubling of the value is 16 buckets further.
pub open spec fn bucket(value: nat) -> nat
    decreases value,
{
    if value < 32 {
        value
    } else {
        16 + bucket(value / 2)
    }
}

/// The smallest value of a bucket.
pub open spec fn bucket_start(index: nat) -> nat
    decreases index,
{
    if index < 32 {
        index
    } else {
        2 * bucket_start((index - 16) as nat)
    }
}

/// How many values a bucket holds.
pub open spec fn bucket_width(index: nat) -> nat
    decreases index,
{
    if index < 32 {
        1
    } else {
        2 * bucket_width((index - 16) as nat)
    }
}

/// The value behind a bucket, or the largest `u64` if that is too large.
pub open spec fn bucket_stop(index: nat) -> nat {
    if bucket_start(index) + bucket_width(index) <= u64::MAX {
        bucket_start(index) + bucket_width(index)
    } else {
        u64::MAX as nat
    }
}

/// The value that is reported for a bucket.
pub open spec fn bucket_middle(index: nat) -> nat {
    bucket_start(index) + (bucket_stop(index) - bucket_start(index)) as nat / 2
}

/// How many samples are in a bucket.
pub open spec fn in_bucket(samples: Seq<u64>, index: nat) -> nat
    decreases samples.len(),
{
    if samples.len() == 0 {
        0
    } else {
        in_bucket(samples.drop_last(), index) + if bucket(samples.last() as nat) == index {
            1nat
        } else {
            0
        }
    }
}

/// How many samples are in the buckets before the given one.
pub open spec fn before_bucket(samples: Seq<u64>, index: nat) -> nat
    decreases samples.len(),
{
    if samples.len() == 0 {
        0
    } else {
        before_bucket(samples.drop_last(), index) + if bucket(samples.last() as nat) < index {
            1nat
        } else {
            0
        }
    }
}

/// The sum of samples.
pub open spec fn total(samples: Seq<u64>) -> nat
    decreases samples.len(),
{
    if samples.len() == 0 {
        0
    } else {
        total(samples.drop_last()) + samples.last() as nat
    }
}

/// Whether a value is the smallest sample.
pub open spec fn is_smallest(samples: Seq<u64>, value: u64) -> bool {
    samples.contains(value) && forall|i: int| 0 <= i < samples.len() ==> value <= #[trigger] samples[i]
}

/// Whether a value is the largest sample.
pub open spec fn is_largest(samples: Seq<u64>, value: u64) -> bool {
    samples.contains(value) && forall|i: int| 0 <= i < samples.len() ==> #[trigger] samples[i] <= value
}

/// The number one as a binary number.
pub open spec fn one_bits() -> u64 {
    0x3FF0_0000_0000_0000
}

/// The 1-based rank of the sample wanted for a quantile between zero and one;
/// what is no number asks for the first.
pub open spec fn wanted_rank(q: u64, count: nat) -> nat {
    let place = ceiling(product(magnitude(q), nearest(count, 1)));
    if not_a_number(q) || place < 1 {
        1
    } else if place <= u64::MAX {
        place
    } else {
        u64::MAX as nat
    }
}

/// Whether the sample of a given rank is in a bucket.
pub open spec fn holds_rank(samples: Seq<u64>, index: nat, place: nat) -> bool {
    before_bucket(samples, index) < place <= before_bucket(samples, index + 1)
}

/// A value moved into a range.
pub open spec fn clamped(value: nat, low: u64, high: u64) -> nat {
    if value < low {
        low as nat
    } else if value > high {
        high as nat
    } else {
        value
    }
}

/// Whether a value is the quantile reported for some samples.
pub open spec fn is_quantile(samples: Seq<u64>, q: u64, value: u64) -> bool {
    if !not_a_number(q) && rank(q) <= 0 {
        is_smallest(samples, value)
    } else if !not_a_number(q) && rank(q) >= one_bits() {
        is_largest(samples, value)
    } else if wanted_rank(q, samples.len()) > samples.len() {
        is_largest(samples, value)
    } else {
        exists|index: nat, low: u64, high: u64|
            {
                &&& #[trigger] holds_rank(samples, index, wanted_rank(q, samples.len()))
                &&& #[trigger] is_smallest(samples, low)
                &&& #[trigger] is_largest(samples, high)
                &&& value == clamped(bucket_middle(index), low, high)
            }
    }
}

pub proof fn lemma_bucket(value: nat)
    ensures
        bucket_start(bucket(value)) <= value < bucket_start(bucket(value)) + bucket_width(
            bucket(value),
        ),
        value <= u64::MAX ==> bucket(value) < BUCKETS,
    decreases value,
{
    if value >= 32 {
        lemma_bucket(value / 2);
        assert(bucket(value / 2) >= 16) by {
            reveal_with_fuel(bucket, 2);
        }
        if value <= u64::MAX {
            lemma_2_64();
            lemma_bucket_limit(value, 59);
        }
    }
}

/// Few doublings keep the bucket small.
proof fn lemma_bucket_limit(value: nat, doublings: nat)
    requires
        value < 32 * pow(2, doublings),
    ensures
        bucket(value) < 32 + 16 * doublings,
    decreases doublings,
{
    lemma_pow0(2);
    if value >= 32 {
        let less = (doublings - 1) as nat;
        lemma_pow_adds(2, 1, less);
        lemma_pow1(2);
        lemma_bucket_limit(value / 2, less);
    }
}

/// Where a bucket lies.
proof fn lemma_bucket_shape(index: nat)
    ensures
        bucket_width(index) >= 1,
        index >= 16 ==> 16 * bucket_width(index) <= bucket_start(index),
        index >= 16 ==> bucket_start(index) + bucket_width(index) <= 32 * bucket_width(index),
        bucket_start(index + 1) == bucket_start(index) + bucket_width(index),
    decreases index,
{
    reveal_with_fuel(bucket_start, 2);
    reveal_with_fuel(bucket_width, 2);
    if index >= 32 {
        lemma_bucket_shape((index - 16) as nat);
    }
}

/// The widths double every 16 buckets.
proof fn lemma_width_limit(index: nat, octaves: nat)
    requires
        index < 32 + 16 * octaves,
    ensures
        bucket_width(index) <= pow(2, octaves),
    decreases octaves,
{
    lemma_pow_positive(2, octaves);
    if index >= 32 {
        let less = (octaves - 1) as nat;
        lemma_pow_adds(2, 1, less);
        lemma_pow1(2);
        lemma_width_limit((index - 16) as nat, less);
    }
}

/// A larger value is never in an earlier bucket.
pub proof fn buckets_are_monotonic(a: nat, b: nat)
    requires
        a <= b,
    ensures
        bucket(a) <= bucket(b),
    decreases b,
{
    if a >= 32 {
        buckets_are_monotonic(a / 2, b / 2);
    } else if b >= 32 {
        reveal_with_fuel(bucket, 2);
    }
}

/// Every value lies in the range of its own bucket.
pub proof fn values_lie_in_their_bucket(value: u64)
    ensures
        bucket(value as nat) < BUCKETS,
        bucket_start(bucket(value as nat)) <= value,
        value < bucket_stop(bucket(value as nat)) || bucket_stop(bucket(value as nat)) == u64::MAX,
{
    lemma_2_64();
    lemma_bucket(value as nat);
}

proof fn lemma_2_64()
    ensures
        32 * pow(2, 59) == u64::MAX + 1,
{
    vstd::arithmetic::power2::lemma2_to64();
    vstd::arithmetic::power2::lemma2_to64_rest();
    vstd::arithmetic::power2::lemma_pow2(59);
}

/// The middle of a bucket is off by less than one part in 32 from each of its
/// values, and values below 16 are exact.
pub proof fn bucket_middles_are_near(value: u64)
    ensures
        ({
            let middle = bucket_middle(bucket(value as nat)) as int;
            &&& value < 16 ==> middle == value
            &&& 32 * (middle - value) <= value
            &&& 32 * (value - middle) <= value
        }),
{
    let index = bucket(value as nat);
    lemma_2_64();
    lemma_bucket(value as nat);
    lemma_bucket_shape(index);
    if value < 32 {
        assert(index == value);
        assert(bucket_stop(index) == value + 1);
    } else {
        reveal_with_fuel(bucket, 2);
        assert(index >= 32);
        assert(bucket_width(index) % 2 == 0);
    }
}

/// Streaming histogram over `u64` values.
#[derive(Debug, Clone)]
pub struct Histogram {
    buckets: Vec<u64>,
    count: u64,
    sum: u128,
    min: u64,
    max: u64,
}

impl Default for Histogram {
    fn default() -> (r: Histogram)
        ensures
            r.wf(),
            r.holds(Seq::empty()),
    {
        Histogram::new()
    }
}

impl Histogram {
    /// Whether this is the histogram of the given samples.
    pub closed spec fn holds(&self, samples: Seq<u64>) -> bool {
        &&& self.count == samples.len()
        &&& self.sum == total(samples)
        &&& samples.len() == 0 ==> self.min == u64::MAX && self.max == 0
        &&& samples.len() > 0 ==> is_smallest(samples, self.min) && is_largest(samples, self.max)
        &&& self.buckets@.len() <= BUCKETS
        &&& forall|i: int|
            0 <= i < self.buckets@.len() ==> #[trigger] self.buckets@[i] == in_bucket(
                samples,
                i as nat,
            )
        &&& forall|i: nat| i >= self.buckets@.len() ==> #[trigger] in_bucket(samples, i) == 0
    }

    /// Whether this is the histogram of some samples.
    pub open spec fn wf(&self) -> bool {
        exists|samples: Seq<u64>| self.holds(samples)
    }

    /// How many samples were recorded.
    pub closed spec fn size(&self) -> nat {
        self.count as nat
    }

    /// A histogram knows how many samples it holds.
    pub proof fn lemma_size(&self, samples: Seq<u64>)
        requires
            self.holds(samples),
        ensures
            self.size() == samples.len(),
    {
    }

    /// Creates an empty histogram.
    pub fn new() -> (r: Histogram)
        ensures
            r.wf(),
            r.holds(Seq::empty()),
    {
        let r = Histogram { buckets: Vec::new(), count: 0, sum: 0, min: u64::MAX, max: 0 };
        assert(r.holds(Seq::empty()));
        r
    }

    /// Records one observation.
    pub fn record(&mut self, value: u64)
        requires
            old(self).wf(),
            old(self).size() < u64::MAX,
        ensures
            final(self).wf(),
            forall|samples: Seq<u64>| #[trigger]
                old(self).holds(samples) ==> final(self).holds(samples.push(value)),
    {
        let ghost before = *self;
        let ghost witness = choose|samples: Seq<u64>| self.holds(samples);
        let index: usize = Self::bucket_of(value);
        proof {
            lemma_bucket(value as nat);
            lemma_total(witness);
        }
        if index >= self.buckets.len() {
            self.buckets.resize(index + 1, 0);
        }
        proof {
            lemma_in_bucket(witness, index as nat);
            assert(in_bucket(witness, index as nat) == self.buckets@[index as int]);
        }
        let held: u64 = self.buckets[index];
        self.buckets.set(index, held + 1);
        self.count = self.count + 1;
        self.sum = self.sum + value as u128;
        if value < self.min {
            self.min = value;
        }
        if value > self.max {
            self.max = value;
        }
        proof {
            assert forall|samples: Seq<u64>| #[trigger] before.holds(samples) implies self.holds(
                samples.push(value),
            ) by {
                let longer = samples.push(value);
                assert(longer.drop_last() =~= samples);
                assert(longer[longer.len() - 1] == value);
                assert forall|i: int| 0 <= i < samples.len() implies longer[i] == samples[i] by {}
                if samples.len() > 0 {
                    let low = samples.index_of(before.min);
                    let high = samples.index_of(before.max);
                    assert(longer[low] == before.min);
                    assert(longer[high] == before.max);
                }
                assert(is_smallest(longer, self.min));
                assert(is_largest(longer, self.max));
                assert forall|i: int| 0 <= i < self.buckets@.len() implies #[trigger] self.buckets@[i]
                    == in_bucket(longer, i as nat) by {
                    if i >= before.buckets@.len() {
                        assert(in_bucket(samples, i as nat) == 0);
                    } else {
                        assert(before.buckets@[i] == in_bucket(samples, i as nat));
                    }
                }
                assert forall|i: nat| i >= self.buckets@.len() implies #[trigger] in_bucket(
                    longer,
                    i,
                ) == 0 by {
                    assert(in_bucket(samples, i) == 0);
                }
            }
            assert(self.holds(witness.push(value)));
        }
    }

    /// Number of recorded observations.
    pub fn count(&self) -> (n: u64)
        ensures
            n == self.size(),
            forall|samples: Seq<u64>| #[trigger] self.holds(samples) ==> n == samples.len(),
    {
        self.count
    }

    /// Smallest observed value, or `None` when empty.
    pub fn min(&self) -> (r: Option<u64>)
        ensures
            r is None <==> self.size() == 0,
            forall|samples: Seq<u64>| #[trigger]
                self.holds(samples) ==> match r {
                    Some(value) => is_smallest(samples, value),
                    None => samples.len() == 0,
                },
    {
        if self.count > 0 {
            Some(self.min)
        } else {
            None
        }
    }

    /// Largest observed value, or `None` when empty.
    pub fn max(&self) -> (r: Option<u64>)
        ensures
            r is None <==> self.size() == 0,
            forall|samples: Seq<u64>| #[trigger]
                self.holds(samples) ==> match r {
                    Some(value) => is_largest(samples, value),
                    None => samples.len() == 0,
                },
    {
        if self.count > 0 {
            Some(self.max)
        } else {
            None
        }
    }

    /// Exact sum of all observations.
    pub fn sum(&self) -> (n: u128)
        ensures
            forall|samples: Seq<u64>| #[trigger] self.holds(samples) ==> n == total(samples),
    {
        self.sum
    }

    /// Exact arithmetic mean, or `None` when empty.
    ///
    /// The sum and the count are rounded to binary numbers before the division.
    pub fn mean(&self) -> (r: Option<Binary64>)
        ensures
            r is None <==> self.size() == 0,
            r matches Some(x) ==> finite(x@) && !negative(x@),
            forall|samples: Seq<u64>| #[trigger]
                self.holds(samples) ==> match r {
                    Some(x) => x@ == mean_of(samples),
                    None => samples.len() == 0,
                },
    {
        if self.count == 0 {
            return None;
        }
        Some(ratio(self.sum, self.count))
    }

    /// Approximate quantile for `q` in `[0, 1]`.
    ///
    /// The result is the midpoint of the bucket holding the `q`-th observation,
    /// clamped to the exact minimum and maximum. `q <= 0` returns the minimum
    /// and `q >= 1` returns the maximum exactly.
    pub fn quantile(&self, q: Binary64) -> (r: Option<u64>)
        requires
            self.wf(),
        ensures
            r is None <==> self.size() == 0,
            forall|samples: Seq<u64>| #[trigger]
                self.holds(samples) ==> match r {
                    Some(value) => is_quantile(samples, q@, value),
                    None => samples.len() == 0,
                },
    {
        if self.count == 0 {
            return None;
        }
        let zero = Binary64::from_bits(0);
        let whole = Binary64::from_bits(0x3FF0_0000_0000_0000);
        proof {
            lemma_one_bits();
        }
        let mut place: u64 = 1;
        if !q.is_nan() {
            if !zero.is_below(q) {
                return Some(self.min);
            }
            if !q.is_below(whole) {
                return Some(self.max);
            }
            let count = Binary64::from_u128(self.count as u128);
            let x = q.multiply(count);
            proof {
                lemma_whole_bounds(self.count as nat, magnitude(count@));
                lemma_share_finite(
                    self.count as nat,
                    magnitude(q@),
                    magnitude(count@),
                    magnitude(x@),
                );
            }
            let up: u64 = x.ceiling();
            if up > 1 {
                place = up;
            }
        }
        assert(place == wanted_rank(q@, self.count as nat));
        let mut seen: u64 = 0;
        let mut index: usize = 0;
        let ghost witness = choose|samples: Seq<u64>| self.holds(samples);
        proof {
            lemma_before_none(witness);
        }
        while index < self.buckets.len()
            invariant
                self.holds(witness),
                index <= self.buckets@.len() <= BUCKETS,
                self.count > 0,
                place >= 1,
                place == wanted_rank(q@, self.count as nat),
                not_a_number(q@) || 0 < rank(q@) < one_bits(),
                seen == before_bucket(witness, index as nat),
                seen < place,
            decreases self.buckets.len() - index,
        {
            let n: u64 = self.buckets[index];
            proof {
                lemma_before_next(witness, index as nat);
                lemma_before(witness, (index + 1) as nat);
            }
            seen = seen + n;
            if seen >= place {
                let (low, high) = Self::bucket_range(index);
                let middle: u64 = low + (high - low) / 2;
                let value: u64 = if middle < self.min {
                    self.min
                } else if middle > self.max {
                    self.max
                } else {
                    middle
                };
                proof {
                    assert forall|samples: Seq<u64>| #[trigger] self.holds(samples) implies
                        is_quantile(samples, q@, value) by {
                        self.lemma_same_ranks(samples, witness, index as nat);
                        self.lemma_same_ranks(samples, witness, (index + 1) as nat);
                        lemma_before(samples, (index + 1) as nat);
                        assert(holds_rank(samples, index as nat, place as nat));
                        assert(is_smallest(samples, self.min));
                        assert(is_largest(samples, self.max));
                    }
                }
                return Some(value);
            }
            index += 1;
        }
        proof {
            lemma_before_all(witness, index as nat);
        }
        Some(self.max)
    }

    /// Two sets of samples with one histogram agree on the ranks of buckets.
    proof fn lemma_same_ranks(&self, a: Seq<u64>, b: Seq<u64>, index: nat)
        requires
            self.holds(a),
            self.holds(b),
        ensures
            before_bucket(a, index) == before_bucket(b, index),
        decreases index,
    {
        if index == 0 {
            lemma_before_none(a);
            lemma_before_none(b);
        } else {
            let less = (index - 1) as nat;
            self.lemma_same_ranks(a, b, less);
            lemma_before_next(a, less);
            lemma_before_next(b, less);
            if less < self.buckets@.len() {
                assert(self.buckets@[less as int] == in_bucket(a, less));
                assert(self.buckets@[less as int] == in_bucket(b, less));
            } else {
                assert(in_bucket(a, less) == 0);
                assert(in_bucket(b, less) == 0);
            }
        }
    }

    /// Bucket index for a value. Monotonically non-decreasing in `value`.
    pub fn bucket_of(value: u64) -> (index: usize)
        ensures
            index == bucket(value as nat),
            index < BUCKETS,
    {
        let mut rest: u64 = value;
        let mut index: usize = 0;
        proof {
            lemma_bucket(value as nat);
        }
        while rest >= 2 * SUB_COUNT
            invariant
                bucket(value as nat) == index + bucket(rest as nat),
                bucket(value as nat) < BUCKETS,
            decreases rest,
        {
            rest = rest / 2;
            index = index + SUB_COUNT as usize;
        }
        index + rest as usize
    }

    /// Half-open `[lo, hi)` value range covered by a bucket index.
    ///
    /// The upper bound saturates at `u64::MAX` for the very last bucket.
    pub fn bucket_range(index: usize) -> (r: (u64, u64))
        requires
            index < BUCKETS,
        ensures
            r.0 == bucket_start(index as nat),
            r.1 == bucket_stop(index as nat),
            r.0 <= r.1,
    {
        let mut rest: usize = index;
        let mut octaves: u64 = 0;
        let mut factor: u64 = 1;
        proof {
            lemma_2_64();
            lemma_bucket_shape(index as nat);
            lemma_width_limit(index as nat, 59);
            lemma_pow0(2);
        }
        while rest >= 32
            invariant
                index < BUCKETS,
                rest + 16 * octaves == index,
                rest >= 16 || octaves == 0,
                octaves <= 59,
                factor == pow(2, octaves as nat),
                32 * pow(2, 59) == u64::MAX + 1,
                bucket_start(index as nat) == bucket_start(rest as nat) * factor,
                bucket_width(index as nat) == bucket_width(rest as nat) * factor,
            decreases rest,
        {
            proof {
                lemma_pow_adds(2, octaves as nat, 1);
                lemma_pow1(2);
                lemma_pow_increases(2, octaves as nat, 58);
                lemma_pow_adds(2, 58, 1);
                let f = factor as int;
                let a = bucket_start((rest - 16) as nat) as int;
                let b = bucket_width((rest - 16) as nat) as int;
                assert((2 * a) * f == a * (f * 2)) by (nonlinear_arith);
                assert((2 * b) * f == b * (f * 2)) by (nonlinear_arith);
            }
            rest = rest - 16;
            octaves = octaves + 1;
            factor = factor * 2;
        }
        proof {
            lemma_pow_increases(2, octaves as nat, 59);
            let f = factor as int;
            let r = rest as int;
            assert(r * f <= 31 * f) by (nonlinear_arith)
                requires
                    r <= 31,
                    f >= 0,
            ;
            lemma_mul_basics(f);
        }
        let low: u64 = rest as u64 * factor;
        let high: u64 = if low <= u64::MAX - factor {
            low + factor
        } else {
            u64::MAX
        };
        (low, high)
    }
}

proof fn lemma_total(samples: Seq<u64>)
    ensures
        total(samples) <= samples.len() * u64::MAX,
    decreases samples.len(),
{
    if samples.len() > 0 {
        lemma_total(samples.drop_last());
        let n = samples.len() as int;
        assert((n - 1) * u64::MAX == n * u64::MAX - u64::MAX) by (nonlinear_arith);
    }
}

proof fn lemma_in_bucket(samples: Seq<u64>, index: nat)
    ensures
        in_bucket(samples, index) <= samples.len(),
    decreases samples.len(),
{
    if samples.len() > 0 {
        lemma_in_bucket(samples.drop_last(), index);
    }
}

proof fn lemma_before(samples: Seq<u64>, index: nat)
    ensures
        before_bucket(samples, index) <= samples.len(),
    decreases samples.len(),
{
    if samples.len() > 0 {
        lemma_before(samples.drop_last(), index);
    }
}

proof fn lemma_before_none(samples: Seq<u64>)
    ensures
        before_bucket(samples, 0) == 0,
    decreases samples.len(),
{
    if samples.len() > 0 {
        lemma_before_none(samples.drop_last());
    }
}

proof fn lemma_before_next(samples: Seq<u64>, index: nat)
    ensures
        before_bucket(samples, index + 1) == before_bucket(samples, index) + in_bucket(
            samples,
            index,
        ),
    decreases samples.len(),
{
    if samples.len() > 0 {
        lemma_before_next(samples.drop_last(), index);
    }
}

/// Behind the last bucket in use come all samples.
proof fn lemma_before_all(samples: Seq<u64>, index: nat)
    requires
        forall|i: nat| i >= index ==> #[trigger] in_bucket(samples, i) == 0,
    ensures
        before_bucket(samples, index) == samples.len(),
    decreases samples.len(),
{
    if samples.len() > 0 {
        let rest = samples.drop_last();
        assert forall|i: nat| i >= index implies #[trigger] in_bucket(rest, i) == 0 by {
            assert(in_bucket(samples, i) == 0);
        }
        lemma_before_all(rest, index);
        let last = bucket(samples.last() as nat);
        if last >= index {
            assert(in_bucket(samples, last) == 0);
        }
    }
}

/// The number one holds as many units as it should.
pub proof fn lemma_one_bits()
    ensures
        units(one_bits() as nat) == one(),
{
    let f = FRACTION as nat;
    assert(pattern(1022, f) == one_bits() as nat);
    lemma_units(1022, f);
    lemma_fraction();
    lemma_pow_adds(2, 52, 1022);
    lemma_one_positive();
}

proof fn lemma_share_finite(n: nat, q: nat, m: nat, x: nat)
    requires
        n <= u64::MAX,
        q < one_bits(),
        units(m) <= 2 * n * one(),
        crate::binary64::rounds_to(units(q) * units(m), one() * one(), x),
    ensures
        x < crate::binary64::INFINITE,
{
    lemma_one_bits();
    lemma_units_increase(q, one_bits() as nat);
    lemma_one_positive();
    lemma_2_64();
    lemma_pow_increases(2, 59, 995);
    lemma_pow_adds(2, 995, 5);
    assert(pow(2, 5) == 32) by {
        reveal_with_fuel(pow, 6);
    }
    let o = one() as int;
    let a = units(q) as int;
    let b = units(m) as int;
    let k = n as int;
    let p = pow(2, 1000);
    lemma_pow_increases(2, 65, 1000);
    lemma_pow_adds(2, 59, 6);
    assert(pow(2, 6) == 64) by {
        reveal_with_fuel(pow, 7);
    }
    assert(a * b <= (o * o) * p) by (nonlinear_arith)
        requires
            0 <= a <= o,
            0 <= b <= 2 * k * o,
            2 * k <= p,
            k >= 0,
            o > 0,
    ;
    lemma_mul_strictly_positive(o, o);
    lemma_rounds_finite(units(q) * units(m), one() * one(), x);
}

/// How many samples are smaller than a value.
pub open spec fn smaller(samples: Seq<u64>, value: u64) -> nat
    decreases samples.len(),
{
    if samples.len() == 0 {
        0
    } else {
        smaller(samples.drop_last(), value) + if samples.last() < value {
            1nat
        } else {
            0
        }
    }
}

/// How many samples are not larger than a value.
pub open spec fn up_to(samples: Seq<u64>, value: u64) -> nat
    decreases samples.len(),
{
    if samples.len() == 0 {
        0
    } else {
        up_to(samples.drop_last(), value) + if samples.last() <= value {
            1nat
        } else {
            0
        }
    }
}

/// Whether a value is the sample of a given rank, in order of size.
pub open spec fn has_rank(samples: Seq<u64>, value: u64, place: nat) -> bool {
    samples.contains(value) && smaller(samples, value) < place <= up_to(samples, value)
}

proof fn lemma_rank_bounds(samples: Seq<u64>, value: u64, index: nat)
    ensures
        bucket(value as nat) < index ==> up_to(samples, value) <= before_bucket(samples, index),
        bucket(value as nat) >= index ==> before_bucket(samples, index) <= smaller(samples, value),
    decreases samples.len(),
{
    if samples.len() > 0 {
        lemma_rank_bounds(samples.drop_last(), value, index);
        let last = samples.last();
        if last <= value {
            buckets_are_monotonic(last as nat, value as nat);
        } else {
            buckets_are_monotonic(value as nat, last as nat);
        }
        if last >= value {
            buckets_are_monotonic(value as nat, last as nat);
        }
    }
}

proof fn lemma_least_with_rank(samples: Seq<u64>, place: nat, limit: u64) -> (value: u64)
    requires
        place <= up_to(samples, limit),
    ensures
        place <= up_to(samples, value),
        value > 0 ==> up_to(samples, (value - 1) as u64) < place,
    decreases limit,
{
    if limit > 0 && up_to(samples, (limit - 1) as u64) >= place {
        lemma_least_with_rank(samples, place, (limit - 1) as u64)
    } else {
        limit
    }
}

proof fn lemma_ranks_of(samples: Seq<u64>, value: u64)
    ensures
        value == 0 ==> smaller(samples, value) == 0,
        value > 0 ==> smaller(samples, value) == up_to(samples, (value - 1) as u64),
        smaller(samples, value) < up_to(samples, value) ==> samples.contains(value),
        up_to(samples, u64::MAX) == samples.len(),
    decreases samples.len(),
{
    if samples.len() > 0 {
        let rest = samples.drop_last();
        lemma_ranks_of(rest, value);
        if rest.contains(value) {
            let i = rest.index_of(value);
            assert(samples[i] == value);
        }
        if samples.last() == value {
            assert(samples[samples.len() - 1] == value);
        }
    }
}

/// There is a sample of every rank.
pub proof fn every_rank_has_a_sample(samples: Seq<u64>, place: nat)
    requires
        0 < place <= samples.len(),
    ensures
        exists|value: u64| has_rank(samples, value, place),
{
    lemma_ranks_of(samples, 0);
    let value = lemma_least_with_rank(samples, place, u64::MAX);
    lemma_ranks_of(samples, value);
    assert(has_rank(samples, value, place));
}

/// A quantile is off by less than one part in 32 from the sample it stands
/// for, and exact for samples below 16.
pub proof fn quantiles_are_near(samples: Seq<u64>, q: u64, exact: u64, value: u64)
    requires
        not_a_number(q) || 0 < rank(q) < one_bits(),
        has_rank(samples, exact, wanted_rank(q, samples.len())),
        is_quantile(samples, q, value),
    ensures
        exact < 16 ==> value == exact,
        32 * (value - exact) <= exact,
        32 * (exact - value) <= exact,
{
    let place = wanted_rank(q, samples.len());
    lemma_up_to(samples, exact);
    let (index, low, high) = choose|index: nat, low: u64, high: u64|
        {
            &&& #[trigger] holds_rank(samples, index, place)
            &&& #[trigger] is_smallest(samples, low)
            &&& #[trigger] is_largest(samples, high)
            &&& value == clamped(bucket_middle(index), low, high)
        };
    lemma_rank_bounds(samples, exact, index);
    lemma_rank_bounds(samples, exact, index + 1);
    assert(index == bucket(exact as nat));
    bucket_middles_are_near(exact);
    let i = samples.index_of(exact);
    assert(samples[i] == exact);
    assert(low <= exact <= high);
}

proof fn lemma_up_to(samples: Seq<u64>, value: u64)
    ensures
        up_to(samples, value) <= samples.len(),
    decreases samples.len(),
{
    if samples.len() > 0 {
        lemma_up_to(samples.drop_last(), value);
    }
}

/// The smallest sample.
pub open spec fn smallest(samples: Seq<u64>) -> u64 {
    choose|value: u64| is_smallest(samples, value)
}

/// The largest sample.
pub open spec fn largest(samples: Seq<u64>) -> u64 {
    choose|value: u64| is_largest(samples, value)
}

/// The quantile reported for some samples.
pub open spec fn quantile_of(samples: Seq<u64>, q: u64) -> u64 {
    choose|value: u64| is_quantile(samples, q, value)
}

/// The mean of some samples, as the bits of a binary number: the quotient of
/// their sum and their number.
pub open spec fn mean_of(samples: Seq<u64>) -> u64 {
    quotient(nearest(total(samples), 1), nearest(samples.len(), 1)) as u64
}

/// There is one smallest and one largest sample at most.
pub proof fn lemma_extremes(samples: Seq<u64>, a: u64)
    ensures
        is_smallest(samples, a) ==> smallest(samples) == a,
        is_largest(samples, a) ==> largest(samples) == a,
{
    if is_smallest(samples, a) {
        let b = smallest(samples);
        assert(is_smallest(samples, b));
        assert(samples[samples.index_of(a)] == a);
        assert(samples[samples.index_of(b)] == b);
    }
    if is_largest(samples, a) {
        let b = largest(samples);
        assert(is_largest(samples, b));
        assert(samples[samples.index_of(a)] == a);
        assert(samples[samples.index_of(b)] == b);
    }
}

proof fn lemma_before_grows(samples: Seq<u64>, a: nat, b: nat)
    requires
        a <= b,
    ensures
        before_bucket(samples, a) <= before_bucket(samples, b),
    decreases samples.len(),
{
    if samples.len() > 0 {
        lemma_before_grows(samples.drop_last(), a, b);
    }
}

/// There is one quantile at most.
pub proof fn lemma_quantile_unique(samples: Seq<u64>, q: u64, a: u64)
    requires
        is_quantile(samples, q, a),
    ensures
        quantile_of(samples, q) == a,
{
    let b = quantile_of(samples, q);
    assert(is_quantile(samples, q, b));
    let place = wanted_rank(q, samples.len());
    lemma_extremes(samples, a);
    lemma_extremes(samples, b);
    if (not_a_number(q) || 0 < rank(q) < one_bits()) && place <= samples.len() {
        let (i, low, high) = choose|index: nat, low: u64, high: u64|
            {
                &&& #[trigger] holds_rank(samples, index, place)
                &&& #[trigger] is_smallest(samples, low)
                &&& #[trigger] is_largest(samples, high)
                &&& a == clamped(bucket_middle(index), low, high)
            };
        let (j, low2, high2) = choose|index: nat, low: u64, high: u64|
            {
                &&& #[trigger] holds_rank(samples, index, place)
                &&& #[trigger] is_smallest(samples, low)
                &&& #[trigger] is_largest(samples, high)
                &&& b == clamped(bucket_middle(index), low, high)
            };
        lemma_extremes(samples, low);
        lemma_extremes(samples, high);
        lemma_extremes(samples, low2);
        lemma_extremes(samples, high2);
        if i < j {
            lemma_before_grows(samples, i + 1, j);
        } else if j < i {
            lemma_before_grows(samples, j + 1, i);
        }
    }
}

proof fn lemma_starts_increase(a: nat, b: nat)
    requires
        a < b,
    ensures
        bucket_start(a) + bucket_width(a) <= bucket_start(b),
    decreases b,
{
    lemma_bucket_shape(a);
    if a + 1 < b {
        lemma_starts_increase(a, (b - 1) as nat);
        lemma_bucket_shape((b - 1) as nat);
    }
}

/// A bucket that holds a rank starts within the range of the samples.
proof fn lemma_bucket_reached(samples: Seq<u64>, index: nat)
    requires
        before_bucket(samples, index) < before_bucket(samples, index + 1),
    ensures
        bucket_start(index) <= u64::MAX,
    decreases samples.len(),
{
    if bucket(samples.last() as nat) == index {
        lemma_bucket(samples.last() as nat);
    } else {
        lemma_bucket_reached(samples.drop_last(), index);
    }
}

/// A larger share asks for the same rank or a later one.
proof fn lemma_wanted_rank_grows(a: u64, b: u64, count: nat)
    requires
        magnitude(a) <= magnitude(b),
        !not_a_number(a),
        !not_a_number(b),
    ensures
        wanted_rank(a, count) <= wanted_rank(b, count),
{
    let m = nearest(count, 1);
    let (ma, mb) = (magnitude(a), magnitude(b));
    if ma < mb {
        lemma_units_increase(ma, mb);
    }
    lemma_one_positive();
    lemma_mul_strictly_positive(one() as int, one() as int);
    let den = one() * one();
    let (x, y) = (units(ma) * units(m), units(mb) * units(m));
    assert(x * den <= y * den) by (nonlinear_arith)
        requires
            x == units(ma) * units(m),
            y == units(mb) * units(m),
            units(ma) <= units(mb),
            den > 0,
    ;
    lemma_rounds_exists(x, den);
    lemma_rounds_exists(y, den);
    let (p, q) = (product(ma, m), product(mb, m));
    rounding_is_monotonic(x, den, p, y, den, q);
    if p < q {
        lemma_units_increase(p, q);
    }
    lemma_div_is_ordered(
        units(p) + one() - 1,
        units(q) + one() - 1,
        one() as int,
    );
    lemma_div_pos_is_pos(units(p) + one() - 1, one() as int);
}

/// A quantile lies between the smallest and the largest sample, and a larger
/// share never gives a smaller quantile.
pub proof fn quantiles_grow(samples: Seq<u64>, a: u64, b: u64, x: u64, y: u64)
    requires
        !not_a_number(a),
        !not_a_number(b),
        rank(a) <= rank(b),
        is_quantile(samples, a, x),
        is_quantile(samples, b, y),
    ensures
        smallest(samples) <= x <= y <= largest(samples),
{
    lemma_quantile_between(samples, a, x);
    lemma_quantile_between(samples, b, y);
    if rank(a) <= 0 {
        lemma_extremes(samples, x);
    } else if rank(b) >= one_bits() {
        lemma_extremes(samples, y);
    } else {
        let n = samples.len();
        let (first, second) = (wanted_rank(a, n), wanted_rank(b, n));
        lemma_wanted_rank_grows(a, b, n);
        if second > n {
            lemma_extremes(samples, y);
        } else {
            let (i, low, high) = choose|index: nat, low: u64, high: u64|
                {
                    &&& #[trigger] holds_rank(samples, index, first)
                    &&& #[trigger] is_smallest(samples, low)
                    &&& #[trigger] is_largest(samples, high)
                    &&& x == clamped(bucket_middle(index), low, high)
                };
            let (j, low2, high2) = choose|index: nat, low: u64, high: u64|
                {
                    &&& #[trigger] holds_rank(samples, index, second)
                    &&& #[trigger] is_smallest(samples, low)
                    &&& #[trigger] is_largest(samples, high)
                    &&& y == clamped(bucket_middle(index), low, high)
                };
            lemma_extremes(samples, low);
            lemma_extremes(samples, low2);
            lemma_extremes(samples, high);
            lemma_extremes(samples, high2);
            if j < i {
                lemma_before_grows(samples, j + 1, i);
            } else if i < j {
                lemma_bucket_reached(samples, i);
                lemma_bucket_reached(samples, j);
                lemma_starts_increase(i, j);
            }
        }
    }
}

proof fn lemma_quantile_between(samples: Seq<u64>, q: u64, value: u64)
    requires
        !not_a_number(q),
        is_quantile(samples, q, value),
    ensures
        smallest(samples) <= value <= largest(samples),
{
    if rank(q) <= 0 || rank(q) >= one_bits() || wanted_rank(q, samples.len()) > samples.len() {
        lemma_extremes(samples, value);
        let i = samples.index_of(value);
        lemma_extremes_exist(samples);
        assert(samples[i] == value);
    } else {
        let (index, low, high) = choose|index: nat, low: u64, high: u64|
            {
                &&& #[trigger] holds_rank(samples, index, wanted_rank(q, samples.len()))
                &&& #[trigger] is_smallest(samples, low)
                &&& #[trigger] is_largest(samples, high)
                &&& value == clamped(bucket_middle(index), low, high)
            };
        lemma_extremes(samples, low);
        lemma_extremes(samples, high);
        let i = samples.index_of(low);
        assert(samples[i] == low);
    }
}

proof fn lemma_extremes_exist(samples: Seq<u64>)
    requires
        samples.len() > 0,
    ensures
        is_smallest(samples, smallest(samples)),
        is_largest(samples, largest(samples)),
    decreases samples.len(),
{
    let rest = samples.drop_last();
    let last = samples[samples.len() - 1];
    if rest.len() == 0 {
        assert(is_smallest(samples, last));
        assert(is_largest(samples, last));
    } else {
        lemma_extremes_exist(rest);
        let (low, high) = (smallest(rest), largest(rest));
        let i = rest.index_of(low);
        let j = rest.index_of(high);
        assert(samples[i] == low && samples[j] == high);
        let least = if low <= last {
            low
        } else {
            last
        };
        let most = if high >= last {
            high
        } else {
            last
        };
        assert forall|k: int| 0 <= k < samples.len() implies least <= #[trigger] samples[k]
            <= most by {
            if k < rest.len() {
                assert(rest[k] == samples[k]);
            }
        }
        assert(is_smallest(samples, least));
        assert(is_largest(samples, most));
    }
}

/// The mean is the binary number nearest to the exact one, as long as the sum
/// and the number of samples fit a significand.
pub proof fn means_are_exact(samples: Seq<u64>)
    requires
        0 < samples.len() <= 2 * FRACTION,
        total(samples) <= 2 * FRACTION,
    ensures
        mean_of(samples) == nearest(total(samples), samples.len()),
{
    let (sum, count) = (total(samples), samples.len());
    small_quotients_are_nearest(sum, count);
    lemma_rounds_exists(sum, count);
    lemma_rounds_bounded(sum, count, nearest(sum, count));
}

} // verus!
