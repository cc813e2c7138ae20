//! Deterministic pseudo randomness plus single-pass reservoir sampling.
//!
//! `sample` needs an unbiased random subset of a file it can only read once and
//! cannot hold in memory. Algorithm R does exactly that: keep the first `k`
//! records, then for record number `n` (1-based) keep it with probability
//! `k/n`, evicting a uniformly chosen incumbent.
//!
//! The generator is SplitMix64, which is tiny, has no dependencies and is
//! seeded explicitly so that two runs over the same file produce the same
//! sample.

use vstd::arithmetic::div_mod::*;
use vstd::prelude::*;

use crate::sort::{sorted_from, stable_sort};

verus! {

/// How far the state moves with every draw.
pub const GAMMA: u64 = 0x9E37_79B9_7F4A_7C15;

/// The number that turns a state into the number of draws up to state zero.
const COUNTDOWN: u64 = 0x0E21_7C1E_66C8_8CC3;

/// Two to the power 64.
pub open spec fn modulus() -> int {
    0x1_0000_0000_0000_0000
}

/// The state after a number of draws.
pub open spec fn state_after(state: u64, draws: nat) -> u64 {
    ((state + draws * GAMMA) % modulus()) as u64
}

/// The 64 bits that are drawn in a state.
pub open spec fn mixed(state: u64) -> u64 {
    let a = (state ^ (state >> 30)).wrapping_mul(0xBF58_476D_1CE4_E5B9);
    let b = (a ^ (a >> 27)).wrapping_mul(0x94D0_49BB_1331_11EB);
    b ^ (b >> 31)
}

/// Draws from here on are rejected, so that every remainder is as frequent.
pub open spec fn limit(n: u64) -> u64 {
    (u64::MAX - u64::MAX % n) as u64
}

/// Whether the given number of draws is needed to get an accepted one.
pub open spec fn accepted_after(state: u64, n: u64, draws: nat) -> bool {
    &&& draws >= 1
    &&& mixed(state_after(state, draws)) < limit(n)
    &&& forall|j: nat|
        1 <= j < draws ==> mixed(#[trigger] state_after(state, j)) >= limit(n)
}

/// How many draws it takes to get an accepted one.
pub open spec fn draws_needed(state: u64, n: u64) -> nat {
    choose|draws: nat| accepted_after(state, n, draws)
}

/// The state after drawing a number below `n`.
pub open spec fn state_below(state: u64, n: u64) -> u64 {
    state_after(state, draws_needed(state, n))
}

/// The number below `n` that is drawn in a state.
pub open spec fn drawn_below(state: u64, n: u64) -> u64 {
    mixed(state_below(state, n)) % n
}

/// How many draws it takes from a state to state zero.
spec fn to_zero(state: u64) -> int {
    (state * COUNTDOWN) % modulus()
}

/// A bound on the draws that can be rejected from a state on.
spec fn patience(state: u64) -> int {
    if state == 0 {
        modulus()
    } else {
        to_zero(state)
    }
}

proof fn lemma_countdown(state: u64)
    ensures
        to_zero(state_after(state, 1)) == (to_zero(state) - 1) % modulus(),
        to_zero(state) == 0 <==> state == 0,
        0 <= to_zero(state) < modulus(),
{
    let m = modulus();
    let c = COUNTDOWN as int;
    let g = GAMMA as int;
    let s = state as int;
    let k = 629301651175089565int;
    assert(g * c == k * m + (m - 1));
    let next = state_after(state, 1) as int;
    lemma_fundamental_div_mod(s + g, m);
    let over = (s + g) / m;
    assert(next * c == s * c - 1 + m * (k + 1 - over * c)) by (nonlinear_arith)
        requires
            next == s + g - m * over,
            g * c == k * m + (m - 1),
    ;
    lemma_mod_multiples_vanish(k + 1 - over * c, s * c - 1, m);
    lemma_sub_mod_noop(s * c, 1, m);
    lemma_small_mod(1, m as nat);
    if to_zero(state) == 0 {
        let q = (s * c) / m;
        lemma_fundamental_div_mod(s * c, m);
        assert(s == m * (s * (k + 1) - q * g)) by (nonlinear_arith)
            requires
                s * c == m * q,
                g * c == k * m + (m - 1),
        ;
        let t = s * (k + 1) - q * g;
        assert(t == 0) by (nonlinear_arith)
            requires
                s == m * t,
                0 <= s < m,
                m > 0,
        ;
    } else if state == 0 {
        assert(0 * c == 0) by (nonlinear_arith);
        lemma_small_mod(0, m as nat);
    }
}

/// State zero draws zero.
proof fn lemma_zero_draw()
    ensures
        mixed(0) == 0,
{
    assert(0u64 ^ (0u64 >> 30) == 0) by (bit_vector);
    assert(0u64 ^ (0u64 >> 27) == 0) by (bit_vector);
    assert(0u64 ^ (0u64 >> 31) == 0) by (bit_vector);
}

proof fn lemma_limit(n: u64)
    requires
        n > 0,
    ensures
        0 < limit(n),
        limit(n) as int % n as int == 0,
        limit(n) as int == (u64::MAX as int / n as int) * n,
{
    let top = u64::MAX as int;
    let k = n as int;
    lemma_fundamental_div_mod(top, k);
    let q = top / k;
    assert(q * k == k * q) by (nonlinear_arith);
    lemma_mod_multiples_basic(q, k);
    assert(limit(n) == q * k);
    assert(q >= 1) by (nonlinear_arith)
        requires
            top == k * q + top % k,
            top % k < k,
            k <= top,
    ;
}

proof fn lemma_state_step(state: u64, draws: nat)
    ensures
        state_after(state_after(state, draws), 1) == state_after(state, draws + 1),
        state_after(state, 0) == state,
{
    let m = modulus();
    let g = GAMMA as int;
    let x = state + draws * g;
    assert((draws + 1) * g == draws * g + g) by (nonlinear_arith);
    lemma_add_mod_noop(x, g, m);
    lemma_add_mod_noop(x % m, g, m);
    lemma_mod_twice(x, m);
    lemma_small_mod(state as nat, m as nat);
}

/// SplitMix64, the mixing function used to seed xoshiro generators.
#[derive(Debug, Clone)]
pub struct SplitMix64 {
    state: u64,
}

impl View for SplitMix64 {
    type V = u64;

    closed spec fn view(&self) -> u64 {
        self.state
    }
}

impl SplitMix64 {
    /// Creates a generator from an explicit seed.
    pub fn new(seed: u64) -> (r: SplitMix64)
        ensures
            r@ == seed,
    {
        SplitMix64 { state: seed }
    }

    /// Returns the next 64 pseudo random bits.
    pub fn next_u64(&mut self) -> (r: u64)
        ensures
            final(self)@ == state_after(old(self)@, 1),
            r == mixed(final(self)@),
    {
        let ghost before = self.state;
        self.state = self.state.wrapping_add(GAMMA);
        assert(self.state == state_after(before, 1));
        let mut z: u64 = self.state;
        z = (z ^ (z >> 30)).wrapping_mul(0xBF58_476D_1CE4_E5B9);
        z = (z ^ (z >> 27)).wrapping_mul(0x94D0_49BB_1331_11EB);
        z ^ (z >> 31)
    }

    /// Returns a uniformly distributed value in `[0, n)`.
    ///
    /// Uses rejection sampling, so there is no modulo bias. The bound must be
    /// positive.
    pub fn below(&mut self, n: u64) -> (r: u64)
        requires
            n > 0,
        ensures
            r < n,
            accepted_after(old(self)@, n, draws_needed(old(self)@, n)),
            r == drawn_below(old(self)@, n),
            final(self)@ == state_below(old(self)@, n),
    {
        // Largest multiple of n that fits; values at or above it are rejected.
        let bound: u64 = u64::MAX - (u64::MAX % n);
        let ghost start = self@;
        let ghost mut draws: nat = 0;
        proof {
            lemma_limit(n);
            lemma_zero_draw();
            lemma_state_step(start, 0);
            lemma_countdown(start);
        }
        loop
            invariant
                n > 0,
                start == old(self)@,
                bound == limit(n),
                0 < limit(n),
                mixed(0) == 0,
                self@ == state_after(start, draws),
                patience(self@) >= 0,
                forall|j: nat|
                    1 <= j <= draws ==> mixed(#[trigger] state_after(start, j)) >= limit(n),
            decreases patience(self@),
        {
            let ghost before = self@;
            let x: u64 = self.next_u64();
            proof {
                lemma_state_step(start, draws);
                draws = draws + 1;
                lemma_countdown(before);
                lemma_countdown(self@);
            }
            if x < bound {
                proof {
                    assert(accepted_after(start, n, draws));
                    let needed = draws_needed(start, n);
                    assert(accepted_after(start, n, needed));
                    if needed < draws {
                        assert(mixed(state_after(start, needed)) >= limit(n));
                    } else if draws < needed {
                        assert(mixed(state_after(start, draws)) >= limit(n));
                    }
                }
                return x % n;
            }
            proof {
                assert(self@ != 0);
                let t = to_zero(before);
                if before != 0 {
                    lemma_small_mod((t - 1) as nat, modulus() as nat);
                }
            }
        }
    }
}

/// Sooner or later a draw is accepted.
proof fn lemma_accepting(start: u64, n: u64, draws: nat)
    requires
        n > 0,
        forall|j: nat| 1 <= j <= draws ==> mixed(#[trigger] state_after(start, j)) >= limit(n),
    ensures
        exists|needed: nat| accepted_after(start, n, needed),
    decreases patience(state_after(start, draws)),
{
    let before = state_after(start, draws);
    let next = state_after(start, draws + 1);
    lemma_limit(n);
    lemma_zero_draw();
    lemma_state_step(start, draws);
    lemma_countdown(before);
    lemma_countdown(next);
    if mixed(next) < limit(n) {
        assert(accepted_after(start, n, draws + 1));
    } else {
        if before != 0 {
            lemma_small_mod((to_zero(before) - 1) as nat, modulus() as nat);
        }
        lemma_accepting(start, n, draws + 1);
    }
}

/// A draw is accepted after the number of draws that it takes, and no other.
pub proof fn lemma_accepted(state: u64, n: u64, draws: nat)
    requires
        n > 0,
    ensures
        accepted_after(state, n, draws_needed(state, n)),
        accepted_after(state, n, draws) ==> draws == draws_needed(state, n),
{
    lemma_accepting(state, n, 0);
    let needed = draws_needed(state, n);
    assert(accepted_after(state, n, needed));
    if accepted_after(state, n, draws) {
        if needed < draws {
            assert(mixed(state_after(state, needed)) >= limit(n));
        } else if draws < needed {
            assert(mixed(state_after(state, draws)) >= limit(n));
        }
    }
}

/// There is no modulo bias: for every number below `n` there are as many
/// accepted draws, one for each multiple of `n` up to the limit.
pub proof fn draws_are_unbiased(n: u64, value: u64)
    requires
        value < n,
    ensures
        ({
            let rounds = limit(n) as int / n as int;
            &&& forall|i: int|
                0 <= i < rounds ==> {
                    let draw = #[trigger] (value + n * i);
                    draw < limit(n) && draw % (n as int) == value
                }
            &&& forall|draw: u64|
                draw < limit(n) && #[trigger] (draw % n) == value ==> {
                    let i = draw as int / n as int;
                    0 <= i < rounds && draw == value + n * i
                }
        }),
{
    lemma_limit(n);
    let k = n as int;
    let rounds = limit(n) as int / k;
    lemma_div_multiples_vanish(u64::MAX as int / k, k);
    vstd::arithmetic::mul::lemma_mul_is_commutative(u64::MAX as int / k, k);
    assert(limit(n) == k * rounds) by (nonlinear_arith)
        requires
            limit(n) == (u64::MAX as int / k) * k,
            rounds == u64::MAX as int / k,
    ;
    assert forall|i: int| 0 <= i < rounds implies {
        let draw = #[trigger] (value + n * i);
        draw < limit(n) && draw % (n as int) == value
    } by {
        let draw = value + n * i;
        assert(draw < k * rounds) by (nonlinear_arith)
            requires
                draw == value + k * i,
                value < k,
                i < rounds,
        ;
        lemma_mod_multiples_vanish(i, value as int, k);
        lemma_small_mod(value as nat, k as nat);
    }
    assert forall|draw: u64| draw < limit(n) && #[trigger] (draw % n) == value implies {
        let i = draw as int / n as int;
        0 <= i < rounds && draw == value + n * i
    } by {
        let d = draw as int;
        let i = d / k;
        lemma_fundamental_div_mod(d, k);
        lemma_div_pos_is_pos(d, k);
        assert(i < rounds) by (nonlinear_arith)
            requires
                d == k * i + d % k,
                d < k * rounds,
                d % k >= 0,
                k > 0,
        ;
    }
}

/// Numbers that differ still differ after a multiplication that can be undone.
proof fn lemma_product_differs(x: u64, y: u64, factor: u64, inverse: u64, k: int)
    requires
        factor * inverse == 1 + k * modulus(),
        (x * factor) % modulus() == (y * factor) % modulus(),
    ensures
        x == y,
{
    let m = modulus();
    let (a, b, f, i) = (x as int, y as int, factor as int, inverse as int);
    let p = (a * f) / m;
    let q = (b * f) / m;
    lemma_fundamental_div_mod(a * f, m);
    lemma_fundamental_div_mod(b * f, m);
    assert(a - b == m * ((p - q) * i - k * (a - b))) by (nonlinear_arith)
        requires
            f * i == 1 + k * m,
            a * f - b * f == m * (p - q),
    {
        assert((a - b) * (f * i) == (a * f - b * f) * i);
        assert((a - b) * (1 + k * m) == m * (p - q) * i);
    }
    let t = (p - q) * i - k * (a - b);
    assert(t == 0) by (nonlinear_arith)
        requires
            a - b == m * t,
            -m < a - b < m,
            m > 0,
    ;
}

/// Mixing loses nothing: different states draw different bits.
pub proof fn different_states_draw_differently(a: u64, b: u64)
    requires
        a != b,
    ensures
        mixed(a) != mixed(b),
{
    let (x0, y0) = (a ^ (a >> 30), b ^ (b >> 30));
    let x1 = x0.wrapping_mul(0xBF58_476D_1CE4_E5B9);
    let y1 = y0.wrapping_mul(0xBF58_476D_1CE4_E5B9);
    let (x2, y2) = (x1 ^ (x1 >> 27), y1 ^ (y1 >> 27));
    let x3 = x2.wrapping_mul(0x94D0_49BB_1331_11EB);
    let y3 = y2.wrapping_mul(0x94D0_49BB_1331_11EB);
    if mixed(a) == mixed(b) {
        assert(x3 ^ (x3 >> 31) == y3 ^ (y3 >> 31) ==> x3 == y3) by (bit_vector);
        lemma_product_differs(
            x2,
            y2,
            0x94D0_49BB_1331_11EB,
            0x3196_42B2_D24D_8EC3,
            2077064247507883091,
        );
        assert(x1 ^ (x1 >> 27) == y1 ^ (y1 >> 27) ==> x1 == y1) by (bit_vector);
        lemma_product_differs(
            x0,
            y0,
            0xBF58_476D_1CE4_E5B9,
            0x96DE_1B17_3F11_9089,
            8125545580553827436,
        );
        assert(a ^ (a >> 30) == b ^ (b >> 30) ==> a == b) by (bit_vector);
    }
}

/// Generators with different seeds draw different bits, the first time and
/// after any number of draws.
pub proof fn different_seeds_draw_differently(a: u64, b: u64, draws: nat)
    requires
        a != b,
    ensures
        mixed(state_after(a, draws)) != mixed(state_after(b, draws)),
{
    let m = modulus();
    let x = a + draws * GAMMA;
    let y = b + draws * GAMMA;
    let (s, t) = (state_after(a, draws), state_after(b, draws));
    if s == t {
        let (p, q) = (x / m, y / m);
        lemma_fundamental_div_mod(x, m);
        lemma_fundamental_div_mod(y, m);
        assert(p == q) by (nonlinear_arith)
            requires
                a - b == m * p - m * q,
                -m < a - b < m,
                m > 0,
        ;
    }
    different_states_draw_differently(s, t);
}

/// A generator draws no bits twice before it has drawn all of them.
pub proof fn draws_do_not_repeat(seed: u64, i: nat, j: nat)
    requires
        i < j < i + modulus(),
    ensures
        mixed(state_after(seed, i)) != mixed(state_after(seed, j)),
{
    let m = modulus();
    let g = GAMMA as int;
    let c = COUNTDOWN as int;
    let (s, t) = (state_after(seed, i), state_after(seed, j));
    if s == t {
        let x = seed + i * g;
        let y = seed + j * g;
        let (p, q) = (x / m, y / m);
        let d = j - i;
        let k = 629301651175089565int;
        lemma_fundamental_div_mod(x, m);
        lemma_fundamental_div_mod(y, m);
        assert(y - x == d * g) by (nonlinear_arith)
            requires
                x == seed + i * g,
                y == seed + j * g,
                d == j - i,
        ;
        assert(g * c == (k + 1) * m - 1);
        assert(d == m * ((k + 1) * d - (q - p) * c)) by (nonlinear_arith)
            requires
                d * g == m * q - m * p,
                g * c == (k + 1) * m - 1,
        {
            assert(d * (g * c) == (d * g) * c);
            assert(d * ((k + 1) * m - 1) == (m * q - m * p) * c);
        }
        let r = (k + 1) * d - (q - p) * c;
        assert(r == 0) by (nonlinear_arith)
            requires
                d == m * r,
                0 < d < m,
                m > 0,
        ;
    }
    different_states_draw_differently(s, t);
}

/// What a reservoir holds.
#[verifier::ext_equal]
pub struct Sample<T> {
    /// How many items are retained at most.
    pub capacity: nat,
    /// How many items were offered.
    pub seen: nat,
    /// The retained items with their indices, by slot.
    pub items: Seq<(u64, T)>,
    /// The state of the generator.
    pub state: u64,
}

/// The slot that the next item goes to, if it is retained.
pub open spec fn next_slot<T>(sample: Sample<T>) -> Option<int> {
    if sample.capacity == 0 {
        None
    } else if sample.items.len() < sample.capacity {
        Some(sample.items.len() as int)
    } else {
        let slot = drawn_below(sample.state, (sample.seen + 1) as u64);
        if slot < sample.capacity {
            Some(slot as int)
        } else {
            None
        }
    }
}

/// The sample after one more item was offered.
pub open spec fn offered<T>(sample: Sample<T>, index: u64, item: T) -> Sample<T> {
    Sample {
        capacity: sample.capacity,
        seen: sample.seen + 1,
        items: match next_slot(sample) {
            None => sample.items,
            Some(slot) => if slot == sample.items.len() {
                sample.items.push((index, item))
            } else {
                sample.items.update(slot, (index, item))
            },
        },
        state: if sample.capacity == 0 || sample.items.len() < sample.capacity {
            sample.state
        } else {
            state_below(sample.state, (sample.seen + 1) as u64)
        },
    }
}

/// The sample of a whole stream.
pub open spec fn sampled<T>(capacity: nat, seed: u64, stream: Seq<(u64, T)>) -> Sample<T>
    decreases stream.len(),
{
    if stream.len() == 0 {
        Sample { capacity, seen: 0, items: Seq::empty(), state: seed }
    } else {
        offered(
            sampled(capacity, seed, stream.drop_last()),
            stream.last().0,
            stream.last().1,
        )
    }
}

/// A fixed-capacity uniform sample of a stream of unknown length.
#[derive(Debug)]
pub struct Reservoir<T> {
    capacity: usize,
    seen: u64,
    items: Vec<(u64, T)>,
    rng: SplitMix64,
}

impl<T> View for Reservoir<T> {
    type V = Sample<T>;

    closed spec fn view(&self) -> Sample<T> {
        Sample {
            capacity: self.capacity as nat,
            seen: self.seen as nat,
            items: self.items@,
            state: self.rng@,
        }
    }
}

impl<T> Reservoir<T> {
    /// Creates a reservoir holding at most `capacity` items.
    pub fn new(capacity: usize, seed: u64) -> (r: Reservoir<T>)
        ensures
            r@ == sampled(capacity as nat, seed, Seq::<(u64, T)>::empty()),
    {
        Reservoir { capacity, seen: 0, items: Vec::new(), rng: SplitMix64::new(seed) }
    }

    /// Offers the item identified by `index` to the reservoir.
    ///
    /// `make` is only called when the item is actually retained, so callers can
    /// avoid allocating for the overwhelming majority of records that get
    /// dropped.
    pub fn offer<F: FnOnce() -> T>(&mut self, index: u64, make: F)
        requires
            old(self)@.seen < u64::MAX,
            old(self)@.items.len() <= old(self)@.capacity,
            next_slot(old(self)@) is Some ==> make.requires(()),
        ensures
            final(self)@.items.len() <= final(self)@.capacity,
            next_slot(old(self)@) is None ==> forall|item: T|
                final(self)@ == #[trigger] offered(old(self)@, index, item),
            next_slot(old(self)@) is Some ==> exists|item: T|
                make.ensures((), item) && final(self)@ == #[trigger] offered(
                    old(self)@,
                    index,
                    item,
                ),
    {
        let ghost before = self@;
        self.seen = self.seen + 1;
        if self.capacity == 0 {
            proof {
                assert forall|item: T| self@ == #[trigger] offered(before, index, item) by {
                    assert(self@ =~= offered(before, index, item));
                }
            }
            return;
        }
        if self.items.len() < self.capacity {
            let item = make();
            let ghost given = item;
            self.items.push((index, item));
            assert(self@ =~= offered(before, index, given));
            return;
        }
        let slot: u64 = self.rng.below(self.seen);
        if slot < self.capacity as u64 {
            let item = make();
            let ghost given = item;
            self.items.set(slot as usize, (index, item));
            assert(self@ =~= offered(before, index, given));
        } else {
            proof {
                assert forall|item: T| self@ == #[trigger] offered(before, index, item) by {
                    assert(self@ =~= offered(before, index, item));
                }
            }
        }
    }

    /// How many items were offered so far.
    pub fn seen(&self) -> (n: u64)
        ensures
            n == self@.seen,
    {
        self.seen
    }

    /// How many items are currently retained.
    pub fn len(&self) -> (n: usize)
        ensures
            n == self@.items.len(),
    {
        self.items.len()
    }

    /// True when nothing is retained.
    pub fn is_empty(&self) -> (r: bool)
        ensures
            r == (self@.items.len() == 0),
    {
        self.items.len() == 0
    }

    /// Consumes the reservoir, returning the retained items ordered by the
    /// index they were offered with.
    pub fn into_sorted(self) -> (r: Vec<(u64, T)>)
        ensures
            sorted_from(self@.items, r@),
    {
        stable_sort(self.items)
    }
}

/// The slots of a full sample after the draw for one more position.
pub open spec fn placed(capacity: nat, slots: Seq<int>, position: int, draw: int) -> Seq<int> {
    if draw < capacity {
        slots.update(draw, position)
    } else {
        slots
    }
}

/// The positions in a stream of `n` items that a sample retains, by slot, and
/// the state of the generator behind the stream.
pub open spec fn positions(capacity: nat, seed: u64, n: nat) -> (Seq<int>, u64)
    decreases n,
{
    if n == 0 {
        (Seq::empty(), seed)
    } else {
        let last = n - 1;
        let (slots, state) = positions(capacity, seed, last as nat);
        if capacity == 0 {
            (slots, state)
        } else if slots.len() < capacity {
            (slots.push(last), state)
        } else {
            (
                placed(capacity, slots, last, drawn_below(state, n as u64) as int),
                state_below(state, n as u64),
            )
        }
    }
}

/// A sample is made of items of the stream at distinct positions, as many as
/// fit. Which positions depends on the capacity, the seed and the length of
/// the stream alone, so the same seed gives the same sample.
pub proof fn samples_pick_distinct_positions<T>(capacity: nat, seed: u64, stream: Seq<(u64, T)>)
    ensures
        ({
            let slots = positions(capacity, seed, stream.len()).0;
            let sample = sampled(capacity, seed, stream);
            &&& sample.capacity == capacity
            &&& sample.seen == stream.len()
            &&& sample.state == positions(capacity, seed, stream.len()).1
            &&& sample.items.len() == slots.len()
            &&& slots.len() == if stream.len() < capacity {
                stream.len()
            } else {
                capacity
            }
            &&& forall|i: int|
                0 <= i < slots.len() ==> 0 <= #[trigger] slots[i] < stream.len() && sample.items[i]
                    == stream[slots[i]]
            &&& forall|i: int, j: int|
                0 <= i < j < slots.len() ==> #[trigger] slots[i] != #[trigger] slots[j]
        }),
    decreases stream.len(),
{
    if stream.len() > 0 {
        let rest = stream.drop_last();
        samples_pick_distinct_positions(capacity, seed, rest);
        let n = stream.len();
        let before = sampled(capacity, seed, rest);
        let slots = positions(capacity, seed, rest.len()).0;
        let now = positions(capacity, seed, n).0;
        let sample = sampled(capacity, seed, stream);
        assert forall|i: int| 0 <= i < now.len() implies 0 <= #[trigger] now[i] < stream.len()
            && sample.items[i] == stream[now[i]] by {
            if i < slots.len() && now[i] == slots[i] {
                assert(rest[slots[i]] == stream[slots[i]]);
            }
        }
    }
}

/// A stream that fits is retained whole, in its order.
pub proof fn short_streams_are_kept_whole<T>(capacity: nat, seed: u64, stream: Seq<(u64, T)>)
    requires
        stream.len() <= capacity,
    ensures
        sampled(capacity, seed, stream).items == stream,
    decreases stream.len(),
{
    if stream.len() > 0 {
        let rest = stream.drop_last();
        short_streams_are_kept_whole(capacity, seed, rest);
        samples_pick_distinct_positions(capacity, seed, rest);
        assert(rest.push(stream.last()) =~= stream);
    }
}

/// How many ways there are to draw for the positions from `from` on, when the
/// draw for each position is one of the numbers up to that position.
pub open spec fn all_draws(from: nat, n: nat) -> nat
    decreases n - from,
{
    if from >= n {
        1
    } else {
        (from + 1) * all_draws(from + 1, n)
    }
}

/// How many of these ways leave a position in the sample.
pub open spec fn keeping_draws(
    capacity: nat,
    slots: Seq<int>,
    from: nat,
    n: nat,
    position: int,
) -> nat
    decreases n - from, from + 2,
{
    if from >= n {
        if slots.contains(position) {
            1
        } else {
            0
        }
    } else {
        keeping_first_draws(capacity, slots, from, n, position, from + 1)
    }
}

/// How many of these ways leave a position in the sample, with one of the
/// first `choices` numbers drawn for position `from`.
pub open spec fn keeping_first_draws(
    capacity: nat,
    slots: Seq<int>,
    from: nat,
    n: nat,
    position: int,
    choices: nat,
) -> nat
    decreases n - from, choices,
    when from < n
{
    if choices == 0 {
        0
    } else {
        let draw = choices - 1;
        keeping_first_draws(capacity, slots, from, n, position, draw as nat) + keeping_draws(
            capacity,
            placed(capacity, slots, from as int, draw),
            from + 1,
            n,
            position,
        )
    }
}

/// Whether slots hold distinct positions before a given one.
spec fn distinct_before(slots: Seq<int>, from: nat) -> bool {
    &&& forall|i: int| 0 <= i < slots.len() ==> 0 <= #[trigger] slots[i] < from
    &&& forall|i: int, j: int|
        0 <= i < j < slots.len() ==> #[trigger] slots[i] != #[trigger] slots[j]
}

/// The slots after one more draw.
proof fn lemma_placed(capacity: nat, slots: Seq<int>, from: nat, draw: int)
    requires
        slots.len() == capacity,
        distinct_before(slots, from),
        0 <= draw,
    ensures
        ({
            let next = placed(capacity, slots, from as int, draw);
            &&& next.len() == capacity
            &&& distinct_before(next, from + 1)
            &&& next.contains(from as int) <==> draw < capacity
            &&& forall|p: int|
                p < from ==> (#[trigger] next.contains(p) <==> slots.contains(p) && !(draw < capacity
                    && slots[draw] == p))
        }),
{
    let next = placed(capacity, slots, from as int, draw);
    if draw < capacity {
        assert(next[draw] == from);
    } else if next.contains(from as int) {
        let i = next.index_of(from as int);
        assert(slots[i] < from);
    }
    assert forall|p: int| p < from implies (#[trigger] next.contains(p) <==> slots.contains(p) && !(
    draw < capacity && slots[draw] == p)) by {
        if next.contains(p) {
            let i = next.index_of(p);
            assert(slots[i] == p);
            if draw < capacity && slots[draw] == p {
                assert(i != draw);
                assert(slots[i] != slots[draw]);
            }
        }
        if slots.contains(p) && !(draw < capacity && slots[draw] == p) {
            let i = slots.index_of(p);
            assert(next[i] == p);
        }
    }
}

/// A position that is gone stays gone.
proof fn lemma_gone(capacity: nat, slots: Seq<int>, from: nat, n: nat, position: int)
    requires
        slots.len() == capacity,
        distinct_before(slots, from),
        position < from,
        !slots.contains(position),
    ensures
        keeping_draws(capacity, slots, from, n, position) == 0,
    decreases n - from, from + 2,
{
    if from < n {
        lemma_gone_first(capacity, slots, from, n, position, from + 1);
    }
}

proof fn lemma_gone_first(
    capacity: nat,
    slots: Seq<int>,
    from: nat,
    n: nat,
    position: int,
    choices: nat,
)
    requires
        from < n,
        slots.len() == capacity,
        distinct_before(slots, from),
        position < from,
        !slots.contains(position),
    ensures
        keeping_first_draws(capacity, slots, from, n, position, choices) == 0,
    decreases n - from, choices,
{
    if choices > 0 {
        let draw = choices - 1;
        lemma_gone_first(capacity, slots, from, n, position, draw as nat);
        lemma_placed(capacity, slots, from, draw);
        lemma_gone(
            capacity,
            placed(capacity, slots, from as int, draw),
            from + 1,
            n,
            position,
        );
    }
}

/// A retained position survives `from` times out of `n`.
proof fn lemma_survives(capacity: nat, slots: Seq<int>, from: nat, n: nat, position: int)
    requires
        from <= n,
        slots.len() == capacity,
        capacity <= from,
        distinct_before(slots, from),
        slots.contains(position),
    ensures
        n * keeping_draws(capacity, slots, from, n, position) == from * all_draws(from, n),
    decreases n - from, from + 2,
{
    if from < n {
        let held = slots.index_of(position);
        lemma_survives_first(capacity, slots, from, n, position, held, from + 1);
        let t = all_draws(from + 1, n) as int;
        let f = from as int;
        assert(f * ((f + 1) * t) == f * (f + 1) * t) by (nonlinear_arith);
    } else {
        vstd::arithmetic::mul::lemma_mul_basics(n as int);
    }
}

proof fn lemma_survives_first(
    capacity: nat,
    slots: Seq<int>,
    from: nat,
    n: nat,
    position: int,
    held: int,
    choices: nat,
)
    requires
        from < n,
        slots.len() == capacity,
        capacity <= from,
        distinct_before(slots, from),
        0 <= held < capacity,
        slots[held] == position,
        choices <= from + 1,
    ensures
        n * keeping_first_draws(capacity, slots, from, n, position, choices) == (if held < choices {
            choices - 1
        } else {
            choices as int
        }) * (from + 1) * all_draws(from + 1, n),
    decreases n - from, choices,
{
    let t = all_draws(from + 1, n) as int;
    let f = from as int;
    if choices > 0 {
        let draw = choices - 1;
        let next = placed(capacity, slots, from as int, draw);
        lemma_survives_first(capacity, slots, from, n, position, held, draw as nat);
        lemma_placed(capacity, slots, from, draw);
        let a = keeping_first_draws(capacity, slots, from, n, position, draw as nat) as int;
        let b = keeping_draws(capacity, next, from + 1, n, position) as int;
        let k = n as int;
        assert(k * (a + b) == k * a + k * b) by (nonlinear_arith);
        assert(slots.contains(position));
        if draw == held {
            lemma_gone(capacity, next, from + 1, n, position);
            vstd::arithmetic::mul::lemma_mul_basics(k);
        } else {
            if draw < capacity {
                assert(slots[draw] != position) by {
                    if draw < held {
                        assert(slots[draw] != slots[held]);
                    } else {
                        assert(slots[held] != slots[draw]);
                    }
                }
            }
            lemma_survives(capacity, next, from + 1, n, position);
            let c = if held < draw {
                draw - 1
            } else {
                draw
            };
            assert(c * (f + 1) * t + (f + 1) * t == (c + 1) * (f + 1) * t) by (nonlinear_arith);
        }
    } else {
        assert(n * 0 == 0 && 0 * (f + 1) * t == 0) by (nonlinear_arith);
    }
}

/// A position still to come is retained `capacity` times out of `n`.
proof fn lemma_enters(capacity: nat, slots: Seq<int>, from: nat, n: nat, position: int)
    requires
        from <= position < n,
        slots.len() == capacity,
        capacity <= from,
        distinct_before(slots, from),
    ensures
        n * keeping_draws(capacity, slots, from, n, position) == capacity * all_draws(from, n),
    decreases n - from, from + 2,
{
    lemma_enters_first(capacity, slots, from, n, position, from + 1);
    let t = all_draws(from + 1, n) as int;
    let f = from as int;
    let c = capacity as int;
    assert(c * ((f + 1) * t) == c * (f + 1) * t) by (nonlinear_arith);
    assert((f + 1) * c * t == c * (f + 1) * t) by (nonlinear_arith);
}

proof fn lemma_enters_first(
    capacity: nat,
    slots: Seq<int>,
    from: nat,
    n: nat,
    position: int,
    choices: nat,
)
    requires
        from <= position < n,
        slots.len() == capacity,
        capacity <= from,
        distinct_before(slots, from),
        choices <= from + 1,
    ensures
        position == from ==> n * keeping_first_draws(
            capacity,
            slots,
            from,
            n,
            position,
            choices,
        ) == (if choices < capacity {
            choices
        } else {
            capacity
        }) * (from + 1) * all_draws(from + 1, n),
        position > from ==> n * keeping_first_draws(
            capacity,
            slots,
            from,
            n,
            position,
            choices,
        ) == choices * capacity * all_draws(from + 1, n),
    decreases n - from, choices,
{
    let t = all_draws(from + 1, n) as int;
    let f = from as int;
    let c = capacity as int;
    if choices > 0 {
        let draw = choices - 1;
        let next = placed(capacity, slots, from as int, draw);
        lemma_enters_first(capacity, slots, from, n, position, draw as nat);
        lemma_placed(capacity, slots, from, draw);
        let a = keeping_first_draws(capacity, slots, from, n, position, draw as nat) as int;
        let b = keeping_draws(capacity, next, from + 1, n, position) as int;
        let k = n as int;
        assert(k * (a + b) == k * a + k * b) by (nonlinear_arith);
        if position == from {
            if draw < capacity {
                lemma_survives(capacity, next, from + 1, n, position);
                assert(draw * (f + 1) * t + (f + 1) * t == (draw + 1) * (f + 1) * t)
                    by (nonlinear_arith);
            } else {
                lemma_gone(capacity, next, from + 1, n, position);
                vstd::arithmetic::mul::lemma_mul_basics(k);
            }
        } else {
            lemma_enters(capacity, next, from + 1, n, position);
            assert(draw * c * t + c * t == (draw + 1) * c * t) by (nonlinear_arith);
        }
    } else {
        assert(n * 0 == 0 && 0 * (f + 1) * t == 0 && 0 * c * t == 0) by (nonlinear_arith);
    }
}

/// The sample is uniform: from the full sample of the first `capacity`
/// positions on, every position of the stream is left in the sample by the
/// same share of all draws, `capacity` out of `n`.
pub proof fn samples_are_uniform(capacity: nat, n: nat, position: int)
    requires
        capacity <= n,
        0 <= position < n,
    ensures
        n * keeping_draws(
            capacity,
            Seq::new(capacity, |i: int| i),
            capacity,
            n,
            position,
        ) == capacity * all_draws(capacity, n),
{
    let slots = Seq::new(capacity, |i: int| i);
    if position < capacity {
        assert(slots[position] == position);
        lemma_survives(capacity, slots, capacity, n, position);
    } else {
        lemma_enters(capacity, slots, capacity, n, position);
    }
}

} // verus!
