//! Which items a sample holds, and that each is as likely to be held.

use vstd::arithmetic::div_mod::*;
use vstd::prelude::*;
use vstd::relations::injective_on;
use vstd::set_lib::*;

use crate::rng::{
    accepted_after, draws_needed, drawn_below, lemma_accepted, limit, mixed, offered,
    samples_pick_distinct_positions, sampled, short_streams_are_kept_whole, state_after,
    state_below,
};

verus! {

/// The state of the generator some draws later.
pub open spec fn moved_on(state: u64, draws: nat) -> u64 {
    ((state + draws * 0x9E37_79B9_7F4A_7C15) % 0x1_0000_0000_0000_0000) as u64
}

/// Whether the first draw below the largest multiple of `n` is the one after
/// the given number of draws.
pub open spec fn accepts_first(state: u64, n: int, draws: nat) -> bool {
    let multiple = (u64::MAX as int / n) * n;
    &&& draws >= 1
    &&& mixed(moved_on(state, draws)) < multiple
    &&& forall|j: nat| 1 <= j < draws ==> mixed(#[trigger] moved_on(state, j)) >= multiple
}

/// Whether a number below `n` is drawn in a state and leads to another one: it
/// is the remainder of the first draw that is accepted.
pub open spec fn is_draw(state: u64, n: int, draw: int, next: u64) -> bool {
    exists|draws: nat| #[trigger]
        accepts_first(state, n, draws) && next == moved_on(state, draws) && draw == mixed(next)
            as int % n
}

/// Whether numbers are drawn, from a seed on, for the items behind the first
/// `capacity` ones: for each a number below how many items there are up to it.
pub open spec fn is_course(capacity: nat, seed: u64, draws: Seq<int>, states: Seq<u64>) -> bool {
    &&& states.len() == draws.len() + 1
    &&& states[0] == seed
    &&& forall|i: int|
        0 <= i < draws.len() ==> is_draw(
            states[i],
            capacity + i + 1,
            #[trigger] draws[i],
            states[i + 1],
        )
}

/// The position of the item in a slot: that of the last item for which the
/// slot was drawn, or the one that the slot had at first.
pub open spec fn holder(capacity: nat, draws: Seq<int>, slot: int) -> int
    decreases draws.len(),
{
    if draws.len() == 0 {
        slot
    } else if draws.last() == slot {
        capacity + draws.len() - 1
    } else {
        holder(capacity, draws.drop_last(), slot)
    }
}

proof fn lemma_multiple(n: u64)
    requires
        n > 0,
    ensures
        limit(n) == (u64::MAX as int / n as int) * n,
{
    lemma_fundamental_div_mod(u64::MAX as int, n as int);
    vstd::arithmetic::mul::lemma_mul_is_commutative(u64::MAX as int / n as int, n as int);
}

proof fn lemma_accepts(state: u64, n: u64, draws: nat)
    requires
        n > 0,
    ensures
        accepts_first(state, n as int, draws) <==> accepted_after(state, n, draws),
{
    lemma_multiple(n);
    assert forall|j: nat| #[trigger] moved_on(state, j) == state_after(state, j) by {}
    if accepts_first(state, n as int, draws) {
        assert forall|j: nat| 1 <= j < draws implies mixed(#[trigger] state_after(state, j))
            >= limit(n) by {
            assert(mixed(moved_on(state, j)) >= limit(n));
        }
    }
}

/// In every state one number below `n` is drawn, and one state comes next.
proof fn lemma_draw(state: u64, n: u64, draw: int, next: u64)
    requires
        n > 0,
    ensures
        is_draw(state, n as int, draw, next) <==> draw == drawn_below(state, n) && next
            == state_below(state, n),
        drawn_below(state, n) < n,
{
    let needed = draws_needed(state, n);
    lemma_accepted(state, n, needed);
    lemma_accepts(state, n, needed);
    if is_draw(state, n as int, draw, next) {
        let draws = choose|draws: nat| #[trigger]
            accepts_first(state, n as int, draws) && next == moved_on(state, draws) && draw
                == mixed(next) as int % (n as int);
        lemma_accepts(state, n, draws);
        lemma_accepted(state, n, draws);
    }
    assert(moved_on(state, needed) == state_after(state, needed));
    lemma_mod_bound(mixed(state_below(state, n)) as int, n as int);
}

/// For every item behind the first ones a number is drawn.
pub proof fn streams_have_a_course(capacity: nat, seed: u64, n: nat)
    requires
        capacity + n <= u64::MAX,
    ensures
        exists|draws: Seq<int>, states: Seq<u64>|
            draws.len() == n && #[trigger] is_course(capacity, seed, draws, states),
    decreases n,
{
    if n == 0 {
        assert(is_course(capacity, seed, Seq::empty(), seq![seed]));
    } else {
        streams_have_a_course(capacity, seed, (n - 1) as nat);
        let (draws, states) = choose|draws: Seq<int>, states: Seq<u64>|
            draws.len() == n - 1 && #[trigger] is_course(capacity, seed, draws, states);
        let bound = (capacity + n) as u64;
        let draw = drawn_below(states.last(), bound) as int;
        let next = state_below(states.last(), bound);
        lemma_draw(states.last(), bound, draw, next);
        let more = draws.push(draw);
        let further = states.push(next);
        assert forall|i: int| 0 <= i < more.len() implies is_draw(
            further[i],
            capacity + i + 1,
            #[trigger] more[i],
            further[i + 1],
        ) by {
            if i < draws.len() {
                assert(more[i] == draws[i]);
                assert(is_draw(states[i], capacity + i + 1, draws[i], states[i + 1]));
            }
        }
        assert(is_course(capacity, seed, more, further));
    }
}

proof fn lemma_filling<T>(capacity: nat, seed: u64, stream: Seq<(u64, T)>)
    requires
        stream.len() <= capacity,
    ensures
        sampled(capacity, seed, stream).state == seed,
    decreases stream.len(),
{
    if stream.len() > 0 {
        lemma_filling(capacity, seed, stream.drop_last());
        samples_pick_distinct_positions(capacity, seed, stream.drop_last());
    }
}

/// A sample is made by its draws, at every length of the stream: a slot holds
/// the last item for which it was drawn, and the generator is left in the
/// state behind the last draw.
pub proof fn samples_follow_their_draws<T>(
    capacity: nat,
    seed: u64,
    stream: Seq<(u64, T)>,
    draws: Seq<int>,
    states: Seq<u64>,
)
    requires
        capacity > 0,
        capacity + draws.len() == stream.len(),
        stream.len() <= u64::MAX,
        is_course(capacity, seed, draws, states),
    ensures
        ({
            let sample = sampled(capacity, seed, stream);
            &&& sample.state == states.last()
            &&& sample.items.len() == capacity
            &&& forall|slot: int|
                0 <= slot < capacity ==> {
                    &&& 0 <= #[trigger] holder(capacity, draws, slot) < stream.len()
                    &&& sample.items[slot] == stream[holder(capacity, draws, slot)]
                }
        }),
    decreases draws.len(),
{
    let n = stream.len();
    if draws.len() == 0 {
        short_streams_are_kept_whole(capacity, seed, stream);
        lemma_filling(capacity, seed, stream);
    } else {
        let rest = stream.drop_last();
        let fewer = draws.drop_last();
        let earlier = states.drop_last();
        assert forall|i: int| 0 <= i < fewer.len() implies is_draw(
            earlier[i],
            capacity + i + 1,
            #[trigger] fewer[i],
            earlier[i + 1],
        ) by {
            assert(fewer[i] == draws[i]);
        }
        samples_follow_their_draws(capacity, seed, rest, fewer, earlier);
        samples_pick_distinct_positions(capacity, seed, rest);
        let last = draws.len() - 1;
        assert(is_draw(states[last], capacity + last + 1, draws[last], states[last + 1]));
        lemma_draw(states[last], n as u64, draws[last], states[last + 1]);
        let before = sampled(capacity, seed, rest);
        let sample = sampled(capacity, seed, stream);
        assert(sample == offered(before, stream.last().0, stream.last().1));
        assert forall|slot: int| 0 <= slot < capacity implies {
            &&& 0 <= #[trigger] holder(capacity, draws, slot) < stream.len()
            &&& sample.items[slot] == stream[holder(capacity, draws, slot)]
        } by {
            if draws.last() != slot {
                assert(0 <= holder(capacity, fewer, slot) < rest.len());
                assert(before.items[slot] == rest[holder(capacity, fewer, slot)]);
            }
        }
    }
}

/// A sample without room holds nothing, and draws nothing.
pub proof fn samples_without_room_are_empty<T>(seed: u64, stream: Seq<(u64, T)>)
    ensures
        sampled(0, seed, stream).items == Seq::<(u64, T)>::empty(),
        sampled(0, seed, stream).state == seed,
    decreases stream.len(),
{
    if stream.len() > 0 {
        samples_without_room_are_empty(seed, stream.drop_last());
        samples_pick_distinct_positions(0, seed, stream.drop_last());
    }
}

/// All the ways to draw for the items behind the first `capacity` ones of a
/// stream of `n` items.
pub open spec fn courses(capacity: nat, n: nat) -> Set<Seq<int>> {
    Set::new(
        |draws: Seq<int>|
            capacity + draws.len() == n && forall|i: int|
                0 <= i < draws.len() ==> 0 <= #[trigger] draws[i] < capacity + i + 1,
    )
}

/// Whether the item at a position is left in a slot.
pub open spec fn is_held(capacity: nat, draws: Seq<int>, position: int) -> bool {
    exists|slot: int|
        0 <= slot < capacity && #[trigger] holder(capacity, draws, slot) == position
}

/// The ways to draw that leave the item at a position in the sample.
pub open spec fn holding_courses(capacity: nat, n: nat, position: int) -> Set<Seq<int>> {
    courses(capacity, n).filter(|draws: Seq<int>| is_held(capacity, draws, position))
}

proof fn lemma_holders(capacity: nat, draws: Seq<int>, a: int, b: int)
    requires
        0 <= a < capacity,
        0 <= b < capacity,
        a != b,
    ensures
        0 <= holder(capacity, draws, a) < capacity + draws.len(),
        holder(capacity, draws, a) != holder(capacity, draws, b),
    decreases draws.len(),
{
    if draws.len() > 0 {
        lemma_holders(capacity, draws.drop_last(), a, b);
        lemma_holders(capacity, draws.drop_last(), b, a);
    }
}

proof fn lemma_holder_range(capacity: nat, draws: Seq<int>, a: int)
    requires
        0 <= a < capacity,
    ensures
        0 <= holder(capacity, draws, a) < capacity + draws.len(),
    decreases draws.len(),
{
    if draws.len() > 0 {
        lemma_holder_range(capacity, draws.drop_last(), a);
    }
}

/// Where each of several sequences is continued in as many ways, there are
/// that many times as many.
proof fn lemma_continued(
    shorter: Set<Seq<int>>,
    longer: Set<Seq<int>>,
    next: spec_fn(Seq<int>) -> Set<int>,
    ways: nat,
)
    requires
        shorter.finite(),
        forall|s: Seq<int>| #[trigger]
            shorter.contains(s) ==> next(s).finite() && next(s).len() == ways,
        forall|s: Seq<int>| #[trigger]
            longer.contains(s) <==> s.len() > 0 && shorter.contains(s.drop_last()) && next(
                s.drop_last(),
            ).contains(s.last()),
    ensures
        longer.finite(),
        longer.len() == ways * shorter.len(),
    decreases shorter.len(),
{
    if shorter.len() == 0 {
        shorter.lemma_len0_is_empty();
        assert(longer =~= Set::<Seq<int>>::empty());
        assert(ways * 0 == 0) by (nonlinear_arith);
    } else {
        let s = shorter.choose();
        assert(shorter.contains(s));
        let f = |x: int| s.push(x);
        let here = next(s).map(f);
        assert(injective_on(f, next(s))) by {
            assert forall|x: int, y: int| #[trigger] f(x) == #[trigger] f(y) implies x == y by {
                assert(s.push(x).last() == s.push(y).last());
            }
        }
        lemma_map_size(next(s), here, f);
        let others = longer.difference(here);
        let fewer = shorter.remove(s);
        assert forall|t: Seq<int>| #[trigger] here.contains(t) <==> t.len() > 0 && t.drop_last()
            == s && next(s).contains(t.last()) by {
            if here.contains(t) {
                let x = choose|x: int| #[trigger] next(s).contains(x) && f(x) == t;
                assert(t == s.push(x));
                assert(t.drop_last() =~= s);
            }
            if t.len() > 0 && t.drop_last() == s && next(s).contains(t.last()) {
                assert(t =~= s.push(t.last()));
                assert(f(t.last()) == t);
            }
        }
        assert forall|t: Seq<int>| #[trigger] others.contains(t) <==> t.len() > 0
            && fewer.contains(t.drop_last()) && next(t.drop_last()).contains(t.last()) by {}
        lemma_continued(fewer, others, next, ways);
        assert(longer =~= others.union(here));
        assert(others.disjoint(here));
        lemma_set_disjoint_lens(others, here);
        let k = shorter.len() as int;
        assert(ways * (k - 1) + ways == ways * k) by (nonlinear_arith);
    }
}

proof fn lemma_courses(capacity: nat, n: nat)
    requires
        capacity <= n,
    ensures
        courses(capacity, n).finite(),
        courses(capacity, n).len() > 0,
        courses(capacity, n + 1).finite(),
        courses(capacity, n + 1).len() == (n + 1) * courses(capacity, n).len(),
    decreases n,
{
    let all = courses(capacity, n);
    if n == capacity {
        let empty = Seq::<int>::empty();
        assert(all =~= Set::empty().insert(empty)) by {
            assert forall|s: Seq<int>| #[trigger] all.contains(s) <==> s == empty by {
                if all.contains(s) {
                    assert(s =~= empty);
                }
            }
        }
    } else {
        lemma_courses(capacity, (n - 1) as nat);
        let less = courses(capacity, (n - 1) as nat).len() as int;
        assert(n * less > 0) by (nonlinear_arith)
            requires
                n > 0,
                less > 0,
        ;
    }
    let next = |s: Seq<int>| set_int_range(0, (n + 1) as int);
    lemma_int_range(0, (n + 1) as int);
    let longer = courses(capacity, n + 1);
    assert forall|s: Seq<int>| #[trigger] longer.contains(s) <==> s.len() > 0 && all.contains(
        s.drop_last(),
    ) && next(s.drop_last()).contains(s.last()) by {
        lemma_course_end(capacity, n, s);
    }
    lemma_continued(all, longer, next, n + 1);
}

proof fn lemma_course_end(capacity: nat, n: nat, s: Seq<int>)
    requires
        capacity <= n,
    ensures
        courses(capacity, n + 1).contains(s) <==> s.len() > 0 && courses(capacity, n).contains(
            s.drop_last(),
        ) && 0 <= s.last() < n + 1,
{
    let rest = s.drop_last();
    if courses(capacity, n + 1).contains(s) {
        assert forall|i: int| 0 <= i < rest.len() implies 0 <= #[trigger] rest[i] < capacity + i
            + 1 by {
            assert(rest[i] == s[i]);
        }
    }
    if s.len() > 0 && courses(capacity, n).contains(rest) && 0 <= s.last() < n + 1 {
        assert forall|i: int| 0 <= i < s.len() implies 0 <= #[trigger] s[i] < capacity + i + 1 by {
            if i < rest.len() {
                assert(rest[i] == s[i]);
            }
        }
    }
}

/// The slot of a position that is held.
spec fn slot_of(capacity: nat, draws: Seq<int>, position: int) -> int {
    choose|slot: int| 0 <= slot < capacity && #[trigger] holder(capacity, draws, slot) == position
}

proof fn lemma_slot(capacity: nat, draws: Seq<int>, position: int, slot: int)
    requires
        0 <= slot < capacity,
        holder(capacity, draws, slot) == position,
    ensures
        slot_of(capacity, draws, position) == slot,
        is_held(capacity, draws, position),
{
    let found = slot_of(capacity, draws, position);
    if found != slot {
        lemma_holders(capacity, draws, found, slot);
    }
}

/// One more draw pushes out the item in the drawn slot and keeps the others.
proof fn lemma_held_on(capacity: nat, s: Seq<int>, position: int)
    requires
        s.len() > 0,
        position < capacity + s.len() - 1,
    ensures
        is_held(capacity, s, position) <==> is_held(capacity, s.drop_last(), position)
            && s.last() != slot_of(capacity, s.drop_last(), position),
{
    let rest = s.drop_last();
    if is_held(capacity, s, position) {
        let slot = slot_of(capacity, s, position);
        assert(holder(capacity, s, slot) == position);
        assert(s.last() != slot);
        lemma_slot(capacity, rest, position, slot);
    }
    if is_held(capacity, rest, position) && s.last() != slot_of(capacity, rest, position) {
        let slot = slot_of(capacity, rest, position);
        assert(holder(capacity, s, slot) == position);
    }
}

/// The last item is held where a slot was drawn for it.
proof fn lemma_held_last(capacity: nat, s: Seq<int>)
    requires
        s.len() > 0,
    ensures
        is_held(capacity, s, capacity + s.len() - 1) <==> 0 <= s.last() < capacity,
{
    let position = capacity + s.len() - 1;
    if is_held(capacity, s, position) {
        let slot = slot_of(capacity, s, position);
        assert(holder(capacity, s, slot) == position);
        lemma_holder_range(capacity, s.drop_last(), slot);
    }
    if 0 <= s.last() < capacity {
        assert(holder(capacity, s, s.last()) == position);
    }
}

/// Every item is as likely to be held: of all the ways to draw, `capacity` out
/// of `n` leave the item at any given position in the sample.
pub proof fn every_position_is_held_equally_often(capacity: nat, n: nat, position: int)
    requires
        capacity <= n,
        0 <= position < n,
    ensures
        courses(capacity, n).finite(),
        courses(capacity, n).len() > 0,
        n * holding_courses(capacity, n, position).len() == capacity * courses(capacity, n).len(),
    decreases n,
{
    lemma_courses(capacity, n);
    let all = courses(capacity, n);
    let holding = holding_courses(capacity, n, position);
    let c = capacity as int;
    if n == capacity {
        assert(holding =~= all) by {
            assert forall|s: Seq<int>| #[trigger] all.contains(s) implies is_held(
                capacity,
                s,
                position,
            ) by {
                assert(s.len() == 0);
                assert(holder(capacity, s, position) == position);
            }
        }
    } else {
        let m = (n - 1) as nat;
        let before = courses(capacity, m);
        lemma_courses(capacity, m);
        let d = before.len() as int;
        if position < m {
            every_position_is_held_equally_often(capacity, m, position);
            let held = holding_courses(capacity, m, position);
            let next = |s: Seq<int>|
                set_int_range(0, (m + 1) as int).remove(slot_of(capacity, s, position));
            lemma_int_range(0, (m + 1) as int);
            assert forall|s: Seq<int>| #[trigger] held.contains(s) implies next(s).finite()
                && next(s).len() == m by {
                let slot = slot_of(capacity, s, position);
                assert(holder(capacity, s, slot) == position && 0 <= slot < capacity);
                assert(set_int_range(0, (m + 1) as int).contains(slot));
            }
            assert forall|s: Seq<int>| #[trigger] holding.contains(s) <==> s.len() > 0
                && held.contains(s.drop_last()) && next(s.drop_last()).contains(s.last()) by {
                lemma_course_end(capacity, m, s);
                if s.len() > 0 && before.contains(s.drop_last()) {
                    lemma_held_on(capacity, s, position);
                }
            }
            lemma_continued(held, holding, next, m);
            let h = held.len() as int;
            let k = m as int;
            assert(k * h == c * d);
            assert((k + 1) * (k * h) == c * ((k + 1) * d)) by (nonlinear_arith)
                requires
                    k * h == c * d,
            ;
        } else {
            let next = |s: Seq<int>| set_int_range(0, c);
            lemma_int_range(0, c);
            assert forall|s: Seq<int>| #[trigger] holding.contains(s) <==> s.len() > 0
                && before.contains(s.drop_last()) && next(s.drop_last()).contains(s.last()) by {
                lemma_course_end(capacity, m, s);
                if s.len() > 0 && before.contains(s.drop_last()) {
                    lemma_held_last(capacity, s);
                }
            }
            lemma_continued(before, holding, next, capacity);
            let k = n as int;
            assert(k * (c * d) == c * (k * d)) by (nonlinear_arith);
        }
    }
}

/// The draws of a stream are one of the ways to draw that are counted.
pub proof fn courses_are_counted(capacity: nat, seed: u64, draws: Seq<int>, states: Seq<u64>)
    requires
        is_course(capacity, seed, draws, states),
        capacity + draws.len() <= u64::MAX,
    ensures
        courses(capacity, capacity + draws.len()).contains(draws),
{
    assert forall|i: int| 0 <= i < draws.len() implies 0 <= #[trigger] draws[i] < capacity + i
        + 1 by {
        assert(is_draw(states[i], capacity + i + 1, draws[i], states[i + 1]));
        lemma_draw(states[i], (capacity + i + 1) as u64, draws[i], states[i + 1]);
    }
}

} // verus!
