//! Schema discovery and field paths agree: a path that discovery prints is one
//! that [`FieldPath::parse`](crate::path::FieldPath::parse) accepts, and what
//! it selects is what discovery has counted.

use vstd::prelude::*;
use vstd::utf8::*;

use crate::discovery::{walked, walked_fields, walked_items, Occurrence};
use crate::json::{first_member, type_text, Json};
use crate::path::{
    element_path, member_path, path_steps, selected, selected_from, step_into, step_into_all, Step,
};
use crate::path_laws::{
    lemma_selected_concat, lemma_selected_none, written, written_steps_are_read_back,
};
use crate::profile::repeated;

verus! {

/// Whether discovery takes a step: it goes by key or to every element.
pub open spec fn walked_step(step: Step) -> bool {
    !(step is Index)
}

/// Whether discovery takes steps.
pub open spec fn walked_steps(steps: Seq<Step>) -> bool {
    forall|i: int| 0 <= i < steps.len() ==> walked_step(#[trigger] steps[i])
}

/// A value with the steps that lead to it.
pub type Place = (Seq<Step>, Json);

/// The values below a value with their steps, in document order.
pub open spec fn places(v: Json, above: Seq<Step>, remaining: nat) -> Seq<Place>
    decreases v, 0int,
{
    if remaining == 0 {
        Seq::empty()
    } else {
        match v {
            Json::Object(fields) => field_places(fields, 0, above, remaining),
            Json::Array(list) => item_places(list, 0, above, remaining),
            _ => Seq::empty(),
        }
    }
}

/// The values below the members of an object from the `from`-th on; a repeated
/// member is left out.
pub open spec fn field_places(
    fields: Seq<(Seq<char>, Json)>,
    from: int,
    above: Seq<Step>,
    remaining: nat,
) -> Seq<Place>
    decreases fields, fields.len() - from,
{
    if from < 0 || from >= fields.len() || remaining == 0 {
        Seq::empty()
    } else {
        let (key, v) = fields[from];
        let here = above.push(Step::Key(key));
        (if repeated(fields, from) {
            Seq::empty()
        } else {
            seq![(here, v)] + places(v, here, (remaining - 1) as nat)
        }) + field_places(fields, from + 1, above, remaining)
    }
}

/// The values below the elements of an array from the `from`-th on.
pub open spec fn item_places(list: Seq<Json>, from: int, above: Seq<Step>, remaining: nat) -> Seq<Place>
    decreases list, list.len() - from,
{
    if from < 0 || from >= list.len() || remaining == 0 {
        Seq::empty()
    } else {
        let v = list[from];
        let here = above.push(Step::Wildcard);
        seq![(here, v)] + places(v, here, (remaining - 1) as nat) + item_places(
            list,
            from + 1,
            above,
            remaining,
        )
    }
}

/// Whether occurrences are those of places.
spec fn printed(found: Seq<Occurrence>, of: Seq<Place>) -> bool {
    &&& found.len() == of.len()
    &&& forall|i: int|
        0 <= i < of.len() ==> found[i] == (written((#[trigger] of[i]).0), type_text(of[i].1))
            && of[i].0.len() > 0
}

proof fn lemma_printed_concat(
    a: Seq<Occurrence>,
    b: Seq<Occurrence>,
    x: Seq<Place>,
    y: Seq<Place>,
)
    requires
        printed(a, x),
        printed(b, y),
    ensures
        printed(a + b, x + y),
{
    assert forall|i: int| 0 <= i < (x + y).len() implies (a + b)[i] == (
        written((#[trigger] (x + y)[i]).0),
        type_text((x + y)[i].1),
    ) && (x + y)[i].0.len() > 0 by {
        if i < x.len() {
            assert((x + y)[i] == x[i]);
        } else {
            assert((x + y)[i] == y[i - x.len()]);
        }
    }
}

proof fn lemma_step_written(above: Seq<Step>, step: Step)
    requires
        walked_step(step),
    ensures
        written(above.push(step)) == match step {
            Step::Key(key) => member_path(written(above), key),
            _ => element_path(written(above)),
        },
{
    assert(above.push(step).drop_last() =~= above);
}

proof fn lemma_head_printed(here: Seq<Step>, v: Json, below: Seq<Occurrence>, of: Seq<Place>)
    requires
        here.len() > 0,
        printed(below, of),
    ensures
        printed(seq![(written(here), type_text(v))] + below, seq![(here, v)] + of),
{
    let a = seq![(written(here), type_text(v))];
    let x = seq![(here, v)];
    assert(printed(a, x)) by {
        assert(x[0] == (here, v));
    }
    lemma_printed_concat(a, below, x, of);
}

/// Discovery prints the places of a document.
proof fn lemma_walked_printed(v: Json, above: Seq<Step>, remaining: nat)
    ensures
        printed(walked(v, written(above), remaining), places(v, above, remaining)),
    decreases v, 0int,
{
    match v {
        Json::Object(fields) => {
            lemma_fields_printed(fields, 0, above, remaining);
        },
        Json::Array(list) => {
            lemma_items_printed(list, 0, above, remaining);
        },
        _ => {},
    }
}

proof fn lemma_fields_printed(
    fields: Seq<(Seq<char>, Json)>,
    from: int,
    above: Seq<Step>,
    remaining: nat,
)
    requires
        0 <= from,
    ensures
        printed(
            walked_fields(fields, from, written(above), remaining),
            field_places(fields, from, above, remaining),
        ),
    decreases fields, fields.len() - from,
{
    if from < fields.len() && remaining > 0 {
        let (key, v) = fields[from];
        let here = above.push(Step::Key(key));
        lemma_step_written(above, Step::Key(key));
        lemma_fields_printed(fields, from + 1, above, remaining);
        let rest = walked_fields(fields, from + 1, written(above), remaining);
        let rest_places = field_places(fields, from + 1, above, remaining);
        if repeated(fields, from) {
            lemma_printed_concat(Seq::empty(), rest, Seq::empty(), rest_places);
        } else {
            lemma_walked_printed(v, here, (remaining - 1) as nat);
            let below = walked(v, written(here), (remaining - 1) as nat);
            let of = places(v, here, (remaining - 1) as nat);
            lemma_head_printed(here, v, below, of);
            lemma_printed_concat(
                seq![(written(here), type_text(v))] + below,
                rest,
                seq![(here, v)] + of,
                rest_places,
            );
        }
    }
}

proof fn lemma_items_printed(list: Seq<Json>, from: int, above: Seq<Step>, remaining: nat)
    requires
        0 <= from,
    ensures
        printed(
            walked_items(list, from, written(above), remaining),
            item_places(list, from, above, remaining),
        ),
    decreases list, list.len() - from,
{
    if from < list.len() && remaining > 0 {
        let v = list[from];
        let here = above.push(Step::Wildcard);
        lemma_step_written(above, Step::Wildcard);
        lemma_items_printed(list, from + 1, above, remaining);
        lemma_walked_printed(v, here, (remaining - 1) as nat);
        let below = walked(v, written(here), (remaining - 1) as nat);
        let of = places(v, here, (remaining - 1) as nat);
        lemma_head_printed(here, v, below, of);
        lemma_printed_concat(
            seq![(written(here), type_text(v))] + below,
            walked_items(list, from + 1, written(above), remaining),
            seq![(here, v)] + of,
            item_places(list, from + 1, above, remaining),
        );
    }
}

/// The values at the given steps.
spec fn values_at(of: Seq<Place>, steps: Seq<Step>) -> Seq<Json>
    decreases of.len(),
{
    if of.len() == 0 {
        Seq::empty()
    } else if of.last().0 == steps {
        values_at(of.drop_last(), steps).push(of.last().1)
    } else {
        values_at(of.drop_last(), steps)
    }
}

proof fn lemma_values_concat(x: Seq<Place>, y: Seq<Place>, steps: Seq<Step>)
    ensures
        values_at(x + y, steps) == values_at(x, steps) + values_at(y, steps),
    decreases y.len(),
{
    if y.len() == 0 {
        assert(x + y =~= x);
        assert(values_at(x, steps) + values_at(y, steps) =~= values_at(x, steps));
    } else {
        assert((x + y).drop_last() =~= x + y.drop_last());
        lemma_values_concat(x, y.drop_last(), steps);
        assert(values_at(x + y, steps) =~= values_at(x, steps) + values_at(y, steps));
    }
}

proof fn lemma_values_one(here: Seq<Step>, v: Json, steps: Seq<Step>)
    ensures
        values_at(seq![(here, v)], steps) == if here == steps {
            seq![v]
        } else {
            Seq::empty()
        },
{
    let x = seq![(here, v)];
    assert(x.drop_last() =~= Seq::<Place>::empty());
    assert(values_at(Seq::<Place>::empty(), steps) =~= Seq::<Json>::empty());
    assert(Seq::<Json>::empty().push(v) =~= seq![v]);
}

/// Whether steps lead through others.
spec fn below_steps(steps: Seq<Step>, above: Seq<Step>) -> bool {
    above.len() < steps.len() && steps.take(above.len() as int) == above
}

/// All places lie below the steps above them.
proof fn lemma_places_below(v: Json, above: Seq<Step>, remaining: nat)
    ensures
        forall|i: int|
            0 <= i < places(v, above, remaining).len() ==> below_steps(
                (#[trigger] places(v, above, remaining)[i]).0,
                above,
            ),
    decreases v, 0int,
{
    let all = places(v, above, remaining);
    assert forall|i: int| 0 <= i < all.len() implies below_steps((#[trigger] all[i]).0, above) by {
        match v {
            Json::Object(fields) => {
                lemma_field_places_below(fields, 0, above, remaining);
                assert(all == field_places(fields, 0, above, remaining));
            },
            Json::Array(list) => {
                lemma_item_places_below(list, 0, above, remaining);
                assert(all == item_places(list, 0, above, remaining));
            },
            _ => {},
        }
    }
}

proof fn lemma_below_push(above: Seq<Step>, step: Step, of: Seq<Place>)
    requires
        forall|i: int| 0 <= i < of.len() ==> below_steps((#[trigger] of[i]).0, above.push(step)),
    ensures
        below_steps(above.push(step), above),
        forall|i: int| 0 <= i < of.len() ==> below_steps((#[trigger] of[i]).0, above),
{
    let here = above.push(step);
    assert(here.take(above.len() as int) =~= above);
    assert forall|i: int| 0 <= i < of.len() implies below_steps((#[trigger] of[i]).0, above) by {
        let s = of[i].0;
        assert(s.take(here.len() as int) == here);
        assert(s.take(above.len() as int) =~= s.take(here.len() as int).take(above.len() as int));
    }
}

proof fn lemma_field_places_below(
    fields: Seq<(Seq<char>, Json)>,
    from: int,
    above: Seq<Step>,
    remaining: nat,
)
    requires
        0 <= from,
    ensures
        forall|i: int|
            0 <= i < field_places(fields, from, above, remaining).len() ==> below_steps(
                (#[trigger] field_places(fields, from, above, remaining)[i]).0,
                above,
            ),
    decreases fields, fields.len() - from,
{
    if from < fields.len() && remaining > 0 {
        let (key, v) = fields[from];
        let here = above.push(Step::Key(key));
        lemma_field_places_below(fields, from + 1, above, remaining);
        lemma_places_below(v, here, (remaining - 1) as nat);
        lemma_below_push(above, Step::Key(key), places(v, here, (remaining - 1) as nat));
        lemma_below_concat(
            seq![(here, v)],
            places(v, here, (remaining - 1) as nat),
            above,
        );
        lemma_below_concat(
            if repeated(fields, from) {
                Seq::empty()
            } else {
                seq![(here, v)] + places(v, here, (remaining - 1) as nat)
            },
            field_places(fields, from + 1, above, remaining),
            above,
        );
    }
}

proof fn lemma_below_concat(x: Seq<Place>, y: Seq<Place>, above: Seq<Step>)
    requires
        forall|i: int| 0 <= i < x.len() ==> below_steps((#[trigger] x[i]).0, above),
        forall|i: int| 0 <= i < y.len() ==> below_steps((#[trigger] y[i]).0, above),
    ensures
        forall|i: int| 0 <= i < (x + y).len() ==> below_steps((#[trigger] (x + y)[i]).0, above),
{
    assert forall|i: int| 0 <= i < (x + y).len() implies below_steps(
        (#[trigger] (x + y)[i]).0,
        above,
    ) by {
        if i < x.len() {
            assert((x + y)[i] == x[i]);
        } else {
            assert((x + y)[i] == y[i - x.len()]);
        }
    }
}

proof fn lemma_item_places_below(list: Seq<Json>, from: int, above: Seq<Step>, remaining: nat)
    requires
        0 <= from,
    ensures
        forall|i: int|
            0 <= i < item_places(list, from, above, remaining).len() ==> below_steps(
                (#[trigger] item_places(list, from, above, remaining)[i]).0,
                above,
            ),
    decreases list, list.len() - from,
{
    if from < list.len() && remaining > 0 {
        let v = list[from];
        let here = above.push(Step::Wildcard);
        lemma_item_places_below(list, from + 1, above, remaining);
        lemma_places_below(v, here, (remaining - 1) as nat);
        lemma_below_push(above, Step::Wildcard, places(v, here, (remaining - 1) as nat));
        lemma_below_concat(seq![(here, v)], places(v, here, (remaining - 1) as nat), above);
        lemma_below_concat(
            seq![(here, v)] + places(v, here, (remaining - 1) as nat),
            item_places(list, from + 1, above, remaining),
            above,
        );
    }
}

/// There are no values at steps that lead elsewhere.
proof fn lemma_no_values(of: Seq<Place>, above: Seq<Step>, steps: Seq<Step>)
    requires
        forall|i: int| 0 <= i < of.len() ==> below_steps((#[trigger] of[i]).0, above),
        !below_steps(steps, above),
    ensures
        values_at(of, steps) == Seq::<Json>::empty(),
    decreases of.len(),
{
    if of.len() > 0 {
        assert(below_steps(of[of.len() - 1].0, above));
        assert forall|i: int| 0 <= i < of.drop_last().len() implies below_steps(
            (#[trigger] of.drop_last()[i]).0,
            above,
        ) by {
            assert(below_steps(of[i].0, above));
        }
        lemma_no_values(of.drop_last(), above, steps);
    }
}

proof fn lemma_first_step(steps: Seq<Step>, v: Json)
    requires
        steps.len() > 0,
    ensures
        selected(steps, v) == selected_from(steps.drop_first(), step_into(steps[0], v)),
{
    assert(seq![v].drop_last() =~= Seq::<Json>::empty());
    assert(step_into_all(steps[0], Seq::<Json>::empty()) =~= Seq::<Json>::empty());
    assert(step_into_all(steps[0], seq![v]) =~= step_into(steps[0], v));
}

/// What one place and the places below it hold at steps that lead there.
proof fn lemma_values_here(
    here: Seq<Step>,
    v: Json,
    remaining: nat,
    rest: Seq<Step>,
)
    requires
        rest.len() <= remaining,
        walked_steps(rest),
    ensures
        values_at(seq![(here, v)] + places(v, here, remaining), here + rest) == selected(rest, v),
    decreases v, 1int,
{
    let of = places(v, here, remaining);
    let goal = here + rest;
    lemma_values_concat(seq![(here, v)], of, goal);
    lemma_values_one(here, v, goal);
    if rest.len() == 0 {
        assert(goal =~= here);
        lemma_places_below(v, here, remaining);
        lemma_no_values(of, here, goal);
        assert(seq![v] + Seq::<Json>::empty() =~= seq![v]);
    } else {
        lemma_values_below(v, here, remaining, rest);
        assert(Seq::<Json>::empty() + values_at(of, goal) =~= values_at(of, goal));
    }
}

/// What the places below a value hold at steps that lead through it.
proof fn lemma_values_below(v: Json, above: Seq<Step>, remaining: nat, rest: Seq<Step>)
    requires
        0 < rest.len() <= remaining,
        walked_steps(rest),
    ensures
        values_at(places(v, above, remaining), above + rest) == selected(rest, v),
    decreases v, 0int,
{
    let goal = above + rest;
    assert(walked_step(rest[0]));
    lemma_first_step(rest, v);
    lemma_selected_none(rest.drop_first());
    match v {
        Json::Object(fields) => {
            lemma_field_values(fields, 0, above, remaining, rest);
            match rest[0] {
                Step::Key(key) => {
                    match first_member(fields, key, 0) {
                        Some(found) => {},
                        None => {},
                    }
                },
                _ => {},
            }
        },
        Json::Array(list) => {
            lemma_item_values(list, 0, above, remaining, rest);
            assert(list.skip(0) =~= list);
        },
        _ => {},
    }
}

/// What the members of an object from the `from`-th on hold at given steps.
spec fn from_member(
    fields: Seq<(Seq<char>, Json)>,
    from: int,
    rest: Seq<Step>,
) -> Seq<Json> {
    match rest[0] {
        Step::Key(key) => if exists|j: int| 0 <= j < from && (#[trigger] fields[j]).0 == key {
            Seq::empty()
        } else {
            match first_member(fields, key, from) {
                Some(v) => selected_from(rest.drop_first(), seq![v]),
                None => Seq::empty(),
            }
        },
        _ => Seq::empty(),
    }
}

proof fn lemma_goal(above: Seq<Step>, step: Step, rest: Seq<Step>)
    requires
        rest.len() > 0,
    ensures
        rest[0] == step ==> above + rest == above.push(step) + rest.drop_first(),
        rest[0] != step ==> !below_steps(above + rest, above.push(step)) && above + rest
            != above.push(step),
{
    let here = above.push(step);
    let goal = above + rest;
    if rest[0] == step {
        assert(goal =~= here + rest.drop_first());
    } else {
        assert(goal[above.len() as int] == rest[0]);
        assert(here[above.len() as int] == step);
        if below_steps(goal, here) {
            assert(goal.take(here.len() as int)[above.len() as int] == rest[0]);
        }
    }
}

proof fn lemma_field_values(
    fields: Seq<(Seq<char>, Json)>,
    from: int,
    above: Seq<Step>,
    remaining: nat,
    rest: Seq<Step>,
)
    requires
        0 <= from,
        0 < rest.len() <= remaining,
        walked_steps(rest),
    ensures
        values_at(field_places(fields, from, above, remaining), above + rest) == from_member(
            fields,
            from,
            rest,
        ),
    decreases fields, fields.len() - from,
{
    let goal = above + rest;
    assert(walked_step(rest[0]));
    if from < fields.len() {
        let (key, v) = fields[from];
        let here = above.push(Step::Key(key));
        let deeper = (remaining - 1) as nat;
        let after = field_places(fields, from + 1, above, remaining);
        lemma_field_values(fields, from + 1, above, remaining, rest);
        let block = if repeated(fields, from) {
            Seq::empty()
        } else {
            seq![(here, v)] + places(v, here, deeper)
        };
        lemma_values_concat(block, after, goal);
        lemma_goal(above, Step::Key(key), rest);
        let tail = rest.drop_first();
        assert(walked_steps(tail)) by {
            assert forall|i: int| 0 <= i < tail.len() implies walked_step(#[trigger] tail[i]) by {
                assert(walked_step(rest[i + 1]));
            }
        }
        if rest[0] == Step::Key(key) {
            if !repeated(fields, from) {
                lemma_values_here(here, v, deeper, tail);
                assert(fields[from].0 == key);
                assert(values_at(after, goal) =~= Seq::<Json>::empty());
                assert(forall|j: int| 0 <= j < from ==> (#[trigger] fields[j]).0 != key);
                assert(selected_from(tail, seq![v]) + Seq::<Json>::empty() =~= selected_from(
                    tail,
                    seq![v],
                ));
            } else {
                let j = choose|j: int| 0 <= j < from && (#[trigger] fields[j]).0 == key;
                assert(fields[j].0 == key);
                assert(values_at(block, goal) =~= Seq::<Json>::empty());
                assert(Seq::<Json>::empty() + values_at(after, goal) =~= Seq::<Json>::empty());
            }
        } else {
            if !repeated(fields, from) {
                lemma_values_concat(seq![(here, v)], places(v, here, deeper), goal);
                lemma_values_one(here, v, goal);
                lemma_places_below(v, here, deeper);
                lemma_no_values(places(v, here, deeper), here, goal);
                assert(Seq::<Json>::empty() + Seq::<Json>::empty() =~= Seq::<Json>::empty());
            }
            assert(values_at(block, goal) =~= Seq::<Json>::empty());
            assert(Seq::<Json>::empty() + values_at(after, goal) =~= values_at(after, goal));
            match rest[0] {
                Step::Key(other) => {
                    assert(other != key);
                    assert((exists|j: int| 0 <= j < from && (#[trigger] fields[j]).0 == other) == (
                    exists|j: int| 0 <= j < from + 1 && (#[trigger] fields[j]).0 == other));
                },
                _ => {},
            }
        }
    }
}

proof fn lemma_item_values(
    list: Seq<Json>,
    from: int,
    above: Seq<Step>,
    remaining: nat,
    rest: Seq<Step>,
)
    requires
        0 <= from <= list.len(),
        0 < rest.len() <= remaining,
        walked_steps(rest),
    ensures
        values_at(item_places(list, from, above, remaining), above + rest) == if rest[0]
            == Step::Wildcard {
            selected_from(rest.drop_first(), list.skip(from))
        } else {
            Seq::empty()
        },
    decreases list, list.len() - from,
{
    let goal = above + rest;
    let tail = rest.drop_first();
    assert(walked_step(rest[0]));
    assert(walked_steps(tail)) by {
        assert forall|i: int| 0 <= i < tail.len() implies walked_step(#[trigger] tail[i]) by {
            assert(walked_step(rest[i + 1]));
        }
    }
    if from < list.len() {
        let v = list[from];
        let here = above.push(Step::Wildcard);
        let deeper = (remaining - 1) as nat;
        let after = item_places(list, from + 1, above, remaining);
        lemma_item_values(list, from + 1, above, remaining, rest);
        let block = seq![(here, v)] + places(v, here, deeper);
        lemma_values_concat(block, after, goal);
        lemma_goal(above, Step::Wildcard, rest);
        if rest[0] == Step::Wildcard {
            lemma_values_here(here, v, deeper, tail);
            assert(list.skip(from) =~= seq![v] + list.skip(from + 1));
            lemma_selected_concat(tail, seq![v], list.skip(from + 1));
        } else {
            lemma_values_concat(seq![(here, v)], places(v, here, deeper), goal);
            lemma_values_one(here, v, goal);
            lemma_places_below(v, here, deeper);
            lemma_no_values(places(v, here, deeper), here, goal);
            assert(values_at(block, goal) + values_at(after, goal) =~= Seq::<Json>::empty());
        }
    } else {
        assert(list.skip(from) =~= Seq::<Json>::empty());
        lemma_selected_none(tail);
    }
}

/// The types that were found at a path, in document order.
pub open spec fn types_at(found: Seq<Occurrence>, path: Seq<char>) -> Seq<Seq<char>>
    decreases found.len(),
{
    if found.len() == 0 {
        Seq::empty()
    } else if found.last().0 == path {
        types_at(found.drop_last(), path).push(found.last().1)
    } else {
        types_at(found.drop_last(), path)
    }
}

/// The types of values.
pub open spec fn types_of(values: Seq<Json>) -> Seq<Seq<char>> {
    Seq::new(values.len(), |i: int| type_text(values[i]))
}

proof fn lemma_types_at(found: Seq<Occurrence>, of: Seq<Place>, steps: Seq<Step>)
    requires
        printed(found, of),
        steps.len() > 0,
    ensures
        types_at(found, written(steps)) == types_of(values_at(of, steps)),
    decreases of.len(),
{
    if of.len() > 0 {
        let last = of.len() - 1;
        let rest = of.drop_last();
        assert(of[last].0.len() > 0);
        assert forall|i: int| 0 <= i < rest.len() implies #[trigger] rest[i] == of[i] by {}
        assert(printed(found.drop_last(), rest)) by {
            assert forall|i: int| 0 <= i < rest.len() implies found.drop_last()[i] == (
                written((#[trigger] rest[i]).0),
                type_text(rest[i].1),
            ) && rest[i].0.len() > 0 by {
                assert(of[i].0.len() > 0);
            }
        }
        lemma_types_at(found.drop_last(), rest, steps);
        if written(of[last].0) == written(steps) {
            written_steps_are_read_back(steps);
            written_steps_are_read_back(of[last].0);
            assert(of[last].0 == steps);
        }
        assert(types_at(found, written(steps)) =~= types_of(values_at(of, steps)));
    } else {
        assert(types_at(found, written(steps)) =~= types_of(values_at(of, steps)));
    }
}

/// What discovery finds at the text of steps that it takes, as many as it may
/// descend at most, is what these steps select, in document order.
pub proof fn discovery_finds_what_steps_select(v: Json, depth: nat, steps: Seq<Step>)
    requires
        0 < steps.len() <= depth,
        walked_steps(steps),
    ensures
        types_at(walked(v, Seq::empty(), depth), written(steps)) == types_of(selected(steps, v)),
{
    let nowhere = Seq::<Step>::empty();
    assert(written(nowhere) =~= Seq::<char>::empty());
    lemma_walked_printed(v, nowhere, depth);
    lemma_values_below(v, nowhere, depth, steps);
    assert(nowhere + steps =~= steps);
    lemma_types_at(walked(v, Seq::empty(), depth), places(v, Seq::empty(), depth), steps);
}

/// Every path that discovery prints for a document is the text of steps that
/// it takes, no more of them than it may descend.
pub proof fn discovered_paths_are_written_steps(v: Json, depth: nat, i: int) -> (steps: Seq<Step>)
    requires
        0 <= i < walked(v, Seq::empty(), depth).len(),
    ensures
        0 < steps.len() <= depth,
        walked_steps(steps),
        walked(v, Seq::empty(), depth)[i].0 == written(steps),
{
    let nowhere = Seq::<Step>::empty();
    let of = places(v, nowhere, depth);
    assert(written(nowhere) =~= Seq::<char>::empty());
    lemma_walked_printed(v, nowhere, depth);
    assert(of[i].0.len() > 0);
    lemma_places_depth(v, nowhere, depth);
    of[i].0
}

/// Every path that discovery prints for a document is parsed as a field path,
/// and what this path selects out of a document, be it this one or another,
/// are the values that discovery counts there, in their order.
pub proof fn discovered_paths_read_back(v: Json, other: Json, depth: nat, i: int)
    requires
        0 <= i < walked(v, Seq::empty(), depth).len(),
    ensures
        ({
            let path = walked(v, Seq::empty(), depth)[i].0;
            &&& path_steps(encode_utf8(path)) matches Ok(steps)
            &&& types_of(selected(steps, other)) == types_at(
                walked(other, Seq::empty(), depth),
                path,
            )
        }),
{
    let steps = discovered_paths_are_written_steps(v, depth, i);
    written_steps_are_read_back(steps);
    discovery_finds_what_steps_select(other, depth, steps);
}

/// Places are no deeper than allowed, and lie behind steps that discovery takes.
proof fn lemma_places_depth(v: Json, above: Seq<Step>, remaining: nat)
    requires
        walked_steps(above),
    ensures
        short(places(v, above, remaining), above.len() + remaining),
    decreases v, 0int,
{
    match v {
        Json::Object(fields) => {
            lemma_field_places_depth(fields, 0, above, remaining);
        },
        Json::Array(list) => {
            lemma_item_places_depth(list, 0, above, remaining);
        },
        _ => {},
    }
}

/// Whether places lie behind so many steps at most, all of which discovery
/// takes.
spec fn short(of: Seq<Place>, limit: nat) -> bool {
    forall|i: int|
        0 <= i < of.len() ==> (#[trigger] of[i]).0.len() <= limit && walked_steps(of[i].0)
}

proof fn lemma_short_concat(x: Seq<Place>, y: Seq<Place>, limit: nat)
    requires
        short(x, limit),
        short(y, limit),
    ensures
        short(x + y, limit),
{
    assert forall|i: int| 0 <= i < (x + y).len() implies (#[trigger] (x + y)[i]).0.len() <= limit
        && walked_steps((x + y)[i].0) by {
        if i < x.len() {
            assert((x + y)[i] == x[i]);
        } else {
            assert((x + y)[i] == y[i - x.len()]);
        }
    }
}

proof fn lemma_field_places_depth(
    fields: Seq<(Seq<char>, Json)>,
    from: int,
    above: Seq<Step>,
    remaining: nat,
)
    requires
        0 <= from,
        walked_steps(above),
    ensures
        short(field_places(fields, from, above, remaining), above.len() + remaining),
    decreases fields, fields.len() - from,
{
    if from < fields.len() && remaining > 0 {
        let (key, v) = fields[from];
        let here = above.push(Step::Key(key));
        let limit = above.len() + remaining;
        assert(walked_steps(here)) by {
            assert forall|i: int| 0 <= i < here.len() implies walked_step(#[trigger] here[i]) by {
                if i < above.len() {
                    assert(walked_step(above[i]));
                }
            }
        }
        lemma_field_places_depth(fields, from + 1, above, remaining);
        lemma_places_depth(v, here, (remaining - 1) as nat);
        let below = places(v, here, (remaining - 1) as nat);
        assert(short(below, limit));
        lemma_short_concat(seq![(here, v)], below, limit);
        lemma_short_concat(
            if repeated(fields, from) {
                Seq::empty()
            } else {
                seq![(here, v)] + below
            },
            field_places(fields, from + 1, above, remaining),
            limit,
        );
    }
}

proof fn lemma_item_places_depth(list: Seq<Json>, from: int, above: Seq<Step>, remaining: nat)
    requires
        0 <= from,
        walked_steps(above),
    ensures
        short(item_places(list, from, above, remaining), above.len() + remaining),
    decreases list, list.len() - from,
{
    if from < list.len() && remaining > 0 {
        let v = list[from];
        let here = above.push(Step::Wildcard);
        let limit = above.len() + remaining;
        assert(walked_steps(here)) by {
            assert forall|i: int| 0 <= i < here.len() implies walked_step(#[trigger] here[i]) by {
                if i < above.len() {
                    assert(walked_step(above[i]));
                }
            }
        }
        lemma_item_places_depth(list, from + 1, above, remaining);
        lemma_places_depth(v, here, (remaining - 1) as nat);
        let below = places(v, here, (remaining - 1) as nat);
        assert(short(below, limit));
        lemma_short_concat(seq![(here, v)], below, limit);
        lemma_short_concat(
            seq![(here, v)] + below,
            item_places(list, from + 1, above, remaining),
            limit,
        );
    }
}

} // verus!
