//! How large a parsed document can be, compared with its text.

use vstd::prelude::*;

use crate::ascii::{COMMA, OPEN_BRACE, OPEN_BRACKET};
use crate::grammar::{
    after_space, document, items, lemma_after_space, lemma_name_end, lemma_value_end, members, name,
    number_value, value,
};
use crate::json::{first_member, Json};
use crate::path::{resolved, selected, selected_from, step_into, step_into_all, Step};

verus! {

/// How many values a value is made of, itself counted.
pub open spec fn nodes(v: Json) -> nat
    decreases v, 0int,
{
    match v {
        Json::Array(list) => 1 + list_nodes(list, 0),
        Json::Object(fields) => 1 + field_nodes(fields, 0),
        _ => 1,
    }
}

/// How many values a list is made of, from the `from`-th element on.
pub open spec fn list_nodes(list: Seq<Json>, from: int) -> nat
    decreases list, list.len() - from,
{
    if from < 0 || from >= list.len() {
        0
    } else {
        nodes(list[from]) + list_nodes(list, from + 1)
    }
}

/// How many values the members of an object are made of, from the `from`-th on.
pub open spec fn field_nodes(fields: Seq<(Seq<char>, Json)>, from: int) -> nat
    decreases fields, fields.len() - from,
{
    if from < 0 || from >= fields.len() {
        0
    } else {
        nodes(fields[from].1) + field_nodes(fields, from + 1)
    }
}

proof fn lemma_list_front(item: Json, rest: Seq<Json>, from: int)
    requires
        0 <= from,
    ensures
        list_nodes(seq![item] + rest, from + 1) == list_nodes(rest, from),
    decreases rest.len() - from,
{
    if from < rest.len() {
        lemma_list_front(item, rest, from + 1);
    }
}

proof fn lemma_field_front(item: (Seq<char>, Json), rest: Seq<(Seq<char>, Json)>, from: int)
    requires
        0 <= from,
    ensures
        field_nodes(seq![item] + rest, from + 1) == field_nodes(rest, from),
    decreases rest.len() - from,
{
    if from < rest.len() {
        lemma_field_front(item, rest, from + 1);
    }
}

/// A parsed value is made of no more values than its text has bytes.
proof fn lemma_value_nodes(b: Seq<u8>, i: int, depth: nat)
    ensures
        value(b, i, depth) matches Ok((v, end)) ==> nodes(v) <= end - i,
    decreases b.len() - i, 1nat,
{
    lemma_value_end(b, i, depth);
    if 0 <= i < b.len() {
        let first = after_space(b, i + 1);
        lemma_after_space(b, i + 1);
        if b[i] == OPEN_BRACE {
            lemma_members_nodes(b, first, depth + 1);
        } else if b[i] == OPEN_BRACKET {
            lemma_items_nodes(b, first, depth + 1);
        } else {
            reveal(number_value);
        }
    }
}

proof fn lemma_items_nodes(b: Seq<u8>, i: int, depth: nat)
    ensures
        items(b, i, depth) matches Ok((list, end)) ==> list_nodes(list, 0) <= end - i,
    decreases b.len() - i, 2nat,
{
    lemma_value_nodes(b, i, depth);
    lemma_value_end(b, i, depth);
    match value(b, i, depth) {
        Ok((item, j)) => {
            let k = after_space(b, j);
            lemma_after_space(b, j);
            reveal_with_fuel(list_nodes, 2);
            if k < b.len() && b[k] == COMMA {
                let next = after_space(b, k + 1);
                lemma_after_space(b, k + 1);
                lemma_items_nodes(b, next, depth);
                match items(b, next, depth) {
                    Ok((rest, end)) => {
                        lemma_list_front(item, rest, 0);
                    },
                    Err(e) => {},
                }
            }
        },
        Err(e) => {},
    }
}

proof fn lemma_members_nodes(b: Seq<u8>, i: int, depth: nat)
    requires
        0 <= i,
    ensures
        members(b, i, depth) matches Ok((list, end)) ==> field_nodes(list, 0) <= end - i,
    decreases b.len() - i, 2nat,
{
    lemma_name_end(b, i);
    match name(b, i) {
        Ok((key, v)) => {
            lemma_value_nodes(b, v, depth);
            lemma_value_end(b, v, depth);
            match value(b, v, depth) {
                Ok((field, j)) => {
                    let k = after_space(b, j);
                    lemma_after_space(b, j);
                    reveal_with_fuel(field_nodes, 2);
                    if k < b.len() && b[k] == COMMA {
                        let next = after_space(b, k + 1);
                        lemma_after_space(b, k + 1);
                        lemma_members_nodes(b, next, depth);
                        match members(b, next, depth) {
                            Ok((rest, end)) => {
                                lemma_field_front((key, field), rest, 0);
                            },
                            Err(e) => {},
                        }
                    }
                },
                Err(e) => {},
            }
        },
        Err(e) => {},
    }
}

/// A parsed document is made of no more values than its text has bytes.
pub proof fn documents_have_few_nodes(b: Seq<u8>)
    ensures
        document(b) matches Ok(v) ==> nodes(v) <= b.len(),
{
    let i = after_space(b, 0);
    lemma_after_space(b, 0);
    lemma_value_nodes(b, i, 0);
    lemma_value_end(b, i, 0);
}

/// How many values several values are made of.
spec fn all_nodes(values: Seq<Json>) -> nat
    decreases values.len(),
{
    if values.len() == 0 {
        0
    } else {
        all_nodes(values.drop_last()) + nodes(values.last())
    }
}

proof fn lemma_all_nodes(values: Seq<Json>)
    ensures
        values.len() <= all_nodes(values),
    decreases values.len(),
{
    if values.len() > 0 {
        lemma_all_nodes(values.drop_last());
        assert(nodes(values.last()) >= 1);
    }
}

proof fn lemma_all_nodes_concat(a: Seq<Json>, b: Seq<Json>)
    ensures
        all_nodes(a + b) == all_nodes(a) + all_nodes(b),
    decreases b.len(),
{
    if b.len() == 0 {
        assert(a + b =~= a);
    } else {
        assert((a + b).drop_last() =~= a + b.drop_last());
        lemma_all_nodes_concat(a, b.drop_last());
    }
}

proof fn lemma_list_all(list: Seq<Json>, from: int)
    requires
        0 <= from <= list.len(),
    ensures
        all_nodes(list.skip(from)) == list_nodes(list, from),
    decreases list.len() - from,
{
    if from < list.len() {
        lemma_list_all(list, from + 1);
        assert(list.skip(from) =~= seq![list[from]] + list.skip(from + 1));
        lemma_all_nodes_concat(seq![list[from]], list.skip(from + 1));
        lemma_one_node(list[from]);
    } else {
        assert(list.skip(from) =~= Seq::<Json>::empty());
    }
}

proof fn lemma_one_node(v: Json)
    ensures
        all_nodes(seq![v]) == nodes(v),
{
    assert(seq![v].drop_last() =~= Seq::<Json>::empty());
    assert(all_nodes(Seq::<Json>::empty()) == 0);
}

proof fn lemma_list_part(list: Seq<Json>, from: int, at: int)
    requires
        0 <= from <= at < list.len(),
    ensures
        nodes(list[at]) <= list_nodes(list, from),
    decreases at - from,
{
    if from < at {
        lemma_list_part(list, from + 1, at);
    }
}

proof fn lemma_member_part(fields: Seq<(Seq<char>, Json)>, key: Seq<char>, from: int)
    requires
        0 <= from,
    ensures
        first_member(fields, key, from) matches Some(v) ==> nodes(v) <= field_nodes(fields, from),
    decreases fields.len() - from,
{
    if from < fields.len() && fields[from].0 != key {
        lemma_member_part(fields, key, from + 1);
    }
}

proof fn lemma_step_nodes(step: Step, v: Json)
    ensures
        all_nodes(step_into(step, v)) <= nodes(v),
{
    assert(all_nodes(Seq::<Json>::empty()) == 0);
    match (step, v) {
        (Step::Key(key), Json::Object(fields)) => {
            lemma_member_part(fields, key, 0);
            match first_member(fields, key, 0) {
                Some(found) => {
                    lemma_one_node(found);
                },
                None => {},
            }
        },
        (Step::Index(index), Json::Array(list)) => {
            match resolved(list.len(), index) {
                Some(at) => {
                    lemma_list_part(list, 0, at);
                    lemma_one_node(list[at]);
                },
                None => {},
            }
        },
        (Step::Wildcard, Json::Array(list)) => {
            lemma_list_all(list, 0);
            assert(list.skip(0) =~= list);
        },
        _ => {},
    }
}

proof fn lemma_steps_nodes(step: Step, values: Seq<Json>)
    ensures
        all_nodes(step_into_all(step, values)) <= all_nodes(values),
    decreases values.len(),
{
    if values.len() > 0 {
        lemma_steps_nodes(step, values.drop_last());
        lemma_step_nodes(step, values.last());
        lemma_all_nodes_concat(
            step_into_all(step, values.drop_last()),
            step_into(step, values.last()),
        );
    }
}

proof fn lemma_selected_nodes(steps: Seq<Step>, values: Seq<Json>)
    ensures
        all_nodes(selected_from(steps, values)) <= all_nodes(values),
    decreases steps.len(),
{
    if steps.len() > 0 {
        lemma_steps_nodes(steps[0], values);
        lemma_selected_nodes(steps.drop_first(), step_into_all(steps[0], values));
    }
}

/// A path selects no more values than the document is made of.
pub proof fn paths_select_few_values(steps: Seq<Step>, v: Json)
    ensures
        selected(steps, v).len() <= nodes(v),
{
    lemma_selected_nodes(steps, seq![v]);
    lemma_one_node(v);
    lemma_all_nodes(selected(steps, v));
}

} // verus!
