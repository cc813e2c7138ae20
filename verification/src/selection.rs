//! What single steps of a path select.

use vstd::prelude::*;

use crate::json::{first_member, member, Json};
use crate::path::{selected, selected_from, step_into, step_into_all, Step};

verus! {

/// One step selects out of a document what it selects out of a value.
proof fn lemma_single(step: Step, v: Json)
    ensures
        selected(seq![step], v) == step_into(step, v),
{
    let steps = seq![step];
    let values = seq![v];
    assert(steps.drop_first() =~= Seq::<Step>::empty());
    assert(values.drop_last() =~= Seq::<Json>::empty());
    assert(step_into_all(step, values.drop_last()) =~= Seq::<Json>::empty());
    assert(step_into_all(step, values) =~= step_into(step, v));
    assert(selected_from(steps.drop_first(), step_into_all(step, values)) == step_into_all(
        step,
        values,
    ));
}

/// Index zero and up select the elements of an array in their order, and
/// nothing from its length on.
pub proof fn indices_count_from_the_front(list: Seq<Json>, index: i64)
    requires
        index >= 0,
    ensures
        selected(seq![Step::Index(index)], Json::Array(list)) == if index < list.len() {
            seq![list[index as int]]
        } else {
            Seq::empty()
        },
{
    lemma_single(Step::Index(index), Json::Array(list));
}

/// An index of minus k selects the element that is k-th from the end, the one
/// that the length minus k selects from the front; beyond the length it
/// selects nothing.
pub proof fn negative_indices_count_from_the_back(list: Seq<Json>, k: nat)
    requires
        1 <= k <= 0x8000_0000_0000_0000,
        list.len() <= i64::MAX,
    ensures
        k <= list.len() ==> selected(seq![Step::Index((-k) as i64)], Json::Array(list)) == seq![
            list[list.len() - k],
        ],
        k <= list.len() ==> selected(seq![Step::Index((-k) as i64)], Json::Array(list))
            == selected(seq![Step::Index((list.len() - k) as i64)], Json::Array(list)),
        k > list.len() ==> selected(seq![Step::Index((-k) as i64)], Json::Array(list))
            == Seq::<Json>::empty(),
{
    lemma_single(Step::Index((-k) as i64), Json::Array(list));
    if k <= list.len() {
        indices_count_from_the_front(list, (list.len() - k) as i64);
    }
}

/// What the indices from minus one down select, as many as there are elements.
pub open spec fn selected_backwards(list: Seq<Json>) -> Seq<Seq<Json>> {
    Seq::new(
        list.len(),
        |i: int| selected(seq![Step::Index((-1 - i) as i64)], Json::Array(list)),
    )
}

/// The negative indices select the elements of an array each once, from the
/// last to the first.
pub proof fn negative_indices_reverse_an_array(list: Seq<Json>)
    requires
        list.len() <= i64::MAX,
    ensures
        selected_backwards(list) == list.reverse().map_values(|v: Json| seq![v]),
{
    let expected = list.reverse().map_values(|v: Json| seq![v]);
    assert forall|i: int| 0 <= i < list.len() implies #[trigger] selected_backwards(list)[i]
        == expected[i] by {
        negative_indices_count_from_the_back(list, (i + 1) as nat);
    }
    assert(selected_backwards(list) =~= expected);
}

/// The wildcard selects every element of an array, in order: what it selects
/// is what the indices select one after the other.
pub proof fn wildcards_select_every_element(list: Seq<Json>)
    ensures
        selected(seq![Step::Wildcard], Json::Array(list)) == list,
{
    lemma_single(Step::Wildcard, Json::Array(list));
}

proof fn lemma_first_member(fields: Seq<(Seq<char>, Json)>, key: Seq<char>, from: int)
    requires
        0 <= from <= fields.len(),
    ensures
        match first_member(fields, key, from) {
            Some(v) => exists|i: int|
                from <= i < fields.len() && #[trigger] fields[i] == (key, v) && forall|j: int|
                    from <= j < i ==> (#[trigger] fields[j]).0 != key,
            None => forall|j: int| from <= j < fields.len() ==> (#[trigger] fields[j]).0 != key,
        },
    decreases fields.len() - from,
{
    if from < fields.len() {
        if fields[from].0 != key {
            lemma_first_member(fields, key, from + 1);
        } else {
            assert(fields[from] == (key, fields[from].1));
        }
    }
}

/// A key selects the value of the first member with that name and nothing
/// where there is none.
pub proof fn keys_select_the_first_member_of_their_name(
    fields: Seq<(Seq<char>, Json)>,
    key: Seq<char>,
    i: int,
)
    requires
        0 <= i < fields.len(),
    ensures
        fields[i].0 == key && (forall|j: int| 0 <= j < i ==> (#[trigger] fields[j]).0 != key)
            ==> selected(seq![Step::Key(key)], Json::Object(fields)) == seq![fields[i].1]
            && member(Json::Object(fields), key) == Some(fields[i].1),
{
    lemma_single(Step::Key(key), Json::Object(fields));
    lemma_first_member(fields, key, 0);
}

/// A key that no member has selects nothing.
pub proof fn missing_keys_select_nothing(fields: Seq<(Seq<char>, Json)>, key: Seq<char>)
    requires
        forall|j: int| 0 <= j < fields.len() ==> (#[trigger] fields[j]).0 != key,
    ensures
        selected(seq![Step::Key(key)], Json::Object(fields)) == Seq::<Json>::empty(),
        member(Json::Object(fields), key) is None,
{
    lemma_single(Step::Key(key), Json::Object(fields));
    lemma_first_member(fields, key, 0);
}

/// Keys select only out of objects, indices and wildcards only out of arrays.
pub proof fn steps_select_only_where_they_apply(step: Step, v: Json)
    requires
        match step {
            Step::Key(_) => !(v is Object),
            Step::Index(_) => !(v is Array),
            Step::Wildcard => !(v is Array),
        },
    ensures
        selected(seq![step], v) == Seq::<Json>::empty(),
{
    lemma_single(step, v);
}

} // verus!
