//! In which order things are listed: as they first occur.

use vstd::prelude::*;

use crate::agreement::types_of;
use crate::exact::{all_selected, record_of, records_of};
use crate::json::{type_text, Json};
use crate::path::{selected, Step};
use crate::profile::{
    lemma_place_of, place_of, summaries_add_up, summary, tallied, values_seen, Profile, Tally,
};

verus! {

/// Whether a name first occurs at a place.
pub open spec fn is_first<T>(s: Seq<T>, k: int, name: T) -> bool {
    &&& 0 <= k < s.len()
    &&& s[k] == name
    &&& forall|j: int| 0 <= j < k ==> #[trigger] s[j] != name
}

/// Whether a tally has an entry for a name.
pub open spec fn lists(tally: Tally, name: Seq<char>) -> bool {
    exists|i: int| 0 <= i < tally.len() && (#[trigger] tally[i]).0 == name
}

/// Whether a name occurs.
pub open spec fn occurs(names: Seq<Seq<char>>, name: Seq<char>) -> bool {
    exists|k: int| is_first(names, k, name)
}

/// Whether one name first occurs before another.
pub open spec fn occurs_before(names: Seq<Seq<char>>, one: Seq<char>, other: Seq<char>) -> bool {
    exists|a: int, b: int| a < b && #[trigger] is_first(names, a, one) && #[trigger] is_first(
        names,
        b,
        other,
    )
}

/// Whether the entries of a tally stand in the order in which their names
/// first occur, each name once and none left out.
pub open spec fn follows(tally: Tally, names: Seq<Seq<char>>) -> bool {
    &&& forall|k: int| 0 <= k < names.len() ==> lists(tally, #[trigger] names[k])
    &&& forall|i: int| 0 <= i < tally.len() ==> occurs(names, (#[trigger] tally[i]).0)
    &&& forall|i: int, j: int|
        0 <= i < j < tally.len() ==> occurs_before(
            names,
            (#[trigger] tally[i]).0,
            (#[trigger] tally[j]).0,
        )
}

proof fn lemma_first_kept(names: Seq<Seq<char>>, new: Seq<char>, k: int, name: Seq<char>)
    requires
        is_first(names, k, name),
    ensures
        is_first(names.push(new), k, name),
{
    let more = names.push(new);
    assert forall|j: int| 0 <= j < k implies #[trigger] more[j] != name by {
        assert(names[j] != name);
    }
}

proof fn lemma_first_new(tally: Tally, names: Seq<Seq<char>>, new: Seq<char>)
    requires
        follows(tally, names),
        !lists(tally, new),
    ensures
        is_first(names.push(new), names.len() as int, new),
{
    let more = names.push(new);
    assert forall|j: int| 0 <= j < names.len() implies #[trigger] more[j] != new by {
        assert(lists(tally, names[j]));
    }
}

/// A tally still lists its names as they first occur with one more.
proof fn lemma_follows(tally: Tally, names: Seq<Seq<char>>, new: Seq<char>)
    requires
        follows(tally, names),
    ensures
        follows(tallied(tally, new), names.push(new)),
{
    let next = tallied(tally, new);
    let more = names.push(new);
    let place = place_of(tally, new, 0);
    lemma_place_of(tally, new, 0);
    let n = names.len() as int;
    let old_len = tally.len() as int;
    assert forall|i: int| 0 <= i < old_len implies (#[trigger] next[i]).0 == tally[i].0 by {}
    assert forall|k: int| 0 <= k < more.len() implies lists(next, #[trigger] more[k]) by {
        if k < n {
            assert(lists(tally, names[k]));
            let i = choose|i: int| 0 <= i < tally.len() && (#[trigger] tally[i]).0 == names[k];
            assert(next[i].0 == more[k]);
        } else {
            assert(next[place].0 == more[k]);
        }
    }
    if place == old_len {
        lemma_first_new(tally, names, new);
    }
    assert forall|i: int| 0 <= i < next.len() implies occurs(more, (#[trigger] next[i]).0) by {
        if i < old_len {
            assert(occurs(names, tally[i].0));
            let k = choose|k: int| is_first(names, k, tally[i].0);
            lemma_first_kept(names, new, k, tally[i].0);
        }
    }
    assert forall|i: int, j: int| 0 <= i < j < next.len() implies occurs_before(
        more,
        (#[trigger] next[i]).0,
        (#[trigger] next[j]).0,
    ) by {
        let one = tally[i].0;
        assert(next[i].0 == one);
        if j < old_len {
            let other = tally[j].0;
            assert(next[j].0 == other);
            assert(occurs_before(names, one, other));
            let (a, b) = choose|a: int, b: int| a < b && #[trigger] is_first(names, a, one)
                && #[trigger] is_first(names, b, other);
            lemma_first_kept(names, new, a, one);
            lemma_first_kept(names, new, b, other);
        } else {
            assert(occurs(names, one));
            let a = choose|k: int| is_first(names, k, one);
            lemma_first_kept(names, new, a, one);
            assert(is_first(more, n, next[j].0));
            assert(a < n);
        }
    }
}

proof fn lemma_types_push(values: Seq<Json>, v: Json)
    ensures
        types_of(values.push(v)) == types_of(values).push(type_text(v)),
{
    assert(types_of(values.push(v)) =~= types_of(values).push(type_text(v)));
}

/// The types of the documents are listed as they first occur in the file.
pub proof fn types_are_listed_as_they_first_occur(
    lines: Seq<Seq<u8>>,
    paths: Seq<Seq<Step>>,
    max_errors: nat,
)
    ensures
        follows(summary(lines, paths, max_errors).types, types_of(records_of(lines))),
    decreases lines.len(),
{
    if lines.len() > 0 {
        let rest = lines.drop_last();
        types_are_listed_as_they_first_occur(rest, paths, max_errors);
        match record_of(lines.last()) {
            Some(v) => {
                lemma_types_push(records_of(rest), v);
                lemma_follows(
                    summary(rest, paths, max_errors).types,
                    types_of(records_of(rest)),
                    type_text(v),
                );
            },
            None => {},
        }
    }
}

proof fn lemma_values_follow(p: Profile, before: Seq<Json>, selection: Seq<Json>, n: nat)
    requires
        n <= selection.len(),
        follows(p.types, types_of(before)),
    ensures
        follows(
            values_seen(p, selection, n).types,
            types_of(before + selection.take(n as int)),
        ),
    decreases n,
{
    if n == 0 {
        assert(before + selection.take(0) =~= before);
    } else {
        let m = (n - 1) as nat;
        lemma_values_follow(p, before, selection, m);
        let some = before + selection.take(m as int);
        let v = selection[n - 1];
        assert(before + selection.take(n as int) =~= some.push(v));
        lemma_types_push(some, v);
        lemma_follows(values_seen(p, selection, m).types, types_of(some), type_text(v));
    }
}

/// The types of the values of a field are listed as they first occur.
pub proof fn field_types_are_listed_as_they_first_occur(
    lines: Seq<Seq<u8>>,
    paths: Seq<Seq<Step>>,
    max_errors: nat,
    i: int,
)
    requires
        0 <= i < paths.len(),
    ensures
        follows(
            summary(lines, paths, max_errors).profiles[i].types,
            types_of(all_selected(paths[i], records_of(lines))),
        ),
    decreases lines.len(),
{
    if lines.len() > 0 {
        let rest = lines.drop_last();
        field_types_are_listed_as_they_first_occur(rest, paths, max_errors, i);
        summaries_add_up(rest, paths, max_errors);
        let p = summary(rest, paths, max_errors).profiles[i];
        match record_of(lines.last()) {
            Some(v) => {
                let before = records_of(rest);
                let values = all_selected(paths[i], before);
                let selection = selected(paths[i], v);
                assert(before.push(v).drop_last() =~= before);
                assert(all_selected(paths[i], before.push(v)) == values + selection);
                if selection.len() > 0 {
                    lemma_values_follow(
                        Profile { present: p.present + 1, ..p },
                        values,
                        selection,
                        selection.len(),
                    );
                    assert(selection.take(selection.len() as int) =~= selection);
                } else {
                    assert(values + selection =~= values);
                }
            },
            None => {},
        }
    }
}

} // verus!
