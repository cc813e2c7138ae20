//! Discovery counts exactly, and what it counts at a path is what the path
//! selects.

use vstd::prelude::*;
use vstd::seq_lib::seq_to_set_is_finite;
use vstd::utf8::*;

use crate::agreement::{
    discovered_paths_are_written_steps, discovered_paths_read_back,
    discovery_finds_what_steps_select, types_at, types_of, walked_steps,
};
use crate::binary64::below;
use crate::discovery::{
    discovery, first_in_record, found_again, frequent, not_found, occurrences_seen, walked,
    Discovery, Found, Occurrence,
};
use crate::exact::{
    all_selected, counted, fields_are_profiled_exactly, has_type, how_many, is_present,
    lemma_counted, lemma_how_many_push, record_of, records_of,
};
use crate::json::Json;
use crate::path::{path_steps, selected, PathErrorKind, Step};
use crate::path_laws::{written, written_steps_are_read_back};
use crate::profile::summary;
use crate::schema::{found_of, Schema, MAX_PATHS};

verus! {

/// The types that discovery finds at a path of several records.
pub open spec fn types_found(records: Seq<Json>, depth: nat, path: Seq<char>) -> Seq<Seq<char>>
    decreases records.len(),
{
    if records.len() == 0 {
        Seq::empty()
    } else {
        types_found(records.drop_last(), depth, path) + types_at(
            walked(records.last(), Seq::empty(), depth),
            path,
        )
    }
}

/// Whether discovery finds a path in a record.
pub open spec fn finds(depth: nat, path: Seq<char>) -> spec_fn(Json) -> bool {
    |v: Json| types_at(walked(v, Seq::empty(), depth), path).len() > 0
}

/// Whether a name is the given one.
pub open spec fn is_name(name: Seq<char>) -> spec_fn(Seq<char>) -> bool {
    |other: Seq<char>| other == name
}

/// Whether what is held for a path is exact, given the records it is in and
/// the types of the values there.
pub open spec fn path_is_exact(f: Found, present: nat, types: Seq<Seq<char>>) -> bool {
    &&& f.present == present
    &&& f.values == types.len()
    &&& forall|name: Seq<char>| #[trigger]
        counted(f.types, name) == how_many(types, is_name(name))
}

/// What is held for a path is exact, or there was no room for it.
spec fn exact_if_listed(
    d: Discovery,
    path: Seq<char>,
    present: nat,
    types: Seq<Seq<char>>,
) -> bool {
    &&& present <= types.len()
    &&& d.found.dom().finite()
    &&& if d.found.dom().contains(path) {
        path_is_exact(d.found[path], present, types)
    } else {
        d.found.dom().len() < MAX_PATHS ==> types.len() == 0
    }
}

proof fn lemma_types_at_holds(found: Seq<Occurrence>, path: Seq<char>)
    ensures
        types_at(found, path).len() > 0 <==> exists|j: int|
            0 <= j < found.len() && (#[trigger] found[j]).0 == path,
    decreases found.len(),
{
    if found.len() > 0 {
        let rest = found.drop_last();
        lemma_types_at_holds(rest, path);
        if exists|j: int| 0 <= j < rest.len() && (#[trigger] rest[j]).0 == path {
            let j = choose|j: int| 0 <= j < rest.len() && (#[trigger] rest[j]).0 == path;
            assert(found[j].0 == path);
        }
        if exists|j: int| 0 <= j < found.len() && (#[trigger] found[j]).0 == path {
            let j = choose|j: int| 0 <= j < found.len() && (#[trigger] found[j]).0 == path;
            if j < rest.len() {
                assert(rest[j].0 == path);
            }
        }
    }
}

/// One more occurrence of a type among those at a path.
proof fn lemma_found_again_exact(f: Found, present: nat, types: Seq<Seq<char>>, new: Seq<char>, first: bool)
    requires
        path_is_exact(f, present, types),
    ensures
        path_is_exact(
            found_again(f, new, first),
            if first {
                present + 1
            } else {
                present
            },
            types.push(new),
        ),
{
    let next = found_again(f, new, first);
    assert forall|name: Seq<char>| #[trigger] counted(next.types, name) == how_many(
        types.push(new),
        is_name(name),
    ) by {
        assert(counted(f.types, name) == how_many(types, is_name(name)));
        lemma_counted(f.types, new, name);
        lemma_how_many_push(types, new, is_name(name));
    }
}

/// The occurrences of one more record keep what is held exact.
proof fn lemma_occurrences_exact(
    d: Discovery,
    occurrences: Seq<Occurrence>,
    n: nat,
    path: Seq<char>,
    present: nat,
    types: Seq<Seq<char>>,
)
    requires
        n <= occurrences.len(),
        exact_if_listed(d, path, present, types),
    ensures
        ({
            let here = types_at(occurrences.take(n as int), path);
            exact_if_listed(
                occurrences_seen(d, occurrences, n),
                path,
                if here.len() > 0 {
                    present + 1
                } else {
                    present
                },
                types + here,
            )
        }),
        d.found.dom().subset_of(occurrences_seen(d, occurrences, n).found.dom()),
    decreases n,
{
    if n > 0 {
        let less = (n - 1) as nat;
        lemma_occurrences_exact(d, occurrences, less, path, present, types);
        let before = occurrences_seen(d, occurrences, less);
        let next = occurrences_seen(d, occurrences, n);
        let earlier = occurrences.take(less as int);
        let (new, name) = occurrences[n - 1];
        let there = types_at(earlier, path);
        assert(occurrences.take(n as int).drop_last() =~= earlier);
        if new == path {
            lemma_types_at_holds(earlier, path);
            assert(first_in_record(occurrences, n - 1) == (there.len() == 0)) by {
                if there.len() > 0 {
                    let j = choose|j: int| 0 <= j < earlier.len() && (#[trigger] earlier[j]).0 == path;
                    assert(occurrences[j].0 == occurrences[n - 1].0);
                } else if !first_in_record(occurrences, n - 1) {
                    let j = choose|j: int|
                        0 <= j < n - 1 && (#[trigger] occurrences[j]).0 == occurrences[n - 1].0;
                    assert(earlier[j].0 == path);
                }
            }
            assert((types + there).push(name) =~= types + there.push(name));
            let f = if before.found.dom().contains(path) {
                before.found[path]
            } else {
                not_found()
            };
            if before.found.dom().contains(path) || before.found.dom().len() < MAX_PATHS {
                let count: nat = if there.len() > 0 {
                    present + 1
                } else {
                    present
                };
                assert(path_is_exact(f, count, types + there)) by {
                    assert forall|other: Seq<char>| #[trigger] counted(
                        not_found().types,
                        other,
                    ) == 0 by {}
                }
                lemma_found_again_exact(f, count, types + there, name, there.len() == 0);
            }
        }
        if before.found.dom().contains(new) {
            assert(next.found.dom() =~= before.found.dom());
        }
    } else {
        assert(occurrences.take(0) =~= Seq::<Occurrence>::empty());
        assert(types + types_at(occurrences.take(0), path) =~= types);
    }
}

proof fn lemma_discovery_exact(lines: Seq<Seq<u8>>, depth: nat, path: Seq<char>)
    ensures
        exact_if_listed(
            discovery(lines, depth),
            path,
            how_many(records_of(lines), finds(depth, path)),
            types_found(records_of(lines), depth, path),
        ),
    decreases lines.len(),
{
    if lines.len() > 0 {
        let rest = lines.drop_last();
        lemma_discovery_exact(rest, depth, path);
        let before = records_of(rest);
        match record_of(lines.last()) {
            Some(v) => {
                let occurrences = walked(v, Seq::empty(), depth);
                let d = discovery(rest, depth);
                let start = Discovery { records: d.records + 1, ..d };
                lemma_how_many_push(before, v, finds(depth, path));
                assert(before.push(v).drop_last() =~= before);
                assert(occurrences.take(occurrences.len() as int) =~= occurrences);
                lemma_occurrences_exact(
                    start,
                    occurrences,
                    occurrences.len(),
                    path,
                    how_many(before, finds(depth, path)),
                    types_found(before, depth, path),
                );
            },
            None => {},
        }
    }
}

/// Whether a path of some records is not in a table.
pub open spec fn leaves_out_path(d: Discovery, records: Seq<Json>, depth: nat) -> bool {
    exists|path: Seq<char>|
        how_many(records, #[trigger] finds(depth, path)) > 0 && !d.found.dom().contains(path)
}

proof fn lemma_found_types(records: Seq<Json>, depth: nat, path: Seq<char>)
    ensures
        how_many(records, finds(depth, path)) <= types_found(records, depth, path).len(),
    decreases records.len(),
{
    if records.len() > 0 {
        lemma_found_types(records.drop_last(), depth, path);
    }
}

proof fn lemma_records_counted(lines: Seq<Seq<u8>>, depth: nat)
    ensures
        discovery(lines, depth).records == records_of(lines).len(),
        discovery(lines, depth).records + discovery(lines, depth).skipped == lines.len(),
    decreases lines.len(),
{
    if lines.len() > 0 {
        lemma_records_counted(lines.drop_last(), depth);
        match record_of(lines.last()) {
            Some(v) => {
                let d = discovery(lines.drop_last(), depth);
                let occurrences = walked(v, Seq::empty(), depth);
                lemma_rest_kept(
                    Discovery { records: d.records + 1, ..d },
                    occurrences,
                    occurrences.len(),
                );
            },
            None => {},
        }
    }
}

proof fn lemma_rest_kept(d: Discovery, occurrences: Seq<Occurrence>, n: nat)
    ensures
        occurrences_seen(d, occurrences, n).records == d.records,
        occurrences_seen(d, occurrences, n).skipped == d.skipped,
    decreases n,
{
    if n > 0 && n <= occurrences.len() {
        lemma_rest_kept(d, occurrences, (n - 1) as nat);
    }
}

/// Discovery counts exactly: every line is a record or skipped, and for a
/// listed path the records in which it is found, the values there and their
/// types. No path is left out unless the table is full.
pub proof fn paths_are_counted_exactly(lines: Seq<Seq<u8>>, depth: nat)
    ensures
        ({
            let d = discovery(lines, depth);
            let records = records_of(lines);
            &&& d.records == records.len()
            &&& d.records + d.skipped == lines.len()
            &&& forall|path: Seq<char>| #[trigger]
                d.found.dom().contains(path) ==> path_is_exact(
                    d.found[path],
                    how_many(records, finds(depth, path)),
                    types_found(records, depth, path),
                )
            &&& d.found.dom().len() < MAX_PATHS ==> !leaves_out_path(d, records, depth)
        }),
{
    let d = discovery(lines, depth);
    let records = records_of(lines);
    lemma_records_counted(lines, depth);
    assert forall|path: Seq<char>| #[trigger] d.found.dom().contains(path) implies path_is_exact(
        d.found[path],
        how_many(records, finds(depth, path)),
        types_found(records, depth, path),
    ) by {
        lemma_discovery_exact(lines, depth, path);
    }
    if leaves_out_path(d, records, depth) {
        let path = choose|path: Seq<char>|
            how_many(records, #[trigger] finds(depth, path)) > 0 && !d.found.dom().contains(path);
        lemma_discovery_exact(lines, depth, path);
        lemma_found_types(records, depth, path);
    }
}

proof fn lemma_found_somewhere(records: Seq<Json>, depth: nat, path: Seq<char>) -> (k: int)
    requires
        types_found(records, depth, path).len() > 0,
    ensures
        0 <= k < records.len(),
        types_at(walked(records[k], Seq::empty(), depth), path).len() > 0,
    decreases records.len(),
{
    if types_at(walked(records.last(), Seq::empty(), depth), path).len() > 0 {
        records.len() - 1
    } else {
        lemma_found_somewhere(records.drop_last(), depth, path)
    }
}

proof fn lemma_values_found(d: Discovery, occurrences: Seq<Occurrence>, n: nat, path: Seq<char>)
    requires
        d.found.dom().contains(path) ==> d.found[path].values > 0,
    ensures
        occurrences_seen(d, occurrences, n).found.dom().contains(path) ==> occurrences_seen(
            d,
            occurrences,
            n,
        ).found[path].values > 0,
    decreases n,
{
    if n > 0 && n <= occurrences.len() {
        lemma_values_found(d, occurrences, (n - 1) as nat, path);
    }
}

proof fn lemma_listed_is_found(lines: Seq<Seq<u8>>, depth: nat, path: Seq<char>)
    requires
        discovery(lines, depth).found.dom().contains(path),
    ensures
        discovery(lines, depth).found[path].values > 0,
    decreases lines.len(),
{
    if lines.len() > 0 {
        let rest = lines.drop_last();
        let d = discovery(rest, depth);
        if d.found.dom().contains(path) {
            lemma_listed_is_found(rest, depth, path);
        }
        match record_of(lines.last()) {
            Some(v) => {
                let occurrences = walked(v, Seq::empty(), depth);
                lemma_values_found(
                    Discovery { records: d.records + 1, ..d },
                    occurrences,
                    occurrences.len(),
                    path,
                );
            },
            None => {},
        }
    }
}

proof fn lemma_type_counts(values: Seq<Json>, name: Seq<char>)
    ensures
        how_many(types_of(values), is_name(name)) == how_many(values, has_type(name)),
    decreases values.len(),
{
    if values.len() > 0 {
        lemma_type_counts(values.drop_last(), name);
        assert(types_of(values).drop_last() =~= types_of(values.drop_last()));
    }
}

proof fn lemma_selected_everywhere(
    records: Seq<Json>,
    depth: nat,
    path: Seq<char>,
    steps: Seq<Step>,
)
    requires
        forall|k: int|
            0 <= k < records.len() ==> types_of(selected(steps, #[trigger] records[k])) == types_at(
                walked(records[k], Seq::empty(), depth),
                path,
            ),
    ensures
        types_of(all_selected(steps, records)) == types_found(records, depth, path),
        how_many(records, is_present(steps)) == how_many(records, finds(depth, path)),
    decreases records.len(),
{
    if records.len() > 0 {
        let rest = records.drop_last();
        let v = records[records.len() - 1];
        assert forall|k: int| 0 <= k < rest.len() implies types_of(
            selected(steps, #[trigger] rest[k]),
        ) == types_at(walked(rest[k], Seq::empty(), depth), path) by {
            assert(rest[k] == records[k]);
        }
        lemma_selected_everywhere(rest, depth, path, steps);
        assert(types_of(selected(steps, v)) == types_at(walked(v, Seq::empty(), depth), path));
        assert(types_of(selected(steps, v)).len() == selected(steps, v).len());
        assert(types_of(all_selected(steps, records)) =~= types_found(rest, depth, path) + types_at(
            walked(v, Seq::empty(), depth),
            path,
        ));
    } else {
        assert(types_of(all_selected(steps, records)) =~= types_found(records, depth, path));
    }
}

/// A path that discovery prints for a file is parsed as a field path, and what
/// this path selects out of the records reproduces the counts that discovery
/// gives: the records in which it is present, the values and their types.
pub proof fn discovered_counts_read_back(lines: Seq<Seq<u8>>, depth: nat, path: Seq<char>)
    requires
        discovery(lines, depth).found.dom().contains(path),
    ensures
        ({
            let f = discovery(lines, depth).found[path];
            let records = records_of(lines);
            &&& path_steps(encode_utf8(path)) matches Ok(steps)
            &&& f.present == how_many(records, is_present(steps))
            &&& f.values == all_selected(steps, records).len()
            &&& forall|name: Seq<char>| #[trigger]
                counted(f.types, name) == how_many(all_selected(steps, records), has_type(name))
        }),
{
    let f = discovery(lines, depth).found[path];
    let records = records_of(lines);
    paths_are_counted_exactly(lines, depth);
    lemma_listed_is_found(lines, depth, path);
    let k = lemma_found_somewhere(records, depth, path);
    let found = walked(records[k], Seq::empty(), depth);
    lemma_types_at_holds(found, path);
    let i = choose|i: int| 0 <= i < found.len() && (#[trigger] found[i]).0 == path;
    discovered_paths_read_back(records[k], records[k], depth, i);
    let steps = path_steps(encode_utf8(path))->Ok_0;
    assert forall|j: int| 0 <= j < records.len() implies types_of(
        selected(steps, #[trigger] records[j]),
    ) == types_at(walked(records[j], Seq::empty(), depth), path) by {
        discovered_paths_read_back(records[k], records[j], depth, i);
    }
    lemma_selected_everywhere(records, depth, path, steps);
    let values = all_selected(steps, records);
    assert(types_of(values).len() == values.len());
    assert forall|name: Seq<char>| #[trigger] counted(f.types, name) == how_many(
        values,
        has_type(name),
    ) by {
        lemma_type_counts(values, name);
    }
}

/// A path that discovery prints can be profiled as it stands: the profile
/// counts what discovery has counted.
pub proof fn discovered_paths_profile_alike(
    lines: Seq<Seq<u8>>,
    depth: nat,
    path: Seq<char>,
    paths: Seq<Seq<Step>>,
    max_errors: nat,
    i: int,
)
    requires
        discovery(lines, depth).found.dom().contains(path),
        0 <= i < paths.len(),
        path_steps(encode_utf8(path)) == Ok::<_, (int, PathErrorKind)>(paths[i]),
    ensures
        ({
            let f = discovery(lines, depth).found[path];
            let p = summary(lines, paths, max_errors).profiles[i];
            &&& p.present == f.present
            &&& p.values == f.values
            &&& forall|name: Seq<char>| #[trigger]
                counted(p.types, name) == counted(f.types, name)
        }),
{
    discovered_counts_read_back(lines, depth, path);
    fields_are_profiled_exactly(lines, paths, max_errors, i);
}

/// Whether steps that discovery takes select something out of one of the
/// records.
pub open spec fn leads_somewhere(records: Seq<Json>, depth: nat, steps: Seq<Step>) -> bool {
    &&& 0 < steps.len() <= depth
    &&& walked_steps(steps)
    &&& exists|k: int| 0 <= k < records.len() && selected(steps, #[trigger] records[k]).len() > 0
}

/// The paths of keys and wildcards, at most `depth` of them, that select
/// something out of one of the records. Of the texts that are parsed as the
/// same steps it is the one in which a dot stands before every plain key but a
/// leading one.
pub open spec fn selecting_paths(records: Seq<Json>, depth: nat) -> Set<Seq<char>> {
    Set::new(
        |path: Seq<char>|
            path_steps(encode_utf8(path)) matches Ok(steps) && leads_somewhere(
                records,
                depth,
                steps,
            ) && path == written(steps),
    )
}

/// A path is found in one of the records just if it selects something there.
proof fn lemma_selecting_is_found(records: Seq<Json>, depth: nat, path: Seq<char>)
    ensures
        selecting_paths(records, depth).contains(path) <==> how_many(records, finds(depth, path))
            > 0,
{
    if selecting_paths(records, depth).contains(path) {
        let steps = path_steps(encode_utf8(path))->Ok_0;
        let k = choose|k: int|
            0 <= k < records.len() && selected(steps, #[trigger] records[k]).len() > 0;
        discovery_finds_what_steps_select(records[k], depth, steps);
        assert(types_of(selected(steps, records[k])).len() > 0);
        lemma_how_many_positive(records, finds(depth, path), k);
    }
    if how_many(records, finds(depth, path)) > 0 {
        let k = lemma_some_record(records, finds(depth, path));
        let found = walked(records[k], Seq::empty(), depth);
        lemma_types_at_holds(found, path);
        let i = choose|i: int| 0 <= i < found.len() && (#[trigger] found[i]).0 == path;
        let steps = discovered_paths_are_written_steps(records[k], depth, i);
        discovery_finds_what_steps_select(records[k], depth, steps);
        assert(types_of(selected(steps, records[k])).len() == selected(steps, records[k]).len());
        assert(leads_somewhere(records, depth, steps));
        written_steps_are_read_back(steps);
    }
}

proof fn lemma_how_many_positive<T>(s: Seq<T>, wanted: spec_fn(T) -> bool, k: int)
    requires
        0 <= k < s.len(),
        wanted(s[k]),
    ensures
        how_many(s, wanted) > 0,
    decreases s.len(),
{
    if k < s.len() - 1 {
        lemma_how_many_positive(s.drop_last(), wanted, k);
    }
}

proof fn lemma_some_record<T>(s: Seq<T>, wanted: spec_fn(T) -> bool) -> (k: int)
    requires
        how_many(s, wanted) > 0,
    ensures
        0 <= k < s.len(),
        wanted(s[k]),
    decreases s.len(),
{
    if wanted(s.last()) {
        s.len() - 1
    } else {
        lemma_some_record(s.drop_last(), wanted)
    }
}

/// The paths of a document.
spec fn paths_in(v: Json, depth: nat) -> Seq<Seq<char>> {
    let found = walked(v, Seq::empty(), depth);
    Seq::new(found.len(), |i: int| found[i].0)
}

/// There are only so many paths that select something.
proof fn lemma_selecting_finite(records: Seq<Json>, depth: nat)
    ensures
        selecting_paths(records, depth).finite(),
    decreases records.len(),
{
    let all = selecting_paths(records, depth);
    if records.len() == 0 {
        assert(all =~= Set::<Seq<char>>::empty());
    } else {
        let rest = records.drop_last();
        lemma_selecting_finite(rest, depth);
        let last = paths_in(records.last(), depth);
        seq_to_set_is_finite(last);
        let known = selecting_paths(rest, depth).union(last.to_set());
        assert forall|path: Seq<char>| #[trigger] all.contains(path) implies known.contains(
            path,
        ) by {
            lemma_selecting_is_found(records, depth, path);
            lemma_selecting_is_found(rest, depth, path);
            if !selecting_paths(rest, depth).contains(path) {
                let found = walked(records.last(), Seq::empty(), depth);
                lemma_types_at_holds(found, path);
                let i = choose|i: int| 0 <= i < found.len() && (#[trigger] found[i]).0 == path;
                assert(last[i] == path);
                assert(last.contains(path));
            }
        }
        vstd::set_lib::lemma_set_subset_finite(known, all);
    }
}

/// The paths that discovery lists all select something, and every path of keys
/// and wildcards that selects something, within the depth, is listed, provided
/// that these are few enough for the table.
pub proof fn listed_paths_are_those_that_select(lines: Seq<Seq<u8>>, depth: nat)
    ensures
        discovery(lines, depth).found.dom().subset_of(
            selecting_paths(records_of(lines), depth),
        ),
        selecting_paths(records_of(lines), depth).finite(),
        selecting_paths(records_of(lines), depth).len() < MAX_PATHS ==> discovery(
            lines,
            depth,
        ).found.dom() == selecting_paths(records_of(lines), depth),
{
    let d = discovery(lines, depth);
    let records = records_of(lines);
    let all = selecting_paths(records, depth);
    paths_are_counted_exactly(lines, depth);
    lemma_selecting_finite(records, depth);
    assert forall|path: Seq<char>| #[trigger] d.found.dom().contains(path) implies all.contains(
        path,
    ) by {
        lemma_listed_is_found(lines, depth, path);
        let k = lemma_found_somewhere(records, depth, path);
        lemma_how_many_positive(records, finds(depth, path), k);
        lemma_selecting_is_found(records, depth, path);
    }
    if all.len() < MAX_PATHS {
        vstd::set_lib::lemma_len_subset(d.found.dom(), all);
        assert forall|path: Seq<char>| #[trigger] all.contains(path) implies d.found.dom().contains(
            path,
        ) by {
            lemma_selecting_is_found(records, depth, path);
            assert(how_many(records, finds(depth, path)) > 0);
        }
        assert(d.found.dom() =~= all);
    }
}

/// The paths that a schema lists.
pub open spec fn listed_in(schema: Schema) -> Set<Seq<char>> {
    Set::new(
        |path: Seq<char>|
            exists|i: int|
                0 <= i < schema.paths@.len() && (#[trigger] schema.paths@[i]).path@ == path,
    )
}

/// A schema without a least rate lists exactly the paths of keys and wildcards
/// that select something out of one of the records, provided that these are
/// few enough for the table.
pub proof fn schemas_list_every_path_that_selects(
    schema: Schema,
    lines: Seq<Seq<u8>>,
    depth: nat,
    min_rate: u64,
)
    requires
        schema.reports(discovery(lines, depth), min_rate),
        !below(0, min_rate),
        selecting_paths(records_of(lines), depth).len() < MAX_PATHS,
    ensures
        listed_in(schema) == selecting_paths(records_of(lines), depth),
{
    let d = discovery(lines, depth);
    let list = found_of(schema.paths@);
    listed_paths_are_those_that_select(lines, depth);
    assert forall|path: Seq<char>| #[trigger] listed_in(schema).contains(path)
        <==> d.found.dom().contains(path) by {
        if listed_in(schema).contains(path) {
            let i = choose|i: int|
                0 <= i < schema.paths@.len() && (#[trigger] schema.paths@[i]).path@ == path;
            assert(d.found.dom().contains(list[i].0));
        }
        if d.found.dom().contains(path) {
            assert(frequent(d.found[path], d.records, min_rate));
            let i = choose|i: int| 0 <= i < list.len() && (#[trigger] list[i]).0 == path;
            assert(schema.paths@[i].path@ == path);
        }
    }
    assert(listed_in(schema) =~= d.found.dom());
}

/// Every path that discovery lists is one that a field path can be parsed from.
pub proof fn lemma_listed_parses(lines: Seq<Seq<u8>>, depth: nat, path: Seq<char>)
    requires
        discovery(lines, depth).found.dom().contains(path),
    ensures
        path_steps(encode_utf8(path)) is Ok,
{
    discovered_counts_read_back(lines, depth, path);
}

} // verus!
