//! What schema discovery finds: the paths of a document with the types of the
//! values there, and their counts over the lines of a file.

use vstd::arithmetic::mul::*;
use vstd::prelude::*;

use crate::binary64::{
    below, finite, lemma_rounds_exists, lemma_rounds_scaled, lemma_units_increase, nearest,
    negative, not_a_number, one, quotient, rank, rounding_is_monotonic, rounds_to, units, INFINITE,
};
use crate::hist::{lemma_one_bits, one_bits};
use crate::json::{type_text, Json};
use crate::lines::blank;
use crate::nodes::{documents_have_few_nodes, field_nodes, list_nodes, nodes};
use crate::order::text_before;
use crate::path::{element_path, member_path};
use crate::profile::{
    record_on, repeated, tallied, tallies_count_every_occurrence, tally_total, Tally,
};
use crate::schema::MAX_PATHS;

verus! {

/// A path with the type of a value found there.
pub type Occurrence = (Seq<char>, Seq<char>);

/// The paths below a value, at most `remaining` segments deep, in document
/// order.
pub open spec fn walked(v: Json, prefix: Seq<char>, remaining: nat) -> Seq<Occurrence>
    decreases v, 0int,
{
    if remaining == 0 {
        Seq::empty()
    } else {
        match v {
            Json::Object(fields) => walked_fields(fields, 0, prefix, remaining),
            Json::Array(list) => walked_items(list, 0, prefix, remaining),
            _ => Seq::empty(),
        }
    }
}

/// The paths below the members of an object from the `from`-th on; a repeated
/// member is left out.
pub open spec fn walked_fields(
    fields: Seq<(Seq<char>, Json)>,
    from: int,
    prefix: Seq<char>,
    remaining: nat,
) -> Seq<Occurrence>
    decreases fields, fields.len() - from,
{
    if from < 0 || from >= fields.len() || remaining == 0 {
        Seq::empty()
    } else {
        let (key, v) = fields[from];
        let path = member_path(prefix, key);
        (if repeated(fields, from) {
            Seq::empty()
        } else {
            seq![(path, type_text(v))] + walked(v, path, (remaining - 1) as nat)
        }) + walked_fields(fields, from + 1, prefix, remaining)
    }
}

/// The paths below the elements of an array from the `from`-th on.
pub open spec fn walked_items(
    list: Seq<Json>,
    from: int,
    prefix: Seq<char>,
    remaining: nat,
) -> Seq<Occurrence>
    decreases list, list.len() - from,
{
    if from < 0 || from >= list.len() || remaining == 0 {
        Seq::empty()
    } else {
        let v = list[from];
        let path = element_path(prefix);
        seq![(path, type_text(v))] + walked(v, path, (remaining - 1) as nat) + walked_items(
            list,
            from + 1,
            prefix,
            remaining,
        )
    }
}

/// There are no more occurrences than values below the top.
pub proof fn lemma_walked_size(v: Json, prefix: Seq<char>, remaining: nat)
    ensures
        walked(v, prefix, remaining).len() < nodes(v),
    decreases v, 0int,
{
    match v {
        Json::Object(fields) => {
            lemma_walked_fields_size(fields, 0, prefix, remaining);
        },
        Json::Array(list) => {
            lemma_walked_items_size(list, 0, prefix, remaining);
        },
        _ => {},
    }
}

proof fn lemma_walked_fields_size(
    fields: Seq<(Seq<char>, Json)>,
    from: int,
    prefix: Seq<char>,
    remaining: nat,
)
    requires
        0 <= from,
    ensures
        walked_fields(fields, from, prefix, remaining).len() <= field_nodes(fields, from),
    decreases fields, fields.len() - from,
{
    if from < fields.len() && remaining > 0 {
        let (key, v) = fields[from];
        lemma_walked_size(v, member_path(prefix, key), (remaining - 1) as nat);
        lemma_walked_fields_size(fields, from + 1, prefix, remaining);
    }
}

proof fn lemma_walked_items_size(list: Seq<Json>, from: int, prefix: Seq<char>, remaining: nat)
    requires
        0 <= from,
    ensures
        walked_items(list, from, prefix, remaining).len() <= list_nodes(list, from),
    decreases list, list.len() - from,
{
    if from < list.len() && remaining > 0 {
        lemma_walked_size(list[from], element_path(prefix), (remaining - 1) as nat);
        lemma_walked_items_size(list, from + 1, prefix, remaining);
    }
}

/// How often a path was found.
#[verifier::ext_equal]
pub struct Found {
    /// Records in which the path was found.
    pub present: nat,
    /// Values at the path.
    pub values: nat,
    /// Types of these values.
    pub types: Tally,
}

/// What is discovered in one pass over the lines of a file.
#[verifier::ext_equal]
pub struct Discovery {
    pub records: nat,
    pub skipped: nat,
    pub found: Map<Seq<char>, Found>,
}

/// A path that was never found.
pub open spec fn not_found() -> Found {
    Found { present: 0, values: 0, types: Seq::empty() }
}

/// A path found once more.
pub open spec fn found_again(f: Found, name: Seq<char>, first: bool) -> Found {
    Found {
        present: if first {
            f.present + 1
        } else {
            f.present
        },
        values: f.values + 1,
        types: tallied(f.types, name),
    }
}

/// Whether the path of an occurrence did not occur earlier in the record.
pub open spec fn first_in_record(occurrences: Seq<Occurrence>, i: int) -> bool {
    !exists|j: int| 0 <= j < i && (#[trigger] occurrences[j]).0 == occurrences[i].0
}

/// A discovery with one more occurrence.
pub open spec fn occurrence_seen(d: Discovery, occurrence: Occurrence, first: bool) -> Discovery {
    let (path, name) = occurrence;
    if d.found.dom().contains(path) {
        Discovery { found: d.found.insert(path, found_again(d.found[path], name, first)), ..d }
    } else if d.found.dom().len() < MAX_PATHS {
        Discovery { found: d.found.insert(path, found_again(not_found(), name, first)), ..d }
    } else {
        d
    }
}

/// A discovery with the first `n` occurrences of one more record.
pub open spec fn occurrences_seen(d: Discovery, occurrences: Seq<Occurrence>, n: nat) -> Discovery
    decreases n,
{
    if n == 0 || n > occurrences.len() {
        d
    } else {
        occurrence_seen(
            occurrences_seen(d, occurrences, (n - 1) as nat),
            occurrences[n - 1],
            first_in_record(occurrences, n - 1),
        )
    }
}

/// A discovery with one more record.
pub open spec fn document_seen(d: Discovery, v: Json, depth: nat) -> Discovery {
    let occurrences = walked(v, Seq::empty(), depth);
    occurrences_seen(
        Discovery { records: d.records + 1, ..d },
        occurrences,
        occurrences.len(),
    )
}

/// A discovery with one more line.
pub open spec fn line_walked(d: Discovery, line: Seq<u8>, depth: nat) -> Discovery {
    if blank(line) {
        Discovery { skipped: d.skipped + 1, ..d }
    } else {
        match record_on(line) {
            Ok(v) => document_seen(d, v, depth),
            Err(_) => Discovery { skipped: d.skipped + 1, ..d },
        }
    }
}

/// A discovery before any line.
pub open spec fn nothing_found() -> Discovery {
    Discovery { records: 0, skipped: 0, found: Map::empty() }
}

/// The discovery of lines.
pub open spec fn discovery(lines: Seq<Seq<u8>>, depth: nat) -> Discovery
    decreases lines.len(),
{
    if lines.len() == 0 {
        nothing_found()
    } else {
        line_walked(discovery(lines.drop_last(), depth), lines.last(), depth)
    }
}

/// The share of `records`, as a binary number.
pub open spec fn share(present: nat, records: nat) -> u64 {
    if records == 0 {
        0
    } else {
        quotient(nearest(present, 1), nearest(records, 1)) as u64
    }
}

/// Whether a path is frequent enough to be reported: its share reaches the
/// least one that is asked for, if a positive one is.
pub open spec fn frequent(f: Found, records: nat, min_rate: u64) -> bool {
    let rate = share(f.present, records);
    below(0, min_rate) ==> !not_a_number(rate) && rank(rate) >= rank(min_rate)
}

/// Whether a list holds the paths to report, in the order of their texts.
pub open spec fn is_report(
    d: Discovery,
    min_rate: u64,
    list: Seq<(Seq<char>, Found)>,
) -> bool {
    &&& forall|i: int, j: int|
        0 <= i < j < list.len() ==> text_before((#[trigger] list[i]).0, (#[trigger] list[j]).0)
    &&& forall|i: int|
        0 <= i < list.len() ==> d.found.dom().contains((#[trigger] list[i]).0)
            && d.found[list[i].0] == list[i].1 && frequent(list[i].1, d.records, min_rate)
    &&& forall|path: Seq<char>| #[trigger]
        d.found.dom().contains(path) && frequent(d.found[path], d.records, min_rate)
            ==> exists|i: int| 0 <= i < list.len() && (#[trigger] list[i]).0 == path
}

/// Whether the counts of a path fit together and are no larger than a bound.
pub open spec fn found_within(f: Found, bound: nat) -> bool {
    f.present <= f.values <= bound && tally_total(f.types) == f.values
}

/// Whether all counts are no larger than a bound.
pub open spec fn all_within(d: Discovery, bound: nat) -> bool {
    &&& d.found.dom().finite()
    &&& d.found.dom().len() <= MAX_PATHS
    &&& forall|path: Seq<char>| #[trigger]
        d.found.dom().contains(path) ==> found_within(d.found[path], bound)
}

proof fn lemma_found_again(f: Found, name: Seq<char>, first: bool, bound: nat)
    requires
        found_within(f, bound),
    ensures
        found_within(found_again(f, name, first), bound + 1),
{
    tallies_count_every_occurrence(f.types, name);
}

pub proof fn lemma_occurrence_within(
    d: Discovery,
    occurrence: Occurrence,
    first: bool,
    bound: nat,
)
    requires
        all_within(d, bound),
    ensures
        all_within(occurrence_seen(d, occurrence, first), bound + 1),
{
    let (path, name) = occurrence;
    let next = occurrence_seen(d, occurrence, first);
    assert(tally_total(Seq::empty()) == 0);
    assert forall|p: Seq<char>| #[trigger] next.found.dom().contains(p) implies found_within(
        next.found[p],
        bound + 1,
    ) by {
        if d.found.dom().contains(p) {
            assert(found_within(d.found[p], bound));
            lemma_found_again(d.found[p], name, first, bound);
        } else {
            lemma_found_again(not_found(), name, first, bound);
        }
    }
    if d.found.dom().contains(path) {
        assert(next.found.dom() =~= d.found.dom());
    }
}

pub proof fn lemma_occurrences_within(
    d: Discovery,
    occurrences: Seq<Occurrence>,
    n: nat,
    bound: nat,
)
    requires
        all_within(d, bound),
        n <= occurrences.len(),
    ensures
        all_within(occurrences_seen(d, occurrences, n), bound + n),
        occurrences_seen(d, occurrences, n).records == d.records,
        occurrences_seen(d, occurrences, n).skipped == d.skipped,
    decreases n,
{
    if n > 0 {
        let less = (n - 1) as nat;
        lemma_occurrences_within(d, occurrences, less, bound);
        lemma_occurrence_within(
            occurrences_seen(d, occurrences, less),
            occurrences[n - 1],
            first_in_record(occurrences, n - 1),
            bound + less,
        );
    }
}

/// Whether the counts of a discovery fit together and are no larger than the
/// number of bytes that were read.
pub open spec fn discovery_within(d: Discovery, bytes: nat) -> bool {
    d.records + d.skipped <= bytes && all_within(d, bytes)
}

/// One more line of `size` bytes keeps the counts within the number of bytes
/// read.
pub proof fn lemma_walk_within(d: Discovery, line: Seq<u8>, depth: nat, bytes: nat, size: nat)
    requires
        discovery_within(d, bytes),
        line.len() <= size,
        size > 0,
    ensures
        discovery_within(line_walked(d, line, depth), bytes + size),
        line_walked(d, line, depth).records + line_walked(d, line, depth).skipped == d.records
            + d.skipped + 1,
{
    lemma_all_wider(d, bytes, bytes + size);
    if !blank(line) {
        match record_on(line) {
            Ok(v) => {
                let occurrences = walked(v, Seq::empty(), depth);
                documents_have_few_nodes(line);
                lemma_walked_size(v, Seq::empty(), depth);
                let start = Discovery { records: d.records + 1, ..d };
                assert(all_within(start, bytes));
                lemma_occurrences_within(start, occurrences, occurrences.len(), bytes);
                lemma_all_wider(
                    document_seen(d, v, depth),
                    bytes + occurrences.len(),
                    bytes + size,
                );
            },
            Err(_) => {},
        }
    }
}

pub proof fn lemma_all_wider(d: Discovery, a: nat, b: nat)
    requires
        all_within(d, a),
        a <= b,
    ensures
        all_within(d, b),
{
    assert forall|path: Seq<char>| #[trigger] d.found.dom().contains(path) implies found_within(
        d.found[path],
        b,
    ) by {
        assert(found_within(d.found[path], a));
    }
}

proof fn lemma_presence(d: Discovery, occurrences: Seq<Occurrence>, n: nat, path: Seq<char>)
    requires
        n <= occurrences.len(),
        d.records > 0,
        forall|p: Seq<char>| #[trigger]
            d.found.dom().contains(p) ==> d.found[p].present < d.records,
        occurrences_seen(d, occurrences, n).found.dom().contains(path),
    ensures
        ({
            let f = occurrences_seen(d, occurrences, n).found[path];
            let met = exists|j: int| 0 <= j < n && (#[trigger] occurrences[j]).0 == path;
            f.present <= d.records && (!met ==> f.present < d.records)
        }),
    decreases n,
{
    if n > 0 {
        let less = (n - 1) as nat;
        let before = occurrences_seen(d, occurrences, less);
        if before.found.dom().contains(path) {
            lemma_presence(d, occurrences, less, path);
            if occurrences[n - 1].0 == path {
                assert(first_in_record(occurrences, n - 1) <==> !exists|j: int|
                    0 <= j < less && (#[trigger] occurrences[j]).0 == path);
            } else {
                assert(forall|j: int|
                    0 <= j < n && (#[trigger] occurrences[j]).0 == path ==> j < less);
            }
        } else {
            assert(occurrences[n - 1].0 == path);
        }
    }
}

/// A path is present in no more records than there are.
pub proof fn presence_is_a_share(lines: Seq<Seq<u8>>, depth: nat, path: Seq<char>)
    requires
        discovery(lines, depth).found.dom().contains(path),
    ensures
        discovery(lines, depth).found[path].present <= discovery(lines, depth).records,
    decreases lines.len(),
{
    if lines.len() > 0 {
        let rest = lines.drop_last();
        let before = discovery(rest, depth);
        let line = lines.last();
        assert forall|p: Seq<char>| #[trigger] before.found.dom().contains(p) implies before.found[p].present
            <= before.records by {
            presence_is_a_share(rest, depth, p);
        }
        if !blank(line) {
            match record_on(line) {
                Ok(v) => {
                    let occurrences = walked(v, Seq::empty(), depth);
                    let start = Discovery { records: before.records + 1, ..before };
                    lemma_presence(start, occurrences, occurrences.len(), path);
                    lemma_records_kept(start, occurrences, occurrences.len());
                },
                Err(_) => {},
            }
        }
    }
}

proof fn lemma_records_kept(d: Discovery, occurrences: Seq<Occurrence>, n: nat)
    ensures
        occurrences_seen(d, occurrences, n).records == d.records,
    decreases n,
{
    if n > 0 && n <= occurrences.len() {
        lemma_records_kept(d, occurrences, (n - 1) as nat);
    }
}

proof fn lemma_one_rounds()
    ensures
        rounds_to(1, 1, one_bits() as nat),
{
    reveal(rounds_to);
    lemma_one_bits();
    let m = one_bits() as nat;
    lemma_units_increase((m - 1) as nat, m);
    lemma_units_increase(m, m + 1);
    lemma_mul_basics(one() as int);
    lemma_mul_basics((units((m - 1) as nat) + units(m)) as int);
    lemma_mul_basics((units(m) + units(m + 1)) as int);
    assert(m <= INFINITE);
    assert((units((m - 1) as nat) + units(m)) * 1 < 2 * one());
    assert((units(m) + units(m + 1)) * 1 > 2 * one());
}

/// The share of some of the records is between zero and one.
pub proof fn rates_lie_between_zero_and_one(present: nat, records: nat)
    requires
        present <= records,
    ensures
        finite(share(present, records)),
        !negative(share(present, records)),
        0 <= rank(share(present, records)) <= rank(one_bits()),
{
    if records > 0 {
        let a = nearest(present, 1);
        let b = nearest(records, 1);
        let one_magnitude = one_bits() as nat;
        lemma_rounds_exists(present, 1);
        lemma_rounds_exists(records, 1);
        lemma_mul_basics(present as int);
        lemma_mul_basics(records as int);
        rounding_is_monotonic(present, 1, a, records, 1, b);
        lemma_one_rounds();
        rounding_is_monotonic(1, 1, one_magnitude, records, 1, b);
        if a < b {
            lemma_units_increase(a, b);
        }
        lemma_units_increase(0, b);
        let (u, v) = (units(a), units(b));
        lemma_rounds_exists(u, v);
        lemma_mul_basics(v as int);
        lemma_rounds_scaled(1, 1, v, one_magnitude);
        lemma_mul_inequality(u as int, v as int, v as int);
        rounding_is_monotonic(u, v, quotient(a, b), v, v, one_magnitude);
    }
}

} // verus!
