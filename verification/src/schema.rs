//! Schema discovery: which field paths a JSONL file actually contains, up to
//! a depth limit, and how often each one shows up.
//!
//! Unlike [`crate::stats`], which profiles paths the caller already knows to
//! ask for, `schema` walks every record itself and discovers the paths. Object
//! keys become dotted segments, or quoted ones where they could not stand
//! between dots, and arrays become a `[]` wildcard segment, the same syntax
//! [`crate::path::FieldPath`] parses, so a path printed by `schema` can be
//! pasted straight into `stats --field`.

use vstd::prelude::*;
use vstd::string::*;
use vstd::utf8::*;

use crate::binary64::{below, finite, negative, rank, ratio, Binary64};
use crate::discovery::{
    all_within, discovery, discovery_within, first_in_record, found_within, frequent,
    is_report, lemma_all_wider, lemma_occurrences_within, lemma_walk_within, lemma_walked_size,
    nothing_found, occurrence_seen, occurrences_seen, rates_lie_between_zero_and_one,
    share, walked, walked_fields, walked_items, Discovery, Found, Occurrence,
};
use crate::found::lemma_listed_parses;
use crate::hist::one_bits;
use crate::json::{self, lemma_array_view, lemma_object_view, type_text, Json, Value};
use crate::lines::{
    blank, contents, first_raw, lemma_line_end, line_end, raw_lines, Line, LineReader,
};
use crate::nodes::documents_have_few_nodes;
use crate::order::text_before;
use crate::path::{element_path, member_path, path_steps, with_elements, with_member};
use crate::profile::{record_on, tally_total};
use crate::stats::{fields_of, trimmed_lines, TypeCounts};
use crate::table::{is_listing, pairs_of, TextTable};
use crate::text::decode;

verus! {

/// Default number of segments [`Schema::from_reader`] descends into a record.
pub const DEFAULT_DEPTH: usize = 3;

/// The path table stops growing past this many distinct paths.
pub const MAX_PATHS: usize = 2_000;

/// Options controlling a [`Schema::from_reader`] pass.
#[derive(Debug, Clone)]
pub struct SchemaOptions {
    /// Maximum number of path segments to descend into each record.
    pub depth: usize,
    /// Paths present in fewer than this share of records (zero to one) are
    /// left out of the result.
    pub min_rate: Binary64,
}

impl Default for SchemaOptions {
    fn default() -> (r: SchemaOptions)
        ensures
            r.depth == DEFAULT_DEPTH,
            r.min_rate@ == 0,
    {
        SchemaOptions { depth: DEFAULT_DEPTH, min_rate: Binary64::from_bits(0) }
    }
}

/// One discovered path: how often it appeared and with which value types.
#[derive(Debug, Clone)]
pub struct PathEntry {
    /// The path, in the same dotted/bracketed syntax [`crate::path::FieldPath`]
    /// parses (`meta.source`, `messages[].role`, `[].id`, `["a.b"]`, ...).
    pub path: String,
    /// Number of records in which the path selected at least one value.
    pub records_present: u64,
    /// Total number of values matched (more than one per record for a path
    /// that passes through a `[]` wildcard).
    pub values: u64,
    /// Types the matched values took.
    pub types: TypeCounts,
}

impl View for PathEntry {
    type V = Found;

    open spec fn view(&self) -> Found {
        Found {
            present: self.records_present as nat,
            values: self.values as nat,
            types: self.types@,
        }
    }
}

/// Path entries as mathematics.
pub open spec fn found_of(entries: Seq<PathEntry>) -> Seq<(Seq<char>, Found)> {
    Seq::new(entries.len(), |i: int| (entries[i].path@, entries[i]@))
}

impl PathEntry {
    /// Share of `records` in which this path was present, from zero to one.
    pub fn rate(&self, records: u64) -> (r: Binary64)
        ensures
            r@ == share(self.records_present as nat, records as nat),
            finite(r@),
            !negative(r@),
            self.records_present <= records ==> 0 <= rank(r@) <= rank(one_bits()),
    {
        proof {
            if self.records_present <= records {
                rates_lie_between_zero_and_one(self.records_present as nat, records as nat);
            }
        }
        if records == 0 {
            Binary64::from_bits(0)
        } else {
            ratio(self.records_present as u128, records)
        }
    }

    fn copy(&self) -> (r: PathEntry)
        ensures
            r.path@ == self.path@,
            r@ == self@,
    {
        PathEntry {
            path: self.path.clone(),
            records_present: self.records_present,
            values: self.values,
            types: self.types.copy(),
        }
    }
}

/// Occurrences as mathematics.
pub open spec fn occurrences_of(out: Seq<(String, &'static str)>) -> Seq<Occurrence> {
    Seq::new(out.len(), |i: int| (out[i].0@, out[i].1@))
}

/// Appends `(path, type)` for every location reachable from `value` within
/// `remaining` segments, using the same object-key/array-wildcard syntax
/// [`crate::path::FieldPath`] parses.
///
/// A record can repeat an object key (the parser keeps duplicates), so only
/// the first occurrence per object contributes a path, matching how
/// [`crate::stats::KeyTable`] treats the top level.
fn walk(value: &Value, prefix: &str, remaining: usize, out: &mut Vec<(String, &'static str)>)
    ensures
        occurrences_of(final(out)@) == occurrences_of(old(out)@) + walked(
            value@,
            prefix@,
            remaining as nat,
        ),
    decreases value,
{
    let ghost start = occurrences_of(out@);
    if remaining == 0 {
        assert(start + Seq::<Occurrence>::empty() =~= start);
        return;
    }
    match value {
        Value::Object(fields) => {
            proof {
                lemma_object_view(*value);
            }
            let ghost views = value@->Object_0;
            let mut i: usize = 0;
            while i < fields.len()
                invariant
                    *value matches Value::Object(v) && v == fields,
                    remaining > 0,
                    i <= fields.len(),
                    views == fields_of(fields@),
                    occurrences_of(out@) + walked_fields(
                        views,
                        i as int,
                        prefix@,
                        remaining as nat,
                    ) == start + walked_fields(views, 0, prefix@, remaining as nat),
                decreases fields.len() - i,
            {
                let ghost before = occurrences_of(out@);
                let ghost rest = walked_fields(views, i + 1, prefix@, remaining as nat);
                if !crate::stats::repeats(fields.as_slice(), i) {
                    let path = with_member(prefix, fields[i].0.as_str());
                    assert(path@ == member_path(prefix@, views[i as int].0));
                    let label = fields[i].1.type_label();
                    out.push((path.clone(), label));
                    let ghost with = occurrences_of(out@);
                    proof {
                        assert(with =~= before.push(
                            (path@, type_text(views[i as int].1)),
                        ));
                    }
                    walk(&fields[i].1, path.as_str(), remaining - 1, out);
                    proof {
                        let below = walked(views[i as int].1, path@, (remaining - 1) as nat);
                        assert(occurrences_of(out@) + rest =~= before + (seq![
                            (path@, type_text(views[i as int].1)),
                        ] + below + rest));
                    }
                } else {
                    assert(before + rest =~= before + (Seq::<Occurrence>::empty() + rest));
                }
                i += 1;
            }
            assert(occurrences_of(out@) + Seq::<Occurrence>::empty() =~= occurrences_of(out@));
        },
        Value::Array(items) => {
            proof {
                lemma_array_view(*value);
            }
            let ghost views = value@->Array_0;
            let path = with_elements(prefix);
            let mut i: usize = 0;
            while i < items.len()
                invariant
                    *value matches Value::Array(v) && v == items,
                    remaining > 0,
                    i <= items.len(),
                    views.len() == items@.len(),
                    forall|j: int| 0 <= j < items@.len() ==> views[j] == (#[trigger] items@[j])@,
                    path@ == element_path(prefix@),
                    occurrences_of(out@) + walked_items(
                        views,
                        i as int,
                        prefix@,
                        remaining as nat,
                    ) == start + walked_items(views, 0, prefix@, remaining as nat),
                decreases items.len() - i,
            {
                let ghost before = occurrences_of(out@);
                let ghost rest = walked_items(views, i + 1, prefix@, remaining as nat);
                let label = items[i].type_label();
                out.push((path.clone(), label));
                proof {
                    assert(items@[i as int]@ == views[i as int]);
                    assert(occurrences_of(out@) =~= before.push(
                        (path@, type_text(views[i as int])),
                    ));
                }
                walk(&items[i], path.as_str(), remaining - 1, out);
                proof {
                    let below = walked(views[i as int], path@, (remaining - 1) as nat);
                    assert(occurrences_of(out@) + rest =~= before + (seq![
                        (path@, type_text(views[i as int])),
                    ] + below + rest));
                }
                i += 1;
            }
            assert(occurrences_of(out@) + Seq::<Occurrence>::empty() =~= occurrences_of(out@));
        },
        _ => {
            assert(start + Seq::<Occurrence>::empty() =~= start);
        },
    }
}

/// The result of a [`Schema::from_reader`] pass over a JSONL file.
#[derive(Debug, Clone)]
pub struct Schema {
    /// Number of lines that parsed as valid JSON.
    pub records: u64,
    /// The depth the pass was run with.
    pub depth: usize,
    /// Discovered paths, sorted alphabetically.
    pub paths: Vec<PathEntry>,
    /// True once the number of distinct paths reached [`MAX_PATHS`].
    pub truncated: bool,
    /// Lines that were blank, not valid UTF-8 or not valid JSON.
    pub skipped: u64,
}

impl Schema {
    /// Whether the schema reports a discovery.
    pub open spec fn reports(&self, d: Discovery, min_rate: u64) -> bool {
        &&& self.records == d.records
        &&& self.skipped == d.skipped
        &&& self.truncated == (d.found.dom().len() >= MAX_PATHS)
        &&& is_report(d, min_rate, found_of(self.paths@))
    }

    /// Whether every path is one that
    /// [`FieldPath::parse`](crate::path::FieldPath::parse) accepts.
    pub open spec fn parses(&self) -> bool {
        forall|i: int|
            0 <= i < self.paths@.len() ==> path_steps(
                encode_utf8((#[trigger] self.paths@[i]).path@),
            ) is Ok
    }

    /// Discovers paths and their rates in a single pass over a JSONL input.
    pub fn from_reader(input: &[u8], options: SchemaOptions) -> (schema: Schema)
        ensures
            schema.reports(discovery(contents(input@), options.depth as nat), options.min_rate@),
            schema.depth == options.depth,
            schema.parses(),
    {
        let mut reader = LineReader::new(input);
        let ghost depth = options.depth;
        let ghost min_rate = options.min_rate@;
        let mut pass = SchemaPass::new(options);
        let ghost mut done = Seq::<Seq<u8>>::empty();
        let total: usize = input.len();
        proof {
            assert(done + raw_lines(input@) =~= raw_lines(input@));
            assert(pass.lines() =~= trimmed_lines(done));
        }
        loop
            invariant
                reader.wf(),
                pass.wf(),
                pass.depth() == depth,
                pass.min_rate() == min_rate,
                raw_lines(input@) == done + raw_lines(reader.rest()),
                pass.lines() == trimmed_lines(done),
                reader.lines() == done.len(),
                reader.bytes() == pass.bytes(),
                reader.bytes() + reader.rest().len() == input@.len(),
                total == input@.len(),
            ensures
                pass.wf(),
                pass.depth() == depth,
                pass.min_rate() == min_rate,
                raw_lines(input@) == done,
                pass.lines() == trimmed_lines(done),
            decreases reader.rest().len(),
        {
            let ghost rest = reader.rest();
            match reader.next_line() {
                None => {
                    proof {
                        assert(done + raw_lines(rest) =~= done);
                    }
                    break;
                },
                Some(line) => {
                    proof {
                        lemma_line_end(rest, 0);
                        let raw = first_raw(rest);
                        assert(rest.skip(raw.len() as int) =~= rest.skip(line_end(rest, 0)));
                        assert(done.push(raw) + raw_lines(reader.rest()) =~= done + raw_lines(rest));
                        assert(trimmed_lines(done.push(raw)) =~= trimmed_lines(done).push(
                            line.bytes@,
                        ));
                        done = done.push(raw);
                    }
                    pass.take_line(&line);
                },
            }
        }
        assert(trimmed_lines(done) =~= contents(input@));
        pass.finish()
    }
}

/// The paths found so far, with an index to look them up.
struct PathTable {
    index: TextTable,
    paths: Vec<PathEntry>,
}

impl PathTable {
    /// Whether the table holds what a discovery has found.
    spec fn holds(&self, d: Discovery) -> bool {
        &&& self.index.wf()
        &&& self.index@.dom() == d.found.dom()
        &&& self.index@.dom().len() == self.paths@.len()
        &&& forall|path: Seq<char>| #[trigger]
            self.index@.dom().contains(path) ==> {
                let at = self.index@[path] as int;
                0 <= at < self.paths@.len() && self.paths@[at].path@ == path && self.paths@[at]@
                    == d.found[path]
            }
    }

    fn new() -> (r: PathTable)
        ensures
            r.holds(nothing_found()),
    {
        let index = TextTable::new();
        let n: usize = index.len();
        proof {
            assert(index@.dom() =~= Set::<Seq<char>>::empty());
        }
        PathTable { index, paths: Vec::new() }
    }

    /// Notes one occurrence of a path.
    fn note(
        &mut self,
        Ghost(d): Ghost<Discovery>,
        path: &String,
        name: &'static str,
        first: bool,
    )
        requires
            old(self).holds(d),
            all_within(d, (u64::MAX - 1) as nat),
        ensures
            final(self).holds(occurrence_seen(d, (path@, name@), first)),
    {
        let ghost next = occurrence_seen(d, (path@, name@), first);
        match self.index.get(path.as_str()) {
            Some(n) => {
                assert(self.index@.dom().contains(path@));
                assert(found_within(d.found[path@], (u64::MAX - 1) as nat));
                let at: usize = n as usize;
                let ghost before = self.paths@;
                let entry = &mut self.paths[at];
                entry.values = entry.values + 1;
                entry.types.record(name);
                if first {
                    entry.records_present = entry.records_present + 1;
                }
                proof {
                    assert(next.found.dom() =~= d.found.dom());
                    assert(self.paths@[at as int]@ =~= next.found[path@]);
                    assert forall|p: Seq<char>| #[trigger] self.index@.dom().contains(p) implies {
                        let i = self.index@[p] as int;
                        0 <= i < self.paths@.len() && self.paths@[i].path@ == p && self.paths@[i]@
                            == next.found[p]
                    } by {
                        let i = self.index@[p] as int;
                        assert(before[i].path@ == p);
                    }
                }
            },
            None => {
                if self.paths.len() >= MAX_PATHS {
                    return;
                }
                let mut types = TypeCounts::default();
                proof {
                    assert(tally_total(types@) == 0);
                }
                types.record(name);
                let at: usize = self.paths.len();
                let ghost before = self.paths@;
                let ghost known = self.index@;
                self.index.add(path.clone(), at as u64);
                let present: u64 = if first {
                    1
                } else {
                    0
                };
                self.paths.push(
                    PathEntry { path: path.clone(), records_present: present, values: 1, types },
                );
                proof {
                    assert(self.index@.dom() =~= next.found.dom());
                    assert(self.paths@[at as int]@ =~= next.found[path@]);
                    assert forall|p: Seq<char>| #[trigger] self.index@.dom().contains(p) implies {
                        let i = self.index@[p] as int;
                        0 <= i < self.paths@.len() && self.paths@[i].path@ == p && self.paths@[i]@
                            == next.found[p]
                    } by {
                        if p != path@ {
                            assert(known.dom().contains(p));
                            let i = known[p] as int;
                            assert(before[i].path@ == p);
                        }
                    }
                }
            },
        }
    }

    /// Notes the occurrences of one record.
    fn note_all(&mut self, Ghost(d): Ghost<Discovery>, found: &Vec<(String, &'static str)>)
        requires
            old(self).holds(d),
            found@.len() <= u64::MAX,
            all_within(d, (u64::MAX - found@.len()) as nat),
        ensures
            final(self).holds(occurrences_seen(d, occurrences_of(found@), found@.len())),
    {
        let ghost all = occurrences_of(found@);
        let mut seen = TextTable::new();
        let mut i: usize = 0;
        while i < found.len()
            invariant
                i <= found.len(),
                found@.len() <= u64::MAX,
                all == occurrences_of(found@),
                seen.wf(),
                forall|path: Seq<char>| #[trigger]
                    seen@.dom().contains(path) <==> exists|j: int|
                        0 <= j < i && (#[trigger] all[j]).0 == path,
                all_within(d, (u64::MAX - found@.len()) as nat),
                self.holds(occurrences_seen(d, all, i as nat)),
            decreases found.len() - i,
        {
            let path = &found[i].0;
            let ghost name = path@;
            let ghost known = seen@;
            let first: bool = seen.get(path.as_str()).is_none();
            if first {
                seen.add(path.clone(), 0);
            }
            proof {
                assert(all[i as int].0 == name);
                assert(first == first_in_record(all, i as int));
                assert forall|p: Seq<char>| #[trigger] seen@.dom().contains(p) <==> exists|j: int|
                    0 <= j < i + 1 && (#[trigger] all[j]).0 == p by {
                    if p == name {
                        assert(all[i as int].0 == p);
                    } else if known.dom().contains(p) {
                        let j = choose|j: int| 0 <= j < i && (#[trigger] all[j]).0 == p;
                        assert(all[j].0 == p);
                    }
                    if exists|j: int| 0 <= j < i + 1 && (#[trigger] all[j]).0 == p {
                        let j = choose|j: int| 0 <= j < i + 1 && (#[trigger] all[j]).0 == p;
                        if j < i {
                            assert(known.dom().contains(p));
                        }
                    }
                }
                lemma_occurrences_within(d, all, i as nat, (u64::MAX - found@.len()) as nat);
                lemma_all_wider(
                    occurrences_seen(d, all, i as nat),
                    (u64::MAX - found@.len() + i) as nat,
                    (u64::MAX - 1) as nat,
                );
            }
            let ghost now = occurrences_seen(d, all, i as nat);
            self.note(Ghost(now), path, found[i].1, first);
            i += 1;
        }
    }

    /// The paths that are frequent enough, in the order of their texts.
    fn report(&self, Ghost(d): Ghost<Discovery>, records: u64, min_rate: Binary64) -> (r: Vec<
        PathEntry,
    >)
        requires
            self.holds(d),
            records == d.records,
        ensures
            is_report(d, min_rate@, found_of(r@)),
    {
        let zero = Binary64::from_bits(0);
        let limited: bool = zero.is_below(min_rate);
        let listed = self.index.listed();
        let ghost order = pairs_of(listed@);
        let mut r: Vec<PathEntry> = Vec::new();
        let mut i: usize = 0;
        while i < listed.len()
            invariant
                i <= listed@.len(),
                order == pairs_of(listed@),
                is_listing(self.index@, order),
                self.holds(d),
                records == d.records,
                limited == below(0, min_rate@),
                forall|a: int, b: int|
                    0 <= a < b < r@.len() ==> text_before(
                        (#[trigger] r@[a]).path@,
                        (#[trigger] r@[b]).path@,
                    ),
                forall|a: int|
                    0 <= a < r@.len() ==> d.found.dom().contains((#[trigger] r@[a]).path@)
                        && d.found[r@[a].path@] == r@[a]@ && frequent(
                        r@[a]@,
                        d.records,
                        min_rate@,
                    ) && (i < order.len() ==> text_before(r@[a].path@, order[i as int].0)),
                forall|b: int|
                    0 <= b < i && frequent(
                        d.found[(#[trigger] order[b]).0],
                        d.records,
                        min_rate@,
                    ) ==> exists|a: int| 0 <= a < r@.len() && (#[trigger] r@[a]).path@ == order[b].0,
            decreases listed.len() - i,
        {
            let ghost name = order[i as int].0;
            let ghost had = r@;
            proof {
                assert(self.index@.dom().contains(name));
                assert(listed@[i as int].1 == order[i as int].1);
                assert(self.index@[name] == order[i as int].1);
                assert(self.index@[name] < self.paths@.len());
                assert(self.paths.len() == self.paths@.len());
            }
            let at: usize = listed[i].1 as usize;
            let entry = &self.paths[at];
            assert(entry.path@ == name);
            let keep: bool = if limited {
                let rate = entry.rate(records);
                !rate.is_below(min_rate)
            } else {
                true
            };
            assert(keep == frequent(entry@, d.records, min_rate@));
            if keep {
                r.push(entry.copy());
            }
            proof {
                assert forall|a: int| 0 <= a < r@.len() && i + 1 < order.len() implies text_before(
                    (#[trigger] r@[a]).path@,
                    order[i + 1].0,
                ) by {
                    assert(text_before(order[i as int].0, order[i + 1].0));
                    if a < had.len() {
                        assert(text_before(had[a].path@, order[i as int].0));
                        crate::order::lemma_text_transitive(
                            had[a].path@,
                            order[i as int].0,
                            order[i + 1].0,
                        );
                    }
                }
                assert forall|b: int| 0 <= b < i + 1 && frequent(
                    d.found[(#[trigger] order[b]).0],
                    d.records,
                    min_rate@,
                ) implies exists|a: int| 0 <= a < r@.len() && (#[trigger] r@[a]).path@
                    == order[b].0 by {
                    if b < i {
                        let a = choose|a: int|
                            0 <= a < had.len() && (#[trigger] had[a]).path@ == order[b].0;
                        assert(r@[a].path@ == order[b].0);
                    } else {
                        assert(keep);
                        assert(r@[r@.len() - 1].path@ == order[b].0);
                    }
                }
            }
            i += 1;
        }
        proof {
            let list = found_of(r@);
            assert forall|a: int, b: int| 0 <= a < b < list.len() implies text_before(
                (#[trigger] list[a]).0,
                (#[trigger] list[b]).0,
            ) by {
                assert(text_before(r@[a].path@, r@[b].path@));
            }
            assert forall|a: int| 0 <= a < list.len() implies d.found.dom().contains(
                (#[trigger] list[a]).0,
            ) && d.found[list[a].0] == list[a].1 && frequent(list[a].1, d.records, min_rate@) by {
                assert(d.found.dom().contains(r@[a].path@));
            }
            assert forall|path: Seq<char>| #[trigger] d.found.dom().contains(path) && frequent(
                d.found[path],
                d.records,
                min_rate@,
            ) implies exists|a: int| 0 <= a < list.len() && (#[trigger] list[a]).0 == path by {
                assert(self.index@.dom().contains(path));
                let b = choose|b: int| 0 <= b < order.len() && (#[trigger] order[b]).0 == path;
                let a = choose|a: int| 0 <= a < r@.len() && (#[trigger] r@[a]).path@ == order[b].0;
                assert(list[a].0 == path);
            }
        }
        r
    }
}

/// A pass over the lines of a file, taken one after the other.
pub struct SchemaPass {
    options: SchemaOptions,
    table: PathTable,
    records: u64,
    skipped: u64,
    bytes: u64,
    seen: Ghost<Seq<Seq<u8>>>,
}

impl SchemaPass {
    /// The lines taken so far.
    pub closed spec fn lines(&self) -> Seq<Seq<u8>> {
        self.seen@
    }

    /// How many segments are descended into a record at most.
    pub closed spec fn depth(&self) -> nat {
        self.options.depth as nat
    }

    /// The least share of records that is reported.
    pub closed spec fn min_rate(&self) -> u64 {
        self.options.min_rate@
    }

    /// How many bytes the lines took, line endings included.
    pub closed spec fn bytes(&self) -> nat {
        self.bytes as nat
    }

    /// What the pass has discovered.
    pub open spec fn discovered(&self) -> Discovery {
        discovery(self.lines(), self.depth())
    }

    /// The table holds what was found on the lines taken so far.
    pub closed spec fn wf(&self) -> bool {
        &&& self.table.holds(self.discovered())
        &&& self.records == self.discovered().records
        &&& self.skipped == self.discovered().skipped
        &&& discovery_within(self.discovered(), self.bytes())
    }

    /// Starts before the first line.
    pub fn new(options: SchemaOptions) -> (r: SchemaPass)
        ensures
            r.wf(),
            r.lines() == Seq::<Seq<u8>>::empty(),
            r.depth() == options.depth,
            r.min_rate() == options.min_rate@,
            r.bytes() == 0,
    {
        let table = PathTable::new();
        proof {
            assert(nothing_found().found.dom() =~= Set::<Seq<char>>::empty());
        }
        SchemaPass { options, table, records: 0, skipped: 0, bytes: 0, seen: Ghost(Seq::empty()) }
    }

    /// Takes the next line.
    pub fn take_line(&mut self, line: &Line)
        requires
            old(self).wf(),
            0 < line.raw_len,
            line.bytes@.len() <= line.raw_len,
            old(self).bytes() + line.raw_len <= u64::MAX,
        ensures
            final(self).wf(),
            final(self).lines() == old(self).lines().push(line.bytes@),
            final(self).depth() == old(self).depth(),
            final(self).min_rate() == old(self).min_rate(),
            final(self).bytes() == old(self).bytes() + line.raw_len,
    {
        let ghost before = self.discovered();
        let ghost longer = self.seen@.push(line.bytes@);
        let ghost so_far = self.bytes();
        proof {
            lemma_walk_within(
                before,
                line.bytes@,
                self.depth(),
                so_far,
                line.raw_len as nat,
            );
            assert(longer.drop_last() =~= self.seen@);
        }
        self.bytes = self.bytes + line.raw_len as u64;
        proof {
            self.seen@ = longer;
        }
        match parsed_line(line) {
            None => {
                self.skipped = self.skipped + 1;
                assert(self.table.holds(Discovery { skipped: before.skipped + 1, ..before }));
            },
            Some(value) => {
                self.records = self.records + 1;
                let mut found: Vec<(String, &'static str)> = Vec::new();
                walk(&value, "", self.options.depth, &mut found);
                let ghost start = Discovery { records: before.records + 1, ..before };
                proof {
                    reveal_strlit("");
                    assert(""@ =~= Seq::<char>::empty());
                    assert(occurrences_of(found@) =~= walked(
                        value@,
                        Seq::empty(),
                        self.options.depth as nat,
                    ));
                    documents_have_few_nodes(line.bytes@);
                    lemma_walked_size(value@, Seq::empty(), self.options.depth as nat);
                    lemma_all_wider(before, so_far, (u64::MAX - found@.len()) as nat);
                    assert(all_within(start, (u64::MAX - found@.len()) as nat));
                    assert(self.table.holds(start));
                }
                self.table.note_all(Ghost(start), &found);
                proof {
                    lemma_occurrences_within(
                        start,
                        occurrences_of(found@),
                        found@.len(),
                        (u64::MAX - found@.len()) as nat,
                    );
                }
            },
        }
    }

    /// The schema of the lines taken.
    pub fn finish(self) -> (schema: Schema)
        requires
            self.wf(),
        ensures
            schema.reports(self.discovered(), self.min_rate()),
            schema.depth == self.depth(),
            schema.parses(),
    {
        let ghost d = self.discovered();
        let paths = self.table.report(Ghost(d), self.records, self.options.min_rate);
        proof {
            assert forall|i: int| 0 <= i < paths@.len() implies path_steps(
                encode_utf8((#[trigger] paths@[i]).path@),
            ) is Ok by {
                assert(d.found.dom().contains(found_of(paths@)[i].0));
                lemma_listed_parses(self.lines(), self.depth(), paths@[i].path@);
            }
        }
        Schema {
            records: self.records,
            depth: self.options.depth,
            paths,
            truncated: self.table.paths.len() >= MAX_PATHS,
            skipped: self.skipped,
        }
    }
}

/// The record on a line, unless the line is blank or broken.
fn parsed_line(line: &Line) -> (r: Option<Value>)
    ensures
        match r {
            Some(v) => !blank(line.bytes@) && record_on(line.bytes@) == Ok::<
                Json,
                (int, Seq<char>),
            >(v@),
            None => blank(line.bytes@) || record_on(line.bytes@) is Err,
        },
{
    if line.is_blank() {
        return None;
    }
    match decode(line.bytes) {
        Err(_) => None,
        Ok(text) => {
            proof {
                encode_utf8_valid_utf8(text@);
            }
            match json::parse(text) {
                Ok(value) => Some(value),
                Err(_) => None,
            }
        },
    }
}

} // verus!
