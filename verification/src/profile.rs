//! What a file profile is: a summary of its lines, taken one after the other.

use vstd::prelude::*;
use vstd::utf8::*;

use crate::grammar::document;
use crate::json::{json_text, kind_text, type_text, Json};
use crate::lines::blank;
use crate::nodes::{documents_have_few_nodes, field_nodes, nodes, paths_select_few_values};
use crate::order::{lemma_text_total, lemma_text_transitive, text_before};
use crate::path::{selected, Step};
use crate::stats::{MAX_FIELD_VALUES, MAX_KEYS};
use crate::text::is_valid_up_to;

verus! {

/// Names with the number of their occurrences, in first-seen order.
pub type Tally = Seq<(Seq<char>, nat)>;

/// Where a name stands in a tally from the `from`-th entry on, or its length.
pub open spec fn place_of(tally: Tally, name: Seq<char>, from: int) -> int
    decreases tally.len() - from,
{
    if from < 0 || from >= tally.len() {
        tally.len() as int
    } else if tally[from].0 == name {
        from
    } else {
        place_of(tally, name, from + 1)
    }
}

/// A tally with one more occurrence of a name.
pub open spec fn tallied(tally: Tally, name: Seq<char>) -> Tally {
    let i = place_of(tally, name, 0);
    if i < tally.len() {
        tally.update(i, (name, tally[i].1 + 1))
    } else {
        tally.push((name, 1))
    }
}

/// The number of all occurrences in a tally.
pub open spec fn tally_total(tally: Tally) -> nat
    decreases tally.len(),
{
    if tally.len() == 0 {
        0
    } else {
        tally_total(tally.drop_last()) + tally.last().1
    }
}

pub proof fn lemma_place_of(tally: Tally, name: Seq<char>, from: int)
    requires
        0 <= from <= tally.len(),
    ensures
        from <= place_of(tally, name, from) <= tally.len(),
        place_of(tally, name, from) < tally.len() ==> tally[place_of(tally, name, from)].0 == name,
        forall|i: int| from <= i < place_of(tally, name, from) ==> (#[trigger] tally[i]).0 != name,
    decreases tally.len() - from,
{
    if from < tally.len() && tally[from].0 != name {
        lemma_place_of(tally, name, from + 1);
    }
}

proof fn lemma_total_update(tally: Tally, i: int, entry: (Seq<char>, nat))
    requires
        0 <= i < tally.len(),
    ensures
        tally_total(tally.update(i, entry)) + tally[i].1 == tally_total(tally) + entry.1,
        tally[i].1 <= tally_total(tally),
    decreases tally.len(),
{
    let next = tally.update(i, entry);
    if i == tally.len() - 1 {
        assert(next.drop_last() =~= tally.drop_last());
    } else {
        assert(next.drop_last() =~= tally.drop_last().update(i, entry));
        lemma_total_update(tally.drop_last(), i, entry);
    }
}

/// No entry of a tally is larger than its total.
pub proof fn lemma_tally_entry(tally: Tally, i: int)
    requires
        0 <= i < tally.len(),
    ensures
        tally[i].1 <= tally_total(tally),
{
    lemma_total_update(tally, i, tally[i]);
}

/// Every occurrence counts once.
pub proof fn tallies_count_every_occurrence(tally: Tally, name: Seq<char>)
    ensures
        tally_total(tallied(tally, name)) == tally_total(tally) + 1,
{
    let i = place_of(tally, name, 0);
    lemma_place_of(tally, name, 0);
    if i < tally.len() {
        lemma_total_update(tally, i, (name, tally[i].1 + 1));
    } else {
        assert(tally.push((name, 1)).drop_last() =~= tally);
    }
}

/// How often a top-level key appeared, and with which types.
pub struct KeyUse {
    pub key: Seq<char>,
    pub count: nat,
    pub types: Tally,
}

/// The top-level keys in first-seen order.
#[verifier::ext_equal]
pub struct Keys {
    pub entries: Seq<KeyUse>,
}

/// Where a key stands in a table from the `from`-th entry on, or its length.
pub open spec fn place_of_key(entries: Seq<KeyUse>, key: Seq<char>, from: int) -> int
    decreases entries.len() - from,
{
    if from < 0 || from >= entries.len() {
        entries.len() as int
    } else if entries[from].key == key {
        from
    } else {
        place_of_key(entries, key, from + 1)
    }
}

/// A key table with one more record that has a key.
pub open spec fn key_seen(keys: Keys, key: Seq<char>, name: Seq<char>) -> Keys {
    let i = place_of_key(keys.entries, key, 0);
    if i < keys.entries.len() {
        let entry = keys.entries[i];
        Keys {
            entries: keys.entries.update(
                i,
                KeyUse { key, count: entry.count + 1, types: tallied(entry.types, name) },
            ),
        }
    } else if keys.entries.len() >= MAX_KEYS {
        keys
    } else {
        Keys {
            entries: keys.entries.push(
                KeyUse { key, count: 1, types: tallied(Seq::empty(), name) },
            ),
        }
    }
}

/// Whether an earlier member has the same name.
pub open spec fn repeated(fields: Seq<(Seq<char>, Json)>, i: int) -> bool {
    exists|j: int| 0 <= j < i && (#[trigger] fields[j]).0 == fields[i].0
}

/// A key table with the first `n` members of one more record; a repeated
/// member does not count.
pub open spec fn keys_seen(keys: Keys, fields: Seq<(Seq<char>, Json)>, n: nat) -> Keys
    decreases n,
{
    if n == 0 || n > fields.len() {
        keys
    } else {
        let before = keys_seen(keys, fields, (n - 1) as nat);
        let (key, v) = fields[n - 1];
        if repeated(fields, n - 1) {
            before
        } else {
            key_seen(before, key, type_text(v))
        }
    }
}

/// The value distribution of one path.
#[verifier::ext_equal]
pub struct Profile {
    /// Records in which the path selected something.
    pub present: nat,
    /// Values selected.
    pub values: nat,
    /// Types of these values.
    pub types: Tally,
    /// How often each value occurred, by its compact JSON.
    pub distinct: Map<Seq<char>, nat>,
}

/// A profile with one more selected value.
pub open spec fn value_seen(p: Profile, v: Json) -> Profile {
    let text = json_text(v);
    let known = p.distinct.dom().contains(text);
    let room = p.distinct.dom().len() < MAX_FIELD_VALUES;
    Profile {
        present: p.present,
        values: p.values + 1,
        types: tallied(p.types, type_text(v)),
        distinct: if known {
            p.distinct.insert(text, p.distinct[text] + 1)
        } else if room {
            p.distinct.insert(text, 1)
        } else {
            p.distinct
        },
    }
}

/// A profile with the first `n` of several selected values.
pub open spec fn values_seen(p: Profile, selection: Seq<Json>, n: nat) -> Profile
    decreases n,
{
    if n == 0 || n > selection.len() {
        p
    } else {
        value_seen(values_seen(p, selection, (n - 1) as nat), selection[n - 1])
    }
}

/// A profile with what was selected out of one more record.
pub open spec fn selection_seen(p: Profile, selection: Seq<Json>) -> Profile {
    if selection.len() == 0 {
        p
    } else {
        values_seen(Profile { present: p.present + 1, ..p }, selection, selection.len())
    }
}

/// The profile of a path before any record.
pub open spec fn empty_profile() -> Profile {
    Profile {
        present: 0,
        values: 0,
        types: Seq::empty(),
        distinct: Map::empty(),
    }
}

/// Whether a value is listed before another: the more frequent first, then by
/// the text itself.
pub open spec fn ranks_before(a: (Seq<char>, nat), b: (Seq<char>, nat)) -> bool {
    a.1 > b.1 || (a.1 == b.1 && text_before(a.0, b.0))
}

/// Whether a list holds the entries of a table, in the order of their rank.
pub open spec fn is_ranking(table: Map<Seq<char>, nat>, list: Seq<(Seq<char>, nat)>) -> bool {
    &&& forall|i: int, j: int|
        0 <= i < j < list.len() ==> ranks_before(#[trigger] list[i], #[trigger] list[j])
    &&& forall|i: int|
        0 <= i < list.len() ==> table.dom().contains((#[trigger] list[i]).0) && table[list[i].0]
            == list[i].1
    &&& forall|text: Seq<char>| #[trigger]
        table.dom().contains(text) ==> exists|i: int|
            0 <= i < list.len() && (#[trigger] list[i]).0 == text
}

/// The entries of a table in the order of their rank.
pub open spec fn ranking(table: Map<Seq<char>, nat>) -> Seq<(Seq<char>, nat)> {
    choose|list: Seq<(Seq<char>, nat)>| is_ranking(table, list)
}

/// The first `n` entries of a table in the order of their rank.
pub open spec fn top_values(table: Map<Seq<char>, nat>, n: nat) -> Seq<(Seq<char>, nat)> {
    let list = ranking(table);
    if n < list.len() {
        list.take(n as int)
    } else {
        list
    }
}

proof fn lemma_ranks(a: (Seq<char>, nat), b: (Seq<char>, nat))
    ensures
        !(ranks_before(a, b) && ranks_before(b, a)),
        !ranks_before(a, a),
{
    lemma_text_total(a.0, b.0);
    lemma_text_total(a.0, a.0);
}

/// There is one ranking of a table at most.
pub proof fn lemma_ranking_unique(
    table: Map<Seq<char>, nat>,
    a: Seq<(Seq<char>, nat)>,
    b: Seq<(Seq<char>, nat)>,
)
    requires
        is_ranking(table, a),
        is_ranking(table, b),
    ensures
        a == b,
{
    lemma_ranking_prefix(table, a, b, a.len());
    lemma_ranking_prefix(table, b, a, b.len());
    assert(a =~= b);
}

proof fn lemma_ranking_prefix(
    table: Map<Seq<char>, nat>,
    a: Seq<(Seq<char>, nat)>,
    b: Seq<(Seq<char>, nat)>,
    n: nat,
)
    requires
        is_ranking(table, a),
        is_ranking(table, b),
        n <= a.len(),
    ensures
        n <= b.len(),
        forall|i: int| 0 <= i < n ==> #[trigger] a[i] == b[i],
    decreases n,
{
    if n > 0 {
        let k = n - 1;
        lemma_ranking_prefix(table, a, b, k as nat);
        let x = a[k];
        assert(table.dom().contains(x.0));
        let j = choose|j: int| 0 <= j < b.len() && (#[trigger] b[j]).0 == x.0;
        assert(table[b[j].0] == b[j].1);
        assert(b[j] == x);
        if j < k {
            assert(a[j] == b[j]);
            lemma_ranks(a[j], a[k]);
        } else if j > k {
            let y = b[k];
            assert(table.dom().contains(y.0));
            let m = choose|m: int| 0 <= m < a.len() && (#[trigger] a[m]).0 == y.0;
            assert(table[a[m].0] == a[m].1);
            assert(a[m] == y);
            lemma_ranks(x, y);
            if m < k {
                assert(a[m] == b[m]);
                lemma_ranks(b[m], b[k]);
            } else if m > k {
                assert(ranks_before(a[k], a[m]));
                assert(ranks_before(b[k], b[j]));
            }
        }
    }
}

proof fn lemma_ranks_ordered(a: (Seq<char>, nat), b: (Seq<char>, nat), c: (Seq<char>, nat))
    ensures
        a.0 != b.0 ==> ranks_before(a, b) || ranks_before(b, a),
        ranks_before(a, b) && ranks_before(b, c) ==> ranks_before(a, c),
{
    lemma_text_total(a.0, b.0);
    if text_before(a.0, b.0) && text_before(b.0, c.0) {
        lemma_text_transitive(a.0, b.0, c.0);
    }
}

/// How many entries from the start of a ranking rank before an entry.
spec fn rank_of(list: Seq<(Seq<char>, nat)>, entry: (Seq<char>, nat), from: int) -> int
    decreases list.len() - from,
{
    if 0 <= from < list.len() && ranks_before(list[from], entry) {
        rank_of(list, entry, from + 1)
    } else {
        from
    }
}

proof fn lemma_rank_of(list: Seq<(Seq<char>, nat)>, entry: (Seq<char>, nat), from: int)
    requires
        0 <= from <= list.len(),
    ensures
        from <= rank_of(list, entry, from) <= list.len(),
        forall|j: int|
            from <= j < rank_of(list, entry, from) ==> ranks_before(#[trigger] list[j], entry),
        rank_of(list, entry, from) < list.len() ==> !ranks_before(
            list[rank_of(list, entry, from)],
            entry,
        ),
    decreases list.len() - from,
{
    if from < list.len() && ranks_before(list[from], entry) {
        lemma_rank_of(list, entry, from + 1);
    }
}

/// A ranking with one more entry in its place.
proof fn lemma_ranked_insert(
    table: Map<Seq<char>, nat>,
    text: Seq<char>,
    list: Seq<(Seq<char>, nat)>,
)
    requires
        table.dom().contains(text),
        is_ranking(table.remove(text), list),
    ensures
        is_ranking(
            table,
            list.insert(rank_of(list, (text, table[text]), 0), (text, table[text])),
        ),
{
    let entry = (text, table[text]);
    let rest = table.remove(text);
    let k = rank_of(list, entry, 0);
    lemma_rank_of(list, entry, 0);
    let all = list.insert(k, entry);
    assert forall|j: int| k <= j < list.len() implies ranks_before(entry, #[trigger] list[j]) by {
        assert(rest.dom().contains(list[k].0));
        lemma_ranks_ordered(list[k], entry, entry);
        if j > k {
            lemma_ranks_ordered(entry, list[k], list[j]);
        }
    }
    assert forall|i: int, j: int| 0 <= i < j < all.len() implies ranks_before(
        #[trigger] all[i],
        #[trigger] all[j],
    ) by {
        let a = if i < k {
            i
        } else {
            i - 1
        };
        let b = if j < k {
            j
        } else {
            j - 1
        };
        if i != k {
            assert(all[i] == list[a]);
        }
        if j != k {
            assert(all[j] == list[b]);
        }
    }
    assert forall|i: int| 0 <= i < all.len() implies table.dom().contains((#[trigger] all[i]).0)
        && table[all[i].0] == all[i].1 by {
        if i < k {
            assert(all[i] == list[i]);
        } else if i > k {
            assert(all[i] == list[i - 1]);
        }
    }
    assert forall|other: Seq<char>| #[trigger] table.dom().contains(other) implies exists|i: int|
        0 <= i < all.len() && (#[trigger] all[i]).0 == other by {
        if other == text {
            assert(all[k].0 == other);
        } else {
            assert(rest.dom().contains(other));
            let i = choose|i: int| 0 <= i < list.len() && (#[trigger] list[i]).0 == other;
            if i < k {
                assert(all[i] == list[i]);
            } else {
                assert(all[i + 1] == list[i]);
            }
        }
    }
}

proof fn lemma_some_ranking(table: Map<Seq<char>, nat>) -> (list: Seq<(Seq<char>, nat)>)
    requires
        table.dom().finite(),
    ensures
        is_ranking(table, list),
        list.len() == table.dom().len(),
    decreases table.dom().len(),
{
    if table.dom().len() == 0 {
        assert(table.dom() =~= Set::<Seq<char>>::empty());
        Seq::empty()
    } else {
        let text = table.dom().choose();
        assert(table.dom().contains(text));
        let rest = table.remove(text);
        assert(rest.dom() =~= table.dom().remove(text));
        let list = lemma_some_ranking(rest);
        lemma_ranked_insert(table, text, list);
        lemma_rank_of(list, (text, table[text]), 0);
        list.insert(rank_of(list, (text, table[text]), 0), (text, table[text]))
    }
}

/// Every finite table has its ranking, which holds each entry once.
pub proof fn rankings_hold_every_entry(table: Map<Seq<char>, nat>)
    requires
        table.dom().finite(),
    ensures
        is_ranking(table, ranking(table)),
        ranking(table).len() == table.dom().len(),
{
    let list = lemma_some_ranking(table);
    lemma_ranking_unique(table, list, ranking(table));
}

/// A broken line.
pub struct Flaw {
    pub line: nat,
    pub column: nat,
    pub reason: Seq<char>,
}

/// What is gathered in one pass over the lines of a file.
#[verifier::ext_equal]
pub struct Summary {
    pub lines: nat,
    pub blank: nat,
    pub valid: nat,
    pub invalid: nat,
    /// The lengths of the non-blank lines.
    pub lengths: Seq<u64>,
    pub types: Tally,
    pub keys: Keys,
    pub profiles: Seq<Profile>,
    pub issues: Seq<Flaw>,
    pub issues_truncated: bool,
}

/// The offset up to which bytes are valid UTF-8.
pub open spec fn valid_up_to(bytes: Seq<u8>) -> int {
    choose|n: int| is_valid_up_to(bytes, n)
}

/// The record on a line, or the 1-based column and the reason why it is broken.
pub open spec fn record_on(line: Seq<u8>) -> Result<Json, (int, Seq<char>)> {
    if !valid_utf8(line) {
        Err((valid_up_to(line) + 1, "invalid UTF-8"@))
    } else {
        match document(line) {
            Ok(v) => Ok(v),
            Err((offset, kind)) => Err((offset + 1, kind_text(kind))),
        }
    }
}

/// A summary before any line.
pub open spec fn empty_summary(paths: nat) -> Summary {
    Summary {
        lines: 0,
        blank: 0,
        valid: 0,
        invalid: 0,
        lengths: Seq::empty(),
        types: Seq::empty(),
        keys: Keys { entries: Seq::empty() },
        profiles: Seq::new(paths, |i: int| empty_profile()),
        issues: Seq::empty(),
        issues_truncated: false,
    }
}

/// A summary with one more valid record.
pub open spec fn record_seen(s: Summary, v: Json, paths: Seq<Seq<Step>>) -> Summary {
    Summary {
        valid: s.valid + 1,
        types: tallied(s.types, type_text(v)),
        keys: match v {
            Json::Object(fields) => keys_seen(s.keys, fields, fields.len()),
            _ => s.keys,
        },
        profiles: Seq::new(
            s.profiles.len(),
            |i: int| selection_seen(s.profiles[i], selected(paths[i], v)),
        ),
        ..s
    }
}

/// A summary with one more broken line.
pub open spec fn flaw_seen(s: Summary, flaw: Flaw, max_errors: nat) -> Summary {
    let room = s.issues.len() < max_errors;
    Summary {
        invalid: s.invalid + 1,
        issues: if room {
            s.issues.push(flaw)
        } else {
            s.issues
        },
        issues_truncated: s.issues_truncated || !room,
        ..s
    }
}

/// A summary with one more line.
pub open spec fn line_seen(
    s: Summary,
    line: Seq<u8>,
    paths: Seq<Seq<Step>>,
    max_errors: nat,
) -> Summary {
    let number = s.lines + 1;
    if blank(line) {
        Summary { lines: number, blank: s.blank + 1, ..s }
    } else {
        let t = Summary { lines: number, lengths: s.lengths.push(line.len() as u64), ..s };
        match record_on(line) {
            Ok(v) => record_seen(t, v, paths),
            Err((column, reason)) => flaw_seen(
                t,
                Flaw { line: number, column: column as nat, reason },
                max_errors,
            ),
        }
    }
}

/// The summary of lines.
pub open spec fn summary(lines: Seq<Seq<u8>>, paths: Seq<Seq<Step>>, max_errors: nat) -> Summary
    decreases lines.len(),
{
    if lines.len() == 0 {
        empty_summary(paths.len())
    } else {
        line_seen(summary(lines.drop_last(), paths, max_errors), lines.last(), paths, max_errors)
    }
}

/// Whether no count in a key table is larger than a bound.
pub open spec fn keys_within(keys: Keys, bound: nat) -> bool {
    forall|i: int|
        0 <= i < keys.entries.len() ==> (#[trigger] keys.entries[i]).count <= bound && tally_total(
            keys.entries[i].types,
        ) <= bound
}

pub proof fn lemma_place_of_key(entries: Seq<KeyUse>, key: Seq<char>, from: int)
    requires
        0 <= from <= entries.len(),
    ensures
        from <= place_of_key(entries, key, from) <= entries.len(),
    decreases entries.len() - from,
{
    if from < entries.len() && entries[from].key != key {
        lemma_place_of_key(entries, key, from + 1);
    }
}

pub proof fn lemma_key_seen_within(keys: Keys, key: Seq<char>, name: Seq<char>, bound: nat)
    requires
        keys_within(keys, bound),
    ensures
        keys_within(key_seen(keys, key, name), bound + 1),
{
    let next = key_seen(keys, key, name);
    let at = place_of_key(keys.entries, key, 0);
    lemma_place_of_key(keys.entries, key, 0);
    assert forall|i: int| 0 <= i < next.entries.len() implies (#[trigger] next.entries[i]).count
        <= bound + 1 && tally_total(next.entries[i].types) <= bound + 1 by {
        if i < keys.entries.len() {
            assert(keys.entries[i].count <= bound);
            tallies_count_every_occurrence(keys.entries[i].types, name);
        } else {
            tallies_count_every_occurrence(Seq::empty(), name);
            assert(tally_total(Seq::empty()) == 0);
        }
    }
}

pub proof fn lemma_keys_seen_within(
    keys: Keys,
    fields: Seq<(Seq<char>, Json)>,
    n: nat,
    bound: nat,
)
    requires
        keys_within(keys, bound),
        n <= fields.len(),
    ensures
        keys_within(keys_seen(keys, fields, n), bound + n),
    decreases n,
{
    if n > 0 {
        let less = (n - 1) as nat;
        lemma_keys_seen_within(keys, fields, less, bound);
        let before = keys_seen(keys, fields, less);
        let (key, v) = fields[n - 1];
        lemma_key_seen_within(before, key, type_text(v), bound + less);
    }
}

/// Whether the counts of a profile fit together and are no larger than a bound.
pub open spec fn profile_within(p: Profile, bound: nat) -> bool {
    &&& p.present <= p.values <= bound
    &&& tally_total(p.types) == p.values
    &&& forall|text: Seq<char>| #[trigger]
        p.distinct.dom().contains(text) ==> p.distinct[text] <= p.values
    &&& p.distinct.dom().finite()
    &&& p.distinct.dom().len() <= MAX_FIELD_VALUES
}

pub proof fn lemma_value_seen_within(p: Profile, v: Json, bound: nat)
    requires
        profile_within(p, bound),
    ensures
        profile_within(value_seen(p, v), bound + 1),
{
    tallies_count_every_occurrence(p.types, type_text(v));
    let next = value_seen(p, v);
    assert forall|text: Seq<char>| #[trigger] next.distinct.dom().contains(text) implies next.distinct[text]
        <= next.values by {
        if p.distinct.dom().contains(text) {
            assert(p.distinct[text] <= p.values);
        }
    }
}

/// The counts inside a selection: one record more than values is allowed.
pub proof fn lemma_values_seen_within(p: Profile, selection: Seq<Json>, n: nat, bound: nat)
    requires
        profile_within(p, bound),
        n <= selection.len(),
    ensures
        n == 0 || profile_within(
            values_seen(Profile { present: p.present + 1, ..p }, selection, n),
            bound + n,
        ),
        values_seen(Profile { present: p.present + 1, ..p }, selection, n).values == p.values + n,
        values_seen(Profile { present: p.present + 1, ..p }, selection, n).present == p.present + 1,
    decreases n,
{
    if n > 0 {
        let less = (n - 1) as nat;
        let start = Profile { present: p.present + 1, ..p };
        lemma_values_seen_within(p, selection, less, bound);
        let before = values_seen(start, selection, less);
        if less > 0 {
            lemma_value_seen_within(before, selection[n - 1], bound + less);
        } else {
            lemma_value_seen_within(p, selection[n - 1], bound);
            assert(value_seen(start, selection[n - 1]).distinct == value_seen(
                p,
                selection[n - 1],
            ).distinct);
        }
    }
}

pub proof fn lemma_selection_within(p: Profile, selection: Seq<Json>, bound: nat)
    requires
        profile_within(p, bound),
    ensures
        profile_within(selection_seen(p, selection), bound + selection.len()),
        selection_seen(p, selection).present <= p.present + 1,
{
    lemma_values_seen_within(p, selection, selection.len(), bound);
}

/// Whether the counts of a summary fit together and are no larger than the
/// number of bytes that were read.
pub open spec fn summary_within(s: Summary, bytes: nat, max_errors: nat) -> bool {
    &&& s.lines == s.blank + s.valid + s.invalid
    &&& s.lines <= bytes
    &&& s.lengths.len() == s.valid + s.invalid
    &&& tally_total(s.types) == s.valid
    &&& keys_within(s.keys, bytes)
    &&& s.keys.entries.len() <= MAX_KEYS
    &&& forall|i: int|
        0 <= i < s.profiles.len() ==> profile_within(#[trigger] s.profiles[i], bytes)
            && s.profiles[i].present <= s.valid
    &&& s.issues.len() == if s.invalid < max_errors {
        s.invalid
    } else {
        max_errors
    }
    &&& s.issues_truncated == (s.invalid > max_errors)
}

pub proof fn lemma_field_count(fields: Seq<(Seq<char>, Json)>, from: int)
    requires
        0 <= from <= fields.len(),
    ensures
        fields.len() - from <= field_nodes(fields, from),
    decreases fields.len() - from,
{
    if from < fields.len() {
        lemma_field_count(fields, from + 1);
        assert(nodes(fields[from].1) >= 1);
    }
}

proof fn lemma_keys_count(keys: Keys, fields: Seq<(Seq<char>, Json)>, n: nat)
    requires
        keys.entries.len() <= MAX_KEYS,
    ensures
        keys_seen(keys, fields, n).entries.len() <= MAX_KEYS,
    decreases n,
{
    if n > 0 && n <= fields.len() {
        let before = keys_seen(keys, fields, (n - 1) as nat);
        lemma_keys_count(keys, fields, (n - 1) as nat);
        lemma_place_of_key(before.entries, fields[n - 1].0, 0);
    }
}

proof fn lemma_record_within(
    s: Summary,
    v: Json,
    paths: Seq<Seq<Step>>,
    bytes: nat,
    size: nat,
    max_errors: nat,
)
    requires
        s.lines == s.blank + s.valid + s.invalid + 1,
        s.lines <= bytes + size,
        s.lengths.len() == s.valid + s.invalid + 1,
        tally_total(s.types) == s.valid,
        keys_within(s.keys, bytes),
        s.keys.entries.len() <= MAX_KEYS,
        forall|i: int|
            0 <= i < s.profiles.len() ==> profile_within(#[trigger] s.profiles[i], bytes)
                && s.profiles[i].present <= s.valid,
        s.issues.len() == if s.invalid < max_errors {
            s.invalid
        } else {
            max_errors
        },
        s.issues_truncated == (s.invalid > max_errors),
        nodes(v) <= size,
    ensures
        summary_within(record_seen(s, v, paths), bytes + size, max_errors),
{
    let next = record_seen(s, v, paths);
    tallies_count_every_occurrence(s.types, type_text(v));
    match v {
        Json::Object(fields) => {
            lemma_field_count(fields, 0);
            lemma_keys_seen_within(s.keys, fields, fields.len(), bytes);
            lemma_keys_count(s.keys, fields, fields.len());
        },
        _ => {},
    }
    assert(keys_within(next.keys, bytes + size));
    assert forall|i: int| 0 <= i < next.profiles.len() implies profile_within(
        #[trigger] next.profiles[i],
        bytes + size,
    ) && next.profiles[i].present <= next.valid by {
        assert(profile_within(s.profiles[i], bytes));
        lemma_selection_within(s.profiles[i], selected(paths[i], v), bytes);
        paths_select_few_values(paths[i], v);
    }
}

/// One more line of `size` bytes, its line ending counted or not, keeps the
/// counts within the number of bytes read.
pub proof fn lemma_line_within(
    s: Summary,
    line: Seq<u8>,
    paths: Seq<Seq<Step>>,
    max_errors: nat,
    bytes: nat,
    size: nat,
)
    requires
        summary_within(s, bytes, max_errors),
        line.len() <= size,
        size > 0,
    ensures
        summary_within(line_seen(s, line, paths, max_errors), bytes + size, max_errors),
{
    let number = s.lines + 1;
    if blank(line) {
        lemma_wider(s, bytes, size, max_errors);
    } else {
        let t = Summary { lines: number, lengths: s.lengths.push(line.len() as u64), ..s };
        match record_on(line) {
            Ok(v) => {
                documents_have_few_nodes(line);
                lemma_record_within(t, v, paths, bytes, size, max_errors);
            },
            Err((column, reason)) => {
                lemma_wider(s, bytes, size, max_errors);
            },
        }
    }
}

proof fn lemma_wider(s: Summary, bytes: nat, size: nat, max_errors: nat)
    requires
        summary_within(s, bytes, max_errors),
    ensures
        keys_within(s.keys, bytes + size),
        forall|i: int|
            0 <= i < s.profiles.len() ==> profile_within(#[trigger] s.profiles[i], bytes + size),
{
    assert forall|i: int| 0 <= i < s.keys.entries.len() implies (
    #[trigger] s.keys.entries[i]).count <= bytes + size && tally_total(s.keys.entries[i].types)
        <= bytes + size by {
        assert(s.keys.entries[i].count <= bytes);
    }
    assert forall|i: int| 0 <= i < s.profiles.len() implies profile_within(
        #[trigger] s.profiles[i],
        bytes + size,
    ) by {
        assert(profile_within(s.profiles[i], bytes));
    }
}

/// How many bytes lines take with a one-byte line ending each.
pub open spec fn bytes_of(lines: Seq<Seq<u8>>) -> nat
    decreases lines.len(),
{
    if lines.len() == 0 {
        0
    } else {
        bytes_of(lines.drop_last()) + lines.last().len() + 1
    }
}

/// Every line is counted once, as blank, as valid or as broken, and every
/// count fits the others; the tables and the list of broken lines stop
/// growing at their limits, and the list says so.
pub proof fn summaries_add_up(lines: Seq<Seq<u8>>, paths: Seq<Seq<Step>>, max_errors: nat)
    ensures
        summary(lines, paths, max_errors).lines == lines.len(),
        summary_within(summary(lines, paths, max_errors), bytes_of(lines), max_errors),
        summary(lines, paths, max_errors).profiles.len() == paths.len(),
    decreases lines.len(),
{
    if lines.len() == 0 {
        let s = empty_summary(paths.len());
        assert(tally_total(Seq::empty()) == 0);
        assert forall|i: int| 0 <= i < s.profiles.len() implies profile_within(
            #[trigger] s.profiles[i],
            0,
        ) by {
            assert(s.profiles[i].distinct.dom() =~= Set::<Seq<char>>::empty());
        }
    } else {
        let rest = lines.drop_last();
        summaries_add_up(rest, paths, max_errors);
        lemma_line_within(
            summary(rest, paths, max_errors),
            lines.last(),
            paths,
            max_errors,
            bytes_of(rest),
            lines.last().len() + 1,
        );
    }
}

} // verus!
