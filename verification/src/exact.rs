//! Counts are exact: what a summary and a discovery hold for each type, key,
//! path and value is how often it occurs in the records of the file.

use vstd::prelude::*;

use crate::ascii::RETURN;
use crate::json::{first_member, json_text, member, type_text, Json};
use crate::lines::{blank, contents, crlf_endings_do_not_matter, newlines, with_crlf};
use crate::order::lemma_text_total;
use crate::path::{selected, FieldPath, Step};
use crate::profile::{
    empty_profile, is_ranking, key_seen, keys_seen, lemma_place_of, place_of, place_of_key,
    ranking, rankings_hold_every_entry, ranks_before, record_on, repeated, summaries_add_up,
    summary, tallied, tally_total, top_values, value_seen, values_seen, Flaw, KeyUse, Keys, Profile,
    Tally,
};
use crate::stats::{flaws_of, paths_of, profiles_of, Stats, MAX_FIELD_VALUES, MAX_KEYS};

verus! {

/// How many items meet a condition.
pub open spec fn how_many<T>(s: Seq<T>, wanted: spec_fn(T) -> bool) -> nat
    decreases s.len(),
{
    if s.len() == 0 {
        0
    } else {
        how_many(s.drop_last(), wanted) + if wanted(s.last()) {
            1nat
        } else {
            0nat
        }
    }
}

pub proof fn lemma_how_many_push<T>(s: Seq<T>, x: T, wanted: spec_fn(T) -> bool)
    ensures
        how_many(s.push(x), wanted) == how_many(s, wanted) + if wanted(x) {
            1nat
        } else {
            0nat
        },
{
    assert(s.push(x).drop_last() =~= s);
}

/// The record on a line that is not blank, if it is valid.
pub open spec fn record_of(line: Seq<u8>) -> Option<Json> {
    if blank(line) {
        None
    } else {
        match record_on(line) {
            Ok(v) => Some(v),
            Err(_) => None,
        }
    }
}

/// The records of a file, in their order.
pub open spec fn records_of(lines: Seq<Seq<u8>>) -> Seq<Json>
    decreases lines.len(),
{
    if lines.len() == 0 {
        Seq::empty()
    } else {
        let before = records_of(lines.drop_last());
        match record_of(lines.last()) {
            Some(v) => before.push(v),
            None => before,
        }
    }
}

/// Whether a line is blank.
pub open spec fn is_blank() -> spec_fn(Seq<u8>) -> bool {
    |line: Seq<u8>| blank(line)
}

/// Whether a line is broken.
pub open spec fn is_broken() -> spec_fn(Seq<u8>) -> bool {
    |line: Seq<u8>| !blank(line) && record_on(line) is Err
}

/// The lengths of the lines that are not blank.
pub open spec fn lengths_of(lines: Seq<Seq<u8>>) -> Seq<u64>
    decreases lines.len(),
{
    if lines.len() == 0 {
        Seq::empty()
    } else {
        let before = lengths_of(lines.drop_last());
        if blank(lines.last()) {
            before
        } else {
            before.push(lines.last().len() as u64)
        }
    }
}

/// The broken lines, each with its number, column and reason.
pub open spec fn flaws_on(lines: Seq<Seq<u8>>) -> Seq<Flaw>
    decreases lines.len(),
{
    if lines.len() == 0 {
        Seq::empty()
    } else {
        let before = flaws_on(lines.drop_last());
        let line = lines.last();
        match record_on(line) {
            Err((column, reason)) => if blank(line) {
                before
            } else {
                before.push(Flaw { line: lines.len(), column: column as nat, reason })
            },
            Ok(_) => before,
        }
    }
}

/// Every line is counted for what it is, every length is kept, and the listed
/// broken lines are the first ones.
pub proof fn lines_are_counted_exactly(
    lines: Seq<Seq<u8>>,
    paths: Seq<Seq<Step>>,
    max_errors: nat,
)
    ensures
        ({
            let s = summary(lines, paths, max_errors);
            &&& s.lines == lines.len()
            &&& s.blank == how_many(lines, is_blank())
            &&& s.valid == records_of(lines).len()
            &&& s.invalid == how_many(lines, is_broken())
            &&& s.invalid == flaws_on(lines).len()
            &&& s.lengths == lengths_of(lines)
            &&& s.issues == if flaws_on(lines).len() <= max_errors {
                flaws_on(lines)
            } else {
                flaws_on(lines).take(max_errors as int)
            }
        }),
    decreases lines.len(),
{
    if lines.len() > 0 {
        let rest = lines.drop_last();
        lines_are_counted_exactly(rest, paths, max_errors);
        let s = summary(lines, paths, max_errors);
        let before = flaws_on(rest);
        let all = flaws_on(lines);
        if all.len() > before.len() {
            if all.len() <= max_errors {
                assert(s.issues =~= all);
            } else if before.len() <= max_errors {
                assert(before =~= all.take(max_errors as int));
            } else {
                assert(before.take(max_errors as int) =~= all.take(max_errors as int));
            }
        }
    } else {
        assert(flaws_on(lines) =~= Seq::<Flaw>::empty());
    }
}

/// How often a name occurs in a tally.
pub open spec fn counted(tally: Tally, name: Seq<char>) -> nat {
    let i = place_of(tally, name, 0);
    if i < tally.len() {
        tally[i].1
    } else {
        0
    }
}

/// Where a name stands depends on the names alone.
proof fn lemma_same_place(a: Tally, b: Tally, name: Seq<char>, from: int)
    requires
        0 <= from <= a.len(),
        a.len() == b.len(),
        forall|i: int| 0 <= i < a.len() ==> (#[trigger] a[i]).0 == b[i].0,
    ensures
        place_of(a, name, from) == place_of(b, name, from),
    decreases a.len() - from,
{
    if from < a.len() {
        assert(a[from].0 == b[from].0);
        lemma_same_place(a, b, name, from + 1);
    }
}

proof fn lemma_place_push(tally: Tally, entry: (Seq<char>, nat), name: Seq<char>, from: int)
    requires
        0 <= from <= tally.len(),
    ensures
        place_of(tally.push(entry), name, from) == if place_of(tally, name, from) < tally.len() {
            place_of(tally, name, from)
        } else if entry.0 == name {
            tally.len() as int
        } else {
            (tally.len() + 1) as int
        },
    decreases tally.len() - from,
{
    let longer = tally.push(entry);
    lemma_place_of(tally, name, from);
    if from < tally.len() {
        assert(longer[from] == tally[from]);
        lemma_place_push(tally, entry, name, from + 1);
    } else {
        reveal_with_fuel(place_of, 2);
    }
}

/// One more occurrence counts for its name and for no other.
pub proof fn lemma_counted(tally: Tally, new: Seq<char>, name: Seq<char>)
    ensures
        counted(tallied(tally, new), name) == counted(tally, name) + if new == name {
            1nat
        } else {
            0nat
        },
{
    let i = place_of(tally, new, 0);
    lemma_place_of(tally, new, 0);
    lemma_place_of(tally, name, 0);
    if i < tally.len() {
        let next = tallied(tally, new);
        lemma_same_place(next, tally, name, 0);
    } else {
        lemma_place_push(tally, (new, 1), name, 0);
    }
}

/// Whether a value has a type.
pub open spec fn has_type(name: Seq<char>) -> spec_fn(Json) -> bool {
    |v: Json| type_text(v) == name
}

/// The count of a type is the number of records of that type.
pub proof fn types_are_counted_exactly(
    lines: Seq<Seq<u8>>,
    paths: Seq<Seq<Step>>,
    max_errors: nat,
    name: Seq<char>,
)
    ensures
        counted(summary(lines, paths, max_errors).types, name) == how_many(
            records_of(lines),
            has_type(name),
        ),
    decreases lines.len(),
{
    if lines.len() > 0 {
        let rest = lines.drop_last();
        types_are_counted_exactly(rest, paths, max_errors, name);
        match record_of(lines.last()) {
            Some(v) => {
                lemma_counted(summary(rest, paths, max_errors).types, type_text(v), name);
                lemma_how_many_push(records_of(rest), v, has_type(name));
            },
            None => {},
        }
    } else {
        assert(counted(Seq::empty(), name) == 0);
    }
}

/// What a key table holds for a key.
pub open spec fn use_of(keys: Keys, key: Seq<char>) -> Option<KeyUse> {
    let i = place_of_key(keys.entries, key, 0);
    if i < keys.entries.len() {
        Some(keys.entries[i])
    } else {
        None
    }
}

pub proof fn lemma_key_place(entries: Seq<KeyUse>, key: Seq<char>, from: int)
    requires
        0 <= from <= entries.len(),
    ensures
        from <= place_of_key(entries, key, from) <= entries.len(),
        place_of_key(entries, key, from) < entries.len() ==> entries[place_of_key(
            entries,
            key,
            from,
        )].key == key,
        forall|i: int|
            from <= i < place_of_key(entries, key, from) ==> (#[trigger] entries[i]).key != key,
    decreases entries.len() - from,
{
    if from < entries.len() && entries[from].key != key {
        lemma_key_place(entries, key, from + 1);
    }
}

/// The place of a key is the only one it can be.
proof fn lemma_key_place_is(entries: Seq<KeyUse>, key: Seq<char>, i: int)
    requires
        0 <= i <= entries.len(),
        i < entries.len() ==> entries[i].key == key,
        forall|j: int| 0 <= j < i ==> (#[trigger] entries[j]).key != key,
    ensures
        place_of_key(entries, key, 0) == i,
{
    lemma_key_place(entries, key, 0);
    let p = place_of_key(entries, key, 0);
    if p < i {
        assert(entries[p].key != key);
    } else if i < p {
        assert(entries[i].key != key);
    }
}

/// A key table with one more occurrence of a key, looked up by key.
proof fn lemma_use_seen(keys: Keys, new: Seq<char>, name: Seq<char>, key: Seq<char>)
    ensures
        keys.entries.len() <= key_seen(keys, new, name).entries.len(),
        use_of(key_seen(keys, new, name), key) == if new != key {
            use_of(keys, key)
        } else {
            match use_of(keys, key) {
                Some(u) => Some(
                    KeyUse { key, count: u.count + 1, types: tallied(u.types, name) },
                ),
                None => if keys.entries.len() < MAX_KEYS {
                    Some(KeyUse { key, count: 1, types: tallied(Seq::empty(), name) })
                } else {
                    None
                },
            }
        },
{
    let next = key_seen(keys, new, name);
    let at = place_of_key(keys.entries, new, 0);
    let i = place_of_key(keys.entries, key, 0);
    lemma_key_place(keys.entries, new, 0);
    lemma_key_place(keys.entries, key, 0);
    if at < keys.entries.len() {
        assert forall|j: int| 0 <= j < i implies (#[trigger] next.entries[j]).key != key by {
            assert(keys.entries[j].key != key);
        }
        lemma_key_place_is(next.entries, key, i);
    } else if keys.entries.len() < MAX_KEYS {
        assert forall|j: int| 0 <= j < i implies (#[trigger] next.entries[j]).key != key by {
            assert(keys.entries[j].key != key);
        }
        if i < keys.entries.len() || new == key {
            lemma_key_place_is(next.entries, key, i);
        } else {
            assert forall|j: int| 0 <= j < next.entries.len() implies (
            #[trigger] next.entries[j]).key != key by {
                if j < keys.entries.len() {
                    assert(keys.entries[j].key != key);
                }
            }
            lemma_key_place_is(next.entries, key, next.entries.len() as int);
        }
    }
}

/// The first of the first `n` members with a given name.
spec fn first_below(fields: Seq<(Seq<char>, Json)>, key: Seq<char>, n: nat) -> Option<Json>
    decreases n,
{
    if n == 0 || n > fields.len() {
        None
    } else {
        match first_below(fields, key, (n - 1) as nat) {
            Some(v) => Some(v),
            None => if fields[n - 1].0 == key {
                Some(fields[n - 1].1)
            } else {
                None
            },
        }
    }
}

proof fn lemma_first_below(fields: Seq<(Seq<char>, Json)>, key: Seq<char>, n: nat)
    requires
        n <= fields.len(),
    ensures
        first_below(fields, key, n) is None <==> forall|j: int|
            0 <= j < n ==> (#[trigger] fields[j]).0 != key,
        first_below(fields, key, n) matches Some(v) ==> first_member(fields, key, 0) == Some(v),
        first_below(fields, key, n) is None ==> first_member(fields, key, 0) == first_member(
            fields,
            key,
            n as int,
        ),
    decreases n,
{
    if n > 0 {
        lemma_first_below(fields, key, (n - 1) as nat);
        if first_below(fields, key, (n - 1) as nat) is None {
            assert(first_member(fields, key, n - 1) == if fields[n - 1].0 == key {
                Some(fields[n - 1].1)
            } else {
                first_member(fields, key, n as int)
            });
        }
    }
}

/// A key table with the first members of one more record, looked up by key.
proof fn lemma_use_of_members(
    keys: Keys,
    fields: Seq<(Seq<char>, Json)>,
    n: nat,
    key: Seq<char>,
)
    requires
        n <= fields.len(),
    ensures
        ({
            let next = keys_seen(keys, fields, n);
            &&& keys.entries.len() <= next.entries.len()
            &&& match first_below(fields, key, n) {
                None => use_of(next, key) == use_of(keys, key),
                Some(v) => match use_of(keys, key) {
                    Some(u) => use_of(next, key) == Some(
                        KeyUse { key, count: u.count + 1, types: tallied(u.types, type_text(v)) },
                    ),
                    None => match use_of(next, key) {
                        Some(u) => u == (KeyUse {
                            key,
                            count: 1,
                            types: tallied(Seq::empty(), type_text(v)),
                        }) && keys.entries.len() < MAX_KEYS,
                        None => next.entries.len() >= MAX_KEYS,
                    },
                },
            }
        }),
    decreases n,
{
    if n > 0 {
        let less = (n - 1) as nat;
        lemma_use_of_members(keys, fields, less, key);
        lemma_first_below(fields, key, less);
        let before = keys_seen(keys, fields, less);
        let (new, v) = fields[n - 1];
        if !repeated(fields, n - 1) {
            lemma_use_seen(before, new, type_text(v), key);
            if new == key {
                assert(first_below(fields, key, less) is None) by {
                    assert forall|j: int| 0 <= j < less implies (#[trigger] fields[j]).0 != key by {
                        assert(!repeated(fields, n - 1));
                    }
                }
            }
        } else if new == key {
            let j = choose|j: int| 0 <= j < n - 1 && (#[trigger] fields[j]).0 == fields[n - 1].0;
            assert(fields[j].0 == key);
        }
    }
}

/// Whether a record has a member with a given name.
pub open spec fn has_key(key: Seq<char>) -> spec_fn(Json) -> bool {
    |v: Json| member(v, key) is Some
}

/// Whether the member of a record with a given name has a type.
pub open spec fn has_key_of_type(key: Seq<char>, name: Seq<char>) -> spec_fn(Json) -> bool {
    |v: Json|
        match member(v, key) {
            Some(m) => type_text(m) == name,
            None => false,
        }
}

proof fn lemma_no_key(records: Seq<Json>, key: Seq<char>, name: Seq<char>)
    ensures
        how_many(records, has_key_of_type(key, name)) <= how_many(records, has_key(key)),
    decreases records.len(),
{
    if records.len() > 0 {
        lemma_no_key(records.drop_last(), key, name);
    }
}

/// Whether what a key table holds for a key is exact, given the records.
spec fn key_is_exact(keys: Keys, records: Seq<Json>, key: Seq<char>) -> bool {
    match use_of(keys, key) {
        Some(u) => {
            &&& u.key == key
            &&& u.count == how_many(records, has_key(key))
            &&& forall|name: Seq<char>| #[trigger]
                counted(u.types, name) == how_many(records, has_key_of_type(key, name))
        },
        None => keys.entries.len() < MAX_KEYS ==> how_many(records, has_key(key)) == 0,
    }
}

proof fn lemma_key_is_exact(keys: Keys, records: Seq<Json>, v: Json, key: Seq<char>)
    requires
        key_is_exact(keys, records, key),
    ensures
        key_is_exact(
            match v {
                Json::Object(fields) => keys_seen(keys, fields, fields.len()),
                _ => keys,
            },
            records.push(v),
            key,
        ),
{
    let next = match v {
        Json::Object(fields) => keys_seen(keys, fields, fields.len()),
        _ => keys,
    };
    lemma_how_many_push(records, v, has_key(key));
    match v {
        Json::Object(fields) => {
            lemma_use_of_members(keys, fields, fields.len(), key);
            lemma_first_below(fields, key, fields.len());
        },
        _ => {},
    }
    match use_of(next, key) {
        Some(u) => {
            assert forall|name: Seq<char>| #[trigger] counted(u.types, name) == how_many(
                records.push(v),
                has_key_of_type(key, name),
            ) by {
                lemma_how_many_push(records, v, has_key_of_type(key, name));
                lemma_no_key(records, key, name);
                match member(v, key) {
                    Some(m) => {
                        let before = match use_of(keys, key) {
                            Some(w) => w.types,
                            None => Seq::empty(),
                        };
                        assert(counted(Seq::empty(), name) == 0);
                        assert(counted(before, name) == how_many(
                            records,
                            has_key_of_type(key, name),
                        ));
                        lemma_counted(before, type_text(m), name);
                    },
                    None => {},
                }
            }
        },
        None => {},
    }
}

proof fn lemma_keys_exact(
    lines: Seq<Seq<u8>>,
    paths: Seq<Seq<Step>>,
    max_errors: nat,
    key: Seq<char>,
)
    ensures
        key_is_exact(summary(lines, paths, max_errors).keys, records_of(lines), key),
    decreases lines.len(),
{
    if lines.len() > 0 {
        let rest = lines.drop_last();
        lemma_keys_exact(rest, paths, max_errors, key);
        match record_of(lines.last()) {
            Some(v) => {
                lemma_key_is_exact(
                    summary(rest, paths, max_errors).keys,
                    records_of(rest),
                    v,
                    key,
                );
            },
            None => {},
        }
    } else {
        assert(place_of_key(Seq::empty(), key, 0) == 0);
    }
}

/// Whether no two entries have the same key.
pub open spec fn keys_differ(keys: Keys) -> bool {
    forall|i: int, j: int|
        0 <= i < j < keys.entries.len() ==> (#[trigger] keys.entries[i]).key != (
        #[trigger] keys.entries[j]).key
}

proof fn lemma_members_differ(keys: Keys, fields: Seq<(Seq<char>, Json)>, n: nat)
    requires
        keys_differ(keys),
    ensures
        keys_differ(keys_seen(keys, fields, n)),
    decreases n,
{
    if n > 0 && n <= fields.len() {
        lemma_members_differ(keys, fields, (n - 1) as nat);
        let before = keys_seen(keys, fields, (n - 1) as nat);
        lemma_key_place(before.entries, fields[n - 1].0, 0);
    }
}

proof fn lemma_keys_differ(lines: Seq<Seq<u8>>, paths: Seq<Seq<Step>>, max_errors: nat)
    ensures
        keys_differ(summary(lines, paths, max_errors).keys),
    decreases lines.len(),
{
    if lines.len() > 0 {
        let rest = lines.drop_last();
        lemma_keys_differ(rest, paths, max_errors);
        match record_of(lines.last()) {
            Some(Json::Object(fields)) => {
                lemma_members_differ(
                    summary(rest, paths, max_errors).keys,
                    fields,
                    fields.len(),
                );
            },
            _ => {},
        }
    }
}

/// The count of a listed key is the number of records that have it, whether
/// once or several times, and its types are those of its first value in each.
/// No key is listed twice, and none is left out unless the table is full.
pub proof fn keys_are_counted_exactly(
    lines: Seq<Seq<u8>>,
    paths: Seq<Seq<Step>>,
    max_errors: nat,
)
    ensures
        ({
            let keys = summary(lines, paths, max_errors).keys;
            let records = records_of(lines);
            &&& keys_differ(keys)
            &&& forall|i: int|
                0 <= i < keys.entries.len() ==> (#[trigger] keys.entries[i]).count == how_many(
                    records,
                    has_key(keys.entries[i].key),
                )
            &&& forall|i: int, name: Seq<char>|
                0 <= i < keys.entries.len() ==> #[trigger] counted(keys.entries[i].types, name)
                    == how_many(records, has_key_of_type(keys.entries[i].key, name))
            &&& forall|key: Seq<char>|
                keys.entries.len() < MAX_KEYS && how_many(records, #[trigger] has_key(key)) > 0
                    ==> use_of(keys, key) is Some
        }),
{
    let keys = summary(lines, paths, max_errors).keys;
    let records = records_of(lines);
    lemma_keys_differ(lines, paths, max_errors);
    assert forall|i: int| 0 <= i < keys.entries.len() implies (#[trigger] keys.entries[i]).count
        == how_many(records, has_key(keys.entries[i].key)) by {
        lemma_keys_exact(lines, paths, max_errors, keys.entries[i].key);
        lemma_key_place_is(keys.entries, keys.entries[i].key, i);
    }
    assert forall|i: int, name: Seq<char>| 0 <= i < keys.entries.len() implies #[trigger] counted(
        keys.entries[i].types,
        name,
    ) == how_many(records, has_key_of_type(keys.entries[i].key, name)) by {
        lemma_keys_exact(lines, paths, max_errors, keys.entries[i].key);
        lemma_key_place_is(keys.entries, keys.entries[i].key, i);
    }
    assert forall|key: Seq<char>|
        keys.entries.len() < MAX_KEYS && how_many(records, #[trigger] has_key(key)) > 0 implies
        use_of(keys, key) is Some by {
        lemma_keys_exact(lines, paths, max_errors, key);
    }
}

/// What a path selects out of several records, in their order.
pub open spec fn all_selected(path: Seq<Step>, records: Seq<Json>) -> Seq<Json>
    decreases records.len(),
{
    if records.len() == 0 {
        Seq::empty()
    } else {
        all_selected(path, records.drop_last()) + selected(path, records.last())
    }
}

/// Whether a path selects something out of a record.
pub open spec fn is_present(path: Seq<Step>) -> spec_fn(Json) -> bool {
    |v: Json| selected(path, v).len() > 0
}

/// Whether a value has a given encoding.
pub open spec fn has_text(text: Seq<char>) -> spec_fn(Json) -> bool {
    |v: Json| json_text(v) == text
}

/// Whether one of several values is not in a table.
pub open spec fn leaves_out_value(p: Profile, values: Seq<Json>) -> bool {
    exists|text: Seq<char>|
        how_many(values, #[trigger] has_text(text)) > 0 && !p.distinct.dom().contains(text)
}

/// Whether a profile counts values exactly, for as many of them as fit.
pub open spec fn profile_is_exact(p: Profile, values: Seq<Json>) -> bool {
    &&& p.values == values.len()
    &&& forall|name: Seq<char>| #[trigger]
        counted(p.types, name) == how_many(values, has_type(name))
    &&& forall|text: Seq<char>| #[trigger]
        p.distinct.dom().contains(text) ==> p.distinct[text] == how_many(values, has_text(text))
    &&& p.distinct.dom().len() < MAX_FIELD_VALUES ==> !leaves_out_value(p, values)
}

proof fn lemma_value_exact(p: Profile, values: Seq<Json>, v: Json)
    requires
        profile_is_exact(p, values),
        p.distinct.dom().finite(),
    ensures
        profile_is_exact(value_seen(p, v), values.push(v)),
        value_seen(p, v).distinct.dom().finite(),
{
    let next = value_seen(p, v);
    let more = values.push(v);
    let new = json_text(v);
    assert forall|name: Seq<char>| #[trigger] counted(next.types, name) == how_many(
        more,
        has_type(name),
    ) by {
        lemma_counted(p.types, type_text(v), name);
        lemma_how_many_push(values, v, has_type(name));
        assert(counted(p.types, name) == how_many(values, has_type(name)));
    }
    assert forall|text: Seq<char>| #[trigger]
        next.distinct.dom().contains(text) implies next.distinct[text] == how_many(
        more,
        has_text(text),
    ) by {
        lemma_how_many_push(values, v, has_text(text));
        if p.distinct.dom().contains(text) {
            assert(p.distinct[text] == how_many(values, has_text(text)));
        } else if how_many(values, has_text(text)) > 0 {
            assert(leaves_out_value(p, values));
        }
    }
    if leaves_out_value(p, values) {
        let text = choose|text: Seq<char>|
            how_many(values, #[trigger] has_text(text)) > 0 && !p.distinct.dom().contains(text);
        lemma_how_many_push(values, v, has_text(text));
        assert(how_many(more, has_text(text)) > 0 && !next.distinct.dom().contains(text));
    }
    if leaves_out_value(next, more) {
        let text = choose|text: Seq<char>|
            how_many(more, #[trigger] has_text(text)) > 0 && !next.distinct.dom().contains(text);
        lemma_how_many_push(values, v, has_text(text));
        if text != new {
            assert(how_many(values, has_text(text)) > 0 && !p.distinct.dom().contains(text));
        }
    }
    if !next.distinct.dom().contains(new) {
        lemma_how_many_push(values, v, has_text(new));
        assert(how_many(more, has_text(new)) > 0);
    }
    if p.distinct.dom().contains(new) {
        assert(next.distinct.dom() =~= p.distinct.dom());
    }
}

proof fn lemma_values_exact(p: Profile, values: Seq<Json>, selection: Seq<Json>, n: nat)
    requires
        n <= selection.len(),
        profile_is_exact(p, values),
        p.distinct.dom().finite(),
    ensures
        profile_is_exact(values_seen(p, selection, n), values + selection.take(n as int)),
        values_seen(p, selection, n).distinct.dom().finite(),
        values_seen(p, selection, n).present == p.present,
    decreases n,
{
    if n > 0 {
        let less = (n - 1) as nat;
        lemma_values_exact(p, values, selection, less);
        lemma_value_exact(
            values_seen(p, selection, less),
            values + selection.take(less as int),
            selection[n - 1],
        );
        assert((values + selection.take(less as int)).push(selection[n - 1]) =~= values
            + selection.take(n as int));
    } else {
        assert(values + selection.take(0) =~= values);
    }
}

/// The profile of a path counts exactly: the records in which it selects
/// something, the values it selects and their types. The count of a listed
/// value is the number of its occurrences, and none is left out unless the
/// table is full.
pub proof fn fields_are_profiled_exactly(
    lines: Seq<Seq<u8>>,
    paths: Seq<Seq<Step>>,
    max_errors: nat,
    i: int,
)
    requires
        0 <= i < paths.len(),
    ensures
        ({
            let s = summary(lines, paths, max_errors);
            let records = records_of(lines);
            &&& i < s.profiles.len()
            &&& s.profiles[i].present == how_many(records, is_present(paths[i]))
            &&& profile_is_exact(s.profiles[i], all_selected(paths[i], records))
        }),
{
    lemma_fields_exact(lines, paths, max_errors, i);
}

proof fn lemma_fields_exact(
    lines: Seq<Seq<u8>>,
    paths: Seq<Seq<Step>>,
    max_errors: nat,
    i: int,
)
    requires
        0 <= i < paths.len(),
    ensures
        ({
            let s = summary(lines, paths, max_errors);
            let records = records_of(lines);
            &&& s.profiles.len() == paths.len()
            &&& s.profiles[i].present == how_many(records, is_present(paths[i]))
            &&& profile_is_exact(s.profiles[i], all_selected(paths[i], records))
            &&& s.profiles[i].distinct.dom().finite()
        }),
    decreases lines.len(),
{
    let path = paths[i];
    if lines.len() > 0 {
        let rest = lines.drop_last();
        lemma_fields_exact(rest, paths, max_errors, i);
        let p = summary(rest, paths, max_errors).profiles[i];
        let before = records_of(rest);
        match record_of(lines.last()) {
            Some(v) => {
                let selection = selected(path, v);
                let start = Profile { present: p.present + 1, ..p };
                let values = all_selected(path, before);
                lemma_how_many_push(before, v, is_present(path));
                assert(before.push(v).drop_last() =~= before);
                assert(all_selected(path, before.push(v)) == values + selection);
                if selection.len() > 0 {
                    assert(profile_is_exact(start, values)) by {
                        assert(leaves_out_value(start, values) == leaves_out_value(p, values)) by {
                            assert(start.distinct == p.distinct);
                        }
                    }
                    lemma_values_exact(start, values, selection, selection.len());
                    assert(selection.take(selection.len() as int) =~= selection);
                } else {
                    assert(values + selection =~= values);
                }
            },
            None => {},
        }
    } else {
        let p = empty_profile();
        assert forall|name: Seq<char>| #[trigger] counted(p.types, name) == 0 by {}
        assert(!leaves_out_value(p, Seq::empty()));
    }
}

/// How many values have one of several encodings, each encoding counted for
/// itself.
spec fn with_texts(texts: Seq<Seq<char>>, values: Seq<Json>) -> nat
    decreases texts.len(),
{
    if texts.len() == 0 {
        0
    } else {
        with_texts(texts.drop_last(), values) + how_many(values, has_text(texts.last()))
    }
}

/// Whether a text is the given one.
spec fn is_text(text: Seq<char>) -> spec_fn(Seq<char>) -> bool {
    |other: Seq<char>| other == text
}

proof fn lemma_with_texts_push(texts: Seq<Seq<char>>, values: Seq<Json>, v: Json)
    ensures
        with_texts(texts, values.push(v)) == with_texts(texts, values) + how_many(
            texts,
            is_text(json_text(v)),
        ),
    decreases texts.len(),
{
    if texts.len() > 0 {
        lemma_with_texts_push(texts.drop_last(), values, v);
        lemma_how_many_push(values, v, has_text(texts.last()));
    }
}

proof fn lemma_no_text(texts: Seq<Seq<char>>, text: Seq<char>)
    requires
        !texts.contains(text),
    ensures
        how_many(texts, is_text(text)) == 0,
    decreases texts.len(),
{
    if texts.len() > 0 {
        assert(texts[texts.len() - 1] != text);
        assert forall|i: int| 0 <= i < texts.drop_last().len() implies texts.drop_last()[i]
            != text by {
            assert(texts[i] != text);
        }
        lemma_no_text(texts.drop_last(), text);
    }
}

proof fn lemma_one_text(texts: Seq<Seq<char>>, text: Seq<char>)
    requires
        texts.no_duplicates(),
        texts.contains(text),
    ensures
        how_many(texts, is_text(text)) == 1,
    decreases texts.len(),
{
    let rest = texts.drop_last();
    let i = choose|i: int| 0 <= i < texts.len() && texts[i] == text;
    if texts.last() == text {
        assert forall|j: int| 0 <= j < rest.len() implies rest[j] != text by {
            assert(texts[j] != texts[texts.len() - 1]);
        }
        lemma_no_text(rest, text);
    } else {
        assert(rest[i] == text);
        lemma_one_text(rest, text);
    }
}

/// Encodings that differ and cover all values count each value once.
proof fn lemma_texts_cover(texts: Seq<Seq<char>>, values: Seq<Json>)
    requires
        texts.no_duplicates(),
        forall|i: int| 0 <= i < values.len() ==> texts.contains(json_text(#[trigger] values[i])),
    ensures
        with_texts(texts, values) == values.len(),
    decreases values.len(),
{
    if values.len() == 0 {
        lemma_no_values_with_texts(texts, values);
    } else {
        let rest = values.drop_last();
        let v = values[values.len() - 1];
        assert forall|i: int| 0 <= i < rest.len() implies texts.contains(
            json_text(#[trigger] rest[i]),
        ) by {
            assert(rest[i] == values[i]);
        }
        lemma_texts_cover(texts, rest);
        lemma_with_texts_push(texts, rest, v);
        assert(rest.push(v) =~= values);
        lemma_one_text(texts, json_text(v));
    }
}

proof fn lemma_no_values_with_texts(texts: Seq<Seq<char>>, values: Seq<Json>)
    requires
        values.len() == 0,
    ensures
        with_texts(texts, values) == 0,
    decreases texts.len(),
{
    if texts.len() > 0 {
        lemma_no_values_with_texts(texts.drop_last(), values);
    }
}

/// The encodings of a list of counts.
spec fn texts_of(list: Tally) -> Seq<Seq<char>> {
    Seq::new(list.len(), |i: int| list[i].0)
}

proof fn lemma_total_of_counts(list: Tally, values: Seq<Json>)
    requires
        forall|i: int|
            0 <= i < list.len() ==> (#[trigger] list[i]).1 == how_many(values, has_text(list[i].0)),
    ensures
        tally_total(list) == with_texts(texts_of(list), values),
    decreases list.len(),
{
    if list.len() > 0 {
        let rest = list.drop_last();
        assert forall|i: int| 0 <= i < rest.len() implies (#[trigger] rest[i]).1 == how_many(
            values,
            has_text(rest[i].0),
        ) by {
            assert(rest[i] == list[i]);
        }
        lemma_total_of_counts(rest, values);
        assert(texts_of(list).drop_last() =~= texts_of(rest));
        assert(list[list.len() - 1].1 == how_many(values, has_text(list[list.len() - 1].0)));
    }
}

proof fn lemma_value_is_listed(values: Seq<Json>, i: int)
    requires
        0 <= i < values.len(),
    ensures
        how_many(values, has_text(json_text(values[i]))) > 0,
    decreases values.len(),
{
    if i < values.len() - 1 {
        lemma_value_is_listed(values.drop_last(), i);
    }
}

/// As many of the most frequent values of a field are listed as asked for and
/// held. Where nothing was truncated, the counts of all of them sum up to the
/// number of values.
pub proof fn value_counts_add_up(
    lines: Seq<Seq<u8>>,
    paths: Seq<Seq<Step>>,
    max_errors: nat,
    i: int,
    n: nat,
)
    requires
        0 <= i < paths.len(),
    ensures
        ({
            let p = summary(lines, paths, max_errors).profiles[i];
            let held = p.distinct.dom().len();
            let listed = top_values(p.distinct, n);
            &&& held <= MAX_FIELD_VALUES
            &&& is_ranking(p.distinct, ranking(p.distinct))
            &&& listed.len() == if n < held {
                n
            } else {
                held
            }
            &&& held < MAX_FIELD_VALUES && held <= n ==> tally_total(listed) == p.values
        }),
{
    let p = summary(lines, paths, max_errors).profiles[i];
    let values = all_selected(paths[i], records_of(lines));
    let list = ranking(p.distinct);
    summaries_add_up(lines, paths, max_errors);
    fields_are_profiled_exactly(lines, paths, max_errors, i);
    rankings_hold_every_entry(p.distinct);
    if p.distinct.dom().len() < MAX_FIELD_VALUES {
        let texts = texts_of(list);
        assert forall|a: int, b: int| 0 <= a < b < texts.len() implies #[trigger] texts[a]
            != #[trigger] texts[b] by {
            assert(ranks_before(list[a], list[b]));
            lemma_text_total(list[a].0, list[a].0);
            assert(p.distinct[list[a].0] == list[a].1);
            assert(p.distinct[list[b].0] == list[b].1);
        }
        assert(texts.no_duplicates());
        assert forall|k: int| 0 <= k < values.len() implies texts.contains(
            json_text(#[trigger] values[k]),
        ) by {
            let text = json_text(values[k]);
            lemma_value_is_listed(values, k);
            assert(p.distinct.dom().contains(text));
            let j = choose|j: int| 0 <= j < list.len() && (#[trigger] list[j]).0 == text;
            assert(texts[j] == text);
        }
        assert forall|k: int| 0 <= k < list.len() implies (#[trigger] list[k]).1 == how_many(
            values,
            has_text(list[k].0),
        ) by {
            assert(p.distinct.dom().contains(list[k].0));
        }
        lemma_total_of_counts(list, values);
        lemma_texts_cover(texts, values);
    }
}

/// The statistics of a file profile the given paths in their order: the
/// records in which a path selects something, and the values it selects, each
/// of which has one type.
pub proof fn statistics_profile_every_field(
    stats: Stats,
    lines: Seq<Seq<u8>>,
    fields: Seq<FieldPath>,
    max_errors: nat,
    k: int,
)
    requires
        stats.sums_up(summary(lines, paths_of(fields), max_errors)),
        stats.profiles(fields),
        0 <= k < fields.len(),
    ensures
        stats.fields@.len() == fields.len(),
        stats.fields@[k].path == fields[k],
        stats.fields@[k].records_present == how_many(
            records_of(lines),
            is_present(fields[k].steps()),
        ),
        stats.fields@[k].values == all_selected(fields[k].steps(), records_of(lines)).len(),
        tally_total(stats.fields@[k].types@) == stats.fields@[k].values,
{
    let paths = paths_of(fields);
    let s = summary(lines, paths, max_errors);
    assert(stats.fields@[k].path == fields[k]);
    assert(profiles_of(stats.fields@)[k] == stats.fields@[k]@);
    fields_are_profiled_exactly(lines, paths, max_errors, k);
    summaries_add_up(lines, paths, max_errors);
    assert(s.profiles[k] == stats.fields@[k]@);
}

/// A file whose newlines all become CRLF endings has the same statistics, but
/// for one byte more for each newline.
pub proof fn statistics_do_not_depend_on_line_endings(
    input: Seq<u8>,
    a: Stats,
    b: Stats,
    fields: Seq<FieldPath>,
    max_errors: nat,
)
    requires
        forall|i: int| 0 <= i < input.len() ==> #[trigger] input[i] != RETURN,
        a.sums_up(summary(contents(input), paths_of(fields), max_errors)),
        a.profiles(fields),
        a.bytes == input.len(),
        b.sums_up(summary(contents(with_crlf(input)), paths_of(fields), max_errors)),
        b.profiles(fields),
        b.bytes == with_crlf(input).len(),
    ensures
        b.bytes == a.bytes + newlines(input),
        b.lines == a.lines,
        b.blank == a.blank,
        b.valid == a.valid,
        b.invalid == a.invalid,
        a.line_length.holds(lengths_of(contents(input))),
        b.line_length.holds(lengths_of(contents(input))),
        b.top_level_types@ == a.top_level_types@,
        b.keys@ == a.keys@,
        profiles_of(b.fields@) == profiles_of(a.fields@),
        forall|i: int| 0 <= i < fields.len() ==> (#[trigger] b.fields@[i]).path == a.fields@[i].path,
        flaws_of(b.issues@) == flaws_of(a.issues@),
        b.issues_truncated == a.issues_truncated,
{
    crlf_endings_do_not_matter(input);
    lines_are_counted_exactly(contents(input), paths_of(fields), max_errors);
    assert forall|i: int| 0 <= i < fields.len() implies (#[trigger] b.fields@[i]).path
        == a.fields@[i].path by {
        assert(a.fields@[i].path == fields[i]);
    }
}

} // verus!
