//! The reports of a pass as JSON values.

use vstd::prelude::*;
use vstd::string::*;
use vstd::utf8::*;

use crate::discovery::{share, Found};
use crate::grammar::document;
use crate::hist::{largest, mean_of, quantile_of, smallest, Histogram};
use crate::json::{self, lemma_array_view, lemma_object_view, Json, Value};
use crate::profile::{top_values, Flaw, KeyUse, Profile, Tally};
use crate::report::{figures, HALF, NINETY_NINE_HUNDREDTHS, NINE_TENTHS};
use crate::schema::{found_of, PathEntry, Schema};
use crate::stats::{
    fields_of, flaws_of, tally_of, uses_of, FieldStats, Issue, KeyEntry, Stats, TypeCounts,
    MAX_FIELD_VALUES,
};
use crate::table::pairs_of;

verus! {

/// A count as a JSON number.
pub open spec fn count_json(n: nat) -> Json {
    Json::Int(n as i64)
}

fn count_value(n: u64) -> (v: Value)
    ensures
        v@ == count_json(n as nat),
{
    Value::Int(n as i64)
}

fn put(fields: &mut Vec<(String, Value)>, key: &str, value: Value)
    ensures
        fields_of(final(fields)@) == fields_of(old(fields)@).push((key@, value@)),
{
    let ghost before = fields@;
    let ghost given = value@;
    fields.push((key.to_string(), value));
    assert(fields_of(fields@) =~= fields_of(before).push((key@, given)));
}

fn start() -> (fields: Vec<(String, Value)>)
    ensures
        fields_of(fields@) == Seq::<(Seq<char>, Json)>::empty(),
{
    let fields: Vec<(String, Value)> = Vec::new();
    assert(fields_of(fields@) =~= Seq::<(Seq<char>, Json)>::empty());
    fields
}

fn object(fields: Vec<(String, Value)>) -> (v: Value)
    ensures
        v@ == Json::Object(fields_of(fields@)),
{
    let ghost all = fields_of(fields@);
    let v = Value::Object(fields);
    proof {
        lemma_object_view(v);
        assert(v@->Object_0 =~= all);
    }
    v
}

/// What several values stand for.
pub open spec fn meanings(items: Seq<Value>) -> Seq<Json> {
    Seq::new(items.len(), |i: int| items[i]@)
}

fn add_item(items: &mut Vec<Value>, value: Value)
    ensures
        meanings(final(items)@) == meanings(old(items)@).push(value@),
{
    let ghost before = items@;
    let ghost given = value@;
    items.push(value);
    assert(meanings(items@) =~= meanings(before).push(given));
}

fn array(items: Vec<Value>) -> (v: Value)
    ensures
        v@ == Json::Array(meanings(items@)),
{
    let ghost all = meanings(items@);
    let v = Value::Array(items);
    proof {
        lemma_array_view(v);
        assert(v@->Array_0 =~= all);
    }
    v
}

/// Type counts as an object.
pub open spec fn types_json(types: Tally) -> Json {
    Json::Object(Seq::new(types.len(), |i: int| (types[i].0, count_json(types[i].1))))
}

fn type_counts_to_json(types: &TypeCounts) -> (v: Value)
    ensures
        v@ == types_json(types@),
{
    let all = types.iter();
    let ghost tally = types@;
    let mut fields = start();
    let mut i: usize = 0;
    while i < all.len()
        invariant
            i <= all@.len(),
            tally == tally_of(all@),
            fields_of(fields@) =~= Seq::new(
                i as nat,
                |j: int| (tally[j].0, count_json(tally[j].1)),
            ),
        decreases all@.len() - i,
    {
        let (name, count) = all[i];
        put(&mut fields, name, count_value(count));
        i += 1;
    }
    assert(fields_of(fields@) =~= types_json(tally)->Object_0);
    object(fields)
}

/// The distribution of the line lengths, or nothing without lines.
pub open spec fn lengths_json(lengths: Seq<u64>) -> Json {
    if lengths.len() == 0 {
        Json::Null
    } else {
        Json::Object(
            seq![
                ("min"@, count_json(smallest(lengths) as nat)),
                ("p50"@, count_json(quantile_of(lengths, HALF) as nat)),
                ("p90"@, count_json(quantile_of(lengths, NINE_TENTHS) as nat)),
                ("p99"@, count_json(quantile_of(lengths, NINETY_NINE_HUNDREDTHS) as nat)),
                ("max"@, count_json(largest(lengths) as nat)),
                ("mean"@, Json::Float(mean_of(lengths))),
            ],
        )
    }
}

fn line_length_to_json(h: &Histogram) -> (v: Value)
    requires
        h.wf(),
    ensures
        forall|lengths: Seq<u64>| #[trigger] h.holds(lengths) ==> v@ == lengths_json(lengths),
{
    match figures(h) {
        None => Value::Null,
        Some(f) => {
            let mut fields = start();
            put(&mut fields, "min", count_value(f.min));
            put(&mut fields, "p50", count_value(f.p50));
            put(&mut fields, "p90", count_value(f.p90));
            put(&mut fields, "p99", count_value(f.p99));
            put(&mut fields, "max", count_value(f.max));
            put(&mut fields, "mean", Value::Float(f.mean));
            proof {
                assert forall|lengths: Seq<u64>| #[trigger] h.holds(lengths) implies fields_of(
                    fields@,
                ) == lengths_json(lengths)->Object_0 by {
                    assert(fields_of(fields@) =~= lengths_json(lengths)->Object_0);
                }
            }
            object(fields)
        },
    }
}

/// One entry of the key table.
pub open spec fn key_json(entry: KeyUse) -> Json {
    Json::Object(
        seq![
            ("key"@, Json::Str(entry.key)),
            ("count"@, count_json(entry.count)),
            ("types"@, types_json(entry.types)),
        ],
    )
}

fn key_entry_to_json(entry: &KeyEntry) -> (v: Value)
    ensures
        v@ == key_json(entry@),
{
    let mut fields = start();
    put(&mut fields, "key", Value::Str(entry.key.clone()));
    put(&mut fields, "count", count_value(entry.count));
    put(&mut fields, "types", type_counts_to_json(&entry.types));
    assert(fields_of(fields@) =~= key_json(entry@)->Object_0);
    object(fields)
}

/// A value of a field with its count; the value is what its text stands for.
pub open spec fn value_json(entry: (Seq<char>, nat)) -> Json {
    Json::Object(
        seq![
            (
                "value"@,
                match document(encode_utf8(entry.0)) {
                    Ok(v) => v,
                    Err(_) => Json::Str(entry.0),
                },
            ),
            ("count"@, count_json(entry.1)),
        ],
    )
}

fn value_to_json(raw: &str, count: u64) -> (v: Value)
    ensures
        v@ == value_json((raw@, count as nat)),
{
    let value = match json::parse(raw) {
        Ok(v) => v,
        Err(_) => Value::Str(raw.to_string()),
    };
    let mut fields = start();
    put(&mut fields, "value", value);
    put(&mut fields, "count", count_value(count));
    assert(fields_of(fields@) =~= value_json((raw@, count as nat))->Object_0);
    object(fields)
}

/// The most frequent values of a field.
pub open spec fn top_json(p: Profile, top: nat) -> Json {
    Json::Array(
        Seq::new(
            top_values(p.distinct, top).len(),
            |i: int| value_json(top_values(p.distinct, top)[i]),
        ),
    )
}

/// The profile of one field.
pub open spec fn field_json(path: Seq<char>, p: Profile, top: nat) -> Json {
    Json::Object(
        seq![
            ("path"@, Json::Str(path)),
            ("records_present"@, count_json(p.present)),
            ("values"@, count_json(p.values)),
            ("types"@, types_json(p.types)),
            ("distinct"@, count_json(p.distinct.dom().len())),
            ("truncated"@, Json::Bool(p.distinct.dom().len() >= MAX_FIELD_VALUES)),
            ("top"@, top_json(p, top)),
        ],
    )
}

fn field_stats_to_json(field: &FieldStats, top: usize) -> (v: Value)
    requires
        field.wf(),
    ensures
        v@ == field_json(field.path.text(), field@, top as nat),
{
    let ranked = field.top(top);
    let ghost pairs = top_values(field@.distinct, top as nat);
    let mut items: Vec<Value> = Vec::new();
    let mut i: usize = 0;
    while i < ranked.len()
        invariant
            i <= ranked@.len(),
            pairs == pairs_of(ranked@),
            meanings(items@) =~= Seq::new(i as nat, |j: int| value_json(pairs[j])),
        decreases ranked@.len() - i,
    {
        let (raw, count) = ranked[i];
        add_item(&mut items, value_to_json(raw, count));
        i += 1;
    }
    let values = array(items);
    proof {
        assert(pairs.len() == ranked@.len());
        assert(values@->Array_0 =~= top_json(field@, top as nat)->Array_0);
    }
    let mut fields = start();
    put(&mut fields, "path", Value::Str(field.path.to_string()));
    put(&mut fields, "records_present", count_value(field.records_present));
    put(&mut fields, "values", count_value(field.values));
    put(&mut fields, "types", type_counts_to_json(&field.types));
    put(&mut fields, "distinct", count_value(field.distinct() as u64));
    put(&mut fields, "truncated", Value::Bool(field.truncated()));
    put(&mut fields, "top", values);
    assert(fields_of(fields@) =~= field_json(
        field.path.text(),
        field@,
        top as nat,
    )->Object_0);
    object(fields)
}

/// One broken line.
pub open spec fn issue_json(flaw: Flaw) -> Json {
    Json::Object(
        seq![
            ("line"@, count_json(flaw.line)),
            ("column"@, count_json(flaw.column)),
            ("reason"@, Json::Str(flaw.reason)),
        ],
    )
}

fn issue_to_json(issue: &Issue) -> (v: Value)
    ensures
        v@ == issue_json(issue@),
{
    let mut fields = start();
    put(&mut fields, "line", count_value(issue.line));
    put(&mut fields, "column", count_value(issue.column as u64));
    put(&mut fields, "reason", Value::Str(issue.reason.clone()));
    assert(fields_of(fields@) =~= issue_json(issue@)->Object_0);
    object(fields)
}

/// The key table.
pub open spec fn keys_json(entries: Seq<KeyUse>) -> Json {
    Json::Array(Seq::new(entries.len(), |i: int| key_json(entries[i])))
}

fn keys_to_json(entries: &[KeyEntry]) -> (v: Value)
    ensures
        v@ == keys_json(uses_of(entries@)),
{
    let mut items: Vec<Value> = Vec::new();
    let mut i: usize = 0;
    while i < entries.len()
        invariant
            i <= entries@.len(),
            meanings(items@) =~= Seq::new(i as nat, |j: int| key_json(entries@[j]@)),
        decreases entries@.len() - i,
    {
        add_item(&mut items, key_entry_to_json(&entries[i]));
        i += 1;
    }
    assert(meanings(items@) =~= keys_json(uses_of(entries@))->Array_0);
    array(items)
}

/// The profiles of the fields.
pub open spec fn fields_json(fields: Seq<FieldStats>, top: nat) -> Json {
    Json::Array(
        Seq::new(fields.len(), |i: int| field_json(fields[i].path.text(), fields[i]@, top)),
    )
}

fn fields_to_json(fields: &Vec<FieldStats>, top: usize) -> (v: Value)
    requires
        forall|i: int| 0 <= i < fields@.len() ==> (#[trigger] fields@[i]).wf(),
    ensures
        v@ == fields_json(fields@, top as nat),
{
    let mut items: Vec<Value> = Vec::new();
    let mut i: usize = 0;
    while i < fields.len()
        invariant
            forall|j: int| 0 <= j < fields@.len() ==> (#[trigger] fields@[j]).wf(),
            i <= fields@.len(),
            meanings(items@) =~= Seq::new(
                i as nat,
                |j: int| field_json(fields@[j].path.text(), fields@[j]@, top as nat),
            ),
        decreases fields@.len() - i,
    {
        add_item(&mut items, field_stats_to_json(&fields[i], top));
        i += 1;
    }
    assert(meanings(items@) =~= fields_json(fields@, top as nat)->Array_0);
    array(items)
}

/// The broken lines.
pub open spec fn issues_json(flaws: Seq<Flaw>) -> Json {
    Json::Array(Seq::new(flaws.len(), |i: int| issue_json(flaws[i])))
}

fn issues_to_json(issues: &Vec<Issue>) -> (v: Value)
    ensures
        v@ == issues_json(flaws_of(issues@)),
{
    let mut items: Vec<Value> = Vec::new();
    let mut i: usize = 0;
    while i < issues.len()
        invariant
            i <= issues@.len(),
            meanings(items@) =~= Seq::new(i as nat, |j: int| issue_json(issues@[j]@)),
        decreases issues@.len() - i,
    {
        add_item(&mut items, issue_to_json(&issues[i]));
        i += 1;
    }
    assert(meanings(items@) =~= issues_json(flaws_of(issues@))->Array_0);
    array(items)
}

/// The report of a statistics pass over lines of the given lengths.
pub open spec fn stats_json(stats: Stats, lengths: Seq<u64>, top: nat) -> Json {
    Json::Object(
        seq![
            ("lines"@, count_json(stats.lines as nat)),
            ("blank"@, count_json(stats.blank as nat)),
            ("valid"@, count_json(stats.valid as nat)),
            ("invalid"@, count_json(stats.invalid as nat)),
            ("bytes"@, count_json(stats.bytes as nat)),
            ("top_level_types"@, types_json(stats.top_level_types@)),
            ("line_length"@, lengths_json(lengths)),
            ("keys"@, keys_json(stats.keys@.entries)),
            ("fields"@, fields_json(stats.fields@, top)),
            ("issues"@, issues_json(flaws_of(stats.issues@))),
            ("issues_truncated"@, Json::Bool(stats.issues_truncated)),
        ],
    )
}

/// The report of a statistics pass, with the `top` most frequent values of
/// each field.
pub fn stats_to_json(stats: &Stats, top: usize) -> (v: Value)
    requires
        stats.wf(),
    ensures
        forall|lengths: Seq<u64>| #[trigger]
            stats.line_length.holds(lengths) ==> v@ == stats_json(*stats, lengths, top as nat),
{
    let mut fields = start();
    put(&mut fields, "lines", count_value(stats.lines));
    put(&mut fields, "blank", count_value(stats.blank));
    put(&mut fields, "valid", count_value(stats.valid));
    put(&mut fields, "invalid", count_value(stats.invalid));
    put(&mut fields, "bytes", count_value(stats.bytes));
    put(&mut fields, "top_level_types", type_counts_to_json(&stats.top_level_types));
    put(&mut fields, "line_length", line_length_to_json(&stats.line_length));
    put(&mut fields, "keys", keys_to_json(stats.keys.entries()));
    put(&mut fields, "fields", fields_to_json(&stats.fields, top));
    put(&mut fields, "issues", issues_to_json(&stats.issues));
    put(&mut fields, "issues_truncated", Value::Bool(stats.issues_truncated));
    proof {
        assert forall|lengths: Seq<u64>| #[trigger]
            stats.line_length.holds(lengths) implies fields_of(fields@) == stats_json(
            *stats,
            lengths,
            top as nat,
        )->Object_0 by {
            assert(fields_of(fields@) =~= stats_json(*stats, lengths, top as nat)->Object_0);
        }
    }
    object(fields)
}

/// One discovered path.
pub open spec fn path_json(entry: (Seq<char>, Found), records: nat) -> Json {
    Json::Object(
        seq![
            ("path"@, Json::Str(entry.0)),
            ("records_present"@, count_json(entry.1.present)),
            ("values"@, count_json(entry.1.values)),
            ("rate"@, Json::Float(share(entry.1.present, records))),
            ("types"@, types_json(entry.1.types)),
        ],
    )
}

fn path_entry_to_json(entry: &PathEntry, records: u64) -> (v: Value)
    ensures
        v@ == path_json((entry.path@, entry@), records as nat),
{
    let mut fields = start();
    put(&mut fields, "path", Value::Str(entry.path.clone()));
    put(&mut fields, "records_present", count_value(entry.records_present));
    put(&mut fields, "values", count_value(entry.values));
    put(&mut fields, "rate", Value::Float(entry.rate(records)));
    put(&mut fields, "types", type_counts_to_json(&entry.types));
    assert(fields_of(fields@) =~= path_json((entry.path@, entry@), records as nat)->Object_0);
    object(fields)
}

/// The discovered paths.
pub open spec fn paths_json(paths: Seq<(Seq<char>, Found)>, records: nat) -> Json {
    Json::Array(Seq::new(paths.len(), |i: int| path_json(paths[i], records)))
}

/// The report of a schema pass.
pub open spec fn schema_json(schema: Schema) -> Json {
    Json::Object(
        seq![
            ("records"@, count_json(schema.records as nat)),
            ("depth"@, count_json(schema.depth as nat)),
            ("truncated"@, Json::Bool(schema.truncated)),
            ("skipped"@, count_json(schema.skipped as nat)),
            ("paths"@, paths_json(found_of(schema.paths@), schema.records as nat)),
        ],
    )
}

/// The report of a schema pass.
pub fn schema_to_json(schema: &Schema) -> (v: Value)
    ensures
        v@ == schema_json(*schema),
{
    let ghost found = found_of(schema.paths@);
    let mut items: Vec<Value> = Vec::new();
    let mut i: usize = 0;
    while i < schema.paths.len()
        invariant
            i <= schema.paths@.len(),
            found == found_of(schema.paths@),
            meanings(items@) =~= Seq::new(
                i as nat,
                |j: int| path_json(found[j], schema.records as nat),
            ),
        decreases schema.paths@.len() - i,
    {
        add_item(&mut items, path_entry_to_json(&schema.paths[i], schema.records));
        i += 1;
    }
    let paths = array(items);
    proof {
        assert(found.len() == schema.paths@.len());
        assert(paths@->Array_0 =~= paths_json(found, schema.records as nat)->Array_0);
    }
    let mut fields = start();
    put(&mut fields, "records", count_value(schema.records));
    put(&mut fields, "depth", count_value(schema.depth as u64));
    put(&mut fields, "truncated", Value::Bool(schema.truncated));
    put(&mut fields, "skipped", count_value(schema.skipped));
    put(&mut fields, "paths", paths);
    assert(fields_of(fields@) =~= schema_json(*schema)->Object_0);
    object(fields)
}

} // verus!
