//! What the reports of a file say about its lines.

use vstd::prelude::*;
use vstd::utf8::*;

use crate::binary64::nearest;
use crate::exact::{
    all_selected, counted, fields_are_profiled_exactly, flaws_on, has_key, has_key_of_type,
    has_text, has_type, how_many, is_blank, is_broken, is_present, keys_are_counted_exactly,
    lemma_key_place, lengths_of, lines_are_counted_exactly, records_of, types_are_counted_exactly,
    use_of,
};
use crate::grammar::document;
use crate::hist::{
    is_largest, is_quantile, is_smallest, lemma_extremes, lemma_quantile_unique, means_are_exact,
    total,
};
use crate::json::{first_member, kind_text, member, Json};
use crate::json_report::{
    count_json, field_json, fields_json, issue_json, issues_json, key_json, keys_json, lengths_json,
    stats_json, top_json, types_json, value_json,
};
use crate::laws::failures_point_into_the_document;
use crate::lines::blank;
use crate::path::{FieldPath, Step};
use crate::profile::{
    place_of, place_of_key, ranking, rankings_hold_every_entry, summaries_add_up, summary,
    tally_total, top_values, valid_up_to, Flaw, KeyUse, Profile, Tally,
};
use crate::ranks::reported_quantiles_are_the_named_ones;
use crate::report::{HALF, NINETY_NINE_HUNDREDTHS, NINE_TENTHS};
use crate::stats::{paths_of, profiles_of, Stats};
use crate::text::is_valid_up_to;

verus! {

/// Whether a line is not blank and holds a document.
pub open spec fn holds_a_document() -> spec_fn(Seq<u8>) -> bool {
    |line: Seq<u8>| !blank(line) && valid_utf8(line) && document(line) is Ok
}

/// Whether a line is not blank and holds no document.
pub open spec fn holds_no_document() -> spec_fn(Seq<u8>) -> bool {
    |line: Seq<u8>| !blank(line) && !(valid_utf8(line) && document(line) is Ok)
}

/// Whether a line has no bytes but spaces, tabs, line feeds, form feeds and
/// carriage returns.
pub open spec fn holds_nothing() -> spec_fn(Seq<u8>) -> bool {
    |line: Seq<u8>|
        forall|i: int|
            0 <= i < line.len() ==> (#[trigger] line[i] == 32 || line[i] == 9 || line[i] == 10
                || line[i] == 12 || line[i] == 13)
}

pub proof fn lemma_lines(lines: Seq<Seq<u8>>)
    ensures
        how_many(lines, holds_a_document()) == records_of(lines).len(),
        how_many(lines, holds_no_document()) == how_many(lines, is_broken()),
        how_many(lines, holds_nothing()) == how_many(lines, is_blank()),
    decreases lines.len(),
{
    if lines.len() > 0 {
        let line = lines.last();
        lemma_lines(lines.drop_last());
        assert(holds_nothing()(line) == blank(line)) by {
            if blank(line) {
                assert forall|i: int| 0 <= i < line.len() implies (#[trigger] line[i] == 32
                    || line[i] == 9 || line[i] == 10 || line[i] == 12 || line[i] == 13) by {
                    assert(crate::lines::is_white(line[i]));
                }
            }
            if holds_nothing()(line) {
                assert forall|i: int| 0 <= i < line.len() implies crate::lines::is_white(
                    #[trigger] line[i],
                ) by {}
            }
        }
    }
}

/// The first member that has a name is found under it.
pub proof fn lemma_member(fields: Seq<(Seq<char>, Json)>, i: int)
    requires
        0 <= i < fields.len(),
        forall|j: int| 0 <= j < i ==> (#[trigger] fields[j]).0 != fields[i].0,
    ensures
        member(Json::Object(fields), fields[i].0) == Some(fields[i].1),
{
    crate::selection::keys_select_the_first_member_of_their_name(fields, fields[i].0, i);
}

proof fn lemma_stats_names()
    ensures
        "lines"@ != "blank"@,
        "lines"@ != "valid"@,
        "lines"@ != "bytes"@,
        "blank"@ != "valid"@,
        "blank"@ != "bytes"@,
        "valid"@ != "bytes"@,
        "fields"@ != "issues"@,
        "lines"@.len() == 5,
        "blank"@.len() == 5,
        "valid"@.len() == 5,
        "bytes"@.len() == 5,
        "invalid"@.len() == 7,
        "top_level_types"@.len() == 15,
        "line_length"@.len() == 11,
        "keys"@.len() == 4,
        "fields"@.len() == 6,
        "issues"@.len() == 6,
        "issues_truncated"@.len() == 16,
{
    reveal_strlit("lines");
    reveal_strlit("blank");
    reveal_strlit("valid");
    reveal_strlit("bytes");
    reveal_strlit("invalid");
    reveal_strlit("top_level_types");
    reveal_strlit("line_length");
    reveal_strlit("keys");
    reveal_strlit("fields");
    reveal_strlit("issues");
    reveal_strlit("issues_truncated");
    assert("lines"@[0] == 'l');
    assert("blank"@[0] == 'b');
    assert("blank"@[1] == 'l');
    assert("valid"@[0] == 'v');
    assert("bytes"@[0] == 'b');
    assert("bytes"@[1] == 'y');
    assert("fields"@[0] == 'f');
    assert("issues"@[0] == 'i');
}

/// What stands under each name of a report in JSON.
pub proof fn lemma_stats_members(stats: Stats, lengths: Seq<u64>, top: nat)
    ensures
        ({
            let r = stats_json(stats, lengths, top);
            &&& member(r, "lines"@) == Some(Json::Int(stats.lines as i64))
            &&& member(r, "blank"@) == Some(Json::Int(stats.blank as i64))
            &&& member(r, "valid"@) == Some(Json::Int(stats.valid as i64))
            &&& member(r, "invalid"@) == Some(Json::Int(stats.invalid as i64))
            &&& member(r, "bytes"@) == Some(Json::Int(stats.bytes as i64))
            &&& member(r, "top_level_types"@) == Some(types_json(stats.top_level_types@))
            &&& member(r, "line_length"@) == Some(lengths_json(lengths))
            &&& member(r, "keys"@) == Some(keys_json(stats.keys@.entries))
            &&& member(r, "fields"@) == Some(fields_json(stats.fields@, top))
            &&& member(r, "issues"@) == Some(issues_json(crate::stats::flaws_of(stats.issues@)))
            &&& member(r, "issues_truncated"@) == Some(Json::Bool(stats.issues_truncated))
        }),
{
    let r = stats_json(stats, lengths, top);
    let fields = r->Object_0;
    lemma_stats_names();
    lemma_member(fields, 0);
    lemma_member(fields, 1);
    lemma_member(fields, 2);
    lemma_member(fields, 3);
    lemma_member(fields, 4);
    lemma_member(fields, 5);
    lemma_member(fields, 6);
    lemma_member(fields, 7);
    lemma_member(fields, 8);
    lemma_member(fields, 9);
    lemma_member(fields, 10);
}

/// The report of a file counts its lines: all of them, those without anything
/// on them, those that hold a document and those that hold none. It says
/// whether broken lines were left out.
pub proof fn json_reports_count_the_lines(
    stats: Stats,
    lines: Seq<Seq<u8>>,
    paths: Seq<Seq<Step>>,
    max_errors: nat,
    top: nat,
)
    requires
        stats.sums_up(summary(lines, paths, max_errors)),
    ensures
        ({
            let r = stats_json(stats, lengths_of(lines), top);
            &&& member(r, "lines"@) == Some(Json::Int(lines.len() as i64))
            &&& member(r, "blank"@) == Some(Json::Int(how_many(lines, holds_nothing()) as i64))
            &&& member(r, "valid"@) == Some(Json::Int(how_many(lines, holds_a_document()) as i64))
            &&& member(r, "invalid"@) == Some(
                Json::Int(how_many(lines, holds_no_document()) as i64),
            )
            &&& member(r, "issues_truncated"@) == Some(
                Json::Bool(how_many(lines, holds_no_document()) > max_errors),
            )
        }),
{
    lines_are_counted_exactly(lines, paths, max_errors);
    summaries_add_up(lines, paths, max_errors);
    lemma_lines(lines);
    lemma_stats_members(stats, lengths_of(lines), top);
}

/// The sum of the numbers among the members of an object.
pub open spec fn members_sum(fields: Seq<(Seq<char>, Json)>) -> int
    decreases fields.len(),
{
    if fields.len() == 0 {
        0
    } else {
        members_sum(fields.drop_last()) + match fields.last().1 {
            Json::Int(n) => n as int,
            _ => 0,
        }
    }
}

proof fn lemma_members_sum(types: Tally)
    requires
        tally_total(types) <= i64::MAX,
    ensures
        members_sum(types_json(types)->Object_0) == tally_total(types),
    decreases types.len(),
{
    if types.len() > 0 {
        let rest = types.drop_last();
        assert(types_json(types)->Object_0.drop_last() =~= types_json(rest)->Object_0);
        lemma_members_sum(rest);
    }
}

proof fn lemma_type_member(types: Tally, name: Seq<char>, from: int)
    requires
        0 <= from <= types.len(),
    ensures
        ({
            let fields = types_json(types)->Object_0;
            let i = place_of(types, name, from);
            first_member(fields, name, from) == if i < types.len() {
                Some(count_json(types[i].1))
            } else {
                None
            }
        }),
    decreases types.len() - from,
{
    if from < types.len() {
        lemma_type_member(types, name, from + 1);
    }
}

/// Whether an object has a number under a name, or nothing for zero.
pub open spec fn counts(types: Option<Json>, name: Seq<char>, n: nat) -> bool {
    match types {
        Some(types) => match member(types, name) {
            Some(count) => count == Json::Int(n as i64),
            None => n == 0,
        },
        None => false,
    }
}

/// A tally in a report has, under each name that was counted, its count.
pub proof fn lemma_counts_of_types(types: Tally, name: Seq<char>)
    ensures
        counts(Some(types_json(types)), name, counted(types, name)),
{
    lemma_type_member(types, name, 0);
}

/// The types of the report of a file: under the name of a type stands the
/// number of documents of that type, and the numbers sum up to that of the
/// valid lines.
pub proof fn json_reports_count_the_types(
    stats: Stats,
    lines: Seq<Seq<u8>>,
    paths: Seq<Seq<Step>>,
    max_errors: nat,
    top: nat,
    name: Seq<char>,
)
    requires
        stats.sums_up(summary(lines, paths, max_errors)),
        lines.len() <= i64::MAX,
    ensures
        ({
            let r = stats_json(stats, lengths_of(lines), top);
            &&& member(r, "top_level_types"@) matches Some(types)
            &&& types matches Json::Object(fields)
            &&& member(r, "valid"@) == Some(Json::Int(members_sum(fields) as i64))
            &&& counts(Some(types), name, how_many(records_of(lines), has_type(name)))
        }),
{
    summaries_add_up(lines, paths, max_errors);
    types_are_counted_exactly(lines, paths, max_errors, name);
    lemma_stats_members(stats, lengths_of(lines), top);
    lemma_counts_of_types(stats.top_level_types@, name);
    lemma_members_sum(stats.top_level_types@);
}

/// The key table in the report of a file: each entry names a key and counts
/// the documents that have it, and those whose value under it has a given
/// type. No key stands there twice, and none is left out unless the table is
/// full.
pub proof fn json_reports_count_the_keys(
    stats: Stats,
    lines: Seq<Seq<u8>>,
    paths: Seq<Seq<Step>>,
    max_errors: nat,
    top: nat,
)
    requires
        stats.sums_up(summary(lines, paths, max_errors)),
    ensures
        ({
            let r = stats_json(stats, lengths_of(lines), top);
            let records = records_of(lines);
            let entries = stats.keys@.entries;
            &&& member(r, "keys"@) matches Some(Json::Array(list))
            &&& list.len() == entries.len()
            &&& forall|i: int|
                0 <= i < list.len() ==> {
                    let key = entries[i].key;
                    &&& member(#[trigger] list[i], "key"@) == Some(Json::Str(key))
                    &&& member(list[i], "count"@) == Some(
                        Json::Int(how_many(records, has_key(key)) as i64),
                    )
                }
            &&& forall|i: int, name: Seq<char>|
                0 <= i < list.len() ==> #[trigger] counts(
                    member(list[i], "types"@),
                    name,
                    how_many(records, has_key_of_type(entries[i].key, name)),
                )
            &&& forall|i: int, j: int|
                0 <= i < j < entries.len() ==> (#[trigger] entries[i]).key != (
                #[trigger] entries[j]).key
            &&& list.len() < 512 ==> forall|key: Seq<char>|
                how_many(records, #[trigger] has_key(key)) > 0 ==> exists|i: int|
                    0 <= i < list.len() && (#[trigger] entries[i]).key == key
        }),
{
    let records = records_of(lines);
    let keys = stats.keys@;
    let entries = keys.entries;
    keys_are_counted_exactly(lines, paths, max_errors);
    lemma_stats_members(stats, lengths_of(lines), top);
    let list = keys_json(entries)->Array_0;
    reveal_strlit("key");
    reveal_strlit("count");
    reveal_strlit("types");
    assert("count"@[0] != "types"@[0]);
    assert forall|i: int| 0 <= i < list.len() implies {
        &&& member(#[trigger] list[i], "key"@) == Some(Json::Str(entries[i].key))
        &&& member(list[i], "count"@) == Some(
            Json::Int(how_many(records, has_key(entries[i].key)) as i64),
        )
        &&& member(list[i], "types"@) == Some(types_json(entries[i].types))
    } by {
        let fields = key_json(entries[i])->Object_0;
        lemma_member(fields, 0);
        lemma_member(fields, 1);
        lemma_member(fields, 2);
        assert(entries[i].count == how_many(records, has_key(entries[i].key)));
    }
    assert forall|i: int, name: Seq<char>| 0 <= i < list.len() implies #[trigger] counts(
        member(list[i], "types"@),
        name,
        how_many(records, has_key_of_type(entries[i].key, name)),
    ) by {
        lemma_counts_of_types(entries[i].types, name);
        assert(member(list[i], "types"@) == Some(types_json(entries[i].types)));
    }
    if list.len() < 512 {
        assert forall|key: Seq<char>| how_many(records, #[trigger] has_key(key)) > 0 implies exists|
            i: int,
        | 0 <= i < list.len() && (#[trigger] entries[i]).key == key by {
            assert(use_of(keys, key) is Some);
            lemma_key_place(entries, key, 0);
            let i = place_of_key(entries, key, 0);
            assert(entries[i].key == key);
        }
    }
}

/// Some offset is the one up to which bytes are valid.
proof fn lemma_valid_up_to(bytes: Seq<u8>, limit: int)
    requires
        0 <= limit <= bytes.len(),
        forall|m: int| limit < m <= bytes.len() ==> !valid_utf8(#[trigger] bytes.take(m)),
    ensures
        is_valid_up_to(bytes, valid_up_to(bytes)),
    decreases limit,
{
    if valid_utf8(bytes.take(limit)) {
        assert(is_valid_up_to(bytes, limit));
    } else if limit > 0 {
        lemma_valid_up_to(bytes, limit - 1);
    } else {
        assert(bytes.take(0) =~= Seq::<u8>::empty());
        assert(valid_utf8(Seq::<u8>::empty()));
    }
}

/// Whether a flaw says where and why a line holds no document: the column
/// counts from one, and is that of the offset at which the text breaks off or
/// at which the document fails.
pub open spec fn tells_flaw(line: Seq<u8>, column: int, reason: Seq<char>) -> bool {
    if valid_utf8(line) {
        &&& document(line) matches Err((offset, kind))
        &&& column == offset + 1
        &&& reason == kind_text(kind)
    } else {
        &&& 1 <= column <= line.len()
        &&& valid_utf8(line.take(column - 1))
        &&& forall|m: int| column <= m <= line.len() ==> !valid_utf8(#[trigger] line.take(m))
        &&& reason == "invalid UTF-8"@
    }
}

/// The list of broken lines has the broken lines in their order: before the
/// line of the k-th entry, counted from zero, k lines are broken.
pub proof fn flaws_tell_the_broken_lines(lines: Seq<Seq<u8>>, k: int)
    requires
        0 <= k < flaws_on(lines).len(),
    ensures
        ({
            let flaw = flaws_on(lines)[k];
            let line = lines[flaw.line - 1];
            &&& 1 <= flaw.line <= lines.len()
            &&& holds_no_document()(line)
            &&& how_many(lines.take(flaw.line - 1), holds_no_document()) == k
            &&& tells_flaw(line, flaw.column as int, flaw.reason)
        }),
    decreases lines.len(),
{
    let rest = lines.drop_last();
    let line = lines.last();
    lines_are_counted_exactly(rest, Seq::empty(), 0);
    lemma_lines(rest);
    if k < flaws_on(rest).len() {
        flaws_tell_the_broken_lines(rest, k);
        let flaw = flaws_on(rest)[k];
        assert(lines.take(flaw.line - 1) =~= rest.take(flaw.line - 1));
        assert(lines[flaw.line - 1] == rest[flaw.line - 1]);
    } else {
        assert(lines.take(lines.len() - 1) =~= rest);
        if !valid_utf8(line) {
            lemma_valid_up_to(line, line.len() as int);
            assert(line.take(line.len() as int) =~= line);
        } else {
            failures_point_into_the_document(line);
        }
    }
}

/// The broken lines in the report of a file are the first ones, as many as
/// asked for, each with its number, its column and the reason.
pub proof fn json_reports_list_the_broken_lines(
    stats: Stats,
    lines: Seq<Seq<u8>>,
    paths: Seq<Seq<Step>>,
    max_errors: nat,
    top: nat,
)
    requires
        stats.sums_up(summary(lines, paths, max_errors)),
    ensures
        ({
            let r = stats_json(stats, lengths_of(lines), top);
            let broken = how_many(lines, holds_no_document());
            let flaws = flaws_on(lines);
            &&& member(r, "issues"@) matches Some(Json::Array(list))
            &&& flaws.len() == broken
            &&& list.len() == if broken < max_errors {
                broken
            } else {
                max_errors
            }
            &&& forall|k: int|
                0 <= k < list.len() ==> {
                    &&& member(#[trigger] list[k], "line"@) == Some(
                        Json::Int(flaws[k].line as i64),
                    )
                    &&& member(list[k], "column"@) == Some(Json::Int(flaws[k].column as i64))
                    &&& member(list[k], "reason"@) == Some(Json::Str(flaws[k].reason))
                }
        }),
{
    lines_are_counted_exactly(lines, paths, max_errors);
    lemma_lines(lines);
    lemma_stats_members(stats, lengths_of(lines), top);
    let flaws = flaws_on(lines);
    let listed = crate::stats::flaws_of(stats.issues@);
    let list = issues_json(listed)->Array_0;
    reveal_strlit("line");
    reveal_strlit("column");
    reveal_strlit("reason");
    assert("column"@[0] != "reason"@[0]);
    assert forall|k: int| 0 <= k < list.len() implies {
        &&& member(#[trigger] list[k], "line"@) == Some(Json::Int(flaws[k].line as i64))
        &&& member(list[k], "column"@) == Some(Json::Int(flaws[k].column as i64))
        &&& member(list[k], "reason"@) == Some(Json::Str(flaws[k].reason))
    } by {
        assert(listed[k] == flaws[k]);
        let fields = issue_json(listed[k])->Object_0;
        lemma_member(fields, 0);
        lemma_member(fields, 1);
        lemma_member(fields, 2);
    }
}

/// The distribution of the line lengths in a report: nothing without lines,
/// else the smallest and the largest length, the quantiles for a half, for
/// nine tenths and for 99 hundredths, and the quotient of the sum of the
/// lengths and their number.
pub proof fn json_reports_describe_the_lengths(
    lengths: Seq<u64>,
    min: u64,
    p50: u64,
    p90: u64,
    p99: u64,
    max: u64,
)
    requires
        is_smallest(lengths, min),
        is_quantile(lengths, nearest(1, 2) as u64, p50),
        is_quantile(lengths, nearest(9, 10) as u64, p90),
        is_quantile(lengths, nearest(99, 100) as u64, p99),
        is_largest(lengths, max),
    ensures
        lengths_json(Seq::empty()) == Json::Null,
        member(lengths_json(lengths), "min"@) == Some(Json::Int(min as i64)),
        member(lengths_json(lengths), "p50"@) == Some(Json::Int(p50 as i64)),
        member(lengths_json(lengths), "p90"@) == Some(Json::Int(p90 as i64)),
        member(lengths_json(lengths), "p99"@) == Some(Json::Int(p99 as i64)),
        member(lengths_json(lengths), "max"@) == Some(Json::Int(max as i64)),
        lengths.len() <= 0x20_0000_0000_0000 && total(lengths) <= 0x20_0000_0000_0000 ==> member(
            lengths_json(lengths),
            "mean"@,
        ) == Some(Json::Float(nearest(total(lengths), lengths.len()) as u64)),
{
    reported_quantiles_are_the_named_ones();
    lemma_extremes(lengths, min);
    lemma_extremes(lengths, max);
    lemma_quantile_unique(lengths, HALF, p50);
    lemma_quantile_unique(lengths, NINE_TENTHS, p90);
    lemma_quantile_unique(lengths, NINETY_NINE_HUNDREDTHS, p99);
    assert(lengths.len() > 0);
    reveal_strlit("min");
    reveal_strlit("p50");
    reveal_strlit("p90");
    reveal_strlit("p99");
    reveal_strlit("max");
    reveal_strlit("mean");
    assert("min"@[0] == 'm' && "min"@[1] == 'i' && "max"@[0] == 'm' && "max"@[1] == 'a');
    assert("p50"@[0] == 'p' && "p50"@[1] == '5');
    assert("p90"@[0] == 'p' && "p90"@[1] == '9' && "p90"@[2] == '0');
    assert("p99"@[0] == 'p' && "p99"@[1] == '9' && "p99"@[2] == '9');
    let fields = lengths_json(lengths)->Object_0;
    lemma_member(fields, 0);
    lemma_member(fields, 1);
    lemma_member(fields, 2);
    lemma_member(fields, 3);
    lemma_member(fields, 4);
    lemma_member(fields, 5);
    if lengths.len() <= 0x20_0000_0000_0000 && total(lengths) <= 0x20_0000_0000_0000 {
        means_are_exact(lengths);
    }
}

proof fn lemma_field_members(text: Seq<char>, p: Profile, top: nat)
    ensures
        ({
            let r = field_json(text, p, top);
            &&& member(r, "path"@) == Some(Json::Str(text))
            &&& member(r, "records_present"@) == Some(Json::Int(p.present as i64))
            &&& member(r, "values"@) == Some(Json::Int(p.values as i64))
            &&& member(r, "types"@) == Some(types_json(p.types))
            &&& member(r, "distinct"@) == Some(Json::Int(p.distinct.dom().len() as i64))
            &&& member(r, "truncated"@) == Some(Json::Bool(p.distinct.dom().len() >= 10000))
            &&& member(r, "top"@) == Some(top_json(p, top))
        }),
{
    reveal_strlit("path");
    reveal_strlit("records_present");
    reveal_strlit("values");
    reveal_strlit("types");
    reveal_strlit("distinct");
    reveal_strlit("truncated");
    reveal_strlit("top");
    assert("path"@.len() == 4 && "records_present"@.len() == 15 && "values"@.len() == 6);
    assert("types"@.len() == 5 && "distinct"@.len() == 8 && "truncated"@.len() == 9);
    assert("top"@.len() == 3);
    let fields = field_json(text, p, top)->Object_0;
    lemma_member(fields, 0);
    lemma_member(fields, 1);
    lemma_member(fields, 2);
    lemma_member(fields, 3);
    lemma_member(fields, 4);
    lemma_member(fields, 5);
    lemma_member(fields, 6);
}

proof fn lemma_value_members(entry: (Seq<char>, nat))
    ensures
        member(value_json(entry), "count"@) == Some(Json::Int(entry.1 as i64)),
        document(encode_utf8(entry.0)) matches Ok(v) ==> member(value_json(entry), "value"@) == Some(
            v,
        ),
{
    reveal_strlit("value");
    reveal_strlit("count");
    assert("value"@[0] != "count"@[0]);
    let fields = value_json(entry)->Object_0;
    lemma_member(fields, 0);
    lemma_member(fields, 1);
}

/// The profile of a field in a report: its path, the number of documents in
/// which it selects something, the number of values that it selects, their
/// types, how many of them differ, whether the table is full, and the most
/// frequent ones with the number of their occurrences.
pub proof fn json_reports_profile_the_fields(
    text: Seq<char>,
    lines: Seq<Seq<u8>>,
    paths: Seq<Seq<Step>>,
    max_errors: nat,
    i: int,
    top: nat,
)
    requires
        0 <= i < paths.len(),
    ensures
        ({
            let p = summary(lines, paths, max_errors).profiles[i];
            let r = field_json(text, p, top);
            let records = records_of(lines);
            let values = all_selected(paths[i], records);
            let listed = top_values(p.distinct, top);
            let held = p.distinct.dom().len();
            &&& member(r, "path"@) == Some(Json::Str(text))
            &&& member(r, "records_present"@) == Some(
                Json::Int(how_many(records, is_present(paths[i])) as i64),
            )
            &&& member(r, "values"@) == Some(Json::Int(values.len() as i64))
            &&& member(r, "distinct"@) == Some(Json::Int(held as i64))
            &&& member(r, "truncated"@) == Some(Json::Bool(held >= 10000))
            &&& forall|name: Seq<char>| #[trigger]
                counts(member(r, "types"@), name, how_many(values, has_type(name)))
            &&& member(r, "top"@) matches Some(Json::Array(list))
            &&& list.len() == listed.len()
            &&& forall|j: int|
                0 <= j < list.len() ==> member(#[trigger] list[j], "count"@) == Some(
                    Json::Int(how_many(values, has_text(listed[j].0)) as i64),
                )
            &&& forall|j: int|
                0 <= j < list.len() ==> (document(encode_utf8(listed[j].0)) matches Ok(v) ==> member(
                    #[trigger] list[j],
                    "value"@,
                ) == Some(v))
        }),
{
    let p = summary(lines, paths, max_errors).profiles[i];
    let r = field_json(text, p, top);
    let records = records_of(lines);
    let values = all_selected(paths[i], records);
    let listed = top_values(p.distinct, top);
    fields_are_profiled_exactly(lines, paths, max_errors, i);
    summaries_add_up(lines, paths, max_errors);
    rankings_hold_every_entry(p.distinct);
    lemma_field_members(text, p, top);
    assert forall|name: Seq<char>| #[trigger]
        counts(member(r, "types"@), name, how_many(values, has_type(name))) by {
        lemma_counts_of_types(p.types, name);
        assert(counted(p.types, name) == how_many(values, has_type(name)));
    }
    let list = top_json(p, top)->Array_0;
    assert forall|j: int| 0 <= j < list.len() implies member(#[trigger] list[j], "count"@) == Some(
        Json::Int(how_many(values, has_text(listed[j].0)) as i64),
    ) && (document(encode_utf8(listed[j].0)) matches Ok(v) ==> member(list[j], "value"@) == Some(
        v,
    )) by {
        let entry = ranking(p.distinct)[j];
        assert(listed[j] == entry);
        assert(p.distinct.dom().contains(entry.0));
        lemma_value_members(entry);
    }
}

/// The names of the members of an object, in their order.
pub open spec fn names_of(v: Json) -> Seq<Seq<char>> {
    match v {
        Json::Object(fields) => Seq::new(fields.len(), |i: int| fields[i].0),
        _ => Seq::empty(),
    }
}

/// The members of the reports come in a fixed order, and there are no others.
pub proof fn json_reports_have_their_members_in_order(
    stats: Stats,
    lengths: Seq<u64>,
    top: nat,
    key: KeyUse,
    text: Seq<char>,
    p: Profile,
    value: (Seq<char>, nat),
    flaw: Flaw,
)
    requires
        lengths.len() > 0,
    ensures
        names_of(stats_json(stats, lengths, top)) == seq![
            "lines"@,
            "blank"@,
            "valid"@,
            "invalid"@,
            "bytes"@,
            "top_level_types"@,
            "line_length"@,
            "keys"@,
            "fields"@,
            "issues"@,
            "issues_truncated"@,
        ],
        names_of(lengths_json(lengths)) == seq!["min"@, "p50"@, "p90"@, "p99"@, "max"@, "mean"@],
        names_of(key_json(key)) == seq!["key"@, "count"@, "types"@],
        names_of(field_json(text, p, top)) == seq![
            "path"@,
            "records_present"@,
            "values"@,
            "types"@,
            "distinct"@,
            "truncated"@,
            "top"@,
        ],
        names_of(value_json(value)) == seq!["value"@, "count"@],
        names_of(issue_json(flaw)) == seq!["line"@, "column"@, "reason"@],
{
    assert(names_of(stats_json(stats, lengths, top)) =~= seq![
        "lines"@,
        "blank"@,
        "valid"@,
        "invalid"@,
        "bytes"@,
        "top_level_types"@,
        "line_length"@,
        "keys"@,
        "fields"@,
        "issues"@,
        "issues_truncated"@,
    ]);
    assert(names_of(lengths_json(lengths)) =~= seq![
        "min"@,
        "p50"@,
        "p90"@,
        "p99"@,
        "max"@,
        "mean"@,
    ]);
    assert(names_of(key_json(key)) =~= seq!["key"@, "count"@, "types"@]);
    assert(names_of(field_json(text, p, top)) =~= seq![
        "path"@,
        "records_present"@,
        "values"@,
        "types"@,
        "distinct"@,
        "truncated"@,
        "top"@,
    ]);
    assert(names_of(value_json(value)) =~= seq!["value"@, "count"@]);
    assert(names_of(issue_json(flaw)) =~= seq!["line"@, "column"@, "reason"@]);
}

/// The profiles of the fields in a report are those of the fields asked for,
/// in their order.
pub proof fn json_reports_profile_every_field(
    stats: Stats,
    lines: Seq<Seq<u8>>,
    fields: Seq<FieldPath>,
    max_errors: nat,
    top: nat,
    i: int,
)
    requires
        stats.sums_up(summary(lines, paths_of(fields), max_errors)),
        stats.profiles(fields),
        0 <= i < fields.len(),
    ensures
        ({
            let r = stats_json(stats, lengths_of(lines), top);
            &&& member(r, "fields"@) matches Some(Json::Array(list))
            &&& list.len() == fields.len()
            &&& list[i] == field_json(
                fields[i].text(),
                summary(lines, paths_of(fields), max_errors).profiles[i],
                top,
            )
        }),
{
    lemma_stats_members(stats, lengths_of(lines), top);
    assert(stats.fields@[i].path == fields[i]);
    assert(profiles_of(stats.fields@)[i] == stats.fields@[i]@);
}

} // verus!
