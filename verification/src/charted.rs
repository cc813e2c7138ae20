//! What the reports of a schema pass say about the lines of a file.

use vstd::prelude::*;
use vstd::utf8::*;

use crate::binary64::{
    below, lemma_rounds_bounded, lemma_rounds_exists, nearest, rank, small_quotients_are_nearest,
};
use crate::discovery::{
    discovery, frequent, presence_is_a_share, rates_lie_between_zero_and_one, share, Found,
};
use crate::exact::{all_selected, counted, has_type, how_many, is_present, records_of};
use crate::found::{
    discovered_counts_read_back, listed_paths_are_those_that_select, paths_are_counted_exactly,
    selecting_paths,
};
use crate::json::{member, Json};
use crate::json_report::{path_json, paths_json, schema_json, types_json};
use crate::order::{bytes_before, text_before};
use crate::path::path_steps;
use crate::profile::{ranking, rankings_hold_every_entry, ranks_before};
use crate::report::{
    grouped_text, left_in, path_rows, percent_text, plain_types_text, right_in, rows_text,
    schema_text,
};
use crate::reported::{
    counts, holds_a_document, lemma_counts_of_types, lemma_lines, lemma_member, names_of,
};
use crate::schema::{found_of, Schema};
use crate::text::decimal_text;

verus! {

proof fn lemma_schema_members(schema: Schema)
    ensures
        ({
            let r = schema_json(schema);
            &&& member(r, "records"@) == Some(Json::Int(schema.records as i64))
            &&& member(r, "depth"@) == Some(Json::Int(schema.depth as i64))
            &&& member(r, "truncated"@) == Some(Json::Bool(schema.truncated))
            &&& member(r, "skipped"@) == Some(Json::Int(schema.skipped as i64))
            &&& member(r, "paths"@) == Some(
                paths_json(found_of(schema.paths@), schema.records as nat),
            )
        }),
{
    reveal_strlit("records");
    reveal_strlit("depth");
    reveal_strlit("truncated");
    reveal_strlit("skipped");
    reveal_strlit("paths");
    assert("records"@.len() == 7 && "depth"@.len() == 5 && "truncated"@.len() == 9);
    assert("skipped"@.len() == 7 && "paths"@.len() == 5);
    assert("records"@[0] != "skipped"@[0] && "depth"@[0] != "paths"@[0]);
    let fields = schema_json(schema)->Object_0;
    lemma_member(fields, 0);
    lemma_member(fields, 1);
    lemma_member(fields, 2);
    lemma_member(fields, 3);
    lemma_member(fields, 4);
}

proof fn lemma_path_members(entry: (Seq<char>, Found), records: nat)
    ensures
        ({
            let r = path_json(entry, records);
            &&& member(r, "path"@) == Some(Json::Str(entry.0))
            &&& member(r, "records_present"@) == Some(Json::Int(entry.1.present as i64))
            &&& member(r, "values"@) == Some(Json::Int(entry.1.values as i64))
            &&& member(r, "rate"@) == Some(Json::Float(share(entry.1.present, records)))
            &&& member(r, "types"@) == Some(types_json(entry.1.types))
        }),
{
    reveal_strlit("path");
    reveal_strlit("records_present");
    reveal_strlit("values");
    reveal_strlit("rate");
    reveal_strlit("types");
    assert("path"@.len() == 4 && "records_present"@.len() == 15 && "values"@.len() == 6);
    assert("rate"@.len() == 4 && "types"@.len() == 5);
    assert("path"@[0] != "rate"@[0]);
    let fields = path_json(entry, records)->Object_0;
    lemma_member(fields, 0);
    lemma_member(fields, 1);
    lemma_member(fields, 2);
    lemma_member(fields, 3);
    lemma_member(fields, 4);
}

/// The schema of a file in JSON counts the lines that hold a document and the
/// others, and lists its paths in their order.
pub proof fn json_schemas_count_the_lines(
    schema: Schema,
    lines: Seq<Seq<u8>>,
    depth: nat,
    min_rate: u64,
)
    requires
        schema.reports(discovery(lines, depth), min_rate),
    ensures
        ({
            let r = schema_json(schema);
            let documents = how_many(lines, holds_a_document());
            &&& member(r, "records"@) == Some(Json::Int(documents as i64))
            &&& member(r, "skipped"@) == Some(Json::Int((lines.len() - documents) as i64))
            &&& member(r, "depth"@) == Some(Json::Int(schema.depth as i64))
            &&& member(r, "truncated"@) == Some(
                Json::Bool(discovery(lines, depth).found.dom().len() >= 2000),
            )
            &&& member(r, "paths"@) matches Some(Json::Array(list))
            &&& list.len() == schema.paths@.len()
        }),
{
    lemma_schema_members(schema);
    lemma_lines(lines);
    paths_are_counted_exactly(lines, depth);
}

/// The share of some of the records is the binary number nearest to it.
pub proof fn rates_are_nearest(present: nat, records: nat)
    requires
        present <= 0x20_0000_0000_0000,
        0 < records <= 0x20_0000_0000_0000,
    ensures
        share(present, records) == nearest(present, records) as u64,
        share(present, 0) == 0,
{
    small_quotients_are_nearest(present, records);
}

/// A listed path in the schema of a file: the number of documents in which it
/// selects something, the number of values that it selects, their types, and
/// the share of all documents. The share reaches the least one asked for.
pub proof fn json_schemas_describe_the_paths(
    schema: Schema,
    lines: Seq<Seq<u8>>,
    depth: nat,
    min_rate: u64,
    k: int,
)
    requires
        schema.reports(discovery(lines, depth), min_rate),
        0 <= k < schema.paths@.len(),
        0 < lines.len() <= 0x20_0000_0000_0000,
    ensures
        ({
            let records = records_of(lines);
            let path = schema.paths@[k].path@;
            &&& member(schema_json(schema), "paths"@) matches Some(Json::Array(list))
            &&& list.len() == schema.paths@.len()
            &&& path_steps(encode_utf8(path)) matches Ok(steps)
            &&& ({
                let present = how_many(records, is_present(steps));
                let values = all_selected(steps, records);
                let rate = nearest(present, records.len()) as u64;
                &&& member(list[k], "path"@) == Some(Json::Str(path))
                &&& member(list[k], "records_present"@) == Some(Json::Int(present as i64))
                &&& member(list[k], "values"@) == Some(Json::Int(values.len() as i64))
                &&& member(list[k], "rate"@) == Some(Json::Float(rate))
                &&& below(0, min_rate) ==> rank(rate) >= rank(min_rate)
                &&& forall|name: Seq<char>| #[trigger]
                    counts(member(list[k], "types"@), name, how_many(values, has_type(name)))
            })
        }),
{
    let d = discovery(lines, depth);
    let records = records_of(lines);
    let found = found_of(schema.paths@);
    let entry = found[k];
    let path = schema.paths@[k].path@;
    assert(entry.0 == path);
    assert(d.found.dom().contains(found[k].0) && d.found[entry.0] == entry.1);
    discovered_counts_read_back(lines, depth, path);
    paths_are_counted_exactly(lines, depth);
    presence_is_a_share(lines, depth, path);
    lemma_schema_members(schema);
    lemma_path_members(entry, schema.records as nat);
    let steps = path_steps(encode_utf8(path))->Ok_0;
    let values = all_selected(steps, records);
    let list = paths_json(found, schema.records as nat)->Array_0;
    assert(list[k] == path_json(entry, schema.records as nat));
    lemma_some_record(lines, depth, path);
    rates_are_nearest(entry.1.present, records.len());
    assert forall|name: Seq<char>| #[trigger]
        counts(member(list[k], "types"@), name, how_many(values, has_type(name))) by {
        lemma_counts_of_types(entry.1.types, name);
        assert(counted(entry.1.types, name) == how_many(values, has_type(name)));
    }
}

/// Where a path is listed there is a record.
proof fn lemma_some_record(lines: Seq<Seq<u8>>, depth: nat, path: Seq<char>)
    requires
        discovery(lines, depth).found.dom().contains(path),
    ensures
        discovery(lines, depth).records > 0,
    decreases lines.len(),
{
    if lines.len() > 0 {
        let rest = lines.drop_last();
        paths_are_counted_exactly(lines, depth);
        paths_are_counted_exactly(rest, depth);
        if discovery(rest, depth).found.dom().contains(path) {
            lemma_some_record(rest, depth, path);
        }
    }
}

/// Whether two runs of bytes agree up to an offset, at which the first ends or
/// has a smaller byte.
pub open spec fn falls_behind(a: Seq<u8>, b: Seq<u8>, n: int) -> bool {
    &&& 0 <= n <= a.len()
    &&& n < b.len()
    &&& forall|i: int| 0 <= i < n ==> #[trigger] a[i] == b[i]
    &&& n == a.len() || a[n] < b[n]
}

/// One run of bytes is before another where the first byte in which they
/// differ is smaller, or where it is the beginning of the other.
pub proof fn bytes_are_compared_in_turn(a: Seq<u8>, b: Seq<u8>)
    ensures
        bytes_before(a, b) <==> exists|n: int| falls_behind(a, b, n),
    decreases a.len(),
{
    if b.len() > 0 && a.len() > 0 && a[0] == b[0] {
        let (c, d) = (a.drop_first(), b.drop_first());
        bytes_are_compared_in_turn(c, d);
        if exists|n: int| falls_behind(c, d, n) {
            let n = choose|n: int| falls_behind(c, d, n);
            assert forall|i: int| 0 <= i < n + 1 implies #[trigger] a[i] == b[i] by {
                if i > 0 {
                    assert(c[i - 1] == d[i - 1]);
                }
            }
            assert(falls_behind(a, b, n + 1));
        }
        if exists|n: int| falls_behind(a, b, n) {
            let n = choose|n: int| falls_behind(a, b, n);
            assert forall|i: int| 0 <= i < n - 1 implies #[trigger] c[i] == d[i] by {
                assert(a[i + 1] == b[i + 1]);
            }
            assert(falls_behind(c, d, n - 1));
        }
    } else if b.len() > 0 {
        if a.len() == 0 || a[0] < b[0] {
            assert(falls_behind(a, b, 0));
        } else if exists|n: int| falls_behind(a, b, n) {
            let n = choose|n: int| falls_behind(a, b, n);
            assert(n > 0 ==> a[0] == b[0]);
        }
    }
}

/// A listed path is before the ones behind it: the first byte in which they
/// differ is smaller, or it is the beginning of the other.
pub proof fn schemas_list_the_paths_in_order(
    schema: Schema,
    lines: Seq<Seq<u8>>,
    depth: nat,
    min_rate: u64,
    i: int,
    j: int,
)
    requires
        schema.reports(discovery(lines, depth), min_rate),
        0 <= i < j < schema.paths@.len(),
    ensures
        exists|n: int|
            falls_behind(
                encode_utf8(schema.paths@[i].path@),
                encode_utf8(schema.paths@[j].path@),
                n,
            ),
{
    let found = found_of(schema.paths@);
    assert(text_before(found[i].0, found[j].0));
    bytes_are_compared_in_turn(
        encode_utf8(schema.paths@[i].path@),
        encode_utf8(schema.paths@[j].path@),
    );
}

/// The most frequent values come first, and of values that are as frequent the
/// one whose text is before the other.
pub proof fn rankings_go_by_count_then_text(table: Map<Seq<char>, nat>, i: int, j: int)
    requires
        table.dom().finite(),
        0 <= i < j < ranking(table).len(),
    ensures
        ({
            let (a, b) = (ranking(table)[i], ranking(table)[j]);
            a.1 > b.1 || (a.1 == b.1 && exists|n: int|
                falls_behind(encode_utf8(a.0), encode_utf8(b.0), n))
        }),
{
    rankings_hold_every_entry(table);
    let (a, b) = (ranking(table)[i], ranking(table)[j]);
    assert(ranks_before(a, b));
    bytes_are_compared_in_turn(encode_utf8(a.0), encode_utf8(b.0));
}

/// The printed schema of a file gives the number of lines that hold a
/// document, then the paths in their order, each with its share of these
/// lines, and the number of other lines if there are any.
pub proof fn printed_schemas_describe_the_lines(
    schema: Schema,
    lines: Seq<Seq<u8>>,
    depth: nat,
    min_rate: u64,
)
    requires
        schema.reports(discovery(lines, depth), min_rate),
    ensures
        ({
            let documents = how_many(lines, holds_a_document());
            let others = (lines.len() - documents) as nat;
            let rows = path_rows(found_of(schema.paths@), documents);
            schema_text(schema) == decimal_text(documents) + " records, depth "@ + decimal_text(
                schema.depth as nat,
            ) + "\n\n  "@ + left_in("path"@, 40) + " "@ + right_in("rate"@, 7) + "  types\n"@
                + rows_text(rows) + (if discovery(lines, depth).found.dom().len() >= 2000 {
                "  ... path table truncated at "@ + decimal_text(2000) + " distinct paths\n"@
            } else {
                Seq::empty()
            }) + if others > 0 {
                "\n"@ + grouped_text(others) + " unparseable lines skipped\n"@
            } else {
                Seq::empty()
            }
        }),
{
    lemma_lines(lines);
    paths_are_counted_exactly(lines, depth);
}

/// A row of the printed schema: the path, its share of the documents and the
/// types of the values that it selects.
pub proof fn printed_paths_show_their_share(
    schema: Schema,
    lines: Seq<Seq<u8>>,
    depth: nat,
    min_rate: u64,
    k: int,
)
    requires
        schema.reports(discovery(lines, depth), min_rate),
        0 <= k < schema.paths@.len(),
    ensures
        ({
            let records = records_of(lines);
            let path = schema.paths@[k].path@;
            &&& path_steps(encode_utf8(path)) matches Ok(steps)
            &&& path_rows(found_of(schema.paths@), schema.records as nat)[k] == "  "@ + left_in(
                path,
                40,
            ) + " "@ + right_in(
                percent_text(how_many(records, is_present(steps)), records.len()),
                7,
            ) + "  "@ + plain_types_text(schema.paths@[k]@.types) + "\n"@
        }),
{
    let d = discovery(lines, depth);
    let found = found_of(schema.paths@);
    assert(d.found.dom().contains(found[k].0));
    discovered_counts_read_back(lines, depth, schema.paths@[k].path@);
    paths_are_counted_exactly(lines, depth);
}

/// The members of the schema in JSON come in a fixed order, and there are no
/// others.
pub proof fn json_schemas_have_their_members_in_order(
    schema: Schema,
    entry: (Seq<char>, Found),
    records: nat,
)
    ensures
        names_of(schema_json(schema)) == seq![
            "records"@,
            "depth"@,
            "truncated"@,
            "skipped"@,
            "paths"@,
        ],
        names_of(path_json(entry, records)) == seq![
            "path"@,
            "records_present"@,
            "values"@,
            "rate"@,
            "types"@,
        ],
{
    assert(names_of(schema_json(schema)) =~= seq![
        "records"@,
        "depth"@,
        "truncated"@,
        "skipped"@,
        "paths"@,
    ]);
    assert(names_of(path_json(entry, records)) =~= seq![
        "path"@,
        "records_present"@,
        "values"@,
        "rate"@,
        "types"@,
    ]);
}

/// A path that selects something is left out only where the table is full or
/// where its share is below the least one asked for.
pub proof fn schemas_leave_out_only_rare_paths(
    schema: Schema,
    lines: Seq<Seq<u8>>,
    depth: nat,
    min_rate: u64,
    path: Seq<char>,
)
    requires
        schema.reports(discovery(lines, depth), min_rate),
        selecting_paths(records_of(lines), depth).contains(path),
        selecting_paths(records_of(lines), depth).len() < 2000,
        0 < lines.len() <= 0x20_0000_0000_0000,
    ensures
        ({
            let records = records_of(lines);
            &&& path_steps(encode_utf8(path)) matches Ok(steps)
            &&& ({
                let rate = nearest(how_many(records, is_present(steps)), records.len());
                below(0, min_rate) ==> rate >= rank(min_rate)
            } <==> exists|k: int|
                0 <= k < schema.paths@.len() && (#[trigger] schema.paths@[k]).path@ == path)
        }),
{
    let d = discovery(lines, depth);
    let records = records_of(lines);
    let list = found_of(schema.paths@);
    listed_paths_are_those_that_select(lines, depth);
    assert(d.found.dom().contains(path));
    discovered_counts_read_back(lines, depth, path);
    paths_are_counted_exactly(lines, depth);
    presence_is_a_share(lines, depth, path);
    lemma_some_record(lines, depth, path);
    let f = d.found[path];
    rates_are_nearest(f.present, records.len());
    rates_lie_between_zero_and_one(f.present, records.len());
    lemma_rounds_exists(f.present, records.len());
    lemma_rounds_bounded(f.present, records.len(), nearest(f.present, records.len()));
    if frequent(f, d.records, min_rate) {
        let k = choose|k: int| 0 <= k < list.len() && (#[trigger] list[k]).0 == path;
        assert(schema.paths@[k].path@ == path);
    }
    if exists|k: int| 0 <= k < schema.paths@.len() && (#[trigger] schema.paths@[k]).path@ == path {
        let k = choose|k: int|
            0 <= k < schema.paths@.len() && (#[trigger] schema.paths@[k]).path@ == path;
        assert(list[k].0 == path);
        assert(frequent(list[k].1, d.records, min_rate));
    }
}

} // verus!
