//! What the printed reports of a file say about its lines.

use vstd::prelude::*;

use crate::binary64::{lemma_rounds_bounded, lemma_rounds_exists, nearest};
use crate::exact::{
    all_selected, fields_are_profiled_exactly, flaws_on, has_key, has_text, how_many, is_present,
    keys_are_counted_exactly, lengths_of, lines_are_counted_exactly, records_of,
    value_counts_add_up,
};
use crate::hist::{
    is_largest, is_quantile, is_smallest, lemma_extremes, lemma_quantile_unique, means_are_exact,
    total,
};
use crate::notation::tenths_text;
use crate::path::{FieldPath, Step};
use crate::profile::{
    ranking, rankings_hold_every_entry, summaries_add_up, summary, tally_total, top_values, Tally,
};
use crate::ranks::reported_quantiles_are_the_named_ones;
use crate::report::{
    counts_text, field_text, field_texts, grouped_text, issue_rows, issues_text, key_rows,
    keys_text, kibibytes_text, left_in, lengths_text, percent_text, plain_types_text, right_in,
    rows_text, stats_text, types_text, value_rows, HALF, NINETY_NINE_HUNDREDTHS, NINE_TENTHS,
};
use crate::reported::{
    flaws_tell_the_broken_lines, holds_a_document, holds_no_document, holds_nothing, lemma_lines,
    tells_flaw,
};
use crate::shares::{is_share, shares_are_rounded_to_the_nearest_tenth};
use crate::stats::{paths_of, profiles_of, Stats};
use crate::text::decimal_text;

verus! {

/// The rows of the most frequent values of a field list each value with the
/// number of its occurrences, and with their share in all the values that the
/// path selects. No number is larger than that of the values, and where the
/// table is not full and every value is asked for, the numbers sum up to it.
pub proof fn value_rows_show_shares_of_all_values(
    lines: Seq<Seq<u8>>,
    paths: Seq<Seq<Step>>,
    max_errors: nat,
    i: int,
    top: nat,
)
    requires
        0 <= i < paths.len(),
    ensures
        ({
            let p = summary(lines, paths, max_errors).profiles[i];
            let listed = top_values(p.distinct, top);
            let values = all_selected(paths[i], records_of(lines));
            let held = p.distinct.dom().len();
            &&& value_rows(p, top).len() == listed.len()
            &&& forall|j: int|
                0 <= j < listed.len() ==> {
                    let (text, count) = #[trigger] listed[j];
                    &&& count == how_many(values, has_text(text))
                    &&& count <= values.len()
                    &&& value_rows(p, top)[j] == "  "@ + right_in(grouped_text(count), 8) + "  "@
                        + right_in(percent_text(count, values.len()), 6) + "  "@ + text + "\n"@
                }
            &&& held < 10000 && held <= top ==> tally_total(listed) == values.len()
        }),
{
    let p = summary(lines, paths, max_errors).profiles[i];
    let listed = top_values(p.distinct, top);
    let values = all_selected(paths[i], records_of(lines));
    fields_are_profiled_exactly(lines, paths, max_errors, i);
    summaries_add_up(lines, paths, max_errors);
    value_counts_add_up(lines, paths, max_errors, i, top);
    rankings_hold_every_entry(p.distinct);
    assert forall|j: int| 0 <= j < listed.len() implies {
        let (text, count) = #[trigger] listed[j];
        &&& count == how_many(values, has_text(text))
        &&& count <= values.len()
        &&& value_rows(p, top)[j] == "  "@ + right_in(grouped_text(count), 8) + "  "@ + right_in(
            percent_text(count, values.len()),
            6,
        ) + "  "@ + text + "\n"@
    } by {
        let entry = ranking(p.distinct)[j];
        assert(listed[j] == entry);
        assert(p.distinct.dom().contains(entry.0));
    }
}

/// The share that is printed for a listed value is that of its occurrences in
/// all the values that the path selects, rounded to the nearest tenth of a
/// percent, and never more than a hundred percent.
pub proof fn printed_shares_are_out_of_all_values(
    lines: Seq<Seq<u8>>,
    paths: Seq<Seq<Step>>,
    max_errors: nat,
    i: int,
    top: nat,
    j: int,
) -> (t: nat)
    requires
        0 <= i < paths.len(),
        0 <= j < value_rows(summary(lines, paths, max_errors).profiles[i], top).len(),
        0 < all_selected(paths[i], records_of(lines)).len() <= 0x400_0000_0000,
    ensures
        ({
            let p = summary(lines, paths, max_errors).profiles[i];
            let (text, count) = top_values(p.distinct, top)[j];
            let values = all_selected(paths[i], records_of(lines));
            &&& t <= 1000
            &&& is_share(how_many(values, has_text(text)), values.len(), t)
            &&& value_rows(p, top)[j] == "  "@ + right_in(grouped_text(count), 8) + "  "@
                + right_in(
                decimal_text(t / 10) + seq!['.'] + decimal_text(t % 10) + seq!['%'],
                6,
            ) + "  "@ + text + "\n"@
        }),
{
    value_rows_show_shares_of_all_values(lines, paths, max_errors, i, top);
    let p = summary(lines, paths, max_errors).profiles[i];
    let (text, count) = top_values(p.distinct, top)[j];
    let values = all_selected(paths[i], records_of(lines));
    shares_are_rounded_to_the_nearest_tenth(count, values.len())
}

/// The text on a field says in how many of all the records the path selects
/// something, how many values it selects, and how many of them differ.
pub proof fn field_texts_describe_the_records(
    path: Seq<char>,
    lines: Seq<Seq<u8>>,
    paths: Seq<Seq<Step>>,
    max_errors: nat,
    i: int,
    top: nat,
)
    requires
        0 <= i < paths.len(),
    ensures
        ({
            let s = summary(lines, paths, max_errors);
            let p = s.profiles[i];
            let records = records_of(lines);
            let present = how_many(records, is_present(paths[i]));
            let held = p.distinct.dom().len();
            field_text(path, p, s.valid, top) == "\nfield "@ + path + "\n  present in "@
                + grouped_text(present) + " of "@ + grouped_text(records.len()) + " records ("@
                + percent_text(present, records.len()) + "), "@ + grouped_text(
                all_selected(paths[i], records).len(),
            ) + " values, types "@ + types_text(p.types) + "\n  "@ + grouped_text(held)
                + " distinct values\n"@ + rows_text(value_rows(p, top)) + if held >= 10000 {
                "  ... value table truncated at "@ + decimal_text(10000) + " distinct values\n"@
            } else {
                Seq::empty()
            }
        }),
{
    fields_are_profiled_exactly(lines, paths, max_errors, i);
    lines_are_counted_exactly(lines, paths, max_errors);
}

/// The head of a printed report counts the lines: all of them, those without
/// anything on them, those that hold no document and those that hold one.
pub proof fn printed_reports_count_the_lines(
    label: Seq<char>,
    stats: Stats,
    lines: Seq<Seq<u8>>,
    paths: Seq<Seq<Step>>,
    max_errors: nat,
)
    requires
        stats.sums_up(summary(lines, paths, max_errors)),
    ensures
        counts_text(label, stats) == "file    "@ + label + "\nlines   "@ + grouped_text(
            lines.len(),
        ) + "   blank "@ + grouped_text(how_many(lines, holds_nothing())) + "   invalid "@
            + grouped_text(how_many(lines, holds_no_document())) + "   valid "@ + grouped_text(
            how_many(lines, holds_a_document()),
        ) + "\nbytes   "@ + grouped_text(stats.bytes as nat) + "   ("@ + kibibytes_text(
            stats.bytes as nat,
        ) + ")\ntop level  "@ + types_text(summary(lines, paths, max_errors).types) + "\n\n"@,
{
    lines_are_counted_exactly(lines, paths, max_errors);
    lemma_lines(lines);
}

/// The table of keys has a row for each listed key, with the number of
/// documents that have it and their share of all documents.
pub proof fn key_rows_show_shares_of_all_documents(
    lines: Seq<Seq<u8>>,
    paths: Seq<Seq<Step>>,
    max_errors: nat,
    i: int,
)
    requires
        0 <= i < summary(lines, paths, max_errors).keys.entries.len(),
    ensures
        ({
            let s = summary(lines, paths, max_errors);
            let records = records_of(lines);
            let entry = s.keys.entries[i];
            let count = how_many(records, has_key(entry.key));
            key_rows(s.keys.entries, s.valid)[i] == "  "@ + left_in(entry.key, 28) + " "@ + right_in(
                grouped_text(count),
                8,
            ) + "  "@ + right_in(percent_text(count, records.len()), 6) + "  "@ + types_text(
                entry.types,
            ) + "\n"@
        }),
{
    keys_are_counted_exactly(lines, paths, max_errors);
    lines_are_counted_exactly(lines, paths, max_errors);
}

/// The table of keys has its rows in their order below a head that gives the
/// number of lines that hold a document. It says where it is full, and is left
/// out where there are no keys.
pub proof fn key_tables_hold_the_key_rows(
    lines: Seq<Seq<u8>>,
    paths: Seq<Seq<Step>>,
    max_errors: nat,
)
    ensures
        ({
            let s = summary(lines, paths, max_errors);
            let documents = how_many(lines, holds_a_document());
            let listed = s.keys.entries.len();
            &&& listed == 0 ==> keys_text(s.keys, s.valid) == Seq::<char>::empty()
            &&& listed > 0 ==> keys_text(s.keys, s.valid) == "\ntop level keys over "@
                + grouped_text(documents) + " objects\n  "@ + left_in("key"@, 28) + " "@ + right_in(
                "count"@,
                8,
            ) + "  "@ + right_in("rate"@, 6) + "  types\n"@ + rows_text(
                key_rows(s.keys.entries, documents),
            ) + if listed >= 512 {
                "  ... key table truncated at "@ + decimal_text(512) + " distinct keys\n"@
            } else {
                Seq::empty()
            }
        }),
{
    lines_are_counted_exactly(lines, paths, max_errors);
    lemma_lines(lines);
}

/// The printed list of broken lines gives the number of all of them, a row for
/// each listed one, and how many are left out.
pub proof fn printed_reports_list_the_broken_lines(
    lines: Seq<Seq<u8>>,
    paths: Seq<Seq<Step>>,
    max_errors: nat,
)
    ensures
        ({
            let s = summary(lines, paths, max_errors);
            let broken = how_many(lines, holds_no_document());
            let shown = if broken < max_errors {
                broken
            } else {
                max_errors
            };
            let flaws = flaws_on(lines);
            let text = issues_text(s.issues, s.invalid, s.issues_truncated);
            &&& flaws.len() == broken
            &&& shown == 0 ==> text == Seq::<char>::empty()
            &&& shown > 0 ==> text == "\ninvalid lines ("@ + grouped_text(broken)
                + " total, showing "@ + decimal_text(shown) + ")\n"@ + rows_text(
                issue_rows(flaws.take(shown as int)),
            ) + if broken > max_errors {
                "  ... "@ + grouped_text((broken - shown) as nat) + " more not shown\n"@
            } else {
                Seq::empty()
            }
        }),
{
    lines_are_counted_exactly(lines, paths, max_errors);
    summaries_add_up(lines, paths, max_errors);
    lemma_lines(lines);
    let flaws = flaws_on(lines);
    assert(flaws.take(flaws.len() as int) =~= flaws);
}

/// The k-th row of the broken lines, counted from zero, gives the number of
/// the line before which k lines are broken, and where and why it is broken
/// itself.
pub proof fn issue_rows_tell_line_column_and_reason(lines: Seq<Seq<u8>>, k: int) -> (r: (
    nat,
    nat,
    Seq<char>,
))
    requires
        0 <= k < flaws_on(lines).len(),
    ensures
        ({
            let (line, column, reason) = r;
            &&& 1 <= line <= lines.len()
            &&& holds_no_document()(lines[line - 1])
            &&& how_many(lines.take(line - 1), holds_no_document()) == k
            &&& tells_flaw(lines[line - 1], column as int, reason)
            &&& issue_rows(flaws_on(lines))[k] == "  line "@ + decimal_text(line) + " col "@
                + decimal_text(column) + ": "@ + reason + "\n"@
        }),
{
    flaws_tell_the_broken_lines(lines, k);
    let flaw = flaws_on(lines)[k];
    (flaw.line, flaw.column, flaw.reason)
}

/// The printed line lengths: the smallest and the largest one, the quantiles
/// for a half, for nine tenths and for 99 hundredths, and the quotient of the
/// sum of the lengths and their number, rounded to a tenth.
pub proof fn printed_reports_describe_the_lengths(
    lengths: Seq<u64>,
    min: u64,
    p50: u64,
    p90: u64,
    p99: u64,
    max: u64,
)
    requires
        is_smallest(lengths, min),
        is_quantile(lengths, nearest(1, 2) as u64, p50),
        is_quantile(lengths, nearest(9, 10) as u64, p90),
        is_quantile(lengths, nearest(99, 100) as u64, p99),
        is_largest(lengths, max),
        lengths.len() <= 0x20_0000_0000_0000,
        total(lengths) <= 0x20_0000_0000_0000,
    ensures
        lengths_text(Seq::empty()) == "line length in bytes\n"@ + "  no non-blank lines\n"@,
        lengths_text(lengths) == "line length in bytes\n"@ + ("  min "@ + decimal_text(min as nat)
            + "   p50 "@ + decimal_text(p50 as nat) + "   p90 "@ + decimal_text(p90 as nat)
            + "   p99 "@ + decimal_text(p99 as nat) + "   max "@ + decimal_text(max as nat)
            + "   mean "@ + tenths_text(nearest(total(lengths), lengths.len())) + "\n"@),
{
    reported_quantiles_are_the_named_ones();
    lemma_extremes(lengths, min);
    lemma_extremes(lengths, max);
    lemma_quantile_unique(lengths, HALF, p50);
    lemma_quantile_unique(lengths, NINE_TENTHS, p90);
    lemma_quantile_unique(lengths, NINETY_NINE_HUNDREDTHS, p99);
    assert(lengths.len() > 0);
    means_are_exact(lengths);
    lemma_rounds_exists(total(lengths), lengths.len());
    lemma_rounds_bounded(
        total(lengths),
        lengths.len(),
        nearest(total(lengths), lengths.len()),
    );
}

/// Rows are put together as they are.
pub proof fn rows_are_put_together(a: Seq<Seq<char>>, b: Seq<Seq<char>>, row: Seq<char>)
    ensures
        rows_text(a + b) == rows_text(a) + rows_text(b),
        rows_text(seq![row]) == row,
    decreases b.len(),
{
    assert(seq![row].drop_last() =~= Seq::<Seq<char>>::empty());
    assert(rows_text(Seq::<Seq<char>>::empty()) =~= Seq::<char>::empty());
    assert(rows_text(seq![row]) =~= row);
    if b.len() == 0 {
        assert(a + b =~= a);
    } else {
        rows_are_put_together(a, b.drop_last(), row);
        assert((a + b).drop_last() =~= a + b.drop_last());
        assert(rows_text(a + b) =~= rows_text(a) + rows_text(b));
    }
}

/// Types are written as their name, a colon and their count, with a space
/// between one and the next; the counts are in groups or in plain decimal.
pub proof fn types_are_written_one_after_the_other(a: Tally, b: Tally, name: Seq<char>, n: nat)
    requires
        a.len() > 0,
        b.len() > 0,
    ensures
        types_text(Seq::empty()) == Seq::<char>::empty(),
        types_text(seq![(name, n)]) == name + ":"@ + grouped_text(n),
        types_text(a + b) == types_text(a) + " "@ + types_text(b),
        plain_types_text(Seq::empty()) == Seq::<char>::empty(),
        plain_types_text(seq![(name, n)]) == name + ":"@ + decimal_text(n),
        plain_types_text(a + b) == plain_types_text(a) + " "@ + plain_types_text(b),
    decreases b.len(),
{
    let one = seq![(name, n)];
    assert(types_text(one) =~= name + ":"@ + grouped_text(n));
    assert(plain_types_text(one) =~= name + ":"@ + decimal_text(n));
    assert((a + b).drop_last() =~= a + b.drop_last());
    if b.len() > 1 {
        types_are_written_one_after_the_other(a, b.drop_last(), name, n);
    } else {
        assert(a + b.drop_last() =~= a);
    }
    assert(types_text(a + b) =~= types_text(a) + " "@ + types_text(b));
    assert(plain_types_text(a + b) =~= plain_types_text(a) + " "@ + plain_types_text(b));
}

/// Text in a column is as wide as the column at least, with nothing but spaces
/// added on the one side or on the other.
pub proof fn columns_are_filled_with_spaces(text: Seq<char>, width: nat)
    ensures
        ({
            let wide = if text.len() < width {
                width
            } else {
                text.len()
            };
            let more = wide - text.len();
            &&& left_in(text, width).len() == wide
            &&& left_in(text, width).take(text.len() as int) == text
            &&& forall|i: int|
                text.len() <= i < wide ==> #[trigger] left_in(text, width)[i] == ' '
            &&& right_in(text, width).len() == wide
            &&& right_in(text, width).skip(more) == text
            &&& forall|i: int| 0 <= i < more ==> #[trigger] right_in(text, width)[i] == ' '
        }),
{
    assert(left_in(text, width).take(text.len() as int) =~= text);
    let more = right_in(text, width).len() - text.len();
    assert(right_in(text, width).skip(more) =~= text);
}

/// A printed report has its sections in order: the counts, the line lengths,
/// the keys, the fields and the broken lines.
pub proof fn printed_reports_have_their_sections_in_order(
    label: Seq<char>,
    stats: Stats,
    lines: Seq<Seq<u8>>,
    fields: Seq<FieldPath>,
    max_errors: nat,
    top: nat,
)
    requires
        stats.sums_up(summary(lines, paths_of(fields), max_errors)),
        stats.profiles(fields),
    ensures
        ({
            let s = summary(lines, paths_of(fields), max_errors);
            let texts = Seq::new(
                fields.len(),
                |i: int| field_text(fields[i].text(), s.profiles[i], s.valid, top),
            );
            stats_text(label, stats, lengths_of(lines), top) == counts_text(label, stats)
                + lengths_text(lengths_of(lines)) + keys_text(s.keys, s.valid) + rows_text(texts)
                + issues_text(s.issues, s.invalid, s.issues_truncated)
        }),
{
    let s = summary(lines, paths_of(fields), max_errors);
    let texts = Seq::new(
        fields.len(),
        |i: int| field_text(fields[i].text(), s.profiles[i], s.valid, top),
    );
    let shown = field_texts(stats.fields@, stats.valid as nat, top);
    assert forall|i: int| 0 <= i < fields.len() implies #[trigger] shown[i] == texts[i] by {
        assert(stats.fields@[i].path == fields[i]);
        assert(profiles_of(stats.fields@)[i] == stats.fields@[i]@);
    }
    assert(shown =~= texts);
}

} // verus!
