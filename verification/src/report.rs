//! What the reports of a pass say, as text for people and as JSON for tools.

use vstd::prelude::*;
use vstd::string::*;

use crate::ascii::ZERO;
use crate::binary64::{
    finite, magnitude, nearest, negative, percentage, percentage_of, quotient, ratio, Binary64,
};
use crate::discovery::Found;
use crate::hist::{
    largest, lemma_extremes, lemma_quantile_unique, mean_of, quantile_of, smallest, Histogram,
};
use crate::notation::{push_tenths, tenths_text};
use crate::profile::{top_values, Flaw, KeyUse, Keys, Profile, Tally};
use crate::schema::{found_of, PathEntry, Schema, MAX_PATHS};
use crate::stats::{
    flaws_of, tally_of, uses_of, FieldStats, Issue, KeyEntry, KeyTable, Stats, TypeCounts,
    MAX_FIELD_VALUES, MAX_KEYS,
};
use crate::table::pairs_of;
use crate::text::{decimal_text, digit_char, push_decimal};

verus! {

/// A number in decimal, with a comma between groups of three digits.
pub open spec fn grouped_text(n: nat) -> Seq<char>
    decreases n,
{
    if n < 1000 {
        decimal_text(n)
    } else {
        grouped_text(n / 1000) + seq![
            ',',
            digit_char(n / 100 % 10),
            digit_char(n / 10 % 10),
            digit_char(n % 10),
        ]
    }
}

/// Writes a number with a comma between groups of three digits.
pub fn grouped(n: u64) -> (s: String)
    ensures
        s@ == grouped_text(n as nat),
    decreases n,
{
    if n < 1000 {
        let mut s = String::new();
        push_decimal(n, &mut s);
        assert(s@ =~= decimal_text(n as nat));
        s
    } else {
        let mut s = grouped(n / 1000);
        s.push(',');
        s.push((ZERO + (n / 100 % 10) as u8) as char);
        s.push((ZERO + (n / 10 % 10) as u8) as char);
        s.push((ZERO + (n % 10) as u8) as char);
        assert(s@ =~= grouped_text(n as nat));
        s
    }
}

/// The share of `part` in `total` in percent, with one decimal.
pub open spec fn percent_text(part: nat, total: nat) -> Seq<char> {
    if total == 0 {
        "0.0%"@
    } else {
        tenths_text(percentage(part, total)) + "%"@
    }
}

/// Writes the share of `part` in `total` in percent, with one decimal.
pub fn percent(part: u64, total: u64) -> (s: String)
    ensures
        s@ == percent_text(part as nat, total as nat),
{
    if total == 0 {
        "0.0%".to_string()
    } else {
        let mut s = String::new();
        let share = percentage_of(part, total);
        push_tenths(share, &mut s);
        s.append("%");
        assert(magnitude(share@) == share@);
        assert(s@ =~= percent_text(part as nat, total as nat));
        s
    }
}

/// The types of a tally with their counts, a space between them.
pub open spec fn types_text(types: Tally) -> Seq<char>
    decreases types.len(),
{
    if types.len() == 0 {
        Seq::empty()
    } else {
        (if types.len() == 1 {
            Seq::empty()
        } else {
            types_text(types.drop_last()) + " "@
        }) + types.last().0 + ":"@ + grouped_text(types.last().1)
    }
}

/// Writes type counts, a space between them.
pub fn format_types(types: &TypeCounts) -> (s: String)
    ensures
        s@ == types_text(types@),
{
    let all = types.iter();
    let ghost tally = types@;
    let mut s = String::new();
    let mut i: usize = 0;
    while i < all.len()
        invariant
            i <= all.len(),
            tally == tally_of(all@),
            s@ == types_text(tally.take(i as int)),
        decreases all.len() - i,
    {
        let (name, count) = all[i];
        if i > 0 {
            s.append(" ");
        }
        s.append(name);
        s.append(":");
        s.append(grouped(count).as_str());
        i += 1;
        assert(tally.take(i as int).drop_last() =~= tally.take(i - 1));
    }
    assert(tally.take(i as int) =~= tally);
    s
}

/// The types of a tally with their counts in plain decimal, a space between
/// them.
pub open spec fn plain_types_text(types: Tally) -> Seq<char>
    decreases types.len(),
{
    if types.len() == 0 {
        Seq::empty()
    } else {
        (if types.len() == 1 {
            Seq::empty()
        } else {
            plain_types_text(types.drop_last()) + " "@
        }) + types.last().0 + ":"@ + decimal_text(types.last().1)
    }
}

/// Writes type counts in plain decimal, a space between them.
pub fn format_plain_types(types: &TypeCounts) -> (s: String)
    ensures
        s@ == plain_types_text(types@),
{
    let all = types.iter();
    let ghost tally = types@;
    let mut s = String::new();
    let mut i: usize = 0;
    while i < all.len()
        invariant
            i <= all.len(),
            tally == tally_of(all@),
            s@ == plain_types_text(tally.take(i as int)),
        decreases all.len() - i,
    {
        let (name, count) = all[i];
        if i > 0 {
            s.append(" ");
        }
        s.append(name);
        s.append(":");
        push_decimal(count, &mut s);
        i += 1;
        assert(tally.take(i as int).drop_last() =~= tally.take(i - 1));
    }
    assert(tally.take(i as int) =~= tally);
    s
}

/// A run of spaces.
pub open spec fn spaces(count: nat) -> Seq<char> {
    Seq::new(count, |i: int| ' ')
}

/// Text with spaces behind it up to a width.
pub open spec fn left_in(text: Seq<char>, width: nat) -> Seq<char> {
    if text.len() < width {
        text + spaces((width - text.len()) as nat)
    } else {
        text
    }
}

/// Text with spaces before it up to a width.
pub open spec fn right_in(text: Seq<char>, width: nat) -> Seq<char> {
    if text.len() < width {
        spaces((width - text.len()) as nat) + text
    } else {
        text
    }
}

fn push_spaces(count: usize, out: &mut String)
    ensures
        final(out)@ == old(out)@ + spaces(count as nat),
{
    let ghost start = out@;
    let mut i: usize = 0;
    assert(start =~= start + spaces(0));
    while i < count
        invariant
            i <= count,
            out@ == start + spaces(i as nat),
        decreases count - i,
    {
        out.push(' ');
        i += 1;
        assert(out@ =~= start + spaces(i as nat));
    }
}

/// Appends text with spaces behind it up to a width.
pub fn push_left(text: &str, width: usize, out: &mut String)
    ensures
        final(out)@ == old(out)@ + left_in(text@, width as nat),
{
    let ghost start = out@;
    let size: usize = text.unicode_len();
    out.append(text);
    if size < width {
        push_spaces(width - size, out);
        assert(out@ =~= start + left_in(text@, width as nat));
    }
}

/// Appends text with spaces before it up to a width.
pub fn push_right(text: &str, width: usize, out: &mut String)
    ensures
        final(out)@ == old(out)@ + right_in(text@, width as nat),
{
    let ghost start = out@;
    let size: usize = text.unicode_len();
    if size < width {
        push_spaces(width - size, out);
    }
    out.append(text);
    assert(out@ =~= start + right_in(text@, width as nat));
}

/// Rows put together.
pub open spec fn rows_text(rows: Seq<Seq<char>>) -> Seq<char>
    decreases rows.len(),
{
    if rows.len() == 0 {
        Seq::empty()
    } else {
        rows_text(rows.drop_last()) + rows.last()
    }
}

proof fn lemma_next_row(rows: Seq<Seq<char>>, i: int)
    requires
        0 <= i < rows.len(),
    ensures
        rows_text(rows.take(i + 1)) == rows_text(rows.take(i)) + rows[i],
{
    assert(rows.take(i + 1).drop_last() =~= rows.take(i));
}

/// A number of bytes in units of 1024, with one decimal.
pub open spec fn kibibytes_text(bytes: nat) -> Seq<char> {
    tenths_text(quotient(nearest(bytes, 1), nearest(1024, 1))) + " KiB"@
}

/// Writes a number of bytes in units of 1024, with one decimal.
pub fn kibibytes(bytes: u64) -> (s: String)
    ensures
        s@ == kibibytes_text(bytes as nat),
{
    let mut s = String::new();
    let size = ratio(bytes as u128, 1024);
    push_tenths(size, &mut s);
    s.append(" KiB");
    assert(magnitude(size@) == size@);
    assert(s@ =~= kibibytes_text(bytes as nat));
    s
}

/// The numbers of lines and bytes.
pub open spec fn counts_text(label: Seq<char>, stats: Stats) -> Seq<char> {
    "file    "@ + label + "\nlines   "@ + grouped_text(stats.lines as nat) + "   blank "@
        + grouped_text(stats.blank as nat) + "   invalid "@ + grouped_text(stats.invalid as nat)
        + "   valid "@ + grouped_text(stats.valid as nat) + "\nbytes   "@ + grouped_text(
        stats.bytes as nat,
    ) + "   ("@ + kibibytes_text(stats.bytes as nat) + ")\ntop level  "@ + types_text(stats.top_level_types@) + "\n\n"@
}

fn counts(label: &str, stats: &Stats) -> (s: String)
    ensures
        s@ == counts_text(label@, *stats),
{
    let mut s = "file    ".to_string();
    s.append(label);
    s.append("\nlines   ");
    s.append(grouped(stats.lines).as_str());
    s.append("   blank ");
    s.append(grouped(stats.blank).as_str());
    s.append("   invalid ");
    s.append(grouped(stats.invalid).as_str());
    s.append("   valid ");
    s.append(grouped(stats.valid).as_str());
    s.append("\nbytes   ");
    s.append(grouped(stats.bytes).as_str());
    s.append("   (");
    s.append(kibibytes(stats.bytes).as_str());
    s.append(")\ntop level  ");
    s.append(format_types(&stats.top_level_types).as_str());
    s.append("\n\n");
    s
}

/// The distribution of the line lengths.
pub open spec fn lengths_text(lengths: Seq<u64>) -> Seq<char> {
    "line length in bytes\n"@ + if lengths.len() == 0 {
        "  no non-blank lines\n"@
    } else {
        "  min "@ + decimal_text(smallest(lengths) as nat) + "   p50 "@ + decimal_text(
            quantile_of(lengths, HALF) as nat,
        ) + "   p90 "@ + decimal_text(quantile_of(lengths, NINE_TENTHS) as nat) + "   p99 "@
            + decimal_text(quantile_of(lengths, NINETY_NINE_HUNDREDTHS) as nat) + "   max "@
            + decimal_text(largest(lengths) as nat) + "   mean "@ + tenths_text(
            mean_of(lengths) as nat,
        ) + "\n"@
    }
}

/// The bits of the binary number nearest to 0.5.
pub const HALF: u64 = 0x3FE0_0000_0000_0000;

/// The bits of the binary number nearest to 0.9.
pub const NINE_TENTHS: u64 = 0x3FEC_CCCC_CCCC_CCCD;

/// The bits of the binary number nearest to 0.99.
pub const NINETY_NINE_HUNDREDTHS: u64 = 0x3FEF_AE14_7AE1_47AE;

/// The figures of a line length distribution.
pub struct Lengths {
    pub min: u64,
    pub p50: u64,
    pub p90: u64,
    pub p99: u64,
    pub max: u64,
    pub mean: Binary64,
}

impl Lengths {
    /// Whether the figures are those of some lengths.
    pub open spec fn describe(&self, lengths: Seq<u64>) -> bool {
        &&& lengths.len() > 0
        &&& self.min == smallest(lengths)
        &&& self.p50 == quantile_of(lengths, HALF)
        &&& self.p90 == quantile_of(lengths, NINE_TENTHS)
        &&& self.p99 == quantile_of(lengths, NINETY_NINE_HUNDREDTHS)
        &&& self.max == largest(lengths)
        &&& self.mean@ == mean_of(lengths)
    }
}

/// One of the quantiles of a histogram that is not empty.
fn quantile_at(h: &Histogram, bits: u64) -> (r: u64)
    requires
        h.wf(),
        h.size() > 0,
    ensures
        forall|samples: Seq<u64>| #[trigger] h.holds(samples) ==> r == quantile_of(samples, bits),
{
    let r: u64 = h.quantile(Binary64::from_bits(bits)).unwrap();
    proof {
        assert forall|samples: Seq<u64>| #[trigger] h.holds(samples) implies r == quantile_of(
            samples,
            bits,
        ) by {
            lemma_quantile_unique(samples, bits, r);
        }
    }
    r
}

/// The figures of a line length distribution, if there were any lines.
pub fn figures(h: &Histogram) -> (r: Option<Lengths>)
    requires
        h.wf(),
    ensures
        forall|lengths: Seq<u64>| #[trigger]
            h.holds(lengths) ==> match r {
                Some(figures) => figures.describe(lengths),
                None => lengths.len() == 0,
            },
        r matches Some(figures) ==> finite(figures.mean@) && !negative(figures.mean@),
{
    if h.count() == 0 {
        proof {
            assert forall|lengths: Seq<u64>| #[trigger] h.holds(lengths) implies lengths.len()
                == 0 by {
                h.lemma_size(lengths);
            }
        }
        return None;
    }
    let min: u64 = h.min().unwrap();
    let max: u64 = h.max().unwrap();
    proof {
        assert forall|lengths: Seq<u64>| #[trigger] h.holds(lengths) implies lengths.len() > 0
            && min == smallest(lengths) && max == largest(lengths) by {
            h.lemma_size(lengths);
            lemma_extremes(lengths, min);
            lemma_extremes(lengths, max);
        }
    }
    let p50: u64 = quantile_at(h, HALF);
    let p90: u64 = quantile_at(h, NINE_TENTHS);
    let p99: u64 = quantile_at(h, NINETY_NINE_HUNDREDTHS);
    let mean = h.mean().unwrap();
    Some(Lengths { min, p50, p90, p99, max, mean })
}

fn lengths(h: &Histogram) -> (s: String)
    requires
        h.wf(),
    ensures
        forall|samples: Seq<u64>| #[trigger] h.holds(samples) ==> s@ == lengths_text(samples),
{
    let mut s = "line length in bytes\n".to_string();
    match figures(h) {
        None => {
            s.append("  no non-blank lines\n");
        },
        Some(f) => {
            let mut row = "  min ".to_string();
            push_decimal(f.min, &mut row);
            row.append("   p50 ");
            push_decimal(f.p50, &mut row);
            row.append("   p90 ");
            push_decimal(f.p90, &mut row);
            row.append("   p99 ");
            push_decimal(f.p99, &mut row);
            row.append("   max ");
            push_decimal(f.max, &mut row);
            row.append("   mean ");
            push_tenths(f.mean, &mut row);
            row.append("\n");
            s.append(row.as_str());
        },
    }
    s
}

/// One row of the key table.
pub open spec fn key_row(entry: KeyUse, valid: nat) -> Seq<char> {
    "  "@ + left_in(entry.key, 28) + " "@ + right_in(grouped_text(entry.count), 8) + "  "@
        + right_in(percent_text(entry.count, valid), 6) + "  "@ + types_text(entry.types) + "\n"@
}

fn print_key_entry(entry: &KeyEntry, valid: u64) -> (s: String)
    ensures
        s@ == key_row(entry@, valid as nat),
{
    let mut s = "  ".to_string();
    push_left(entry.key.as_str(), 28, &mut s);
    s.append(" ");
    push_right(grouped(entry.count).as_str(), 8, &mut s);
    s.append("  ");
    push_right(percent(entry.count, valid).as_str(), 6, &mut s);
    s.append("  ");
    s.append(format_types(&entry.types).as_str());
    s.append("\n");
    s
}

/// The rows of the key table.
pub open spec fn key_rows(entries: Seq<KeyUse>, valid: nat) -> Seq<Seq<char>> {
    Seq::new(entries.len(), |i: int| key_row(entries[i], valid))
}

/// The table of top-level keys, if there are any.
pub open spec fn keys_text(keys: Keys, valid: nat) -> Seq<char> {
    if keys.entries.len() == 0 {
        Seq::empty()
    } else {
        "\ntop level keys over "@ + grouped_text(valid) + " objects\n  "@ + left_in("key"@, 28)
            + " "@ + right_in("count"@, 8) + "  "@ + right_in("rate"@, 6) + "  types\n"@
            + rows_text(key_rows(keys.entries, valid)) + if keys.entries.len() >= MAX_KEYS {
            "  ... key table truncated at "@ + decimal_text(MAX_KEYS as nat) + " distinct keys\n"@
        } else {
            Seq::empty()
        }
    }
}

fn key_table(keys: &KeyTable, valid: u64) -> (s: String)
    ensures
        s@ == keys_text(keys@, valid as nat),
{
    let entries = keys.entries();
    assert(uses_of(entries@).len() == entries@.len());
    if entries.len() == 0 {
        return String::new();
    }
    let mut s = "\ntop level keys over ".to_string();
    s.append(grouped(valid).as_str());
    s.append(" objects\n  ");
    push_left("key", 28, &mut s);
    s.append(" ");
    push_right("count", 8, &mut s);
    s.append("  ");
    push_right("rate", 6, &mut s);
    s.append("  types\n");
    let ghost head = s@;
    let ghost rows = key_rows(uses_of(entries@), valid as nat);
    let mut i: usize = 0;
    assert(head =~= head + rows_text(rows.take(0)));
    while i < entries.len()
        invariant
            i <= entries@.len(),
            rows == key_rows(uses_of(entries@), valid as nat),
            s@ == head + rows_text(rows.take(i as int)),
        decreases entries@.len() - i,
    {
        s.append(print_key_entry(&entries[i], valid).as_str());
        proof {
            lemma_next_row(rows, i as int);
            assert(s@ =~= head + rows_text(rows.take(i + 1)));
        }
        i += 1;
    }
    assert(rows.take(i as int) =~= rows);
    let mut note = String::new();
    if keys.truncated() {
        note = "  ... key table truncated at ".to_string();
        push_decimal(MAX_KEYS as u64, &mut note);
        note.append(" distinct keys\n");
    }
    s.append(note.as_str());
    s
}

/// One row of the values of a field.
pub open spec fn value_row(entry: (Seq<char>, nat), values: nat) -> Seq<char> {
    "  "@ + right_in(grouped_text(entry.1), 8) + "  "@ + right_in(
        percent_text(entry.1, values),
        6,
    ) + "  "@ + entry.0 + "\n"@
}

fn print_value(value: &str, count: u64, values: u64) -> (s: String)
    ensures
        s@ == value_row((value@, count as nat), values as nat),
{
    let mut s = "  ".to_string();
    push_right(grouped(count).as_str(), 8, &mut s);
    s.append("  ");
    push_right(percent(count, values).as_str(), 6, &mut s);
    s.append("  ");
    s.append(value);
    s.append("\n");
    s
}

/// The rows of the most frequent values of a field.
pub open spec fn value_rows(p: Profile, top: nat) -> Seq<Seq<char>> {
    Seq::new(
        top_values(p.distinct, top).len(),
        |i: int| value_row(top_values(p.distinct, top)[i], p.values),
    )
}

/// The profile of one field.
pub open spec fn field_text(path: Seq<char>, p: Profile, valid: nat, top: nat) -> Seq<char> {
    "\nfield "@ + path + "\n  present in "@ + grouped_text(p.present) + " of "@ + grouped_text(
        valid,
    ) + " records ("@ + percent_text(p.present, valid) + "), "@ + grouped_text(p.values)
        + " values, types "@ + types_text(p.types) + "\n  "@ + grouped_text(p.distinct.dom().len())
        + " distinct values\n"@ + rows_text(value_rows(p, top)) + if p.distinct.dom().len()
        >= MAX_FIELD_VALUES {
        "  ... value table truncated at "@ + decimal_text(MAX_FIELD_VALUES as nat)
            + " distinct values\n"@
    } else {
        Seq::empty()
    }
}

fn print_field(field: &FieldStats, valid: u64, top: usize) -> (s: String)
    requires
        field.wf(),
    ensures
        s@ == field_text(field.path.text(), field@, valid as nat, top as nat),
{
    let mut s = "\nfield ".to_string();
    s.append(field.path.as_str());
    s.append("\n  present in ");
    s.append(grouped(field.records_present).as_str());
    s.append(" of ");
    s.append(grouped(valid).as_str());
    s.append(" records (");
    s.append(percent(field.records_present, valid).as_str());
    s.append("), ");
    s.append(grouped(field.values).as_str());
    s.append(" values, types ");
    s.append(format_types(&field.types).as_str());
    s.append("\n  ");
    s.append(grouped(field.distinct() as u64).as_str());
    s.append(" distinct values\n");
    let ghost head = s@;
    let values = field.top(top);
    let ghost rows = value_rows(field@, top as nat);
    let mut i: usize = 0;
    assert(head =~= head + rows_text(rows.take(0)));
    while i < values.len()
        invariant
            i <= values@.len(),
            pairs_of(values@) == top_values(field@.distinct, top as nat),
            rows == value_rows(field@, top as nat),
            s@ == head + rows_text(rows.take(i as int)),
        decreases values@.len() - i,
    {
        let (value, count) = values[i];
        s.append(print_value(value, count, field.values).as_str());
        proof {
            assert(pairs_of(values@)[i as int] == (value@, count as nat));
            lemma_next_row(rows, i as int);
            assert(s@ =~= head + rows_text(rows.take(i + 1)));
        }
        i += 1;
    }
    assert(pairs_of(values@).len() == values@.len());
    assert(rows.take(i as int) =~= rows);
    let mut note = String::new();
    if field.truncated() {
        note = "  ... value table truncated at ".to_string();
        push_decimal(MAX_FIELD_VALUES as u64, &mut note);
        note.append(" distinct values\n");
    }
    s.append(note.as_str());
    s
}

/// The profiles of several fields.
pub open spec fn field_texts(fields: Seq<FieldStats>, valid: nat, top: nat) -> Seq<Seq<char>> {
    Seq::new(fields.len(), |i: int| field_text(fields[i].path.text(), fields[i]@, valid, top))
}

fn print_fields(stats: &Stats, top: usize) -> (s: String)
    requires
        stats.wf(),
    ensures
        s@ == rows_text(field_texts(stats.fields@, stats.valid as nat, top as nat)),
{
    let mut s = String::new();
    let ghost rows = field_texts(stats.fields@, stats.valid as nat, top as nat);
    let mut i: usize = 0;
    assert(rows.take(0) =~= Seq::<Seq<char>>::empty());
    while i < stats.fields.len()
        invariant
            stats.wf(),
            i <= stats.fields@.len(),
            rows == field_texts(stats.fields@, stats.valid as nat, top as nat),
            s@ == rows_text(rows.take(i as int)),
        decreases stats.fields@.len() - i,
    {
        s.append(print_field(&stats.fields[i], stats.valid, top).as_str());
        proof {
            lemma_next_row(rows, i as int);
        }
        i += 1;
    }
    assert(rows.take(i as int) =~= rows);
    s
}

/// One row of the broken lines.
pub open spec fn issue_row(flaw: Flaw) -> Seq<char> {
    "  line "@ + decimal_text(flaw.line) + " col "@ + decimal_text(flaw.column) + ": "@
        + flaw.reason + "\n"@
}

fn print_issue(issue: &Issue) -> (s: String)
    ensures
        s@ == issue_row(issue@),
{
    let mut s = "  line ".to_string();
    push_decimal(issue.line, &mut s);
    s.append(" col ");
    push_decimal(issue.column as u64, &mut s);
    s.append(": ");
    s.append(issue.reason.as_str());
    s.append("\n");
    s
}

/// The rows of the broken lines.
pub open spec fn issue_rows(flaws: Seq<Flaw>) -> Seq<Seq<char>> {
    Seq::new(flaws.len(), |i: int| issue_row(flaws[i]))
}

/// The list of broken lines, if there are any.
pub open spec fn issues_text(flaws: Seq<Flaw>, invalid: nat, truncated: bool) -> Seq<char> {
    if flaws.len() == 0 {
        Seq::empty()
    } else {
        "\ninvalid lines ("@ + grouped_text(invalid) + " total, showing "@ + decimal_text(
            flaws.len(),
        ) + ")\n"@ + rows_text(issue_rows(flaws)) + if truncated {
            "  ... "@ + grouped_text((invalid - flaws.len()) as nat) + " more not shown\n"@
        } else {
            Seq::empty()
        }
    }
}

fn print_issues(stats: &Stats) -> (s: String)
    requires
        stats.wf(),
    ensures
        s@ == issues_text(flaws_of(stats.issues@), stats.invalid as nat, stats.issues_truncated),
{
    let ghost flaws = flaws_of(stats.issues@);
    if stats.issues.len() == 0 {
        return String::new();
    }
    let mut s = "\ninvalid lines (".to_string();
    s.append(grouped(stats.invalid).as_str());
    s.append(" total, showing ");
    push_decimal(stats.issues.len() as u64, &mut s);
    s.append(")\n");
    let ghost head = s@;
    let ghost rows = issue_rows(flaws);
    let mut i: usize = 0;
    assert(head =~= head + rows_text(rows.take(0)));
    while i < stats.issues.len()
        invariant
            i <= stats.issues@.len(),
            flaws == flaws_of(stats.issues@),
            rows == issue_rows(flaws),
            s@ == head + rows_text(rows.take(i as int)),
        decreases stats.issues@.len() - i,
    {
        s.append(print_issue(&stats.issues[i]).as_str());
        proof {
            lemma_next_row(rows, i as int);
            assert(s@ =~= head + rows_text(rows.take(i + 1)));
        }
        i += 1;
    }
    assert(rows.take(i as int) =~= rows);
    let mut note = String::new();
    if stats.issues_truncated {
        note = "  ... ".to_string();
        note.append(grouped(stats.invalid - stats.issues.len() as u64).as_str());
        note.append(" more not shown\n");
    }
    s.append(note.as_str());
    s
}

/// The report of a statistics pass over lines of the given lengths.
pub open spec fn stats_text(
    label: Seq<char>,
    stats: Stats,
    lengths: Seq<u64>,
    top: nat,
) -> Seq<char> {
    counts_text(label, stats) + lengths_text(lengths) + keys_text(stats.keys@, stats.valid as nat)
        + rows_text(field_texts(stats.fields@, stats.valid as nat, top)) + issues_text(
        flaws_of(stats.issues@),
        stats.invalid as nat,
        stats.issues_truncated,
    )
}

/// Writes the report of a statistics pass over the input that `label` names,
/// with the `top` most frequent values of each field.
pub fn print_stats(label: &str, stats: &Stats, top: usize) -> (s: String)
    requires
        stats.wf(),
    ensures
        forall|samples: Seq<u64>| #[trigger]
            stats.line_length.holds(samples) ==> s@ == stats_text(
                label@,
                *stats,
                samples,
                top as nat,
            ),
{
    let mut s = counts(label, stats);
    s.append(lengths(&stats.line_length).as_str());
    s.append(key_table(&stats.keys, stats.valid).as_str());
    s.append(print_fields(stats, top).as_str());
    s.append(print_issues(stats).as_str());
    s
}

/// One row of the paths.
pub open spec fn path_row(entry: (Seq<char>, Found), records: nat) -> Seq<char> {
    "  "@ + left_in(entry.0, 40) + " "@ + right_in(percent_text(entry.1.present, records), 7)
        + "  "@ + plain_types_text(entry.1.types) + "\n"@
}

fn print_path(entry: &PathEntry, records: u64) -> (s: String)
    ensures
        s@ == path_row((entry.path@, entry@), records as nat),
{
    let mut s = "  ".to_string();
    push_left(entry.path.as_str(), 40, &mut s);
    s.append(" ");
    push_right(percent(entry.records_present, records).as_str(), 7, &mut s);
    s.append("  ");
    s.append(format_plain_types(&entry.types).as_str());
    s.append("\n");
    s
}

/// The rows of the paths.
pub open spec fn path_rows(paths: Seq<(Seq<char>, Found)>, records: nat) -> Seq<Seq<char>> {
    Seq::new(paths.len(), |i: int| path_row(paths[i], records))
}

/// The report of a schema pass. Its counts of records and types are in plain
/// decimal.
pub open spec fn schema_text(schema: Schema) -> Seq<char> {
    decimal_text(schema.records as nat) + " records, depth "@ + decimal_text(schema.depth as nat)
        + "\n\n  "@ + left_in("path"@, 40) + " "@ + right_in("rate"@, 7) + "  types\n"@
        + rows_text(path_rows(found_of(schema.paths@), schema.records as nat)) + (
    if schema.truncated {
        "  ... path table truncated at "@ + decimal_text(MAX_PATHS as nat) + " distinct paths\n"@
    } else {
        Seq::empty()
    }) + if schema.skipped > 0 {
        "\n"@ + grouped_text(schema.skipped as nat) + " unparseable lines skipped\n"@
    } else {
        Seq::empty()
    }
}

/// Writes the report of a schema pass.
pub fn print_schema(schema: &Schema) -> (s: String)
    ensures
        s@ == schema_text(*schema),
{
    let mut s = String::new();
    push_decimal(schema.records, &mut s);
    assert(s@ =~= decimal_text(schema.records as nat));
    s.append(" records, depth ");
    push_decimal(schema.depth as u64, &mut s);
    s.append("\n\n  ");
    push_left("path", 40, &mut s);
    s.append(" ");
    push_right("rate", 7, &mut s);
    s.append("  types\n");
    let ghost head = s@;
    let ghost rows = path_rows(found_of(schema.paths@), schema.records as nat);
    let mut i: usize = 0;
    assert(head =~= head + rows_text(rows.take(0)));
    while i < schema.paths.len()
        invariant
            i <= schema.paths@.len(),
            rows == path_rows(found_of(schema.paths@), schema.records as nat),
            s@ == head + rows_text(rows.take(i as int)),
        decreases schema.paths@.len() - i,
    {
        s.append(print_path(&schema.paths[i], schema.records).as_str());
        proof {
            lemma_next_row(rows, i as int);
            assert(s@ =~= head + rows_text(rows.take(i + 1)));
        }
        i += 1;
    }
    assert(rows.take(i as int) =~= rows);
    let mut note = String::new();
    if schema.truncated {
        note = "  ... path table truncated at ".to_string();
        push_decimal(MAX_PATHS as u64, &mut note);
        note.append(" distinct paths\n");
    }
    s.append(note.as_str());
    let mut end = String::new();
    if schema.skipped > 0 {
        end = "\n".to_string();
        end.append(grouped(schema.skipped).as_str());
        end.append(" unparseable lines skipped\n");
    }
    s.append(end.as_str());
    s
}

} // verus!
