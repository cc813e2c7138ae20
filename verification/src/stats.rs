//! Single-pass file statistics: line/byte counts, the top-level key table and
//! per-field value distributions.
//!
//! Everything here is gathered in one pass over the input with bounded
//! memory: the key table and each field's distinct value table stop growing
//! past a fixed size and say so rather than keeping every value ever seen.
//!
//! [`Stats::from_reader`] profiles bytes that are at hand. [`StatsPass`] takes
//! one raw line at a time, for input that is streamed through a buffer.

use vstd::prelude::*;
use vstd::string::*;
use vstd::utf8::*;

use crate::hist::Histogram;
use crate::json::{self, lemma_object_view, Json, Value};
use crate::lines::{
    blank, content, contents, first_raw, lemma_line_end, line_end, raw_lines, Line, LineReader,
};
use crate::nodes::{documents_have_few_nodes, nodes, paths_select_few_values};
use crate::path::{borrowed_meanings, FieldPath, Step};
use crate::profile::{
    empty_profile, empty_summary, flaw_seen, is_ranking, key_seen, keys_seen, keys_within,
    lemma_field_count, lemma_keys_seen_within, lemma_line_within, lemma_ranking_unique,
    lemma_tally_entry, lemma_values_seen_within, line_seen, place_of, place_of_key, profile_within,
    ranking, record_seen, repeated, selection_seen, summary, summary_within, tallied, tally_total,
    top_values, valid_up_to, value_seen, values_seen, Flaw, KeyUse, Keys, Profile, Summary, Tally,
};
use crate::table::{pairs_of, TextTable};
use crate::text::{decode, is_valid_up_to, same_text};

verus! {

/// Top-level key table entries stop growing past this many distinct keys.
pub const MAX_KEYS: usize = 512;

/// Each profiled field's distinct value table stops growing past this size.
pub const MAX_FIELD_VALUES: usize = 10_000;

/// Default number of broken lines kept in [`Stats::issues`].
pub const DEFAULT_MAX_ERRORS: usize = 10;

/// Options controlling a [`Stats::from_reader`] pass.
#[derive(Debug, Clone)]
pub struct StatsOptions {
    /// Field paths to profile the value distribution of.
    pub fields: Vec<FieldPath>,
    /// Maximum number of broken lines recorded in [`Stats::issues`].
    pub max_errors: usize,
}

impl Default for StatsOptions {
    fn default() -> (r: StatsOptions)
        ensures
            r.fields@.len() == 0,
            r.max_errors == DEFAULT_MAX_ERRORS,
    {
        StatsOptions { fields: Vec::new(), max_errors: DEFAULT_MAX_ERRORS }
    }
}

/// How often each JSON type was seen, in first-seen order.
#[derive(Debug, Clone)]
pub struct TypeCounts {
    counts: Vec<(&'static str, u64)>,
}

/// Names with counts as mathematics.
pub open spec fn tally_of(counts: Seq<(&'static str, u64)>) -> Tally {
    Seq::new(counts.len(), |i: int| (counts[i].0@, counts[i].1 as nat))
}

impl View for TypeCounts {
    type V = Tally;

    closed spec fn view(&self) -> Tally {
        tally_of(self.counts@)
    }
}

impl Default for TypeCounts {
    fn default() -> (r: TypeCounts)
        ensures
            r@ == Seq::<(Seq<char>, nat)>::empty(),
    {
        let r = TypeCounts { counts: Vec::new() };
        assert(r@ =~= Seq::<(Seq<char>, nat)>::empty());
        r
    }
}

impl TypeCounts {
    /// Records one occurrence of a type.
    pub fn record(&mut self, name: &'static str)
        requires
            tally_total(old(self)@) < u64::MAX,
        ensures
            final(self)@ == tallied(old(self)@, name@),
    {
        let ghost before = self@;
        let mut i: usize = 0;
        while i < self.counts.len()
            invariant
                *self == *old(self),
                before == self@,
                before == tally_of(self.counts@),
                i <= self.counts.len(),
                tally_total(before) < u64::MAX,
                place_of(before, name@, 0) == place_of(before, name@, i as int),
            decreases self.counts.len() - i,
        {
            let (found, n) = self.counts[i];
            if same_text(found, name) {
                proof {
                    assert(before[i as int].0 == name@);
                    lemma_tally_entry(before, i as int);
                }
                self.counts.set(i, (found, n + 1));
                assert(self@ =~= tallied(before, name@));
                return;
            }
            i += 1;
        }
        self.counts.push((name, 1));
        assert(self@ =~= tallied(before, name@));
    }

    /// Type name and occurrence count, in the order each type was first seen.
    pub fn iter(&self) -> (r: Vec<(&'static str, u64)>)
        ensures
            tally_of(r@) == self@,
    {
        let mut r: Vec<(&'static str, u64)> = Vec::new();
        let mut i: usize = 0;
        while i < self.counts.len()
            invariant
                i <= self.counts.len(),
                r@ == self.counts@.take(i as int),
            decreases self.counts.len() - i,
        {
            r.push(self.counts[i]);
            i += 1;
            assert(r@ =~= self.counts@.take(i as int));
        }
        assert(r@ =~= self.counts@);
        r
    }

    /// The same counts once more.
    pub fn copy(&self) -> (r: TypeCounts)
        ensures
            r@ == self@,
    {
        TypeCounts { counts: self.iter() }
    }

    /// Total number of recorded occurrences across all types.
    pub fn total(&self) -> (n: u64)
        requires
            tally_total(self@) <= u64::MAX,
        ensures
            n == tally_total(self@),
    {
        let ghost all = self@;
        let mut n: u64 = 0;
        let mut i: usize = 0;
        assert(all.take(0) =~= Seq::<(Seq<char>, nat)>::empty());
        while i < self.counts.len()
            invariant
                i <= self.counts.len(),
                all == tally_of(self.counts@),
                tally_total(all) <= u64::MAX,
                n == tally_total(all.take(i as int)),
            decreases self.counts.len() - i,
        {
            proof {
                assert(all.take(i + 1).drop_last() =~= all.take(i as int));
                lemma_total_prefix(all, i + 1);
            }
            n = n + self.counts[i].1;
            i += 1;
        }
        assert(all.take(i as int) =~= all);
        n
    }
}

proof fn lemma_total_prefix(tally: Tally, n: int)
    requires
        0 <= n <= tally.len(),
    ensures
        tally_total(tally.take(n)) <= tally_total(tally),
    decreases tally.len() - n,
{
    if n == tally.len() {
        assert(tally.take(n) =~= tally);
    } else {
        lemma_total_prefix(tally, n + 1);
        assert(tally.take(n + 1).drop_last() =~= tally.take(n));
    }
}

/// One entry of the top-level key table: how often a key appeared and with
/// which value types.
#[derive(Debug, Clone)]
pub struct KeyEntry {
    /// The key name.
    pub key: String,
    /// Number of records in which the key was present.
    pub count: u64,
    /// Types the key's value took across those records.
    pub types: TypeCounts,
}

impl View for KeyEntry {
    type V = KeyUse;

    open spec fn view(&self) -> KeyUse {
        KeyUse { key: self.key@, count: self.count as nat, types: self.types@ }
    }
}

/// Key table entries as mathematics.
pub open spec fn uses_of(entries: Seq<KeyEntry>) -> Seq<KeyUse> {
    Seq::new(entries.len(), |i: int| entries[i]@)
}

/// Occurrence counts of the top-level object keys, in first-seen order.
///
/// Only records whose top-level value is an object contribute to this table.
#[derive(Debug, Clone)]
pub struct KeyTable {
    entries: Vec<KeyEntry>,
}

impl View for KeyTable {
    type V = Keys;

    closed spec fn view(&self) -> Keys {
        Keys { entries: uses_of(self.entries@) }
    }
}

impl Default for KeyTable {
    fn default() -> (r: KeyTable)
        ensures
            r@ == (Keys { entries: Seq::empty() }),
    {
        let r = KeyTable { entries: Vec::new() };
        assert(r@.entries =~= Seq::<KeyUse>::empty());
        r
    }
}

/// What object members stand for.
pub open spec fn fields_of(fields: Seq<(String, Value)>) -> Seq<(Seq<char>, Json)> {
    Seq::new(fields.len(), |i: int| (fields[i].0@, fields[i].1@))
}

impl KeyTable {
    /// Notes that one more record has a key.
    fn note(&mut self, key: &String, name: &'static str)
        requires
            keys_within(old(self)@, (u64::MAX - 1) as nat),
        ensures
            final(self)@ == key_seen(old(self)@, key@, name@),
    {
        let ghost before = self@;
        let mut i: usize = 0;
        while i < self.entries.len()
            invariant
                *self == *old(self),
                before == self@,
                before.entries == uses_of(self.entries@),
                keys_within(before, (u64::MAX - 1) as nat),
                i <= self.entries.len(),
                place_of_key(before.entries, key@, 0) == place_of_key(
                    before.entries,
                    key@,
                    i as int,
                ),
            decreases self.entries.len() - i,
        {
            if same_text(self.entries[i].key.as_str(), key.as_str()) {
                let ghost entry = self.entries@[i as int];
                proof {
                    assert(before.entries[i as int] == entry@);
                }
                let found = &mut self.entries[i];
                found.count = found.count + 1;
                found.types.record(name);
                assert(self@.entries =~= key_seen(before, key@, name@).entries);
                return;
            }
            i += 1;
        }
        if self.entries.len() >= MAX_KEYS {
            return;
        }
        let mut types = TypeCounts::default();
        proof {
            assert(tally_total(types@) == 0);
        }
        types.record(name);
        self.entries.push(KeyEntry { key: key.clone(), count: 1, types });
        assert(self@.entries =~= key_seen(before, key@, name@).entries);
    }

    /// Records the members of one object.
    fn record(&mut self, fields: &[(String, Value)])
        requires
            keys_within(old(self)@, (u64::MAX - fields@.len()) as nat),
        ensures
            final(self)@ == keys_seen(old(self)@, fields_of(fields@), fields@.len()),
    {
        // A record can repeat a key (the parser keeps duplicates), so only
        // count the first occurrence per record towards `count`.
        let ghost before = self@;
        let ghost all = fields_of(fields@);
        let mut i: usize = 0;
        while i < fields.len()
            invariant
                i <= fields.len(),
                all == fields_of(fields@),
                keys_within(before, (u64::MAX - fields@.len()) as nat),
                self@ == keys_seen(before, all, i as nat),
            decreases fields.len() - i,
        {
            if !repeats(fields, i) {
                proof {
                    lemma_keys_seen_within(
                        before,
                        all,
                        i as nat,
                        (u64::MAX - fields@.len()) as nat,
                    );
                    lemma_keys_wider(
                        self@,
                        (u64::MAX - fields@.len() + i) as nat,
                        (u64::MAX - 1) as nat,
                    );
                }
                self.note(&fields[i].0, fields[i].1.type_label());
            }
            i += 1;
        }
    }

    /// The recorded keys, in the order each was first seen.
    pub fn entries(&self) -> (entries: &[KeyEntry])
        ensures
            uses_of(entries@) == self@.entries,
    {
        self.entries.as_slice()
    }

    /// True once the number of distinct keys reached [`MAX_KEYS`].
    pub fn truncated(&self) -> (r: bool)
        ensures
            r == (self@.entries.len() >= MAX_KEYS),
    {
        self.entries.len() >= MAX_KEYS
    }
}

proof fn lemma_keys_wider(keys: Keys, a: nat, b: nat)
    requires
        keys_within(keys, a),
        a <= b,
    ensures
        keys_within(keys, b),
{
    assert forall|i: int| 0 <= i < keys.entries.len() implies (#[trigger] keys.entries[i]).count
        <= b && tally_total(keys.entries[i].types) <= b by {
        assert(keys.entries[i].count <= a);
    }
}

/// Whether an earlier member has the same name.
pub fn repeats(fields: &[(String, Value)], at: usize) -> (r: bool)
    requires
        at < fields@.len(),
    ensures
        r == repeated(fields_of(fields@), at as int),
{
    let ghost all = fields_of(fields@);
    let mut i: usize = 0;
    while i < at
        invariant
            i <= at < fields@.len(),
            all == fields_of(fields@),
            forall|j: int| 0 <= j < i ==> (#[trigger] all[j]).0 != all[at as int].0,
        decreases at - i,
    {
        if same_text(fields[i].0.as_str(), fields[at].0.as_str()) {
            assert(all[i as int].0 == all[at as int].0);
            return true;
        }
        i += 1;
    }
    false
}

/// Value distribution of one profiled [`FieldPath`].
#[derive(Debug, Clone)]
pub struct FieldStats {
    /// The path this profile was built for.
    pub path: FieldPath,
    /// Number of records in which the path selected at least one value.
    pub records_present: u64,
    /// Total number of values matched (more than one per record when the
    /// path contains a wildcard).
    pub values: u64,
    /// Types the matched values took.
    pub types: TypeCounts,
    /// How often each value occurred, by its compact JSON encoding.
    pub distinct: TextTable,
}

impl View for FieldStats {
    type V = Profile;

    open spec fn view(&self) -> Profile {
        Profile {
            present: self.records_present as nat,
            values: self.values as nat,
            types: self.types@,
            distinct: self.distinct@,
        }
    }
}

impl FieldStats {
    /// The table of values is in order.
    pub open spec fn wf(&self) -> bool {
        self.distinct.wf()
    }

    fn new(path: FieldPath) -> (r: FieldStats)
        ensures
            r.path == path,
            r.wf(),
            r@ == empty_profile(),
    {
        FieldStats {
            path,
            records_present: 0,
            values: 0,
            types: TypeCounts::default(),
            distinct: TextTable::new(),
        }
    }

    fn record(&mut self, selection: &Vec<&Value>)
        requires
            old(self).wf(),
            profile_within(old(self)@, (u64::MAX - selection@.len()) as nat),
        ensures
            final(self).wf(),
            final(self).path == old(self).path,
            final(self)@ == selection_seen(old(self)@, borrowed_meanings(selection@)),
    {
        if selection.len() == 0 {
            return;
        }
        let ghost before = self@;
        let ghost start = Profile { present: before.present + 1, ..before };
        let ghost all = borrowed_meanings(selection@);
        let ghost bound = (u64::MAX - selection@.len()) as nat;
        self.records_present = self.records_present + 1;
        let mut i: usize = 0;
        while i < selection.len()
            invariant
                i <= selection.len(),
                all == borrowed_meanings(selection@),
                bound == u64::MAX - selection@.len(),
                profile_within(before, bound),
                start == (Profile { present: before.present + 1, ..before }),
                self.wf(),
                self.path == old(self).path,
                self@ == values_seen(start, all, i as nat),
            decreases selection.len() - i,
        {
            let ghost now = self@;
            let value: &Value = selection[i];
            proof {
                lemma_values_seen_within(before, all, i as nat, bound);
                assert(all[i as int] == value@);
            }
            assert(tally_total(now.types) == now.values);
            self.values = self.values + 1;
            self.types.record(value.type_label());
            let key = value.to_json();
            self.distinct.count(key, MAX_FIELD_VALUES);
            assert(self@ =~= value_seen(now, value@));
            i += 1;
        }
    }

    /// Number of distinct values recorded (capped at [`MAX_FIELD_VALUES`]).
    pub fn distinct(&self) -> (n: usize)
        requires
            self.wf(),
        ensures
            n == self@.distinct.dom().len(),
    {
        self.distinct.len()
    }

    /// True once the number of distinct values reached [`MAX_FIELD_VALUES`].
    pub fn truncated(&self) -> (r: bool)
        requires
            self.wf(),
        ensures
            r == (self@.distinct.dom().len() >= MAX_FIELD_VALUES),
    {
        self.distinct.len() >= MAX_FIELD_VALUES
    }

    /// The `n` most frequent values, each as its compact JSON encoding, most
    /// frequent first. Ties break by the encoding itself, for a stable order.
    pub fn top(&self, n: usize) -> (r: Vec<(&str, u64)>)
        requires
            self.wf(),
        ensures
            pairs_of(r@) == top_values(self@.distinct, n as nat),
            is_ranking(self@.distinct, ranking(self@.distinct)),
    {
        let mut values = self.distinct.ranked();
        let ghost all = pairs_of(values@);
        proof {
            lemma_ranking_unique(
                self@.distinct,
                all,
                ranking(self@.distinct),
            );
        }
        values.truncate(n);
        proof {
            if n < all.len() {
                assert(pairs_of(values@) =~= all.take(n as int));
            } else {
                assert(pairs_of(values@) =~= all);
            }
        }
        values
    }
}

/// One broken line: a byte offset and a human-readable reason.
#[derive(Debug, Clone)]
pub struct Issue {
    /// 1-based line number.
    pub line: u64,
    /// 1-based byte column within the line.
    pub column: usize,
    /// Why the line was rejected.
    pub reason: String,
}

impl View for Issue {
    type V = Flaw;

    open spec fn view(&self) -> Flaw {
        Flaw { line: self.line as nat, column: self.column as nat, reason: self.reason@ }
    }
}

/// Broken lines as mathematics.
pub open spec fn flaws_of(issues: Seq<Issue>) -> Seq<Flaw> {
    Seq::new(issues.len(), |i: int| issues[i]@)
}

/// Field profiles as mathematics.
pub open spec fn profiles_of(fields: Seq<FieldStats>) -> Seq<Profile> {
    Seq::new(fields.len(), |i: int| fields[i]@)
}

/// The steps of several paths.
pub open spec fn paths_of(fields: Seq<FieldPath>) -> Seq<Seq<Step>> {
    Seq::new(fields.len(), |i: int| fields[i].steps())
}

/// The result of a [`Stats::from_reader`] pass over a JSONL file.
#[derive(Debug, Clone)]
pub struct Stats {
    /// Total number of lines read, blank lines included.
    pub lines: u64,
    /// Lines containing only whitespace.
    pub blank: u64,
    /// Non-blank lines that parsed as valid JSON.
    pub valid: u64,
    /// Non-blank lines that were not valid UTF-8 or not valid JSON.
    pub invalid: u64,
    /// Total bytes consumed from the input.
    pub bytes: u64,
    /// Byte length of each non-blank line.
    pub line_length: Histogram,
    /// Top-level JSON type of each valid record.
    pub top_level_types: TypeCounts,
    /// Top-level object keys, for records whose top-level value is an object.
    pub keys: KeyTable,
    /// One entry per field path in [`StatsOptions::fields`], same order.
    pub fields: Vec<FieldStats>,
    /// The first broken lines encountered, up to [`StatsOptions::max_errors`].
    pub issues: Vec<Issue>,
    /// True when more lines were broken than fit in `issues`.
    pub issues_truncated: bool,
}

impl Stats {
    /// Whether the statistics are those of a summary.
    pub open spec fn sums_up(&self, s: Summary) -> bool {
        &&& self.lines == s.lines
        &&& self.blank == s.blank
        &&& self.valid == s.valid
        &&& self.invalid == s.invalid
        &&& self.line_length.wf()
        &&& self.line_length.holds(s.lengths)
        &&& self.top_level_types@ == s.types
        &&& self.keys@ == s.keys
        &&& profiles_of(self.fields@) == s.profiles
        &&& forall|i: int| 0 <= i < self.fields@.len() ==> (#[trigger] self.fields@[i]).wf()
        &&& flaws_of(self.issues@) == s.issues
        &&& self.issues_truncated == s.issues_truncated
    }

    /// The histogram and the tables of values are in order, and broken lines
    /// that were left out were counted.
    pub open spec fn wf(&self) -> bool {
        &&& self.line_length.wf()
        &&& forall|i: int| 0 <= i < self.fields@.len() ==> (#[trigger] self.fields@[i]).wf()
        &&& self.issues_truncated ==> self.issues@.len() <= self.invalid
    }

    /// Whether the profiles are those of the given paths, in their order.
    pub open spec fn profiles(&self, paths: Seq<FieldPath>) -> bool {
        &&& self.fields@.len() == paths.len()
        &&& forall|i: int| 0 <= i < paths.len() ==> (#[trigger] self.fields@[i]).path == paths[i]
    }

    /// Reads and profiles a whole JSONL input in a single pass.
    pub fn from_reader(input: &[u8], options: StatsOptions) -> (stats: Stats)
        requires
            input@.len() < usize::MAX,
        ensures
            stats.wf(),
            stats.sums_up(
                summary(
                    contents(input@),
                    paths_of(options.fields@),
                    options.max_errors as nat,
                ),
            ),
            stats.profiles(options.fields@),
            stats.bytes == input@.len(),
    {
        let ghost paths = options.fields@;
        let mut reader = LineReader::new(input);
        let mut pass = StatsPass::new(options);
        let ghost mut done = Seq::<Seq<u8>>::empty();
        proof {
            assert(done + raw_lines(input@) =~= raw_lines(input@));
            assert(pass.lines() =~= trimmed_lines(done));
        }
        loop
            invariant
                reader.wf(),
                pass.wf(),
                pass.paths() == paths,
                pass.limit() == options.max_errors,
                raw_lines(input@) == done + raw_lines(reader.rest()),
                pass.lines() == trimmed_lines(done),
                reader.lines() == done.len(),
                reader.bytes() == pass.bytes(),
                reader.bytes() + reader.rest().len() == input@.len(),
                input@.len() < usize::MAX,
            ensures
                pass.wf(),
                pass.paths() == paths,
                pass.limit() == options.max_errors,
                raw_lines(input@) == done,
                pass.lines() == trimmed_lines(done),
                pass.bytes() == input@.len(),
            decreases reader.rest().len(),
        {
            let ghost rest = reader.rest();
            match reader.next_line() {
                None => {
                    proof {
                        assert(done + raw_lines(rest) =~= done);
                    }
                    break;
                },
                Some(line) => {
                    proof {
                        lemma_line_end(rest, 0);
                        let raw = first_raw(rest);
                        assert(rest.skip(raw.len() as int) =~= rest.skip(line_end(rest, 0)));
                        assert(done.push(raw) + raw_lines(reader.rest()) =~= done + raw_lines(rest));
                        assert(trimmed_lines(done.push(raw)) =~= trimmed_lines(done).push(
                            line.bytes@,
                        ));
                        done = done.push(raw);
                    }
                    pass.take_line(&line);
                },
            }
        }
        assert(trimmed_lines(done) =~= contents(input@));
        pass.finish()
    }
}

/// The contents of the first raw lines of some input.
pub open spec fn trimmed_lines(raw: Seq<Seq<u8>>) -> Seq<Seq<u8>> {
    Seq::new(raw.len(), |i: int| content(raw[i], i == 0))
}

/// A pass over the lines of a file, taken one after the other.
pub struct StatsPass {
    stats: Stats,
    max_errors: usize,
    seen: Ghost<Seq<Seq<u8>>>,
    given: Ghost<Seq<FieldPath>>,
}

impl StatsPass {
    /// The lines taken so far.
    pub closed spec fn lines(&self) -> Seq<Seq<u8>> {
        self.seen@
    }

    /// The paths that are profiled.
    pub closed spec fn paths(&self) -> Seq<FieldPath> {
        self.given@
    }

    /// How many broken lines are kept at most.
    pub closed spec fn limit(&self) -> nat {
        self.max_errors as nat
    }

    /// How many bytes the lines took, line endings included.
    pub closed spec fn bytes(&self) -> nat {
        self.stats.bytes as nat
    }

    /// What the pass has gathered.
    pub open spec fn gathered(&self) -> Summary {
        summary(self.lines(), paths_of(self.paths()), self.limit())
    }

    /// The statistics are those of the lines taken so far.
    pub closed spec fn wf(&self) -> bool {
        &&& self.stats.sums_up(self.gathered())
        &&& self.stats.profiles(self.paths())
        &&& summary_within(self.gathered(), self.bytes(), self.limit())
        &&& self.gathered().lines == self.lines().len()
    }

    /// Starts before the first line.
    pub fn new(options: StatsOptions) -> (r: StatsPass)
        ensures
            r.wf(),
            r.lines() == Seq::<Seq<u8>>::empty(),
            r.paths() == options.fields@,
            r.limit() == options.max_errors,
            r.bytes() == 0,
    {
        let ghost paths = options.fields@;
        let mut waiting = options.fields;
        let mut fields: Vec<FieldStats> = Vec::new();
        while waiting.len() > 0
            invariant
                fields@.len() + waiting@.len() == paths.len(),
                waiting@ == paths.skip(fields@.len() as int),
                forall|i: int|
                    0 <= i < fields@.len() ==> (#[trigger] fields@[i]).path == paths[i]
                        && fields@[i].wf() && fields@[i]@ == empty_profile(),
            decreases waiting@.len(),
        {
            let path = waiting.remove(0);
            fields.push(FieldStats::new(path));
            assert(waiting@ =~= paths.skip(fields@.len() as int));
        }
        let stats = Stats {
            lines: 0,
            blank: 0,
            valid: 0,
            invalid: 0,
            bytes: 0,
            line_length: Histogram::new(),
            top_level_types: TypeCounts::default(),
            keys: KeyTable::default(),
            fields,
            issues: Vec::new(),
            issues_truncated: false,
        };
        proof {
            let s = empty_summary(paths.len());
            assert(paths_of(paths).len() == paths.len());
            assert(profiles_of(stats.fields@) =~= s.profiles);
            assert(flaws_of(stats.issues@) =~= s.issues);
            assert(tally_total(s.types) == 0);
            assert forall|i: int| 0 <= i < s.profiles.len() implies profile_within(
                #[trigger] s.profiles[i],
                0,
            ) by {
                assert(tally_total(Seq::empty()) == 0);
                assert(s.profiles[i].distinct.dom() =~= Set::<Seq<char>>::empty());
            }
        }
        StatsPass {
            stats,
            max_errors: options.max_errors,
            seen: Ghost(Seq::empty()),
            given: Ghost(paths),
        }
    }

    /// Takes the next line.
    pub fn take_line(&mut self, line: &Line)
        requires
            old(self).wf(),
            line.number == old(self).lines().len() + 1,
            0 < line.raw_len,
            line.bytes@.len() <= line.raw_len,
            line.bytes@.len() < usize::MAX,
            old(self).bytes() + line.raw_len <= u64::MAX,
        ensures
            final(self).wf(),
            final(self).lines() == old(self).lines().push(line.bytes@),
            final(self).paths() == old(self).paths(),
            final(self).limit() == old(self).limit(),
            final(self).bytes() == old(self).bytes() + line.raw_len,
    {
        let ghost before = self.gathered();
        let ghost given = self.paths();
        let ghost bytes = line.bytes@;
        let ghost longer = self.seen@.push(bytes);
        proof {
            lemma_line_within(
                before,
                bytes,
                paths_of(given),
                self.limit(),
                self.bytes(),
                line.raw_len as nat,
            );
            assert(longer.drop_last() =~= self.seen@);
        }
        let ghost so_far = self.bytes();
        push_line(
            &mut self.stats,
            Ghost(before),
            Ghost(given),
            Ghost(so_far),
            self.max_errors,
            line,
        );
        self.stats.bytes = self.stats.bytes + line.raw_len as u64;
        proof {
            self.seen@ = longer;
        }
    }

    /// The statistics of the lines taken.
    pub fn finish(self) -> (stats: Stats)
        requires
            self.wf(),
        ensures
            stats.wf(),
            stats.sums_up(self.gathered()),
            stats.profiles(self.paths()),
            stats.bytes == self.bytes(),
    {
        assert(flaws_of(self.stats.issues@).len() == self.stats.issues@.len());
        self.stats
    }
}

/// Notes a line.
fn push_line(
    stats: &mut Stats,
    Ghost(s): Ghost<Summary>,
    Ghost(paths): Ghost<Seq<FieldPath>>,
    Ghost(bytes): Ghost<nat>,
    max_errors: usize,
    line: &Line,
)
    requires
        old(stats).sums_up(s),
        old(stats).profiles(paths),
        summary_within(s, bytes, max_errors as nat),
        line.number == s.lines + 1,
        0 < line.raw_len,
        line.bytes@.len() <= line.raw_len,
        line.bytes@.len() < usize::MAX,
        bytes + line.raw_len <= u64::MAX,
    ensures
        final(stats).sums_up(line_seen(s, line.bytes@, paths_of(paths), max_errors as nat)),
        final(stats).profiles(paths),
        final(stats).bytes == old(stats).bytes,
{
    proof {
        stats.line_length.lemma_size(s.lengths);
    }
    stats.lines = stats.lines + 1;
    if line.is_blank() {
        stats.blank = stats.blank + 1;
        return;
    }
    stats.line_length.record(line.bytes.len() as u64);
    let ghost halfway = Summary {
        lines: s.lines + 1,
        lengths: s.lengths.push(line.bytes@.len() as u64),
        ..s
    };
    assert(stats.sums_up(halfway));
    match decode(line.bytes) {
        Err(valid) => {
            proof {
                lemma_valid_up_to(line.bytes@, valid as int);
                assert(line.bytes@.take(line.bytes@.len() as int) =~= line.bytes@);
            }
            push_issue(
                stats,
                Ghost(halfway),
                max_errors,
                line.number,
                valid + 1,
                "invalid UTF-8".to_string(),
            );
        },
        Ok(text) => {
            proof {
                encode_utf8_valid_utf8(text@);
            }
            match json::parse(text) {
                Ok(value) => {
                    proof {
                        documents_have_few_nodes(line.bytes@);
                        lemma_keys_wider(s.keys, bytes, (u64::MAX - line.raw_len) as nat);
                        assert forall|i: int| 0 <= i < s.profiles.len() implies profile_within(
                            #[trigger] s.profiles[i],
                            (u64::MAX - line.raw_len) as nat,
                        ) by {
                            assert(profile_within(s.profiles[i], bytes));
                        }
                    }
                    push_record(
                        stats,
                        Ghost(halfway),
                        Ghost(paths),
                        Ghost(line.raw_len as nat),
                        &value,
                    );
                },
                Err(e) => {
                    proof {
                        crate::laws::failures_point_into_the_document(line.bytes@);
                    }
                    push_issue(
                        stats,
                        Ghost(halfway),
                        max_errors,
                        line.number,
                        e.offset + 1,
                        e.kind.to_string(),
                    );
                },
            }
        },
    }
}

/// Notes a broken line.
fn push_issue(
    stats: &mut Stats,
    Ghost(s): Ghost<Summary>,
    max_errors: usize,
    line: u64,
    column: usize,
    reason: String,
)
    requires
        old(stats).sums_up(s),
        s.invalid < u64::MAX,
    ensures
        final(stats).sums_up(
            flaw_seen(
                s,
                Flaw { line: line as nat, column: column as nat, reason: reason@ },
                max_errors as nat,
            ),
        ),
        final(stats).bytes == old(stats).bytes,
        final(stats).fields == old(stats).fields,
{
    stats.invalid = stats.invalid + 1;
    if stats.issues.len() < max_errors {
        let ghost flaw = Flaw { line: line as nat, column: column as nat, reason: reason@ };
        let ghost before = stats.issues@;
        stats.issues.push(Issue { line, column, reason });
        assert(flaws_of(stats.issues@) =~= flaws_of(before).push(flaw));
    } else {
        stats.issues_truncated = true;
    }
}

/// Notes a valid record.
fn push_record(
    stats: &mut Stats,
    Ghost(s): Ghost<Summary>,
    Ghost(paths): Ghost<Seq<FieldPath>>,
    Ghost(room): Ghost<nat>,
    value: &Value,
)
    requires
        old(stats).sums_up(s),
        old(stats).profiles(paths),
        nodes(value@) <= room <= u64::MAX,
        s.valid < u64::MAX,
        tally_total(s.types) < u64::MAX,
        keys_within(s.keys, (u64::MAX - room) as nat),
        forall|i: int|
            0 <= i < s.profiles.len() ==> profile_within(
                #[trigger] s.profiles[i],
                (u64::MAX - room) as nat,
            ),
    ensures
        final(stats).sums_up(record_seen(s, value@, paths_of(paths))),
        final(stats).profiles(paths),
        final(stats).bytes == old(stats).bytes,
{
    let ghost next = record_seen(s, value@, paths_of(paths));
    stats.valid = stats.valid + 1;
    stats.top_level_types.record(value.type_label());
    match value {
        Value::Object(fields) => {
            proof {
                lemma_object_view(*value);
                assert(fields_of(fields@) =~= value@->Object_0);
                lemma_field_count(value@->Object_0, 0);
                lemma_keys_wider(
                    s.keys,
                    (u64::MAX - room) as nat,
                    (u64::MAX - fields@.len()) as nat,
                );
            }
            stats.keys.record(fields.as_slice());
        },
        _ => {},
    }
    assert(stats.keys@ == next.keys);
    let ghost start = stats.fields@;
    let mut i: usize = 0;
    while i < stats.fields.len()
        invariant
            i <= stats.fields@.len(),
            stats.fields@.len() == start.len(),
            start.len() == paths.len(),
            start == old(stats).fields@,
            old(stats).sums_up(s),
            old(stats).profiles(paths),
            profiles_of(start) == s.profiles,
            next == record_seen(s, value@, paths_of(paths)),
            nodes(value@) <= room <= u64::MAX,
            forall|j: int|
                0 <= j < s.profiles.len() ==> profile_within(
                    #[trigger] s.profiles[j],
                    (u64::MAX - room) as nat,
                ),
            forall|j: int| i <= j < start.len() ==> #[trigger] stats.fields@[j] == start[j],
            forall|j: int|
                0 <= j < i ==> (#[trigger] stats.fields@[j])@ == next.profiles[j]
                    && stats.fields@[j].wf() && stats.fields@[j].path == paths[j],
            stats.lines == next.lines,
            stats.blank == next.blank,
            stats.valid == next.valid,
            stats.invalid == next.invalid,
            stats.line_length == old(stats).line_length,
            stats.top_level_types@ == next.types,
            stats.keys@ == next.keys,
            stats.issues == old(stats).issues,
            stats.issues_truncated == old(stats).issues_truncated,
            stats.bytes == old(stats).bytes,
        decreases stats.fields@.len() - i,
    {
        let selection = stats.fields[i].path.select(value);
        proof {
            assert(stats.fields@[i as int] == start[i as int]);
            assert(start[i as int].path == paths[i as int]);
            assert(start[i as int]@ == s.profiles[i as int]);
            assert(start[i as int].wf());
            assert(paths_of(paths)[i as int] == paths[i as int].steps());
            paths_select_few_values(paths[i as int].steps(), value@);
            lemma_profile_wider(
                s.profiles[i as int],
                (u64::MAX - room) as nat,
                (u64::MAX - selection@.len()) as nat,
            );
        }
        stats.fields[i].record(&selection);
        i += 1;
    }
    proof {
        assert(profiles_of(stats.fields@) =~= next.profiles);
    }
}

proof fn lemma_profile_wider(p: Profile, a: nat, b: nat)
    requires
        profile_within(p, a),
        a <= b,
    ensures
        profile_within(p, b),
{
}

/// There is one such offset at most.
proof fn lemma_valid_up_to(bytes: Seq<u8>, n: int)
    requires
        is_valid_up_to(bytes, n),
    ensures
        valid_up_to(bytes) == n,
{
    let m = valid_up_to(bytes);
    assert(is_valid_up_to(bytes, m));
    if m < n {
        assert(!valid_utf8(bytes.take(n)));
    } else if n < m {
        assert(!valid_utf8(bytes.take(m)));
    }
}

} // verus!
