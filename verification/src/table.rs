//! A table of texts with numbers, kept in the order of the texts.

use vstd::prelude::*;
use vstd::string::*;

use crate::order::{is_before, lemma_text_total, lemma_text_transitive, text_before};
use crate::profile::{is_ranking, ranks_before};
use crate::sort::{sorted_from, stable_sort, with_key};
use crate::text::same_text;

verus! {

/// The entries of a table as mathematics.
pub open spec fn entries_of(entries: Seq<(String, u64)>) -> Seq<(Seq<char>, nat)> {
    Seq::new(entries.len(), |i: int| (entries[i].0@, entries[i].1 as nat))
}

/// Whether entries stand in the strict order of their texts.
pub open spec fn in_text_order(s: Seq<(Seq<char>, nat)>) -> bool {
    forall|i: int, j: int|
        0 <= i < j < s.len() ==> text_before((#[trigger] s[i]).0, (#[trigger] s[j]).0)
}

/// Whether a list holds the entries of a table, in the order of their texts.
pub open spec fn is_listing(
    table: Map<Seq<char>, nat>,
    list: Seq<(Seq<char>, nat)>,
) -> bool {
    &&& in_text_order(list)
    &&& forall|i: int|
        0 <= i < list.len() ==> table.dom().contains((#[trigger] list[i]).0) && table[list[i].0]
            == list[i].1
    &&& forall|text: Seq<char>| #[trigger]
        table.dom().contains(text) ==> exists|i: int|
            0 <= i < list.len() && (#[trigger] list[i]).0 == text
}

/// The counts of a list of entries.
pub open spec fn counts_of(s: Seq<(Seq<char>, nat)>) -> Map<Seq<char>, nat>
    decreases s.len(),
{
    if s.len() == 0 {
        Map::empty()
    } else {
        counts_of(s.drop_last()).insert(s.last().0, s.last().1)
    }
}

proof fn lemma_counts(s: Seq<(Seq<char>, nat)>)
    requires
        in_text_order(s),
    ensures
        counts_of(s).dom().finite(),
        counts_of(s).dom().len() == s.len(),
        forall|i: int|
            0 <= i < s.len() ==> counts_of(s).dom().contains((#[trigger] s[i]).0) && counts_of(
                s,
            )[s[i].0] == s[i].1,
        forall|text: Seq<char>| #[trigger]
            counts_of(s).dom().contains(text) ==> exists|i: int|
                0 <= i < s.len() && (#[trigger] s[i]).0 == text,
    decreases s.len(),
{
    if s.len() > 0 {
        let rest = s.drop_last();
        let last = s.last();
        assert(in_text_order(rest)) by {
            assert forall|i: int, j: int| 0 <= i < j < rest.len() implies text_before(
                (#[trigger] rest[i]).0,
                (#[trigger] rest[j]).0,
            ) by {
                assert(text_before(s[i].0, s[j].0));
            }
        }
        lemma_counts(rest);
        assert(!counts_of(rest).dom().contains(last.0)) by {
            if counts_of(rest).dom().contains(last.0) {
                let i = choose|i: int| 0 <= i < rest.len() && (#[trigger] rest[i]).0 == last.0;
                assert(text_before(s[i].0, s[s.len() - 1].0));
                lemma_text_total(last.0, last.0);
            }
        }
        assert(counts_of(s).dom() =~= counts_of(rest).dom().insert(last.0));
        assert forall|i: int| 0 <= i < s.len() implies counts_of(s).dom().contains(
            (#[trigger] s[i]).0,
        ) && counts_of(s)[s[i].0] == s[i].1 by {
            if i < rest.len() {
                assert(rest[i] == s[i]);
                assert(text_before(s[i].0, s[s.len() - 1].0));
                lemma_text_total(last.0, last.0);
            }
        }
        assert forall|text: Seq<char>| #[trigger] counts_of(s).dom().contains(text) implies exists|
            i: int,
        |
            0 <= i < s.len() && (#[trigger] s[i]).0 == text by {
            if text == last.0 {
                assert(s[s.len() - 1].0 == text);
            } else {
                assert(counts_of(rest).dom().contains(text));
                let i = choose|i: int| 0 <= i < rest.len() && (#[trigger] rest[i]).0 == text;
                assert(s[i].0 == text);
            }
        }
    } else {
        assert(counts_of(s).dom() =~= Set::<Seq<char>>::empty());
    }
}

/// A table of texts with numbers.
#[derive(Debug, Clone)]
pub struct TextTable {
    entries: Vec<(String, u64)>,
}

impl View for TextTable {
    type V = Map<Seq<char>, nat>;

    closed spec fn view(&self) -> Map<Seq<char>, nat> {
        counts_of(entries_of(self.entries@))
    }
}

impl TextTable {
    /// The entries are in the order of their texts.
    pub closed spec fn wf(&self) -> bool {
        in_text_order(entries_of(self.entries@))
    }

    /// An empty table.
    pub fn new() -> (r: TextTable)
        ensures
            r.wf(),
            r@ == Map::<Seq<char>, nat>::empty(),
    {
        let r = TextTable { entries: Vec::new() };
        assert(entries_of(r.entries@) =~= Seq::<(Seq<char>, nat)>::empty());
        r
    }

    /// How many texts the table holds.
    pub fn len(&self) -> (n: usize)
        requires
            self.wf(),
        ensures
            n == self@.dom().len(),
            self@.dom().finite(),
    {
        proof {
            lemma_counts(entries_of(self.entries@));
        }
        self.entries.len()
    }

    /// Where a text stands, or where it belongs.
    fn find(&self, text: &str) -> (r: (bool, usize))
        requires
            self.wf(),
        ensures
            r.1 <= self.entries@.len(),
            r.0 ==> r.1 < self.entries@.len() && self.entries@[r.1 as int].0@ == text@,
            r.0 == self@.dom().contains(text@),
            forall|i: int| 0 <= i < r.1 ==> text_before((#[trigger] self.entries@[i]).0@, text@),
            !r.0 ==> forall|i: int|
                r.1 <= i < self.entries@.len() ==> text_before(
                    text@,
                    (#[trigger] self.entries@[i]).0@,
                ),
    {
        let ghost s = entries_of(self.entries@);
        proof {
            lemma_counts(s);
        }
        let mut low: usize = 0;
        let mut high: usize = self.entries.len();
        while low < high
            invariant
                s == entries_of(self.entries@),
                in_text_order(s),
                low <= high <= self.entries@.len(),
                forall|i: int| 0 <= i < low ==> text_before((#[trigger] self.entries@[i]).0@, text@),
                forall|i: int|
                    high <= i < self.entries@.len() ==> !text_before(
                        (#[trigger] self.entries@[i]).0@,
                        text@,
                    ),
            decreases high - low,
        {
            let middle: usize = low + (high - low) / 2;
            if is_before(self.entries[middle].0.as_str(), text) {
                proof {
                    assert forall|i: int| 0 <= i < middle + 1 implies text_before(
                        (#[trigger] self.entries@[i]).0@,
                        text@,
                    ) by {
                        if i < middle {
                            assert(text_before(s[i].0, s[middle as int].0));
                            lemma_text_transitive(s[i].0, s[middle as int].0, text@);
                        }
                    }
                }
                low = middle + 1;
            } else {
                proof {
                    assert forall|i: int| middle <= i < self.entries@.len() implies !text_before(
                        (#[trigger] self.entries@[i]).0@,
                        text@,
                    ) by {
                        if i > middle && text_before(self.entries@[i].0@, text@) {
                            assert(text_before(s[middle as int].0, s[i].0));
                            lemma_text_transitive(s[middle as int].0, s[i].0, text@);
                        }
                    }
                }
                high = middle;
            }
        }
        let found: bool = low < self.entries.len() && same_text(
            self.entries[low].0.as_str(),
            text,
        );
        proof {
            if found {
                assert(s[low as int].0 == text@);
            } else {
                assert forall|i: int| low <= i < self.entries@.len() implies text_before(
                    text@,
                    (#[trigger] self.entries@[i]).0@,
                ) by {
                    lemma_text_total(text@, self.entries@[low as int].0@);
                    if i > low {
                        assert(text_before(s[low as int].0, s[i].0));
                        lemma_text_transitive(text@, s[low as int].0, s[i].0);
                    }
                }
                if self@.dom().contains(text@) {
                    let i = choose|i: int| 0 <= i < s.len() && (#[trigger] s[i]).0 == text@;
                    lemma_text_total(text@, text@);
                    assert(self.entries@[i].0@ == text@);
                }
            }
        }
        (found, low)
    }

    /// The number of a text, if it is in the table.
    pub fn get(&self, text: &str) -> (r: Option<u64>)
        requires
            self.wf(),
        ensures
            match r {
                Some(n) => self@.dom().contains(text@) && self@[text@] == n,
                None => !self@.dom().contains(text@),
            },
    {
        let (found, at) = self.find(text);
        if found {
            proof {
                let s = entries_of(self.entries@);
                lemma_counts(s);
                assert(s[at as int].0 == text@);
            }
            Some(self.entries[at].1)
        } else {
            None
        }
    }

    /// Adds a text that is not in the table yet.
    pub fn add(&mut self, text: String, n: u64)
        requires
            old(self).wf(),
            !old(self)@.dom().contains(text@),
        ensures
            final(self).wf(),
            final(self)@ == old(self)@.insert(text@, n as nat),
            final(self)@.dom().len() == old(self)@.dom().len() + 1,
    {
        let (found, at) = self.find(text.as_str());
        self.add_at(at, text, n);
        proof {
            lemma_counts(entries_of(old(self).entries@));
        }
    }

    /// Adds a text where it belongs.
    fn add_at(&mut self, at: usize, text: String, n: u64)
        requires
            old(self).wf(),
            !old(self)@.dom().contains(text@),
            at <= old(self).entries@.len(),
            forall|i: int|
                0 <= i < at ==> text_before((#[trigger] old(self).entries@[i]).0@, text@),
            forall|i: int|
                at <= i < old(self).entries@.len() ==> text_before(
                    text@,
                    (#[trigger] old(self).entries@[i]).0@,
                ),
        ensures
            final(self).wf(),
            final(self)@ == old(self)@.insert(text@, n as nat),
    {
        let ghost s = entries_of(self.entries@);
        let ghost name = text@;
        self.entries.insert(at, (text, n));
        let ghost t = entries_of(self.entries@);
        proof {
            assert(t =~= s.insert(at as int, (name, n as nat)));
            assert forall|i: int, j: int| 0 <= i < j < t.len() implies text_before(
                (#[trigger] t[i]).0,
                (#[trigger] t[j]).0,
            ) by {
                let a = if i < at {
                    i
                } else {
                    i - 1
                };
                let b = if j < at {
                    j
                } else {
                    j - 1
                };
                if i != at && j != at {
                    assert(text_before(s[a].0, s[b].0));
                } else if i == at {
                    assert(old(self).entries@[b].0@ == s[b].0);
                } else {
                    assert(old(self).entries@[a].0@ == s[a].0);
                }
            }
            lemma_added_counts(s, t, at as int, name, n as nat);
        }
    }

    /// The texts with their numbers, in the order of the texts.
    pub fn listed(&self) -> (r: Vec<(&str, u64)>)
        requires
            self.wf(),
        ensures
            is_listing(self@, pairs_of(r@)),
    {
        let ghost s = entries_of(self.entries@);
        proof {
            lemma_counts(s);
        }
        let mut r: Vec<(&str, u64)> = Vec::new();
        let mut i: usize = 0;
        while i < self.entries.len()
            invariant
                i <= self.entries.len(),
                s == entries_of(self.entries@),
                pairs_of(r@) == s.take(i as int),
            decreases self.entries.len() - i,
        {
            let ghost before = pairs_of(r@);
            r.push((self.entries[i].0.as_str(), self.entries[i].1));
            proof {
                assert(pairs_of(r@) =~= before.push(s[i as int]));
                assert(s.take(i + 1) =~= s.take(i as int).push(s[i as int]));
            }
            i += 1;
        }
        assert(pairs_of(r@) =~= s);
        r
    }

    /// Counts one more occurrence of a text. A text that is not in the table
    /// is added only while there are fewer than `limit`; the result says
    /// whether the text is in the table now.
    pub fn count(&mut self, text: String, limit: usize) -> (counted: bool)
        requires
            old(self).wf(),
            old(self)@.dom().contains(text@) ==> old(self)@[text@] < u64::MAX,
        ensures
            final(self).wf(),
            counted == (old(self)@.dom().contains(text@) || old(self)@.dom().len() < limit),
            final(self)@ == if old(self)@.dom().contains(text@) {
                old(self)@.insert(text@, old(self)@[text@] + 1)
            } else if old(self)@.dom().len() < limit {
                old(self)@.insert(text@, 1)
            } else {
                old(self)@
            },
    {
        let ghost s = entries_of(self.entries@);
        let ghost name = text@;
        let ghost before = self@;
        proof {
            lemma_counts(s);
        }
        let (found, at) = self.find(text.as_str());
        if found {
            assert(s[at as int].0 == name);
            let n: u64 = self.entries[at].1;
            self.entries.set(at, (text, n + 1));
            let ghost t = entries_of(self.entries@);
            proof {
                assert(t =~= s.update(at as int, (name, (n + 1) as nat)));
                assert forall|i: int, j: int| 0 <= i < j < t.len() implies text_before(
                    (#[trigger] t[i]).0,
                    (#[trigger] t[j]).0,
                ) by {
                    assert(text_before(s[i].0, s[j].0));
                }
                lemma_counts(t);
                lemma_same_counts(s, t, name, (n + 1) as nat);
            }
            true
        } else if self.entries.len() < limit {
            self.add_at(at, text, 1);
            true
        } else {
            false
        }
    }

    /// The texts with their counts, the most frequent first, and equally
    /// frequent ones in the order of the texts.
    pub fn ranked(&self) -> (r: Vec<(&str, u64)>)
        requires
            self.wf(),
        ensures
            is_ranking(self@, pairs_of(r@)),
    {
        let ghost s = entries_of(self.entries@);
        proof {
            lemma_counts(s);
        }
        let mut keyed: Vec<(u64, usize)> = Vec::new();
        let mut i: usize = 0;
        while i < self.entries.len()
            invariant
                i <= self.entries.len(),
                keyed@.len() == i,
                forall|j: int|
                    0 <= j < i ==> (#[trigger] keyed@[j]).1 == j && keyed@[j].0 == u64::MAX
                        - self.entries@[j].1,
            decreases self.entries.len() - i,
        {
            keyed.push((u64::MAX - self.entries[i].1, i));
            i += 1;
        }
        let ghost before = keyed@;
        let sorted = stable_sort(keyed);
        let ghost after = sorted@;
        proof {
            lemma_sorted_members(before, after);
        }
        let mut r: Vec<(&str, u64)> = Vec::new();
        let mut k: usize = 0;
        while k < sorted.len()
            invariant
                k <= sorted@.len(),
                after == sorted@,
                forall|j: int| 0 <= j < after.len() ==> (#[trigger] after[j]).1 < self.entries@.len(),
                r@.len() == k,
                forall|j: int|
                    0 <= j < k ==> (#[trigger] r@[j]).0@ == self.entries@[after[j].1 as int].0@
                        && r@[j].1 == self.entries@[after[j].1 as int].1,
            decreases sorted.len() - k,
        {
            assert(after[k as int].1 < self.entries@.len());
            let at: usize = sorted[k].1;
            r.push((self.entries[at].0.as_str(), self.entries[at].1));
            k += 1;
        }
        proof {
            let list = pairs_of(r@);
            assert forall|j: int| 0 <= j < list.len() implies #[trigger] list[j]
                == s[after[j].1 as int] by {
                assert(r@[j].0@ == self.entries@[after[j].1 as int].0@);
            }
            assert forall|x: int, y: int| 0 <= x < y < list.len() implies ranks_before(
                #[trigger] list[x],
                #[trigger] list[y],
            ) by {
                let a = after[x].1 as int;
                let b = after[y].1 as int;
                assert(after[x].0 <= after[y].0);
                assert(after[x].0 == u64::MAX - self.entries@[a].1);
                assert(after[y].0 == u64::MAX - self.entries@[b].1);
                if after[x].0 == after[y].0 {
                    assert(a < b);
                    assert(text_before(s[a].0, s[b].0));
                }
            }
            assert forall|j: int| 0 <= j < list.len() implies self@.dom().contains(
                (#[trigger] list[j]).0,
            ) && self@[list[j].0] == list[j].1 by {
                assert(list[j] == s[after[j].1 as int]);
            }
            assert forall|text: Seq<char>| #[trigger] self@.dom().contains(text) implies exists|
                j: int,
            |
                0 <= j < list.len() && (#[trigger] list[j]).0 == text by {
                let at = choose|at: int| 0 <= at < s.len() && (#[trigger] s[at]).0 == text;
                assert(before[at].1 == at);
                let j = choose|j: int| 0 <= j < after.len() && #[trigger] after[j] == before[at];
                assert(list[j] == s[at]);
            }
        }
        r
    }
}

/// Borrowed texts with counts as mathematics.
pub open spec fn pairs_of(pairs: Seq<(&str, u64)>) -> Seq<(Seq<char>, nat)> {
    Seq::new(pairs.len(), |i: int| (pairs[i].0@, pairs[i].1 as nat))
}

/// An entry with another count.
proof fn lemma_same_counts(
    s: Seq<(Seq<char>, nat)>,
    t: Seq<(Seq<char>, nat)>,
    name: Seq<char>,
    n: nat,
)
    requires
        in_text_order(s),
        in_text_order(t),
        exists|i: int| 0 <= i < s.len() && (#[trigger] s[i]).0 == name && t == s.update(i, (name, n)),
    ensures
        counts_of(t) == counts_of(s).insert(name, n),
{
    lemma_counts(s);
    lemma_counts(t);
    let at = choose|i: int|
        0 <= i < s.len() && (#[trigger] s[i]).0 == name && t == s.update(i, (name, n));
    let a = counts_of(t);
    let b = counts_of(s).insert(name, n);
    assert forall|text: Seq<char>| a.dom().contains(text) <==> b.dom().contains(text) by {
        if a.dom().contains(text) {
            let i = choose|i: int| 0 <= i < t.len() && (#[trigger] t[i]).0 == text;
            assert(s[i].0 == text);
        }
        if b.dom().contains(text) && text != name {
            let i = choose|i: int| 0 <= i < s.len() && (#[trigger] s[i]).0 == text;
            assert(t[i].0 == text);
        }
        assert(t[at].0 == name);
    }
    assert(a.dom() =~= b.dom());
    assert forall|text: Seq<char>| a.dom().contains(text) implies a[text] == b[text] by {
        let i = choose|i: int| 0 <= i < t.len() && (#[trigger] t[i]).0 == text;
        assert(s[i].0 == text);
        if i == at {
            assert(t[i].1 == n);
        } else if text == name {
            assert(s[at].0 == s[i].0);
            lemma_text_total(name, name);
        }
    }
    assert(a =~= b);
}

/// One entry more.
proof fn lemma_added_counts(
    s: Seq<(Seq<char>, nat)>,
    t: Seq<(Seq<char>, nat)>,
    at: int,
    name: Seq<char>,
    n: nat,
)
    requires
        in_text_order(s),
        in_text_order(t),
        0 <= at <= s.len(),
        t == s.insert(at, (name, n)),
        !counts_of(s).dom().contains(name),
    ensures
        counts_of(t) == counts_of(s).insert(name, n),
{
    lemma_counts(s);
    lemma_counts(t);
    let a = counts_of(t);
    let b = counts_of(s).insert(name, n);
    assert(t[at] == (name, n));
    assert forall|i: int| 0 <= i < s.len() implies #[trigger] s[i] == t[if i < at {
        i
    } else {
        i + 1
    }] by {}
    assert forall|text: Seq<char>| a.dom().contains(text) <==> b.dom().contains(text) by {
        if a.dom().contains(text) {
            let i = choose|i: int| 0 <= i < t.len() && (#[trigger] t[i]).0 == text;
            if i != at {
                let k = if i < at {
                    i
                } else {
                    i - 1
                };
                assert(s[k].0 == text);
            }
        }
        if b.dom().contains(text) && text != name {
            let i = choose|i: int| 0 <= i < s.len() && (#[trigger] s[i]).0 == text;
            let k = if i < at {
                i
            } else {
                i + 1
            };
            assert(t[k].0 == text);
        }
    }
    assert(a.dom() =~= b.dom());
    assert forall|text: Seq<char>| a.dom().contains(text) implies a[text] == b[text] by {
        let i = choose|i: int| 0 <= i < t.len() && (#[trigger] t[i]).0 == text;
        if i != at {
            let k = if i < at {
                i
            } else {
                i - 1
            };
            assert(s[k] == t[i]);
            assert(counts_of(s).dom().contains(s[k].0));
        }
    }
    assert(a =~= b);
}

/// How many of the items before a position have its key.
spec fn rank_of(s: Seq<(u64, usize)>, p: int) -> nat {
    with_key(s.take(p), s[p].0).len()
}

proof fn lemma_rank(s: Seq<(u64, usize)>, p: int, q: int)
    requires
        0 <= p < s.len(),
        p < q <= s.len(),
    ensures
        rank_of(s, p) < with_key(s.take(q), s[p].0).len(),
        with_key(s.take(q), s[p].0)[rank_of(s, p) as int] == s[p],
    decreases q - p,
{
    let key = s[p].0;
    if q == p + 1 {
        assert(s.take(q).drop_last() =~= s.take(p));
    } else {
        lemma_rank(s, p, q - 1);
        assert(s.take(q).drop_last() =~= s.take(q - 1));
    }
}

/// Every item with a key is one of the list.
proof fn lemma_with_key_source(s: Seq<(u64, usize)>, key: u64, r: int) -> (p: int)
    requires
        0 <= r < with_key(s, key).len(),
    ensures
        0 <= p < s.len(),
        s[p] == with_key(s, key)[r],
        s[p].0 == key,
        rank_of(s, p) == r,
    decreases s.len(),
{
    let rest = s.drop_last();
    let last = s.len() - 1;
    if s.last().0 == key && r == with_key(rest, key).len() {
        assert(s.take(last) =~= rest);
        last
    } else {
        let p = lemma_with_key_source(rest, key, r);
        assert(rest.take(p) =~= s.take(p));
        p
    }
}

/// A stable sort of items numbered in their order holds each of them once, and
/// those with equal keys in the order of their numbers.
proof fn lemma_sorted_members(before: Seq<(u64, usize)>, after: Seq<(u64, usize)>)
    requires
        sorted_from(before, after),
        forall|j: int| 0 <= j < before.len() ==> (#[trigger] before[j]).1 == j,
    ensures
        forall|j: int| 0 <= j < after.len() ==> (#[trigger] after[j]).1 < before.len(),
        forall|j: int| 0 <= j < after.len() ==> (#[trigger] after[j]) == before[after[j].1 as int],
        forall|j: int|
            0 <= j < before.len() ==> exists|k: int|
                0 <= k < after.len() && #[trigger] after[k] == #[trigger] before[j],
        forall|x: int, y: int|
            0 <= x < y < after.len() && after[x].0 == after[y].0 ==> (#[trigger] after[x]).1 < (
            #[trigger] after[y]).1,
{
    assert(after.take(after.len() as int) =~= after);
    assert(before.take(before.len() as int) =~= before);
    assert forall|j: int| 0 <= j < after.len() implies (#[trigger] after[j]).1 < before.len()
        && after[j] == before[after[j].1 as int] by {
        let key = after[j].0;
        lemma_rank(after, j, after.len() as int);
        assert(with_key(after, key) == with_key(before, key));
        let p = lemma_with_key_source(before, key, rank_of(after, j) as int);
        assert(before[p].1 == p);
    }
    assert forall|j: int| 0 <= j < before.len() implies exists|k: int|
        0 <= k < after.len() && #[trigger] after[k] == #[trigger] before[j] by {
        let key = before[j].0;
        lemma_rank(before, j, before.len() as int);
        assert(with_key(after, key) == with_key(before, key));
        let k = lemma_with_key_source(after, key, rank_of(before, j) as int);
        assert(after[k] == before[j]);
    }
    assert forall|x: int, y: int| 0 <= x < y < after.len() && after[x].0 == after[y].0 implies (
    #[trigger] after[x]).1 < (#[trigger] after[y]).1 by {
        let key = after[x].0;
        lemma_rank(after, x, y);
        lemma_rank(after, x, after.len() as int);
        lemma_rank(after, y, after.len() as int);
        assert(with_key(after, key) == with_key(before, key));
        let p = lemma_with_key_source(before, key, rank_of(after, x) as int);
        let q = lemma_with_key_source(before, key, rank_of(after, y) as int);
        assert(before[p].1 == p);
        assert(before[q].1 == q);
        if q < p {
            lemma_rank(before, q, p);
        }
    }
}

} // verus!
