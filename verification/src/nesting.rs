//! How arrays and objects are made of documents.

use vstd::prelude::*;

use crate::ascii::{CLOSE_BRACE, CLOSE_BRACKET, COMMA, OPEN_BRACE, OPEN_BRACKET};
use crate::grammar::{
    after_space, array, at, document, is_space, items, lemma_after_space, lemma_value_end, members,
    name, object, string, value,
};
use crate::json::{ErrorKind, Json, MAX_DEPTH};
use crate::locality::{
    all_space, behind_member, lemma_items_moved, lemma_member_fails, lemma_member_read,
    lemma_members_moved, lemma_space_kept, lemma_space_moved, lemma_space_run, lemma_string_kept,
    lemma_string_moved, lemma_value_kept, lemma_value_moved,
};
use crate::roundtrip::nested_within;
use crate::strings::{all_wf, lemma_quoted, meant, spelled, Piece};

verus! {

/// A value is the same inside other arrays and objects, as far as the limit
/// allows.
proof fn lemma_value_inside(b: Seq<u8>, i: int, depth: nat, other: nat, limit: nat)
    requires
        value(b, i, depth) matches Ok((v, end)) && nested_within(v, limit),
        other + limit <= MAX_DEPTH,
    ensures
        value(b, i, other) == value(b, i, depth),
    decreases b.len() - i, 1nat,
{
    let first = after_space(b, i + 1);
    lemma_after_space(b, i + 1);
    if b[i] == OPEN_BRACE {
        assert(value(b, i, depth) == object(b, i, depth));
        assert(value(b, i, other) == object(b, i, other));
        if !at(b, first, CLOSE_BRACE) {
            let list = members(b, first, depth + 1)->Ok_0.0;
            let v = Json::Object(list);
            assert(nested_within(v, limit));
            assert forall|k: int| 0 <= k < list.len() implies nested_within(
                (#[trigger] list[k]).1,
                (limit - 1) as nat,
            ) by {
                assert(v->Object_0[k] == list[k]);
            }
            lemma_members_inside(b, first, depth + 1, other + 1, (limit - 1) as nat);
        }
    } else if b[i] == OPEN_BRACKET {
        assert(value(b, i, depth) == array(b, i, depth));
        assert(value(b, i, other) == array(b, i, other));
        if !at(b, first, CLOSE_BRACKET) {
            let list = items(b, first, depth + 1)->Ok_0.0;
            let v = Json::Array(list);
            assert(nested_within(v, limit));
            assert forall|k: int| 0 <= k < list.len() implies nested_within(
                #[trigger] list[k],
                (limit - 1) as nat,
            ) by {
                assert(v->Array_0[k] == list[k]);
            }
            lemma_items_inside(b, first, depth + 1, other + 1, (limit - 1) as nat);
        }
    }
}

proof fn lemma_items_inside(b: Seq<u8>, i: int, depth: nat, other: nat, limit: nat)
    requires
        items(b, i, depth) matches Ok((list, end)) && forall|k: int|
            0 <= k < list.len() ==> nested_within(#[trigger] list[k], limit),
        other + limit <= MAX_DEPTH,
    ensures
        items(b, i, other) == items(b, i, depth),
    decreases b.len() - i, 2nat,
{
    let list = items(b, i, depth)->Ok_0.0;
    let (item, j) = value(b, i, depth)->Ok_0;
    assert(list[0] == item);
    assert(nested_within(list[0], limit));
    lemma_value_inside(b, i, depth, other, limit);
    let k = after_space(b, j);
    lemma_after_space(b, j);
    if b[k] == COMMA {
        let next = after_space(b, k + 1);
        lemma_after_space(b, k + 1);
        let rest = items(b, next, depth)->Ok_0.0;
        assert forall|n: int| 0 <= n < rest.len() implies nested_within(#[trigger] rest[n], limit) by {
            assert(list[n + 1] == rest[n]);
        }
        lemma_items_inside(b, next, depth, other, limit);
    }
}

#[verifier::spinoff_prover]
#[verifier::rlimit(40)]
proof fn lemma_members_inside(b: Seq<u8>, i: int, depth: nat, other: nat, limit: nat)
    requires
        0 <= i,
        members(b, i, depth) matches Ok((list, end)) && forall|k: int|
            0 <= k < list.len() ==> nested_within((#[trigger] list[k]).1, limit),
        other + limit <= MAX_DEPTH,
    ensures
        members(b, i, other) == members(b, i, depth),
    decreases b.len() - i, 2nat,
{
    let list = members(b, i, depth)->Ok_0.0;
    lemma_member_fails(b, i, depth);
    let (key, v) = name(b, i)->Ok_0;
    let (field, j) = value(b, v, depth)->Ok_0;
    lemma_member_read(b, i, depth, key, v, field, j);
    assert(list[0] == (key, field));
    assert(nested_within(list[0].1, limit));
    lemma_value_inside(b, v, depth, other, limit);
    lemma_member_read(b, i, other, key, v, field, j);
    let k = after_space(b, j);
    lemma_after_space(b, j);
    if b[k] == COMMA {
        let next = after_space(b, k + 1);
        lemma_after_space(b, k + 1);
        let rest = members(b, next, depth)->Ok_0.0;
        assert forall|n: int| 0 <= n < rest.len() implies nested_within(
            (#[trigger] rest[n]).1,
            limit,
        ) by {
            assert(list[n + 1] == rest[n]);
        }
        lemma_members_inside(b, next, depth, other, limit);
    }
}

/// Whether a document can stand inside an array or an object.
pub open spec fn reads_as(b: Seq<u8>, v: Json) -> bool {
    document(b) == Ok::<Json, (int, ErrorKind)>(v) && nested_within(v, 127)
}

/// Whether a byte is neither space nor can go on a number.
pub open spec fn sets_off(b: u8) -> bool {
    &&& b != 32 && b != 9 && b != 10 && b != 13
    &&& !(48 <= b <= 57) && b != 46 && b != 69 && b != 101
}

/// What a document is inside an array or an object with something behind it
/// that is neither space nor part of a number.
proof fn lemma_inner(p: Seq<u8>, x: Seq<u8>, v: Json)
    requires
        reads_as(p, v),
        x.len() > 0,
        sets_off(x[0]),
    ensures
        ({
            let b = p + x;
            let i = after_space(b, 0);
            &&& 0 <= i < p.len()
            &&& i == after_space(p, 0)
            &&& value(b, i, 1) matches Ok((w, j)) && w == v && i < j <= p.len() && after_space(b, j)
                == p.len()
            &&& b[i] != 93
            &&& b[i] != 125
        }),
{
    let b = p + x;
    let i = after_space(p, 0);
    lemma_after_space(p, 0);
    let (w, j) = value(p, i, 0)->Ok_0;
    lemma_value_end(p, i, 0);
    assert(i < p.len());
    lemma_value_inside(p, i, 0, 1, 127);
    lemma_value_kept(p, x, i, 1);
    lemma_space_kept(p, x, 0);
    lemma_space_kept(p, x, j);
    lemma_after_space(p, j);
    assert(b[p.len() as int] == x[0]);
    assert(after_space(b, p.len() as int) == p.len());
    assert(b[i] == p[i]);
}

/// Documents with a comma between one and the next and a bracket at the end.
pub open spec fn listed(documents: Seq<Seq<u8>>) -> Seq<u8>
    decreases documents.len(),
{
    if documents.len() == 0 {
        seq![93u8]
    } else {
        documents[0] + (if documents.len() == 1 {
            seq![93u8]
        } else {
            seq![44u8] + listed(documents.drop_first())
        })
    }
}

proof fn lemma_item_read(b: Seq<u8>, i: int, item: Json, j: int)
    requires
        0 <= i < j,
        value(b, i, 1) == Ok::<(Json, int), (int, ErrorKind)>((item, j)),
        after_space(b, j) < b.len(),
    ensures
        b[after_space(b, j)] == 93 ==> items(b, i, 1) == Ok::<(Seq<Json>, int), (int, ErrorKind)>(
            (seq![item], after_space(b, j) + 1),
        ),
        b[after_space(b, j)] == 44 ==> (items(b, after_space(b, after_space(b, j) + 1), 1) matches Ok(
            (rest, end),
        ) ==> items(b, i, 1) == Ok::<(Seq<Json>, int), (int, ErrorKind)>((seq![item] + rest, end))),
{
}

#[verifier::spinoff_prover]
#[verifier::rlimit(40)]
proof fn lemma_listed(documents: Seq<Seq<u8>>, values: Seq<Json>)
    requires
        documents.len() == values.len(),
        documents.len() > 0,
        forall|i: int| 0 <= i < values.len() ==> reads_as(#[trigger] documents[i], values[i]),
    ensures
        ({
            let b = listed(documents);
            let i = after_space(b, 0);
            &&& 0 <= i < b.len()
            &&& b[i] != 93
            &&& items(b, i, 1) == Ok::<(Seq<Json>, int), (int, ErrorKind)>(
                (values, b.len() as int),
            )
        }),
    decreases documents.len(),
{
    let b = listed(documents);
    let p = documents[0];
    let v = values[0];
    assert(reads_as(documents[0], values[0]));
    let n = p.len() as int;
    if documents.len() == 1 {
        let x = seq![93u8];
        lemma_inner(p, x, v);
        assert(b[n] == x[0]);
        let i = after_space(b, 0);
        lemma_item_read(b, i, v, value(b, i, 1)->Ok_0.1);
        assert(values =~= seq![v]);
    } else {
        let (rest, others) = (documents.drop_first(), values.drop_first());
        assert forall|i: int| 0 <= i < others.len() implies reads_as(
            #[trigger] rest[i],
            others[i],
        ) by {
            assert(reads_as(documents[i + 1], values[i + 1]));
        }
        lemma_listed(rest, others);
        let tail = listed(rest);
        let x = seq![44u8] + tail;
        lemma_inner(p, x, v);
        let i = after_space(b, 0);
        assert(b[n] == x[0]);
        let w = p + seq![44u8];
        assert(b =~= w + tail);
        let next = after_space(tail, 0);
        lemma_space_moved(w, tail, 0);
        lemma_items_moved(w, tail, next, 1);
        assert(after_space(b, n + 1) == w.len() + next);
        assert(items(b, after_space(b, n + 1), 1) == Ok::<(Seq<Json>, int), (int, ErrorKind)>(
            (others, b.len() as int),
        ));
        lemma_item_read(b, i, v, value(b, i, 1)->Ok_0.1);
        assert(values =~= seq![v] + others);
    }
}

/// Documents between brackets, with a comma between one and the next, are the
/// array of their values.
pub proof fn arrays_hold_their_documents(documents: Seq<Seq<u8>>, values: Seq<Json>)
    requires
        documents.len() == values.len(),
        forall|i: int| 0 <= i < values.len() ==> reads_as(#[trigger] documents[i], values[i]),
    ensures
        document(seq![91u8] + listed(documents)) == Ok::<Json, (int, ErrorKind)>(
            Json::Array(values),
        ),
{
    let tail = listed(documents);
    let w = seq![91u8];
    let b = w + tail;
    assert(b[0] == 91);
    assert(after_space(b, 0) == 0);
    assert(after_space(b, b.len() as int) == b.len());
    if documents.len() == 0 {
        assert(b[1] == 93);
        assert(after_space(b, 1) == 1);
        assert(values =~= Seq::<Json>::empty());
    } else {
        lemma_listed(documents, values);
        let i = after_space(tail, 0);
        lemma_space_moved(w, tail, 0);
        lemma_items_moved(w, tail, i, 1);
        assert(b[1 + i] == tail[i]);
        assert(array(b, 0, 0) == Ok::<(Json, int), (int, ErrorKind)>(
            (Json::Array(values), b.len() as int),
        ));
    }
}

/// A member of an object as it is spelled: its name with space around it, and
/// a document behind the colon.
pub struct Entry {
    pub before: Seq<u8>,
    pub name: Seq<Piece>,
    pub behind: Seq<u8>,
    pub document: Seq<u8>,
}

impl Entry {
    /// Whether the member is one of the given value.
    pub open spec fn reads_as(self, v: Json) -> bool {
        &&& all_space(self.before)
        &&& all_wf(self.name)
        &&& all_space(self.behind)
        &&& reads_as(self.document, v)
    }

    /// What stands before the document.
    pub open spec fn label(self) -> Seq<u8> {
        self.before + (seq![34u8] + spelled(self.name) + seq![34u8]) + self.behind + seq![58u8]
    }
}

/// Members with a comma between one and the next and a brace at the end.
pub open spec fn entered(entries: Seq<Entry>) -> Seq<u8>
    decreases entries.len(),
{
    if entries.len() == 0 {
        seq![125u8]
    } else {
        entries[0].label() + (entries[0].document + (if entries.len() == 1 {
            seq![125u8]
        } else {
            seq![44u8] + entered(entries.drop_first())
        }))
    }
}

/// The name of a member is read with the space around it.
#[verifier::spinoff_prover]
proof fn lemma_label(e: Entry, y: Seq<u8>)
    requires
        all_space(e.before),
        all_wf(e.name),
        all_space(e.behind),
    ensures
        ({
            let b = e.label() + y;
            let i = after_space(b, 0);
            &&& i == e.before.len()
            &&& b[i] == 34
            &&& name(b, i) == Ok::<(Seq<char>, int), (int, ErrorKind)>(
                (meant(e.name), e.label().len() + after_space(y, 0)),
            )
        }),
{
    let b = e.label() + y;
    let q = seq![34u8] + spelled(e.name) + seq![34u8];
    let r = e.behind + seq![58u8] + y;
    let (m, n) = (e.before.len() as int, q.len() as int);
    let k = m + n + e.behind.len();
    assert(b =~= e.before + (q + r));
    lemma_quoted(e.name);
    assert(b[m] == q[0]);
    assert(b[k] == 58);
    assert forall|j: int| 0 <= j < m implies is_space(#[trigger] b[j]) by {
        assert(is_space(e.before[j]));
    }
    lemma_space_run(b, 0, m);
    assert(after_space(b, m) == m);
    lemma_string_kept(q, r, 1);
    lemma_string_moved(e.before, q + r, 1);
    assert(string(b, m) == Ok::<(Seq<char>, int), (int, ErrorKind)>((meant(e.name), m + n)));
    assert forall|j: int| m + n <= j < k implies is_space(#[trigger] b[j]) by {
        assert(is_space(e.behind[j - m - n]));
    }
    lemma_space_run(b, m + n, k);
    assert(after_space(b, k) == k);
    lemma_space_moved(e.label(), y, 0);
    assert(e.label().len() == k + 1);
}

/// Where the value of a member stands and what it is.
proof fn lemma_entry_value(e: Entry, x: Seq<u8>, v: Json) -> (at_value: (int, int))
    requires
        e.reads_as(v),
        x.len() > 0,
        sets_off(x[0]),
    ensures
        ({
            let b = e.label() + (e.document + x);
            let i = after_space(b, 0);
            let k = (e.label().len() + e.document.len()) as int;
            let (from, to) = at_value;
            &&& 0 <= i < b.len()
            &&& b[i] == 34
            &&& k < b.len()
            &&& b[k] == x[0]
            &&& name(b, i) == Ok::<(Seq<char>, int), (int, ErrorKind)>((meant(e.name), from))
            &&& value(b, from, 1) == Ok::<(Json, int), (int, ErrorKind)>((v, to))
            &&& after_space(b, to) == k
        }),
{
    let y = e.document + x;
    let w = e.label();
    let b = w + y;
    lemma_label(e, y);
    lemma_inner(e.document, x, v);
    let from = after_space(y, 0);
    lemma_value_moved(w, y, from, 1);
    let to = value(y, from, 1)->Ok_0.1;
    lemma_space_moved(w, y, to);
    assert(b[(w.len() + e.document.len()) as int] == x[0]);
    (w.len() + from, w.len() + to)
}

#[verifier::spinoff_prover]
#[verifier::rlimit(40)]
proof fn lemma_entry(e: Entry, x: Seq<u8>, v: Json)
    requires
        e.reads_as(v),
        x.len() > 0,
        sets_off(x[0]),
    ensures
        ({
            let b = e.label() + (e.document + x);
            let i = after_space(b, 0);
            let k = (e.label().len() + e.document.len()) as int;
            &&& 0 <= i < b.len()
            &&& b[i] == 34
            &&& k < b.len()
            &&& b[k] == x[0]
            &&& members(b, i, 1) == behind_member(
                b,
                k,
                (meant(e.name), v),
                members(b, after_space(b, k + 1), 1),
            )
        }),
{
    let b = e.label() + (e.document + x);
    let i = after_space(b, 0);
    let (from, to) = lemma_entry_value(e, x, v);
    lemma_member_read(b, i, 1, meant(e.name), from, v, to);
}

/// The members that entries are.
pub open spec fn members_of(entries: Seq<Entry>, values: Seq<Json>) -> Seq<(Seq<char>, Json)> {
    Seq::new(entries.len(), |i: int| (meant(entries[i].name), values[i]))
}

/// Whether bytes are read as members up to their end.
spec fn read_to_end(b: Seq<u8>, list: Seq<(Seq<char>, Json)>) -> bool {
    let i = after_space(b, 0);
    &&& 0 <= i < b.len()
    &&& b[i] == 34
    &&& members(b, i, 1) == Ok::<(Seq<(Seq<char>, Json)>, int), (int, ErrorKind)>(
        (list, b.len() as int),
    )
}

#[verifier::spinoff_prover]
proof fn lemma_last_entry(e: Entry, v: Json)
    requires
        e.reads_as(v),
    ensures
        read_to_end(e.label() + (e.document + seq![125u8]), seq![(meant(e.name), v)]),
{
    lemma_entry(e, seq![125u8], v);
}

#[verifier::spinoff_prover]
#[verifier::rlimit(40)]
proof fn lemma_further_entry(e: Entry, v: Json, tail: Seq<u8>, list: Seq<(Seq<char>, Json)>)
    requires
        e.reads_as(v),
        read_to_end(tail, list),
    ensures
        read_to_end(
            e.label() + (e.document + (seq![44u8] + tail)),
            seq![(meant(e.name), v)] + list,
        ),
{
    let x = seq![44u8] + tail;
    let b = e.label() + (e.document + x);
    let k = (e.label().len() + e.document.len()) as int;
    lemma_entry(e, x, v);
    let w = e.label() + (e.document + seq![44u8]);
    assert(b =~= w + tail);
    let next = after_space(tail, 0);
    lemma_space_moved(w, tail, 0);
    lemma_members_moved(w, tail, next, 1);
    assert(after_space(b, k + 1) == w.len() + next);
}

proof fn lemma_entered(entries: Seq<Entry>, values: Seq<Json>)
    requires
        entries.len() == values.len(),
        entries.len() > 0,
        forall|i: int| 0 <= i < values.len() ==> (#[trigger] entries[i]).reads_as(values[i]),
    ensures
        read_to_end(entered(entries), members_of(entries, values)),
    decreases entries.len(),
{
    let e = entries[0];
    let v = values[0];
    assert(entries[0].reads_as(values[0]));
    let first = (meant(e.name), v);
    if entries.len() == 1 {
        lemma_last_entry(e, v);
        assert(members_of(entries, values) =~= seq![first]);
    } else {
        let (rest, others) = (entries.drop_first(), values.drop_first());
        assert forall|i: int| 0 <= i < others.len() implies (#[trigger] rest[i]).reads_as(
            others[i],
        ) by {
            assert(entries[i + 1].reads_as(values[i + 1]));
        }
        lemma_entered(rest, others);
        lemma_further_entry(e, v, entered(rest), members_of(rest, others));
        assert(members_of(entries, values) =~= seq![first] + members_of(rest, others));
    }
}

/// Members between braces, each a name, a colon and a document, with a comma
/// between one and the next, are the object of these members in their order.
pub proof fn objects_hold_their_members(entries: Seq<Entry>, values: Seq<Json>)
    requires
        entries.len() == values.len(),
        forall|i: int| 0 <= i < values.len() ==> (#[trigger] entries[i]).reads_as(values[i]),
    ensures
        document(seq![123u8] + entered(entries)) == Ok::<Json, (int, ErrorKind)>(
            Json::Object(members_of(entries, values)),
        ),
{
    let tail = entered(entries);
    let w = seq![123u8];
    let b = w + tail;
    assert(b[0] == 123);
    assert(after_space(b, 0) == 0);
    assert(after_space(b, b.len() as int) == b.len());
    if entries.len() == 0 {
        assert(b[1] == 125);
        assert(after_space(b, 1) == 1);
        assert(members_of(entries, values) =~= Seq::<(Seq<char>, Json)>::empty());
    } else {
        lemma_entered(entries, values);
        let i = after_space(tail, 0);
        lemma_space_moved(w, tail, 0);
        lemma_members_moved(w, tail, i, 1);
        assert(b[1 + i] == tail[i]);
        assert(object(b, 0, 0) == Ok::<(Json, int), (int, ErrorKind)>(
            (Json::Object(members_of(entries, values)), b.len() as int),
        ));
    }
}

/// Something else behind a document is refused where it starts.
pub proof fn data_behind_a_document_is_refused(b: Seq<u8>, x: Seq<u8>)
    requires
        document(b) is Ok,
        x.len() > 0,
        sets_off(x[0]),
    ensures
        document(b + x) == Err::<Json, (int, ErrorKind)>(
            (b.len() as int, ErrorKind::TrailingData),
        ),
{
    let c = b + x;
    let i = after_space(b, 0);
    lemma_after_space(b, 0);
    let (v, j) = value(b, i, 0)->Ok_0;
    lemma_value_end(b, i, 0);
    assert(i < b.len());
    lemma_value_kept(b, x, i, 0);
    lemma_space_kept(b, x, 0);
    lemma_space_kept(b, x, j);
    lemma_after_space(b, j);
    assert(c[b.len() as int] == x[0]);
    assert(after_space(c, b.len() as int) == b.len());
}

/// Behind an element of an array comes a comma or the closing bracket, and
/// behind the comma no closing bracket.
pub proof fn arrays_go_on_with_an_element(p: Seq<u8>, v: Json, x: Seq<u8>, w: Seq<u8>)
    requires
        reads_as(p, v),
        x.len() > 0,
        sets_off(x[0]),
        x[0] != 44,
        x[0] != 93,
        all_space(w),
    ensures
        document(seq![91u8] + (p + x)) == Err::<Json, (int, ErrorKind)>(
            (1 + p.len() as int, ErrorKind::ExpectedCommaOrCloseBracket),
        ),
        document(seq![91u8] + (p + (seq![44u8] + w + seq![93u8]))) == Err::<
            Json,
            (int, ErrorKind),
        >((2 + p.len() + w.len() as int, ErrorKind::UnexpectedByte(93))),
{
    let open = seq![91u8];
    let tail = p + x;
    let b = open + tail;
    lemma_inner(p, x, v);
    let i = after_space(tail, 0);
    lemma_space_moved(open, tail, 0);
    lemma_items_moved(open, tail, i, 1);
    assert(b[0] == 91 && b[1 + i] == tail[i]);
    assert(tail[p.len() as int] == x[0]);
    assert(items(tail, i, 1) == Err::<(Seq<Json>, int), (int, ErrorKind)>(
        (p.len() as int, ErrorKind::ExpectedCommaOrCloseBracket),
    ));
    assert(value(b, 0, 0) == array(b, 0, 0));
    lemma_comma_at_the_end(p, v, w);
}

proof fn lemma_comma_at_the_end(p: Seq<u8>, v: Json, w: Seq<u8>)
    requires
        reads_as(p, v),
        all_space(w),
    ensures
        document(seq![91u8] + (p + (seq![44u8] + w + seq![93u8]))) == Err::<
            Json,
            (int, ErrorKind),
        >((2 + p.len() + w.len() as int, ErrorKind::UnexpectedByte(93))),
{
    let open = seq![91u8];
    let x = seq![44u8] + w + seq![93u8];
    let tail = p + x;
    let b = open + tail;
    let n = p.len() as int;
    lemma_inner(p, x, v);
    let i = after_space(tail, 0);
    lemma_space_moved(open, tail, 0);
    lemma_items_moved(open, tail, i, 1);
    assert(b[0] == 91 && b[1 + i] == tail[i]);
    assert(tail[n] == 44);
    let end = n + 1 + w.len();
    assert(tail[end] == 93);
    assert forall|j: int| n + 1 <= j < end implies is_space(#[trigger] tail[j]) by {
        assert(is_space(w[j - n - 1]));
    }
    lemma_space_run(tail, n + 1, end);
    assert(after_space(tail, end) == end);
    assert(value(tail, end, 1) == Err::<(Json, int), (int, ErrorKind)>(
        (end, ErrorKind::UnexpectedByte(93)),
    ));
    assert(items(tail, end, 1) == Err::<(Seq<Json>, int), (int, ErrorKind)>(
        (end, ErrorKind::UnexpectedByte(93)),
    ));
    assert(items(tail, i, 1) == Err::<(Seq<Json>, int), (int, ErrorKind)>(
        (end, ErrorKind::UnexpectedByte(93)),
    ));
    assert(value(b, 0, 0) == array(b, 0, 0));
}

/// Brackets and braces with nothing but space in them are the empty array and
/// the empty object.
pub proof fn space_makes_no_element(w: Seq<u8>)
    requires
        all_space(w),
    ensures
        document(seq![91u8] + w + seq![93u8]) == Ok::<Json, (int, ErrorKind)>(
            Json::Array(Seq::empty()),
        ),
        document(seq![123u8] + w + seq![125u8]) == Ok::<Json, (int, ErrorKind)>(
            Json::Object(Seq::empty()),
        ),
{
    let n = w.len() as int;
    let b = seq![91u8] + w + seq![93u8];
    assert(b[0] == 91 && b[n + 1] == 93);
    assert forall|j: int| 1 <= j < n + 1 implies is_space(#[trigger] b[j]) by {
        assert(is_space(w[j - 1]));
    }
    lemma_space_run(b, 1, n + 1);
    assert(after_space(b, n + 1) == n + 1);
    assert(after_space(b, 0) == 0 && after_space(b, n + 2) == n + 2);
    assert(value(b, 0, 0) == array(b, 0, 0));
    let c = seq![123u8] + w + seq![125u8];
    assert(c[0] == 123 && c[n + 1] == 125);
    assert forall|j: int| 1 <= j < n + 1 implies is_space(#[trigger] c[j]) by {
        assert(is_space(w[j - 1]));
    }
    lemma_space_run(c, 1, n + 1);
    assert(after_space(c, n + 1) == n + 1);
    assert(after_space(c, 0) == 0 && after_space(c, n + 2) == n + 2);
    assert(value(c, 0, 0) == object(c, 0, 0));
}

/// The space of a document is made of spaces, tabs, line feeds and carriage
/// returns.
pub proof fn space_is_one_of_four_bytes(b: u8)
    ensures
        is_space(b) <==> b == 32 || b == 9 || b == 10 || b == 13,
{
}

/// Behind a member of an object comes a comma or the closing brace.
#[verifier::rlimit(40)]
pub proof fn objects_go_on_with_a_member(e: Entry, v: Json, x: Seq<u8>)
    requires
        e.reads_as(v),
        x.len() > 0,
        sets_off(x[0]),
        x[0] != 44,
        x[0] != 125,
    ensures
        document(seq![123u8] + (e.label() + (e.document + x))) == Err::<Json, (int, ErrorKind)>(
            (
                1 + e.label().len() + e.document.len() as int,
                ErrorKind::ExpectedCommaOrCloseBrace,
            ),
        ),
{
    let open = seq![123u8];
    let tail = e.label() + (e.document + x);
    let b = open + tail;
    lemma_entry(e, x, v);
    let i = after_space(tail, 0);
    lemma_space_moved(open, tail, 0);
    lemma_members_moved(open, tail, i, 1);
    assert(b[0] == 123 && b[1 + i] == tail[i]);
    assert(value(b, 0, 0) == object(b, 0, 0));
}

/// A member of an object starts with a quote.
pub proof fn names_start_with_a_quote(w: Seq<u8>, x: Seq<u8>)
    requires
        all_space(w),
        x.len() > 0,
        !is_space(x[0]),
        x[0] != 34,
        x[0] != 125,
    ensures
        document(seq![123u8] + w + x) == Err::<Json, (int, ErrorKind)>(
            (1 + w.len() as int, ErrorKind::ExpectedKey),
        ),
{
    let b = seq![123u8] + w + x;
    let n = w.len() as int;
    assert(b[0] == 123 && b[n + 1] == x[0]);
    assert forall|j: int| 1 <= j < n + 1 implies is_space(#[trigger] b[j]) by {
        assert(is_space(w[j - 1]));
    }
    lemma_space_run(b, 1, n + 1);
    assert(after_space(b, n + 1) == n + 1);
    assert(after_space(b, 0) == 0);
    assert(value(b, 0, 0) == object(b, 0, 0));
    assert(name(b, n + 1) == Err::<(Seq<char>, int), (int, ErrorKind)>(
        (n + 1, ErrorKind::ExpectedKey),
    ));
    lemma_member_fails(b, n + 1, 1);
}

/// Behind the name of a member comes a colon.
pub proof fn names_are_followed_by_a_colon(pieces: Seq<Piece>, w: Seq<u8>, x: Seq<u8>)
    requires
        all_wf(pieces),
        all_space(w),
        x.len() > 0,
        !is_space(x[0]),
        x[0] != 58,
    ensures
        document(seq![123u8] + (seq![34u8] + spelled(pieces) + seq![34u8]) + w + x) == Err::<
            Json,
            (int, ErrorKind),
        >((3 + spelled(pieces).len() + w.len() as int, ErrorKind::ExpectedColon)),
{
    let open = seq![123u8];
    let q = seq![34u8] + spelled(pieces) + seq![34u8];
    let r = w + x;
    let b = open + q + w + x;
    let n = 1 + q.len() as int;
    let k = n + w.len();
    assert(b =~= open + (q + r));
    lemma_quoted(pieces);
    assert(b[0] == 123 && b[1] == q[0]);
    assert(after_space(b, 0) == 0 && after_space(b, 1) == 1);
    lemma_string_kept(q, r, 1);
    lemma_string_moved(open, q + r, 1);
    assert(string(b, 1) == Ok::<(Seq<char>, int), (int, ErrorKind)>((meant(pieces), n)));
    assert forall|j: int| n <= j < k implies is_space(#[trigger] b[j]) by {
        assert(is_space(w[j - n]));
    }
    lemma_space_run(b, n, k);
    assert(b[k] == x[0]);
    assert(after_space(b, k) == k);
    assert(name(b, 1) == Err::<(Seq<char>, int), (int, ErrorKind)>((k, ErrorKind::ExpectedColon)));
    lemma_member_fails(b, 1, 1);
    assert(value(b, 0, 0) == object(b, 0, 0));
}

} // verus!
