//! A stable sort by integer keys.

use vstd::prelude::*;

verus! {

/// The items with a given key, in their order.
pub open spec fn with_key<T>(s: Seq<(u64, T)>, key: u64) -> Seq<(u64, T)>
    decreases s.len(),
{
    if s.len() == 0 {
        Seq::empty()
    } else if s.last().0 == key {
        with_key(s.drop_last(), key).push(s.last())
    } else {
        with_key(s.drop_last(), key)
    }
}

/// Whether keys never get smaller.
pub open spec fn ordered<T>(s: Seq<(u64, T)>) -> bool {
    forall|i: int, j: int| 0 <= i <= j < s.len() ==> (#[trigger] s[i]).0 <= (#[trigger] s[j]).0
}

/// Whether `after` is `before` sorted by key, items with equal keys kept in
/// their order.
pub open spec fn sorted_from<T>(before: Seq<(u64, T)>, after: Seq<(u64, T)>) -> bool {
    &&& ordered(after)
    &&& after.len() == before.len()
    &&& forall|key: u64| #[trigger] with_key(after, key) == with_key(before, key)
}

pub proof fn lemma_with_key_concat<T>(a: Seq<(u64, T)>, b: Seq<(u64, T)>, key: u64)
    ensures
        with_key(a + b, key) == with_key(a, key) + with_key(b, key),
    decreases b.len(),
{
    if b.len() == 0 {
        assert(a + b =~= a);
        assert(with_key(a, key) + with_key(b, key) =~= with_key(a, key));
    } else {
        assert((a + b).drop_last() =~= a + b.drop_last());
        lemma_with_key_concat(a, b.drop_last(), key);
        assert(with_key(a + b, key) =~= with_key(a, key) + with_key(b, key));
    }
}

proof fn lemma_with_key_none<T>(s: Seq<(u64, T)>, key: u64)
    requires
        forall|i: int| 0 <= i < s.len() ==> (#[trigger] s[i]).0 != key,
    ensures
        with_key(s, key) == Seq::<(u64, T)>::empty(),
    decreases s.len(),
{
    if s.len() > 0 {
        assert(s[s.len() - 1].0 != key);
        assert forall|i: int| 0 <= i < s.drop_last().len() implies (#[trigger] s.drop_last()[i]).0
            != key by {
            assert(s[i].0 != key);
        }
        lemma_with_key_none(s.drop_last(), key);
    }
}

/// The items in the opposite order.
fn reversed<T>(v: Vec<T>) -> (r: Vec<T>)
    ensures
        r@ == v@.reverse(),
{
    let ghost all = v@;
    let mut rest = v;
    let mut r: Vec<T> = Vec::new();
    assert(r@ =~= all.skip(all.len() as int).reverse());
    loop
        invariant
            rest@ == all.take(rest@.len() as int),
            rest@.len() <= all.len(),
            r@ == all.skip(rest@.len() as int).reverse(),
        ensures
            r@ == all.skip(0).reverse(),
        decreases rest@.len(),
    {
        let ghost n = rest@.len() as int;
        match rest.pop() {
            None => {
                break;
            },
            Some(item) => {
                r.push(item);
                proof {
                    assert(rest@ =~= all.take(n - 1));
                    assert(item == all[n - 1]);
                    assert(r@ =~= all.skip(n - 1).reverse());
                }
            },
        }
    }
    assert(all.skip(0) =~= all);
    r
}

/// One item less at the end.
proof fn lemma_shorter<T>(s: Seq<(u64, T)>, x: (u64, T), key: u64)
    ensures
        with_key(s.push(x), key) == if x.0 == key {
            with_key(s, key).push(x)
        } else {
            with_key(s, key)
        },
{
    assert(s.push(x).drop_last() =~= s);
}

/// One item more at the front.
proof fn lemma_longer<T>(x: (u64, T), s: Seq<(u64, T)>, key: u64)
    ensures
        with_key(seq![x] + s, key) == if x.0 == key {
            seq![x] + with_key(s, key)
        } else {
            with_key(s, key)
        },
{
    lemma_with_key_concat(seq![x], s, key);
    assert(seq![x].drop_last() =~= Seq::<(u64, T)>::empty());
    assert(with_key(Seq::<(u64, T)>::empty(), key) =~= Seq::empty());
    if x.0 == key {
        assert(with_key(seq![x], key) =~= seq![x]);
    } else {
        assert(with_key(seq![x], key) + with_key(s, key) =~= with_key(s, key));
    }
}

/// Whether three parts of a merge hold the items of two lists, in order.
spec fn merging<T>(
    a0: Seq<(u64, T)>,
    b0: Seq<(u64, T)>,
    a: Seq<(u64, T)>,
    b: Seq<(u64, T)>,
    tail: Seq<(u64, T)>,
) -> bool {
    &&& ordered(a)
    &&& ordered(b)
    &&& ordered(tail)
    &&& a0.len() + b0.len() == a.len() + b.len() + tail.len()
    &&& forall|i: int, j: int|
        0 <= i < a.len() && 0 <= j < tail.len() ==> (#[trigger] a[i]).0 <= (#[trigger] tail[j]).0
    &&& forall|i: int, j: int|
        0 <= i < b.len() && 0 <= j < tail.len() ==> (#[trigger] b[i]).0 <= (#[trigger] tail[j]).0
    &&& forall|key: u64|
        #![trigger with_key(tail, key)]
        with_key(a0, key) + with_key(b0, key) == with_key(a, key) + with_key(b, key) + with_key(
            tail,
            key,
        )
}

/// Takes the last item of the first list.
proof fn lemma_take_first<T>(
    a0: Seq<(u64, T)>,
    b0: Seq<(u64, T)>,
    a: Seq<(u64, T)>,
    b: Seq<(u64, T)>,
    tail: Seq<(u64, T)>,
)
    requires
        a.len() > 0,
        b.len() == 0 || b.last().0 < a.last().0,
        merging(a0, b0, a, b, tail),
    ensures
        merging(a0, b0, a.drop_last(), b, seq![a.last()] + tail),
{
    let x = a.last();
    let rest = a.drop_last();
    let longer = seq![x] + tail;
    assert(a =~= rest.push(x));
    assert forall|key: u64|
        #![trigger with_key(longer, key)]
        with_key(a0, key) + with_key(b0, key) == with_key(rest, key) + with_key(b, key) + with_key(
            longer,
            key,
        ) by {
        lemma_shorter(rest, x, key);
        lemma_longer(x, tail, key);
        assert(with_key(a0, key) + with_key(b0, key) == with_key(a, key) + with_key(b, key)
            + with_key(tail, key));
        if key == x.0 {
            assert forall|i: int| 0 <= i < b.len() implies (#[trigger] b[i]).0 != key by {
                assert(b[i].0 <= b[b.len() - 1].0);
            }
            lemma_with_key_none(b, key);
            assert(with_key(a, key) + with_key(b, key) + with_key(tail, key) =~= with_key(rest, key)
                + with_key(b, key) + with_key(longer, key));
        }
    }
    assert forall|i: int, j: int| 0 <= i <= j < longer.len() implies (#[trigger] longer[i]).0 <= (
    #[trigger] longer[j]).0 by {
        if i == 0 && j > 0 {
            assert(a[a.len() - 1].0 <= tail[j - 1].0);
        } else if i > 0 {
            assert(tail[i - 1].0 <= tail[j - 1].0);
        }
    }
    assert forall|i: int, j: int| 0 <= i < rest.len() && 0 <= j < longer.len() implies (
    #[trigger] rest[i]).0 <= (#[trigger] longer[j]).0 by {
        if j == 0 {
            assert(a[i].0 <= a[a.len() - 1].0);
        } else {
            assert(a[i].0 <= tail[j - 1].0);
        }
    }
    assert forall|i: int, j: int| 0 <= i < b.len() && 0 <= j < longer.len() implies (
    #[trigger] b[i]).0 <= (#[trigger] longer[j]).0 by {
        if j == 0 {
            assert(b[i].0 <= b[b.len() - 1].0);
        } else {
            assert(b[i].0 <= tail[j - 1].0);
        }
    }
    assert forall|i: int, j: int| 0 <= i <= j < rest.len() implies (#[trigger] rest[i]).0 <= (
    #[trigger] rest[j]).0 by {
        assert(a[i].0 <= a[j].0);
    }
}

/// Takes the last item of the second list.
proof fn lemma_take_second<T>(
    a0: Seq<(u64, T)>,
    b0: Seq<(u64, T)>,
    a: Seq<(u64, T)>,
    b: Seq<(u64, T)>,
    tail: Seq<(u64, T)>,
)
    requires
        b.len() > 0,
        a.len() == 0 || a.last().0 <= b.last().0,
        merging(a0, b0, a, b, tail),
    ensures
        merging(a0, b0, a, b.drop_last(), seq![b.last()] + tail),
{
    let x = b.last();
    let rest = b.drop_last();
    let longer = seq![x] + tail;
    assert(b =~= rest.push(x));
    assert forall|key: u64|
        #![trigger with_key(longer, key)]
        with_key(a0, key) + with_key(b0, key) == with_key(a, key) + with_key(rest, key) + with_key(
            longer,
            key,
        ) by {
        lemma_shorter(rest, x, key);
        lemma_longer(x, tail, key);
        assert(with_key(a0, key) + with_key(b0, key) == with_key(a, key) + with_key(b, key)
            + with_key(tail, key));
        assert(with_key(a, key) + with_key(b, key) + with_key(tail, key) =~= with_key(a, key)
            + with_key(rest, key) + with_key(longer, key));
    }
    assert forall|i: int, j: int| 0 <= i <= j < longer.len() implies (#[trigger] longer[i]).0 <= (
    #[trigger] longer[j]).0 by {
        if i == 0 && j > 0 {
            assert(b[b.len() - 1].0 <= tail[j - 1].0);
        } else if i > 0 {
            assert(tail[i - 1].0 <= tail[j - 1].0);
        }
    }
    assert forall|i: int, j: int| 0 <= i < rest.len() && 0 <= j < longer.len() implies (
    #[trigger] rest[i]).0 <= (#[trigger] longer[j]).0 by {
        if j == 0 {
            assert(b[i].0 <= b[b.len() - 1].0);
        } else {
            assert(b[i].0 <= tail[j - 1].0);
        }
    }
    assert forall|i: int, j: int| 0 <= i < a.len() && 0 <= j < longer.len() implies (
    #[trigger] a[i]).0 <= (#[trigger] longer[j]).0 by {
        if j == 0 {
            assert(a[i].0 <= a[a.len() - 1].0);
        } else {
            assert(a[i].0 <= tail[j - 1].0);
        }
    }
    assert forall|i: int, j: int| 0 <= i <= j < rest.len() implies (#[trigger] rest[i]).0 <= (
    #[trigger] rest[j]).0 by {
        assert(b[i].0 <= b[j].0);
    }
}

/// Merges two sorted lists; of equal keys those of the first come first.
fn merge<T>(first: Vec<(u64, T)>, second: Vec<(u64, T)>) -> (r: Vec<(u64, T)>)
    requires
        ordered(first@),
        ordered(second@),
    ensures
        sorted_from(first@ + second@, r@),
{
    let ghost a0 = first@;
    let ghost b0 = second@;
    let mut a = first;
    let mut b = second;
    let mut back: Vec<(u64, T)> = Vec::new();
    proof {
        assert forall|key: u64|
            #![trigger with_key(back@.reverse(), key)]
            with_key(a0, key) + with_key(b0, key) == with_key(a@, key) + with_key(b@, key)
                + with_key(back@.reverse(), key) by {
            assert(back@.reverse() =~= Seq::<(u64, T)>::empty());
            assert(with_key(a0, key) + with_key(b0, key) + with_key(back@.reverse(), key)
                =~= with_key(a0, key) + with_key(b0, key));
        }
    }
    while a.len() > 0 || b.len() > 0
        invariant
            merging(a0, b0, a@, b@, back@.reverse()),
        decreases a@.len() + b@.len(),
    {
        let ghost a_now = a@;
        let ghost b_now = b@;
        let ghost tail = back@.reverse();
        let from_first: bool = b.len() == 0 || (a.len() > 0 && b[b.len() - 1].0 < a[a.len() - 1].0);
        let next = if from_first {
            a.pop()
        } else {
            b.pop()
        };
        match next {
            Some(item) => {
                back.push(item);
                proof {
                    assert(back@.reverse() =~= seq![item] + tail);
                    if from_first {
                        lemma_take_first(a0, b0, a_now, b_now, tail);
                        assert(a@ =~= a_now.drop_last());
                    } else {
                        lemma_take_second(a0, b0, a_now, b_now, tail);
                        assert(b@ =~= b_now.drop_last());
                    }
                }
            },
            None => {},
        }
    }
    let ghost tail = back@.reverse();
    let r = reversed(back);
    proof {
        assert forall|key: u64| #[trigger] with_key(r@, key) == with_key(a0 + b0, key) by {
            lemma_with_key_concat(a0, b0, key);
            assert(with_key(tail, key) == with_key(r@, key));
            assert(with_key(a@, key) + with_key(b@, key) + with_key(tail, key) =~= with_key(
                tail,
                key,
            ));
        }
    }
    r
}

/// Sorts by key, keeping items with equal keys in their order.
pub fn stable_sort<T>(items: Vec<(u64, T)>) -> (r: Vec<(u64, T)>)
    ensures
        sorted_from(items@, r@),
    decreases items@.len(),
{
    let n: usize = items.len();
    if n <= 1 {
        return items;
    }
    let ghost all = items@;
    let mut first = items;
    let second = first.split_off(n / 2);
    assert(first@ + second@ =~= all);
    let ghost a = first@;
    let ghost b = second@;
    let first = stable_sort(first);
    let second = stable_sort(second);
    let r = merge(first, second);
    proof {
        assert forall|key: u64| #[trigger] with_key(r@, key) == with_key(all, key) by {
            lemma_with_key_concat(first@, second@, key);
            lemma_with_key_concat(a, b, key);
            assert(with_key(first@, key) == with_key(a, key));
            assert(with_key(second@, key) == with_key(b, key));
        }
    }
    r
}

/// Whether no two items have the same key.
pub open spec fn distinct_keys<T>(s: Seq<(u64, T)>) -> bool {
    forall|i: int, j: int| 0 <= i < j < s.len() ==> (#[trigger] s[i]).0 != (#[trigger] s[j]).0
}

proof fn lemma_with_key_holds<T>(s: Seq<(u64, T)>, i: int)
    requires
        0 <= i < s.len(),
    ensures
        with_key(s, s[i].0).contains(s[i]),
    decreases s.len(),
{
    let key = s[i].0;
    if i == s.len() - 1 {
        assert(with_key(s, key).last() == s[i]);
    } else {
        let rest = s.drop_last();
        assert(rest[i] == s[i]);
        lemma_with_key_holds(rest, i);
        let j = choose|j: int| 0 <= j < with_key(rest, key).len() && with_key(rest, key)[j] == s[i];
        assert(with_key(s, key)[j] == s[i]);
    }
}

proof fn lemma_with_key_from<T>(s: Seq<(u64, T)>, key: u64, j: int)
    requires
        0 <= j < with_key(s, key).len(),
    ensures
        s.contains(with_key(s, key)[j]),
        with_key(s, key)[j].0 == key,
    decreases s.len(),
{
    let rest = s.drop_last();
    if s.last().0 == key && j == with_key(rest, key).len() {
        assert(s[s.len() - 1] == with_key(s, key)[j]);
    } else {
        lemma_with_key_from(rest, key, j);
        let i = choose|i: int| 0 <= i < rest.len() && rest[i] == with_key(rest, key)[j];
        assert(s[i] == with_key(s, key)[j]);
    }
}

proof fn lemma_with_key_single<T>(s: Seq<(u64, T)>, key: u64)
    requires
        distinct_keys(s),
    ensures
        with_key(s, key).len() <= 1,
    decreases s.len(),
{
    if s.len() > 0 {
        let rest = s.drop_last();
        assert forall|i: int, j: int| 0 <= i < j < rest.len() implies (#[trigger] rest[i]).0 != (
        #[trigger] rest[j]).0 by {
            assert(s[i].0 != s[j].0);
        }
        lemma_with_key_single(rest, key);
        if s.last().0 == key {
            assert forall|i: int| 0 <= i < rest.len() implies (#[trigger] rest[i]).0 != key by {
                assert(s[i].0 != s[s.len() - 1].0);
            }
            lemma_with_key_none(rest, key);
        }
    }
}

proof fn lemma_with_key_twice<T>(s: Seq<(u64, T)>, i: int, j: int)
    requires
        0 <= i < j < s.len(),
        s[i].0 == s[j].0,
    ensures
        with_key(s, s[i].0).len() >= 2,
    decreases s.len(),
{
    let rest = s.drop_last();
    if j == s.len() - 1 {
        assert(rest[i] == s[i]);
        lemma_with_key_holds(rest, i);
    } else {
        assert(rest[i] == s[i] && rest[j] == s[j]);
        lemma_with_key_twice(rest, i, j);
    }
}

/// Sorting items with distinct keys gives the same items, each key larger than
/// the one before.
pub proof fn lemma_sorted_items<T>(before: Seq<(u64, T)>, after: Seq<(u64, T)>)
    requires
        sorted_from(before, after),
        distinct_keys(before),
    ensures
        forall|i: int, j: int|
            0 <= i < j < after.len() ==> (#[trigger] after[i]).0 < (#[trigger] after[j]).0,
        forall|i: int| 0 <= i < after.len() ==> before.contains(#[trigger] after[i]),
        forall|i: int| 0 <= i < before.len() ==> after.contains(#[trigger] before[i]),
{
    assert forall|i: int, j: int| 0 <= i < j < after.len() implies (#[trigger] after[i]).0 < (
    #[trigger] after[j]).0 by {
        if after[i].0 == after[j].0 {
            lemma_with_key_twice(after, i, j);
            lemma_with_key_single(before, after[i].0);
            assert(with_key(after, after[i].0) == with_key(before, after[i].0));
        }
    }
    assert forall|i: int| 0 <= i < after.len() implies before.contains(#[trigger] after[i]) by {
        let key = after[i].0;
        lemma_with_key_holds(after, i);
        assert(with_key(after, key) == with_key(before, key));
        let j = choose|j: int| 0 <= j < with_key(after, key).len() && with_key(after, key)[j] == after[i];
        lemma_with_key_from(before, key, j);
    }
    assert forall|i: int| 0 <= i < before.len() implies after.contains(#[trigger] before[i]) by {
        let key = before[i].0;
        lemma_with_key_holds(before, i);
        assert(with_key(after, key) == with_key(before, key));
        let j = choose|j: int|
            0 <= j < with_key(before, key).len() && with_key(before, key)[j] == before[i];
        lemma_with_key_from(after, key, j);
    }
}

} // verus!
