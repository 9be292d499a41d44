//! Sorting the items of a list by their sort keys, keeping items with equal keys in the
//! order in which they came.
use std::cmp::Ordering;
use vstd::prelude::*;

use crate::index::Entry;
use crate::merge::MergeResult;

verus! {

/// The keys of the sequence do not decrease.
pub open spec fn sorted_by<E>(s: Seq<E>, k: spec_fn(E) -> u64) -> bool {
    forall|i: int, j: int| 0 <= i < j < s.len() ==> k(#[trigger] s[i]) <= k(#[trigger] s[j])
}

/// The items with key `key`.
pub open spec fn with_key<E>(k: spec_fn(E) -> u64, key: u64) -> spec_fn(E) -> bool {
    |e: E| k(e) == key
}

/// `s` is `list` sorted by key, where items with equal keys keep their order. There is
/// only one such sequence (`lemma_stable_sort_unique`).
pub open spec fn stable_sort_of<E>(s: Seq<E>, list: Seq<E>, k: spec_fn(E) -> u64) -> bool {
    &&& sorted_by(s, k)
    &&& forall|key: u64| #[trigger] s.filter(with_key(k, key)) == list.filter(with_key(k, key))
}

/// Inserting an item after every item with a key no greater, and before every item with
/// a greater key, appends it to the items with its key.
proof fn lemma_insert_filter<E>(res: Seq<E>, p: int, e: E, k: spec_fn(E) -> u64, key: u64)
    requires
        0 <= p <= res.len(),
        forall|q: int| p <= q < res.len() ==> k(#[trigger] res[q]) > k(e),
    ensures
        res.insert(p, e).filter(with_key(k, key)) == if k(e) == key {
            res.filter(with_key(k, key)).push(e)
        } else {
            res.filter(with_key(k, key))
        },
{
    let pred = with_key(k, key);
    let a = res.subrange(0, p);
    let b = res.subrange(p, res.len() as int);
    assert(res =~= a + b);
    assert(res.insert(p, e) =~= a.push(e) + b);
    Seq::filter_distributes_over_add(a, b, pred);
    Seq::filter_distributes_over_add(a.push(e), b, pred);
    a.lemma_filter_push(e, pred);
    if k(e) == key {
        assert(b.all(|x: E| !pred(x))) by {
            assert forall|i: int| 0 <= i < b.len() implies !pred(#[trigger] b[i]) by {
                assert(b[i] == res[p + i]);
            }
        }
        b.lemma_all_neg_filter_empty(pred);
        assert(b.filter(pred) =~= Seq::<E>::empty());
        assert(a.filter(pred).push(e) + b.filter(pred) =~= (a.filter(pred) + b.filter(pred)).push(e));
    }
}

/// Where an item goes into a sequence sorted by key: after every item with a key no
/// greater than its own.
pub open spec fn insert_pos<E>(s: Seq<E>, e: E, k: spec_fn(E) -> u64) -> int
    decreases s.len(),
{
    if s.len() == 0 {
        0
    } else if k(s.last()) > k(e) {
        insert_pos(s.drop_last(), e, k)
    } else {
        s.len() as int
    }
}

/// `list` sorted by key by insertion, items with equal keys keeping their order.
pub open spec fn spec_sort<E>(list: Seq<E>, k: spec_fn(E) -> u64) -> Seq<E>
    decreases list.len(),
{
    if list.len() == 0 {
        Seq::empty()
    } else {
        let s = spec_sort(list.drop_last(), k);
        s.insert(insert_pos(s, list.last(), k), list.last())
    }
}

proof fn lemma_insert_pos<E>(s: Seq<E>, e: E, k: spec_fn(E) -> u64)
    requires
        sorted_by(s, k),
    ensures
        0 <= insert_pos(s, e, k) <= s.len(),
        forall|q: int| insert_pos(s, e, k) <= q < s.len() ==> k(#[trigger] s[q]) > k(e),
        forall|q: int| 0 <= q < insert_pos(s, e, k) ==> k(#[trigger] s[q]) <= k(e),
    decreases s.len(),
{
    if s.len() > 0 {
        let d = s.drop_last();
        assert(sorted_by(d, k));
        lemma_insert_pos(d, e, k);
        if k(s.last()) > k(e) {
            assert forall|q: int| insert_pos(s, e, k) <= q < s.len() implies k(#[trigger] s[q]) > k(e) by {
                if q < s.len() - 1 {
                    assert(s[q] == d[q]);
                }
            }
            assert forall|q: int| 0 <= q < insert_pos(s, e, k) implies k(#[trigger] s[q]) <= k(e) by {
                assert(s[q] == d[q]);
            }
        } else {
            assert forall|q: int| 0 <= q < insert_pos(s, e, k) implies k(#[trigger] s[q]) <= k(e) by {
                if q < s.len() - 1 {
                    assert(k(s[q]) <= k(s.last()));
                }
            }
        }
    }
}

/// Inserting an item where `insert_pos` puts it keeps a sequence sorted.
proof fn lemma_insert_sorted<E>(s: Seq<E>, p: int, e: E, k: spec_fn(E) -> u64)
    requires
        sorted_by(s, k),
        0 <= p <= s.len(),
        forall|q: int| p <= q < s.len() ==> k(#[trigger] s[q]) > k(e),
        forall|q: int| 0 <= q < p ==> k(#[trigger] s[q]) <= k(e),
    ensures
        sorted_by(s.insert(p, e), k),
{
    let r = s.insert(p, e);
    assert forall|a: int, b: int| 0 <= a < b < r.len() implies k(#[trigger] r[a]) <= k(#[trigger] r[b]) by {
        if b < p {
            assert(r[a] == s[a] && r[b] == s[b]);
        } else if b == p {
            assert(r[a] == s[a]);
        } else if a < p {
            assert(r[a] == s[a] && r[b] == s[b - 1]);
        } else if a == p {
            assert(r[b] == s[b - 1]);
        } else {
            assert(r[a] == s[a - 1] && r[b] == s[b - 1]);
        }
    }
}

/// Sorting by insertion sorts stably, and keeps every item: the result holds the items
/// of the list, each as often as the list does.
pub proof fn lemma_spec_sort<E>(list: Seq<E>, k: spec_fn(E) -> u64)
    ensures
        stable_sort_of(spec_sort(list, k), list, k),
        spec_sort(list, k).to_multiset() == list.to_multiset(),
        spec_sort(list, k).len() == list.len(),
    decreases list.len(),
{
    broadcast use vstd::seq_lib::to_multiset_build, vstd::seq_lib::to_multiset_insert;

    if list.len() == 0 {
        assert(spec_sort(list, k) =~= list);
    } else {
        let d = list.drop_last();
        let e = list.last();
        let s = spec_sort(d, k);
        lemma_spec_sort(d, k);
        lemma_insert_pos(s, e, k);
        let p = insert_pos(s, e, k);
        lemma_insert_sorted(s, p, e, k);
        assert(list =~= d.push(e));
        assert forall|key: u64| #[trigger] spec_sort(list, k).filter(with_key(k, key)) == list.filter(
            with_key(k, key),
        ) by {
            lemma_insert_filter(s, p, e, k, key);
            d.lemma_filter_push(e, with_key(k, key));
        }
        assert(spec_sort(list, k).to_multiset() == s.to_multiset().insert(e));
        assert(list.to_multiset() == d.to_multiset().insert(e));
    }
}

/// Sorts a list by key, keeping items with equal keys in order; `after` tells whether an
/// item's key is greater than another's.
pub(crate) fn stable_sort<E: Copy, F: Fn(&E, &E) -> bool>(list: &Vec<E>, after: F, Ghost(k): Ghost<spec_fn(E) -> u64>) -> (res: Vec<E>)
    requires
        forall|x: E, y: E| after.requires((&x, &y)),
        forall|x: E, y: E, r: bool| after.ensures((&x, &y), r) ==> r == (k(x) > k(y)),
    ensures
        stable_sort_of(res@, list@, k),
        res@ == spec_sort(list@, k),
{
    let mut res: Vec<E> = Vec::new();
    let mut i: usize = 0;
    assert forall|key: u64| #[trigger] res@.filter(with_key(k, key)) == list@.take(0).filter(with_key(k, key)) by {
        assert(res@ =~= list@.take(0));
    }
    while i < list.len()
        invariant
            0 <= i <= list@.len(),
            forall|x: E, y: E| after.requires((&x, &y)),
            forall|x: E, y: E, r: bool| after.ensures((&x, &y), r) ==> r == (k(x) > k(y)),
            stable_sort_of(res@, list@.take(i as int), k),
        decreases list@.len() - i,
    {
        let e = list[i];
        let mut p: usize = 0;
        let mut found = false;
        while p < res.len() && !found
            invariant
                0 <= p <= res@.len(),
                forall|x: E, y: E| after.requires((&x, &y)),
                forall|x: E, y: E, r: bool| after.ensures((&x, &y), r) ==> r == (k(x) > k(y)),
                forall|q: int| 0 <= q < p ==> k(#[trigger] res@[q]) <= k(e),
                found ==> p < res@.len() && k(res@[p as int]) > k(e),
            decreases res@.len() - p + if found {
                0int
            } else {
                1int
            },
        {
            if after(&res[p], &e) {
                found = true;
            } else {
                p = p + 1;
            }
        }
        let ghost before = res@;
        proof {
            assert forall|q: int| p <= q < before.len() implies k(#[trigger] before[q]) > k(e) by {
                if q > p {
                    assert(k(before[p as int]) <= k(before[q]));
                }
            }
            assert forall|key: u64| #[trigger] before.insert(p as int, e).filter(with_key(k, key))
                == list@.take(i + 1).filter(with_key(k, key)) by {
                lemma_insert_filter(before, p as int, e, k, key);
                assert(list@.take(i + 1) =~= list@.take(i as int).push(e));
                list@.take(i as int).lemma_filter_push(e, with_key(k, key));
            }
        }
        res.insert(p, e);
        proof {
            assert(res@ == before.insert(p as int, e));
            assert forall|a: int, b: int| 0 <= a < b < res@.len() implies k(#[trigger] res@[a]) <= k(
                #[trigger] res@[b],
            ) by {
                if b < p {
                    assert(res@[a] == before[a] && res@[b] == before[b]);
                } else if b == p {
                    assert(res@[a] == before[a]);
                } else if a < p {
                    assert(res@[a] == before[a] && res@[b] == before[b - 1]);
                } else if a == p {
                    assert(res@[b] == before[b - 1]);
                } else {
                    assert(res@[a] == before[a - 1] && res@[b] == before[b - 1]);
                }
            }
        }
        i = i + 1;
    }
    assert(list@.take(list@.len() as int) =~= list@);
    proof {
        lemma_spec_sort(list@, k);
        lemma_stable_sort_unique(res@, spec_sort(list@, k), k);
    }
    res
}

/// The key by which a merged entry is sorted: that of its right item if it has one, else
/// that of its left item.
pub open spec fn order_key(e: Entry) -> u64 {
    e.order_item().0
}

/// The key by which merged entries are sorted.
pub open spec fn entry_order() -> spec_fn(Entry) -> u64 {
    |e: Entry| order_key(e)
}

fn compare_keys(x: &(u64, usize), hash_x: (), y: &(u64, usize), hash_y: ()) -> (res: Ordering)
    ensures
        (res == Ordering::Less) == (x.0 < y.0),
        (res == Ordering::Greater) == (x.0 > y.0),
{
    if x.0 < y.0 {
        Ordering::Less
    } else if x.0 == y.0 {
        Ordering::Equal
    } else {
        Ordering::Greater
    }
}

/// Whether entry `x` sorts after entry `y`, as `MergeResult::cmp` compares them.
pub(crate) fn sorts_after(x: &Entry, y: &Entry) -> (res: bool)
    ensures
        res == (order_key(*x) > order_key(*y)),
{
    match MergeResult::cmp(x, y, (), (), compare_keys) {
        Ordering::Greater => true,
        _ => false,
    }
}

/// The merged entries that a diff shows: pairs always, an item of the first file alone
/// unless deleted items are ignored, one of the second alone unless added items are.
pub open spec fn shown(ignore_deleted: bool, ignore_added: bool) -> spec_fn(Entry) -> bool {
    |e: Entry|
        match e {
            MergeResult::Both(..) => true,
            MergeResult::Left(..) => !ignore_deleted,
            MergeResult::Right(..) => !ignore_added,
        }
}

/// Whether item `x` sorts after item `y`.
pub(crate) fn item_after(x: &(u64, usize), y: &(u64, usize)) -> (res: bool)
    ensures
        res == (x.0 > y.0),
{
    x.0 > y.0
}

/// The items with a key of a sequence without its last item.
proof fn lemma_filter_drop_last<E>(s: Seq<E>, pred: spec_fn(E) -> bool)
    requires
        s.len() > 0,
    ensures
        s.drop_last().filter(pred) == if pred(s.last()) {
            s.filter(pred).drop_last()
        } else {
            s.filter(pred)
        },
{
    assert(s =~= s.drop_last().push(s.last()));
    s.drop_last().lemma_filter_push(s.last(), pred);
}

/// Two sequences sorted by key with the same items of each key, in the same order, are
/// the same sequence: sorting a list stably has one result.
pub proof fn lemma_stable_sort_unique<E>(s: Seq<E>, t: Seq<E>, k: spec_fn(E) -> u64)
    requires
        sorted_by(s, k),
        sorted_by(t, k),
        forall|key: u64| #[trigger] s.filter(with_key(k, key)) == t.filter(with_key(k, key)),
    ensures
        s == t,
    decreases s.len() + t.len(),
{
    broadcast use vstd::seq_lib::group_filter_ensures;

    if s.len() == 0 && t.len() == 0 {
        assert(s =~= t);
    } else if s.len() == 0 || t.len() == 0 {
        // The last item of the non-empty one has a key that the other has no item of.
        let (u, v) = if s.len() == 0 {
            (t, s)
        } else {
            (s, t)
        };
        let key = k(u.last());
        u.lemma_filter_contains(with_key(k, key), u.len() - 1);
        assert(v.filter(with_key(k, key)).len() <= v.len());
        assert(u.filter(with_key(k, key)) == v.filter(with_key(k, key)));
        assert(false);
    } else {
        let m = k(s.last());
        let pm = with_key(k, m);
        // Both end with their largest key, which is the same.
        s.lemma_filter_contains(pm, s.len() - 1);
        assert(t.filter(pm).contains(s.last()));
        t.lemma_filter_contains_rev(pm, s.last());
        let j = choose|j: int| 0 <= j < t.len() && t[j] == s.last();
        let n = k(t.last());
        let pn = with_key(k, n);
        t.lemma_filter_contains(pn, t.len() - 1);
        assert(s.filter(pn).contains(t.last()));
        s.lemma_filter_contains_rev(pn, t.last());
        let i = choose|i: int| 0 <= i < s.len() && s[i] == t.last();
        if j < t.len() - 1 {
            assert(k(t[j]) <= k(t.last()));
        }
        if i < s.len() - 1 {
            assert(k(s[i]) <= k(s.last()));
        }
        assert(m == n);
        // The last item of each is the last item with that key.
        let fs = s.filter(pm);
        assert(fs.len() > 0);
        lemma_filter_last(s, pm);
        lemma_filter_last(t, pm);
        assert(s.last() == t.last());
        // What comes before is the same.
        let s2 = s.drop_last();
        let t2 = t.drop_last();
        assert forall|key: u64| #[trigger] s2.filter(with_key(k, key)) == t2.filter(with_key(k, key)) by {
            lemma_filter_drop_last(s, with_key(k, key));
            lemma_filter_drop_last(t, with_key(k, key));
        }
        assert(sorted_by(s2, k));
        assert(sorted_by(t2, k));
        lemma_stable_sort_unique(s2, t2, k);
        assert(s =~= s2.push(s.last()));
        assert(t =~= t2.push(t.last()));
    }
}

/// The last item of a sequence that meets a predicate is last among those that do.
proof fn lemma_filter_last<E>(s: Seq<E>, pred: spec_fn(E) -> bool)
    requires
        s.len() > 0,
        pred(s.last()),
    ensures
        s.filter(pred).len() > 0,
        s.filter(pred).last() == s.last(),
{
    assert(s =~= s.drop_last().push(s.last()));
    s.drop_last().lemma_filter_push(s.last(), pred);
}

} // verus!
