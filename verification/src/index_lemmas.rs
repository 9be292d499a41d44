//! What holds of every index: how its ids are laid out, what each id names, and which
//! unit each item id belongs to.
use vstd::prelude::*;

use crate::filter::{
    File, Unit, indices_where, spec_index_function, spec_index_functions, spec_index_type,
    spec_index_variable, spec_inline_types,
};
use crate::index::{
    Entry, Id, Index, ItemKind, Side, all_items, all_positions, all_ranges, assigned_unit_id,
    entry_unit, item_count, item_key_at, item_listed, items_in_order, lemma_entries_in_range,
    lemma_sort_keyed, ranges_from, select_keyed, spec_index_parent, spec_item_ids, sorted_items,
    spec_unit_list, unit_entries, unit_items, unit_pair, units_in_order, spec_find, lemma_find,
};
use crate::merge::{
    MergeResult, left_item, left_items, left_name, lemma_left_items_from, lemma_merge_keeps_items,
    lemma_merge_names_distinct, lemma_merge_pairs_share_key, lemma_right_items_from, merge_keyed,
    names_distinct, right_item, right_items, right_name,
};

verus! {

/// The id pairs of all items of a merged unit: its types, then its functions, then its
/// variables.
pub open spec fn unit_span(e: Entry, fa: File, fb: File) -> Seq<(Id, Id)> {
    unit_items(e, fa, fb, ItemKind::Type) + unit_items(e, fa, fb, ItemKind::Function)
        + unit_items(e, fa, fb, ItemKind::Variable)
}

proof fn lemma_all_items_step(es: Seq<Entry>, fa: File, fb: File, k: int)
    requires
        0 <= k < es.len(),
    ensures
        all_items(es.take(k + 1), fa, fb) == all_items(es.take(k), fa, fb) + unit_span(
            es[k],
            fa,
            fb,
        ),
{
    assert(es.take(k + 1).drop_last() =~= es.take(k));
    assert(es.take(k + 1).last() == es[k]);
    assert(all_items(es.take(k + 1), fa, fb) =~= all_items(es.take(k), fa, fb) + unit_span(
        es[k],
        fa,
        fb,
    ));
}

/// The items of the first `m` merged units come first among the items of all of them.
proof fn lemma_all_items_prefix(es: Seq<Entry>, fa: File, fb: File, m: int)
    requires
        0 <= m <= es.len(),
    ensures
        all_items(es.take(m), fa, fb).len() <= all_items(es, fa, fb).len(),
        forall|j: int|
            0 <= j < all_items(es.take(m), fa, fb).len() ==> #[trigger] all_items(es, fa, fb)[j]
                == all_items(es.take(m), fa, fb)[j],
    decreases es.len(),
{
    if m == es.len() {
        assert(es.take(m) =~= es);
    } else {
        lemma_all_items_prefix(es.drop_last(), fa, fb, m);
        assert(es.drop_last().take(m) =~= es.take(m));
        let whole = all_items(es, fa, fb);
        let front = all_items(es.drop_last(), fa, fb);
        assert forall|j: int| 0 <= j < front.len() implies #[trigger] whole[j] == front[j] by {}
    }
}

/// Where the ids of merged unit `k` lie: its items start after those of the units
/// before it.
pub open spec fn range_at(es: Seq<Entry>, fa: File, fb: File, base: int, k: int) -> crate::index::UnitIndex {
    let s = base + all_items(es.take(k), fa, fb).len();
    let t = s + unit_items(es[k], fa, fb, ItemKind::Type).len();
    let f = t + unit_items(es[k], fa, fb, ItemKind::Function).len();
    let v = f + unit_items(es[k], fa, fb, ItemKind::Variable).len();
    ranges_from(s, t, f, v)
}

proof fn lemma_all_ranges_at(es: Seq<Entry>, fa: File, fb: File, base: int)
    ensures
        all_ranges(es, fa, fb, base).len() == es.len(),
        forall|k: int|
            0 <= k < es.len() ==> #[trigger] all_ranges(es, fa, fb, base)[k] == range_at(
                es,
                fa,
                fb,
                base,
                k,
            ),
    decreases es.len(),
{
    if es.len() > 0 {
        let front = es.drop_last();
        lemma_all_ranges_at(front, fa, fb, base);
        assert forall|k: int| 0 <= k < es.len() implies #[trigger] all_ranges(
            es,
            fa,
            fb,
            base,
        )[k] == range_at(es, fa, fb, base, k) by {
            if k < es.len() - 1 {
                assert(front.take(k) =~= es.take(k));
                assert(front[k] == es[k]);
                assert(all_ranges(es, fa, fb, base)[k] == all_ranges(front, fa, fb, base)[k]);
            } else {
                assert(es.take(k) =~= front);
            }
        }
    }
}

/// Facts about the ids of merged unit `k`: where its span starts and ends, and that
/// its ids are those of its items.
proof fn lemma_span_at(es: Seq<Entry>, fa: File, fb: File, k: int)
    requires
        0 <= k < es.len(),
    ensures
        all_items(es.take(k), fa, fb).len() + unit_span(es[k], fa, fb).len() <= all_items(
            es,
            fa,
            fb,
        ).len(),
        forall|j: int|
            0 <= j < unit_span(es[k], fa, fb).len() ==> #[trigger] all_items(es, fa, fb)[all_items(
                es.take(k),
                fa,
                fb,
            ).len() + j] == unit_span(es[k], fa, fb)[j],
{
    lemma_all_items_step(es, fa, fb, k);
    lemma_all_items_prefix(es, fa, fb, k + 1);
    let before = all_items(es.take(k), fa, fb);
    let span = unit_span(es[k], fa, fb);
    assert forall|j: int| 0 <= j < span.len() implies #[trigger] all_items(es, fa, fb)[before.len()
        + j] == span[j] by {
        assert(all_items(es.take(k + 1), fa, fb)[before.len() + j] == span[j]);
    }
}

/// Id `id` is nothing, or names an item of the given kind of unit `unit` (where there is
/// no such unit, it is nothing).
pub open spec fn names_item_in(id: Id, kind: ItemKind, unit: Option<usize>) -> bool {
    id is Nil || (unit is Some && id.spec_owner() == unit && id.spec_item_index(kind) is Some)
}

/// An id pair of merged unit `e`: each side names an item of the given kind of the
/// unit of that side, and at least one side names an item.
pub open spec fn pair_in_unit(p: (Id, Id), kind: ItemKind, e: Entry) -> bool {
    &&& names_item_in(p.0, kind, entry_unit(e, Side::Left))
    &&& names_item_in(p.1, kind, entry_unit(e, Side::Right))
    &&& !(p.0 is Nil && p.1 is Nil)
}

proof fn lemma_unit_items_in_unit(e: Entry, fa: File, fb: File, kind: ItemKind)
    ensures
        forall|j: int|
            0 <= j < unit_items(e, fa, fb, kind).len() ==> pair_in_unit(
                #[trigger] unit_items(e, fa, fb, kind)[j],
                kind,
                e,
            ),
{
}

/// The layout of the ids. Id 0 stands for nothing and ids 1 to n for the n listed
/// units, in their order. After them each unit's types, then its functions, then its
/// variables take the next ids, unit after unit, up to the last id.
pub proof fn lemma_index_layout(index: Index, fa: File, fb: File, diff: bool)
    requires
        index.is_index_of(fa, fb, diff),
    ensures
        ({
            let es = unit_entries(fa, fb, diff);
            let n = es.len() as int;
            let ids = index.id_pairs();
            let units = index.unit_ranges();
            &&& units.len() == n + 1
            &&& ids.len() >= n + 1
            &&& ids[0] == (Id::Nil, Id::Nil)
            &&& forall|u: int| 1 <= u <= n ==> #[trigger] ids[u] == unit_pair(es[u - 1])
            &&& forall|u: int|
                1 <= u <= n ==> {
                    let r = #[trigger] units[u];
                    &&& r.types.start <= r.types.end
                    &&& r.types.end == r.functions.start
                    &&& r.functions.start <= r.functions.end
                    &&& r.functions.end == r.variables.start
                    &&& r.variables.start <= r.variables.end
                    &&& r.variables.end <= ids.len()
                }
            &&& n >= 1 ==> units[1].types.start == n + 1
            &&& forall|u: int|
                #![trigger units[u]]
                1 <= u < n ==> units[u].variables.end == units[u + 1].types.start
            &&& if n >= 1 {
                units[n].variables.end == ids.len()
            } else {
                ids.len() == 1
            }
        }),
{
    let es = unit_entries(fa, fb, diff);
    let n = es.len() as int;
    let ids = index.id_pairs();
    let units = index.unit_ranges();
    let base = 1 + n;
    let whole = all_items(es, fa, fb);
    index.lemma_id_count();
    lemma_all_ranges_at(es, fa, fb, base);
    assert(ids.len() == 1 + n + whole.len());
    assert forall|u: int| 1 <= u <= n implies #[trigger] ids[u] == unit_pair(es[u - 1]) by {}
    assert forall|u: int| 1 <= u <= n implies {
        let r = #[trigger] units[u];
        &&& r.types.start <= r.types.end
        &&& r.types.end == r.functions.start
        &&& r.functions.start <= r.functions.end
        &&& r.functions.end == r.variables.start
        &&& r.variables.start <= r.variables.end
        &&& r.variables.end <= ids.len()
        &&& r.types.start == base + all_items(es.take(u - 1), fa, fb).len()
        &&& r.variables.end == base + all_items(es.take(u), fa, fb).len()
    } by {
        let k = u - 1;
        lemma_span_at(es, fa, fb, k);
        lemma_all_items_step(es, fa, fb, k);
        assert(units[u] == all_ranges(es, fa, fb, base)[k]);
    }
    if n >= 1 {
        assert(es.take(0) =~= Seq::<Entry>::empty());
        assert(units[1].types.start == base + all_items(es.take(0), fa, fb).len());
        assert(es.take(n) =~= es);
        assert(units[n].variables.end == base + all_items(es.take(n), fa, fb).len());
    }
    assert forall|u: int|
        #![trigger units[u]]
        1 <= u < n implies units[u].variables.end == units[u + 1].types.start by {
        assert(units[u].variables.end == base + all_items(es.take(u), fa, fb).len());
        assert(units[u + 1].types.start == base + all_items(es.take(u), fa, fb).len());
    }
}

/// What the ids of a unit's ranges name: each id of a unit's types names a type of that
/// unit, of the first file, of the second, or of both; and so for its functions and its
/// variables.
pub proof fn lemma_index_items(index: Index, fa: File, fb: File, diff: bool)
    requires
        index.is_index_of(fa, fb, diff),
    ensures
        ({
            let es = unit_entries(fa, fb, diff);
            let ids = index.id_pairs();
            let units = index.unit_ranges();
            forall|u: int, i: int|
                #![trigger units[u], ids[i]]
                1 <= u <= es.len() ==> {
                    &&& units[u].types.start <= i < units[u].types.end ==> pair_in_unit(
                        ids[i],
                        ItemKind::Type,
                        es[u - 1],
                    )
                    &&& units[u].functions.start <= i < units[u].functions.end ==> pair_in_unit(
                        ids[i],
                        ItemKind::Function,
                        es[u - 1],
                    )
                    &&& units[u].variables.start <= i < units[u].variables.end ==> pair_in_unit(
                        ids[i],
                        ItemKind::Variable,
                        es[u - 1],
                    )
                }
        }),
{
    let es = unit_entries(fa, fb, diff);
    let n = es.len() as int;
    let ids = index.id_pairs();
    let units = index.unit_ranges();
    let base = 1 + n;
    index.lemma_id_count();
    lemma_all_ranges_at(es, fa, fb, base);
    assert forall|u: int, i: int|
        #![trigger units[u], ids[i]]
        1 <= u <= es.len() implies {
        &&& units[u].types.start <= i < units[u].types.end ==> pair_in_unit(
            ids[i],
            ItemKind::Type,
            es[u - 1],
        )
        &&& units[u].functions.start <= i < units[u].functions.end ==> pair_in_unit(
            ids[i],
            ItemKind::Function,
            es[u - 1],
        )
        &&& units[u].variables.start <= i < units[u].variables.end ==> pair_in_unit(
            ids[i],
            ItemKind::Variable,
            es[u - 1],
        )
    } by {
        let k = u - 1;
        let e = es[k];
        lemma_span_at(es, fa, fb, k);
        lemma_all_items_step(es, fa, fb, k);
        lemma_all_items_prefix(es, fa, fb, k + 1);
        assert(units[u] == all_ranges(es, fa, fb, base)[k]);
        let before = all_items(es.take(k), fa, fb).len();
        let ty = unit_items(e, fa, fb, ItemKind::Type);
        let fu = unit_items(e, fa, fb, ItemKind::Function);
        let va = unit_items(e, fa, fb, ItemKind::Variable);
        let span = unit_span(e, fa, fb);
        lemma_unit_items_in_unit(e, fa, fb, ItemKind::Type);
        lemma_unit_items_in_unit(e, fa, fb, ItemKind::Function);
        lemma_unit_items_in_unit(e, fa, fb, ItemKind::Variable);
        if units[u].types.start <= i < units[u].types.end {
            let j = i - base - before;
            assert(ids[i] == all_items(es, fa, fb)[before + j]);
            assert(span[j] == ty[j]);
        }
        if units[u].functions.start <= i < units[u].functions.end {
            let j = i - base - before;
            assert(ids[i] == all_items(es, fa, fb)[before + j]);
            assert(span[j] == fu[j - ty.len()]);
        }
        if units[u].variables.start <= i < units[u].variables.end {
            let j = i - base - before;
            assert(ids[i] == all_items(es, fa, fb)[before + j]);
            assert(span[j] == va[j - ty.len() - fu.len()]);
        }
    }
}

proof fn lemma_unit_contents(index: Index, fa: File, fb: File, diff: bool, u: int, kind: ItemKind)
    requires
        index.is_index_of(fa, fb, diff),
        1 <= u <= unit_entries(fa, fb, diff).len(),
    ensures
        spec_item_ids(index, u as usize, kind) == unit_items(
            unit_entries(fa, fb, diff)[u - 1],
            fa,
            fb,
            kind,
        ),
{
    let es = unit_entries(fa, fb, diff);
    let n = es.len() as int;
    let ids = index.id_pairs();
    let units = index.unit_ranges();
    let base = 1 + n;
    let k = u - 1;
    let e = es[k];
    index.lemma_id_count();
    lemma_all_ranges_at(es, fa, fb, base);
    lemma_span_at(es, fa, fb, k);
    assert(ids.len() == base + all_items(es, fa, fb).len());
    assert(units.len() == n + 1);
    assert(units[u] == all_ranges(es, fa, fb, base)[k]);
    let before = all_items(es.take(k), fa, fb).len();
    let ty = unit_items(e, fa, fb, ItemKind::Type);
    let fu = unit_items(e, fa, fb, ItemKind::Function);
    let va = unit_items(e, fa, fb, ItemKind::Variable);
    let span = unit_span(e, fa, fb);
    let s = base + before;
    let r = units[u];
    assert(s + ty.len() + fu.len() + va.len() <= ids.len());
    assert(r.types.start == s && r.types.end == s + ty.len());
    assert(r.functions.start == s + ty.len() && r.functions.end == s + ty.len() + fu.len());
    assert(r.variables.start == s + ty.len() + fu.len());
    assert(r.variables.end == s + ty.len() + fu.len() + va.len());
    let got = spec_item_ids(index, u as usize, kind);
    let want = unit_items(e, fa, fb, kind);
    let off = match kind {
        ItemKind::Type => 0,
        ItemKind::Function => ty.len() as int,
        ItemKind::Variable => (ty.len() + fu.len()) as int,
    };
    assert(got.len() == want.len());
    assert forall|j: int| 0 <= j < want.len() implies got[j] == want[j] by {
        let jj = off + j;
        assert(got[j] == ids[s + jj]);
        assert(ids[s + jj] == all_items(es, fa, fb)[before + jj]);
        assert(all_items(es, fa, fb)[before + jj] == span[jj]);
        assert(span[jj] == want[j]);
    }
    assert(got =~= want);
}

/// What a unit's ranges hold: the ids of the types of merged unit `u` are exactly the
/// id pairs of its types (for a unit of one file, its listed types in its order; for a
/// unit of both files, the merge of both units' sorted types), and so for its functions
/// and its variables.
pub proof fn lemma_index_contents(index: Index, fa: File, fb: File, diff: bool)
    requires
        index.is_index_of(fa, fb, diff),
    ensures
        forall|u: int, kind: ItemKind|
            1 <= u <= unit_entries(fa, fb, diff).len() ==> #[trigger] spec_item_ids(
                index,
                u as usize,
                kind,
            ) == unit_items(unit_entries(fa, fb, diff)[u - 1], fa, fb, kind),
{
    assert forall|u: int, kind: ItemKind|
        1 <= u <= unit_entries(fa, fb, diff).len() implies #[trigger] spec_item_ids(
        index,
        u as usize,
        kind,
    ) == unit_items(unit_entries(fa, fb, diff)[u - 1], fa, fb, kind) by {
        lemma_unit_contents(index, fa, fb, diff, u, kind);
    }
}

/// Every selected position is one that `order` lists; and where `order` lists no
/// position twice, no position is selected twice.
proof fn lemma_select_keyed_names(
    order: Seq<usize>,
    n: int,
    keep: spec_fn(int) -> bool,
    key: spec_fn(int) -> u64,
)
    ensures
        forall|k: int|
            0 <= k < select_keyed(order, n, keep, key).len() ==> order.contains(
                #[trigger] select_keyed(order, n, keep, key)[k].1,
            ),
        forall|k: int|
            0 <= k < select_keyed(order, n, keep, key).len() ==> (#[trigger] select_keyed(
                order,
                n,
                keep,
                key,
            )[k]).0 == key(select_keyed(order, n, keep, key)[k].1 as int),
        order.no_duplicates() ==> names_distinct(select_keyed(order, n, keep, key)),
    decreases order.len(),
{
    if order.len() > 0 {
        let front = order.drop_last();
        lemma_select_keyed_names(front, n, keep, key);
        let rest = select_keyed(front, n, keep, key);
        let all = select_keyed(order, n, keep, key);
        assert forall|k: int| 0 <= k < all.len() implies order.contains(#[trigger] all[k].1) by {
            if k < rest.len() {
                assert(all[k] == rest[k]);
                let p = choose|p: int| 0 <= p < front.len() && front[p] == rest[k].1;
                assert(order[p] == rest[k].1);
            } else {
                assert(order[order.len() - 1] == all[k].1);
            }
        }
        assert forall|k: int| 0 <= k < all.len() implies (#[trigger] all[k]).0 == key(
            all[k].1 as int,
        ) by {
            if k < rest.len() {
                assert(all[k] == rest[k]);
            }
        }
        if order.no_duplicates() {
            assert(front.no_duplicates());
            assert forall|i: int, j: int| 0 <= i < j < all.len() implies #[trigger] all[i].1
                != #[trigger] all[j].1 by {
                if j < rest.len() {
                    assert(all[i] == rest[i]);
                    assert(all[j] == rest[j]);
                } else {
                    assert(all[i] == rest[i]);
                    assert(all[j].1 == order[order.len() - 1]);
                    let p = choose|p: int| 0 <= p < front.len() && front[p] == rest[i].1;
                    assert(order[p] == rest[i].1);
                }
            }
        }
    }
}

/// `0, 1, .., n - 1` lists no position twice.
proof fn lemma_all_positions_distinct(n: int)
    requires
        0 <= n <= usize::MAX,
    ensures
        all_positions(n).no_duplicates(),
{
    let order = all_positions(n);
    assert forall|i: int, j: int|
        0 <= i < order.len() && 0 <= j < order.len() && i != j implies order[i] != order[j] by {
        assert(order[i] == i as usize && order[j] == j as usize);
    }
}

/// Each listed unit carries the key of the unit it names, and no unit is listed twice.
proof fn lemma_unit_list_keys(file: File, diff: bool)
    ensures
        forall|k: int|
            0 <= k < spec_unit_list(file, diff).len() ==> (#[trigger] spec_unit_list(file, diff)[k]).0
                == file.units@[spec_unit_list(file, diff)[k].1 as int].key,
        names_distinct(spec_unit_list(file, diff)),
{
    let base = units_in_order(file);
    assert(file.units.len() == file.units@.len());
    lemma_all_positions_distinct(file.units@.len() as int);
    lemma_select_keyed_names(
        all_positions(file.units@.len() as int),
        file.units@.len() as int,
        |i: int| file.units@[i].selected,
        |i: int| file.units@[i].key,
    );
    if diff {
        lemma_sort_keyed(base);
        let l = spec_unit_list(file, diff);
        assert forall|k: int| 0 <= k < l.len() implies (#[trigger] l[k]).0 == file.units@[l[k].1 as int].key by {
            let p = choose|p: int| 0 <= p < base.len() && base[p] == l[k];
        }
    }
}

/// No two merged units hold the same unit of a side.
proof fn lemma_entries_distinct(fa: File, fb: File, diff: bool)
    ensures
        forall|j: int, k: int, side: Side|
            0 <= j < k < unit_entries(fa, fb, diff).len() && (#[trigger] entry_unit(
                unit_entries(fa, fb, diff)[j],
                side,
            )) is Some ==> entry_unit(unit_entries(fa, fb, diff)[j], side) != #[trigger] entry_unit(
                unit_entries(fa, fb, diff)[k],
                side,
            ),
{
    let es = unit_entries(fa, fb, diff);
    let la = spec_unit_list(fa, diff);
    lemma_unit_list_keys(fa, diff);
    if diff {
        let lb = spec_unit_list(fb, true);
        lemma_unit_list_keys(fb, true);
        lemma_merge_names_distinct(la, lb);
        assert forall|j: int, k: int, side: Side|
            0 <= j < k < es.len() && (#[trigger] entry_unit(es[j], side)) is Some implies entry_unit(
            es[j],
            side,
        ) != #[trigger] entry_unit(es[k], side) by {
            match side {
                Side::Left => {
                    assert(entry_unit(es[j], side) == left_name(es[j]));
                    assert(entry_unit(es[k], side) == left_name(es[k]));
                },
                Side::Right => {
                    assert(entry_unit(es[j], side) == right_name(es[j]));
                    assert(entry_unit(es[k], side) == right_name(es[k]));
                },
            }
        }
    } else {
        assert forall|j: int, k: int, side: Side|
            0 <= j < k < es.len() && (#[trigger] entry_unit(es[j], side)) is Some implies entry_unit(
            es[j],
            side,
        ) != #[trigger] entry_unit(es[k], side) by {
            assert(es[j] == Entry::Left(la[j]));
            assert(es[k] == Entry::Left(la[k]));
        }
    }
}

/// A unit of a side that only merged unit `k` holds gets id `k + 1`.
proof fn lemma_assigned_unit_id(es: Seq<Entry>, side: Side, k: int, u: usize)
    requires
        0 <= k < es.len(),
        entry_unit(es[k], side) == Some(u),
        forall|j: int| k < j < es.len() ==> entry_unit(#[trigger] es[j], side) != Some(u),
    ensures
        assigned_unit_id(es, side, u) == k + 1,
    decreases es.len(),
{
    if k < es.len() - 1 {
        let front = es.drop_last();
        assert(front[k] == es[k]);
        assert forall|j: int| k < j < front.len() implies entry_unit(#[trigger] front[j], side)
            != Some(u) by {
            assert(front[j] == es[j]);
        }
        lemma_assigned_unit_id(front, side, k, u);
    }
}

/// The parent of an id pair of merged unit `k` that names an item of the unit is the
/// unit's id.
proof fn lemma_parent_of_pair(
    index: Index,
    fa: File,
    fb: File,
    diff: bool,
    k: int,
    p: (Id, Id),
    kind: ItemKind,
)
    requires
        index.is_index_of(fa, fb, diff),
        0 <= k < unit_entries(fa, fb, diff).len(),
        pair_in_unit(p, kind, unit_entries(fa, fb, diff)[k]),
    ensures
        match p.0.spec_parent(index.unit_id_table(Side::Left)) {
            Some(x) => Some(x),
            None => p.1.spec_parent(index.unit_id_table(Side::Right)),
        } == Some((k + 1) as usize),
{
    let es = unit_entries(fa, fb, diff);
    let e = es[k];
    lemma_entries_distinct(fa, fb, diff);
    lemma_entries_in_range(fa, fb, diff);
    assert(match es[k] {
        MergeResult::Left(a) => a.1 < fa.units@.len(),
        MergeResult::Right(b) => b.1 < fb.units@.len() && diff,
        MergeResult::Both(a, b) => a.1 < fa.units@.len() && b.1 < fb.units@.len() && diff,
    });
    if !(p.0 is Nil) {
        let ua = entry_unit(e, Side::Left)->0;
        assert forall|j: int| k < j < es.len() implies entry_unit(#[trigger] es[j], Side::Left)
            != Some(ua) by {}
        lemma_assigned_unit_id(es, Side::Left, k, ua);
        assert(index.unit_id_table(Side::Left)[ua as int] == assigned_unit_id(es, Side::Left, ua) as usize);
    } else {
        let ub = entry_unit(e, Side::Right)->0;
        assert forall|j: int| k < j < es.len() implies entry_unit(#[trigger] es[j], Side::Right)
            != Some(ub) by {}
        lemma_assigned_unit_id(es, Side::Right, k, ub);
        assert(index.unit_id_table(Side::Right)[ub as int] == assigned_unit_id(es, Side::Right, ub) as usize);
    }
}

/// Each item id belongs to its unit: the parent of every id of a unit's types,
/// functions and variables is the unit's id.
pub proof fn lemma_index_parent(index: Index, fa: File, fb: File, diff: bool)
    requires
        index.is_index_of(fa, fb, diff),
    ensures
        forall|u: int, i: int|
            #![trigger index.unit_ranges()[u], index.id_pairs()[i]]
            1 <= u <= unit_entries(fa, fb, diff).len() && index.unit_ranges()[u].types.start <= i
                < index.unit_ranges()[u].variables.end ==> spec_index_parent(index, i as usize)
                == Some(u as usize),
{
    let es = unit_entries(fa, fb, diff);
    let ids = index.id_pairs();
    let units = index.unit_ranges();
    lemma_index_layout(index, fa, fb, diff);
    lemma_index_items(index, fa, fb, diff);
    assert forall|u: int, i: int|
        #![trigger units[u], ids[i]]
        1 <= u <= es.len() && units[u].types.start <= i < units[u].variables.end implies spec_index_parent(
        index,
        i as usize,
    ) == Some(u as usize) by {
        let kind = if i < units[u].types.end {
            ItemKind::Type
        } else if i < units[u].functions.end {
            ItemKind::Function
        } else {
            ItemKind::Variable
        };
        assert(pair_in_unit(ids[i], kind, es[u - 1]));
        assert(i < ids.len());
        lemma_parent_of_pair(index, fa, fb, diff, u - 1, ids[i], kind);
    }
}

/// The key of the item of a file that an id names, if it names one.
pub open spec fn item_key(file: File, id: Id) -> Option<u64> {
    match id {
        Id::Unit { unit_index } => Some(file.units@[unit_index as int].key),
        Id::Type { unit_index, type_index } => Some(
            file.units@[unit_index as int].types@[type_index as int].key,
        ),
        Id::Function { unit_index, function_index } => Some(
            file.units@[unit_index as int].functions@[function_index as int].key,
        ),
        Id::Variable { unit_index, variable_index } => Some(
            file.units@[unit_index as int].variables@[variable_index as int].key,
        ),
        Id::Nil => None,
    }
}

/// Each sorted item carries the key of the item that it names.
proof fn lemma_sorted_items_keys(unit: Unit, kind: ItemKind)
    ensures
        forall|k: int|
            0 <= k < sorted_items(unit, kind).len() ==> (#[trigger] sorted_items(unit, kind)[k]).0
                == match kind {
                ItemKind::Type => unit.types@[sorted_items(unit, kind)[k].1 as int].key,
                ItemKind::Function => unit.functions@[sorted_items(unit, kind)[k].1 as int].key,
                ItemKind::Variable => unit.variables@[sorted_items(unit, kind)[k].1 as int].key,
            },
{
    let base = items_in_order(unit, kind);
    assert(unit.types.len() == unit.types@.len());
    assert(unit.functions.len() == unit.functions@.len());
    assert(unit.variables.len() == unit.variables@.len());
    lemma_all_positions_distinct(item_count(unit, kind));
    lemma_select_keyed_names(
        all_positions(item_count(unit, kind)),
        item_count(unit, kind),
        item_listed(unit, kind),
        item_key_at(unit, kind),
    );
    lemma_sort_keyed(base);
    let l = sorted_items(unit, kind);
    assert forall|k: int| 0 <= k < l.len() implies (#[trigger] l[k]).0 == match kind {
        ItemKind::Type => unit.types@[l[k].1 as int].key,
        ItemKind::Function => unit.functions@[l[k].1 as int].key,
        ItemKind::Variable => unit.variables@[l[k].1 as int].key,
    } by {
        let p = choose|p: int| 0 <= p < base.len() && base[p] == l[k];
    }
}

/// An id pair that names an item on both sides names two items with equal keys.
pub open spec fn pair_keys_agree(fa: File, fb: File, p: (Id, Id)) -> bool {
    !(p.0 is Nil) && !(p.1 is Nil) ==> item_key(fa, p.0) == item_key(fb, p.1)
}

proof fn lemma_unit_items_keys(e: Entry, fa: File, fb: File, kind: ItemKind)
    ensures
        forall|j: int|
            0 <= j < unit_items(e, fa, fb, kind).len() ==> pair_keys_agree(
                fa,
                fb,
                #[trigger] unit_items(e, fa, fb, kind)[j],
            ),
{
    if let MergeResult::Both(a, b) = e {
        let sa = sorted_items(fa.units@[a.1 as int], kind);
        let sb = sorted_items(fb.units@[b.1 as int], kind);
        let m = merge_keyed(sa, sb);
        lemma_merge_pairs_share_key(sa, sb);
        lemma_sorted_items_keys(fa.units@[a.1 as int], kind);
        lemma_sorted_items_keys(fb.units@[b.1 as int], kind);
        assert forall|j: int| 0 <= j < m.len() implies pair_keys_agree(
            fa,
            fb,
            #[trigger] unit_items(e, fa, fb, kind)[j],
        ) by {
            if let MergeResult::Both(x, y) = m[j] {
                crate::merge::lemma_merge_members(sa, sb, j);
                let p = choose|p: int| 0 <= p < sa.len() && sa[p] == x;
                let q = choose|q: int| 0 <= q < sb.len() && sb[q] == y;
                assert(sa[p].0 == x.0);
                assert(sb[q].0 == y.0);
            }
        }
    }
}

proof fn lemma_all_items_keys(es: Seq<Entry>, fa: File, fb: File)
    ensures
        forall|j: int|
            0 <= j < all_items(es, fa, fb).len() ==> pair_keys_agree(
                fa,
                fb,
                #[trigger] all_items(es, fa, fb)[j],
            ),
    decreases es.len(),
{
    if es.len() > 0 {
        let e = es.last();
        lemma_all_items_keys(es.drop_last(), fa, fb);
        lemma_unit_items_keys(e, fa, fb, ItemKind::Type);
        lemma_unit_items_keys(e, fa, fb, ItemKind::Function);
        lemma_unit_items_keys(e, fa, fb, ItemKind::Variable);
        let front = all_items(es.drop_last(), fa, fb);
        let ty = unit_items(e, fa, fb, ItemKind::Type);
        let fu = unit_items(e, fa, fb, ItemKind::Function);
        let va = unit_items(e, fa, fb, ItemKind::Variable);
        let all = all_items(es, fa, fb);
        assert forall|j: int| 0 <= j < all.len() implies pair_keys_agree(
            fa,
            fb,
            #[trigger] all[j],
        ) by {
            if j < front.len() {
                assert(all[j] == front[j]);
            } else if j < front.len() + ty.len() {
                assert(all[j] == ty[j - front.len()]);
            } else if j < front.len() + ty.len() + fu.len() {
                assert(all[j] == fu[j - front.len() - ty.len()]);
            } else {
                assert(all[j] == va[j - front.len() - ty.len() - fu.len()]);
            }
        }
    }
}

/// What a diff pairs is only ever two units, or two items, with equal keys: every id
/// that names something of both files names two of the same kind and key.
pub proof fn lemma_index_pairs_share_key(index: Index, fa: File, fb: File)
    requires
        index.is_index_of(fa, fb, true),
    ensures
        forall|i: int|
            0 <= i < index.id_pairs().len() ==> pair_keys_agree(
                fa,
                fb,
                #[trigger] index.id_pairs()[i],
            ),
{
    let es = unit_entries(fa, fb, true);
    let n = es.len() as int;
    let ids = index.id_pairs();
    let la = spec_unit_list(fa, true);
    let lb = spec_unit_list(fb, true);
    lemma_all_items_keys(es, fa, fb);
    lemma_merge_pairs_share_key(la, lb);
    lemma_unit_list_keys(fa, true);
    lemma_unit_list_keys(fb, true);
    assert forall|i: int| 0 <= i < ids.len() implies pair_keys_agree(fa, fb, #[trigger] ids[i]) by {
        if 1 <= i <= n {
            assert(ids[i] == unit_pair(es[i - 1]));
            if let MergeResult::Both(a, b) = es[i - 1] {
                crate::merge::lemma_merge_members(la, lb, i - 1);
                let p = choose|p: int| 0 <= p < la.len() && la[p] == a;
                let q = choose|q: int| 0 <= q < lb.len() && lb[q] == b;
                assert(la[p].0 == a.0);
                assert(lb[q].0 == b.0);
            }
        } else if i > n {
            assert(ids[i] == all_items(es, fa, fb)[i - 1 - n]);
        }
    }
}

/// A single file's index names items of that file only.
pub proof fn lemma_index_single(index: Index, file: File)
    requires
        index.is_index_of(file, file, false),
    ensures
        forall|i: int| 0 <= i < index.id_pairs().len() ==> (#[trigger] index.id_pairs()[i]).1 is Nil,
{
    let es = unit_entries(file, file, false);
    let n = es.len() as int;
    let ids = index.id_pairs();
    lemma_all_items_single(es, file);
    assert forall|i: int| 0 <= i < ids.len() implies (#[trigger] ids[i]).1 is Nil by {
        if 1 <= i <= n {
            assert(ids[i] == unit_pair(es[i - 1]));
        } else if i > n {
            assert(ids[i] == all_items(es, file, file)[i - 1 - n]);
        }
    }
}

proof fn lemma_all_items_single(es: Seq<Entry>, file: File)
    requires
        forall|k: int| 0 <= k < es.len() ==> (#[trigger] es[k]) is Left,
    ensures
        forall|j: int|
            0 <= j < all_items(es, file, file).len() ==> (#[trigger] all_items(
                es,
                file,
                file,
            )[j]).1 is Nil,
    decreases es.len(),
{
    if es.len() > 0 {
        let e = es.last();
        assert(es.drop_last().len() < es.len());
        assert forall|k: int| 0 <= k < es.drop_last().len() implies (#[trigger] es.drop_last()[k]) is Left by {
            assert(es.drop_last()[k] == es[k]);
        }
        lemma_all_items_single(es.drop_last(), file);
        lemma_unit_items_in_unit(e, file, file, ItemKind::Type);
        lemma_unit_items_in_unit(e, file, file, ItemKind::Function);
        lemma_unit_items_in_unit(e, file, file, ItemKind::Variable);
        let front = all_items(es.drop_last(), file, file);
        let ty = unit_items(e, file, file, ItemKind::Type);
        let fu = unit_items(e, file, file, ItemKind::Function);
        let va = unit_items(e, file, file, ItemKind::Variable);
        let all = all_items(es, file, file);
        assert forall|j: int| 0 <= j < all.len() implies (#[trigger] all[j]).1 is Nil by {
            if j < front.len() {
                assert(all[j] == front[j]);
            } else if j < front.len() + ty.len() {
                assert(all[j] == ty[j - front.len()]);
            } else if j < front.len() + ty.len() + fu.len() {
                assert(all[j] == fu[j - front.len() - ty.len()]);
            } else {
                assert(all[j] == va[j - front.len() - ty.len() - fu.len()]);
            }
        }
    }
}

/// A merged entry pairs an item with itself.
pub open spec fn pairs_self(e: Entry) -> bool {
    match e {
        MergeResult::Both(a, b) => a == b,
        _ => false,
    }
}

proof fn lemma_all_items_self(es: Seq<Entry>, file: File)
    requires
        forall|k: int| 0 <= k < es.len() ==> pairs_self(#[trigger] es[k]),
    ensures
        forall|j: int|
            0 <= j < all_items(es, file, file).len() ==> (#[trigger] all_items(es, file, file)[j]).0
                == all_items(es, file, file)[j].1,
    decreases es.len(),
{
    if es.len() > 0 {
        let e = es.last();
        let front = es.drop_last();
        assert forall|k: int| 0 <= k < front.len() implies pairs_self(#[trigger] front[k]) by {
            assert(front[k] == es[k]);
        }
        lemma_all_items_self(front, file);
        let a = e->Both_0;
        assert forall|kind: ItemKind| true implies forall|j: int|
            0 <= j < #[trigger] unit_items(e, file, file, kind).len() ==> unit_items(e, file, file, kind)[j].0
                == unit_items(e, file, file, kind)[j].1 by {
            let sa = sorted_items(file.units@[a.1 as int], kind);
            crate::merge::lemma_merge_self(sa);
        }
        let before = all_items(front, file, file);
        let ty = unit_items(e, file, file, ItemKind::Type);
        let fu = unit_items(e, file, file, ItemKind::Function);
        let va = unit_items(e, file, file, ItemKind::Variable);
        let all = all_items(es, file, file);
        assert forall|j: int| 0 <= j < all.len() implies (#[trigger] all[j]).0 == all[j].1 by {
            if j < before.len() {
                assert(all[j] == before[j]);
            } else if j < before.len() + ty.len() {
                assert(all[j] == ty[j - before.len()]);
            } else if j < before.len() + ty.len() + fu.len() {
                assert(all[j] == fu[j - before.len() - ty.len()]);
            } else {
                assert(all[j] == va[j - before.len() - ty.len() - fu.len()]);
            }
        }
    }
}

/// Comparing a file with itself pairs every unit and every item with itself: the diff
/// has nothing added and nothing deleted.
pub proof fn lemma_index_self_diff(index: Index, file: File)
    requires
        index.is_index_of(file, file, true),
    ensures
        forall|i: int|
            1 <= i < index.id_pairs().len() ==> (#[trigger] index.id_pairs()[i]).0 == index.id_pairs()[i].1
                && !(index.id_pairs()[i].0 is Nil),
{
    let es = unit_entries(file, file, true);
    let n = es.len() as int;
    let ids = index.id_pairs();
    let l = spec_unit_list(file, true);
    crate::merge::lemma_merge_self(l);
    assert forall|k: int| 0 <= k < es.len() implies pairs_self(#[trigger] es[k]) by {}
    lemma_all_items_self(es, file);
    lemma_all_items_single_nonempty(es, file);
    assert forall|i: int| 1 <= i < ids.len() implies (#[trigger] ids[i]).0 == ids[i].1 && !(ids[i].0 is Nil) by {
        if i <= n {
            assert(ids[i] == unit_pair(es[i - 1]));
        } else {
            assert(ids[i] == all_items(es, file, file)[i - 1 - n]);
        }
    }
}

/// No id pair of an item names nothing on both sides.
proof fn lemma_all_items_single_nonempty(es: Seq<Entry>, file: File)
    ensures
        forall|j: int|
            0 <= j < all_items(es, file, file).len() ==> !((#[trigger] all_items(es, file, file)[j]).0 is Nil
                && all_items(es, file, file)[j].1 is Nil),
    decreases es.len(),
{
    if es.len() > 0 {
        let e = es.last();
        lemma_all_items_single_nonempty(es.drop_last(), file);
        lemma_unit_items_in_unit(e, file, file, ItemKind::Type);
        lemma_unit_items_in_unit(e, file, file, ItemKind::Function);
        lemma_unit_items_in_unit(e, file, file, ItemKind::Variable);
        let before = all_items(es.drop_last(), file, file);
        let ty = unit_items(e, file, file, ItemKind::Type);
        let fu = unit_items(e, file, file, ItemKind::Function);
        let va = unit_items(e, file, file, ItemKind::Variable);
        let all = all_items(es, file, file);
        assert forall|j: int| 0 <= j < all.len() implies !((#[trigger] all[j]).0 is Nil && all[j].1 is Nil) by {
            if j < before.len() {
                assert(all[j] == before[j]);
            } else if j < before.len() + ty.len() {
                assert(all[j] == ty[j - before.len()]);
            } else if j < before.len() + ty.len() + fu.len() {
                assert(all[j] == fu[j - before.len() - ty.len()]);
            } else {
                assert(all[j] == va[j - before.len() - ty.len() - fu.len()]);
            }
        }
    }
}

/// The merged unit whose ids hold id `i`, searching from unit `u` down, where the units'
/// ids follow each other from `lo` on and the ids of units up to `u` end after `i`.
proof fn lemma_unit_holding(units: Seq<crate::index::UnitIndex>, u: int, i: int, lo: int) -> (w: int)
    requires
        1 <= u < units.len(),
        units[1].types.start == lo,
        lo <= i < units[u].variables.end,
        forall|v: int| 1 <= v <= u ==> #[trigger] units[v].types.start <= units[v].variables.end,
        forall|v: int| #![trigger units[v]] 1 <= v < u ==> units[v].variables.end == units[v + 1].types.start,
    ensures
        1 <= w <= u,
        units[w].types.start <= i < units[w].variables.end,
    decreases u,
{
    if units[u].types.start <= i {
        u
    } else {
        assert(units[u - 1].variables.end == units[u].types.start);
        lemma_unit_holding(units, u - 1, i, lo)
    }
}

proof fn lemma_ids_kinds(index: Index, fa: File, fb: File, diff: bool)
    requires
        index.is_index_of(fa, fb, diff),
    ensures
        ({
            let n = unit_entries(fa, fb, diff).len() as int;
            let ids = index.id_pairs();
            &&& forall|i: int|
                #![trigger ids[i]]
                0 <= i < ids.len() ==> ((ids[i].0 is Unit || ids[i].1 is Unit) <==> 1 <= i <= n)
            &&& forall|i: int|
                #![trigger ids[i]]
                0 <= i < ids.len() ==> (!(ids[i].0 is Nil && ids[i].1 is Nil) <==> 1 <= i)
        }),
{
    let es = unit_entries(fa, fb, diff);
    let n = es.len() as int;
    let ids = index.id_pairs();
    let units = index.unit_ranges();
    lemma_index_layout(index, fa, fb, diff);
    lemma_index_items(index, fa, fb, diff);
    assert forall|i: int| #![trigger ids[i]] 0 <= i < ids.len() implies ((ids[i].0 is Unit
        || ids[i].1 is Unit) <==> 1 <= i <= n) && (!(ids[i].0 is Nil && ids[i].1 is Nil) <==> 1 <= i) by {
        if 1 <= i <= n {
            assert(ids[i] == unit_pair(es[i - 1]));
        } else if i > n {
            let u = lemma_unit_holding(units, n, i, n + 1);
            let kind = if i < units[u].types.end {
                ItemKind::Type
            } else if i < units[u].functions.end {
                ItemKind::Function
            } else {
                ItemKind::Variable
            };
            assert(pair_in_unit(ids[i], kind, es[u - 1]));
        }
    }
}

proof fn lemma_id_parent_at(index: Index, fa: File, fb: File, diff: bool, i: int) -> (u: int)
    requires
        index.is_index_of(fa, fb, diff),
        unit_entries(fa, fb, diff).len() < i < index.id_pairs().len(),
    ensures
        1 <= u <= unit_entries(fa, fb, diff).len(),
        index.unit_ranges()[u].types.start <= i < index.unit_ranges()[u].variables.end,
        spec_index_parent(index, i as usize) == Some(u as usize),
{
    let n = unit_entries(fa, fb, diff).len() as int;
    let ids = index.id_pairs();
    let units = index.unit_ranges();
    lemma_index_layout(index, fa, fb, diff);
    let u = lemma_unit_holding(units, n, i, n + 1);
    lemma_index_parent(index, fa, fb, diff);
    assert(units[u].types.start <= i < units[u].variables.end);
    assert(ids[i] == ids[i]);
    u
}

proof fn lemma_ids_parents(index: Index, fa: File, fb: File, diff: bool)
    requires
        index.is_index_of(fa, fb, diff),
    ensures
        ({
            let n = unit_entries(fa, fb, diff).len() as int;
            let ids = index.id_pairs();
            let units = index.unit_ranges();
            forall|i: int|
                #![trigger spec_index_parent(index, i as usize)]
                n < i < ids.len() ==> exists|u: int|
                    #![trigger units[u]]
                    1 <= u <= n && units[u].types.start <= i < units[u].variables.end
                        && spec_index_parent(index, i as usize) == Some(u as usize)
        }),
{
    let n = unit_entries(fa, fb, diff).len() as int;
    let ids = index.id_pairs();
    let units = index.unit_ranges();
    assert forall|i: int| #![trigger spec_index_parent(index, i as usize)] n < i < ids.len() implies exists|u: int|
        #![trigger units[u]]
        1 <= u <= n && units[u].types.start <= i < units[u].variables.end && spec_index_parent(
            index,
            i as usize,
        ) == Some(u as usize) by {
        let u = lemma_id_parent_at(index, fa, fb, diff, i);
        assert(1 <= u <= n && units[u].types.start <= i < units[u].variables.end);
    }
}

proof fn lemma_units_no_parent(index: Index, fa: File, fb: File, diff: bool)
    requires
        index.is_index_of(fa, fb, diff),
    ensures
        index.id_pairs()[0] == (Id::Nil, Id::Nil),
        forall|i: int|
            0 <= i <= unit_entries(fa, fb, diff).len() ==> #[trigger] spec_index_parent(
                index,
                i as usize,
            ) is None,
{
    let es = unit_entries(fa, fb, diff);
    let n = es.len() as int;
    let ids = index.id_pairs();
    lemma_index_layout(index, fa, fb, diff);
    assert forall|i: int| 0 <= i <= n implies #[trigger] spec_index_parent(index, i as usize) is None by {
        if i >= 1 {
            assert(ids[i] == unit_pair(es[i - 1]));
        }
    }
}

/// The ids of an index fall into three parts: id 0 names nothing; ids 1 to n name the n
/// merged units (on one side or both) and have no parent; every later id names, on one
/// side or both, a type, function or variable of the unit whose ids hold it, and its
/// parent is that unit's id.
pub proof fn lemma_index_ids(index: Index, fa: File, fb: File, diff: bool)
    requires
        index.is_index_of(fa, fb, diff),
    ensures
        ({
            let n = unit_entries(fa, fb, diff).len() as int;
            let ids = index.id_pairs();
            let units = index.unit_ranges();
            &&& ids[0] == (Id::Nil, Id::Nil)
            &&& forall|i: int|
                #![trigger ids[i]]
                0 <= i < ids.len() ==> ((ids[i].0 is Unit || ids[i].1 is Unit) <==> 1 <= i <= n)
            &&& forall|i: int|
                #![trigger ids[i]]
                0 <= i < ids.len() ==> (!(ids[i].0 is Nil && ids[i].1 is Nil) <==> 1 <= i)
            &&& forall|i: int| 0 <= i <= n ==> #[trigger] spec_index_parent(index, i as usize) is None
            &&& forall|i: int|
                #![trigger spec_index_parent(index, i as usize)]
                n < i < ids.len() ==> exists|u: int|
                    #![trigger units[u]]
                    1 <= u <= n && units[u].types.start <= i < units[u].variables.end
                        && spec_index_parent(index, i as usize) == Some(u as usize)
        }),
{
    let n = unit_entries(fa, fb, diff).len() as int;
    let ids = index.id_pairs();
    let units = index.unit_ranges();
    lemma_ids_kinds(index, fa, fb, diff);
    lemma_ids_parents(index, fa, fb, diff);
    lemma_units_no_parent(index, fa, fb, diff);
    assert forall|i: int| #![trigger spec_index_parent(index, i as usize)] n < i < ids.len() implies exists|u: int|
        #![trigger units[u]]
        1 <= u <= n && units[u].types.start <= i < units[u].variables.end && spec_index_parent(
            index,
            i as usize,
        ) == Some(u as usize) by {
        let p = spec_index_parent(index, i as usize);
    }
}

/// A position that `order` lists, below `n` and kept, is selected.
proof fn lemma_select_keyed_has(
    order: Seq<usize>,
    n: int,
    keep: spec_fn(int) -> bool,
    key: spec_fn(int) -> u64,
    p: int,
)
    requires
        0 <= p < order.len(),
        order[p] < n,
        keep(order[p] as int),
    ensures
        exists|q: int|
            0 <= q < select_keyed(order, n, keep, key).len() && (#[trigger] select_keyed(
                order,
                n,
                keep,
                key,
            )[q]).1 == order[p],
    decreases order.len(),
{
    let all = select_keyed(order, n, keep, key);
    if p == order.len() - 1 {
        assert(all.last().1 == order[p]);
    } else {
        let front = order.drop_last();
        assert(front[p] == order[p]);
        lemma_select_keyed_has(front, n, keep, key, p);
        let rest = select_keyed(front, n, keep, key);
        let q = choose|q: int| 0 <= q < rest.len() && (#[trigger] rest[q]).1 == order[p];
        assert(all[q] == rest[q]);
    }
}

/// Each kept position below `n` is listed.
proof fn lemma_indices_where_has(n: int, keep: spec_fn(int) -> bool, j: int)
    requires
        0 <= j < n,
        keep(j),
    ensures
        indices_where(n, keep).contains(j as usize),
    decreases n,
{
    if j < n - 1 {
        lemma_indices_where_has(n - 1, keep, j);
        let w = indices_where(n - 1, keep);
        let p = choose|p: int| 0 <= p < w.len() && w[p] == j as usize;
        if keep(n - 1) {
            assert(indices_where(n, keep)[p] == j as usize);
        }
    } else {
        assert(indices_where(n, keep).last() == j as usize);
    }
}

/// The id that a single file's index gives each unit that the filter selects names
/// that unit.
proof fn lemma_single_unit_id(index: Index, file: File, k: int)
    requires
        index.is_index_of(file, file, false),
        0 <= k < file.units@.len(),
        file.units@[k].selected,
    ensures
        1 <= index.unit_id_table(Side::Left)[k] <= unit_entries(file, file, false).len(),
        index.id_pairs()[index.unit_id_table(Side::Left)[k] as int] == (
            Id::Unit { unit_index: k as usize },
            Id::Nil,
        ),
        unit_entries(file, file, false)[index.unit_id_table(Side::Left)[k] - 1] == Entry::Left(
            spec_unit_list(file, false)[index.unit_id_table(Side::Left)[k] - 1],
        ),
        spec_unit_list(file, false)[index.unit_id_table(Side::Left)[k] - 1].1 == k as usize,
{
    let es = unit_entries(file, file, false);
    let l = spec_unit_list(file, false);
    let n = file.units@.len() as int;
    assert(file.units.len() == file.units@.len());
    let order = all_positions(n);
    assert(order[k] == k as usize);
    lemma_select_keyed_has(order, n, |i: int| file.units@[i].selected, |i: int| file.units@[i].key, k);
    let q = choose|q: int| 0 <= q < l.len() && (#[trigger] l[q]).1 == k as usize;
    lemma_unit_list_keys(file, false);
    assert(es[q] == Entry::Left(l[q]));
    assert forall|j: int| q < j < es.len() implies entry_unit(#[trigger] es[j], Side::Left) != Some(
        k as usize,
    ) by {
        assert(es[j] == Entry::Left(l[j]));
        assert(l[q].1 != l[j].1);
    }
    lemma_assigned_unit_id(es, Side::Left, q, k as usize);
    lemma_index_layout(index, file, file, false);
    assert(index.unit_id_table(Side::Left)[k] == (q + 1) as usize);
    assert(index.id_pairs()[q + 1] == unit_pair(es[q]));
}

/// The ids of the functions of a unit that the filter selects, in a single file's
/// index, name each listed function of the unit.
proof fn lemma_single_function_id(index: Index, file: File, k: int, j: int)
    requires
        index.is_index_of(file, file, false),
        0 <= k < file.units@.len(),
        file.units@[k].selected,
        0 <= j < file.units@[k].functions@.len(),
        spec_index_function(file.units@[k].functions@[j]),
    ensures
        spec_item_ids(index, index.unit_id_table(Side::Left)[k], ItemKind::Function).contains(
            (Id::Function { unit_index: k as usize, function_index: j as usize }, Id::Nil),
        ),
{
    let es = unit_entries(file, file, false);
    lemma_single_unit_id(index, file, k);
    let u = index.unit_id_table(Side::Left)[k] as int;
    lemma_unit_contents(index, file, file, false, u, ItemKind::Function);
    let unit = file.units@[k];
    assert(unit.functions.len() == unit.functions@.len());
    lemma_indices_where_has(
        unit.functions@.len() as int,
        |i: int| spec_index_function(unit.functions@[i]),
        j,
    );
    let w = spec_index_functions(unit);
    let p = choose|p: int| 0 <= p < w.len() && w[p] == j as usize;
    assert(file.units.len() == file.units@.len());
    let e = es[u - 1];
    let a = spec_unit_list(file, false)[u - 1];
    assert(e == Entry::Left(a) && a.1 == k as usize);
    let items = unit_items(e, file, file, ItemKind::Function);
    assert(items.len() == w.len());
    assert(items[p] == (Id::Function { unit_index: k as usize, function_index: j as usize }, Id::Nil));
}

/// A single file's index names every unit that the filter selects, by the id that it
/// gives the unit, and names every function of such a unit that is listed (an inline
/// function, or one with an address and a size) by one of the ids of that unit's
/// functions.
pub proof fn lemma_index_names_listed(index: Index, file: File)
    requires
        index.is_index_of(file, file, false),
    ensures
        forall|k: int|
            0 <= k < file.units@.len() && #[trigger] file.units@[k].selected ==> {
                let u = index.unit_id_table(Side::Left)[k];
                &&& 1 <= u < index.id_pairs().len()
                &&& index.id_pairs()[u as int] == (Id::Unit { unit_index: k as usize }, Id::Nil)
            },
        forall|k: int, j: int|
            0 <= k < file.units@.len() && file.units@[k].selected && 0 <= j
                < file.units@[k].functions@.len() && spec_index_function(
                #[trigger] file.units@[k].functions@[j],
            ) ==> spec_item_ids(
                index,
                index.unit_id_table(Side::Left)[k],
                ItemKind::Function,
            ).contains(
                (Id::Function { unit_index: k as usize, function_index: j as usize }, Id::Nil),
            ),
{
    assert forall|k: int| 0 <= k < file.units@.len() && #[trigger] file.units@[k].selected implies {
        let u = index.unit_id_table(Side::Left)[k];
        &&& 1 <= u < index.id_pairs().len()
        &&& index.id_pairs()[u as int] == (Id::Unit { unit_index: k as usize }, Id::Nil)
    } by {
        lemma_single_unit_id(index, file, k);
        lemma_ids_kinds(index, file, file, false);
    }
    assert forall|k: int, j: int|
        0 <= k < file.units@.len() && file.units@[k].selected && 0 <= j
            < file.units@[k].functions@.len() && spec_index_function(
            #[trigger] file.units@[k].functions@[j],
        ) implies spec_item_ids(index, index.unit_id_table(Side::Left)[k], ItemKind::Function).contains(
        (Id::Function { unit_index: k as usize, function_index: j as usize }, Id::Nil),
    ) by {
        lemma_single_function_id(index, file, k, j);
    }
}

/// The file of a side.
pub open spec fn side_file(fa: File, fb: File, side: Side) -> File {
    match side {
        Side::Left => fa,
        Side::Right => fb,
    }
}

/// Each unit of a side that the filter selects is held by a merged unit.
proof fn lemma_selected_unit_merged(fa: File, fb: File, diff: bool, side: Side, k: int)
    requires
        side == Side::Right ==> diff,
        0 <= k < side_file(fa, fb, side).units@.len(),
        side_file(fa, fb, side).units@[k].selected,
    ensures
        exists|e: int|
            0 <= e < unit_entries(fa, fb, diff).len() && entry_unit(
                #[trigger] unit_entries(fa, fb, diff)[e],
                side,
            ) == Some(k as usize),
{
    let file = side_file(fa, fb, side);
    let es = unit_entries(fa, fb, diff);
    let n = file.units@.len() as int;
    assert(file.units.len() == file.units@.len());
    let order = all_positions(n);
    assert(order[k] == k as usize);
    let base = units_in_order(file);
    lemma_select_keyed_has(order, n, |i: int| file.units@[i].selected, |i: int| file.units@[i].key, k);
    let q0 = choose|q: int| 0 <= q < base.len() && (#[trigger] base[q]).1 == k as usize;
    let l = spec_unit_list(file, diff);
    if diff {
        lemma_sort_keyed(base);
        let q = choose|q: int| 0 <= q < l.len() && l[q] == base[q0];
        let la = spec_unit_list(fa, true);
        let lb = spec_unit_list(fb, true);
        lemma_merge_keeps_items(la, lb);
        match side {
            Side::Left => {
                assert(left_items(es).contains(l[q]));
                lemma_left_items_from(es, l[q]);
                let e = choose|e: int| 0 <= e < es.len() && left_item(#[trigger] es[e]) == Some(l[q]);
                assert(entry_unit(es[e], side) == Some(k as usize));
            },
            Side::Right => {
                assert(right_items(es).contains(l[q]));
                lemma_right_items_from(es, l[q]);
                let e = choose|e: int| 0 <= e < es.len() && right_item(#[trigger] es[e]) == Some(l[q]);
                assert(entry_unit(es[e], side) == Some(k as usize));
            },
        }
    } else {
        assert(es[q0] == Entry::Left(l[q0]));
        assert(entry_unit(es[q0], side) == Some(k as usize));
    }
}

/// A unit that a merged unit holds is a unit of its side that the filter selects.
proof fn lemma_merged_unit_selected(fa: File, fb: File, diff: bool, side: Side, e: int, k: usize)
    requires
        0 <= e < unit_entries(fa, fb, diff).len(),
        entry_unit(unit_entries(fa, fb, diff)[e], side) == Some(k),
    ensures
        side == Side::Right ==> diff,
        k < side_file(fa, fb, side).units@.len(),
        side_file(fa, fb, side).units@[k as int].selected,
{
    let es = unit_entries(fa, fb, diff);
    let la = spec_unit_list(fa, diff);
    let lb = spec_unit_list(fb, true);
    crate::index::lemma_unit_list_bound(fa, diff);
    crate::index::lemma_unit_list_bound(fb, true);
    if diff {
        crate::merge::lemma_merge_members(la, lb, e);
        match es[e] {
            MergeResult::Left(a) => {
                let i = choose|i: int| 0 <= i < la.len() && la[i] == a;
            },
            MergeResult::Right(b) => {
                let j = choose|j: int| 0 <= j < lb.len() && lb[j] == b;
            },
            MergeResult::Both(a, b) => {
                let i = choose|i: int| 0 <= i < la.len() && la[i] == a;
                let j = choose|j: int| 0 <= j < lb.len() && lb[j] == b;
            },
        }
    } else {
        assert(es[e] == Entry::Left(la[e]));
    }
}

/// The ids of the units name each unit that the filter selects, on its side, once, and
/// no other unit: for a single file the units of the file; for a diff, those of both.
pub proof fn lemma_index_units(index: Index, fa: File, fb: File, diff: bool)
    requires
        index.is_index_of(fa, fb, diff),
    ensures
        forall|side: Side, k: int|
            (side == Side::Right ==> diff) && 0 <= k < side_file(fa, fb, side).units@.len() ==> (
            #[trigger] side_file(fa, fb, side).units@[k].selected <==> exists|u: int|
                1 <= u <= unit_entries(fa, fb, diff).len() && #[trigger] side.spec_get(
                    index.id_pairs()[u],
                ) == Id::Unit { unit_index: k as usize }),
        forall|side: Side, u1: int, u2: int|
            1 <= u1 < u2 <= unit_entries(fa, fb, diff).len() && #[trigger] side.spec_get(
                index.id_pairs()[u1],
            ) is Unit ==> side.spec_get(index.id_pairs()[u1]) != #[trigger] side.spec_get(
                index.id_pairs()[u2],
            ),
{
    let es = unit_entries(fa, fb, diff);
    let n = es.len() as int;
    let ids = index.id_pairs();
    lemma_index_layout(index, fa, fb, diff);
    assert forall|side: Side, k: int|
        (side == Side::Right ==> diff) && 0 <= k < side_file(fa, fb, side).units@.len() implies (
        #[trigger] side_file(fa, fb, side).units@[k].selected <==> exists|u: int|
            1 <= u <= n && #[trigger] side.spec_get(ids[u]) == Id::Unit { unit_index: k as usize }) by {
        let file = side_file(fa, fb, side);
        assert(file.units.len() == file.units@.len());
        if file.units@[k].selected {
            lemma_selected_unit_merged(fa, fb, diff, side, k);
            let e = choose|e: int| 0 <= e < es.len() && entry_unit(#[trigger] es[e], side) == Some(k as usize);
            assert(ids[e + 1] == unit_pair(es[e]));
            assert(side.spec_get(ids[e + 1]) == Id::Unit { unit_index: k as usize });
        }
        let target = Id::Unit { unit_index: k as usize };
        if exists|u: int| 1 <= u <= n && #[trigger] side.spec_get(ids[u]) == target {
            let u = choose|u: int| 1 <= u <= n && #[trigger] side.spec_get(ids[u]) == target;
            assert(ids[u] == unit_pair(es[u - 1]));
            assert(entry_unit(es[u - 1], side) == Some(k as usize));
            lemma_merged_unit_selected(fa, fb, diff, side, u - 1, k as usize);
        }
    }
    lemma_entries_distinct(fa, fb, diff);
    assert forall|side: Side, u1: int, u2: int|
        1 <= u1 < u2 <= n && #[trigger] side.spec_get(ids[u1]) is Unit implies side.spec_get(ids[u1])
        != #[trigger] side.spec_get(ids[u2]) by {
        assert(ids[u1] == unit_pair(es[u1 - 1]));
        assert(ids[u2] == unit_pair(es[u2 - 1]));
        assert(entry_unit(es[u1 - 1], side) is Some);
        assert(entry_unit(es[u1 - 1], side) != entry_unit(es[u2 - 1], side));
    }
}

/// Facts about the sorted items of a kind of a unit: each is a listed item, each listed
/// item is there, and none is there twice.
proof fn lemma_sorted_items_are_listed(unit: Unit, kind: ItemKind)
    ensures
        forall|x: (u64, usize)|
            #[trigger] sorted_items(unit, kind).contains(x) ==> x.1 < item_count(unit, kind) && item_listed(
                unit,
                kind,
            )(x.1 as int),
        forall|j: int|
            0 <= j < item_count(unit, kind) && #[trigger] item_listed(unit, kind)(j) ==> exists|q: int|
                0 <= q < sorted_items(unit, kind).len() && (#[trigger] sorted_items(unit, kind)[q]).1
                    == j as usize,
        names_distinct(sorted_items(unit, kind)),
{
    let base = items_in_order(unit, kind);
    let l = sorted_items(unit, kind);
    let c = item_count(unit, kind);
    assert(unit.types.len() == unit.types@.len());
    assert(unit.functions.len() == unit.functions@.len());
    assert(unit.variables.len() == unit.variables@.len());
    lemma_all_positions_distinct(c);
    lemma_select_keyed_names(all_positions(c), c, item_listed(unit, kind), item_key_at(unit, kind));
    crate::index::lemma_select_keyed_bound(all_positions(c), c, item_listed(unit, kind), item_key_at(unit, kind));
    lemma_sort_keyed(base);
    assert forall|x: (u64, usize)| #[trigger] l.contains(x) implies x.1 < c && item_listed(unit, kind)(
        x.1 as int,
    ) by {
        let q = choose|q: int| 0 <= q < l.len() && l[q] == x;
        let p = choose|p: int| 0 <= p < base.len() && base[p] == l[q];
    }
    assert forall|j: int| 0 <= j < c && #[trigger] item_listed(unit, kind)(j) implies exists|q: int|
        0 <= q < l.len() && (#[trigger] l[q]).1 == j as usize by {
        assert(all_positions(c)[j] == j as usize);
        lemma_select_keyed_has(all_positions(c), c, item_listed(unit, kind), item_key_at(unit, kind), j);
        let p = choose|p: int| 0 <= p < base.len() && (#[trigger] base[p]).1 == j as usize;
        assert(l.contains(base[p]));
        let q = choose|q: int| 0 <= q < l.len() && l[q] == base[p];
        assert(l[q].1 == j as usize);
    }
}

/// In a diff, the items of a kind of a unit of both files are merged so that each
/// listed item of each side is held by exactly one merged entry, and no other item is:
/// every listed item gets one id, on its side.
pub proof fn lemma_merged_items(unit_a: Unit, unit_b: Unit, kind: ItemKind)
    ensures
        ({
            let m = merge_keyed(sorted_items(unit_a, kind), sorted_items(unit_b, kind));
            &&& forall|j: int|
                0 <= j < item_count(unit_a, kind) ==> (#[trigger] item_listed(unit_a, kind)(j)
                    <==> exists|e: int|
                    0 <= e < m.len() && #[trigger] left_name(m[e]) == Some(j as usize))
            &&& forall|j: int|
                0 <= j < item_count(unit_b, kind) ==> (#[trigger] item_listed(unit_b, kind)(j)
                    <==> exists|e: int|
                    0 <= e < m.len() && #[trigger] right_name(m[e]) == Some(j as usize))
            &&& forall|e1: int, e2: int|
                0 <= e1 < e2 < m.len() && #[trigger] left_name(m[e1]) is Some ==> left_name(m[e1])
                    != #[trigger] left_name(m[e2])
            &&& forall|e1: int, e2: int|
                0 <= e1 < e2 < m.len() && #[trigger] right_name(m[e1]) is Some ==> right_name(m[e1])
                    != #[trigger] right_name(m[e2])
        }),
{
    let sa = sorted_items(unit_a, kind);
    let sb = sorted_items(unit_b, kind);
    let m = merge_keyed(sa, sb);
    lemma_sorted_items_are_listed(unit_a, kind);
    lemma_sorted_items_are_listed(unit_b, kind);
    assert(unit_a.types.len() == unit_a.types@.len());
    assert(unit_a.functions.len() == unit_a.functions@.len());
    assert(unit_a.variables.len() == unit_a.variables@.len());
    assert(unit_b.types.len() == unit_b.types@.len());
    assert(unit_b.functions.len() == unit_b.functions@.len());
    assert(unit_b.variables.len() == unit_b.variables@.len());
    lemma_merge_names_distinct(sa, sb);
    lemma_merge_keeps_items(sa, sb);
    assert forall|j: int| 0 <= j < item_count(unit_a, kind) implies (#[trigger] item_listed(unit_a, kind)(j)
        <==> exists|e: int| 0 <= e < m.len() && #[trigger] left_name(m[e]) == Some(j as usize)) by {
        if item_listed(unit_a, kind)(j) {
            let q = choose|q: int| 0 <= q < sa.len() && (#[trigger] sa[q]).1 == j as usize;
            assert(left_items(m).contains(sa[q]));
            lemma_left_items_from(m, sa[q]);
            let e = choose|e: int| 0 <= e < m.len() && left_item(#[trigger] m[e]) == Some(sa[q]);
            assert(left_name(m[e]) == Some(j as usize));
        }
        let target = Some(j as usize);
        if exists|e: int| 0 <= e < m.len() && #[trigger] left_name(m[e]) == target {
            let e = choose|e: int| 0 <= e < m.len() && #[trigger] left_name(m[e]) == target;
            crate::merge::lemma_merge_members(sa, sb, e);
            match m[e] {
                MergeResult::Left(x) => assert(sa.contains(x)),
                MergeResult::Both(x, _) => assert(sa.contains(x)),
                MergeResult::Right(_) => {},
            }
        }
    }
    assert forall|j: int| 0 <= j < item_count(unit_b, kind) implies (#[trigger] item_listed(unit_b, kind)(j)
        <==> exists|e: int| 0 <= e < m.len() && #[trigger] right_name(m[e]) == Some(j as usize)) by {
        if item_listed(unit_b, kind)(j) {
            let q = choose|q: int| 0 <= q < sb.len() && (#[trigger] sb[q]).1 == j as usize;
            assert(right_items(m).contains(sb[q]));
            lemma_right_items_from(m, sb[q]);
            let e = choose|e: int| 0 <= e < m.len() && right_item(#[trigger] m[e]) == Some(sb[q]);
            assert(right_name(m[e]) == Some(j as usize));
        }
        let target = Some(j as usize);
        if exists|e: int| 0 <= e < m.len() && #[trigger] right_name(m[e]) == target {
            let e = choose|e: int| 0 <= e < m.len() && #[trigger] right_name(m[e]) == target;
            crate::merge::lemma_merge_members(sa, sb, e);
            match m[e] {
                MergeResult::Right(y) => assert(sb.contains(y)),
                MergeResult::Both(_, y) => assert(sb.contains(y)),
                MergeResult::Left(_) => {},
            }
        }
    }
}

/// The index finds an id for function `j` of unit `k` of the first file, and that id
/// names the function.
pub open spec fn finds_function(index: Index, k: int, j: int) -> bool {
    spec_find(
        index.id_pairs(),
        Side::Left,
        Id::Function { unit_index: k as usize, function_index: j as usize },
    ) matches Some(i) && i < index.id_pairs().len() && index.id_pairs()[i as int].0 == (Id::Function {
        unit_index: k as usize,
        function_index: j as usize,
    })
}

/// In a single file's index, the search for a listed function of a unit that the filter
/// selects finds an id, which names that function.
proof fn lemma_find_function(index: Index, file: File, k: int, j: int)
    requires
        index.is_index_of(file, file, false),
        0 <= k < file.units@.len(),
        file.units@[k].selected,
        0 <= j < file.units@[k].functions@.len(),
        spec_index_function(file.units@[k].functions@[j]),
    ensures
        finds_function(index, k, j),
{
    let target = Id::Function { unit_index: k as usize, function_index: j as usize };
    let ids = index.id_pairs();
    lemma_single_function_id(index, file, k, j);
    lemma_single_unit_id(index, file, k);
    lemma_index_layout(index, file, file, false);
    index.lemma_id_count();
    let u = index.unit_id_table(Side::Left)[k] as int;
    let r = index.unit_ranges()[u];
    let sub = ids.subrange(r.functions.start as int, r.functions.end as int);
    assert(sub == crate::index::spec_item_ids(index, u as usize, ItemKind::Function));
    let q = choose|q: int| 0 <= q < sub.len() && sub[q] == (target, Id::Nil);
    assert(Side::Left.spec_get(ids[r.functions.start + q]) == target);
    lemma_find(ids, Side::Left, target);
}

/// The ids of a single file's index lead back to the items: each unit that the filter
/// selects has the id that names it in the unit table, and for each listed function
/// (inline, or with an address and a size) of such a unit the index finds an id that
/// names that function.
pub proof fn lemma_index_finds_listed(index: Index, file: File)
    requires
        index.is_index_of(file, file, false),
    ensures
        forall|k: int|
            0 <= k < file.units@.len() && #[trigger] file.units@[k].selected ==> index.id_pairs()[index.unit_id_table(
                Side::Left,
            )[k] as int].0 == (Id::Unit { unit_index: k as usize }),
        forall|k: int, j: int|
            0 <= k < file.units@.len() && file.units@[k].selected && 0 <= j
                < file.units@[k].functions@.len() && spec_index_function(
                #[trigger] file.units@[k].functions@[j],
            ) ==> finds_function(index, k, j),
{
    assert forall|k: int| 0 <= k < file.units@.len() && #[trigger] file.units@[k].selected implies index.id_pairs()[index.unit_id_table(
        Side::Left,
    )[k] as int].0 == (Id::Unit { unit_index: k as usize }) by {
        lemma_single_unit_id(index, file, k);
    }
    assert forall|k: int, j: int|
        0 <= k < file.units@.len() && file.units@[k].selected && 0 <= j
            < file.units@[k].functions@.len() && spec_index_function(
            #[trigger] file.units@[k].functions@[j],
        ) implies finds_function(index, k, j) by {
        lemma_find_function(index, file, k, j);
    }
}

/// Whether item `j` of a kind of a unit is listed in a single file's index: a type the
/// filter keeps outside a diff (closures included), a function that is inline or has an
/// address and a size, a variable that is a declaration or has an address.
pub open spec fn listed_alone(unit: Unit, kind: ItemKind, j: int) -> bool {
    match kind {
        ItemKind::Type => spec_index_type(unit.types@[j], false, spec_inline_types(unit)),
        ItemKind::Function => spec_index_function(unit.functions@[j]),
        ItemKind::Variable => spec_index_variable(unit.variables@[j]),
    }
}

/// The ids of the items of a kind of a unit that the filter selects, in a single file's
/// index, name each item of that kind that the unit lists.
proof fn lemma_single_item_id(index: Index, file: File, k: int, kind: ItemKind, j: int)
    requires
        index.is_index_of(file, file, false),
        0 <= k < file.units@.len(),
        file.units@[k].selected,
        0 <= j < item_count(file.units@[k], kind),
        listed_alone(file.units@[k], kind, j),
    ensures
        spec_item_ids(index, index.unit_id_table(Side::Left)[k], kind).contains(
            (crate::index::item_id(kind, k as usize, j as usize), Id::Nil),
        ),
{
    let es = unit_entries(file, file, false);
    lemma_single_unit_id(index, file, k);
    let u = index.unit_id_table(Side::Left)[k] as int;
    lemma_unit_contents(index, file, file, false, u, kind);
    let unit = file.units@[k];
    assert(unit.types.len() == unit.types@.len());
    assert(unit.functions.len() == unit.functions@.len());
    assert(unit.variables.len() == unit.variables@.len());
    match kind {
        ItemKind::Type => lemma_indices_where_has(
            unit.types@.len() as int,
            |i: int| spec_index_type(unit.types@[i], false, spec_inline_types(unit)),
            j,
        ),
        ItemKind::Function => lemma_indices_where_has(
            unit.functions@.len() as int,
            |i: int| spec_index_function(unit.functions@[i]),
            j,
        ),
        ItemKind::Variable => lemma_indices_where_has(
            unit.variables@.len() as int,
            |i: int| spec_index_variable(unit.variables@[i]),
            j,
        ),
    }
    let w = crate::index::listed_items(unit, kind);
    let p = choose|p: int| 0 <= p < w.len() && w[p] == j as usize;
    assert(file.units.len() == file.units@.len());
    let e = es[u - 1];
    let a = spec_unit_list(file, false)[u - 1];
    assert(e == Entry::Left(a) && a.1 == k as usize);
    let items = unit_items(e, file, file, kind);
    assert(items.len() == w.len());
    assert(items[p] == (crate::index::item_id(kind, k as usize, j as usize), Id::Nil));
}

/// The index finds an id for item `j` of a kind of unit `k` of the first file, and that
/// id names the item.
pub open spec fn finds_item(index: Index, kind: ItemKind, k: int, j: int) -> bool {
    spec_find(index.id_pairs(), Side::Left, crate::index::item_id(kind, k as usize, j as usize)) matches Some(
        i,
    ) && i < index.id_pairs().len() && index.id_pairs()[i as int].0 == crate::index::item_id(
        kind,
        k as usize,
        j as usize,
    )
}

#[verifier::spinoff_prover]
#[verifier::rlimit(40)]
proof fn lemma_find_item(index: Index, file: File, k: int, kind: ItemKind, j: int)
    requires
        index.is_index_of(file, file, false),
        0 <= k < file.units@.len(),
        file.units@[k].selected,
        0 <= j < item_count(file.units@[k], kind),
        listed_alone(file.units@[k], kind, j),
    ensures
        finds_item(index, kind, k, j),
{
    let target = crate::index::item_id(kind, k as usize, j as usize);
    let ids = index.id_pairs();
    lemma_single_item_id(index, file, k, kind, j);
    lemma_single_unit_id(index, file, k);
    lemma_index_layout(index, file, file, false);
    index.lemma_id_count();
    let u = index.unit_id_table(Side::Left)[k] as int;
    let r = index.unit_ranges()[u];
    let range = match kind {
        ItemKind::Type => r.types,
        ItemKind::Function => r.functions,
        ItemKind::Variable => r.variables,
    };
    let sub = ids.subrange(range.start as int, range.end as int);
    assert(sub == spec_item_ids(index, u as usize, kind));
    let q = choose|q: int| 0 <= q < sub.len() && sub[q] == (target, Id::Nil);
    assert(Side::Left.spec_get(ids[range.start + q]) == target);
    lemma_find(ids, Side::Left, target);
}

/// In a single file's index, every listed item of a unit that the filter selects has an
/// id that names it: each type the filter keeps outside a diff (a Rust closure
/// included, since only a diff leaves closures out), each function that is inline or
/// has an address and a size, each variable that is a declaration or has an address.
pub proof fn lemma_index_finds_items(index: Index, file: File)
    requires
        index.is_index_of(file, file, false),
    ensures
        forall|k: int, kind: ItemKind, j: int|
            0 <= k < file.units@.len() && file.units@[k].selected && 0 <= j < item_count(
                file.units@[k],
                kind,
            ) && #[trigger] listed_alone(file.units@[k], kind, j) ==> finds_item(index, kind, k, j),
{
    assert forall|k: int, kind: ItemKind, j: int|
        0 <= k < file.units@.len() && file.units@[k].selected && 0 <= j < item_count(
            file.units@[k],
            kind,
        ) && #[trigger] listed_alone(file.units@[k], kind, j) implies finds_item(index, kind, k, j) by {
        lemma_find_item(index, file, k, kind, j);
    }
}

} // verus!
