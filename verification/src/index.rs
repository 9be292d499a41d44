//! Ids for the items of one file, or of two files that are compared.
//!
//! Id 0 stands for nothing; the units come next, then for each unit in turn its types,
//! functions and variables. In a diff each id names an item of either file or a pair
//! of matching items.
use std::ops::Range;
use vstd::prelude::*;

use crate::filter::{self, File, Unit};
use crate::merge::{MergeIterator, MergeResult, merge_keyed, names_distinct};
use crate::print::sort::{item_after, lemma_spec_sort, spec_sort, stable_sort};

verus! {

/// What an id names in one file: nothing, a unit, or an item of a unit, by position.
#[derive(Debug, Clone, Copy, Eq, PartialEq, Structural)]
pub enum Id {
    /// Nothing.
    Nil,
    Unit { unit_index: usize },
    Type { unit_index: usize, type_index: usize },
    Function { unit_index: usize, function_index: usize },
    Variable { unit_index: usize, variable_index: usize },
}

/// The kinds of items that a unit lists.
#[derive(Clone, Copy, PartialEq, Eq, Structural)]
pub enum ItemKind {
    Type,
    Function,
    Variable,
}

/// The id of item `index` of the given kind in unit `unit_index`.
pub open spec fn item_id(kind: ItemKind, unit_index: usize, index: usize) -> Id {
    match kind {
        ItemKind::Type => Id::Type { unit_index, type_index: index },
        ItemKind::Function => Id::Function { unit_index, function_index: index },
        ItemKind::Variable => Id::Variable { unit_index, variable_index: index },
    }
}

impl Id {
    pub open spec fn spec_unit_index(&self) -> Option<usize> {
        match self {
            Id::Unit { unit_index } => Some(*unit_index),
            _ => None,
        }
    }

    pub open spec fn spec_item_index(&self, kind: ItemKind) -> Option<usize> {
        match (kind, self) {
            (ItemKind::Type, Id::Type { type_index, .. }) => Some(*type_index),
            (ItemKind::Function, Id::Function { function_index, .. }) => Some(*function_index),
            (ItemKind::Variable, Id::Variable { variable_index, .. }) => Some(*variable_index),
            _ => None,
        }
    }

    /// The unit that a type, function or variable belongs to.
    pub open spec fn spec_owner(&self) -> Option<usize> {
        match self {
            Id::Type { unit_index, .. } => Some(*unit_index),
            Id::Function { unit_index, .. } => Some(*unit_index),
            Id::Variable { unit_index, .. } => Some(*unit_index),
            _ => None,
        }
    }

    fn unit_index(&self) -> (res: Option<usize>)
        ensures
            res == self.spec_unit_index(),
    {
        match self {
            Id::Unit { unit_index } => Some(*unit_index),
            _ => None,
        }
    }

    fn type_index(&self) -> (res: Option<usize>)
        ensures
            res == self.spec_item_index(ItemKind::Type),
    {
        match self {
            Id::Type { type_index, .. } => Some(*type_index),
            _ => None,
        }
    }

    fn function_index(&self) -> (res: Option<usize>)
        ensures
            res == self.spec_item_index(ItemKind::Function),
    {
        match self {
            Id::Function { function_index, .. } => Some(*function_index),
            _ => None,
        }
    }

    fn variable_index(&self) -> (res: Option<usize>)
        ensures
            res == self.spec_item_index(ItemKind::Variable),
    {
        match self {
            Id::Variable { variable_index, .. } => Some(*variable_index),
            _ => None,
        }
    }

    fn item_index(&self, kind: ItemKind) -> (res: Option<usize>)
        ensures
            res == self.spec_item_index(kind),
    {
        match kind {
            ItemKind::Type => self.type_index(),
            ItemKind::Function => self.function_index(),
            ItemKind::Variable => self.variable_index(),
        }
    }

    /// The id of the unit that a type, function or variable belongs to, where
    /// `unit_ids` holds the id given to each unit of its file.
    pub open spec fn spec_parent(&self, unit_ids: Seq<usize>) -> Option<usize> {
        match self.spec_owner() {
            Some(u) => if u < unit_ids.len() {
                Some(unit_ids[u as int])
            } else {
                None
            },
            None => None,
        }
    }

    /// The id of the unit that a type, function or variable belongs to, where
    /// `unit_ids` holds the id given to each unit of its file; `None` for other ids and
    /// for a unit that the file does not have.
    pub fn parent(&self, unit_ids: &[usize]) -> (res: Option<usize>)
        ensures
            res == self.spec_parent(unit_ids@),
    {
        match self.owner() {
            Some(u) => if u < unit_ids.len() {
                Some(unit_ids[u])
            } else {
                None
            },
            None => None,
        }
    }

    fn owner(&self) -> (res: Option<usize>)
        ensures
            res == self.spec_owner(),
    {
        match self {
            Id::Type { unit_index, .. } | Id::Function { unit_index, .. } | Id::Variable {
                unit_index,
                ..
            } => Some(*unit_index),
            _ => None,
        }
    }
}

/// One of the two files of a diff.
#[derive(Clone, Copy, PartialEq, Eq, Structural)]
pub enum Side {
    Left,
    Right,
}

impl Side {
    pub open spec fn spec_get(self, id: (Id, Id)) -> Id {
        match self {
            Side::Left => id.0,
            Side::Right => id.1,
        }
    }

    pub open spec fn spec_set(self, id: Id) -> (Id, Id) {
        match self {
            Side::Left => (id, Id::Nil),
            Side::Right => (Id::Nil, id),
        }
    }

    pub fn get(self, id: (Id, Id)) -> (res: Id)
        ensures
            res == self.spec_get(id),
    {
        match self {
            Side::Left => id.0,
            Side::Right => id.1,
        }
    }

    pub fn set(self, id: Id) -> (res: (Id, Id))
        ensures
            res == self.spec_set(id),
    {
        match self {
            Side::Left => (id, Id::Nil),
            Side::Right => (Id::Nil, id),
        }
    }
}

/// Where the ids of a unit's types, functions and variables lie.
pub struct UnitIndex {
    pub types: Range<usize>,
    pub functions: Range<usize>,
    pub variables: Range<usize>,
}

pub open spec fn empty_unit_index() -> UnitIndex {
    UnitIndex { types: 0..0, functions: 0..0, variables: 0..0 }
}

/// The ids of a file (or of the two files of a diff).
pub struct Index {
    ids: Vec<(Id, Id)>,
    // Indexed by unit id.
    units: Vec<UnitIndex>,
    // The id given to each unit of the first file, by its position; 0 where the unit
    // is not listed.
    unit_id_a: Vec<usize>,
    // The same for the second file of a diff; empty for a single file.
    unit_id_b: Vec<usize>,
}


/// A merged entry: units, or items of a unit, of the two files, each with its key.
pub type Entry = MergeResult<(u64, usize), (u64, usize)>;

/// The positions that `order` lists, in that order, that are below `n` and kept, each
/// with its key.
pub open spec fn select_keyed(
    order: Seq<usize>,
    n: int,
    keep: spec_fn(int) -> bool,
    key: spec_fn(int) -> u64,
) -> Seq<(u64, usize)>
    decreases order.len(),
{
    if order.len() == 0 {
        Seq::empty()
    } else {
        let rest = select_keyed(order.drop_last(), n, keep, key);
        let i = order.last();
        if i < n && keep(i as int) {
            rest.push((key(i as int), i))
        } else {
            rest
        }
    }
}

/// `0, 1, .., n - 1`.
pub open spec fn all_positions(n: int) -> Seq<usize> {
    Seq::new(n as nat, |i: int| i as usize)
}

/// The key of a keyed position.
pub open spec fn key_of() -> spec_fn((u64, usize)) -> u64 {
    |e: (u64, usize)| e.0
}

/// Keyed positions sorted by key, positions with equal keys keeping their order.
pub open spec fn sort_keyed(s: Seq<(u64, usize)>) -> Seq<(u64, usize)> {
    spec_sort(s, key_of())
}

/// The units of a file that are selected by the unit filter, in the file's order, each
/// with its key.
pub open spec fn units_in_order(file: File) -> Seq<(u64, usize)> {
    select_keyed(
        all_positions(file.units@.len() as int),
        file.units@.len() as int,
        |i: int| file.units@[i].selected,
        |i: int| file.units@[i].key,
    )
}

/// The units of a file that are listed: those selected by the unit filter, in the
/// file's order, or sorted by key for a diff.
pub open spec fn spec_unit_list(file: File, diff: bool) -> Seq<(u64, usize)> {
    if diff {
        sort_keyed(units_in_order(file))
    } else {
        units_in_order(file)
    }
}

/// The listed items of a kind of a unit, in the unit's order.
pub open spec fn listed_items(unit: Unit, kind: ItemKind) -> Seq<usize> {
    match kind {
        ItemKind::Type => filter::spec_index_types(unit, false),
        ItemKind::Function => filter::spec_index_functions(unit),
        ItemKind::Variable => filter::spec_index_variables(unit),
    }
}

/// How many items of a kind a unit has.
pub open spec fn item_count(unit: Unit, kind: ItemKind) -> int {
    match kind {
        ItemKind::Type => unit.types@.len() as int,
        ItemKind::Function => unit.functions@.len() as int,
        ItemKind::Variable => unit.variables@.len() as int,
    }
}

/// Whether item `i` of a kind of a unit is listed in a diff.
pub open spec fn item_listed(unit: Unit, kind: ItemKind) -> spec_fn(int) -> bool {
    match kind {
        ItemKind::Type => |i: int|
            filter::spec_index_type(unit.types@[i], true, filter::spec_inline_types(unit)),
        ItemKind::Function => |i: int| filter::spec_index_function(unit.functions@[i]),
        ItemKind::Variable => |i: int| filter::spec_index_variable(unit.variables@[i]),
    }
}

/// The key of item `i` of a kind of a unit.
pub open spec fn item_key_at(unit: Unit, kind: ItemKind) -> spec_fn(int) -> u64 {
    match kind {
        ItemKind::Type => |i: int| unit.types@[i].key,
        ItemKind::Function => |i: int| unit.functions@[i].key,
        ItemKind::Variable => |i: int| unit.variables@[i].key,
    }
}

/// The items of a kind of a unit that a diff lists, in the unit's order, with their keys.
pub open spec fn items_in_order(unit: Unit, kind: ItemKind) -> Seq<(u64, usize)> {
    select_keyed(
        all_positions(item_count(unit, kind)),
        item_count(unit, kind),
        item_listed(unit, kind),
        item_key_at(unit, kind),
    )
}

/// The listed items of a kind of a unit sorted by key for a diff, with their keys.
pub open spec fn sorted_items(unit: Unit, kind: ItemKind) -> Seq<(u64, usize)> {
    sort_keyed(items_in_order(unit, kind))
}

/// The id pair of a merged entry of items of units `ua` and `ub`.
pub open spec fn merged_id(kind: ItemKind, ua: usize, ub: usize, e: Entry) -> (Id, Id) {
    match e {
        MergeResult::Both(a, b) => (item_id(kind, ua, a.1), item_id(kind, ub, b.1)),
        MergeResult::Left(a) => (item_id(kind, ua, a.1), Id::Nil),
        MergeResult::Right(b) => (Id::Nil, item_id(kind, ub, b.1)),
    }
}

/// The id pairs of merged items of units `ua` and `ub`.
pub open spec fn merged_ids(kind: ItemKind, ua: usize, ub: usize, m: Seq<Entry>) -> Seq<(Id, Id)> {
    Seq::new(m.len(), |k: int| merged_id(kind, ua, ub, m[k]))
}

/// The id pairs of items of unit `u` of one side.
pub open spec fn single_ids(kind: ItemKind, side: Side, u: usize, items: Seq<usize>) -> Seq<
    (Id, Id),
> {
    Seq::new(items.len(), |k: int| side.spec_set(item_id(kind, u, items[k])))
}

/// The id pair of a merged unit.
pub open spec fn unit_pair(e: Entry) -> (Id, Id) {
    match e {
        MergeResult::Both(a, b) => (Id::Unit { unit_index: a.1 }, Id::Unit { unit_index: b.1 }),
        MergeResult::Left(a) => (Id::Unit { unit_index: a.1 }, Id::Nil),
        MergeResult::Right(b) => (Id::Nil, Id::Unit { unit_index: b.1 }),
    }
}

/// The id pairs of the items of a kind of a merged unit: the merge of both units'
/// sorted items for a unit of both files, else the unit's listed items.
pub open spec fn unit_items(e: Entry, fa: File, fb: File, kind: ItemKind) -> Seq<(Id, Id)> {
    match e {
        MergeResult::Both(a, b) => merged_ids(
            kind,
            a.1,
            b.1,
            merge_keyed(sorted_items(fa.units@[a.1 as int], kind), sorted_items(fb.units@[b.1 as int], kind)),
        ),
        MergeResult::Left(a) => single_ids(kind, Side::Left, a.1, listed_items(fa.units@[a.1 as int], kind)),
        MergeResult::Right(b) => single_ids(kind, Side::Right, b.1, listed_items(fb.units@[b.1 as int], kind)),
    }
}

/// The id pairs of all items of the merged units, unit after unit.
pub open spec fn all_items(es: Seq<Entry>, fa: File, fb: File) -> Seq<(Id, Id)>
    decreases es.len(),
{
    if es.len() == 0 {
        Seq::empty()
    } else {
        let e = es.last();
        all_items(es.drop_last(), fa, fb) + unit_items(e, fa, fb, ItemKind::Type) + unit_items(
            e,
            fa,
            fb,
            ItemKind::Function,
        ) + unit_items(e, fa, fb, ItemKind::Variable)
    }
}

/// The ranges of a unit whose types start at id `s`, functions at `t`, variables at
/// `f`, and whose last variable comes before `v`.
pub open spec fn ranges_from(s: int, t: int, f: int, v: int) -> UnitIndex {
    UnitIndex {
        types: (s as usize)..(t as usize),
        functions: (t as usize)..(f as usize),
        variables: (f as usize)..(v as usize),
    }
}

/// Where the ids of each merged unit's items lie, when the first lies at `base`.
pub open spec fn all_ranges(es: Seq<Entry>, fa: File, fb: File, base: int) -> Seq<UnitIndex>
    decreases es.len(),
{
    if es.len() == 0 {
        Seq::empty()
    } else {
        let e = es.last();
        let s = base + all_items(es.drop_last(), fa, fb).len();
        let t = s + unit_items(e, fa, fb, ItemKind::Type).len();
        let f = t + unit_items(e, fa, fb, ItemKind::Function).len();
        let v = f + unit_items(e, fa, fb, ItemKind::Variable).len();
        all_ranges(es.drop_last(), fa, fb, base).push(ranges_from(s, t, f, v))
    }
}

/// The merged units: the listed units of `fa` alone, or for a diff the merge of the
/// sorted listed units of both files.
pub open spec fn unit_entries(fa: File, fb: File, diff: bool) -> Seq<Entry> {
    if diff {
        merge_keyed(spec_unit_list(fa, true), spec_unit_list(fb, true))
    } else {
        let l = spec_unit_list(fa, false);
        Seq::new(l.len(), |k: int| Entry::Left(l[k]))
    }
}

/// All id pairs: id 0 for nothing, then the units, then the units' items.
pub open spec fn spec_ids(fa: File, fb: File, diff: bool) -> Seq<(Id, Id)> {
    let es = unit_entries(fa, fb, diff);
    seq![(Id::Nil, Id::Nil)] + Seq::new(es.len(), |k: int| unit_pair(es[k])) + all_items(es, fa, fb)
}

/// Where the ids of each unit's items lie, by unit id (unit id 0 has none).
pub open spec fn spec_units(fa: File, fb: File, diff: bool) -> Seq<UnitIndex> {
    let es = unit_entries(fa, fb, diff);
    seq![empty_unit_index()] + all_ranges(es, fa, fb, 1 + es.len() as int)
}


proof fn lemma_select_keyed_step(
    order: Seq<usize>,
    i: int,
    n: int,
    keep: spec_fn(int) -> bool,
    key: spec_fn(int) -> u64,
)
    requires
        0 <= i < order.len(),
    ensures
        select_keyed(order.take(i + 1), n, keep, key) == ({
            let rest = select_keyed(order.take(i), n, keep, key);
            if order[i] < n && keep(order[i] as int) {
                rest.push((key(order[i] as int), order[i]))
            } else {
                rest
            }
        }),
{
    assert(order.take(i + 1).drop_last() =~= order.take(i));
}

/// Every selected position lies below `n` and is kept.
pub(crate) proof fn lemma_select_keyed_bound(
    order: Seq<usize>,
    n: int,
    keep: spec_fn(int) -> bool,
    key: spec_fn(int) -> u64,
)
    ensures
        forall|k: int|
            0 <= k < select_keyed(order, n, keep, key).len() ==> #[trigger] select_keyed(
                order,
                n,
                keep,
                key,
            )[k].1 < n && keep(select_keyed(order, n, keep, key)[k].1 as int),
    decreases order.len(),
{
    if order.len() > 0 {
        lemma_select_keyed_bound(order.drop_last(), n, keep, key);
        let rest = select_keyed(order.drop_last(), n, keep, key);
        let all = select_keyed(order, n, keep, key);
        assert forall|k: int| 0 <= k < all.len() implies #[trigger] all[k].1 < n && keep(
            all[k].1 as int,
        ) by {
            if k < rest.len() {
                assert(all[k] == rest[k]);
            }
        }
    }
}

fn make_item_id(kind: ItemKind, unit_index: usize, index: usize) -> (res: Id)
    ensures
        res == item_id(kind, unit_index, index),
{
    match kind {
        ItemKind::Type => Id::Type { unit_index, type_index: index },
        ItemKind::Function => Id::Function { unit_index, function_index: index },
        ItemKind::Variable => Id::Variable { unit_index, variable_index: index },
    }
}

/// A list sorted by key holds the items of the list; where no two items of the list
/// name the same position, no two of the sorted list do.
pub proof fn lemma_sort_keyed(l: Seq<(u64, usize)>)
    ensures
        sort_keyed(l).len() == l.len(),
        forall|k: int| 0 <= k < sort_keyed(l).len() ==> l.contains(#[trigger] sort_keyed(l)[k]),
        forall|k: int| 0 <= k < l.len() ==> sort_keyed(l).contains(#[trigger] l[k]),
        names_distinct(l) ==> names_distinct(sort_keyed(l)),
{
    broadcast use vstd::seq_lib::to_multiset_contains;

    lemma_spec_sort(l, key_of());
    let s = sort_keyed(l);
    assert forall|k: int| 0 <= k < s.len() implies l.contains(#[trigger] s[k]) by {
        assert(s.contains(s[k]));
        assert(s.to_multiset().count(s[k]) > 0);
        assert(l.to_multiset().count(s[k]) > 0);
    }
    assert forall|k: int| 0 <= k < l.len() implies s.contains(#[trigger] l[k]) by {
        assert(l.contains(l[k]));
        assert(l.to_multiset().count(l[k]) > 0);
        assert(s.to_multiset().count(l[k]) > 0);
    }
    if names_distinct(l) {
        assert forall|i: int, j: int| 0 <= i < l.len() && 0 <= j < l.len() && i != j implies l[i]
            != l[j] by {
            if i < j {
                assert(l[i].1 != l[j].1);
            } else {
                assert(l[j].1 != l[i].1);
            }
        }
        assert(l.no_duplicates());
        l.lemma_multiset_has_no_duplicates();
        assert forall|x: (u64, usize)| s.to_multiset().contains(x) implies s.to_multiset().count(x)
            == 1 by {
            assert(l.to_multiset().contains(x));
        }
        s.lemma_multiset_has_no_duplicates_conv();
        assert forall|i: int, j: int| 0 <= i < j < s.len() implies #[trigger] s[i].1 != #[trigger] s[j].1 by {
            if s[i].1 == s[j].1 {
                let p = choose|p: int| 0 <= p < l.len() && l[p] == s[i];
                let q = choose|q: int| 0 <= q < l.len() && l[q] == s[j];
                if p == q {
                    assert(s[i] == s[j]);
                } else if p < q {
                    assert(l[p].1 != l[q].1);
                } else {
                    assert(l[q].1 != l[p].1);
                }
            }
        }
    }
}

/// Each listed unit is a selected unit of the file.
pub proof fn lemma_unit_list_bound(file: File, diff: bool)
    ensures
        forall|k: int|
            0 <= k < spec_unit_list(file, diff).len() ==> (#[trigger] spec_unit_list(file, diff)[k]).1
                < file.units@.len() && file.units@[spec_unit_list(file, diff)[k].1 as int].selected,
{
    let base = units_in_order(file);
    lemma_select_keyed_bound(
        all_positions(file.units@.len() as int),
        file.units@.len() as int,
        |i: int| file.units@[i].selected,
        |i: int| file.units@[i].key,
    );
    if diff {
        lemma_sort_keyed(base);
        let l = spec_unit_list(file, diff);
        assert forall|k: int| 0 <= k < l.len() implies (#[trigger] l[k]).1 < file.units@.len()
            && file.units@[l[k].1 as int].selected by {
            let p = choose|p: int| 0 <= p < base.len() && base[p] == l[k];
        }
    }
}

/// The keyed positions `0, 1, .., n - 1` that are kept, in order.
fn select_all(
    n: usize,
    Ghost(keep): Ghost<spec_fn(int) -> bool>,
    Ghost(key): Ghost<spec_fn(int) -> u64>,
    kept: &Vec<bool>,
    keys: &Vec<u64>,
) -> (res: Vec<(u64, usize)>)
    requires
        kept@.len() == n,
        keys@.len() == n,
        forall|i: int| 0 <= i < n ==> kept@[i] == keep(i) && keys@[i] == key(i),
    ensures
        res@ == select_keyed(all_positions(n as int), n as int, keep, key),
{
    let ghost order = all_positions(n as int);
    let mut res: Vec<(u64, usize)> = Vec::new();
    let mut i: usize = 0;
    assert(order.take(0) =~= Seq::<usize>::empty());
    while i < n
        invariant
            order == all_positions(n as int),
            kept@.len() == n,
            keys@.len() == n,
            forall|i: int| 0 <= i < n ==> kept@[i] == keep(i) && keys@[i] == key(i),
            0 <= i <= n,
            res@ == select_keyed(order.take(i as int), n as int, keep, key),
        decreases n - i,
    {
        proof {
            lemma_select_keyed_step(order, i as int, n as int, keep, key);
        }
        if kept[i] {
            res.push((keys[i], i));
        }
        i = i + 1;
    }
    assert(order.take(n as int) =~= order);
    res
}

/// The listed units of a file, in the file's order or, for a diff, sorted by key.
pub(crate) fn listed_units(file: &File, diff: bool) -> (res: Vec<(u64, usize)>)
    ensures
        res@ == spec_unit_list(*file, diff),
{
    let n = file.units.len();
    let mut kept: Vec<bool> = Vec::new();
    let mut keys: Vec<u64> = Vec::new();
    let mut i: usize = 0;
    while i < n
        invariant
            n == file.units@.len(),
            0 <= i <= n,
            kept@.len() == i,
            keys@.len() == i,
            forall|j: int| 0 <= j < i ==> kept@[j] == file.units@[j].selected && keys@[j] == file.units@[j].key,
        decreases n - i,
    {
        kept.push(file.units[i].selected);
        keys.push(file.units[i].key);
        i = i + 1;
    }
    let base = select_all(
        n,
        Ghost(|i: int| file.units@[i].selected),
        Ghost(|i: int| file.units@[i].key),
        &kept,
        &keys,
    );
    if diff {
        stable_sort(&base, item_after, Ghost(key_of()))
    } else {
        base
    }
}

/// The listed items of a kind of a unit, sorted by key for a diff, with their keys.
fn sorted_unit_items(unit: &Unit, kind: ItemKind) -> (res: Vec<(u64, usize)>)
    ensures
        res@ == sorted_items(*unit, kind),
{
    let inline_types = filter::inline_types(unit);
    let n = match kind {
        ItemKind::Type => unit.types.len(),
        ItemKind::Function => unit.functions.len(),
        ItemKind::Variable => unit.variables.len(),
    };
    let mut kept: Vec<bool> = Vec::new();
    let mut keys: Vec<u64> = Vec::new();
    let mut i: usize = 0;
    while i < n
        invariant
            n == item_count(*unit, kind),
            inline_types@ == filter::spec_inline_types(*unit),
            0 <= i <= n,
            kept@.len() == i,
            keys@.len() == i,
            forall|j: int|
                0 <= j < i ==> kept@[j] == item_listed(*unit, kind)(j) && keys@[j] == item_key_at(
                    *unit,
                    kind,
                )(j),
        decreases n - i,
    {
        match kind {
            ItemKind::Type => {
                kept.push(filter::index_type(&unit.types[i], true, &inline_types));
                keys.push(unit.types[i].key);
            },
            ItemKind::Function => {
                kept.push(filter::index_function(&unit.functions[i]));
                keys.push(unit.functions[i].key);
            },
            ItemKind::Variable => {
                kept.push(filter::index_variable(&unit.variables[i]));
                keys.push(unit.variables[i].key);
            },
        }
        i = i + 1;
    }
    let base = select_all(n, Ghost(item_listed(*unit, kind)), Ghost(item_key_at(*unit, kind)), &kept, &keys);
    stable_sort(&base, item_after, Ghost(key_of()))
}

/// Append the ids of one side's items `items` of unit `unit_index`.
fn push_single(kind: ItemKind, side: Side, unit_index: usize, items: &Vec<usize>, ids: &mut Vec<(Id, Id)>)
    ensures
        final(ids)@ == old(ids)@ + single_ids(kind, side, unit_index, items@),
{
    let ghost start = ids@;
    let n = items.len();
    let mut i: usize = 0;
    while i < n
        invariant
            n == items@.len(),
            0 <= i <= n,
            ids@ == start + single_ids(kind, side, unit_index, items@.take(i as int)),
        decreases n - i,
    {
        let id = make_item_id(kind, unit_index, items[i]);
        ids.push(side.set(id));
        assert(single_ids(kind, side, unit_index, items@.take(i + 1)) =~= single_ids(
            kind,
            side,
            unit_index,
            items@.take(i as int),
        ).push(side.spec_set(item_id(kind, unit_index, items@[i as int]))));
        i = i + 1;
    }
    assert(items@.take(n as int) =~= items@);
}

/// Append the ids of merged items of units `unit_index_a` and `unit_index_b`.
fn push_merged(
    kind: ItemKind,
    unit_index_a: usize,
    unit_index_b: usize,
    items: &Vec<Entry>,
    ids: &mut Vec<(Id, Id)>,
)
    ensures
        final(ids)@ == old(ids)@ + merged_ids(kind, unit_index_a, unit_index_b, items@),
{
    let ghost start = ids@;
    let n = items.len();
    let mut i: usize = 0;
    while i < n
        invariant
            n == items@.len(),
            0 <= i <= n,
            ids@ == start + merged_ids(kind, unit_index_a, unit_index_b, items@.take(i as int)),
        decreases n - i,
    {
        let pair = match &items[i] {
            MergeResult::Both(a, b) => (
                make_item_id(kind, unit_index_a, a.1),
                make_item_id(kind, unit_index_b, b.1),
            ),
            MergeResult::Left(a) => (make_item_id(kind, unit_index_a, a.1), Id::Nil),
            MergeResult::Right(b) => (Id::Nil, make_item_id(kind, unit_index_b, b.1)),
        };
        ids.push(pair);
        assert(merged_ids(kind, unit_index_a, unit_index_b, items@.take(i + 1)) =~= merged_ids(
            kind,
            unit_index_a,
            unit_index_b,
            items@.take(i as int),
        ).push(merged_id(kind, unit_index_a, unit_index_b, items@[i as int])));
        i = i + 1;
    }
    assert(items@.take(n as int) =~= items@);
}


/// Ids for the listed items of a unit of one side only, in the unit's order.
fn assign_unmerged_ids_in_unit(
    unit_index: usize,
    unit: &Unit,
    ids: &mut Vec<(Id, Id)>,
    side: Side,
) -> (res: UnitIndex)
    ensures
        final(ids)@ == old(ids)@ + single_ids(
            ItemKind::Type,
            side,
            unit_index,
            listed_items(*unit, ItemKind::Type),
        ) + single_ids(ItemKind::Function, side, unit_index, listed_items(*unit, ItemKind::Function))
            + single_ids(ItemKind::Variable, side, unit_index, listed_items(*unit, ItemKind::Variable)),
        res == ranges_from(
            old(ids)@.len() as int,
            old(ids)@.len() as int + listed_items(*unit, ItemKind::Type).len(),
            old(ids)@.len() as int + listed_items(*unit, ItemKind::Type).len() + listed_items(
                *unit,
                ItemKind::Function,
            ).len(),
            final(ids)@.len() as int,
        ),
{
    let types_start = ids.len();
    let types = filter::enumerate_index_types(unit, false);
    push_single(ItemKind::Type, side, unit_index, &types, ids);
    let functions_start = ids.len();
    let functions = filter::enumerate_index_functions(unit);
    push_single(ItemKind::Function, side, unit_index, &functions, ids);
    let variables_start = ids.len();
    let variables = filter::enumerate_index_variables(unit);
    push_single(ItemKind::Variable, side, unit_index, &variables, ids);
    UnitIndex {
        types: types_start..functions_start,
        functions: functions_start..variables_start,
        variables: variables_start..ids.len(),
    }
}

/// Ids for the listed items of a unit of both files: each kind of item is sorted,
/// and items of the two units with equal keys share an id.
fn assign_merged_ids_in_unit(
    unit_index_a: usize,
    unit_a: &Unit,
    unit_index_b: usize,
    unit_b: &Unit,
    ids: &mut Vec<(Id, Id)>,
) -> (res: UnitIndex)
    ensures
        final(ids)@ == old(ids)@ + merged_ids(
            ItemKind::Type,
            unit_index_a,
            unit_index_b,
            merge_keyed(sorted_items(*unit_a, ItemKind::Type), sorted_items(*unit_b, ItemKind::Type)),
        ) + merged_ids(
            ItemKind::Function,
            unit_index_a,
            unit_index_b,
            merge_keyed(
                sorted_items(*unit_a, ItemKind::Function),
                sorted_items(*unit_b, ItemKind::Function),
            ),
        ) + merged_ids(
            ItemKind::Variable,
            unit_index_a,
            unit_index_b,
            merge_keyed(
                sorted_items(*unit_a, ItemKind::Variable),
                sorted_items(*unit_b, ItemKind::Variable),
            ),
        ),
        res == ranges_from(
            old(ids)@.len() as int,
            old(ids)@.len() as int + merge_keyed(
                sorted_items(*unit_a, ItemKind::Type),
                sorted_items(*unit_b, ItemKind::Type),
            ).len(),
            old(ids)@.len() as int + merge_keyed(
                sorted_items(*unit_a, ItemKind::Type),
                sorted_items(*unit_b, ItemKind::Type),
            ).len() + merge_keyed(
                sorted_items(*unit_a, ItemKind::Function),
                sorted_items(*unit_b, ItemKind::Function),
            ).len(),
            final(ids)@.len() as int,
        ),
{
    let types_a = sorted_unit_items(unit_a, ItemKind::Type);
    let types_b = sorted_unit_items(unit_b, ItemKind::Type);
    let types = MergeIterator::new(types_a, types_b).collect();
    let types_start = ids.len();
    push_merged(ItemKind::Type, unit_index_a, unit_index_b, &types, ids);

    let functions_a = sorted_unit_items(unit_a, ItemKind::Function);
    let functions_b = sorted_unit_items(unit_b, ItemKind::Function);
    let functions = MergeIterator::new(functions_a, functions_b).collect();
    let functions_start = ids.len();
    push_merged(ItemKind::Function, unit_index_a, unit_index_b, &functions, ids);

    let variables_a = sorted_unit_items(unit_a, ItemKind::Variable);
    let variables_b = sorted_unit_items(unit_b, ItemKind::Variable);
    let variables = MergeIterator::new(variables_a, variables_b).collect();
    let variables_start = ids.len();
    push_merged(ItemKind::Variable, unit_index_a, unit_index_b, &variables, ids);
    UnitIndex {
        types: types_start..functions_start,
        functions: functions_start..variables_start,
        variables: variables_start..ids.len(),
    }
}


/// The merged units name units that the files have.
pub proof fn lemma_entries_in_range(fa: File, fb: File, diff: bool)
    ensures
        forall|k: int|
            0 <= k < unit_entries(fa, fb, diff).len() ==> match #[trigger] unit_entries(
                fa,
                fb,
                diff,
            )[k] {
                MergeResult::Left(a) => a.1 < fa.units@.len(),
                MergeResult::Right(b) => b.1 < fb.units@.len() && diff,
                MergeResult::Both(a, b) => a.1 < fa.units@.len() && b.1 < fb.units@.len() && diff,
            },
{
    let es = unit_entries(fa, fb, diff);
    let la = spec_unit_list(fa, diff);
    let lb = spec_unit_list(fb, true);
    lemma_unit_list_bound(fa, diff);
    lemma_unit_list_bound(fb, true);
    assert forall|k: int| 0 <= k < es.len() implies match #[trigger] es[k] {
        MergeResult::Left(a) => a.1 < fa.units@.len(),
        MergeResult::Right(b) => b.1 < fb.units@.len() && diff,
        MergeResult::Both(a, b) => a.1 < fa.units@.len() && b.1 < fb.units@.len() && diff,
    } by {
        if diff {
            crate::merge::lemma_merge_members(la, lb, k);
            match es[k] {
                MergeResult::Left(a) => {
                    let i = choose|i: int| 0 <= i < la.len() && la[i] == a;
                    assert(la[i].1 < fa.units@.len());
                },
                MergeResult::Right(b) => {
                    let i = choose|i: int| 0 <= i < lb.len() && lb[i] == b;
                    assert(lb[i].1 < fb.units@.len());
                },
                MergeResult::Both(a, b) => {
                    let i = choose|i: int| 0 <= i < la.len() && la[i] == a;
                    assert(la[i].1 < fa.units@.len());
                    let j = choose|j: int| 0 <= j < lb.len() && lb[j] == b;
                    assert(lb[j].1 < fb.units@.len());
                },
            }
        } else {
            assert(la[k].1 < fa.units@.len());
        }
    }
}

impl Index {
    #[verifier::type_invariant]
    spec fn well_formed(&self) -> bool {
        &&& 1 <= self.units@.len() <= self.ids@.len()
        &&& forall|u: int|
            0 <= u < self.units@.len() ==> {
                let r = #[trigger] self.units@[u];
                &&& r.types.start <= r.types.end <= self.ids@.len()
                &&& r.functions.start <= r.functions.end <= self.ids@.len()
                &&& r.variables.start <= r.variables.end <= self.ids@.len()
            }
    }

    /// The id pairs, by id.
    pub closed spec fn id_pairs(&self) -> Seq<(Id, Id)> {
        self.ids@
    }

    /// Where the ids of each unit's items lie, by unit id.
    pub closed spec fn unit_ranges(&self) -> Seq<UnitIndex> {
        self.units@
    }

    /// The id given to each unit of a side's file, by the unit's position.
    pub closed spec fn unit_id_table(&self, side: Side) -> Seq<usize> {
        match side {
            Side::Left => self.unit_id_a@,
            Side::Right => self.unit_id_b@,
        }
    }
}

impl Index {
    /// The index holds the ids of the listed units and items of `fa`, or for a diff of
    /// `fa` and `fb`, and the id given to each unit of each file.
    pub open spec fn is_index_of(&self, fa: File, fb: File, diff: bool) -> bool {
        &&& self.id_pairs() == spec_ids(fa, fb, diff)
        &&& self.unit_ranges() == spec_units(fa, fb, diff)
        &&& self.unit_id_table(Side::Left) == unit_id_list(
            unit_entries(fa, fb, diff),
            Side::Left,
            fa.units@.len(),
        )
        &&& self.unit_id_table(Side::Right) == if diff {
            unit_id_list(unit_entries(fa, fb, diff), Side::Right, fb.units@.len())
        } else {
            Seq::empty()
        }
    }

    /// There are no more ids than a `usize` counts.
    pub proof fn lemma_id_count(&self)
        ensures
            self.id_pairs().len() <= usize::MAX,
    {
        assert(self.ids.len() == self.ids@.len());
    }
}

/// The unit of a side that a merged entry holds.
pub open spec fn entry_unit(e: Entry, side: Side) -> Option<usize> {
    match (e, side) {
        (MergeResult::Left(a), Side::Left) => Some(a.1),
        (MergeResult::Both(a, _), Side::Left) => Some(a.1),
        (MergeResult::Right(b), Side::Right) => Some(b.1),
        (MergeResult::Both(_, b), Side::Right) => Some(b.1),
        _ => None,
    }
}

/// The id that the merged units give to unit `u` of a side: that of the last entry that
/// holds it (entry `k` has id `k + 1`), or 0 if none does.
pub open spec fn assigned_unit_id(es: Seq<Entry>, side: Side, u: usize) -> int
    decreases es.len(),
{
    if es.len() == 0 {
        0
    } else if entry_unit(es.last(), side) == Some(u) {
        es.len() as int
    } else {
        assigned_unit_id(es.drop_last(), side, u)
    }
}

/// The ids given to the `n` units of a side's file.
pub open spec fn unit_id_list(es: Seq<Entry>, side: Side, n: nat) -> Seq<usize> {
    Seq::new(n, |u: int| assigned_unit_id(es, side, u as usize) as usize)
}

/// A table of `n` zeros.
fn zeros(n: usize) -> (res: Vec<usize>)
    ensures
        res@ == Seq::new(n as nat, |i: int| 0usize),
{
    let mut res: Vec<usize> = Vec::new();
    let mut i: usize = 0;
    while i < n
        invariant
            0 <= i <= n,
            res@ == Seq::new(i as nat, |j: int| 0usize),
        decreases n - i,
    {
        res.push(0);
        assert(res@ =~= Seq::new((i + 1) as nat, |j: int| 0usize));
        i = i + 1;
    }
    res
}

/// Record in the unit id tables that entry `e` has id `id`.
fn record_unit(e: &Entry, id: usize, table_a: &mut Vec<usize>, table_b: &mut Vec<usize>)
    requires
        match *e {
            MergeResult::Left(a) => a.1 < old(table_a)@.len(),
            MergeResult::Right(b) => b.1 < old(table_b)@.len(),
            MergeResult::Both(a, b) => a.1 < old(table_a)@.len() && b.1 < old(table_b)@.len(),
        },
    ensures
        final(table_a)@ == match entry_unit(*e, Side::Left) {
            Some(u) => old(table_a)@.update(u as int, id),
            None => old(table_a)@,
        },
        final(table_b)@ == match entry_unit(*e, Side::Right) {
            Some(u) => old(table_b)@.update(u as int, id),
            None => old(table_b)@,
        },
{
    match e {
        MergeResult::Both(a, b) => {
            table_a.set(a.1, id);
            table_b.set(b.1, id);
        },
        MergeResult::Left(a) => {
            table_a.set(a.1, id);
        },
        MergeResult::Right(b) => {
            table_b.set(b.1, id);
        },
    }
}

/// The ids of the merged units: id `k + 1` for entry `k`, and the tables of the ids
/// given to the `na` units of the first file and, for a diff, the `nb` units of the
/// second.
fn assign_unit_ids(unit_merge: &Vec<Entry>, na: usize, nb: usize, diff: bool) -> (res: (
    Vec<(Id, Id)>,
    Vec<usize>,
    Vec<usize>,
))
    requires
        forall|j: int|
            0 <= j < unit_merge@.len() ==> match #[trigger] unit_merge@[j] {
                MergeResult::Left(a) => a.1 < na,
                MergeResult::Right(b) => b.1 < nb && diff,
                MergeResult::Both(a, b) => a.1 < na && b.1 < nb && diff,
            },
    ensures
        res.0@ == seq![(Id::Nil, Id::Nil)] + Seq::new(
            unit_merge@.len(),
            |j: int| unit_pair(unit_merge@[j]),
        ),
        res.1@ == unit_id_list(unit_merge@, Side::Left, na as nat),
        res.2@ == if diff {
            unit_id_list(unit_merge@, Side::Right, nb as nat)
        } else {
            Seq::empty()
        },
{
    let ghost es = unit_merge@;
    let n = unit_merge.len();
    let mut ids: Vec<(Id, Id)> = Vec::new();
    ids.push((Id::Nil, Id::Nil));
    let mut unit_id_a = zeros(na);
    let mut unit_id_b = if diff {
        zeros(nb)
    } else {
        Vec::new()
    };
    assert(es.take(0) =~= Seq::<Entry>::empty());
    assert(unit_id_a@ =~= unit_id_list(es.take(0), Side::Left, na as nat));
    assert(diff ==> unit_id_b@ =~= unit_id_list(es.take(0), Side::Right, nb as nat));
    let mut k: usize = 0;
    while k < n
        invariant
            n == es.len(),
            unit_merge@ == es,
            0 <= k <= n,
            forall|j: int|
                0 <= j < es.len() ==> match #[trigger] es[j] {
                    MergeResult::Left(a) => a.1 < na,
                    MergeResult::Right(b) => b.1 < nb && diff,
                    MergeResult::Both(a, b) => a.1 < na && b.1 < nb && diff,
                },
            ids@ == seq![(Id::Nil, Id::Nil)] + Seq::new(k as nat, |j: int| unit_pair(es[j])),
            unit_id_a@ == unit_id_list(es.take(k as int), Side::Left, na as nat),
            unit_id_b@ == if diff {
                unit_id_list(es.take(k as int), Side::Right, nb as nat)
            } else {
                Seq::empty()
            },
        decreases n - k,
    {
        let ghost old_a = unit_id_a@;
        let ghost old_b = unit_id_b@;
        let e = &unit_merge[k];
        assert(*e == es[k as int]);
        record_unit(e, k + 1, &mut unit_id_a, &mut unit_id_b);
        let pair = match e {
            MergeResult::Both(a, b) => (Id::Unit { unit_index: a.1 }, Id::Unit { unit_index: b.1 }),
            MergeResult::Left(a) => (Id::Unit { unit_index: a.1 }, Id::Nil),
            MergeResult::Right(b) => (Id::Nil, Id::Unit { unit_index: b.1 }),
        };
        ids.push(pair);
        proof {
            assert(ids@ =~= seq![(Id::Nil, Id::Nil)] + Seq::new(
                (k + 1) as nat,
                |j: int| unit_pair(es[j]),
            ));
            assert(es.take(k + 1).drop_last() =~= es.take(k as int));
            assert(es.take(k + 1).last() == es[k as int]);
            assert(es.take(k + 1).len() == k + 1);
            assert(unit_id_a@ =~= unit_id_list(es.take(k + 1), Side::Left, na as nat));
            if diff {
                assert(unit_id_b@ =~= unit_id_list(es.take(k + 1), Side::Right, nb as nat));
            }
        }
        k = k + 1;
    }
    assert(es.take(n as int) =~= es);
    (ids, unit_id_a, unit_id_b)
}

/// Assign ids to the listed units of `file_a`, or to those of both files for a diff,
/// and then to their listed items.
fn assign_merged_ids(file_a: &File, file_b: Option<&File>) -> (res: Index)
    ensures
        res.id_pairs() == spec_ids(
            *file_a,
            match file_b {
                Some(f) => *f,
                None => *file_a,
            },
            file_b is Some,
        ),
        res.unit_ranges() == spec_units(
            *file_a,
            match file_b {
                Some(f) => *f,
                None => *file_a,
            },
            file_b is Some,
        ),
        res.unit_id_table(Side::Left) == unit_id_list(
            unit_entries(
                *file_a,
                match file_b {
                    Some(f) => *f,
                    None => *file_a,
                },
                file_b is Some,
            ),
            Side::Left,
            file_a.units@.len(),
        ),
        res.unit_id_table(Side::Right) == match file_b {
            Some(f) => unit_id_list(unit_entries(*file_a, *f, true), Side::Right, f.units@.len()),
            None => Seq::empty(),
        },
{
    let diff = file_b.is_some();
    let ghost fb_spec = match file_b {
        Some(f) => *f,
        None => *file_a,
    };
    let ghost es = unit_entries(*file_a, fb_spec, diff);
    let unit_merge: Vec<Entry> = match file_b {
        Some(file_b) => {
            let units_a = listed_units(file_a, true);
            let units_b = listed_units(file_b, true);
            MergeIterator::new(units_a, units_b).collect()
        },
        None => {
            // All entries are `Left`.
            let units_a = listed_units(file_a, false);
            let mut m: Vec<Entry> = Vec::new();
            let mut i: usize = 0;
            while i < units_a.len()
                invariant
                    0 <= i <= units_a@.len(),
                    m@ == Seq::new(i as nat, |k: int| Entry::Left(units_a@[k])),
                decreases units_a@.len() - i,
            {
                m.push(MergeResult::Left(units_a[i]));
                assert(m@ =~= Seq::new((i + 1) as nat, |k: int| Entry::Left(units_a@[k])));
                i = i + 1;
            }
            m
        },
    };
    assert(unit_merge@ =~= es);
    let file_b = match file_b {
        Some(f) => f,
        None => file_a,
    };
    proof {
        lemma_entries_in_range(*file_a, *file_b, diff);
    }
    let n = unit_merge.len();
    // Assign the unit ids first, so both `ids` and `units` can be indexed by unit id.
    // Id 0 is reserved for nothing.
    let (mut ids, unit_id_a, unit_id_b) = assign_unit_ids(
        &unit_merge,
        file_a.units.len(),
        file_b.units.len(),
        diff,
    );
    let ghost head = ids@;
    let mut units: Vec<UnitIndex> = Vec::new();
    units.push(UnitIndex { types: 0..0, functions: 0..0, variables: 0..0 });
    let mut k: usize = 0;
    assert(es.take(0) =~= Seq::<Entry>::empty());
    assert(ids@ =~= head + all_items(es.take(0), *file_a, *file_b));
    while k < n
        invariant
            n == es.len(),
            unit_merge@ == es,
            es == unit_entries(*file_a, *file_b, diff),
            head == seq![(Id::Nil, Id::Nil)] + Seq::new(n as nat, |j: int| unit_pair(es[j])),
            head.len() == 1 + n,
            0 <= k <= n,
            forall|j: int|
                0 <= j < es.len() ==> match #[trigger] es[j] {
                    MergeResult::Left(a) => a.1 < file_a.units@.len(),
                    MergeResult::Right(b) => b.1 < file_b.units@.len() && diff,
                    MergeResult::Both(a, b) => a.1 < file_a.units@.len() && b.1
                        < file_b.units@.len(),
                },
            ids@ == head + all_items(es.take(k as int), *file_a, *file_b),
            units@ == seq![empty_unit_index()] + all_ranges(
                es.take(k as int),
                *file_a,
                *file_b,
                1 + n as int,
            ),
            units@.len() == 1 + k,
            1 <= units@.len() <= ids@.len(),
            forall|u: int|
                0 <= u < units@.len() ==> {
                    let r = #[trigger] units@[u];
                    &&& r.types.start <= r.types.end <= ids@.len()
                    &&& r.functions.start <= r.functions.end <= ids@.len()
                    &&& r.variables.start <= r.variables.end <= ids@.len()
                },
        decreases n - k,
    {
        let ghost before = ids@;
        let ghost prev_units = units@;
        let unit = match &unit_merge[k] {
            MergeResult::Both(a, b) => assign_merged_ids_in_unit(
                a.1,
                &file_a.units[a.1],
                b.1,
                &file_b.units[b.1],
                &mut ids,
            ),
            MergeResult::Left(a) => assign_unmerged_ids_in_unit(
                a.1,
                &file_a.units[a.1],
                &mut ids,
                Side::Left,
            ),
            MergeResult::Right(b) => assign_unmerged_ids_in_unit(
                b.1,
                &file_b.units[b.1],
                &mut ids,
                Side::Right,
            ),
        };
        let total = ids.len();
        units.push(unit);
        proof {
            let e = es[k as int];
            let s = before.len() as int;
            let t = s + unit_items(e, *file_a, *file_b, ItemKind::Type).len();
            let f = t + unit_items(e, *file_a, *file_b, ItemKind::Function).len();
            let v = f + unit_items(e, *file_a, *file_b, ItemKind::Variable).len();
            assert(v == total);
            assert(unit == ranges_from(s, t, f, v));
            assert(es.take(k + 1).drop_last() =~= es.take(k as int));
            assert(es.take(k + 1).last() == e);
            assert(ids@ =~= head + all_items(es.take(k + 1), *file_a, *file_b));
            assert(ids@.len() >= head.len());
            assert(units@ =~= seq![empty_unit_index()] + all_ranges(
                es.take(k + 1),
                *file_a,
                *file_b,
                1 + n as int,
            ));
            assert forall|u: int| 0 <= u < units@.len() implies {
                let r = #[trigger] units@[u];
                &&& r.types.start <= r.types.end <= ids@.len()
                &&& r.functions.start <= r.functions.end <= ids@.len()
                &&& r.variables.start <= r.variables.end <= ids@.len()
            } by {
                if u < prev_units.len() {
                    assert(units@[u] == prev_units[u]);
                }
            }
        }
        k = k + 1;
    }
    assert(es.take(n as int) =~= es);
    Index { ids, units, unit_id_a, unit_id_b }
}

/// What a kind of id names: a unit (`None`) or an item of a kind.
pub open spec fn spec_lookup(kind: Option<ItemKind>, id: Id) -> Option<usize> {
    match kind {
        None => id.spec_unit_index(),
        Some(k) => id.spec_item_index(k),
    }
}

/// The index named by an id if the mask has an entry for it that is set.
pub open spec fn kept(keep: Seq<bool>, i: Option<usize>) -> Option<usize> {
    match i {
        Some(j) => if j < keep.len() && keep[j as int] {
            Some(j)
        } else {
            None
        },
        None => None,
    }
}

/// The items that the ids of one side name, in id order, that the mask keeps.
pub open spec fn single_list(side: Side, ids: Seq<(Id, Id)>, kind: Option<ItemKind>, keep: Seq<bool>) -> Seq<usize>
    decreases ids.len(),
{
    if ids.len() == 0 {
        Seq::empty()
    } else {
        let rest = single_list(side, ids.drop_last(), kind, keep);
        match kept(keep, spec_lookup(kind, side.spec_get(ids.last()))) {
            Some(i) => rest.push(i),
            None => rest,
        }
    }
}

/// A pair of the items of both sides, or the item of one side, or nothing.
pub open spec fn merge_option(a: Option<usize>, b: Option<usize>) -> Option<MergeResult<usize, usize>> {
    match (a, b) {
        (Some(a), Some(b)) => Some(MergeResult::Both(a, b)),
        (Some(a), None) => Some(MergeResult::Left(a)),
        (None, Some(b)) => Some(MergeResult::Right(b)),
        (None, None) => None,
    }
}

/// The items that the id pairs name, in id order: a pair where both sides are kept, else
/// the side that is kept.
pub open spec fn merged_list(
    ids: Seq<(Id, Id)>,
    kind: Option<ItemKind>,
    keep_a: Seq<bool>,
    keep_b: Seq<bool>,
) -> Seq<MergeResult<usize, usize>>
    decreases ids.len(),
{
    if ids.len() == 0 {
        Seq::empty()
    } else {
        let rest = merged_list(ids.drop_last(), kind, keep_a, keep_b);
        let (a, b) = ids.last();
        match merge_option(
            kept(keep_a, spec_lookup(kind, a)),
            kept(keep_b, spec_lookup(kind, b)),
        ) {
            Some(m) => rest.push(m),
            None => rest,
        }
    }
}

/// Listing the items of a unit of both files by id keeps exactly what listing each side
/// alone keeps: the first file's items of the merged list are, in order, those that its
/// mask keeps, and likewise for the second file; no entry holds an item that its mask
/// does not keep.
pub proof fn lemma_merged_list_sides(
    ids: Seq<(Id, Id)>,
    kind: Option<ItemKind>,
    keep_a: Seq<bool>,
    keep_b: Seq<bool>,
)
    ensures
        crate::merge::left_items(merged_list(ids, kind, keep_a, keep_b)) == single_list(
            Side::Left,
            ids,
            kind,
            keep_a,
        ),
        crate::merge::right_items(merged_list(ids, kind, keep_a, keep_b)) == single_list(
            Side::Right,
            ids,
            kind,
            keep_b,
        ),
        forall|k: int|
            0 <= k < merged_list(ids, kind, keep_a, keep_b).len() ==> match #[trigger] merged_list(
                ids,
                kind,
                keep_a,
                keep_b,
            )[k] {
                MergeResult::Left(x) => x < keep_a.len() && keep_a[x as int],
                MergeResult::Right(y) => y < keep_b.len() && keep_b[y as int],
                MergeResult::Both(x, y) => x < keep_a.len() && keep_a[x as int] && y < keep_b.len()
                    && keep_b[y as int],
            },
    decreases ids.len(),
{
    if ids.len() == 0 {
        assert(crate::merge::left_items(Seq::<MergeResult<usize, usize>>::empty()) =~= Seq::<usize>::empty());
        assert(crate::merge::right_items(Seq::<MergeResult<usize, usize>>::empty()) =~= Seq::<usize>::empty());
    } else {
        let front = ids.drop_last();
        lemma_merged_list_sides(front, kind, keep_a, keep_b);
        let rest = merged_list(front, kind, keep_a, keep_b);
        let all = merged_list(ids, kind, keep_a, keep_b);
        let (a, b) = ids.last();
        let ka = kept(keep_a, spec_lookup(kind, a));
        let kb = kept(keep_b, spec_lookup(kind, b));
        match merge_option(ka, kb) {
            Some(m) => {
                crate::merge::lemma_items_push(rest, m);
                assert(crate::merge::left_items(all) =~= single_list(Side::Left, ids, kind, keep_a));
                assert(crate::merge::right_items(all) =~= single_list(Side::Right, ids, kind, keep_b));
                assert forall|k: int| 0 <= k < all.len() implies match #[trigger] all[k] {
                    MergeResult::Left(x) => x < keep_a.len() && keep_a[x as int],
                    MergeResult::Right(y) => y < keep_b.len() && keep_b[y as int],
                    MergeResult::Both(x, y) => x < keep_a.len() && keep_a[x as int] && y
                        < keep_b.len() && keep_b[y as int],
                } by {
                    if k < rest.len() {
                        assert(all[k] == rest[k]);
                    }
                }
            },
            None => {
                assert(single_list(Side::Left, ids, kind, keep_a) == single_list(
                    Side::Left,
                    front,
                    kind,
                    keep_a,
                ));
                assert(single_list(Side::Right, ids, kind, keep_b) == single_list(
                    Side::Right,
                    front,
                    kind,
                    keep_b,
                ));
            },
        }
    }
}

/// The side of a unit that only one file has.
pub open spec fn single_side(pair: (Id, Id)) -> Option<Side> {
    match pair {
        (Id::Unit { .. }, Id::Nil) => Some(Side::Left),
        (Id::Nil, Id::Unit { .. }) => Some(Side::Right),
        _ => None,
    }
}

fn lookup(kind: Option<ItemKind>, id: Id) -> (res: Option<usize>)
    ensures
        res == spec_lookup(kind, id),
{
    match kind {
        None => id.unit_index(),
        Some(k) => id.item_index(k),
    }
}

/// Convert id pairs into the items of a single file that the mask keeps.
fn single(side: Side, ids: &[(Id, Id)], kind: Option<ItemKind>, keep: &[bool]) -> (res: Vec<usize>)
    ensures
        res@ == single_list(side, ids@, kind, keep@),
{
    let mut res: Vec<usize> = Vec::new();
    let mut i: usize = 0;
    while i < ids.len()
        invariant
            0 <= i <= ids@.len(),
            res@ == single_list(side, ids@.take(i as int), kind, keep@),
        decreases ids@.len() - i,
    {
        assert(ids@.take(i + 1).drop_last() =~= ids@.take(i as int));
        let got = lookup(kind, side.get(ids[i]));
        if let Some(j) = got {
            if j < keep.len() && keep[j] {
                res.push(j);
            }
        }
        i = i + 1;
    }
    assert(ids@.take(ids@.len() as int) =~= ids@);
    res
}

fn merge_result(a: Option<usize>, b: Option<usize>) -> (res: Option<MergeResult<usize, usize>>)
    ensures
        res == merge_option(a, b),
{
    match (a, b) {
        (Some(a), Some(b)) => Some(MergeResult::Both(a, b)),
        (Some(a), None) => Some(MergeResult::Left(a)),
        (None, Some(b)) => Some(MergeResult::Right(b)),
        (None, None) => None,
    }
}

/// Whether the mask keeps item `i`.
fn keeps(keep: &[bool], i: usize) -> (res: bool)
    ensures
        res == (i < keep@.len() && keep@[i as int]),
{
    i < keep.len() && keep[i]
}

/// Whether the item named by an id exists, that is lies within the mask.
fn found(keep: &[bool], i: Option<usize>) -> (res: Option<usize>)
    ensures
        res == match i {
            Some(j) => if j < keep@.len() {
                Some(j)
            } else {
                None
            },
            None => None,
        },
{
    match i {
        Some(j) => if j < keep.len() {
            Some(j)
        } else {
            None
        },
        None => None,
    }
}

/// Convert id pairs into the merged items that they name. Where only one side of a
/// pair is kept, the pair becomes an item of that side alone.
fn merge(ids: &[(Id, Id)], kind: Option<ItemKind>, keep_a: &[bool], keep_b: &[bool]) -> (res: Vec<
    MergeResult<usize, usize>,
>)
    ensures
        res@ == merged_list(ids@, kind, keep_a@, keep_b@),
{
    let mut res: Vec<MergeResult<usize, usize>> = Vec::new();
    let mut i: usize = 0;
    while i < ids.len()
        invariant
            0 <= i <= ids@.len(),
            res@ == merged_list(ids@.take(i as int), kind, keep_a@, keep_b@),
        decreases ids@.len() - i,
    {
        assert(ids@.take(i + 1).drop_last() =~= ids@.take(i as int));
        let (id_a, id_b) = ids[i];
        let item = merge_result(
            found(keep_a, lookup(kind, id_a)),
            found(keep_b, lookup(kind, id_b)),
        );
        let kept_item = match item {
            Some(MergeResult::Both(a, b)) => match (keeps(keep_a, a), keeps(keep_b, b)) {
                (true, true) => Some(MergeResult::Both(a, b)),
                (true, false) => Some(MergeResult::Left(a)),
                (false, true) => Some(MergeResult::Right(b)),
                (false, false) => None,
            },
            Some(MergeResult::Left(a)) => if keeps(keep_a, a) {
                Some(MergeResult::Left(a))
            } else {
                None
            },
            Some(MergeResult::Right(b)) => if keeps(keep_b, b) {
                Some(MergeResult::Right(b))
            } else {
                None
            },
            None => None,
        };
        if let Some(m) = kept_item {
            res.push(m);
        }
        i = i + 1;
    }
    assert(ids@.take(ids@.len() as int) =~= ids@);
    res
}

/// A mask that keeps each of `n` items.
fn keep_all(n: usize) -> (res: Vec<bool>)
    ensures
        res@.len() == n,
        forall|i: int| 0 <= i < n ==> res@[i],
{
    let mut res: Vec<bool> = Vec::new();
    let mut i: usize = 0;
    while i < n
        invariant
            0 <= i <= n,
            res@.len() == i,
            forall|j: int| 0 <= j < i ==> res@[j],
        decreases n - i,
    {
        res.push(true);
        i = i + 1;
    }
    res
}

impl Index {
    /// Ids for the listed units of a file and their listed items.
    pub fn new(file: &File) -> (res: Index)
        ensures
            res.is_index_of(*file, *file, false),
    {
        assign_merged_ids(file, None)
    }

    /// Ids for the listed units of two files and their listed items, where units and
    /// items of both files with equal keys share an id.
    pub fn new_diff(file_a: &File, file_b: &File) -> (res: Index)
        ensures
            res.is_index_of(*file_a, *file_b, true),
    {
        assign_merged_ids(file_a, Some(file_b))
    }

    /// What id `id` names in the first file.
    pub fn get(&self, id: usize) -> (res: Option<Id>)
        ensures
            res == if id < self.id_pairs().len() {
                Some(self.id_pairs()[id as int].0)
            } else {
                None
            },
    {
        match self.get_pair(id) {
            Some(x) => Some(x.0),
            None => None,
        }
    }

    /// What id `id` names in each file.
    pub fn get_pair(&self, id: usize) -> (res: Option<(Id, Id)>)
        ensures
            res == if id < self.id_pairs().len() {
                Some(self.id_pairs()[id as int])
            } else {
                None
            },
    {
        if id < self.ids.len() {
            Some(self.ids[id])
        } else {
            None
        }
    }

    /// The id pairs of the units.
    fn unit_ids(&self) -> (res: &[(Id, Id)])
        ensures
            res@ == self.id_pairs().subrange(1, self.unit_ranges().len() as int),
    {
        proof {
            use_type_invariant(self);
        }
        vstd::slice::slice_subrange(self.ids.as_slice(), 1, self.units.len())
    }

    /// The listed units of the first file, by their position in it, in id order.
    pub fn units(&self, file: &File) -> (res: Vec<usize>)
        ensures
            res@ == single_list(
                Side::Left,
                self.id_pairs().subrange(1, self.unit_ranges().len() as int),
                None,
                Seq::new(file.units@.len(), |i: int| true),
            ),
    {
        let keep = keep_all(file.units.len());
        assert(keep@ =~= Seq::new(file.units@.len(), |i: int| true));
        single(Side::Left, self.unit_ids(), None, keep.as_slice())
    }

    /// The listed units of both files, by their positions, in id order.
    pub fn merged_units(&self, file_a: &File, file_b: &File) -> (res: Vec<MergeResult<usize, usize>>)
        ensures
            res@ == merged_list(
                self.id_pairs().subrange(1, self.unit_ranges().len() as int),
                None,
                Seq::new(file_a.units@.len(), |i: int| true),
                Seq::new(file_b.units@.len(), |i: int| true),
            ),
    {
        let keep_a = keep_all(file_a.units.len());
        let keep_b = keep_all(file_b.units.len());
        assert(keep_a@ =~= Seq::new(file_a.units@.len(), |i: int| true));
        assert(keep_b@ =~= Seq::new(file_b.units@.len(), |i: int| true));
        merge(self.unit_ids(), None, keep_a.as_slice(), keep_b.as_slice())
    }

    /// Where the ids of a unit's items lie.
    fn unit(&self, unit_id: usize) -> (res: Option<&UnitIndex>)
        ensures
            res == if unit_id < self.unit_ranges().len() {
                Some(&self.unit_ranges()[unit_id as int])
            } else {
                None
            },
    {
        if unit_id < self.units.len() {
            Some(&self.units[unit_id])
        } else {
            None
        }
    }

    /// The file that a unit of one file only belongs to.
    fn unit_side(&self, unit_id: usize) -> (res: Side)
        requires
            unit_id < self.id_pairs().len(),
            single_side(self.id_pairs()[unit_id as int]) is Some,
        ensures
            single_side(self.id_pairs()[unit_id as int]) == Some(res),
    {
        match self.get_pair(unit_id) {
            Some((Id::Unit { .. }, Id::Nil)) => Side::Left,
            _ => Side::Right,
        }
    }
}

/// The id pairs of the items of a kind of a unit.
pub open spec fn spec_item_ids(index: Index, unit_id: usize, kind: ItemKind) -> Seq<(Id, Id)> {
    if unit_id < index.unit_ranges().len() {
        let r = index.unit_ranges()[unit_id as int];
        let range = match kind {
            ItemKind::Type => r.types,
            ItemKind::Function => r.functions,
            ItemKind::Variable => r.variables,
        };
        index.id_pairs().subrange(range.start as int, range.end as int)
    } else {
        Seq::empty()
    }
}

impl Index {
    /// The id pairs of the items of a kind of a unit; none for an unknown unit.
    fn item_ids(&self, unit_id: usize, kind: ItemKind) -> (res: &[(Id, Id)])
        ensures
            res@ == spec_item_ids(*self, unit_id, kind),
    {
        proof {
            use_type_invariant(self);
        }
        match self.unit(unit_id) {
            Some(unit) => {
                let range = match kind {
                    ItemKind::Type => &unit.types,
                    ItemKind::Function => &unit.functions,
                    ItemKind::Variable => &unit.variables,
                };
                vstd::slice::slice_subrange(self.ids.as_slice(), range.start, range.end)
            },
            None => &[],
        }
    }

    /// The id pairs of the types of a unit.
    fn type_ids(&self, unit_id: usize) -> (res: &[(Id, Id)])
        ensures
            res@ == spec_item_ids(*self, unit_id, ItemKind::Type),
    {
        self.item_ids(unit_id, ItemKind::Type)
    }

    /// The id pairs of the functions of a unit.
    fn function_ids(&self, unit_id: usize) -> (res: &[(Id, Id)])
        ensures
            res@ == spec_item_ids(*self, unit_id, ItemKind::Function),
    {
        self.item_ids(unit_id, ItemKind::Function)
    }

    /// The id pairs of the variables of a unit.
    fn variable_ids(&self, unit_id: usize) -> (res: &[(Id, Id)])
        ensures
            res@ == spec_item_ids(*self, unit_id, ItemKind::Variable),
    {
        self.item_ids(unit_id, ItemKind::Variable)
    }

    /// The items of a kind of a unit of one file, by their position in the unit, in id
    /// order; `keep` holds for each item of the unit whether it passes the filter.
    fn items(&self, unit_id: usize, kind: ItemKind, keep: &[bool]) -> (res: Vec<usize>)
        requires
            unit_id < self.id_pairs().len(),
            single_side(self.id_pairs()[unit_id as int]) is Some,
        ensures
            res@ == single_list(
                single_side(self.id_pairs()[unit_id as int])->0,
                spec_item_ids(*self, unit_id, kind),
                Some(kind),
                keep@,
            ),
    {
        let side = self.unit_side(unit_id);
        let ids = match kind {
            ItemKind::Type => self.type_ids(unit_id),
            ItemKind::Function => self.function_ids(unit_id),
            ItemKind::Variable => self.variable_ids(unit_id),
        };
        single(side, ids, Some(kind), keep)
    }

    /// The types of a unit of one file, by their position in the unit, in id order;
    /// `keep` holds for each type of the unit whether it passes the filter.
    pub fn types(&self, unit_id: usize, keep: &[bool]) -> (res: Vec<usize>)
        requires
            unit_id < self.id_pairs().len(),
            single_side(self.id_pairs()[unit_id as int]) is Some,
        ensures
            res@ == single_list(
                single_side(self.id_pairs()[unit_id as int])->0,
                spec_item_ids(*self, unit_id, ItemKind::Type),
                Some(ItemKind::Type),
                keep@,
            ),
    {
        self.items(unit_id, ItemKind::Type, keep)
    }

    /// The functions of a unit of one file, as `types` does for types.
    pub fn functions(&self, unit_id: usize, keep: &[bool]) -> (res: Vec<usize>)
        requires
            unit_id < self.id_pairs().len(),
            single_side(self.id_pairs()[unit_id as int]) is Some,
        ensures
            res@ == single_list(
                single_side(self.id_pairs()[unit_id as int])->0,
                spec_item_ids(*self, unit_id, ItemKind::Function),
                Some(ItemKind::Function),
                keep@,
            ),
    {
        self.items(unit_id, ItemKind::Function, keep)
    }

    /// The variables of a unit of one file, as `types` does for types.
    pub fn variables(&self, unit_id: usize, keep: &[bool]) -> (res: Vec<usize>)
        requires
            unit_id < self.id_pairs().len(),
            single_side(self.id_pairs()[unit_id as int]) is Some,
        ensures
            res@ == single_list(
                single_side(self.id_pairs()[unit_id as int])->0,
                spec_item_ids(*self, unit_id, ItemKind::Variable),
                Some(ItemKind::Variable),
                keep@,
            ),
    {
        self.items(unit_id, ItemKind::Variable, keep)
    }

    /// The types of a unit of both files, paired where they share an id; `keep_a` and
    /// `keep_b` hold for each type of each unit whether it passes the filter.
    pub fn merged_types(&self, unit_id: usize, keep_a: &[bool], keep_b: &[bool]) -> (res: Vec<
        MergeResult<usize, usize>,
    >)
        ensures
            res@ == merged_list(
                spec_item_ids(*self, unit_id, ItemKind::Type),
                Some(ItemKind::Type),
                keep_a@,
                keep_b@,
            ),
    {
        merge(self.type_ids(unit_id), Some(ItemKind::Type), keep_a, keep_b)
    }

    /// The functions of a unit of both files, as `merged_types` does for types.
    pub fn merged_functions(&self, unit_id: usize, keep_a: &[bool], keep_b: &[bool]) -> (res: Vec<
        MergeResult<usize, usize>,
    >)
        ensures
            res@ == merged_list(
                spec_item_ids(*self, unit_id, ItemKind::Function),
                Some(ItemKind::Function),
                keep_a@,
                keep_b@,
            ),
    {
        merge(self.function_ids(unit_id), Some(ItemKind::Function), keep_a, keep_b)
    }

    /// The variables of a unit of both files, as `merged_types` does for types.
    pub fn merged_variables(&self, unit_id: usize, keep_a: &[bool], keep_b: &[bool]) -> (res: Vec<
        MergeResult<usize, usize>,
    >)
        ensures
            res@ == merged_list(
                spec_item_ids(*self, unit_id, ItemKind::Variable),
                Some(ItemKind::Variable),
                keep_a@,
                keep_b@,
            ),
    {
        merge(self.variable_ids(unit_id), Some(ItemKind::Variable), keep_a, keep_b)
    }
}

/// The id of the unit that the item with id `id` belongs to: by the first file if the
/// item is of the first file, else by the second.
pub open spec fn spec_index_parent(index: Index, id: usize) -> Option<usize> {
    if id < index.id_pairs().len() {
        let (a, b) = index.id_pairs()[id as int];
        match a.spec_parent(index.unit_id_table(Side::Left)) {
            Some(p) => Some(p),
            None => b.spec_parent(index.unit_id_table(Side::Right)),
        }
    } else {
        None
    }
}

/// The first id whose side `side` names `id`, if one does.
pub open spec fn spec_find(ids: Seq<(Id, Id)>, side: Side, id: Id) -> Option<usize>
    decreases ids.len(),
{
    if ids.len() == 0 {
        None
    } else {
        match spec_find(ids.drop_last(), side, id) {
            Some(i) => Some(i),
            None => if side.spec_get(ids.last()) == id {
                Some((ids.len() - 1) as usize)
            } else {
                None
            },
        }
    }
}

/// `spec_find` finds an id exactly when one names the item, and the id it finds does.
pub proof fn lemma_find(ids: Seq<(Id, Id)>, side: Side, id: Id)
    requires
        ids.len() <= usize::MAX,
    ensures
        spec_find(ids, side, id) matches Some(i) ==> i < ids.len() && side.spec_get(ids[i as int]) == id,
        (exists|j: int| 0 <= j < ids.len() && #[trigger] side.spec_get(ids[j]) == id) ==> spec_find(
            ids,
            side,
            id,
        ) is Some,
    decreases ids.len(),
{
    if ids.len() > 0 {
        let front = ids.drop_last();
        lemma_find(front, side, id);
        if let Some(i) = spec_find(front, side, id) {
            assert(ids[i as int] == front[i as int]);
        }
        if exists|j: int| 0 <= j < ids.len() && #[trigger] side.spec_get(ids[j]) == id {
            let j = choose|j: int| 0 <= j < ids.len() && #[trigger] side.spec_get(ids[j]) == id;
            if j < ids.len() - 1 {
                assert(side.spec_get(front[j]) == id);
            }
        }
    }
}

impl Index {
    /// The id that the index gives to the unit or item `id` of side `side`: the first id
    /// whose side names it, if one does.
    pub fn find(&self, side: Side, id: Id) -> (res: Option<usize>)
        ensures
            res == spec_find(self.id_pairs(), side, id),
    {
        proof {
            use_type_invariant(self);
        }
        let ghost ids = self.id_pairs();
        let mut res: Option<usize> = None;
        let mut i: usize = 0;
        assert(ids.take(0) =~= Seq::<(Id, Id)>::empty());
        while i < self.ids.len()
            invariant
                ids == self.ids@,
                0 <= i <= ids.len(),
                res == spec_find(ids.take(i as int), side, id),
            decreases ids.len() - i,
        {
            proof {
                assert(ids.take(i + 1).drop_last() =~= ids.take(i as int));
            }
            if res.is_none() && side.get(self.ids[i]) == id {
                res = Some(i);
            }
            i = i + 1;
        }
        assert(ids.take(ids.len() as int) =~= ids);
        res
    }

    /// The id of the unit that the item with id `id` belongs to.
    pub fn parent(&self, id: usize) -> (res: Option<usize>)
        ensures
            res == spec_index_parent(*self, id),
    {
        let (id_a, id_b) = match self.get_pair(id) {
            Some(pair) => pair,
            None => return None,
        };
        match id_a.parent(self.unit_id_a.as_slice()) {
            Some(p) => Some(p),
            None => id_b.parent(self.unit_id_b.as_slice()),
        }
    }
}

}
