//! The bloat report: the functions of a file grouped into copies of the same function,
//! the groups ordered by their total size, and for each function the functions that
//! call it.
use std::collections::HashMap;
use vstd::prelude::*;

use crate::index::{Id, Index};
use crate::print::format::decimal;
use crate::print::printer::DiffPrefix;
use crate::print::state::{PrintState, value_line};
use crate::print::order::{lemma_lex_asymmetric, lemma_lex_total, lemma_lex_transitive, lex_less, lex_lt};

verus! {

broadcast use vstd::std_specs::hash::group_hash_axioms;

/// A function of a file, as the bloat report reads it.
pub struct BloatFunction {
    /// How the function is referred to.
    pub name: Vec<u8>,
    /// Where its source is.
    pub source: Vec<u8>,
    pub size: Option<u64>,
    pub address: Option<u64>,
    /// The calls that its code makes: the address of each call and the address called.
    pub calls: Vec<(u64, u64)>,
}

/// A unit of a file, as the bloat report reads it.
pub struct BloatUnit {
    /// How the unit is referred to.
    pub name: Vec<u8>,
    pub functions: Vec<BloatFunction>,
}

/// A file, as the bloat report reads it.
pub struct BloatFile {
    pub units: Vec<BloatUnit>,
}

/// Functions are treated as copies of each other if they have the same name and
/// source location. This isn't exact, but good enough.
pub struct FunctionId {
    pub name: Vec<u8>,
    pub source: Vec<u8>,
}

/// The copies of a function: their total size, and each by its unit and its position
/// in the unit.
pub struct FunctionTotal {
    pub size: u64,
    pub functions: Vec<(usize, usize)>,
}

/// A call of a function: the calling function, by its unit and its position in the
/// unit, and the address of the call.
#[derive(Clone, Copy)]
pub struct Caller {
    pub unit_index: usize,
    pub function_index: usize,
    pub address: u64,
}

/// The groups of copies of functions, and the callers of each address.
pub struct BloatIndex {
    ids: Vec<Id>,
    function_totals: Vec<(FunctionId, FunctionTotal)>,
    callers: HashMap<u64, Vec<Caller>>,
}

/// A group of copies as a value: name, source, total size, and the copies.
pub type TotalView = (Seq<u8>, Seq<u8>, u64, Seq<(usize, usize)>);

pub open spec fn total_view(e: (FunctionId, FunctionTotal)) -> TotalView {
    (e.0.name@, e.0.source@, e.1.size, e.1.functions@)
}

/// The position of each function of the file: its unit and its position in the unit,
/// unit after unit.
pub open spec fn function_positions(units: Seq<BloatUnit>) -> Seq<(usize, usize)>
    decreases units.len(),
{
    if units.len() == 0 {
        Seq::empty()
    } else {
        let u = units.len() - 1;
        function_positions(units.drop_last()) + Seq::new(
            units.last().functions@.len(),
            |f: int| (u as usize, f as usize),
        )
    }
}

/// The function at a position.
pub open spec fn function_at(file: BloatFile, p: (usize, usize)) -> BloatFunction {
    file.units@[p.0 as int].functions@[p.1 as int]
}

/// What makes two functions copies: their name and source.
pub open spec fn copy_key(f: BloatFunction) -> (Seq<u8>, Seq<u8>) {
    (f.name@, f.source@)
}

/// The total size of the functions at the listed positions that have a size and the
/// given name and source.
pub open spec fn total_of(file: BloatFile, ps: Seq<(usize, usize)>, key: (Seq<u8>, Seq<u8>)) -> int
    decreases ps.len(),
{
    if ps.len() == 0 {
        0
    } else {
        let f = function_at(file, ps.last());
        total_of(file, ps.drop_last(), key) + if f.size is Some && copy_key(f) == key {
            f.size->0 as int
        } else {
            0
        }
    }
}

/// The listed positions of the functions that have a size and the given name and
/// source, in order.
pub open spec fn members_of(file: BloatFile, ps: Seq<(usize, usize)>, key: (Seq<u8>, Seq<u8>)) -> Seq<
    (usize, usize),
>
    decreases ps.len(),
{
    if ps.len() == 0 {
        Seq::empty()
    } else {
        let f = function_at(file, ps.last());
        let rest = members_of(file, ps.drop_last(), key);
        if f.size is Some && copy_key(f) == key {
            rest.push(ps.last())
        } else {
            rest
        }
    }
}

/// Some listed function with a size has the given name and source.
pub open spec fn has_copy(file: BloatFile, ps: Seq<(usize, usize)>, key: (Seq<u8>, Seq<u8>)) -> bool {
    exists|i: int|
        0 <= i < ps.len() && (#[trigger] function_at(file, ps[i])).size is Some && copy_key(
            function_at(file, ps[i]),
        ) == key
}

/// The groups list each name and source of the listed functions that have a size once,
/// with the total size of those functions and their positions.
pub open spec fn groups_of(file: BloatFile, ps: Seq<(usize, usize)>, groups: Seq<TotalView>) -> bool {
    &&& forall|g: int|
        0 <= g < groups.len() ==> {
            let key = ((#[trigger] groups[g]).0, groups[g].1);
            &&& has_copy(file, ps, key)
            &&& groups[g].2 == total_of(file, ps, key)
            &&& groups[g].3 == members_of(file, ps, key)
        }
    &&& forall|key: (Seq<u8>, Seq<u8>)|
        has_copy(file, ps, key) ==> exists|g: int|
            0 <= g < groups.len() && (#[trigger] groups[g]).0 == key.0 && groups[g].1 == key.1
    &&& forall|g1: int, g2: int|
        0 <= g1 < g2 < groups.len() ==> ((#[trigger] groups[g1]).0, groups[g1].1) != (
            (#[trigger] groups[g2]).0,
            groups[g2].1,
        )
}

/// Group `x` comes before group `y`: it is larger, or as large with a name that comes
/// first, or as large with the same name and a source that comes first.
pub open spec fn comes_before(x: TotalView, y: TotalView) -> bool {
    ||| x.2 > y.2
    ||| x.2 == y.2 && lex_lt(x.0, y.0)
    ||| x.2 == y.2 && x.0 == y.0 && lex_lt(x.1, y.1)
}

/// The groups are in order, each coming before the next.
pub open spec fn sorted(groups: Seq<TotalView>) -> bool {
    forall|i: int, j: int| 0 <= i < j < groups.len() ==> comes_before(#[trigger] groups[i], #[trigger] groups[j])
}

/// The sizes of each group's functions add up to a `u64`.
pub open spec fn sizes_fit(file: BloatFile) -> bool {
    forall|key: (Seq<u8>, Seq<u8>)|
        #[trigger] total_of(file, function_positions(file.units@), key) <= u64::MAX
}

proof fn lemma_total_prefix(file: BloatFile, ps: Seq<(usize, usize)>, i: int, key: (Seq<u8>, Seq<u8>))
    requires
        0 <= i <= ps.len(),
    ensures
        0 <= total_of(file, ps.take(i), key) <= total_of(file, ps, key),
    decreases ps.len(),
{
    if i < ps.len() {
        lemma_total_prefix(file, ps.drop_last(), i, key);
        assert(ps.drop_last().take(i) =~= ps.take(i));
    } else {
        assert(ps.take(i) =~= ps);
        lemma_total_nonnegative(file, ps, key);
    }
}

proof fn lemma_total_nonnegative(file: BloatFile, ps: Seq<(usize, usize)>, key: (Seq<u8>, Seq<u8>))
    ensures
        0 <= total_of(file, ps, key),
    decreases ps.len(),
{
    if ps.len() > 0 {
        lemma_total_nonnegative(file, ps.drop_last(), key);
    }
}

/// Where no listed function with a size has the name and source, they total nothing.
proof fn lemma_no_copy(file: BloatFile, ps: Seq<(usize, usize)>, key: (Seq<u8>, Seq<u8>))
    requires
        !has_copy(file, ps, key),
    ensures
        total_of(file, ps, key) == 0,
        members_of(file, ps, key) == Seq::<(usize, usize)>::empty(),
    decreases ps.len(),
{
    if ps.len() > 0 {
        let front = ps.drop_last();
        assert forall|i: int|
            0 <= i < front.len() && (#[trigger] function_at(file, front[i])).size is Some implies copy_key(
            function_at(file, front[i]),
        ) != key by {
            assert(front[i] == ps[i]);
        }
        lemma_no_copy(file, front, key);
        assert(function_at(file, ps[ps.len() - 1]) == function_at(file, ps.last()));
    }
}

/// The positions of the functions of the file, unit after unit.
fn positions(file: &BloatFile) -> (res: Vec<(usize, usize)>)
    ensures
        res@ == function_positions(file.units@),
        forall|i: int|
            0 <= i < res@.len() ==> (#[trigger] res@[i]).0 < file.units@.len() && res@[i].1
                < file.units@[res@[i].0 as int].functions@.len(),
{
    let mut res: Vec<(usize, usize)> = Vec::new();
    let mut u: usize = 0;
    assert(file.units@.take(0) =~= Seq::<BloatUnit>::empty());
    while u < file.units.len()
        invariant
            0 <= u <= file.units@.len(),
            res@ == function_positions(file.units@.take(u as int)),
            forall|i: int|
                0 <= i < res@.len() ==> (#[trigger] res@[i]).0 < u && res@[i].1
                    < file.units@[res@[i].0 as int].functions@.len(),
        decreases file.units@.len() - u,
    {
        let ghost before = res@;
        let n = file.units[u].functions.len();
        let mut f: usize = 0;
        while f < n
            invariant
                0 <= u < file.units@.len(),
                n == file.units@[u as int].functions@.len(),
                0 <= f <= n,
                res@ == before + Seq::new(f as nat, |j: int| (u, j as usize)),
                forall|i: int|
                    0 <= i < res@.len() ==> (#[trigger] res@[i]).0 <= u && res@[i].1
                        < file.units@[res@[i].0 as int].functions@.len(),
            decreases n - f,
        {
            res.push((u, f));
            assert(res@ =~= before + Seq::new((f + 1) as nat, |j: int| (u, j as usize)));
            f = f + 1;
        }
        assert(file.units@.take(u + 1).drop_last() =~= file.units@.take(u as int));
        assert(file.units@.take(u + 1).last() == file.units@[u as int]);
        assert(res@ =~= function_positions(file.units@.take(u + 1)));
        u = u + 1;
    }
    assert(file.units@.take(file.units@.len() as int) =~= file.units@);
    res
}

/// Whether two byte strings are equal.
fn same_bytes(a: &[u8], b: &[u8]) -> (res: bool)
    ensures
        res == (a@ == b@),
{
    if a.len() != b.len() {
        return false;
    }
    let mut i: usize = 0;
    while i < a.len()
        invariant
            a@.len() == b@.len(),
            0 <= i <= a@.len(),
            forall|j: int| 0 <= j < i ==> a@[j] == b@[j],
        decreases a@.len() - i,
    {
        if a[i] != b[i] {
            return false;
        }
        i = i + 1;
    }
    assert(a@ =~= b@);
    true
}

fn copy_bytes(a: &[u8]) -> (res: Vec<u8>)
    ensures
        res@ == a@,
{
    let mut res: Vec<u8> = Vec::new();
    crate::print::format::push_bytes(&mut res, a);
    assert(res@ =~= a@);
    res
}

/// The group with the given name and source, if there is one.
fn find_group(groups: &Vec<(FunctionId, FunctionTotal)>, name: &[u8], source: &[u8]) -> (res: Option<usize>)
    ensures
        match res {
            Some(g) => g < groups@.len() && groups@[g as int].0.name@ == name@
                && groups@[g as int].0.source@ == source@,
            None => forall|g: int|
                0 <= g < groups@.len() ==> !(groups@[g].0.name@ == name@ && groups@[g].0.source@
                    == source@),
        },
{
    let mut g: usize = 0;
    while g < groups.len()
        invariant
            0 <= g <= groups@.len(),
            forall|h: int|
                0 <= h < g ==> !(groups@[h].0.name@ == name@ && groups@[h].0.source@ == source@),
        decreases groups@.len() - g,
    {
        if same_bytes(groups[g].0.name.as_slice(), name) && same_bytes(
            groups[g].0.source.as_slice(),
            source,
        ) {
            return Some(g);
        }
        g = g + 1;
    }
    None
}

/// Groups the functions with a size by name and source, in the order in which each
/// group first occurs.
fn group_functions(file: &BloatFile, ps: &Vec<(usize, usize)>) -> (res: Vec<(FunctionId, FunctionTotal)>)
    requires
        ps@ == function_positions(file.units@),
        forall|i: int|
            0 <= i < ps@.len() ==> (#[trigger] ps@[i]).0 < file.units@.len() && ps@[i].1
                < file.units@[ps@[i].0 as int].functions@.len(),
        sizes_fit(*file),
    ensures
        groups_of(*file, ps@, res@.map_values(|e: (FunctionId, FunctionTotal)| total_view(e))),
{
    let mut groups: Vec<(FunctionId, FunctionTotal)> = Vec::new();
    let mut i: usize = 0;
    assert(ps@.take(0) =~= Seq::<(usize, usize)>::empty());
    while i < ps.len()
        invariant
            0 <= i <= ps@.len(),
            ps@ == function_positions(file.units@),
            forall|k: int|
                0 <= k < ps@.len() ==> (#[trigger] ps@[k]).0 < file.units@.len() && ps@[k].1
                    < file.units@[ps@[k].0 as int].functions@.len(),
            sizes_fit(*file),
            groups_of(
                *file,
                ps@.take(i as int),
                groups@.map_values(|e: (FunctionId, FunctionTotal)| total_view(e)),
            ),
        decreases ps@.len() - i,
    {
        let ghost before = groups@.map_values(|e: (FunctionId, FunctionTotal)| total_view(e));
        let ghost done = ps@.take(i as int);
        let ghost next = ps@.take(i + 1);
        let (u, f) = ps[i];
        let function = &file.units[u].functions[f];
        assert(next.drop_last() =~= done);
        assert(next.last() == ps@[i as int]);
        assert(function_at(*file, ps@[i as int]) == *function);
        if let Some(size) = function.size {
            let ghost key = (function.name@, function.source@);
            match find_group(&groups, function.name.as_slice(), function.source.as_slice()) {
                Some(g) => {
                    proof {
                        lemma_total_prefix(*file, ps@, i + 1, key);
                    }
                    assert(before[g as int].2 == total_of(*file, done, key));
                    assert(total_of(*file, next, key) == total_of(*file, done, key) + size);
                    assert(total_of(*file, ps@, key) <= u64::MAX);
                    let mut entry = groups.remove(g);
                    assert(entry.1.size == before[g as int].2);
                    entry.1.size = entry.1.size + size;
                    entry.1.functions.push((u, f));
                    groups.insert(g, entry);
                    proof {
                        let after = groups@.map_values(|e: (FunctionId, FunctionTotal)| total_view(e));
                        assert(after =~= before.update(
                            g as int,
                            (before[g as int].0, before[g as int].1, entry.1.size, entry.1.functions@),
                        ));
                        assert(has_copy(*file, next, key)) by {
                            assert(function_at(*file, next[i as int]) == *function);
                        }
                        assert forall|h: int| 0 <= h < after.len() implies {
                            let k = ((#[trigger] after[h]).0, after[h].1);
                            &&& has_copy(*file, next, k)
                            &&& after[h].2 == total_of(*file, next, k)
                            &&& after[h].3 == members_of(*file, next, k)
                        } by {
                            let k = (after[h].0, after[h].1);
                            let j = choose|j: int|
                                0 <= j < done.len() && (#[trigger] function_at(*file, done[j])).size
                                    is Some && copy_key(function_at(*file, done[j])) == k;
                            assert(next[j] == done[j]);
                            if h != g {
                                assert(after[h] == before[h]);
                                if h < g {
                                    assert((before[h].0, before[h].1) != (before[g as int].0, before[g as int].1));
                                } else {
                                    assert((before[g as int].0, before[g as int].1) != (before[h].0, before[h].1));
                                }
                            }
                        }
                        assert forall|g1: int, g2: int|
                            0 <= g1 < g2 < after.len() implies ((#[trigger] after[g1]).0, after[g1].1) != (
                            (#[trigger] after[g2]).0,
                            after[g2].1,
                        ) by {
                            assert((before[g1].0, before[g1].1) != (before[g2].0, before[g2].1));
                        }
                        assert forall|k: (Seq<u8>, Seq<u8>)| has_copy(*file, next, k) implies exists|
                            h: int,
                        |
                            0 <= h < after.len() && (#[trigger] after[h]).0 == k.0 && after[h].1
                                == k.1 by {
                            let j = choose|j: int|
                                0 <= j < next.len() && (#[trigger] function_at(*file, next[j])).size
                                    is Some && copy_key(function_at(*file, next[j])) == k;
                            if j < done.len() {
                                assert(done[j] == next[j]);
                                assert(has_copy(*file, done, k));
                                let h = choose|h: int|
                                    0 <= h < before.len() && (#[trigger] before[h]).0 == k.0
                                        && before[h].1 == k.1;
                                assert(after[h].0 == k.0);
                            } else {
                                assert(after[g as int].0 == k.0);
                            }
                        }
                    }
                },
                None => {
                    proof {
                        lemma_total_prefix(*file, ps@, i + 1, key);
                        if has_copy(*file, done, key) {
                            let h = choose|h: int|
                                0 <= h < before.len() && (#[trigger] before[h]).0 == key.0
                                    && before[h].1 == key.1;
                            assert(groups@[h].0.name@ == key.0);
                        }
                        lemma_no_copy(*file, done, key);
                    }
                    let mut functions: Vec<(usize, usize)> = Vec::new();
                    functions.push((u, f));
                    let id = FunctionId {
                        name: copy_bytes(function.name.as_slice()),
                        source: copy_bytes(function.source.as_slice()),
                    };
                    groups.push((id, FunctionTotal { size, functions }));
                    proof {
                        let after = groups@.map_values(|e: (FunctionId, FunctionTotal)| total_view(e));
                        assert(after =~= before.push(
                            (key.0, key.1, size, seq![(u, f)]),
                        ));
                        assert(members_of(*file, next, key) =~= seq![(u, f)]);
                        assert(has_copy(*file, next, key)) by {
                            assert(function_at(*file, next[i as int]) == *function);
                        }
                        assert forall|h: int| 0 <= h < after.len() implies {
                            let k = ((#[trigger] after[h]).0, after[h].1);
                            &&& has_copy(*file, next, k)
                            &&& after[h].2 == total_of(*file, next, k)
                            &&& after[h].3 == members_of(*file, next, k)
                        } by {
                            if h < before.len() {
                                let k = (after[h].0, after[h].1);
                                let j = choose|j: int|
                                    0 <= j < done.len() && (#[trigger] function_at(
                                        *file,
                                        done[j],
                                    )).size is Some && copy_key(function_at(*file, done[j])) == k;
                                assert(next[j] == done[j]);
                            }
                        }
                        assert forall|k: (Seq<u8>, Seq<u8>)| has_copy(*file, next, k) implies exists|
                            h: int,
                        |
                            0 <= h < after.len() && (#[trigger] after[h]).0 == k.0 && after[h].1
                                == k.1 by {
                            let j = choose|j: int|
                                0 <= j < next.len() && (#[trigger] function_at(*file, next[j])).size
                                    is Some && copy_key(function_at(*file, next[j])) == k;
                            if j < done.len() {
                                assert(done[j] == next[j]);
                                assert(has_copy(*file, done, k));
                                let h = choose|h: int|
                                    0 <= h < before.len() && (#[trigger] before[h]).0 == k.0
                                        && before[h].1 == k.1;
                                assert(after[h].0 == k.0);
                            } else {
                                assert(after[before.len() as int].0 == k.0);
                            }
                        }
                        assert forall|g1: int, g2: int|
                            0 <= g1 < g2 < after.len() implies ((#[trigger] after[g1]).0, after[g1].1) != (
                            (#[trigger] after[g2]).0,
                            after[g2].1,
                        ) by {
                            if g2 < before.len() {
                                assert((before[g1].0, before[g1].1) != (before[g2].0, before[g2].1));
                            } else {
                                assert(!(groups@[g1].0.name@ == key.0 && groups@[g1].0.source@ == key.1));
                            }
                        }
                    }
                },
            }
        } else {
            proof {
                let after = groups@.map_values(|e: (FunctionId, FunctionTotal)| total_view(e));
                assert(after == before);
                assert forall|h: int| 0 <= h < after.len() implies {
                    let k = ((#[trigger] after[h]).0, after[h].1);
                    &&& has_copy(*file, next, k)
                    &&& after[h].2 == total_of(*file, next, k)
                    &&& after[h].3 == members_of(*file, next, k)
                } by {
                    let k = (after[h].0, after[h].1);
                    let j = choose|j: int|
                        0 <= j < done.len() && (#[trigger] function_at(*file, done[j])).size is Some
                            && copy_key(function_at(*file, done[j])) == k;
                    assert(next[j] == done[j]);
                }
                assert forall|k: (Seq<u8>, Seq<u8>)| has_copy(*file, next, k) implies exists|h: int|
                    0 <= h < after.len() && (#[trigger] after[h]).0 == k.0 && after[h].1 == k.1 by {
                    let j = choose|j: int|
                        0 <= j < next.len() && (#[trigger] function_at(*file, next[j])).size is Some
                            && copy_key(function_at(*file, next[j])) == k;
                    assert(j < done.len());
                    assert(done[j] == next[j]);
                    assert(has_copy(*file, done, k));
                }
            }
        }
        i = i + 1;
    }
    assert(ps@.take(ps@.len() as int) =~= ps@);
    groups
}

/// The groups as values.
pub open spec fn views(v: Seq<(FunctionId, FunctionTotal)>) -> Seq<TotalView> {
    v.map_values(|e: (FunctionId, FunctionTotal)| total_view(e))
}

/// No two groups have the same name and source.
pub open spec fn keys_distinct(groups: Seq<TotalView>) -> bool {
    forall|g1: int, g2: int|
        0 <= g1 < g2 < groups.len() ==> ((#[trigger] groups[g1]).0, groups[g1].1) != (
            (#[trigger] groups[g2]).0,
            groups[g2].1,
        )
}

/// Of two groups with different names or sources, one comes before the other.
pub proof fn lemma_before_total(x: TotalView, y: TotalView)
    requires
        (x.0, x.1) != (y.0, y.1),
    ensures
        comes_before(x, y) || comes_before(y, x),
{
    lemma_lex_total(x.0, y.0);
    lemma_lex_total(x.1, y.1);
}

/// The order of groups is transitive.
pub proof fn lemma_before_transitive(x: TotalView, y: TotalView, z: TotalView)
    requires
        comes_before(x, y),
        comes_before(y, z),
    ensures
        comes_before(x, z),
{
    if x.2 == z.2 {
        if lex_lt(x.0, y.0) && lex_lt(y.0, z.0) {
            lemma_lex_transitive(x.0, y.0, z.0);
        }
        if x.0 == y.0 && y.0 == z.0 && lex_lt(x.1, y.1) && lex_lt(y.1, z.1) {
            lemma_lex_transitive(x.1, y.1, z.1);
        }
    }
}

/// No group comes before itself.
pub proof fn lemma_before_irreflexive(x: TotalView)
    ensures
        !comes_before(x, x),
{
    lemma_lex_asymmetric(x.0, x.0);
    lemma_lex_asymmetric(x.1, x.1);
}

/// Whether group `x` comes before group `y`.
fn before(x: &(FunctionId, FunctionTotal), y: &(FunctionId, FunctionTotal)) -> (res: bool)
    ensures
        res == comes_before(total_view(*x), total_view(*y)),
{
    if x.1.size != y.1.size {
        return x.1.size > y.1.size;
    }
    if lex_less(x.0.name.as_slice(), y.0.name.as_slice()) {
        return true;
    }
    same_bytes(x.0.name.as_slice(), y.0.name.as_slice()) && lex_less(
        x.0.source.as_slice(),
        y.0.source.as_slice(),
    )
}

/// Where group `e` goes among sorted groups: after every group that it does not come
/// before, at the first group that it comes before.
fn insert_position(res: &Vec<(FunctionId, FunctionTotal)>, e: &(FunctionId, FunctionTotal)) -> (p: usize)
    ensures
        p <= res@.len(),
        forall|q: int| 0 <= q < p ==> !comes_before(total_view(*e), #[trigger] views(res@)[q]),
        p < res@.len() ==> comes_before(total_view(*e), views(res@)[p as int]),
{
    let mut p: usize = 0;
    while p < res.len()
        invariant
            0 <= p <= res@.len(),
            forall|q: int| 0 <= q < p ==> !comes_before(total_view(*e), #[trigger] views(res@)[q]),
        decreases res@.len() - p,
    {
        assert(views(res@)[p as int] == total_view(res@[p as int]));
        if before(e, &res[p]) {
            return p;
        }
        p = p + 1;
    }
    p
}

/// Inserting a group where `insert_position` puts it keeps the groups sorted, where the
/// group's name or source differs from those of the groups placed.
proof fn lemma_insert_sorted(before_res: Seq<TotalView>, ev: TotalView, p: int)
    requires
        0 <= p <= before_res.len(),
        sorted(before_res),
        forall|q: int| 0 <= q < p ==> !comes_before(ev, #[trigger] before_res[q]),
        p < before_res.len() ==> comes_before(ev, before_res[p]),
        forall|i: int|
            0 <= i < before_res.len() ==> ((#[trigger] before_res[i]).0, before_res[i].1) != (
                ev.0,
                ev.1,
            ),
    ensures
        sorted(before_res.insert(p, ev)),
{
    let after = before_res.insert(p, ev);
    assert forall|q: int| 0 <= q < p implies comes_before(#[trigger] before_res[q], ev) by {
        lemma_before_total(before_res[q], ev);
    }
    assert forall|i: int, j: int| 0 <= i < j < after.len() implies comes_before(
        #[trigger] after[i],
        #[trigger] after[j],
    ) by {
        if j < p {
            assert(after[i] == before_res[i] && after[j] == before_res[j]);
        } else if j == p {
            assert(after[i] == before_res[i]);
        } else if i < p {
            assert(after[i] == before_res[i] && after[j] == before_res[j - 1]);
            if j - 1 > p {
                assert(comes_before(before_res[p], before_res[j - 1]));
                lemma_before_transitive(ev, before_res[p], before_res[j - 1]);
            }
            lemma_before_transitive(before_res[i], ev, before_res[j - 1]);
        } else if i == p {
            assert(after[j] == before_res[j - 1]);
            if j - 1 > p {
                lemma_before_transitive(ev, before_res[p], before_res[j - 1]);
            }
        } else {
            assert(after[i] == before_res[i - 1] && after[j] == before_res[j - 1]);
        }
    }
}

/// Sorts groups with distinct names and sources: the largest first, then by name, then
/// by source.
fn sort_groups(groups: Vec<(FunctionId, FunctionTotal)>) -> (res: Vec<(FunctionId, FunctionTotal)>)
    requires
        keys_distinct(views(groups@)),
    ensures
        sorted(views(res@)),
        views(res@).to_multiset() == views(groups@).to_multiset(),
{
    broadcast use vstd::multiset::group_multiset_axioms;
    broadcast use vstd::seq_lib::group_to_multiset_ensures;

    let ghost orig = views(groups@);
    let n = groups.len();
    let mut input = groups;
    let mut res: Vec<(FunctionId, FunctionTotal)> = Vec::new();
    assert(views(res@) =~= Seq::<TotalView>::empty());
    assert(views(input@) =~= orig.take(n as int));
    while input.len() > 0
        invariant
            n == orig.len(),
            keys_distinct(orig),
            input@.len() <= n,
            views(input@) == orig.take(input@.len() as int),
            sorted(views(res@)),
            views(res@).to_multiset().add(views(input@).to_multiset()) == orig.to_multiset(),
            forall|i: int, j: int|
                0 <= i < res@.len() && 0 <= j < input@.len() ==> ((#[trigger] views(res@)[i]).0,
                views(res@)[i].1) != ((#[trigger] views(input@)[j]).0, views(input@)[j].1),
        decreases input@.len(),
    {
        let ghost m = input@.len() - 1;
        let ghost old_input = views(input@);
        let ghost before_res = views(res@);
        let e = input.pop().unwrap();
        let ghost ev = total_view(e);
        proof {
            assert(old_input[m] == ev);
            assert(views(input@) =~= old_input.drop_last());
            assert(old_input =~= views(input@).push(ev));
            assert(views(input@) =~= orig.take(m));
        }
        let p = insert_position(&res, &e);
        res.insert(p, e);
        proof {
            assert forall|i: int| 0 <= i < before_res.len() implies ((#[trigger] before_res[i]).0,
                before_res[i].1) != (ev.0, ev.1) by {
                assert(old_input[m] == ev);
            }
            lemma_insert_sorted(before_res, ev, p as int);
            assert(views(res@) =~= before_res.insert(p as int, ev));
            vstd::seq_lib::to_multiset_insert(before_res, p as int, ev);
            vstd::seq_lib::to_multiset_build(views(input@), ev);
            assert(views(res@).to_multiset() == before_res.to_multiset().insert(ev));
            assert(old_input.to_multiset() == views(input@).to_multiset().insert(ev));
            assert(views(res@).to_multiset().add(views(input@).to_multiset()) =~= orig.to_multiset());
            assert forall|i: int, j: int|
                0 <= i < res@.len() && 0 <= j < input@.len() implies ((#[trigger] views(res@)[i]).0,
                views(res@)[i].1) != ((#[trigger] views(input@)[j]).0, views(input@)[j].1) by {
                assert(views(input@)[j] == old_input[j]);
                if i < p {
                    assert(views(res@)[i] == before_res[i]);
                } else if i == p {
                    assert(orig[j] == views(input@)[j]);
                    assert(orig[m] == ev);
                } else {
                    assert(views(res@)[i] == before_res[i - 1]);
                }
            }
        }
    }
    proof {
        assert(views(input@) =~= Seq::<TotalView>::empty());
        assert(views(res@).to_multiset() =~= orig.to_multiset());
    }
    res
}

/// The calls among `calls` of the function at `p` to address `to`, as callers.
pub open spec fn call_list(calls: Seq<(u64, u64)>, p: (usize, usize), to: u64) -> Seq<Caller>
    decreases calls.len(),
{
    if calls.len() == 0 {
        Seq::empty()
    } else {
        let rest = call_list(calls.drop_last(), p, to);
        if calls.last().1 == to {
            rest.push(Caller { unit_index: p.0, function_index: p.1, address: calls.last().0 })
        } else {
            rest
        }
    }
}

/// The calls to address `to` that the listed functions with a size make, in order.
pub open spec fn calls_to(file: BloatFile, ps: Seq<(usize, usize)>, to: u64) -> Seq<Caller>
    decreases ps.len(),
{
    if ps.len() == 0 {
        Seq::empty()
    } else {
        let f = function_at(file, ps.last());
        calls_to(file, ps.drop_last(), to) + if f.size is Some {
            call_list(f.calls@, ps.last(), to)
        } else {
            Seq::empty()
        }
    }
}

/// The map holds, for each address called, the calls to it.
pub open spec fn callers_are(map: Map<u64, Vec<Caller>>, calls: spec_fn(u64) -> Seq<Caller>) -> bool {
    forall|a: u64|
        #![trigger map.contains_key(a)]
        #![trigger calls(a)]
        (map.contains_key(a) <==> calls(a).len() > 0) && (map.contains_key(a) ==> map[a]@ == calls(a))
}

/// The callers of each address that the functions with a size call.
fn collect_callers(file: &BloatFile, ps: &Vec<(usize, usize)>) -> (res: HashMap<u64, Vec<Caller>>)
    requires
        forall|i: int|
            0 <= i < ps@.len() ==> (#[trigger] ps@[i]).0 < file.units@.len() && ps@[i].1
                < file.units@[ps@[i].0 as int].functions@.len(),
    ensures
        callers_are(res@, |a: u64| calls_to(*file, ps@, a)),
{
    let mut callers: HashMap<u64, Vec<Caller>> = HashMap::new();
    let mut i: usize = 0;
    assert(ps@.take(0) =~= Seq::<(usize, usize)>::empty());
    while i < ps.len()
        invariant
            0 <= i <= ps@.len(),
            forall|k: int|
                0 <= k < ps@.len() ==> (#[trigger] ps@[k]).0 < file.units@.len() && ps@[k].1
                    < file.units@[ps@[k].0 as int].functions@.len(),
            callers_are(callers@, |a: u64| calls_to(*file, ps@.take(i as int), a)),
        decreases ps@.len() - i,
    {
        let ghost done = ps@.take(i as int);
        let (u, f) = ps[i];
        let function = &file.units[u].functions[f];
        proof {
            assert(ps@.take(i + 1).drop_last() =~= done);
            assert(ps@.take(i + 1).last() == ps@[i as int]);
        }
        if function.size.is_some() {
            let mut j: usize = 0;
            assert(function.calls@.take(0) =~= Seq::<(u64, u64)>::empty());
            while j < function.calls.len()
                invariant
                    0 <= j <= function.calls@.len(),
                    callers_are(
                        callers@,
                        |a: u64| calls_to(*file, done, a) + call_list(function.calls@.take(j as int), (u, f), a),
                    ),
                decreases function.calls@.len() - j,
            {
                let (from, to) = function.calls[j];
                let ghost before = callers@;
                let mut list = match callers.remove(&to) {
                    Some(list) => list,
                    None => Vec::new(),
                };
                list.push(Caller { unit_index: u, function_index: f, address: from });
                callers.insert(to, list);
                proof {
                    let next = function.calls@.take(j + 1);
                    assert(next.drop_last() =~= function.calls@.take(j as int));
                    assert(next.last() == (from, to));
                    assert forall|a: u64|
                        #![trigger callers@.contains_key(a)]
                        (callers@.contains_key(a) <==> (calls_to(*file, done, a) + call_list(next, (u, f), a)).len() > 0)
                        && (callers@.contains_key(a) ==> callers@[a]@ == calls_to(*file, done, a) + call_list(next, (u, f), a)) by {
                        if a == to {
                            assert((calls_to(*file, done, a) + call_list(next, (u, f), a)) =~= (calls_to(*file, done, a) + call_list(function.calls@.take(j as int), (u, f), a)).push(Caller { unit_index: u, function_index: f, address: from }));
                        } else {
                            assert(call_list(next, (u, f), a) == call_list(function.calls@.take(j as int), (u, f), a));
                        }
                    }
                }
                j = j + 1;
            }
            proof {
                assert(function.calls@.take(function.calls@.len() as int) =~= function.calls@);
                assert(function_at(*file, ps@[i as int]) == *function);
                assert forall|a: u64| true implies #[trigger] calls_to(*file, ps@.take(i + 1), a) == calls_to(*file, done, a) + call_list(function.calls@, (u, f), a) by {}
            }
        } else {
            proof {
                assert(function_at(*file, ps@[i as int]) == *function);
                assert forall|a: u64| true implies #[trigger] calls_to(*file, ps@.take(i + 1), a) =~= calls_to(*file, done, a) by {}
            }
        }
        i = i + 1;
    }
    assert(ps@.take(ps@.len() as int) =~= ps@);
    callers
}

/// Sorting keeps what the groups say: the same groups, in any order, still list each name
/// and source once with its total and its functions.
proof fn lemma_groups_sorted(file: BloatFile, ps: Seq<(usize, usize)>, g: Seq<TotalView>, s: Seq<TotalView>)
    requires
        groups_of(file, ps, g),
        s.to_multiset() == g.to_multiset(),
        sorted(s),
    ensures
        groups_of(file, ps, s),
{
    broadcast use vstd::seq_lib::group_to_multiset_ensures;

    assert forall|i: int| 0 <= i < s.len() implies exists|k: int| 0 <= k < g.len() && g[k] == #[trigger] s[i] by {
        assert(s.contains(s[i]));
        assert(s.to_multiset().count(s[i]) > 0);
        assert(g.contains(s[i]));
    }
    assert forall|i: int| 0 <= i < s.len() implies {
        let key = ((#[trigger] s[i]).0, s[i].1);
        &&& has_copy(file, ps, key)
        &&& s[i].2 == total_of(file, ps, key)
        &&& s[i].3 == members_of(file, ps, key)
    } by {
        let k = choose|k: int| 0 <= k < g.len() && g[k] == #[trigger] s[i];
        assert(g[k] == s[i]);
    }
    assert forall|key: (Seq<u8>, Seq<u8>)| has_copy(file, ps, key) implies exists|i: int|
        0 <= i < s.len() && (#[trigger] s[i]).0 == key.0 && s[i].1 == key.1 by {
        let k = choose|k: int| 0 <= k < g.len() && (#[trigger] g[k]).0 == key.0 && g[k].1 == key.1;
        assert(g.contains(g[k]));
        assert(g.to_multiset().count(g[k]) > 0);
        assert(s.contains(g[k]));
        let i = choose|i: int| 0 <= i < s.len() && s[i] == g[k];
        assert(s[i].0 == key.0);
    }
    assert forall|i: int, j: int|
        0 <= i < j < s.len() implies ((#[trigger] s[i]).0, s[i].1) != ((#[trigger] s[j]).0, s[j].1) by {
        let a = choose|k: int| 0 <= k < g.len() && g[k] == #[trigger] s[i];
        let b = choose|k: int| 0 <= k < g.len() && g[k] == #[trigger] s[j];
        if (s[i].0, s[i].1) == (s[j].0, s[j].1) {
            if a < b {
                assert((g[a].0, g[a].1) != (g[b].0, g[b].1));
            } else if b < a {
                assert((g[b].0, g[b].1) != (g[a].0, g[a].1));
            }
            assert(s[i] == s[j]);
            assert(comes_before(s[i], s[j]));
            lemma_before_irreflexive(s[i]);
        }
    }
}

impl BloatIndex {
    /// The groups of copies of functions, in order.
    pub closed spec fn totals(&self) -> Seq<TotalView> {
        views(self.function_totals@)
    }

    /// The calls to each address.
    pub closed spec fn callers_map(&self) -> Map<u64, Vec<Caller>> {
        self.callers@
    }

    /// The id pairs' items of the first file, by id.
    pub closed spec fn id_list(&self) -> Seq<Id> {
        self.ids@
    }

    /// Groups the functions of the file that have a size into copies of the same function
    /// (same name and source), ordered with the largest total size first, then by name,
    /// then by source; and collects the calls to each address. `index` holds the file's
    /// ids.
    pub fn new(file: &BloatFile, index: &Index) -> (res: BloatIndex)
        requires
            sizes_fit(*file),
        ensures
            res.id_list() == index.id_pairs().map_values(|p: (Id, Id)| p.0),
            sorted(res.totals()),
            groups_of(*file, function_positions(file.units@), res.totals()),
            callers_are(res.callers_map(), |a: u64| calls_to(*file, function_positions(file.units@), a)),
    {
        let ids = first_ids(index);
        let ps = positions(file);
        // Build a list of copies of functions.
        let groups = group_functions(file, &ps);
        let ghost g = views(groups@);
        let function_totals = sort_groups(groups);
        proof {
            lemma_groups_sorted(*file, ps@, g, views(function_totals@));
        }
        // Also build a map of callers.
        let callers = collect_callers(file, &ps);
        BloatIndex { ids, function_totals, callers }
    }
}

/// The items of the first file that the ids name, by id.
fn first_ids(index: &Index) -> (res: Vec<Id>)
    ensures
        res@ == index.id_pairs().map_values(|p: (Id, Id)| p.0),
{
    proof {
        index.lemma_id_count();
    }
    let mut res: Vec<Id> = Vec::new();
    let mut i: usize = 0;
    loop
        invariant
            i <= index.id_pairs().len(),
            index.id_pairs().len() <= usize::MAX,
            res@ == index.id_pairs().take(i as int).map_values(|p: (Id, Id)| p.0),
        decreases index.id_pairs().len() - i,
    {
        match index.get(i) {
            Some(id) => {
                res.push(id);
                assert(index.id_pairs().take(i + 1).map_values(|p: (Id, Id)| p.0) =~= index.id_pairs().take(
                    i as int,
                ).map_values(|p: (Id, Id)| p.0).push(id));
                i = i + 1;
            },
            None => {
                assert(index.id_pairs().take(i as int) =~= index.id_pairs());
                return res;
            },
        }
    }
}

/// How a function is referred to in the report: its name, then its source if it has one.
pub open spec fn reference(name: Seq<u8>, source: Seq<u8>) -> Seq<u8> {
    name + if source.len() > 0 {
        seq![0x20u8] + source
    } else {
        Seq::empty()
    }
}

/// The calls to an address.
pub open spec fn callers_of(map: Map<u64, Vec<Caller>>, address: u64) -> Seq<Caller> {
    if map.contains_key(address) {
        map[address]@
    } else {
        Seq::empty()
    }
}

/// A line for each call: the calling function.
pub open spec fn caller_lines(file: BloatFile, cs: Seq<Caller>, mark: DiffPrefix, indent: nat) -> Seq<u8>
    decreases cs.len(),
{
    if cs.len() == 0 {
        Seq::empty()
    } else {
        let f = function_at(file, (cs.last().unit_index, cs.last().function_index));
        caller_lines(file, cs.drop_last(), mark, indent) + value_line(
            mark,
            indent,
            reference(f.name@, f.source@),
        )
    }
}

/// For each copy of a function: its size and unit, then the lines of its callers,
/// indented further.
pub open spec fn member_lines(
    file: BloatFile,
    map: Map<u64, Vec<Caller>>,
    members: Seq<(usize, usize)>,
    mark: DiffPrefix,
    indent: nat,
) -> Seq<u8>
    decreases members.len(),
{
    if members.len() == 0 {
        Seq::empty()
    } else {
        let p = members.last();
        let f = function_at(file, p);
        member_lines(file, map, members.drop_last(), mark, indent) + value_line(
            mark,
            indent,
            decimal(f.size->0 as nat) + seq![0x20u8] + file.units@[p.0 as int].name@,
        ) + caller_lines(file, callers_of(map, f.address->0), mark, indent + 1)
    }
}

/// For each group: its total size and reference, then the lines of its copies, indented
/// further.
pub open spec fn total_lines(
    file: BloatFile,
    map: Map<u64, Vec<Caller>>,
    ts: Seq<TotalView>,
    mark: DiffPrefix,
    indent: nat,
) -> Seq<u8>
    decreases ts.len(),
{
    if ts.len() == 0 {
        Seq::empty()
    } else {
        let t = ts.last();
        total_lines(file, map, ts.drop_last(), mark, indent) + value_line(
            mark,
            indent,
            decimal(t.2 as nat) + seq![0x20u8] + reference(t.0, t.1),
        ) + member_lines(file, map, t.3, mark, indent + 1)
    }
}

/// The position names a function of the file.
pub open spec fn valid_position(file: BloatFile, u: usize, f: usize) -> bool {
    u < file.units@.len() && f < file.units@[u as int].functions@.len()
}

/// Every caller that the index holds names a function of the file.
pub open spec fn callers_valid(file: BloatFile, map: Map<u64, Vec<Caller>>) -> bool {
    forall|a: u64, k: int|
        map.contains_key(a) && 0 <= k < map[a]@.len() ==> valid_position(
            file,
            (#[trigger] map[a]@[k]).unit_index,
            map[a]@[k].function_index,
        )
}

/// Every copy that the index holds names a function of the file with an address and a
/// size.
pub open spec fn totals_valid(file: BloatFile, ts: Seq<TotalView>) -> bool {
    forall|i: int, k: int|
        0 <= i < ts.len() && 0 <= k < ts[i].3.len() ==> {
            let p = #[trigger] ts[i].3[k];
            &&& valid_position(file, p.0, p.1)
            &&& function_at(file, p).address is Some
            &&& function_at(file, p).size is Some
        }
}

/// The reference to a function.
fn push_reference(out: &mut Vec<u8>, name: &[u8], source: &[u8])
    ensures
        final(out)@ == old(out)@ + reference(name@, source@),
{
    crate::print::format::push_bytes(out, name);
    if source.len() > 0 {
        out.push(0x20);
        crate::print::format::push_bytes(out, source);
    }
    assert(out@ =~= old(out)@ + reference(name@, source@));
}

/// Prints the functions that call `address`.
fn bloat_callers(state: &mut PrintState, file: &BloatFile, index: &BloatIndex, address: u64)
    requires
        callers_valid(*file, index.callers_map()),
    ensures
        final(state).current().printed(
            old(state).current(),
            caller_lines(
                *file,
                callers_of(index.callers_map(), address),
                old(state).current().mark(),
                old(state).current().indent_level(),
            ),
        ),
{
    let ghost mark = state.current().mark();
    let ghost indent = state.current().indent_level();
    let ghost start = state.current();
    match index.callers.get(&address) {
        Some(calls) => {
            let ghost cs = calls@;
            assert(cs == callers_of(index.callers_map(), address));
            let mut i: usize = 0;
            assert(cs.take(0) =~= Seq::<Caller>::empty());
            while i < calls.len()
                invariant
                    0 <= i <= cs.len(),
                    cs == calls@,
                    cs == callers_of(index.callers_map(), address),
                    index.callers_map().contains_key(address),
                    callers_valid(*file, index.callers_map()),
                    state.current().printed(start, caller_lines(*file, cs.take(i as int), mark, indent)),
                    mark == start.mark(),
                    indent == start.indent_level(),
                decreases cs.len() - i,
            {
                let caller = calls[i];
                assert(valid_position(*file, cs[i as int].unit_index, cs[i as int].function_index));
                let function = &file.units[caller.unit_index].functions[caller.function_index];
                let mut value: Vec<u8> = Vec::new();
                push_reference(&mut value, function.name.as_slice(), function.source.as_slice());
                state.line(value.as_slice());
                proof {
                    assert(cs.take(i + 1).drop_last() =~= cs.take(i as int));
                    assert(cs.take(i + 1).last() == caller);
                    assert(value@ =~= reference(function.name@, function.source@));
                    assert(caller_lines(*file, cs.take(i + 1), mark, indent) =~= caller_lines(
                        *file,
                        cs.take(i as int),
                        mark,
                        indent,
                    ) + value_line(mark, indent, value@));
                    assert(state.current().output() =~= start.output() + caller_lines(
                        *file,
                        cs.take(i + 1),
                        mark,
                        indent,
                    ));
                }
                i = i + 1;
            }
            assert(cs.take(cs.len() as int) =~= cs);
        },
        None => {
            assert(callers_of(index.callers_map(), address) =~= Seq::<Caller>::empty());
            assert(state.current().output() =~= start.output() + Seq::<u8>::empty());
        },
    }
}

/// The id that the index gives the item `target`: the first id above 0 that names it,
/// or 0 (the id of nothing) if none does.
pub open spec fn id_of(ids: Seq<Id>, target: Id) -> usize
    decreases ids.len(),
{
    if ids.len() == 0 {
        0
    } else if id_of(ids.drop_last(), target) == 0 && ids.last() == target {
        (ids.len() - 1) as usize
    } else {
        id_of(ids.drop_last(), target)
    }
}

/// The id of the function at position `function_index` of unit `unit_index`.
fn function_id(index: &BloatIndex, unit_index: usize, function_index: usize) -> (res: usize)
    ensures
        res == id_of(index.id_list(), Id::Function { unit_index, function_index }),
{
    let target = Id::Function { unit_index, function_index };
    let ghost ids = index.id_list();
    let mut i: usize = 0;
    let mut res: usize = 0;
    assert(ids.take(0) =~= Seq::<Id>::empty());
    while i < index.ids.len()
        invariant
            ids == index.ids@,
            0 <= i <= ids.len(),
            res == id_of(ids.take(i as int), target),
        decreases ids.len() - i,
    {
        proof {
            assert(ids.take(i + 1).drop_last() =~= ids.take(i as int));
        }
        if res == 0 && index.ids[i] == target {
            res = i;
        }
        i = i + 1;
    }
    assert(ids.take(ids.len() as int) =~= ids);
    res
}

/// Prints the report: for each group of copies of a function, largest first, its total
/// size and reference, then for each copy its size and unit, then the functions that
/// call it.
pub fn bloat(file: &BloatFile, state: &mut PrintState, index: &BloatIndex)
    requires
        totals_valid(*file, index.totals()),
        callers_valid(*file, index.callers_map()),
        old(state).current().indent_level() + 2 <= usize::MAX,
    ensures
        final(state).current().output() == old(state).current().output() + total_lines(
            *file,
            index.callers_map(),
            index.totals(),
            old(state).current().mark(),
            old(state).current().indent_level(),
        ),
        final(state).current().indent_level() == old(state).current().indent_level(),
        final(state).current().mark() == old(state).current().mark(),
{
    let ghost mark = state.current().mark();
    let ghost indent = state.current().indent_level();
    let ghost start = state.current();
    let ghost ts = index.totals();
    let ghost map = index.callers_map();
    let mut i: usize = 0;
    assert(ts.take(0) =~= Seq::<TotalView>::empty());
    assert(start.output() =~= start.output() + Seq::<u8>::empty());
    while i < index.function_totals.len()
        invariant
            0 <= i <= ts.len(),
            ts == index.totals(),
            ts.len() == index.function_totals@.len(),
            map == index.callers_map(),
            totals_valid(*file, ts),
            callers_valid(*file, map),
            indent + 2 <= usize::MAX,
            mark == start.mark(),
            indent == start.indent_level(),
            state.current().output() == start.output() + total_lines(*file, map, ts.take(i as int), mark, indent),
            state.current().indent_level() == indent,
            state.current().mark() == mark,
        decreases ts.len() - i,
    {
        let entry = &index.function_totals[i];
        let ghost t = ts[i as int];
        assert(t == total_view(*entry));
        let ghost members = t.3;
        let ghost before = state.current().output();
        let mut body = state.indent_body();
        let mut j: usize = 0;
        assert(members.take(0) =~= Seq::<(usize, usize)>::empty());
        assert(body.current().output() =~= member_lines(*file, map, members.take(0), mark, indent + 1));
        while j < entry.1.functions.len()
            invariant
                0 <= j <= members.len(),
                members == entry.1.functions@,
                0 <= i < ts.len(),
                t == ts[i as int],
                members == t.3,
                totals_valid(*file, ts),
                callers_valid(*file, map),
                map == index.callers_map(),
                indent + 2 <= usize::MAX,
                body.current().output() == member_lines(*file, map, members.take(j as int), mark, indent + 1),
                body.current().indent_level() == indent + 1,
                body.current().mark() == mark,
            decreases members.len() - j,
        {
            let (u, f) = entry.1.functions[j];
            assert(members[j as int] == t.3[j as int]);
            let unit = &file.units[u];
            let function = &unit.functions[f];
            let (address, size) = match (function.address, function.size) {
                (Some(address), Some(size)) => (address, size),
                _ => {
                    assert(false);
                    (0, 0)
                },
            };
            let ghost body_before = body.current().output();
            let mut value: Vec<u8> = Vec::new();
            crate::print::format::push_decimal(&mut value, size);
            value.push(0x20);
            crate::print::format::push_bytes(&mut value, unit.name.as_slice());
            body.line(value.as_slice());
            let ghost after_line = body.current().output();
            let id = function_id(index, u, f);
            body.id(id);
            bloat_callers(&mut body, file, index, address);
            body.id_end();
            proof {
                let next = members.take(j + 1);
                assert(next.drop_last() =~= members.take(j as int));
                assert(next.last() == (u, f));
                assert(function_at(*file, (u, f)) == *function);
                assert(value@ =~= decimal(size as nat) + seq![0x20u8] + unit.name@);
                assert(body.current().output() =~= member_lines(*file, map, next, mark, indent + 1));
            }
            j = j + 1;
        }
        assert(members.take(members.len() as int) =~= members);
        let header_state = state.indent_header(body, false);
        let mut header: Vec<u8> = Vec::new();
        crate::print::format::push_decimal(&mut header, entry.1.size);
        header.push(0x20);
        push_reference(&mut header, entry.0.name.as_slice(), entry.0.source.as_slice());
        state.line(header.as_slice());
        state.indent_end(header_state.not_empty, true);
        proof {
            let next = ts.take(i + 1);
            assert(next.drop_last() =~= ts.take(i as int));
            assert(next.last() == t);
            assert(header@ =~= decimal(t.2 as nat) + seq![0x20u8] + reference(t.0, t.1));
            assert(state.current().output() =~= start.output() + total_lines(*file, map, next, mark, indent));
        }
        i = i + 1;
    }
    assert(ts.take(ts.len() as int) =~= ts);
}

/// The function that id `id` names, if it names a function of the file.
pub open spec fn function_of_id(file: BloatFile, ids: Seq<Id>, id: usize) -> Option<(usize, usize)> {
    if id < ids.len() {
        match ids[id as int] {
            Id::Function { unit_index, function_index } => if valid_position(
                file,
                unit_index,
                function_index,
            ) {
                Some((unit_index, function_index))
            } else {
                None
            },
            _ => None,
        }
    } else {
        None
    }
}

/// Prints the functions that call the function with id `id`; `None` if the id names no
/// function of the file.
pub fn bloat_id(id: usize, file: &BloatFile, state: &mut PrintState, index: &BloatIndex) -> (res: Option<()>)
    requires
        callers_valid(*file, index.callers_map()),
        function_of_id(*file, index.id_list(), id) matches Some(p) ==> function_at(*file, p).address is Some,
    ensures
        res is Some == function_of_id(*file, index.id_list(), id) is Some,
        final(state).current().printed(
            old(state).current(),
            match function_of_id(*file, index.id_list(), id) {
                Some(p) => caller_lines(
                    *file,
                    callers_of(index.callers_map(), function_at(*file, p).address->0),
                    old(state).current().mark(),
                    old(state).current().indent_level(),
                ),
                None => Seq::empty(),
            },
        ),
{
    let unchanged = Ghost(state.current());
    if id >= index.ids.len() {
        assert(state.current().output() =~= unchanged@.output() + Seq::<u8>::empty());
        return None;
    }
    match index.ids[id] {
        Id::Function { unit_index, function_index } => {
            if unit_index >= file.units.len() || function_index >= file.units[unit_index].functions.len() {
                assert(state.current().output() =~= unchanged@.output() + Seq::<u8>::empty());
                return None;
            }
            let function = &file.units[unit_index].functions[function_index];
            assert(function_at(*file, (unit_index, function_index)) == *function);
            let address = match function.address {
                Some(address) => address,
                None => {
                    assert(false);
                    0
                },
            };
            bloat_callers(state, file, index, address);
            Some(())
        },
        _ => {
            assert(state.current().output() =~= unchanged@.output() + Seq::<u8>::empty());
            None
        },
    }
}

proof fn lemma_positions_valid(file: BloatFile, units: Seq<BloatUnit>)
    requires
        units.len() <= file.units@.len(),
        forall|u: int| 0 <= u < units.len() ==> #[trigger] units[u] == file.units@[u],
    ensures
        forall|i: int|
            0 <= i < function_positions(units).len() ==> valid_position(
                file,
                (#[trigger] function_positions(units)[i]).0,
                function_positions(units)[i].1,
            ),
    decreases units.len(),
{
    if units.len() > 0 {
        let front = units.drop_last();
        assert forall|u: int| 0 <= u < front.len() implies #[trigger] front[u] == file.units@[u] by {
            assert(front[u] == units[u]);
        }
        lemma_positions_valid(file, front);
        let all = function_positions(units);
        let before = function_positions(front);
        assert forall|i: int| 0 <= i < all.len() implies valid_position(
            file,
            (#[trigger] all[i]).0,
            all[i].1,
        ) by {
            if i < before.len() {
                assert(all[i] == before[i]);
            } else {
                let u = units.len() - 1;
                let f = i - before.len();
                assert(units.last() == file.units@[u]);
                assert(file.units.len() == file.units@.len());
                assert(file.units@[u].functions.len() == file.units@[u].functions@.len());
                assert(all[i] == (u as usize, f as usize));
            }
        }
    }
}

proof fn lemma_members_listed(file: BloatFile, ps: Seq<(usize, usize)>, key: (Seq<u8>, Seq<u8>))
    ensures
        forall|k: int|
            0 <= k < members_of(file, ps, key).len() ==> ps.contains(
                #[trigger] members_of(file, ps, key)[k],
            ) && function_at(file, members_of(file, ps, key)[k]).size is Some,
    decreases ps.len(),
{
    if ps.len() > 0 {
        let front = ps.drop_last();
        lemma_members_listed(file, front, key);
        let all = members_of(file, ps, key);
        let rest = members_of(file, front, key);
        assert forall|k: int| 0 <= k < all.len() implies ps.contains(#[trigger] all[k])
            && function_at(file, all[k]).size is Some by {
            if k < rest.len() {
                assert(all[k] == rest[k]);
                let i = choose|i: int| 0 <= i < front.len() && front[i] == rest[k];
                assert(ps[i] == front[i]);
            } else {
                assert(ps[ps.len() - 1] == all[k]);
            }
        }
    }
}

proof fn lemma_call_list_from(calls: Seq<(u64, u64)>, p: (usize, usize), to: u64)
    ensures
        forall|k: int|
            0 <= k < call_list(calls, p, to).len() ==> (#[trigger] call_list(calls, p, to)[k]).unit_index
                == p.0 && call_list(calls, p, to)[k].function_index == p.1,
    decreases calls.len(),
{
    if calls.len() > 0 {
        lemma_call_list_from(calls.drop_last(), p, to);
        let all = call_list(calls, p, to);
        let rest = call_list(calls.drop_last(), p, to);
        assert forall|k: int| 0 <= k < all.len() implies (#[trigger] all[k]).unit_index == p.0
            && all[k].function_index == p.1 by {
            if k < rest.len() {
                assert(all[k] == rest[k]);
            }
        }
    }
}

proof fn lemma_calls_listed(file: BloatFile, ps: Seq<(usize, usize)>, to: u64)
    ensures
        forall|k: int|
            0 <= k < calls_to(file, ps, to).len() ==> ps.contains(
                ((#[trigger] calls_to(file, ps, to)[k]).unit_index, calls_to(file, ps, to)[k].function_index),
            ),
    decreases ps.len(),
{
    if ps.len() > 0 {
        let front = ps.drop_last();
        lemma_calls_listed(file, front, to);
        let f = function_at(file, ps.last());
        lemma_call_list_from(f.calls@, ps.last(), to);
        let all = calls_to(file, ps, to);
        let rest = calls_to(file, front, to);
        assert forall|k: int| 0 <= k < all.len() implies ps.contains(
            ((#[trigger] all[k]).unit_index, all[k].function_index),
        ) by {
            if k < rest.len() {
                assert(all[k] == rest[k]);
                let i = choose|i: int| 0 <= i < front.len() && front[i] == (rest[k].unit_index, rest[k].function_index);
                assert(ps[i] == front[i]);
            } else {
                assert(all[k] == call_list(f.calls@, ps.last(), to)[k - rest.len()]);
                assert(ps[ps.len() - 1] == (all[k].unit_index, all[k].function_index));
            }
        }
    }
}

/// An index built from a file can always be printed with it: where every function with
/// a size has an address, every copy that the index holds names a function of the file
/// with an address and a size, and every caller names a function of the file.
pub proof fn lemma_bloat_printable(file: BloatFile, index: BloatIndex)
    requires
        groups_of(file, function_positions(file.units@), index.totals()),
        callers_are(index.callers_map(), |a: u64| calls_to(file, function_positions(file.units@), a)),
        forall|i: int|
            0 <= i < function_positions(file.units@).len() && (#[trigger] function_at(
                file,
                function_positions(file.units@)[i],
            )).size is Some ==> function_at(file, function_positions(file.units@)[i]).address is Some,
    ensures
        totals_valid(file, index.totals()),
        callers_valid(file, index.callers_map()),
{
    let ps = function_positions(file.units@);
    let ts = index.totals();
    let map = index.callers_map();
    lemma_positions_valid(file, file.units@);
    assert forall|i: int, k: int| 0 <= i < ts.len() && 0 <= k < ts[i].3.len() implies {
        let p = #[trigger] ts[i].3[k];
        &&& valid_position(file, p.0, p.1)
        &&& function_at(file, p).address is Some
        &&& function_at(file, p).size is Some
    } by {
        let key = (ts[i].0, ts[i].1);
        lemma_members_listed(file, ps, key);
        assert(ts[i].3 == members_of(file, ps, key));
        let j = choose|j: int| 0 <= j < ps.len() && ps[j] == ts[i].3[k];
        assert(valid_position(file, ps[j].0, ps[j].1));
    }
    assert forall|a: u64, k: int|
        map.contains_key(a) && 0 <= k < map[a]@.len() implies valid_position(
        file,
        (#[trigger] map[a]@[k]).unit_index,
        map[a]@[k].function_index,
    ) by {
        lemma_calls_listed(file, ps, a);
        assert(map[a]@ == calls_to(file, ps, a));
        let j = choose|j: int| 0 <= j < ps.len() && ps[j] == (map[a]@[k].unit_index, map[a]@[k].function_index);
        assert(valid_position(file, ps[j].0, ps[j].1));
    }
}

} // verus!
