//! Which items of a compilation unit are listed in the index.
use std::collections::HashSet;
use vstd::prelude::*;

verus! {

broadcast use vstd::std_specs::hash::group_hash_axioms;

/// The kind of a type, as the index distinguishes them.
#[derive(Clone, Copy, Debug, PartialEq, Eq, Structural)]
pub enum TypeKind {
    Void,
    Base,
    Def,
    Struct,
    Union,
    Enumeration,
    Array,
    Function,
    Unspecified,
    PointerToMember,
    Modifier,
    Subrange,
}

/// A member of a type: whether it is printed inline with its parent, and the offset
/// of the type that it has.
pub struct Member {
    pub is_inline: bool,
    pub type_offset: Option<u64>,
}

/// What the index reads of a type.
pub struct Type {
    pub kind: TypeKind,
    /// The name of a struct type, as bytes.
    pub name: Option<Vec<u8>>,
    pub is_anon: bool,
    pub offset: Option<u64>,
    pub members: Vec<Member>,
    /// Types of the two files with the same key are the same type; keys order types.
    pub key: u64,
}

/// What the index reads of a function.
pub struct Function {
    pub is_inline: bool,
    pub address: Option<u64>,
    pub size: Option<u64>,
    /// Functions of the two files with the same key are the same function.
    pub key: u64,
}

/// What the index reads of a variable.
pub struct Variable {
    pub is_declaration: bool,
    pub address: Option<u64>,
    /// Variables of the two files with the same key are the same variable.
    pub key: u64,
}

/// What the index reads of a compilation unit.
pub struct Unit {
    /// Whether the unit matches the unit filter of the options.
    pub selected: bool,
    /// Units of the two files with the same key are the same unit; keys order units.
    pub key: u64,
    pub types: Vec<Type>,
    pub functions: Vec<Function>,
    pub variables: Vec<Variable>,
}

/// What the index reads of a file.
pub struct File {
    pub units: Vec<Unit>,
}

/// The name that the compiler gives to the types of Rust closures.
pub open spec fn closure_name() -> Seq<u8> {
    seq![0x63u8, 0x6c, 0x6f, 0x73, 0x75, 0x72, 0x65]
}

/// The type offsets of a unit that are printed inline: those of anonymous types and
/// those of the types of inline members.
pub open spec fn spec_inline_types(unit: Unit) -> Set<u64> {
    Set::new(
        |o: u64|
            exists|i: int|
                0 <= i < unit.types@.len() && {
                    let ty = #[trigger] unit.types@[i];
                    (ty.is_anon && ty.offset == Some(o)) || exists|j: int|
                        0 <= j < ty.members@.len() && #[trigger] ty.members@[j].is_inline
                            && ty.members@[j].type_offset == Some(o)
                },
    )
}

/// A function is listed unless it is a declaration or was removed from the code:
/// an out-of-line function needs an address and a size.
pub open spec fn spec_index_function(f: Function) -> bool {
    f.is_inline || (f.address is Some && f.size is Some)
}

/// A variable is listed if it is a declaration or has an address.
pub open spec fn spec_index_variable(v: Variable) -> bool {
    v.is_declaration || v.address is Some
}

/// A struct type named as Rust closures are.
pub open spec fn is_closure(ty: Type) -> bool {
    ty.name matches Some(n) && n@ == closure_name()
}

/// A type is listed if it is a base type, a typedef, a struct (but, in a diff, not a
/// Rust closure), a union or an enumeration, has an offset, and is not printed inline.
pub open spec fn spec_index_type(ty: Type, diff: bool, inline_types: Set<u64>) -> bool {
    let kind_ok = match ty.kind {
        TypeKind::Struct => !(diff && is_closure(ty)),
        TypeKind::Base | TypeKind::Def | TypeKind::Union | TypeKind::Enumeration => true,
        _ => false,
    };
    kind_ok && ty.offset is Some && !inline_types.contains(ty.offset.unwrap())
}

/// The indices `i < n` with `keep(i)`, in increasing order.
pub open spec fn indices_where(n: int, keep: spec_fn(int) -> bool) -> Seq<usize>
    decreases n,
{
    if n <= 0 {
        Seq::empty()
    } else if keep(n - 1) {
        indices_where(n - 1, keep).push((n - 1) as usize)
    } else {
        indices_where(n - 1, keep)
    }
}

/// The types of a unit that are listed.
pub open spec fn spec_index_types(unit: Unit, diff: bool) -> Seq<usize> {
    indices_where(
        unit.types@.len() as int,
        |i: int| spec_index_type(unit.types@[i], diff, spec_inline_types(unit)),
    )
}

/// The functions of a unit that are listed.
pub open spec fn spec_index_functions(unit: Unit) -> Seq<usize> {
    indices_where(unit.functions@.len() as int, |i: int| spec_index_function(unit.functions@[i]))
}

/// The variables of a unit that are listed.
pub open spec fn spec_index_variables(unit: Unit) -> Seq<usize> {
    indices_where(unit.variables@.len() as int, |i: int| spec_index_variable(unit.variables@[i]))
}

fn is_closure_name(name: &Vec<u8>) -> (res: bool)
    ensures
        res == (name@ == closure_name()),
{
    let expected: [u8; 7] = [0x63, 0x6c, 0x6f, 0x73, 0x75, 0x72, 0x65];
    if name.len() != 7 {
        return false;
    }
    let mut i: usize = 0;
    while i < 7
        invariant
            name.len() == 7,
            expected@ == closure_name(),
            0 <= i <= 7,
            forall|j: int| 0 <= j < i ==> name@[j] == expected@[j],
        decreases 7 - i,
    {
        if name[i] != expected[i] {
            assert(name@[i as int] != closure_name()[i as int]);
            return false;
        }
        i = i + 1;
    }
    assert(name@ =~= closure_name());
    true
}

/// The offsets of types that should be printed inline.
pub fn inline_types(unit: &Unit) -> (res: HashSet<u64>)
    ensures
        res@ == spec_inline_types(*unit),
{
    let mut inline_types: HashSet<u64> = HashSet::new();
    let n = unit.types.len();
    let mut i: usize = 0;
    while i < n
        invariant
            n == unit.types@.len(),
            0 <= i <= n,
            forall|o: u64|
                #![trigger inline_types@.contains(o)]
                inline_types@.contains(o) <==> exists|k: int|
                    0 <= k < i && {
                        let ty = #[trigger] unit.types@[k];
                        (ty.is_anon && ty.offset == Some(o)) || exists|j: int|
                            0 <= j < ty.members@.len() && #[trigger] ty.members@[j].is_inline
                                && ty.members@[j].type_offset == Some(o)
                    },
        decreases n - i,
    {
        let ty = &unit.types[i];
        let ghost before = inline_types@;
        // Assume all anonymous types are inline.
        if ty.is_anon {
            if let Some(offset) = ty.offset {
                inline_types.insert(offset);
            }
        }
        // Find all inline members.
        let m = ty.members.len();
        let mut j: usize = 0;
        while j < m
            invariant
                m == ty.members@.len(),
                0 <= j <= m,
                forall|o: u64|
                    #![trigger inline_types@.contains(o)]
                    inline_types@.contains(o) <==> before.contains(o) || (ty.is_anon && ty.offset
                        == Some(o)) || exists|l: int|
                        0 <= l < j && #[trigger] ty.members@[l].is_inline
                            && ty.members@[l].type_offset == Some(o),
            decreases m - j,
        {
            let t = &ty.members[j];
            let ghost prev = inline_types@;
            if t.is_inline {
                if let Some(offset) = t.type_offset {
                    inline_types.insert(offset);
                }
            }
            assert forall|o: u64|
                inline_types@.contains(o) <==> before.contains(o) || (ty.is_anon && ty.offset
                    == Some(o)) || exists|l: int|
                    0 <= l < j + 1 && #[trigger] ty.members@[l].is_inline
                        && ty.members@[l].type_offset == Some(o) by {
                assert(ty.members@[j as int] == *t);
                if exists|l: int|
                    0 <= l < j + 1 && #[trigger] ty.members@[l].is_inline
                        && ty.members@[l].type_offset == Some(o) {
                    let l = choose|l: int|
                        0 <= l < j + 1 && #[trigger] ty.members@[l].is_inline
                            && ty.members@[l].type_offset == Some(o);
                    if l < j {
                        assert(prev.contains(o));
                    }
                }
            }
            j = j + 1;
        }
        assert forall|o: u64|
            inline_types@.contains(o) <==> exists|k: int|
                0 <= k < i + 1 && {
                    let ty = #[trigger] unit.types@[k];
                    (ty.is_anon && ty.offset == Some(o)) || exists|j: int|
                        0 <= j < ty.members@.len() && #[trigger] ty.members@[j].is_inline
                            && ty.members@[j].type_offset == Some(o)
                } by {
            assert(unit.types@[i as int] == *ty);
            if exists|k: int|
                0 <= k < i + 1 && {
                    let ty = #[trigger] unit.types@[k];
                    (ty.is_anon && ty.offset == Some(o)) || exists|j: int|
                        0 <= j < ty.members@.len() && #[trigger] ty.members@[j].is_inline
                            && ty.members@[j].type_offset == Some(o)
                } {
                let k = choose|k: int|
                    0 <= k < i + 1 && {
                        let ty = #[trigger] unit.types@[k];
                        (ty.is_anon && ty.offset == Some(o)) || exists|j: int|
                            0 <= j < ty.members@.len() && #[trigger] ty.members@[j].is_inline
                                && ty.members@[j].type_offset == Some(o)
                    };
                if k < i {
                    assert(before.contains(o));
                }
            }
        }
        i = i + 1;
    }
    assert(inline_types@ =~= spec_inline_types(*unit));
    inline_types
}

/// Return true if this function can be printed in a list.
pub fn index_function(f: &Function) -> (res: bool)
    ensures
        res == spec_index_function(*f),
{
    if !f.is_inline && (f.address.is_none() || f.size.is_none()) {
        // This is either a declaration or a dead function that was removed
        // from the code, but wasn't removed from the debuginfo.
        return false;
    }
    true
}

/// Return true if this variable can be printed in a list.
pub fn index_variable(v: &Variable) -> (res: bool)
    ensures
        res == spec_index_variable(*v),
{
    if !v.is_declaration && v.address.is_none() {
        return false;
    }
    true
}

/// Return true if this type can be printed in a list.
///
/// Excludes rust closures for diff mode.
pub fn index_type(ty: &Type, diff: bool, inline_types: &HashSet<u64>) -> (res: bool)
    ensures
        res == spec_index_type(*ty, diff, inline_types@),
{
    match ty.kind {
        TypeKind::Struct => {
            // Hack for rust closures
            if diff {
                if let Some(name) = &ty.name {
                    if is_closure_name(name) {
                        return false;
                    }
                }
            }
        },
        TypeKind::Base | TypeKind::Def | TypeKind::Union | TypeKind::Enumeration => {},
        TypeKind::Void | TypeKind::Array | TypeKind::Function | TypeKind::Unspecified
        | TypeKind::PointerToMember | TypeKind::Modifier | TypeKind::Subrange => return false,
    }
    // Filter out inline types.
    match ty.offset {
        Some(offset) => !inline_types.contains(&offset),
        None => false,
    }
}


pub fn enumerate_index_types(unit: &Unit, diff: bool) -> (res: Vec<usize>)
    ensures
        res@ == spec_index_types(*unit, diff),
{
    let inline_types = inline_types(unit);
    let ghost keep = |i: int| spec_index_type(unit.types@[i], diff, spec_inline_types(*unit));
    let n = unit.types.len();
    let mut res: Vec<usize> = Vec::new();
    let mut i: usize = 0;
    while i < n
        invariant
            n == unit.types@.len(),
            0 <= i <= n,
            inline_types@ == spec_inline_types(*unit),
            keep == (|i: int| spec_index_type(unit.types@[i], diff, spec_inline_types(*unit))),
            res@ == indices_where(i as int, keep),
        decreases n - i,
    {
        if index_type(&unit.types[i], diff, &inline_types) {
            res.push(i);
        }
        i = i + 1;
    }
    res
}

pub fn enumerate_index_functions(unit: &Unit) -> (res: Vec<usize>)
    ensures
        res@ == spec_index_functions(*unit),
{
    let ghost keep = |i: int| spec_index_function(unit.functions@[i]);
    let n = unit.functions.len();
    let mut res: Vec<usize> = Vec::new();
    let mut i: usize = 0;
    while i < n
        invariant
            n == unit.functions@.len(),
            0 <= i <= n,
            keep == (|i: int| spec_index_function(unit.functions@[i])),
            res@ == indices_where(i as int, keep),
        decreases n - i,
    {
        if index_function(&unit.functions[i]) {
            res.push(i);
        }
        i = i + 1;
    }
    res
}

pub fn enumerate_index_variables(unit: &Unit) -> (res: Vec<usize>)
    ensures
        res@ == spec_index_variables(*unit),
{
    let ghost keep = |i: int| spec_index_variable(unit.variables@[i]);
    let n = unit.variables.len();
    let mut res: Vec<usize> = Vec::new();
    let mut i: usize = 0;
    while i < n
        invariant
            n == unit.variables@.len(),
            0 <= i <= n,
            keep == (|i: int| spec_index_variable(unit.variables@[i])),
            res@ == indices_where(i as int, keep),
        decreases n - i,
    {
        if index_variable(&unit.variables[i]) {
            res.push(i);
        }
        i = i + 1;
    }
    res
}

/// Which types the index lists. A base type, a typedef, a union or an enumeration is
/// listed, in a diff or not, exactly when it has an offset and is not printed inline. A
/// struct is listed in the same way, except that in a diff a struct named `closure`
/// (the type of a Rust closure) never is. No type of another kind is ever listed.
pub proof fn lemma_index_type_rules(ty: Type, diff: bool, inline_types: Set<u64>)
    ensures
        (ty.kind == TypeKind::Base || ty.kind == TypeKind::Def || ty.kind == TypeKind::Union
            || ty.kind == TypeKind::Enumeration) ==> (spec_index_type(ty, diff, inline_types) <==> (
        ty.offset matches Some(o) && !inline_types.contains(o))),
        ty.kind == TypeKind::Struct && !diff ==> (spec_index_type(ty, diff, inline_types) <==> (
        ty.offset matches Some(o) && !inline_types.contains(o))),
        ty.kind == TypeKind::Struct && diff ==> (spec_index_type(ty, diff, inline_types) <==> (
        ty.offset matches Some(o) && !inline_types.contains(o) && !(ty.name matches Some(n) && n@
            == seq![0x63u8, 0x6c, 0x6f, 0x73, 0x75, 0x72, 0x65]))),
        !(ty.kind == TypeKind::Base || ty.kind == TypeKind::Def || ty.kind == TypeKind::Union
            || ty.kind == TypeKind::Enumeration || ty.kind == TypeKind::Struct)
            ==> !spec_index_type(ty, diff, inline_types),
{
}

/// The positions that `indices_where` gives are exactly those below `n` that are kept,
/// in increasing order.
proof fn lemma_indices_where(n: int, keep: spec_fn(int) -> bool)
    requires
        n <= usize::MAX,
    ensures
        forall|i: int| 0 <= i < n ==> (#[trigger] keep(i) <==> indices_where(n, keep).contains(i as usize)),
        forall|k: int|
            0 <= k < indices_where(n, keep).len() ==> (#[trigger] indices_where(n, keep)[k]) < n
                && keep(indices_where(n, keep)[k] as int),
        forall|a: int, b: int|
            0 <= a < b < indices_where(n, keep).len() ==> #[trigger] indices_where(n, keep)[a]
                < #[trigger] indices_where(n, keep)[b],
    decreases n,
{
    if n > 0 {
        lemma_indices_where(n - 1, keep);
        let w = indices_where(n - 1, keep);
        let v = indices_where(n, keep);
        assert forall|i: int| 0 <= i < n implies (#[trigger] keep(i) <==> v.contains(i as usize)) by {
            if keep(i) {
                if i < n - 1 {
                    let p = choose|p: int| 0 <= p < w.len() && w[p] == i as usize;
                    assert(v[p] == i as usize);
                } else {
                    assert(v[v.len() - 1] == i as usize);
                }
            }
            if v.contains(i as usize) {
                let p = choose|p: int| 0 <= p < v.len() && v[p] == i as usize;
                if p < w.len() {
                    assert(v[p] == w[p]);
                    assert(w.contains(i as usize));
                }
            }
        }
        assert forall|k: int| 0 <= k < v.len() implies (#[trigger] v[k]) < n && keep(v[k] as int) by {
            if k < w.len() {
                assert(v[k] == w[k]);
            }
        }
        assert forall|a: int, b: int| 0 <= a < b < v.len() implies #[trigger] v[a] < #[trigger] v[b] by {
            if b < w.len() {
                assert(v[a] == w[a] && v[b] == w[b]);
            } else {
                assert(v[a] == w[a]);
            }
        }
    }
}

/// The types of a unit that the index lists are, in increasing order, exactly those that
/// `spec_index_type` keeps, against the unit's inline types.
pub proof fn lemma_index_types(unit: Unit, diff: bool)
    ensures
        forall|i: int|
            0 <= i < unit.types@.len() ==> (spec_index_type(
                #[trigger] unit.types@[i],
                diff,
                spec_inline_types(unit),
            ) <==> spec_index_types(unit, diff).contains(i as usize)),
        forall|k: int|
            0 <= k < spec_index_types(unit, diff).len() ==> (#[trigger] spec_index_types(unit, diff)[k])
                < unit.types@.len(),
        forall|a: int, b: int|
            0 <= a < b < spec_index_types(unit, diff).len() ==> #[trigger] spec_index_types(unit, diff)[a]
                < #[trigger] spec_index_types(unit, diff)[b],
{
    assert(unit.types.len() == unit.types@.len());
    let keep = |i: int| spec_index_type(unit.types@[i], diff, spec_inline_types(unit));
    lemma_indices_where(unit.types@.len() as int, keep);
    assert forall|i: int| 0 <= i < unit.types@.len() implies (spec_index_type(
        #[trigger] unit.types@[i],
        diff,
        spec_inline_types(unit),
    ) <==> spec_index_types(unit, diff).contains(i as usize)) by {
        assert(keep(i) == spec_index_type(unit.types@[i], diff, spec_inline_types(unit)));
    }
}

} // verus!
