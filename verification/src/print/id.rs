//! Which item the detail view of an id shows.
use vstd::prelude::*;
use vstd::string::*;

use crate::filter::File;
use crate::index::Id;
use crate::merge::MergeResult;

verus! {

/// An item whose body the detail view of an id prints.
#[derive(Clone, Copy, PartialEq, Eq, Structural)]
pub enum IdTarget {
    Unit { unit_index: usize },
    Type { unit_index: usize, type_index: usize },
    /// A function: its body, or with `code` its instructions.
    Function { unit_index: usize, function_index: usize, code: bool },
    Variable { unit_index: usize, variable_index: usize },
}

/// The detail `code` asks for a function's instructions.
pub open spec fn is_code(detail: &str) -> bool {
    detail.spec_bytes() == seq![0x63u8, 0x6f, 0x64, 0x65]
}

/// The item that id `id` names in `file`, if the file has it; a function's detail is
/// none (its body) or `code` (its instructions), and no other detail is shown.
pub open spec fn spec_print_id(id: Id, detail: Option<&str>, file: File) -> Option<IdTarget> {
    match id {
        Id::Unit { unit_index } => if unit_index < file.units@.len() {
            Some(IdTarget::Unit { unit_index })
        } else {
            None
        },
        Id::Type { unit_index, type_index } => if unit_index < file.units@.len() && type_index
            < file.units@[unit_index as int].types@.len() {
            Some(IdTarget::Type { unit_index, type_index })
        } else {
            None
        },
        Id::Function { unit_index, function_index } => if unit_index < file.units@.len()
            && function_index < file.units@[unit_index as int].functions@.len() {
            match detail {
                None => Some(IdTarget::Function { unit_index, function_index, code: false }),
                Some(d) => if is_code(d) {
                    Some(IdTarget::Function { unit_index, function_index, code: true })
                } else {
                    None
                },
            }
        } else {
            None
        },
        Id::Variable { unit_index, variable_index } => if unit_index < file.units@.len()
            && variable_index < file.units@[unit_index as int].variables@.len() {
            Some(IdTarget::Variable { unit_index, variable_index })
        } else {
            None
        },
        Id::Nil => None,
    }
}

/// The items that an id pair names in the two files of a diff: a pair of items of the
/// same kind that both files have, or the item of one file where the other side is
/// nothing.
pub open spec fn spec_diff_id(id: (Id, Id), detail: Option<&str>, file_a: File, file_b: File) -> Option<
    MergeResult<IdTarget, IdTarget>,
> {
    match id {
        (Id::Unit { .. }, Id::Unit { .. }) | (Id::Type { .. }, Id::Type { .. }) | (
            Id::Variable { .. },
            Id::Variable { .. },
        ) => match (spec_print_id(id.0, None, file_a), spec_print_id(id.1, None, file_b)) {
            (Some(a), Some(b)) => Some(MergeResult::Both(a, b)),
            _ => None,
        },
        (Id::Function { .. }, Id::Function { .. }) => match (
            spec_print_id(id.0, detail, file_a),
            spec_print_id(id.1, detail, file_b),
        ) {
            (Some(a), Some(b)) => Some(MergeResult::Both(a, b)),
            _ => None,
        },
        (a, Id::Nil) => match spec_print_id(a, detail, file_a) {
            Some(t) => Some(MergeResult::Left(t)),
            None => None,
        },
        (Id::Nil, b) => match spec_print_id(b, detail, file_b) {
            Some(t) => Some(MergeResult::Right(t)),
            None => None,
        },
        _ => None,
    }
}

/// Whether the detail is `code`.
fn detail_is_code(detail: &str) -> (res: bool)
    ensures
        res == is_code(detail),
{
    let bytes = detail.as_bytes();
    let res = bytes.len() == 4 && bytes[0] == 0x63 && bytes[1] == 0x6f && bytes[2] == 0x64
        && bytes[3] == 0x65;
    assert(res ==> bytes@ =~= seq![0x63u8, 0x6f, 0x64, 0x65]);
    res
}

/// What the detail view of a function shows.
fn print_function_id(unit_index: usize, function_index: usize, detail: Option<&str>) -> (res: Option<
    IdTarget,
>)
    ensures
        res == match detail {
            None => Some(IdTarget::Function { unit_index, function_index, code: false }),
            Some(d) => if is_code(d) {
                Some(IdTarget::Function { unit_index, function_index, code: true })
            } else {
                None
            },
        },
{
    match detail {
        None => Some(IdTarget::Function { unit_index, function_index, code: false }),
        Some(d) => if detail_is_code(d) {
            Some(IdTarget::Function { unit_index, function_index, code: true })
        } else {
            None
        },
    }
}

/// The item that the detail view of id `id` of `file` shows.
pub fn print_id(id: Id, detail: Option<&str>, file: &File) -> (res: Option<IdTarget>)
    ensures
        res == spec_print_id(id, detail, *file),
{
    match id {
        Id::Unit { unit_index } => {
            if unit_index >= file.units.len() {
                return None;
            }
            Some(IdTarget::Unit { unit_index })
        },
        Id::Type { unit_index, type_index } => {
            if unit_index >= file.units.len() || type_index >= file.units[unit_index].types.len() {
                return None;
            }
            Some(IdTarget::Type { unit_index, type_index })
        },
        Id::Function { unit_index, function_index } => {
            if unit_index >= file.units.len() || function_index
                >= file.units[unit_index].functions.len() {
                return None;
            }
            print_function_id(unit_index, function_index, detail)
        },
        Id::Variable { unit_index, variable_index } => {
            if unit_index >= file.units.len() || variable_index
                >= file.units[unit_index].variables.len() {
                return None;
            }
            Some(IdTarget::Variable { unit_index, variable_index })
        },
        Id::Nil => None,
    }
}

/// The items that the detail view of an id pair of a diff shows.
pub fn diff_id(id: (Id, Id), detail: Option<&str>, file_a: &File, file_b: &File) -> (res: Option<
    MergeResult<IdTarget, IdTarget>,
>)
    ensures
        res == spec_diff_id(id, detail, *file_a, *file_b),
{
    match id {
        (Id::Unit { .. }, Id::Unit { .. }) | (Id::Type { .. }, Id::Type { .. }) | (
            Id::Variable { .. },
            Id::Variable { .. },
        ) => {
            let a = print_id(id.0, None, file_a);
            let b = print_id(id.1, None, file_b);
            match (a, b) {
                (Some(a), Some(b)) => Some(MergeResult::Both(a, b)),
                _ => None,
            }
        },
        (Id::Function { .. }, Id::Function { .. }) => {
            let a = print_id(id.0, detail, file_a);
            let b = print_id(id.1, detail, file_b);
            match (a, b) {
                (Some(a), Some(b)) => Some(MergeResult::Both(a, b)),
                _ => None,
            }
        },
        (a, Id::Nil) => match print_id(a, detail, file_a) {
            Some(t) => Some(MergeResult::Left(t)),
            None => None,
        },
        (Id::Nil, b) => match print_id(b, detail, file_b) {
            Some(t) => Some(MergeResult::Right(t)),
            None => None,
        },
        _ => None,
    }
}

/// Which kind of thing an id names: 0 nothing, 1 a unit, 2 a type, 3 a function, 4 a
/// variable.
pub open spec fn id_variant(id: Id) -> int {
    match id {
        Id::Nil => 0,
        Id::Unit { .. } => 1,
        Id::Type { .. } => 2,
        Id::Function { .. } => 3,
        Id::Variable { .. } => 4,
    }
}

/// The detail view of an id pair of a diff whose sides name items of the same kind
/// shows both items, exactly when both files have them: a pair of units, of types or of
/// variables (whatever the detail), or of functions (their bodies with no detail, their
/// instructions with `code`, nothing with another detail).
pub proof fn lemma_diff_id_pairs(
    file_a: File,
    file_b: File,
    ua: usize,
    ia: usize,
    ub: usize,
    ib: usize,
    detail: Option<&str>,
)
    ensures
        spec_diff_id((Id::Unit { unit_index: ua }, Id::Unit { unit_index: ub }), detail, file_a, file_b)
            == if ua < file_a.units@.len() && ub < file_b.units@.len() {
            Some(MergeResult::Both(IdTarget::Unit { unit_index: ua }, IdTarget::Unit { unit_index: ub }))
        } else {
            None
        },
        spec_diff_id(
            (Id::Type { unit_index: ua, type_index: ia }, Id::Type { unit_index: ub, type_index: ib }),
            detail,
            file_a,
            file_b,
        ) == if ua < file_a.units@.len() && ia < file_a.units@[ua as int].types@.len() && ub
            < file_b.units@.len() && ib < file_b.units@[ub as int].types@.len() {
            Some(
                MergeResult::Both(
                    IdTarget::Type { unit_index: ua, type_index: ia },
                    IdTarget::Type { unit_index: ub, type_index: ib },
                ),
            )
        } else {
            None
        },
        spec_diff_id(
            (
                Id::Variable { unit_index: ua, variable_index: ia },
                Id::Variable { unit_index: ub, variable_index: ib },
            ),
            detail,
            file_a,
            file_b,
        ) == if ua < file_a.units@.len() && ia < file_a.units@[ua as int].variables@.len() && ub
            < file_b.units@.len() && ib < file_b.units@[ub as int].variables@.len() {
            Some(
                MergeResult::Both(
                    IdTarget::Variable { unit_index: ua, variable_index: ia },
                    IdTarget::Variable { unit_index: ub, variable_index: ib },
                ),
            )
        } else {
            None
        },
        spec_diff_id(
            (
                Id::Function { unit_index: ua, function_index: ia },
                Id::Function { unit_index: ub, function_index: ib },
            ),
            detail,
            file_a,
            file_b,
        ) == if ua < file_a.units@.len() && ia < file_a.units@[ua as int].functions@.len() && ub
            < file_b.units@.len() && ib < file_b.units@[ub as int].functions@.len() && (detail is None
            || is_code(detail->0)) {
            Some(
                MergeResult::Both(
                    IdTarget::Function { unit_index: ua, function_index: ia, code: detail is Some },
                    IdTarget::Function { unit_index: ub, function_index: ib, code: detail is Some },
                ),
            )
        } else {
            None
        },
{
}

/// The detail view of an id pair of a diff with one side naming nothing shows what the
/// detail view of the other side's id shows in its own file; a pair whose sides name
/// things of different kinds shows nothing.
pub proof fn lemma_diff_id_one_side(id: Id, other: Id, detail: Option<&str>, file_a: File, file_b: File)
    ensures
        spec_diff_id((id, Id::Nil), detail, file_a, file_b) == match spec_print_id(id, detail, file_a) {
            Some(t) => Some(MergeResult::Left(t)),
            None => None::<MergeResult<IdTarget, IdTarget>>,
        },
        spec_diff_id((Id::Nil, id), detail, file_a, file_b) == match spec_print_id(id, detail, file_b) {
            Some(t) => Some(MergeResult::Right(t)),
            None => None::<MergeResult<IdTarget, IdTarget>>,
        },
        id_variant(id) != 0 && id_variant(other) != 0 && id_variant(id) != id_variant(other)
            ==> spec_diff_id((id, other), detail, file_a, file_b) is None,
{
}

/// The detail view of an id of one file shows the item that the id names, exactly when
/// the file has it: a unit, a type or a variable whatever the detail; a function's body
/// with no detail, its instructions with `code`, nothing with another detail.
pub proof fn lemma_print_id_targets(file: File, u: usize, i: usize, detail: Option<&str>)
    ensures
        spec_print_id(Id::Unit { unit_index: u }, detail, file) == if u < file.units@.len() {
            Some(IdTarget::Unit { unit_index: u })
        } else {
            None
        },
        spec_print_id(Id::Type { unit_index: u, type_index: i }, detail, file) == if u
            < file.units@.len() && i < file.units@[u as int].types@.len() {
            Some(IdTarget::Type { unit_index: u, type_index: i })
        } else {
            None
        },
        spec_print_id(Id::Variable { unit_index: u, variable_index: i }, detail, file) == if u
            < file.units@.len() && i < file.units@[u as int].variables@.len() {
            Some(IdTarget::Variable { unit_index: u, variable_index: i })
        } else {
            None
        },
        spec_print_id(Id::Function { unit_index: u, function_index: i }, detail, file) == if u
            < file.units@.len() && i < file.units@[u as int].functions@.len() && (detail is None
            || is_code(detail->0)) {
            Some(IdTarget::Function { unit_index: u, function_index: i, code: detail is Some })
        } else {
            None
        },
        spec_print_id(Id::Nil, detail, file) is None,
{
}

} // verus!
