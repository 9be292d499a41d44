use ddbug::filter::{File, Function, Type, TypeKind, Unit, Variable};
use ddbug::index::Id;
use ddbug::merge::MergeResult;
use ddbug::print::id::{diff_id, print_id, IdTarget};

fn one_of_each() -> File {
    File {
        units: vec![Unit {
            selected: true,
            key: 1,
            types: vec![Type {
                kind: TypeKind::Struct,
                name: None,
                is_anon: false,
                offset: Some(8),
                members: Vec::new(),
                key: 1,
            }],
            functions: vec![Function {
                is_inline: true,
                address: None,
                size: None,
                key: 1,
            }],
            variables: vec![Variable {
                is_declaration: true,
                address: None,
                key: 1,
            }],
        }],
    }
}

fn is(t: Option<IdTarget>, expected: IdTarget) -> bool {
    t == Some(expected)
}

#[test]
fn print_id_targets() {
    let f = one_of_each();
    assert!(is(print_id(Id::Unit { unit_index: 0 }, None, &f), IdTarget::Unit { unit_index: 0 }));
    assert!(print_id(Id::Unit { unit_index: 1 }, None, &f).is_none());
    assert!(is(
        print_id(Id::Type { unit_index: 0, type_index: 0 }, None, &f),
        IdTarget::Type { unit_index: 0, type_index: 0 }
    ));
    assert!(print_id(Id::Type { unit_index: 0, type_index: 1 }, None, &f).is_none());
    assert!(is(
        print_id(Id::Variable { unit_index: 0, variable_index: 0 }, None, &f),
        IdTarget::Variable { unit_index: 0, variable_index: 0 }
    ));
    assert!(print_id(Id::Nil, None, &f).is_none());
}

#[test]
fn print_id_function_details() {
    let f = one_of_each();
    let id = Id::Function { unit_index: 0, function_index: 0 };
    assert!(is(
        print_id(id, None, &f),
        IdTarget::Function { unit_index: 0, function_index: 0, code: false }
    ));
    assert!(is(
        print_id(id, Some("code"), &f),
        IdTarget::Function { unit_index: 0, function_index: 0, code: true }
    ));
    assert!(print_id(id, Some("cod"), &f).is_none());
    assert!(print_id(id, Some("source"), &f).is_none());
}

#[test]
fn diff_id_targets() {
    let a = one_of_each();
    let b = one_of_each();
    let unit = Id::Unit { unit_index: 0 };
    match diff_id((unit, unit), None, &a, &b) {
        Some(MergeResult::Both(x, y)) => {
            assert!(x == IdTarget::Unit { unit_index: 0 });
            assert!(y == IdTarget::Unit { unit_index: 0 });
        }
        _ => panic!("expected a pair"),
    }
    match diff_id((unit, Id::Nil), None, &a, &b) {
        Some(MergeResult::Left(x)) => assert!(x == IdTarget::Unit { unit_index: 0 }),
        _ => panic!("expected the first file's unit"),
    }
    match diff_id((Id::Nil, unit), None, &a, &b) {
        Some(MergeResult::Right(y)) => assert!(y == IdTarget::Unit { unit_index: 0 }),
        _ => panic!("expected the second file's unit"),
    }
    let ty = Id::Type { unit_index: 0, type_index: 0 };
    assert!(diff_id((unit, ty), None, &a, &b).is_none());
    assert!(diff_id((Id::Nil, Id::Nil), None, &a, &b).is_none());
    let missing = Id::Unit { unit_index: 5 };
    assert!(diff_id((unit, missing), None, &a, &b).is_none());
    let func = Id::Function { unit_index: 0, function_index: 0 };
    match diff_id((func, func), Some("code"), &a, &b) {
        Some(MergeResult::Both(x, _)) => assert!(
            x == IdTarget::Function { unit_index: 0, function_index: 0, code: true }
        ),
        _ => panic!("expected a pair of functions"),
    }
    assert!(diff_id((func, func), Some("x"), &a, &b).is_none());
}
