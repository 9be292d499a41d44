use ddbug::filter::{
    enumerate_index_functions, enumerate_index_types, enumerate_index_variables, index_function,
    index_type, index_variable, inline_types, Function, Member, Type, TypeKind, Unit, Variable,
};

fn ty(kind: TypeKind, name: Option<&str>, is_anon: bool, offset: Option<u64>) -> Type {
    Type {
        kind,
        name: name.map(|n| n.as_bytes().to_vec()),
        is_anon,
        offset,
        members: Vec::new(),
        key: 0,
    }
}

fn unit_with_types(types: Vec<Type>) -> Unit {
    Unit {
        selected: true,
        key: 0,
        types,
        functions: Vec::new(),
        variables: Vec::new(),
    }
}

#[test]
fn filter_functions_need_code() {
    let f = |is_inline, address, size| Function {
        is_inline,
        address,
        size,
        key: 0,
    };
    assert!(index_function(&f(false, Some(1), Some(2))));
    assert!(!index_function(&f(false, None, Some(2))));
    assert!(!index_function(&f(false, Some(1), None)));
    assert!(index_function(&f(true, None, None)));
}

#[test]
fn filter_variables_need_address_or_declaration() {
    let v = |is_declaration, address| Variable {
        is_declaration,
        address,
        key: 0,
    };
    assert!(index_variable(&v(false, Some(1))));
    assert!(!index_variable(&v(false, None)));
    assert!(index_variable(&v(true, None)));
}

#[test]
fn filter_inline_types() {
    let mut outer = ty(TypeKind::Struct, Some("outer"), false, Some(10));
    outer.members.push(Member {
        is_inline: true,
        type_offset: Some(30),
    });
    outer.members.push(Member {
        is_inline: false,
        type_offset: Some(40),
    });
    let anon = ty(TypeKind::Union, None, true, Some(20));
    let unit = unit_with_types(vec![outer, anon]);
    let set = inline_types(&unit);
    assert!(set.contains(&20));
    assert!(set.contains(&30));
    assert!(!set.contains(&40));
    assert!(!set.contains(&10));
    assert_eq!(set.len(), 2);
}

#[test]
fn filter_index_type_kinds_and_closures() {
    let none = std::collections::HashSet::new();
    assert!(index_type(&ty(TypeKind::Base, None, false, Some(1)), false, &none));
    assert!(!index_type(&ty(TypeKind::Array, None, false, Some(1)), false, &none));
    assert!(!index_type(&ty(TypeKind::Base, None, false, None), false, &none));
    let closure = ty(TypeKind::Struct, Some("closure"), false, Some(1));
    assert!(index_type(&closure, false, &none));
    assert!(!index_type(&closure, true, &none));
    let mut inline = std::collections::HashSet::new();
    inline.insert(1u64);
    assert!(!index_type(&ty(TypeKind::Def, None, false, Some(1)), false, &inline));
}

#[test]
fn filter_enumerates_listed_items() {
    let mut outer = ty(TypeKind::Struct, Some("closure"), false, Some(10));
    outer.members.push(Member {
        is_inline: true,
        type_offset: Some(20),
    });
    let inner = ty(TypeKind::Struct, Some("inner"), false, Some(20));
    let array = ty(TypeKind::Array, None, false, Some(30));
    let mut unit = unit_with_types(vec![outer, inner, array]);
    assert_eq!(enumerate_index_types(&unit, false), vec![0]);
    assert_eq!(enumerate_index_types(&unit, true), Vec::<usize>::new());
    unit.functions = vec![
        Function {
            is_inline: false,
            address: None,
            size: None,
            key: 0,
        },
        Function {
            is_inline: true,
            address: None,
            size: None,
            key: 1,
        },
    ];
    unit.variables = vec![
        Variable {
            is_declaration: false,
            address: Some(8),
            key: 0,
        },
        Variable {
            is_declaration: false,
            address: None,
            key: 1,
        },
    ];
    assert_eq!(enumerate_index_functions(&unit), vec![1]);
    assert_eq!(enumerate_index_variables(&unit), vec![0]);
}
