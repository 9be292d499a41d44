use ddbug::filter::{File, Function, Type, TypeKind, Unit, Variable};
use ddbug::index::{Id, Index, Side};
use ddbug::merge::MergeResult;

fn base_type(key: u64, offset: u64) -> Type {
    Type {
        kind: TypeKind::Base,
        name: None,
        is_anon: false,
        offset: Some(offset),
        members: Vec::new(),
        key,
    }
}

fn function(key: u64, address: u64) -> Function {
    Function {
        is_inline: false,
        address: Some(address),
        size: Some(4),
        key,
    }
}

fn variable(key: u64) -> Variable {
    Variable {
        is_declaration: false,
        address: Some(key * 8),
        key,
    }
}

fn unit(key: u64, types: Vec<Type>, functions: Vec<Function>, variables: Vec<Variable>) -> Unit {
    Unit {
        selected: true,
        key,
        types,
        functions,
        variables,
    }
}

fn file(units: Vec<Unit>) -> File {
    File { units }
}

fn single_file() -> File {
    file(vec![
        unit(
            10,
            vec![base_type(1, 100), base_type(2, 200)],
            vec![function(5, 0x1000)],
            Vec::new(),
        ),
        unit(20, Vec::new(), Vec::new(), vec![variable(7)]),
    ])
}

#[test]
fn index_single_file_layout() {
    let f = single_file();
    let index = Index::new(&f);
    assert_eq!(index.get_pair(0), Some((Id::Nil, Id::Nil)));
    assert_eq!(index.get(1), Some(Id::Unit { unit_index: 0 }));
    assert_eq!(index.get(2), Some(Id::Unit { unit_index: 1 }));
    assert_eq!(
        index.get(3),
        Some(Id::Type {
            unit_index: 0,
            type_index: 0
        })
    );
    assert_eq!(
        index.get(4),
        Some(Id::Type {
            unit_index: 0,
            type_index: 1
        })
    );
    assert_eq!(
        index.get(5),
        Some(Id::Function {
            unit_index: 0,
            function_index: 0
        })
    );
    assert_eq!(
        index.get_pair(6),
        Some((
            Id::Variable {
                unit_index: 1,
                variable_index: 0
            },
            Id::Nil
        ))
    );
    assert_eq!(index.get(7), None);
    assert_eq!(index.get_pair(7), None);
}

#[test]
fn index_single_file_parent() {
    let f = single_file();
    let index = Index::new(&f);
    assert_eq!(index.parent(0), None);
    assert_eq!(index.parent(1), None);
    assert_eq!(index.parent(3), Some(1));
    assert_eq!(index.parent(4), Some(1));
    assert_eq!(index.parent(5), Some(1));
    assert_eq!(index.parent(6), Some(2));
    assert_eq!(index.parent(99), None);
}

#[test]
fn index_single_file_lists() {
    let f = single_file();
    let index = Index::new(&f);
    assert_eq!(index.units(&f), vec![0, 1]);
    assert_eq!(index.types(1, &[true, true]), vec![0, 1]);
    assert_eq!(index.types(1, &[false, true]), vec![1]);
    assert_eq!(index.types(1, &[true]), vec![0]);
    assert_eq!(index.functions(1, &[true]), vec![0]);
    assert_eq!(index.variables(1, &[true]), Vec::<usize>::new());
    assert_eq!(index.variables(2, &[true]), vec![0]);
}

#[test]
fn index_skips_unlisted_items() {
    let mut f = single_file();
    // A declaration that was removed from the code is not listed.
    f.units[0].functions.push(Function {
        is_inline: false,
        address: None,
        size: None,
        key: 6,
    });
    // A unit that the filter does not select is not listed.
    f.units[1].selected = false;
    let index = Index::new(&f);
    assert_eq!(index.get(1), Some(Id::Unit { unit_index: 0 }));
    assert_eq!(
        index.get(2),
        Some(Id::Type {
            unit_index: 0,
            type_index: 0
        })
    );
    assert_eq!(
        index.get(4),
        Some(Id::Function {
            unit_index: 0,
            function_index: 0
        })
    );
    assert_eq!(index.get(5), None);
    assert_eq!(index.units(&f), vec![0]);
}

fn diff_files() -> (File, File) {
    let a = file(vec![
        unit(10, vec![base_type(1, 100)], Vec::new(), Vec::new()),
        unit(
            20,
            vec![base_type(1, 100), base_type(3, 300)],
            vec![function(5, 0x1000)],
            Vec::new(),
        ),
    ]);
    let b = file(vec![
        unit(
            20,
            vec![base_type(2, 150), base_type(3, 350)],
            vec![function(5, 0x2000)],
            Vec::new(),
        ),
        unit(30, Vec::new(), Vec::new(), vec![variable(9)]),
    ]);
    (a, b)
}

#[test]
fn index_diff_pairs_units_and_items() {
    let (a, b) = diff_files();
    let index = Index::new_diff(&a, &b);
    assert_eq!(index.get_pair(1), Some((Id::Unit { unit_index: 0 }, Id::Nil)));
    assert_eq!(
        index.get_pair(2),
        Some((Id::Unit { unit_index: 1 }, Id::Unit { unit_index: 0 }))
    );
    assert_eq!(index.get_pair(3), Some((Id::Nil, Id::Unit { unit_index: 1 })));
    // The types of the unit of the first file alone.
    assert_eq!(
        index.get_pair(4),
        Some((
            Id::Type {
                unit_index: 0,
                type_index: 0
            },
            Id::Nil
        ))
    );
    // The types of the unit of both files, merged by key: 1, 2, 3.
    assert_eq!(
        index.get_pair(5),
        Some((
            Id::Type {
                unit_index: 1,
                type_index: 0
            },
            Id::Nil
        ))
    );
    assert_eq!(
        index.get_pair(6),
        Some((
            Id::Nil,
            Id::Type {
                unit_index: 0,
                type_index: 0
            }
        ))
    );
    assert_eq!(
        index.get_pair(7),
        Some((
            Id::Type {
                unit_index: 1,
                type_index: 1
            },
            Id::Type {
                unit_index: 0,
                type_index: 1
            }
        ))
    );
    assert_eq!(
        index.get_pair(8),
        Some((
            Id::Function {
                unit_index: 1,
                function_index: 0
            },
            Id::Function {
                unit_index: 0,
                function_index: 0
            }
        ))
    );
    assert_eq!(
        index.get_pair(9),
        Some((
            Id::Nil,
            Id::Variable {
                unit_index: 1,
                variable_index: 0
            }
        ))
    );
    assert_eq!(index.get_pair(10), None);
    assert_eq!(index.get(6), Some(Id::Nil));
}

#[test]
fn index_diff_parents() {
    let (a, b) = diff_files();
    let index = Index::new_diff(&a, &b);
    assert_eq!(index.parent(4), Some(1));
    assert_eq!(index.parent(5), Some(2));
    assert_eq!(index.parent(6), Some(2));
    assert_eq!(index.parent(7), Some(2));
    assert_eq!(index.parent(8), Some(2));
    assert_eq!(index.parent(9), Some(3));
}

fn merged(v: &[MergeResult<usize, usize>]) -> Vec<(Option<usize>, Option<usize>)> {
    v.iter()
        .map(|m| match m {
            MergeResult::Left(a) => (Some(*a), None),
            MergeResult::Right(b) => (None, Some(*b)),
            MergeResult::Both(a, b) => (Some(*a), Some(*b)),
        })
        .collect()
}

#[test]
fn index_diff_merged_lists() {
    let (a, b) = diff_files();
    let index = Index::new_diff(&a, &b);
    assert_eq!(
        merged(&index.merged_units(&a, &b)),
        vec![(Some(0), None), (Some(1), Some(0)), (None, Some(1))]
    );
    assert_eq!(
        merged(&index.merged_types(2, &[true, true], &[true, true])),
        vec![(Some(0), None), (None, Some(0)), (Some(1), Some(1))]
    );
    // Where only one side of a pair passes the filter, the pair becomes an item of
    // that side alone.
    assert_eq!(
        merged(&index.merged_types(2, &[true, false], &[true, true])),
        vec![(Some(0), None), (None, Some(0)), (None, Some(1))]
    );
    assert_eq!(
        merged(&index.merged_types(2, &[true, true], &[false, false])),
        vec![(Some(0), None), (Some(1), None)]
    );
    assert_eq!(
        merged(&index.merged_functions(2, &[true], &[true])),
        vec![(Some(0), Some(0))]
    );
    assert_eq!(
        merged(&index.merged_variables(3, &[], &[true])),
        vec![(None, Some(0))]
    );
    assert_eq!(merged(&index.merged_types(99, &[true], &[true])), vec![]);
    assert_eq!(index.types(1, &[true]), vec![0]);
    assert_eq!(index.variables(3, &[true]), vec![0]);
}

#[test]
fn index_diff_of_file_with_itself() {
    let (a, _) = diff_files();
    let index = Index::new_diff(&a, &a);
    let mut id = 1;
    while let Some((x, y)) = index.get_pair(id) {
        assert_eq!(x, y);
        assert_ne!(x, Id::Nil);
        id += 1;
    }
    // Two units, their three types and one function.
    assert_eq!(id, 7);
}

#[test]
fn index_diff_sorts_units_and_items_by_key() {
    // The first file lists its units and types out of key order; a diff sorts them.
    let a = file(vec![
        unit(20, vec![base_type(3, 300), base_type(1, 100)], Vec::new(), Vec::new()),
        unit(10, Vec::new(), Vec::new(), Vec::new()),
    ]);
    let b = file(vec![unit(20, vec![base_type(1, 150)], Vec::new(), Vec::new())]);
    let index = Index::new_diff(&a, &b);
    assert_eq!(index.get_pair(1), Some((Id::Unit { unit_index: 1 }, Id::Nil)));
    assert_eq!(
        index.get_pair(2),
        Some((Id::Unit { unit_index: 0 }, Id::Unit { unit_index: 0 }))
    );
    assert_eq!(
        index.get_pair(3),
        Some((
            Id::Type {
                unit_index: 0,
                type_index: 1
            },
            Id::Type {
                unit_index: 0,
                type_index: 0
            }
        ))
    );
    assert_eq!(
        index.get_pair(4),
        Some((
            Id::Type {
                unit_index: 0,
                type_index: 0
            },
            Id::Nil
        ))
    );
    assert_eq!(index.get_pair(5), None);
    // A single file keeps its own order.
    let single = Index::new(&a);
    assert_eq!(single.get(1), Some(Id::Unit { unit_index: 0 }));
    assert_eq!(single.get(2), Some(Id::Unit { unit_index: 1 }));
}

#[test]
fn index_ids_units_then_items_with_parents() {
    let f = single_file();
    let index = Index::new(&f);
    assert_eq!(index.get_pair(0), Some((Id::Nil, Id::Nil)));
    assert!(matches!(index.get(1), Some(Id::Unit { .. })));
    assert!(matches!(index.get(2), Some(Id::Unit { .. })));
    assert!(matches!(index.get(3), Some(Id::Type { .. })));
    assert_eq!(index.parent(1), None);
    assert_eq!(index.parent(2), None);
    assert_eq!(index.parent(3), Some(1));
}

#[test]
fn index_find_leads_back_to_the_item() {
    let f = single_file();
    let index = Index::new(&f);
    let target = Id::Function {
        unit_index: 0,
        function_index: 0,
    };
    let i = index.find(Side::Left, target).unwrap();
    assert_eq!(index.get(i), Some(target));
    assert_eq!(index.parent(i), Some(1));
    assert_eq!(index.find(Side::Left, Id::Unit { unit_index: 1 }), Some(2));
    assert_eq!(
        index.find(
            Side::Left,
            Id::Function {
                unit_index: 1,
                function_index: 0
            }
        ),
        None
    );
}
