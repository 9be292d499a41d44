use ddbug::context::{BloatContext, DiffContext, PrintContext};
use ddbug::filter::{File, Function, Unit};
use ddbug::index::Id;
use ddbug::merge::MergeResult;
use ddbug::print::bloat::{BloatFile, BloatFunction, BloatUnit};
use ddbug::print::file::FileSummary;
use ddbug::print::id::IdTarget;
use ddbug::print::state::{DiffState, PrintState};
use ddbug::print::text::TextPrinter;

fn file(keys: &[u64]) -> File {
    let functions: Vec<Function> = keys
        .iter()
        .map(|&key| Function {
            is_inline: false,
            address: Some(key * 16),
            size: Some(8),
            key,
        })
        .collect();
    File {
        units: vec![Unit {
            selected: true,
            key: 1,
            types: Vec::new(),
            functions,
            variables: Vec::new(),
        }],
    }
}

fn summary(path: &str, size: u64) -> FileSummary {
    FileSummary {
        path: path.as_bytes().to_vec(),
        size,
        fn_size: 16,
        var_size: 0,
        addresses: Vec::new(),
        sections: Vec::new(),
    }
}

#[test]
fn context_print_id_and_parent() {
    let ctx = PrintContext::new(file(&[1, 2]), summary("a", 16));
    assert!(ctx.print_id(1, None) == Some(IdTarget::Unit { unit_index: 0 }));
    assert!(
        ctx.print_id(3, Some("code"))
            == Some(IdTarget::Function {
                unit_index: 0,
                function_index: 1,
                code: true
            })
    );
    assert!(ctx.print_id(0, None).is_none());
    assert!(ctx.print_id(9, None).is_none());
    assert_eq!(ctx.parent(3), Some(1));
    assert_eq!(ctx.parent(1), None);
}

#[test]
fn context_diff_print_id() {
    let ctx = DiffContext::new(file(&[1, 2]), file(&[2, 3]), summary("a", 16), summary("b", 16));
    // Ids: units 1, then functions by key: 1 (first file), 2 (both), 3 (second file).
    match ctx.print_id(3, None) {
        Some(MergeResult::Both(a, b)) => {
            assert!(
                a == IdTarget::Function {
                    unit_index: 0,
                    function_index: 1,
                    code: false
                }
            );
            assert!(
                b == IdTarget::Function {
                    unit_index: 0,
                    function_index: 0,
                    code: false
                }
            );
        }
        _ => panic!("expected a pair of functions"),
    }
    assert!(matches!(ctx.print_id(2, None), Some(MergeResult::Left(_))));
    assert!(matches!(ctx.print_id(4, None), Some(MergeResult::Right(_))));
    assert_eq!(ctx.parent(4), Some(1));
}

#[test]
fn context_bloat() {
    let f = |name: &str, address: u64, calls: Vec<(u64, u64)>| BloatFunction {
        name: name.as_bytes().to_vec(),
        source: Vec::new(),
        size: Some(8),
        address: Some(address),
        calls,
    };
    let bloat_file = BloatFile {
        units: vec![BloatUnit {
            name: b"u.c".to_vec(),
            functions: vec![f("one", 16, vec![(20, 32)]), f("two", 32, Vec::new())],
        }],
    };
    let ctx = BloatContext::new(&file(&[1, 2]), bloat_file);
    let mut state = PrintState::new(TextPrinter::new());
    ctx.print(&mut state);
    assert_eq!(ctx.print_id(3, &mut state), Some(()));
    assert_eq!(ctx.print_id(1, &mut state), None);
    assert_eq!(ctx.parent(2), Some(1));
    assert_eq!(
        String::from_utf8(state.into_printer().into_text()).unwrap(),
        "8 one\n\t8 u.c\n8 two\n\t8 u.c\n\t\tone\none\n"
    );
}

#[test]
fn context_print_summary() {
    let ctx = PrintContext::new(file(&[1]), summary("a.out", 20));
    let mut state = PrintState::new(TextPrinter::new());
    assert_eq!(ctx.print(&mut state, true, false), vec![(1, 0)]);
    ctx.print(&mut state, false, false);
    assert_eq!(
        String::from_utf8(state.into_printer().into_text()).unwrap(),
        "file a.out\n\tsize: 20\n\tfn size: 16\n\tvar size: 0\n\tother size: 4\n\n"
    );
}

#[test]
fn context_diff_print_summary() {
    let ctx = DiffContext::new(file(&[1]), file(&[1]), summary("a", 20), summary("a", 24));
    let mut state = DiffState::new(TextPrinter::new());
    let listed = ctx.print(&mut state, true, false, false);
    assert_eq!(listed.len(), 1);
    assert!(state.has_diff());
    assert_eq!(
        String::from_utf8(state.into_printer().into_text()).unwrap(),
        "  file a\n- \tsize: 20\n+ \tsize: 24 (+4)\n  \tfn size: 16\n  \tvar size: 0\n- \tother size: 4\n+ \tother size: 8 (+4)\n\n"
    );
}
