use ddbug::filter::{File, Unit};
use ddbug::merge::MergeResult;
use ddbug::print::file::{diff, print, FileSummary};
use ddbug::print::state::{DiffState, PrintState};
use ddbug::print::text::TextPrinter;

fn summary(path: &str, size: u64, fn_size: u64, var_size: u64) -> FileSummary {
    FileSummary {
        path: path.as_bytes().to_vec(),
        size,
        fn_size,
        var_size,
        addresses: vec![b"0x0-0x64".to_vec()],
        sections: vec![b".text".to_vec(), b".data".to_vec()],
    }
}

fn units(keys: &[(u64, bool)]) -> File {
    File {
        units: keys
            .iter()
            .map(|&(key, selected)| Unit {
                selected,
                key,
                types: Vec::new(),
                functions: Vec::new(),
                variables: Vec::new(),
            })
            .collect(),
    }
}

fn printed(file: &FileSummary, print_file_address: bool) -> String {
    let mut state = PrintState::new(TextPrinter::new());
    print(&mut state, file, &units(&[]), true, print_file_address);
    String::from_utf8(state.into_printer().into_text()).unwrap()
}

#[test]
fn file_summary_with_addresses() {
    assert_eq!(
        printed(&summary("a.out", 100, 60, 30), true),
        "file a.out\n\taddresses:\n\t\t0x0-0x64\n\tsize: 100\n\tfn size: 60\n\tvar size: 30\n\tother size: 10\n\tsections:\n\t\t.text\n\t\t.data\n\n"
    );
}

#[test]
fn file_summary_sizes_too_large() {
    let mut file = summary("a.out", 100, 80, 30);
    file.sections.clear();
    assert_eq!(
        printed(&file, false),
        "file a.out\n\tsize: 100\n\tfn size: 80\n\tvar size: 30\n\tother size: 0\n\n"
    );
}

fn diffed(a: &FileSummary, b: &FileSummary) -> (String, bool) {
    let mut state = DiffState::new(TextPrinter::new());
    diff(&mut state, a, b, &units(&[]), &units(&[]), true, false, false);
    let found = state.has_diff();
    (String::from_utf8(state.into_printer().into_text()).unwrap(), found)
}

#[test]
fn file_diff_summary_changed() {
    let (text, found) = diffed(&summary("a", 100, 60, 30), &summary("b", 110, 60, 30));
    assert!(found);
    assert_eq!(
        text,
        "- file a\n+ file b\n- \tsize: 100\n+ \tsize: 110 (+10)\n  \tfn size: 60\n  \tvar size: 30\n- \tother size: 10\n+ \tother size: 20 (+10)\n\n"
    );
}

#[test]
fn file_diff_summary_same() {
    let (text, found) = diffed(&summary("a", 100, 60, 30), &summary("a", 100, 60, 30));
    assert!(!found);
    assert_eq!(
        text,
        "  file a\n  \tsize: 100\n  \tfn size: 60\n  \tvar size: 30\n  \tother size: 10\n\n"
    );
}

#[test]
fn file_summary_without_file_category() {
    let mut state = PrintState::new(TextPrinter::new());
    print(&mut state, &summary("a.out", 100, 60, 30), &units(&[]), false, true);
    assert_eq!(String::from_utf8(state.into_printer().into_text()).unwrap(), "");
    // The sizes of this pair would not subtract; without the category nothing is read.
    let mut state = DiffState::new(TextPrinter::new());
    diff(
        &mut state,
        &summary("a", 10, 60, 30),
        &summary("b", 110, 60, 30),
        &units(&[]),
        &units(&[]),
        false,
        false,
        false,
    );
    assert!(!state.has_diff());
    assert_eq!(String::from_utf8(state.into_printer().into_text()).unwrap(), "");
}

#[test]
fn file_print_lists_selected_units_by_key() {
    let mut state = PrintState::new(TextPrinter::new());
    let listed = print(
        &mut state,
        &summary("a.out", 100, 60, 30),
        &units(&[(30, true), (10, true), (20, false), (10, true)]),
        false,
        false,
    );
    assert_eq!(listed, vec![(10, 1), (10, 3), (30, 0)]);
}

#[test]
fn file_diff_lists_merged_units() {
    let mut state = DiffState::new(TextPrinter::new());
    let a = units(&[(30, true), (10, true)]);
    let b = units(&[(20, true), (30, true)]);
    let s = summary("a", 100, 60, 30);
    let listed = diff(&mut state, &s, &s, &a, &b, false, false, false);
    let shape: Vec<String> = listed
        .iter()
        .map(|e| match e {
            MergeResult::Left(x) => format!("-{}", x.1),
            MergeResult::Right(y) => format!("+{}", y.1),
            MergeResult::Both(x, y) => format!("={}{}", x.1, y.1),
        })
        .collect();
    assert_eq!(shape, vec!["-1", "+0", "=01"]);
    let listed = diff(&mut state, &s, &s, &a, &b, false, true, true);
    assert_eq!(listed.len(), 1);
}
