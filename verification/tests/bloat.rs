use ddbug::filter;
use ddbug::index::Index;
use ddbug::print::bloat::{bloat, bloat_id, BloatFile, BloatFunction, BloatIndex, BloatUnit};
use ddbug::print::state::PrintState;
use ddbug::print::text::TextPrinter;

fn function(
    name: &str,
    source: &str,
    size: Option<u64>,
    address: u64,
    calls: Vec<(u64, u64)>,
) -> BloatFunction {
    BloatFunction {
        name: name.as_bytes().to_vec(),
        source: source.as_bytes().to_vec(),
        size,
        address: Some(address),
        calls,
    }
}

fn bloat_file() -> BloatFile {
    BloatFile {
        units: vec![
            BloatUnit {
                name: b"one.c".to_vec(),
                functions: vec![
                    function("foo", "a.c:1", Some(10), 0x100, vec![(0x104, 0x200)]),
                    function("bar", "", Some(30), 0x200, Vec::new()),
                ],
            },
            BloatUnit {
                name: b"two.c".to_vec(),
                functions: vec![
                    function("foo", "a.c:1", Some(25), 0x300, vec![(0x310, 0x200)]),
                    function("baz", "b.c:2", None, 0x400, vec![(0x404, 0x200)]),
                ],
            },
        ],
    }
}

fn index_file() -> filter::File {
    let f = |address: u64, key: u64| filter::Function {
        is_inline: false,
        address: Some(address),
        size: Some(1),
        key,
    };
    let unit = |key: u64, functions: Vec<filter::Function>| filter::Unit {
        selected: true,
        key,
        types: Vec::new(),
        functions,
        variables: Vec::new(),
    };
    filter::File {
        units: vec![
            unit(1, vec![f(0x100, 1), f(0x200, 2)]),
            unit(2, vec![f(0x300, 3), f(0x400, 4)]),
        ],
    }
}

fn print_bloat(file: &BloatFile, index: &BloatIndex) -> String {
    let mut state = PrintState::new(TextPrinter::new());
    bloat(file, &mut state, index);
    String::from_utf8(state.into_printer().into_text()).unwrap()
}

#[test]
fn bloat_groups_copies_largest_first() {
    let file = bloat_file();
    let ids = Index::new(&index_file());
    let index = BloatIndex::new(&file, &ids);
    assert_eq!(
        print_bloat(&file, &index),
        "35 foo a.c:1\n\t10 one.c\n\t25 two.c\n30 bar\n\t30 one.c\n\t\tfoo a.c:1\n\t\tfoo a.c:1\n"
    );
}

#[test]
fn bloat_orders_equal_sizes_by_name() {
    let file = BloatFile {
        units: vec![BloatUnit {
            name: b"u".to_vec(),
            functions: vec![
                function("zeta", "", Some(8), 0x10, Vec::new()),
                function("alpha", "x", Some(8), 0x20, Vec::new()),
                function("alpha", "", Some(8), 0x30, Vec::new()),
            ],
        }],
    };
    let ids = Index::new(&index_file());
    let index = BloatIndex::new(&file, &ids);
    assert_eq!(
        print_bloat(&file, &index),
        "8 alpha\n\t8 u\n8 alpha x\n\t8 u\n8 zeta\n\t8 u\n"
    );
}

#[test]
fn bloat_empty_file() {
    let file = BloatFile { units: Vec::new() };
    let ids = Index::new(&index_file());
    let index = BloatIndex::new(&file, &ids);
    assert_eq!(print_bloat(&file, &index), "");
}

#[test]
fn bloat_id_prints_callers() {
    let file = bloat_file();
    let ids = Index::new(&index_file());
    let index = BloatIndex::new(&file, &ids);
    // Ids: 0 nothing, 1 and 2 the units, then the functions of each unit.
    let mut state = PrintState::new(TextPrinter::new());
    assert_eq!(bloat_id(4, &file, &mut state, &index), Some(()));
    assert_eq!(
        String::from_utf8(state.into_printer().into_text()).unwrap(),
        "foo a.c:1\nfoo a.c:1\n"
    );
    let mut state = PrintState::new(TextPrinter::new());
    assert_eq!(bloat_id(3, &file, &mut state, &index), Some(()));
    assert_eq!(bloat_id(1, &file, &mut state, &index), None);
    assert_eq!(bloat_id(40, &file, &mut state, &index), None);
    assert_eq!(
        String::from_utf8(state.into_printer().into_text()).unwrap(),
        ""
    );
}
