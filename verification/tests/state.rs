use ddbug::merge::MergeResult;
use ddbug::print::printer::DiffPrefix;
use ddbug::print::state::{DiffState, PrintState};
use ddbug::print::text::TextPrinter;

fn out(p: TextPrinter) -> String {
    String::from_utf8(p.into_text()).unwrap()
}

#[test]
fn print_state_fields() {
    let mut s = PrintState::new(TextPrinter::new());
    s.field_u64("size", 42);
    s.field("name", b"main");
    s.field("empty", b"");
    s.line(b"plain");
    s.line(b"");
    s.label("members");
    s.line_break();
    assert_eq!(
        out(s.into_printer()),
        "size: 42\nname: main\nplain\nmembers:\n\n"
    );
}

#[test]
fn print_state_collapsed() {
    let mut s = PrintState::new(TextPrinter::new());
    let mut body = s.indent_body();
    body.field_u64("size", 8);
    let header = s.indent_header(body, false);
    assert!(header.not_empty && header.write_header);
    s.line(b"struct S");
    s.indent_end(header.not_empty, true);
    assert_eq!(out(s.into_printer()), "struct S\n\tsize: 8\n");
}

#[test]
fn print_state_optional_empty_body() {
    let mut s = PrintState::new(TextPrinter::new());
    let body = s.indent_body();
    let header = s.indent_header(body, true);
    assert!(!header.not_empty);
    // An optional header is left out when its body is empty.
    assert!(!header.write_header);
    s.indent_end(header.not_empty, true);
    assert_eq!(out(s.into_printer()), "");
}

#[test]
fn print_state_id() {
    let mut s = PrintState::new(TextPrinter::new());
    s.line(b"fn main");
    s.id(12);
    s.field_u64("size", 3);
    s.id_end();
    s.instruction(Some(0x10), "ret", b"");
    assert_eq!(out(s.into_printer()), "fn main\n\tsize: 3\n 10:  ret   \n");
}

#[test]
fn diff_state_equal_field() {
    let mut s = DiffState::new(TextPrinter::new());
    s.field("name", b"main", b"main");
    assert!(!s.has_diff());
    assert_eq!(out(s.into_printer()), "  name: main\n");
}

#[test]
fn diff_state_changed_field() {
    let mut s = DiffState::new(TextPrinter::new());
    s.field("name", b"a", b"b");
    assert!(s.has_diff());
    assert_eq!(out(s.into_printer()), "- name: a\n+ name: b\n");
}

#[test]
fn diff_state_added_and_deleted_field() {
    let mut s = DiffState::new(TextPrinter::new());
    s.field("x", b"", b"new");
    s.field("y", b"old", b"");
    s.field("z", b"", b"");
    assert!(s.has_diff());
    assert_eq!(out(s.into_printer()), "+ x: new\n- y: old\n");
}

#[test]
fn diff_state_field_u64() {
    let mut s = DiffState::new(TextPrinter::new());
    s.field_u64("size", 10, 12);
    s.field_u64("align", 8, 8);
    s.field_u64("count", 5, 3);
    assert_eq!(
        out(s.into_printer()),
        "- size: 10\n+ size: 12 (+2)\n  align: 8\n- count: 5\n+ count: 3 (-2)\n"
    );
}

#[test]
fn diff_state_label_keeps_modify() {
    let mut s = DiffState::new(TextPrinter::new());
    s.a().prefix(DiffPrefix::Modify);
    s.label("members");
    s.line(b"x", b"x");
    s.a().prefix(DiffPrefix::Delete);
    s.label("other");
    assert!(!s.has_diff());
    assert_eq!(out(s.into_printer()), "  members:\n  x\n  other:\n");
}

#[test]
fn diff_state_prefix_delete_and_add() {
    let mut s = DiffState::new(TextPrinter::new());
    s.prefix_delete().line(b"old item");
    s.prefix_add().line(b"new item");
    assert!(s.has_diff());
    assert_eq!(out(s.into_printer()), "- old item\n+ new item\n");
}

#[test]
fn diff_state_print_if_diff() {
    let mut s = DiffState::new(TextPrinter::new());
    let mut part = s.print_if_diff();
    part.field("same", b"1", b"1");
    s.print_if_diff_end(part);
    assert!(!s.has_diff());
    let mut part = s.print_if_diff();
    part.field("same", b"1", b"1");
    part.field("changed", b"1", b"2");
    s.print_if_diff_end(part);
    assert!(s.has_diff());
    assert_eq!(
        out(s.into_printer()),
        "  same: 1\n- changed: 1\n+ changed: 2\n"
    );
}

#[test]
fn diff_state_print_if_diff_unchanged_not_written() {
    let mut s = DiffState::new(TextPrinter::new());
    let mut part = s.print_if_diff();
    part.field("same", b"1", b"1");
    part.field("also", b"2", b"2");
    s.print_if_diff_end(part);
    assert!(!s.has_diff());
    assert_eq!(out(s.into_printer()), "");
}

#[test]
fn diff_state_ignore_diff() {
    let mut s = DiffState::new(TextPrinter::new());
    let saved = s.ignore_diff();
    s.field("x", b"1", b"2");
    s.ignore_diff_end(true, saved);
    assert!(!s.has_diff());
    let saved = s.ignore_diff();
    s.field("x", b"1", b"2");
    s.ignore_diff_end(false, saved);
    assert!(s.has_diff());
}

#[test]
fn diff_state_block() {
    let mut s = DiffState::new(TextPrinter::new());
    let part = s.block();
    s.block_end(part);
    assert!(!s.has_diff());
    let mut part = s.block();
    part.a().line(b"a");
    part.block_second().line(b"b");
    s.block_end(part);
    assert!(s.has_diff());
    assert_eq!(out(s.into_printer()), "- a\n+ b\n");
}

#[test]
fn diff_state_id_with_difference() {
    let mut s = DiffState::new(TextPrinter::new());
    let mut body = s.id_body();
    body.field("x", b"1", b"2");
    let header = s.id_header(body);
    s.line(b"struct S", b"struct S");
    s.id_end(7, header);
    assert!(s.has_diff());
    assert_eq!(
        out(s.into_printer()),
        "  struct S\n- \tx: 1\n+ \tx: 2\n"
    );
}

#[test]
fn diff_state_collapsed_without_difference() {
    let mut s = DiffState::new(TextPrinter::new());
    let mut body = s.indent_body();
    body.field("x", b"1", b"1");
    let header = s.indent_header(body, false);
    assert!(header.not_empty);
    s.line(b"struct S", b"struct S");
    s.indent_end(header, true);
    assert!(!s.has_diff());
    assert_eq!(out(s.into_printer()), "  struct S\n  \tx: 1\n");
}

#[test]
fn diff_state_header_difference_counts() {
    let mut s = DiffState::new(TextPrinter::new());
    let body = s.indent_body();
    let header = s.indent_header(body, false);
    assert!(!header.not_empty);
    assert!(header.write_header);
    s.line(b"a", b"b");
    s.indent_end(header, false);
    assert!(s.has_diff());
    assert_eq!(out(s.into_printer()), "- a\n+ b\n");
}

#[test]
fn print_state_field_detail() {
    let mut s = PrintState::new(TextPrinter::new());
    assert!(!s.field_detail("code", "instructions", true));
    assert!(s.field_detail("code", "instructions", false));
    assert_eq!(out(s.into_printer()), "");
}

#[test]
fn diff_state_sorted_lines_show_differences_only() {
    let list = vec![
        MergeResult::Both((4, 2), (4, 2)),
        MergeResult::Right((3, 1)),
        MergeResult::Both((2, 0), (2, 0)),
        MergeResult::Left((1, 1)),
    ];
    let a = vec![b"x".to_vec(), b"old".to_vec(), b"p".to_vec()];
    let b = vec![b"x".to_vec(), b"new".to_vec(), b"q".to_vec()];
    let mut s = DiffState::new(TextPrinter::new());
    s.print_sorted_lines(&list, &a, &b, false, false);
    assert!(s.has_diff());
    assert_eq!(out(s.into_printer()), "- old\n+ new\n- p\n+ q\n");
    let same = vec![MergeResult::Both((2, 0), (2, 0))];
    let mut s = DiffState::new(TextPrinter::new());
    s.print_sorted_lines(&same, &a, &b, false, false);
    assert!(!s.has_diff());
    assert_eq!(out(s.into_printer()), "");
    let mut s = DiffState::new(TextPrinter::new());
    s.print_sorted_lines(&list, &a, &b, true, true);
    assert_eq!(out(s.into_printer()), "- p\n+ q\n");
}
