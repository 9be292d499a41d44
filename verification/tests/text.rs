use ddbug::print::format::{decimal_text, push_hexadecimal, signed_difference_text};
use ddbug::print::printer::{DiffPrefix, Printer, ValuePrinter};
use ddbug::print::text::TextPrinter;

fn text(p: &TextPrinter) -> String {
    String::from_utf8(p.text().to_vec()).unwrap()
}

#[test]
fn text_line_with_label_and_value() {
    let mut p = TextPrinter::new();
    p.line("name", b"foo");
    assert_eq!(text(&p), "name: foo\n");
}

#[test]
fn text_line_without_label() {
    let mut p = TextPrinter::new();
    p.line("", b"foo");
    assert_eq!(text(&p), "foo\n");
}

#[test]
fn text_line_label_only() {
    let mut p = TextPrinter::new();
    p.line("members", b"");
    p.line_break();
    assert_eq!(text(&p), "members:\n\n");
}

#[test]
fn text_prefix_marks() {
    let mut p = TextPrinter::new();
    assert_eq!(p.get_prefix(), DiffPrefix::Nil);
    p.prefix(DiffPrefix::Equal);
    p.line("a", b"1");
    p.prefix(DiffPrefix::Delete);
    p.line("a", b"2");
    p.prefix(DiffPrefix::Add);
    p.line("a", b"3");
    p.prefix(DiffPrefix::Modify);
    assert_eq!(p.get_prefix(), DiffPrefix::Modify);
    p.line("a", b"4");
    assert_eq!(text(&p), "  a: 1\n- a: 2\n+ a: 3\n  a: 4\n");
}

#[test]
fn text_line_diff() {
    let mut p = TextPrinter::new();
    p.line_diff("size", b"1", b"2");
    assert_eq!(text(&p), "- size: 1\n+ size: 2\n");
    assert_eq!(p.get_prefix(), DiffPrefix::Add);
}

#[test]
fn text_indent_id() {
    let mut p = TextPrinter::new();
    p.line("", b"header");
    p.indent_id(3);
    p.line("", b"body");
    p.indent_id(4);
    p.line("", b"deeper");
    p.indent_id_end();
    p.indent_id_end();
    p.line("", b"after");
    assert_eq!(text(&p), "header\n\tbody\n\t\tdeeper\nafter\n");
}

#[test]
fn text_buffered_body() {
    let mut p = TextPrinter::new();
    let mut body = p.indent_body();
    body.line("x", b"1");
    assert!(p.end_buffer(body));
    p.line("", b"header");
    p.indent_header(true);
    assert_eq!(text(&p), "header\n\tx: 1\n");

    let body = p.buffer();
    assert!(!p.end_buffer(body));
    p.write_buf();
    assert_eq!(text(&p), "header\n\tx: 1\n");
}

#[test]
fn text_indent_detail_unsupported() {
    let mut p = TextPrinter::new();
    assert!(!p.indent_detail("code", "instructions"));
    assert_eq!(text(&p), "");
}

#[test]
fn text_instruction_columns() {
    let mut p = TextPrinter::new();
    p.instruction(Some(0x1f), "mov", b"rax, rbx");
    p.instruction(Some(0x12345), "nop", b"");
    p.instruction(None, "", b"x");
    p.instruction(Some(0), "callq", b"f");
    assert_eq!(
        text(&p),
        " 1f:  mov    rax, rbx\n12345:  nop   \n              x\n  0:  callq  f\n"
    );
}

#[test]
fn text_instruction_wide_mnemonic() {
    let mut p = TextPrinter::new();
    p.prefix(DiffPrefix::Delete);
    p.instruction(Some(0xabc), "vpxorqq", b"a");
    assert_eq!(text(&p), "- abc:  vpxorqq a\n");
}

#[test]
fn text_instruction_counts_characters() {
    let mut p = TextPrinter::new();
    p.instruction(None, "é", b"");
    assert_eq!(text(&p), "      é     \n");
}

#[test]
fn value_printer_for_bytes() {
    let mut v: Vec<u8> = Vec::new();
    v.link(5);
    v.name("main");
    v.link_end();
    v.write_bytes(b"()");
    assert_eq!(v, b"main()".to_vec());
}

#[test]
fn format_decimal() {
    assert_eq!(decimal_text(0), b"0".to_vec());
    assert_eq!(decimal_text(7), b"7".to_vec());
    assert_eq!(decimal_text(1234567890), b"1234567890".to_vec());
    assert_eq!(decimal_text(u64::MAX), b"18446744073709551615".to_vec());
}

#[test]
fn format_hexadecimal() {
    let mut v = Vec::new();
    push_hexadecimal(&mut v, 0xdeadbeef);
    assert_eq!(v, b"deadbeef".to_vec());
    let mut v = Vec::new();
    push_hexadecimal(&mut v, 0);
    assert_eq!(v, b"0".to_vec());
}

#[test]
fn format_signed_difference() {
    assert_eq!(signed_difference_text(10, 12), b"+2".to_vec());
    assert_eq!(signed_difference_text(12, 10), b"-2".to_vec());
    assert_eq!(signed_difference_text(5, 5), b"+0".to_vec());
    // Read as signed numbers, u64::MAX is -1.
    assert_eq!(signed_difference_text(0, u64::MAX), b"-1".to_vec());
    assert_eq!(signed_difference_text(u64::MAX, 1), b"+2".to_vec());
}

#[test]
fn register_name_or_number() {
    let mut w: Vec<u8> = Vec::new();
    ddbug::print::register::print(7, Some(b"rsp"), &mut w);
    w.push(b' ');
    ddbug::print::register::print(17, None, &mut w);
    assert_eq!(w, b"rsp r17".to_vec());
}
