//! The state of printing one file, or a diff of two: the rules that decide which lines
//! are written, how they are marked, and whether a diff found a difference.
//!
//! A header with an indented body is printed in steps: the body is rendered first into
//! a state that `indent_body` (or `id_body`) returns, then handed back, then the header
//! is written, then the step that ends the item writes the body if it is not empty.
use vstd::prelude::*;
use vstd::string::*;

use crate::print::format::{as_signed, decimal, push_decimal, signed_decimal, signed_difference_text};
use crate::print::printer::{DiffPrefix, Printer};
use crate::index::Entry;
use crate::merge::MergeResult;
use crate::print::sort::{entry_order, shown, spec_sort, stable_sort_of};
use crate::print::text::{TextPrinter, line_text};

verus! {

/// A line for a value without a label, if the value is not empty.
pub open spec fn value_line(mark: DiffPrefix, indent: nat, value: Seq<u8>) -> Seq<u8> {
    if value.len() == 0 {
        Seq::empty()
    } else {
        line_text(mark, indent, "", value)
    }
}

/// The state of printing one file.
pub struct PrintState {
    printer: TextPrinter,
}

impl PrintState {
    /// The printer.
    pub closed spec fn current(&self) -> TextPrinter {
        self.printer
    }

    pub fn new(printer: TextPrinter) -> (res: PrintState)
        ensures
            res.current() == printer,
    {
        PrintState { printer }
    }

    pub fn into_printer(self) -> (res: TextPrinter)
        ensures
            res == self.current(),
    {
        self.printer
    }

    pub fn line_break(&mut self)
        ensures
            final(self).current().printed(old(self).current(), seq![0x0au8]),
    {
        self.printer.line_break();
    }

    /// A line with a label and no value.
    pub fn label(&mut self, label: &str)
        ensures
            final(self).current().printed(
                old(self).current(),
                line_text(
                    old(self).current().mark(),
                    old(self).current().indent_level(),
                    label,
                    Seq::empty(),
                ),
            ),
    {
        let empty: [u8; 0] = [];
        self.printer.line(label, empty.as_slice());
        assert(empty@ =~= Seq::<u8>::empty());
    }

    /// A line for a value, if the value is not empty.
    fn line_impl(&mut self, label: &str, buf: &[u8])
        ensures
            final(self).current().printed(
                old(self).current(),
                if buf@.len() == 0 {
                    Seq::empty()
                } else {
                    line_text(
                        old(self).current().mark(),
                        old(self).current().indent_level(),
                        label,
                        buf@,
                    )
                },
            ),
    {
        if !buf.is_empty() {
            self.printer.line(label, buf);
        } else {
            assert(self.printer.output() =~= old(self).printer.output() + Seq::<u8>::empty());
        }
    }

    /// A line for a value without a label, if the value is not empty.
    pub fn line(&mut self, buf: &[u8])
        ensures
            final(self).current().printed(
                old(self).current(),
                if buf@.len() == 0 {
                    Seq::empty()
                } else {
                    line_text(
                        old(self).current().mark(),
                        old(self).current().indent_level(),
                        "",
                        buf@,
                    )
                },
            ),
    {
        self.line_impl("", buf)
    }

    /// A line for a labelled value, if the value is not empty.
    pub fn field(&mut self, label: &str, buf: &[u8])
        ensures
            final(self).current().printed(
                old(self).current(),
                if buf@.len() == 0 {
                    Seq::empty()
                } else {
                    line_text(
                        old(self).current().mark(),
                        old(self).current().indent_level(),
                        label,
                        buf@,
                    )
                },
            ),
    {
        self.line_impl(label, buf)
    }

    /// A line for a labelled number, in decimal.
    pub fn field_u64(&mut self, label: &str, arg: u64)
        ensures
            final(self).current().printed(
                old(self).current(),
                line_text(
                    old(self).current().mark(),
                    old(self).current().indent_level(),
                    label,
                    decimal(arg as nat),
                ),
            ),
    {
        let mut buf: Vec<u8> = Vec::new();
        push_decimal(&mut buf, arg);
        assert(buf@ =~= decimal(arg as nat));
        proof {
            crate::print::format::lemma_digits_len(arg as nat, 10);
        }
        self.line_impl(label, buf.as_slice());
    }

    pub fn instruction(&mut self, address: Option<u64>, mnemonic: &str, buf: &[u8])
        ensures
            final(self).current().printed(
                old(self).current(),
                crate::print::text::instruction_text(
                    old(self).current().mark(),
                    old(self).current().indent_level(),
                    address,
                    mnemonic,
                    buf@,
                ),
            ),
    {
        self.printer.instruction(address, mnemonic, buf);
    }

    /// Marks the lines that follow.
    pub fn prefix(&mut self, prefix: DiffPrefix)
        ensures
            final(self).current().output() == old(self).current().output(),
            final(self).current().buffered() == old(self).current().buffered(),
            final(self).current().indent_level() == old(self).current().indent_level(),
            final(self).current().mark() == prefix,
    {
        self.printer.prefix(prefix);
    }

    /// Begins the indented body of a header: the state to render the body into.
    pub fn indent_body(&mut self) -> (body: PrintState)
        requires
            old(self).current().indent_level() < usize::MAX,
        ensures
            final(self).current().output() == old(self).current().output(),
            final(self).current().buffered() == Seq::<u8>::empty(),
            final(self).current().indent_level() == old(self).current().indent_level(),
            final(self).current().mark() == old(self).current().mark(),
            body.current().output() == Seq::<u8>::empty(),
            body.current().buffered() == Seq::<u8>::empty(),
            body.current().indent_level() == old(self).current().indent_level() + 1,
            body.current().mark() == old(self).current().mark(),
    {
        PrintState { printer: self.printer.indent_body() }
    }

    /// Takes back the rendered body. The header is to be written next if the body is not
    /// empty, or if the header is not optional.
    pub fn indent_header(&mut self, body: PrintState, optional: bool) -> (res: IndentState)
        ensures
            final(self).current().output() == old(self).current().output(),
            final(self).current().buffered() == body.current().output(),
            final(self).current().indent_level() == old(self).current().indent_level(),
            final(self).current().mark() == old(self).current().mark(),
            res.not_empty == (body.current().output().len() > 0),
            res.write_header == (res.not_empty || !optional),
    {
        let not_empty = self.printer.end_buffer(body.printer);
        IndentState { not_empty, write_header: not_empty || !optional }
    }

    /// Ends a header with an indented body: writes the body if it is not empty.
    pub fn indent_end(&mut self, not_empty: bool, collapsed: bool)
        ensures
            final(self).current().printed(
                old(self).current(),
                if not_empty {
                    old(self).current().buffered()
                } else {
                    Seq::empty()
                },
            ),
    {
        if not_empty {
            self.printer.indent_header(collapsed);
        } else {
            assert(self.printer.output() =~= old(self).printer.output() + Seq::<u8>::empty());
        }
    }

    /// Begins a labelled block of detail information. Where the output is served over
    /// HTTP the printer prints a reference to the detail in its place, if it can: then
    /// the block is done and false is returned. Otherwise true is returned and the block
    /// is to be printed as an optional, collapsed field, which `indent_body` begins.
    pub fn field_detail(&mut self, detail: &str, label: &str, http: bool) -> (res: bool)
        ensures
            res == !http,
            *final(self) == *old(self),
    {
        if http {
            self.printer.indent_detail(detail, label);
            false
        } else {
            true
        }
    }

    /// Enters the body of the item with id `id`, after its header.
    pub fn id(&mut self, id: usize)
        requires
            old(self).current().indent_level() < usize::MAX,
        ensures
            final(self).current().output() == old(self).current().output(),
            final(self).current().buffered() == old(self).current().buffered(),
            final(self).current().indent_level() == old(self).current().indent_level() + 1,
            final(self).current().mark() == old(self).current().mark(),
    {
        self.printer.indent_id(id);
    }

    /// Leaves the body of an item.
    pub fn id_end(&mut self)
        requires
            old(self).current().indent_level() > 0,
        ensures
            final(self).current().output() == old(self).current().output(),
            final(self).current().buffered() == old(self).current().buffered(),
            final(self).current().indent_level() == old(self).current().indent_level() - 1,
            final(self).current().mark() == old(self).current().mark(),
    {
        self.printer.indent_id_end();
    }
}

/// What a header needs to know of the body rendered before it.
pub struct IndentState {
    /// The body wrote something.
    pub not_empty: bool,
    /// The header is to be written.
    pub write_header: bool,
}

/// What a header of a diff needs to know of the body rendered before it.
pub struct HeaderState {
    /// The body wrote something.
    pub not_empty: bool,
    /// The header is to be written.
    pub write_header: bool,
    /// The body found a difference.
    pub body_diff: bool,
    /// Whether a difference had been found before the item.
    pub saved_diff: bool,
}

/// The state of printing the diff of two files.
pub struct DiffState {
    state: PrintState,
    // True if DiffPrefix::Delete or DiffPrefix::Add was printed.
    diff: bool,
}

/// The mark of a line of equal values: `Modify` stays, anything else becomes `Equal`.
pub open spec fn equal_mark(prefix: DiffPrefix) -> DiffPrefix {
    if prefix == DiffPrefix::Modify {
        DiffPrefix::Modify
    } else {
        DiffPrefix::Equal
    }
}

/// The lines that a diff writes for a value whose text is `a` in the first file and `b`
/// in the second: nothing if both are empty; one line, marked as equal, if they are the
/// same; else one line added, one line deleted, or a deleted and an added line.
pub open spec fn diff_line_text(prefix: DiffPrefix, indent: nat, label: &str, a: Seq<u8>, b: Seq<u8>) -> Seq<u8> {
    if a == b {
        if a.len() == 0 {
            Seq::empty()
        } else {
            line_text(equal_mark(prefix), indent, label, a)
        }
    } else if a.len() == 0 {
        line_text(DiffPrefix::Add, indent, label, b)
    } else if b.len() == 0 {
        line_text(DiffPrefix::Delete, indent, label, a)
    } else {
        line_text(DiffPrefix::Delete, indent, label, a) + line_text(DiffPrefix::Add, indent, label, b)
    }
}

/// The mark that remains after the lines of `diff_line_text`.
pub open spec fn diff_line_mark(prefix: DiffPrefix, a: Seq<u8>, b: Seq<u8>) -> DiffPrefix {
    if a == b {
        if a.len() == 0 {
            prefix
        } else {
            equal_mark(prefix)
        }
    } else if a.len() == 0 {
        DiffPrefix::Add
    } else if b.len() == 0 {
        DiffPrefix::Delete
    } else {
        DiffPrefix::Add
    }
}

/// The text of a number of the second file in a diff: the number, and if it differs from
/// the number `base` of the first file, the change in parentheses with its sign.
pub open spec fn diff_u64_text(arg: u64, base: u64) -> Seq<u8> {
    decimal(arg as nat) + if arg != base {
        seq![0x20u8, 0x28u8] + signed_decimal(as_signed(arg) - as_signed(base)) + seq![0x29u8]
    } else {
        Seq::empty()
    }
}

fn bytes_equal(a: &[u8], b: &[u8]) -> (res: bool)
    ensures
        res == (a@ == b@),
{
    if a.len() != b.len() {
        return false;
    }
    let mut i: usize = 0;
    while i < a.len()
        invariant
            a@.len() == b@.len(),
            0 <= i <= a@.len(),
            forall|j: int| 0 <= j < i ==> a@[j] == b@[j],
        decreases a@.len() - i,
    {
        if a[i] != b[i] {
            return false;
        }
        i = i + 1;
    }
    assert(a@ =~= b@);
    true
}

impl DiffState {
    /// The printer.
    pub closed spec fn current(&self) -> TextPrinter {
        self.state.current()
    }

    /// A difference has been found.
    pub closed spec fn found(&self) -> bool {
        self.diff
    }

    pub fn new(printer: TextPrinter) -> (res: DiffState)
        ensures
            res.current() == printer,
            !res.found(),
    {
        DiffState { state: PrintState::new(printer), diff: false }
    }

    pub fn into_printer(self) -> (res: TextPrinter)
        ensures
            res == self.current(),
    {
        self.state.into_printer()
    }

    /// Whether a difference has been found.
    pub fn has_diff(&self) -> (res: bool)
        ensures
            res == self.found(),
    {
        self.diff
    }

    /// The state for printing an item of the first file.
    pub fn a(&mut self) -> (res: &mut PrintState)
        ensures
            res.current() == old(self).current(),
            final(self).current() == final(res).current(),
            final(self).found() == old(self).found(),
    {
        &mut self.state
    }

    /// The state for printing an item of the second file.
    pub fn b(&mut self) -> (res: &mut PrintState)
        ensures
            res.current() == old(self).current(),
            final(self).current() == final(res).current(),
            final(self).found() == old(self).found(),
    {
        &mut self.state
    }

    pub fn line_break(&mut self)
        ensures
            final(self).current().printed(old(self).current(), seq![0x0au8]),
            final(self).found() == old(self).found(),
    {
        self.state.line_break();
    }

    /// A line with a label and no value, marked as equal unless it is marked as modified.
    pub fn label(&mut self, label: &str)
        ensures
            final(self).current().output() == old(self).current().output() + line_text(
                equal_mark(old(self).current().mark()),
                old(self).current().indent_level(),
                label,
                Seq::empty(),
            ),
            final(self).current().buffered() == old(self).current().buffered(),
            final(self).current().indent_level() == old(self).current().indent_level(),
            final(self).current().mark() == equal_mark(old(self).current().mark()),
            final(self).found() == old(self).found(),
    {
        if self.state.printer.get_prefix() != DiffPrefix::Modify {
            self.state.prefix(DiffPrefix::Equal);
        }
        self.state.label(label);
    }

    /// The lines for a value whose text is `a` in the first file and `b` in the second;
    /// a difference is found if they differ.
    fn line_impl(&mut self, label: &str, a: &[u8], b: &[u8])
        ensures
            final(self).current().output() == old(self).current().output() + diff_line_text(
                old(self).current().mark(),
                old(self).current().indent_level(),
                label,
                a@,
                b@,
            ),
            final(self).current().buffered() == old(self).current().buffered(),
            final(self).current().indent_level() == old(self).current().indent_level(),
            final(self).current().mark() == diff_line_mark(old(self).current().mark(), a@, b@),
            final(self).found() == (old(self).found() || a@ != b@),
    {
        if bytes_equal(a, b) {
            if !a.is_empty() {
                if self.state.printer.get_prefix() != DiffPrefix::Modify {
                    self.state.prefix(DiffPrefix::Equal);
                }
                self.state.printer.line(label, a);
            } else {
                assert(self.current().output() =~= old(self).current().output() + Seq::<u8>::empty());
            }
        } else {
            if a.is_empty() {
                self.state.prefix(DiffPrefix::Add);
                self.state.printer.line(label, b);
            } else if b.is_empty() {
                self.state.prefix(DiffPrefix::Delete);
                self.state.printer.line(label, a);
            } else {
                self.state.printer.line_diff(label, a, b);
            }
            self.diff = true;
        }
    }

    /// The lines for a value without a label; see `field`.
    pub fn line(&mut self, a: &[u8], b: &[u8])
        ensures
            final(self).current().output() == old(self).current().output() + diff_line_text(
                old(self).current().mark(),
                old(self).current().indent_level(),
                "",
                a@,
                b@,
            ),
            final(self).current().buffered() == old(self).current().buffered(),
            final(self).current().indent_level() == old(self).current().indent_level(),
            final(self).current().mark() == diff_line_mark(old(self).current().mark(), a@, b@),
            final(self).found() == (old(self).found() || a@ != b@),
    {
        self.line_impl("", a, b)
    }

    /// The lines for a labelled value whose text is `a` in the first file and `b` in the
    /// second: nothing if both are empty, one line if they are equal, else the lines
    /// that mark what was deleted and what was added.
    pub fn field(&mut self, label: &str, a: &[u8], b: &[u8])
        ensures
            final(self).current().output() == old(self).current().output() + diff_line_text(
                old(self).current().mark(),
                old(self).current().indent_level(),
                label,
                a@,
                b@,
            ),
            final(self).current().buffered() == old(self).current().buffered(),
            final(self).current().indent_level() == old(self).current().indent_level(),
            final(self).current().mark() == diff_line_mark(old(self).current().mark(), a@, b@),
            final(self).found() == (old(self).found() || a@ != b@),
    {
        self.line_impl(label, a, b)
    }

    /// The lines for a labelled number of each file; the number of the second file is
    /// followed by its change from the first where they differ.
    pub fn field_u64(&mut self, label: &str, arg_a: u64, arg_b: u64)
        requires
            i64::MIN <= as_signed(arg_b) - as_signed(arg_a) <= i64::MAX,
        ensures
            final(self).current().output() == old(self).current().output() + diff_line_text(
                old(self).current().mark(),
                old(self).current().indent_level(),
                label,
                decimal(arg_a as nat),
                diff_u64_text(arg_b, arg_a),
            ),
            final(self).current().buffered() == old(self).current().buffered(),
            final(self).current().indent_level() == old(self).current().indent_level(),
            final(self).current().mark() == diff_line_mark(
                old(self).current().mark(),
                decimal(arg_a as nat),
                diff_u64_text(arg_b, arg_a),
            ),
            final(self).found() == (old(self).found() || decimal(arg_a as nat) != diff_u64_text(
                arg_b,
                arg_a,
            )),
    {
        let base = arg_a;
        let mut a: Vec<u8> = Vec::new();
        push_decimal(&mut a, arg_a);
        assert(a@ =~= diff_u64_text(arg_a, base));
        let mut b: Vec<u8> = Vec::new();
        push_decimal(&mut b, arg_b);
        if arg_b != base {
            b.push(0x20);
            b.push(0x28);
            let d = signed_difference_text(base, arg_b);
            crate::print::format::push_bytes(&mut b, d.as_slice());
            b.push(0x29);
        }
        assert(b@ =~= diff_u64_text(arg_b, arg_a));
        self.line_impl(label, a.as_slice(), b.as_slice());
    }

    /// Marks what follows as deleted, for an item of the first file alone; a difference
    /// is found. Returns the state to print the item with.
    pub fn prefix_delete(&mut self) -> (res: &mut PrintState)
        ensures
            res.current().output() == old(self).current().output(),
            res.current().buffered() == old(self).current().buffered(),
            res.current().indent_level() == old(self).current().indent_level(),
            res.current().mark() == DiffPrefix::Delete,
            final(self).current() == final(res).current(),
            final(self).found(),
    {
        self.state.prefix(DiffPrefix::Delete);
        // Assume something is always written.
        self.diff = true;
        &mut self.state
    }

    /// Marks what follows as added, for an item of the second file alone; a difference
    /// is found. Returns the state to print the item with.
    pub fn prefix_add(&mut self) -> (res: &mut PrintState)
        ensures
            res.current().output() == old(self).current().output(),
            res.current().buffered() == old(self).current().buffered(),
            res.current().indent_level() == old(self).current().indent_level(),
            res.current().mark() == DiffPrefix::Add,
            final(self).current() == final(res).current(),
            final(self).found(),
    {
        self.state.prefix(DiffPrefix::Add);
        // Assume something is always written.
        self.diff = true;
        &mut self.state
    }

    /// Begins a part whose differences are not to count when `flag` holds: returns
    /// whether a difference had been found before it.
    pub fn ignore_diff(&self) -> (saved: bool)
        ensures
            saved == self.found(),
    {
        self.diff
    }

    /// Ends a part begun with `ignore_diff`: where `flag` holds, what it found is forgotten.
    pub fn ignore_diff_end(&mut self, flag: bool, saved: bool)
        ensures
            final(self).current() == old(self).current(),
            final(self).found() == if flag {
                saved
            } else {
                old(self).found()
            },
    {
        if flag {
            self.diff = saved;
        }
    }

    /// Begins output that is to be written only if it shows a difference: the state to
    /// render it into.
    pub fn print_if_diff(&mut self) -> (part: DiffState)
        ensures
            final(self).current().output() == old(self).current().output(),
            final(self).current().buffered() == Seq::<u8>::empty(),
            final(self).current().indent_level() == old(self).current().indent_level(),
            final(self).current().mark() == old(self).current().mark(),
            final(self).found() == old(self).found(),
            part.current().output() == Seq::<u8>::empty(),
            part.current().indent_level() == old(self).current().indent_level(),
            part.current().mark() == old(self).current().mark(),
            !part.found(),
    {
        let printer = self.state.printer.buffer();
        DiffState { state: PrintState { printer }, diff: false }
    }

    /// Ends output begun with `print_if_diff`: it is written only if it shows a difference.
    pub fn print_if_diff_end(&mut self, part: DiffState)
        ensures
            final(self).current().output() == old(self).current().output() + if part.found() {
                part.current().output()
            } else {
                Seq::empty()
            },
            final(self).current().buffered() == part.current().output(),
            final(self).current().indent_level() == old(self).current().indent_level(),
            final(self).current().mark() == old(self).current().mark(),
            final(self).found() == (old(self).found() || part.found()),
    {
        let diff = part.diff;
        self.state.printer.end_buffer(part.state.printer);
        self.diff = self.diff || diff;
        if diff {
            self.state.printer.write_buf();
        } else {
            assert(self.current().output() =~= old(self).current().output() + Seq::<u8>::empty());
        }
    }

    /// Begins a block that always differs but may be empty: the state to render it into.
    /// The item of the first file is rendered first, into lines marked as deleted; then
    /// `block_second` marks the lines of the item of the second file as added.
    pub fn block(&mut self) -> (part: DiffState)
        ensures
            final(self).current().output() == old(self).current().output(),
            final(self).current().buffered() == Seq::<u8>::empty(),
            final(self).current().indent_level() == old(self).current().indent_level(),
            final(self).current().mark() == old(self).current().mark(),
            final(self).found() == old(self).found(),
            part.current().output() == Seq::<u8>::empty(),
            part.current().indent_level() == old(self).current().indent_level(),
            part.current().mark() == DiffPrefix::Delete,
            !part.found(),
    {
        let mut part = self.print_if_diff();
        part.state.prefix(DiffPrefix::Delete);
        part
    }

    /// Within a block, after the item of the first file: the state to render the item of
    /// the second file with, its lines marked as added.
    pub fn block_second(&mut self) -> (res: &mut PrintState)
        ensures
            res.current().output() == old(self).current().output(),
            res.current().buffered() == old(self).current().buffered(),
            res.current().indent_level() == old(self).current().indent_level(),
            res.current().mark() == DiffPrefix::Add,
            final(self).current() == final(res).current(),
            final(self).found() == old(self).found(),
    {
        self.state.prefix(DiffPrefix::Add);
        &mut self.state
    }

    /// Ends a block: if it is not empty it is written and a difference is found.
    pub fn block_end(&mut self, part: DiffState)
        ensures
            final(self).current().output() == old(self).current().output() + part.current().output(),
            final(self).current().buffered() == part.current().output(),
            final(self).current().indent_level() == old(self).current().indent_level(),
            final(self).current().mark() == old(self).current().mark(),
            final(self).found() == (old(self).found() || part.current().output().len() > 0),
    {
        let not_empty = self.state.printer.end_buffer(part.state.printer);
        if not_empty {
            self.state.printer.write_buf();
            self.diff = true;
        } else {
            assert(self.current().output() =~= old(self).current().output() + part.current().output());
        }
    }

    /// Begins the indented body of a header: the state to render the body into, whose
    /// lines are marked as equal until they differ.
    pub fn indent_body(&mut self) -> (body: DiffState)
        requires
            old(self).current().indent_level() < usize::MAX,
        ensures
            final(self).current().output() == old(self).current().output(),
            final(self).current().buffered() == Seq::<u8>::empty(),
            final(self).current().indent_level() == old(self).current().indent_level(),
            final(self).current().mark() == old(self).current().mark(),
            final(self).found() == old(self).found(),
            body.current().output() == Seq::<u8>::empty(),
            body.current().buffered() == Seq::<u8>::empty(),
            body.current().indent_level() == old(self).current().indent_level() + 1,
            body.current().mark() == DiffPrefix::Equal,
            !body.found(),
    {
        let mut printer = self.state.printer.indent_body();
        printer.prefix(DiffPrefix::Equal);
        DiffState { state: PrintState { printer }, diff: false }
    }

    /// Takes back the rendered body of a header. If the body is not empty, the header is
    /// marked as modified where the body differs and as equal where it does not. What the
    /// header is to find starts afresh. The header is to be written next if the body is
    /// not empty or the header is not optional.
    pub fn indent_header(&mut self, body: DiffState, optional: bool) -> (res: HeaderState)
        ensures
            res.not_empty == (body.current().output().len() > 0),
            res.write_header == (res.not_empty || !optional),
            res.body_diff == body.found(),
            res.saved_diff == old(self).found(),
            !final(self).found(),
            final(self).current().output() == old(self).current().output(),
            final(self).current().buffered() == body.current().output(),
            final(self).current().indent_level() == old(self).current().indent_level(),
            final(self).current().mark() == if res.not_empty {
                if body.found() {
                    DiffPrefix::Modify
                } else {
                    DiffPrefix::Equal
                }
            } else {
                old(self).current().mark()
            },
    {
        let body_diff = body.diff;
        let not_empty = self.state.printer.end_buffer(body.state.printer);
        if not_empty {
            if body_diff {
                self.state.prefix(DiffPrefix::Modify);
            } else {
                self.state.prefix(DiffPrefix::Equal);
            }
        }
        let saved_diff = self.diff;
        self.diff = false;
        HeaderState { not_empty, write_header: not_empty || !optional, body_diff, saved_diff }
    }

    /// Ends a header with an indented body: writes the body if it is not empty. A
    /// difference has been found if one had been before, or the header found one, or the
    /// body was written and found one.
    pub fn indent_end(&mut self, header: HeaderState, collapsed: bool)
        ensures
            final(self).current().printed(
                old(self).current(),
                if header.not_empty {
                    old(self).current().buffered()
                } else {
                    Seq::empty()
                },
            ),
            final(self).found() == (header.saved_diff || old(self).found() || (header.not_empty
                && header.body_diff)),
    {
        if header.not_empty {
            self.state.printer.indent_header(collapsed);
        } else {
            assert(self.current().output() =~= old(self).current().output() + Seq::<u8>::empty());
        }
        self.diff = header.saved_diff || self.diff || (header.not_empty && header.body_diff);
    }

    /// Begins the body of the item with id `id`: the state to render the body into.
    pub fn id_body(&mut self) -> (body: DiffState)
        requires
            old(self).current().indent_level() < usize::MAX,
        ensures
            final(self).current().output() == old(self).current().output(),
            final(self).current().buffered() == Seq::<u8>::empty(),
            final(self).current().indent_level() == old(self).current().indent_level(),
            final(self).current().mark() == old(self).current().mark(),
            final(self).found() == old(self).found(),
            body.current().output() == Seq::<u8>::empty(),
            body.current().buffered() == Seq::<u8>::empty(),
            body.current().indent_level() == old(self).current().indent_level() + 1,
            body.current().mark() == DiffPrefix::Equal,
            !body.found(),
    {
        self.indent_body()
    }

    /// Takes back the rendered body of an item: the header, to be written next, is
    /// marked as modified where the body differs and as equal where it does not.
    pub fn id_header(&mut self, body: DiffState) -> (res: HeaderState)
        ensures
            res.not_empty == (body.current().output().len() > 0),
            res.write_header,
            res.body_diff == body.found(),
            res.saved_diff == old(self).found(),
            !final(self).found(),
            final(self).current().output() == old(self).current().output(),
            final(self).current().buffered() == body.current().output(),
            final(self).current().indent_level() == old(self).current().indent_level(),
            final(self).current().mark() == if body.found() {
                DiffPrefix::Modify
            } else {
                DiffPrefix::Equal
            },
    {
        let body_diff = body.diff;
        let not_empty = self.state.printer.end_buffer(body.state.printer);
        if body_diff {
            self.state.prefix(DiffPrefix::Modify);
        } else {
            self.state.prefix(DiffPrefix::Equal);
        }
        let saved_diff = self.diff;
        self.diff = false;
        HeaderState { not_empty, write_header: true, body_diff, saved_diff }
    }

    /// Ends the item with id `id` after its header: writes its body. A difference has
    /// been found if one had been before, or the header or the body found one.
    pub fn id_end(&mut self, id: usize, header: HeaderState)
        requires
            old(self).current().indent_level() < usize::MAX,
        ensures
            final(self).current().printed(old(self).current(), old(self).current().buffered()),
            final(self).found() == (header.saved_diff || old(self).found() || header.body_diff),
    {
        self.state.printer.indent_id(id);
        self.state.printer.write_buf();
        self.state.printer.indent_id_end();
        self.diff = header.saved_diff || self.diff || header.body_diff;
    }
}

impl PrintState {
    /// The items of a list, sorted by their keys, keeping items with equal keys in order.
    pub fn sort_list(list: &Vec<(u64, usize)>) -> (res: Vec<(u64, usize)>)
        ensures
            stable_sort_of(res@, list@, crate::index::key_of()),
            res@ == crate::index::sort_keyed(list@),
    {
        crate::print::sort::stable_sort(list, crate::print::sort::item_after, Ghost(crate::index::key_of()))
    }
}

impl DiffState {
    /// The entries that a diff of a sorted list shows, in the order in which it shows them:
    /// sorted by key, keeping entries with equal keys in order; deleted items only unless
    /// `ignore_deleted`, added items only unless `ignore_added`. Each pair is shown between
    /// `print_if_diff` and `print_if_diff_end`, so that it is written only where the two
    /// items differ; an item of the first file alone after `prefix_delete`, one of the
    /// second alone after `prefix_add`.
    pub fn sort_list(list: &Vec<Entry>, ignore_deleted: bool, ignore_added: bool) -> (res: Vec<Entry>)
        ensures
            stable_sort_of(res@, list@.filter(shown(ignore_deleted, ignore_added)), entry_order()),
            res@ == spec_sort(list@.filter(shown(ignore_deleted, ignore_added)), entry_order()),
    {
        let mut kept: Vec<Entry> = Vec::new();
        let mut i: usize = 0;
        let ghost pred = shown(ignore_deleted, ignore_added);
        assert(list@.take(0).filter(pred) =~= Seq::<Entry>::empty());
        while i < list.len()
            invariant
                0 <= i <= list@.len(),
                pred == shown(ignore_deleted, ignore_added),
                kept@ == list@.take(i as int).filter(pred),
            decreases list@.len() - i,
        {
            let e = list[i];
            let show = match e {
                MergeResult::Both(..) => true,
                MergeResult::Left(..) => !ignore_deleted,
                MergeResult::Right(..) => !ignore_added,
            };
            if show {
                kept.push(e);
            }
            proof {
                assert(list@.take(i + 1) =~= list@.take(i as int).push(e));
                list@.take(i as int).lemma_filter_push(e, pred);
            }
            i = i + 1;
        }
        assert(list@.take(list@.len() as int) =~= list@);
        crate::print::sort::stable_sort(&kept, crate::print::sort::sorts_after, Ghost(entry_order()))
    }
}

/// Each entry names a line of its side: items of the first file index `la`, items of the
/// second index `lb`.
pub open spec fn entries_in(es: Seq<Entry>, na: nat, nb: nat) -> bool {
    forall|i: int|
        0 <= i < es.len() ==> match #[trigger] es[i] {
            MergeResult::Left(a) => a.1 < na,
            MergeResult::Right(b) => b.1 < nb,
            MergeResult::Both(a, b) => a.1 < na && b.1 < nb,
        }
}

/// An entry shows a difference: an item of one file alone, or a pair whose lines differ.
pub open spec fn entry_differs(e: Entry, la: Seq<Vec<u8>>, lb: Seq<Vec<u8>>) -> bool {
    match e {
        MergeResult::Both(a, b) => la[a.1 as int]@ != lb[b.1 as int]@,
        _ => true,
    }
}

/// Some entry shows a difference.
pub open spec fn entries_differ(es: Seq<Entry>, la: Seq<Vec<u8>>, lb: Seq<Vec<u8>>) -> bool
    decreases es.len(),
{
    es.len() > 0 && (entries_differ(es.drop_last(), la, lb) || entry_differs(es.last(), la, lb))
}

/// What a diff writes for entries whose items are lines (`la` for the first file, `lb`
/// for the second), in order, from mark `mark`: a pair only where its lines differ, as
/// the deleted line and the added one; an item of the first file alone as a deleted
/// line; one of the second alone as an added line. With the text comes the mark that
/// follows it.
pub open spec fn sorted_lines(
    es: Seq<Entry>,
    la: Seq<Vec<u8>>,
    lb: Seq<Vec<u8>>,
    mark: DiffPrefix,
    indent: nat,
) -> (Seq<u8>, DiffPrefix)
    decreases es.len(),
{
    if es.len() == 0 {
        (Seq::empty(), mark)
    } else {
        let r = sorted_lines(es.drop_last(), la, lb, mark, indent);
        match es.last() {
            MergeResult::Both(a, b) => (
                r.0 + if la[a.1 as int]@ != lb[b.1 as int]@ {
                    diff_line_text(r.1, indent, "", la[a.1 as int]@, lb[b.1 as int]@)
                } else {
                    Seq::empty()
                },
                r.1,
            ),
            MergeResult::Left(a) => (r.0 + value_line(DiffPrefix::Delete, indent, la[a.1 as int]@), DiffPrefix::Delete),
            MergeResult::Right(b) => (r.0 + value_line(DiffPrefix::Add, indent, lb[b.1 as int]@), DiffPrefix::Add),
        }
    }
}

/// Sorting the shown entries keeps them entries of the list.
proof fn lemma_sorted_entries_in(list: Seq<Entry>, pred: spec_fn(Entry) -> bool, na: nat, nb: nat)
    requires
        entries_in(list, na, nb),
    ensures
        entries_in(spec_sort(list.filter(pred), entry_order()), na, nb),
{
    broadcast use vstd::seq_lib::to_multiset_contains;

    let f = list.filter(pred);
    let s = spec_sort(f, entry_order());
    crate::print::sort::lemma_spec_sort(f, entry_order());
    assert forall|i: int| 0 <= i < s.len() implies match #[trigger] s[i] {
        MergeResult::Left(a) => a.1 < na,
        MergeResult::Right(b) => b.1 < nb,
        MergeResult::Both(a, b) => a.1 < na && b.1 < nb,
    } by {
        assert(s.contains(s[i]));
        assert(s.to_multiset().count(s[i]) > 0);
        assert(f.to_multiset().count(s[i]) > 0);
        assert(f.contains(s[i]));
        list.lemma_filter_contains_rev(pred, s[i]);
        let j = choose|j: int| 0 <= j < list.len() && list[j] == s[i];
    }
}

impl DiffState {
    /// Writes the diff of a list whose items are single lines: the entries that
    /// `sort_list` shows, in its order; a pair only where its two lines differ (found by
    /// `print_if_diff`), an item of the first file alone marked as deleted
    /// (`prefix_delete`), one of the second alone marked as added (`prefix_add`).
    pub fn print_sorted_lines(
        &mut self,
        list: &Vec<Entry>,
        lines_a: &Vec<Vec<u8>>,
        lines_b: &Vec<Vec<u8>>,
        ignore_deleted: bool,
        ignore_added: bool,
    )
        requires
            entries_in(list@, lines_a@.len(), lines_b@.len()),
        ensures
            ({
                let plan = spec_sort(list@.filter(shown(ignore_deleted, ignore_added)), entry_order());
                let r = sorted_lines(
                    plan,
                    lines_a@,
                    lines_b@,
                    old(self).current().mark(),
                    old(self).current().indent_level(),
                );
                &&& final(self).current().output() == old(self).current().output() + r.0
                &&& final(self).current().mark() == r.1
                &&& final(self).current().indent_level() == old(self).current().indent_level()
                &&& final(self).found() == (old(self).found() || entries_differ(plan, lines_a@, lines_b@))
            }),
    {
        let sorted = Self::sort_list(list, ignore_deleted, ignore_added);
        let ghost plan = sorted@;
        let ghost start = self.current();
        let ghost found0 = self.found();
        let ghost la = lines_a@;
        let ghost lb = lines_b@;
        proof {
            lemma_sorted_entries_in(list@, shown(ignore_deleted, ignore_added), la.len(), lb.len());
        }
        let mut i: usize = 0;
        assert(plan.take(0) =~= Seq::<Entry>::empty());
        assert(self.current().output() =~= start.output() + Seq::<u8>::empty());
        while i < sorted.len()
            invariant
                plan == sorted@,
                la == lines_a@,
                lb == lines_b@,
                entries_in(plan, la.len(), lb.len()),
                0 <= i <= plan.len(),
                self.current().output() == start.output() + sorted_lines(
                    plan.take(i as int),
                    la,
                    lb,
                    start.mark(),
                    start.indent_level(),
                ).0,
                self.current().mark() == sorted_lines(
                    plan.take(i as int),
                    la,
                    lb,
                    start.mark(),
                    start.indent_level(),
                ).1,
                self.current().indent_level() == start.indent_level(),
                self.found() == (found0 || entries_differ(plan.take(i as int), la, lb)),
            decreases plan.len() - i,
        {
            let ghost before = plan.take(i as int);
            let ghost next = plan.take(i + 1);
            proof {
                assert(next.drop_last() =~= before);
                assert(next.last() == plan[i as int]);
            }
            let e = sorted[i];
            assert(e == plan[i as int]);
            match e {
                MergeResult::Both(a, b) => {
                    let mut part = self.print_if_diff();
                    part.line(lines_a[a.1].as_slice(), lines_b[b.1].as_slice());
                    self.print_if_diff_end(part);
                },
                MergeResult::Left(a) => {
                    let st = self.prefix_delete();
                    st.line(lines_a[a.1].as_slice());
                },
                MergeResult::Right(b) => {
                    let st = self.prefix_add();
                    st.line(lines_b[b.1].as_slice());
                },
            }
            proof {
                assert(self.current().output() =~= start.output() + sorted_lines(
                    next,
                    la,
                    lb,
                    start.mark(),
                    start.indent_level(),
                ).0);
            }
            i = i + 1;
        }
        assert(plan.take(plan.len() as int) =~= plan);
    }
}

/// A step of the path that the list diff takes through two lists.
#[derive(Clone, Copy, PartialEq, Eq, Structural)]
pub enum Direction {
    /// The end of the path.
    Nil,
    /// The next items of both lists are compared.
    Diagonal,
    /// The next item of the first list is deleted.
    Horizontal,
    /// The next item of the second list is added.
    Vertical,
}

/// The items that the diff of two lists of `na` and `nb` items prints along `path`,
/// from item `ia` of the first and item `ib` of the second: a pair for a diagonal step
/// where both lists have an item left (each list moves on by one item where it has one),
/// an item of the first list for a horizontal step, of the second for a vertical step,
/// up to the end of the path.
pub open spec fn list_plan(path: Seq<Direction>, ia: nat, ib: nat, na: nat, nb: nat) -> Seq<MergeResult<usize, usize>>
    decreases path.len(),
{
    if path.len() == 0 {
        Seq::empty()
    } else {
        let next_a = if ia < na { ia + 1 } else { ia };
        let next_b = if ib < nb { ib + 1 } else { ib };
        match path[0] {
            Direction::Nil => Seq::empty(),
            Direction::Diagonal => (if ia < na && ib < nb {
                seq![MergeResult::Both(ia as usize, ib as usize)]
            } else {
                Seq::empty()
            }) + list_plan(path.drop_first(), next_a, next_b, na, nb),
            Direction::Horizontal => (if ia < na {
                seq![MergeResult::Left(ia as usize)]
            } else {
                Seq::empty()
            }) + list_plan(path.drop_first(), next_a, ib, na, nb),
            Direction::Vertical => (if ib < nb {
                seq![MergeResult::Right(ib as usize)]
            } else {
                Seq::empty()
            }) + list_plan(path.drop_first(), ia, next_b, na, nb),
        }
    }
}

impl DiffState {
    /// The items that the diff of two lists of `len_a` and `len_b` items prints, in order,
    /// along the path that the shortest-path search found: pairs to compare (`Both`),
    /// deleted items of the first list (`Left`) and added items of the second (`Right`),
    /// each by its position.
    pub fn list(path: &[Direction], len_a: usize, len_b: usize) -> (res: Vec<MergeResult<usize, usize>>)
        ensures
            res@ == list_plan(path@, 0, 0, len_a as nat, len_b as nat),
    {
        let mut res: Vec<MergeResult<usize, usize>> = Vec::new();
        let mut ia: usize = 0;
        let mut ib: usize = 0;
        let mut i: usize = 0;
        assert(path@.skip(0) =~= path@);
        while i < path.len()
            invariant_except_break
                0 <= i <= path@.len(),
                ia <= len_a,
                ib <= len_b,
                list_plan(path@, 0, 0, len_a as nat, len_b as nat) == res@ + list_plan(
                    path@.skip(i as int),
                    ia as nat,
                    ib as nat,
                    len_a as nat,
                    len_b as nat,
                ),
            ensures
                res@ == list_plan(path@, 0, 0, len_a as nat, len_b as nat),
            decreases path@.len() - i,
        {
            let ghost rest = path@.skip(i as int);
            assert(rest[0] == path@[i as int]);
            assert(rest.drop_first() =~= path@.skip(i + 1));
            let ghost before = res@;
            match path[i] {
                Direction::Nil => {
                    assert(res@ =~= res@ + Seq::<MergeResult<usize, usize>>::empty());
                    break;
                },
                Direction::Diagonal => {
                    if ia < len_a && ib < len_b {
                        res.push(MergeResult::Both(ia, ib));
                    }
                    if ia < len_a {
                        ia = ia + 1;
                    }
                    if ib < len_b {
                        ib = ib + 1;
                    }
                },
                Direction::Horizontal => {
                    if ia < len_a {
                        res.push(MergeResult::Left(ia));
                        ia = ia + 1;
                    }
                },
                Direction::Vertical => {
                    if ib < len_b {
                        res.push(MergeResult::Right(ib));
                        ib = ib + 1;
                    }
                },
            }
            i = i + 1;
            if i == path.len() {
                assert(path@.skip(i as int) =~= Seq::<Direction>::empty());
            }
            assert(list_plan(path@, 0, 0, len_a as nat, len_b as nat) =~= res@ + list_plan(
                path@.skip(i as int),
                ia as nat,
                ib as nat,
                len_a as nat,
                len_b as nat,
            ));
        }
        res
    }

    /// The items of two lists sorted by key, merged: a pair where the lists have items
    /// with equal keys, else the item with the smaller key.
    pub fn ord_list(list_a: Vec<(u64, usize)>, list_b: Vec<(u64, usize)>) -> (res: Vec<Entry>)
        ensures
            res@ == crate::merge::merge_keyed(list_a@, list_b@),
    {
        crate::merge::MergeIterator::new(list_a, list_b).collect()
    }
}

} // verus!
