//! A printer of plain text: one line per item, indented with tabs, and in a diff each
//! line marked with two columns (`- `, `+ ` or spaces).
use vstd::prelude::*;
use vstd::string::*;

use crate::print::format::{
    hexadecimal, pad_left, pad_right, push_bytes, push_hexadecimal, push_spaces, spaces,
};
use crate::print::printer::{DiffPrefix, Printer};

verus! {

/// `n` tabs.
pub open spec fn tabs(n: nat) -> Seq<u8> {
    Seq::new(n, |i: int| 0x09u8)
}

/// The mark that begins each line of a diff.
pub open spec fn prefix_text(prefix: DiffPrefix) -> Seq<u8> {
    match prefix {
        DiffPrefix::Nil => Seq::empty(),
        DiffPrefix::Equal | DiffPrefix::Modify => seq![0x20u8, 0x20u8],
        DiffPrefix::Delete => seq![0x2du8, 0x20u8],
        DiffPrefix::Add => seq![0x2bu8, 0x20u8],
    }
}

/// What begins a line: the mark, then a tab for each level of indent.
pub open spec fn indent_text(prefix: DiffPrefix, indent: nat) -> Seq<u8> {
    prefix_text(prefix) + tabs(indent)
}

/// A line: the indent, then the label followed by a colon (and a space if a value
/// follows) if there is a label, then the value, then a newline.
pub open spec fn line_text(prefix: DiffPrefix, indent: nat, label: &str, buf: Seq<u8>) -> Seq<u8> {
    indent_text(prefix, indent) + (if label@.len() == 0 {
        Seq::empty()
    } else {
        label.spec_bytes() + seq![0x3au8] + if buf.len() == 0 {
            Seq::empty()
        } else {
            seq![0x20u8]
        }
    }) + buf + seq![0x0au8]
}

/// The address column of an instruction: the address in hexadecimal, right-aligned to
/// three columns, a colon and two spaces; or six spaces.
pub open spec fn address_text(address: Option<u64>) -> Seq<u8> {
    match address {
        Some(a) => pad_left(hexadecimal(a as nat), hexadecimal(a as nat).len(), 3) + seq![
            0x3au8,
            0x20u8,
            0x20u8,
        ],
        None => spaces(6),
    }
}

/// The mnemonic column of an instruction: the mnemonic left-aligned to six characters,
/// or seven spaces.
pub open spec fn mnemonic_text(mnemonic: &str) -> Seq<u8> {
    if mnemonic@.len() == 0 {
        spaces(7)
    } else {
        pad_right(mnemonic.spec_bytes(), mnemonic@.len(), 6)
    }
}

/// A line of disassembly: the indent, the address and mnemonic columns, then a space
/// and the operands if there are any, then a newline.
pub open spec fn instruction_text(
    prefix: DiffPrefix,
    indent: nat,
    address: Option<u64>,
    mnemonic: &str,
    buf: Seq<u8>,
) -> Seq<u8> {
    indent_text(prefix, indent) + address_text(address) + mnemonic_text(mnemonic) + (if buf.len()
        == 0 {
        Seq::empty()
    } else {
        seq![0x20u8] + buf
    }) + seq![0x0au8]
}

/// A printer of plain text. What it prints accumulates in its output.
pub struct TextPrinter {
    out: Vec<u8>,
    buffer: Vec<u8>,
    indent: usize,
    prefix: DiffPrefix,
}

impl TextPrinter {
    /// What has been printed.
    pub closed spec fn output(&self) -> Seq<u8> {
        self.out@
    }

    /// What the last buffered block wrote.
    pub closed spec fn buffered(&self) -> Seq<u8> {
        self.buffer@
    }

    /// The number of tabs that begin each line.
    pub closed spec fn indent_level(&self) -> nat {
        self.indent as nat
    }

    pub closed spec fn mark(&self) -> DiffPrefix {
        self.prefix
    }

    /// The printer printed `text` and is otherwise as it was.
    pub open spec fn printed(&self, before: TextPrinter, text: Seq<u8>) -> bool {
        &&& self.output() == before.output() + text
        &&& self.buffered() == before.buffered()
        &&& self.indent_level() == before.indent_level()
        &&& self.mark() == before.mark()
    }

    /// A printer that has printed nothing, at no indent, with no mark.
    pub fn new() -> (res: Self)
        ensures
            res.output() == Seq::<u8>::empty(),
            res.buffered() == Seq::<u8>::empty(),
            res.indent_level() == 0,
            res.mark() == DiffPrefix::Nil,
    {
        TextPrinter { out: Vec::new(), buffer: Vec::new(), indent: 0, prefix: DiffPrefix::Nil }
    }

    /// What has been printed.
    pub fn text(&self) -> (res: &[u8])
        ensures
            res@ == self.output(),
    {
        self.out.as_slice()
    }

    /// What has been printed.
    pub fn into_text(self) -> (res: Vec<u8>)
        ensures
            res@ == self.output(),
    {
        self.out
    }

    fn write_indent(&mut self)
        ensures
            final(self).printed(*old(self), indent_text(old(self).mark(), old(self).indent_level())),
    {
        match self.prefix {
            DiffPrefix::Nil => {},
            DiffPrefix::Equal | DiffPrefix::Modify => {
                self.out.push(0x20);
                self.out.push(0x20);
            },
            DiffPrefix::Delete => {
                self.out.push(0x2d);
                self.out.push(0x20);
            },
            DiffPrefix::Add => {
                self.out.push(0x2b);
                self.out.push(0x20);
            },
        }
        let ghost after_mark = self.out@;
        assert(after_mark =~= old(self).out@ + prefix_text(old(self).prefix));
        let mut i: usize = 0;
        while i < self.indent
            invariant
                0 <= i <= self.indent,
                self.indent == old(self).indent,
                self.prefix == old(self).prefix,
                self.buffer@ == old(self).buffer@,
                after_mark == old(self).out@ + prefix_text(old(self).prefix),
                self.out@ == after_mark + tabs(i as nat),
            decreases self.indent - i,
        {
            self.out.push(0x09);
            assert(tabs((i + 1) as nat) =~= tabs(i as nat).push(0x09u8));
            i = i + 1;
        }
        assert(self.out@ =~= old(self).out@ + indent_text(old(self).prefix, old(self).indent as nat));
    }

    /// Clears the buffer and begins a block whose output is to become the buffer.
    fn buffer_impl(&mut self, indent: usize) -> (res: TextPrinter)
        ensures
            final(self).output() == old(self).output(),
            final(self).buffered() == Seq::<u8>::empty(),
            final(self).indent_level() == old(self).indent_level(),
            final(self).mark() == old(self).mark(),
            res.output() == Seq::<u8>::empty(),
            res.buffered() == Seq::<u8>::empty(),
            res.indent_level() == indent,
            res.mark() == old(self).mark(),
    {
        self.buffer.clear();
        TextPrinter { out: Vec::new(), buffer: Vec::new(), indent, prefix: self.prefix }
    }
}

/// Append the address column of an instruction.
fn push_address(out: &mut Vec<u8>, address: Option<u64>)
    ensures
        final(out)@ == old(out)@ + address_text(address),
{
    match address {
        Some(address) => {
            let mut digits: Vec<u8> = Vec::new();
            push_hexadecimal(&mut digits, address);
            assert(digits@ =~= hexadecimal(address as nat));
            if digits.len() < 3 {
                push_spaces(out, 3 - digits.len());
            }
            push_bytes(out, digits.as_slice());
            out.push(0x3a);
            out.push(0x20);
            out.push(0x20);
        },
        None => {
            push_spaces(out, 6);
        },
    }
    assert(out@ =~= old(out)@ + address_text(address));
}

/// Append the mnemonic column of an instruction.
fn push_mnemonic(out: &mut Vec<u8>, mnemonic: &str)
    ensures
        final(out)@ == old(out)@ + mnemonic_text(mnemonic),
{
    if mnemonic.is_empty() {
        // Without a mnemonic the operands have no leading space, so add one here.
        push_spaces(out, 7);
    } else {
        let width = mnemonic.unicode_len();
        push_bytes(out, mnemonic.as_bytes());
        if width < 6 {
            push_spaces(out, 6 - width);
        }
    }
    assert(out@ =~= old(out)@ + mnemonic_text(mnemonic));
}

impl Printer for TextPrinter {
    open spec fn current_prefix(&self) -> DiffPrefix {
        self.mark()
    }

    open spec fn can_nest(&self) -> bool {
        self.indent_level() < usize::MAX
    }

    open spec fn can_unnest(&self) -> bool {
        self.indent_level() > 0
    }

    fn buffer(&mut self) -> (res: Self)
        ensures
            final(self).output() == old(self).output(),
            final(self).buffered() == Seq::<u8>::empty(),
            final(self).indent_level() == old(self).indent_level(),
            final(self).mark() == old(self).mark(),
            res.output() == Seq::<u8>::empty(),
            res.buffered() == Seq::<u8>::empty(),
            res.indent_level() == old(self).indent_level(),
    {
        let indent = self.indent;
        self.buffer_impl(indent)
    }

    fn indent_body(&mut self) -> (res: Self)
        ensures
            final(self).output() == old(self).output(),
            final(self).buffered() == Seq::<u8>::empty(),
            final(self).indent_level() == old(self).indent_level(),
            final(self).mark() == old(self).mark(),
            res.output() == Seq::<u8>::empty(),
            res.buffered() == Seq::<u8>::empty(),
            res.indent_level() == old(self).indent_level() + 1,
    {
        let indent = self.indent + 1;
        self.buffer_impl(indent)
    }

    fn end_buffer(&mut self, block: Self) -> (res: bool)
        ensures
            final(self).output() == old(self).output(),
            final(self).buffered() == block.output(),
            final(self).indent_level() == old(self).indent_level(),
            final(self).mark() == old(self).mark(),
            res == (block.output().len() > 0),
    {
        self.buffer = block.out;
        self.buffer.len() > 0
    }

    fn write_buf(&mut self)
        ensures
            final(self).printed(*old(self), old(self).buffered()),
    {
        push_bytes(&mut self.out, self.buffer.as_slice());
    }

    fn line_break(&mut self)
        ensures
            final(self).printed(*old(self), seq![0x0au8]),
    {
        self.out.push(0x0a);
        assert(self.out@ =~= old(self).out@ + seq![0x0au8]);
    }

    fn line(&mut self, label: &str, buf: &[u8])
        ensures
            final(self).printed(
                *old(self),
                line_text(old(self).mark(), old(self).indent_level(), label, buf@),
            ),
    {
        self.write_indent();
        let ghost after_indent = self.out@;
        if !label.is_empty() {
            push_bytes(&mut self.out, label.as_bytes());
            self.out.push(0x3a);
            if !buf.is_empty() {
                self.out.push(0x20);
            }
        }
        push_bytes(&mut self.out, buf);
        self.out.push(0x0a);
        assert(self.out@ =~= old(self).out@ + line_text(
            old(self).prefix,
            old(self).indent as nat,
            label,
            buf@,
        ));
    }

    fn line_diff(&mut self, label: &str, a: &[u8], b: &[u8])
        ensures
            final(self).output() == old(self).output() + line_text(
                DiffPrefix::Delete,
                old(self).indent_level(),
                label,
                a@,
            ) + line_text(DiffPrefix::Add, old(self).indent_level(), label, b@),
            final(self).buffered() == old(self).buffered(),
            final(self).indent_level() == old(self).indent_level(),
            final(self).mark() == DiffPrefix::Add,
    {
        self.prefix = DiffPrefix::Delete;
        self.line(label, a);
        self.prefix = DiffPrefix::Add;
        self.line(label, b);
    }

    fn indent_header(&mut self, collapsed: bool)
        ensures
            final(self).printed(*old(self), old(self).buffered()),
    {
        self.write_buf();
    }

    fn indent_id(&mut self, id: usize)
        ensures
            final(self).output() == old(self).output(),
            final(self).buffered() == old(self).buffered(),
            final(self).indent_level() == old(self).indent_level() + 1,
            final(self).mark() == old(self).mark(),
    {
        self.indent = self.indent + 1;
    }

    fn indent_id_end(&mut self)
        ensures
            final(self).output() == old(self).output(),
            final(self).buffered() == old(self).buffered(),
            final(self).indent_level() == old(self).indent_level() - 1,
            final(self).mark() == old(self).mark(),
    {
        self.indent = self.indent - 1;
    }

    fn indent_detail(&mut self, detail: &str, label: &str) -> (res: bool)
        ensures
            *final(self) == *old(self),
            !res,
    {
        false
    }

    fn prefix(&mut self, prefix: DiffPrefix)
        ensures
            final(self).output() == old(self).output(),
            final(self).buffered() == old(self).buffered(),
            final(self).indent_level() == old(self).indent_level(),
    {
        self.prefix = prefix;
    }

    fn get_prefix(&self) -> (res: DiffPrefix) {
        self.prefix
    }

    fn instruction(&mut self, address: Option<u64>, mnemonic: &str, buf: &[u8])
        ensures
            final(self).printed(
                *old(self),
                instruction_text(
                    old(self).mark(),
                    old(self).indent_level(),
                    address,
                    mnemonic,
                    buf@,
                ),
            ),
    {
        self.write_indent();
        let ghost after_indent = self.out@;
        push_address(&mut self.out, address);
        let ghost after_address = self.out@;
        push_mnemonic(&mut self.out, mnemonic);
        let ghost after_mnemonic = self.out@;
        if !buf.is_empty() {
            self.out.push(0x20);
            push_bytes(&mut self.out, buf);
        }
        self.out.push(0x0a);
        assert(self.out@ =~= old(self).out@ + instruction_text(
            old(self).prefix,
            old(self).indent as nat,
            address,
            mnemonic,
            buf@,
        ));
    }
}

} // verus!
