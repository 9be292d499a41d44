//! The interface through which items are printed.
use vstd::prelude::*;
use vstd::string::*;

verus! {

/// How the lines that follow are marked in a diff.
#[derive(Debug, Clone, Copy, Eq, PartialEq, Structural)]
pub enum DiffPrefix {
    /// Not a diff: no mark.
    Nil,
    Equal,
    Delete,
    Add,
    Modify,
}

/// Where printed output goes: lines, possibly indented and marked, and blocks that are
/// rendered into a buffer first so that they can be left out when empty.
///
/// A buffered block is rendered into the printer that `buffer` or `indent_body` returns
/// and handed back with `end_buffer`; `write_buf` then writes it.
pub trait Printer: Sized {
    /// The mark of the lines that follow.
    spec fn current_prefix(&self) -> DiffPrefix;

    /// The printer can indent one level further.
    spec fn can_nest(&self) -> bool;

    /// The printer is inside an indented body that it can leave.
    spec fn can_unnest(&self) -> bool;

    /// Begins a block that is buffered, at the current indent.
    fn buffer(&mut self) -> (res: Self)
        ensures
            res.current_prefix() == old(self).current_prefix(),
    ;

    /// Begins a block that is buffered, indented one level further.
    fn indent_body(&mut self) -> (res: Self)
        requires
            old(self).can_nest(),
        ensures
            res.current_prefix() == old(self).current_prefix(),
    ;

    /// Keeps what a buffered block wrote as the buffer; returns true if it wrote anything.
    fn end_buffer(&mut self, block: Self) -> bool;

    /// Writes the buffer that the last buffered block left.
    fn write_buf(&mut self);

    fn line_break(&mut self);

    fn line(&mut self, label: &str, buf: &[u8]);

    fn line_diff(&mut self, label: &str, a: &[u8], b: &[u8]);

    /// Ends the header of a buffered indented body (written just before): writes the
    /// body.
    fn indent_header(&mut self, collapsed: bool);

    /// Enters the body of the item with id `id`, whose header was written just before.
    fn indent_id(&mut self, id: usize)
        requires
            old(self).can_nest(),
    ;

    /// Leaves the body of an item that `indent_id` entered.
    fn indent_id_end(&mut self)
        requires
            old(self).can_unnest(),
    ;

    /// Optionally prints a labelled reference to a block of detail information.
    ///
    /// Returns false if the printer does not support lazy detail information.
    fn indent_detail(&mut self, detail: &str, label: &str) -> bool;

    fn prefix(&mut self, prefix: DiffPrefix)
        ensures
            final(self).current_prefix() == prefix,
    ;

    fn get_prefix(&self) -> (res: DiffPrefix)
        ensures
            res == self.current_prefix(),
    ;

    fn instruction(&mut self, address: Option<u64>, mnemonic: &str, buf: &[u8]);
}

/// Where the text of a value goes.
pub trait ValuePrinter {
    /// What has been written.
    spec fn written(&self) -> Seq<u8>;

    /// Writes bytes as they are.
    fn write_bytes(&mut self, buf: &[u8])
        ensures
            final(self).written() == old(self).written() + buf@,
    ;

    /// Begins a link to the item with id `id`.
    fn link(&mut self, id: usize);

    /// Ends a link.
    fn link_end(&mut self);

    fn name(&mut self, name: &str);
}

impl ValuePrinter for Vec<u8> {
    open spec fn written(&self) -> Seq<u8> {
        self@
    }

    fn write_bytes(&mut self, buf: &[u8]) {
        let mut i: usize = 0;
        let ghost start = self@;
        while i < buf.len()
            invariant
                0 <= i <= buf@.len(),
                self@ == start + buf@.take(i as int),
            decreases buf@.len() - i,
        {
            self.push(buf[i]);
            assert(buf@.take(i + 1) =~= buf@.take(i as int).push(buf@[i as int]));
            i = i + 1;
        }
        assert(buf@.take(buf@.len() as int) =~= buf@);
    }

    /// A plain value has no links.
    fn link(&mut self, id: usize)
        ensures
            final(self)@ == old(self)@,
    {
    }

    fn link_end(&mut self)
        ensures
            final(self)@ == old(self)@,
    {
    }

    fn name(&mut self, name: &str)
        ensures
            final(self)@ == old(self)@ + name.spec_bytes(),
    {
        self.write_bytes(name.as_bytes());
    }
}

} // verus!
