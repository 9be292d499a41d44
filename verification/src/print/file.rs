//! The summary of a file: its path, and its size and how much of it is code and data.
use vstd::prelude::*;

use crate::print::format::{as_signed, decimal, push_bytes};
use crate::print::printer::DiffPrefix;
use crate::filter::File;
use crate::index::{Entry, listed_units, sort_keyed, spec_unit_list, unit_entries};
use crate::print::sort::{entry_order, shown, spec_sort};
use crate::print::state::{DiffState, PrintState, diff_line_text, diff_u64_text, value_line};
use crate::print::text::line_text;

verus! {

/// What the summary of a file prints.
pub struct FileSummary {
    pub path: Vec<u8>,
    /// The size of the file's address ranges.
    pub size: u64,
    /// The size of its functions.
    pub fn_size: u64,
    /// The size of its variables.
    pub var_size: u64,
    /// A line for each address range, in order.
    pub addresses: Vec<Vec<u8>>,
    /// A line for each section, in order.
    pub sections: Vec<Vec<u8>>,
}

/// The size that is neither functions nor variables: none where those add up to more
/// than the file's size.
pub open spec fn other_size(file: FileSummary) -> u64 {
    if file.fn_size + file.var_size <= file.size {
        (file.size - file.fn_size - file.var_size) as u64
    } else {
        0
    }
}

/// A line for each non-empty line of a list.
pub open spec fn list_lines(lines: Seq<Vec<u8>>, mark: DiffPrefix, indent: nat) -> Seq<u8>
    decreases lines.len(),
{
    if lines.len() == 0 {
        Seq::empty()
    } else {
        list_lines(lines.drop_last(), mark, indent) + value_line(mark, indent, lines.last()@)
    }
}

/// A labelled list: the label, then the list indented further; nothing for an empty
/// list.
pub open spec fn field_list(label: &str, lines: Seq<Vec<u8>>, mark: DiffPrefix, indent: nat) -> Seq<u8> {
    let body = list_lines(lines, mark, indent + 1);
    if body.len() > 0 {
        line_text(mark, indent, label, Seq::empty()) + body
    } else {
        Seq::empty()
    }
}

/// The `file <path>` header.
pub open spec fn file_header(path: Seq<u8>) -> Seq<u8> {
    seq![0x66u8, 0x69, 0x6c, 0x65, 0x20] + path
}

/// The summary's body: the address ranges if asked for, the sizes, then the sections.
pub open spec fn summary_body(file: FileSummary, print_file_address: bool, mark: DiffPrefix, indent: nat) -> Seq<u8> {
    (if print_file_address {
        field_list("addresses", file.addresses@, mark, indent)
    } else {
        Seq::empty()
    }) + line_text(mark, indent, "size", decimal(file.size as nat)) + line_text(
        mark,
        indent,
        "fn size",
        decimal(file.fn_size as nat),
    ) + line_text(mark, indent, "var size", decimal(file.var_size as nat)) + line_text(
        mark,
        indent,
        "other size",
        decimal(other_size(file) as nat),
    ) + field_list("sections", file.sections@, mark, indent)
}

/// The `file <path>` header.
fn header_bytes(path: &[u8]) -> (res: Vec<u8>)
    ensures
        res@ == file_header(path@),
{
    let mut header: Vec<u8> = Vec::new();
    header.push(0x66);
    header.push(0x69);
    header.push(0x6c);
    header.push(0x65);
    header.push(0x20);
    push_bytes(&mut header, path);
    assert(header@ =~= file_header(path@));
    header
}

/// Prints a list of lines.
fn print_list(state: &mut PrintState, lines: &Vec<Vec<u8>>)
    ensures
        final(state).current().output() == old(state).current().output() + list_lines(
            lines@,
            old(state).current().mark(),
            old(state).current().indent_level(),
        ),
        final(state).current().indent_level() == old(state).current().indent_level(),
        final(state).current().mark() == old(state).current().mark(),
{
    let ghost start = state.current();
    let mut i: usize = 0;
    assert(lines@.take(0) =~= Seq::<Vec<u8>>::empty());
    assert(start.output() =~= start.output() + Seq::<u8>::empty());
    while i < lines.len()
        invariant
            0 <= i <= lines@.len(),
            state.current().output() == start.output() + list_lines(
                lines@.take(i as int),
                start.mark(),
                start.indent_level(),
            ),
            state.current().indent_level() == start.indent_level(),
            state.current().mark() == start.mark(),
        decreases lines@.len() - i,
    {
        state.line(lines[i].as_slice());
        proof {
            assert(lines@.take(i + 1).drop_last() =~= lines@.take(i as int));
            assert(lines@.take(i + 1).last() == lines@[i as int]);
            assert(state.current().output() =~= start.output() + list_lines(
                lines@.take(i + 1),
                start.mark(),
                start.indent_level(),
            ));
        }
        i = i + 1;
    }
    assert(lines@.take(lines@.len() as int) =~= lines@);
}

/// Prints a labelled list whose label is left out where the list prints nothing.
fn field_collapsed_list(state: &mut PrintState, label: &str, lines: &Vec<Vec<u8>>)
    requires
        old(state).current().indent_level() < usize::MAX,
    ensures
        final(state).current().output() == old(state).current().output() + field_list(
            label,
            lines@,
            old(state).current().mark(),
            old(state).current().indent_level(),
        ),
        final(state).current().indent_level() == old(state).current().indent_level(),
        final(state).current().mark() == old(state).current().mark(),
{
    let mut body = state.indent_body();
    print_list(&mut body, lines);
    let header = state.indent_header(body, true);
    if header.write_header {
        state.label(label);
    }
    state.indent_end(header.not_empty, true);
}

/// The lines of the summary of a file: a `file <path>` header, then indented, the
/// address ranges if `print_file_address` holds, the size, the size of functions, of
/// variables and of the rest, and the sections; then an empty line.
pub open spec fn summary_lines(file: FileSummary, print_file_address: bool, mark: DiffPrefix, indent: nat) -> Seq<u8> {
    line_text(mark, indent, "", file_header(file.path@)) + summary_body(
        file,
        print_file_address,
        mark,
        indent + 1,
    ) + seq![0x0au8]
}

/// Prints the file: its summary where the file category is asked for (`category_file`),
/// then its units. Returns the units to print next, in the order in which they are
/// printed: those that the filter selects, sorted by key (equal keys keeping the file's
/// order).
pub fn print(
    state: &mut PrintState,
    file: &FileSummary,
    units: &File,
    category_file: bool,
    print_file_address: bool,
) -> (listed: Vec<(u64, usize)>)
    requires
        old(state).current().indent_level() + 2 <= usize::MAX,
        file.fn_size + file.var_size <= u64::MAX,
    ensures
        final(state).current().output() == old(state).current().output() + if category_file {
            summary_lines(
                *file,
                print_file_address,
                old(state).current().mark(),
                old(state).current().indent_level(),
            )
        } else {
            Seq::empty()
        },
        final(state).current().indent_level() == old(state).current().indent_level(),
        final(state).current().mark() == old(state).current().mark(),
        listed@ == sort_keyed(spec_unit_list(*units, false)),
{
    print_summary(state, file, category_file, print_file_address);
    let list = listed_units(units, false);
    PrintState::sort_list(&list)
}

/// Prints the summary of a file where the file category is asked for (`category_file`),
/// else nothing.
fn print_summary(state: &mut PrintState, file: &FileSummary, category_file: bool, print_file_address: bool)
    requires
        old(state).current().indent_level() + 2 <= usize::MAX,
        file.fn_size + file.var_size <= u64::MAX,
    ensures
        final(state).current().output() == old(state).current().output() + if category_file {
            summary_lines(
                *file,
                print_file_address,
                old(state).current().mark(),
                old(state).current().indent_level(),
            )
        } else {
            Seq::empty()
        },
        final(state).current().indent_level() == old(state).current().indent_level(),
        final(state).current().mark() == old(state).current().mark(),
{
    if !category_file {
        assert(state.current().output() =~= old(state).current().output() + Seq::<u8>::empty());
        return;
    }
    let ghost start = state.current();
    let mut body = state.indent_body();
    let ghost body_start = body.current().output();
    if print_file_address {
        field_collapsed_list(&mut body, "addresses", &file.addresses);
    }
    let ghost after_addresses = body.current().output();
    body.field_u64("size", file.size);
    body.field_u64("fn size", file.fn_size);
    body.field_u64("var size", file.var_size);
    let other = match file.size.checked_sub(file.fn_size + file.var_size) {
        Some(other) => other,
        // The sizes of functions and variables can add up to more than the file's.
        None => 0,
    };
    body.field_u64("other size", other);
    field_collapsed_list(&mut body, "sections", &file.sections);
    assert(body.current().output() =~= summary_body(
        *file,
        print_file_address,
        start.mark(),
        start.indent_level() + 1,
    ));
    let indent = state.indent_header(body, false);
    let header = header_bytes(file.path.as_slice());
    state.line(header.as_slice());
    state.indent_end(indent.not_empty, true);
    state.line_break();
    assert(state.current().output() =~= start.output() + summary_lines(
        *file,
        print_file_address,
        start.mark(),
        start.indent_level(),
    ));
}

/// The size of a file of a diff that is neither functions nor variables.
pub open spec fn diff_other_size(file: FileSummary) -> u64 {
    (file.size - file.fn_size - file.var_size) as u64
}

/// The body of the summary of two files: each size of the second file after that of
/// the first.
pub open spec fn diff_summary_body(a: FileSummary, b: FileSummary, indent: nat) -> Seq<u8> {
    diff_line_text(DiffPrefix::Equal, indent, "size", decimal(a.size as nat), diff_u64_text(b.size, a.size))
        + diff_line_text(
        DiffPrefix::Equal,
        indent,
        "fn size",
        decimal(a.fn_size as nat),
        diff_u64_text(b.fn_size, a.fn_size),
    ) + diff_line_text(
        DiffPrefix::Equal,
        indent,
        "var size",
        decimal(a.var_size as nat),
        diff_u64_text(b.var_size, a.var_size),
    ) + diff_line_text(
        DiffPrefix::Equal,
        indent,
        "other size",
        decimal(diff_other_size(a) as nat),
        diff_u64_text(diff_other_size(b), diff_other_size(a)),
    )
}

/// Some size of the two files is printed differently.
pub open spec fn sizes_differ(a: FileSummary, b: FileSummary) -> bool {
    ||| decimal(a.size as nat) != diff_u64_text(b.size, a.size)
    ||| decimal(a.fn_size as nat) != diff_u64_text(b.fn_size, a.fn_size)
    ||| decimal(a.var_size as nat) != diff_u64_text(b.var_size, a.var_size)
    ||| decimal(diff_other_size(a) as nat) != diff_u64_text(diff_other_size(b), diff_other_size(a))
}

/// The sizes of a file read as signed numbers differ by an amount that fits an `i64`.
pub open spec fn difference_fits(a: u64, b: u64) -> bool {
    i64::MIN <= as_signed(b) - as_signed(a) <= i64::MAX
}

/// Prints each size of the two files.
#[verifier::rlimit(50)]
fn diff_sizes(state: &mut DiffState, a: &FileSummary, b: &FileSummary)
    requires
        old(state).current().mark() != DiffPrefix::Modify,
        !old(state).found(),
        a.fn_size + a.var_size <= a.size,
        b.fn_size + b.var_size <= b.size,
        difference_fits(a.size, b.size),
        difference_fits(a.fn_size, b.fn_size),
        difference_fits(a.var_size, b.var_size),
        difference_fits(diff_other_size(*a), diff_other_size(*b)),
    ensures
        final(state).current().output() == old(state).current().output() + diff_summary_body(
            *a,
            *b,
            old(state).current().indent_level(),
        ),
        final(state).current().indent_level() == old(state).current().indent_level(),
        final(state).found() == sizes_differ(*a, *b),
{
    let ghost start = state.current();
    let ghost indent = start.indent_level();
    let ghost eq = DiffPrefix::Equal;
    state.field_u64("size", a.size, b.size);
    let ghost t1 = diff_line_text(eq, indent, "size", decimal(a.size as nat), diff_u64_text(b.size, a.size));
    assert(state.current().output() == start.output() + t1);
    assert(state.current().mark() != DiffPrefix::Modify);
    let ghost o1 = state.current().output();
    state.field_u64("fn size", a.fn_size, b.fn_size);
    let ghost t2 = diff_line_text(
        eq,
        indent,
        "fn size",
        decimal(a.fn_size as nat),
        diff_u64_text(b.fn_size, a.fn_size),
    );
    assert(state.current().output() == o1 + t2);
    assert(state.current().mark() != DiffPrefix::Modify);
    let ghost o2 = state.current().output();
    state.field_u64("var size", a.var_size, b.var_size);
    let ghost t3 = diff_line_text(
        eq,
        indent,
        "var size",
        decimal(a.var_size as nat),
        diff_u64_text(b.var_size, a.var_size),
    );
    assert(state.current().output() == o2 + t3);
    assert(state.current().mark() != DiffPrefix::Modify);
    let ghost o3 = state.current().output();
    let other_a = a.size - a.fn_size - a.var_size;
    let other_b = b.size - b.fn_size - b.var_size;
    state.field_u64("other size", other_a, other_b);
    let ghost t4 = diff_line_text(
        eq,
        indent,
        "other size",
        decimal(diff_other_size(*a) as nat),
        diff_u64_text(diff_other_size(*b), diff_other_size(*a)),
    );
    assert(state.current().output() == o3 + t4);
    assert(diff_summary_body(*a, *b, indent) == t1 + t2 + t3 + t4);
    assert(state.current().output() =~= start.output() + diff_summary_body(*a, *b, indent));
}

/// Where the file category is asked for (`category_file`), prints the summary of the
/// diff of two files: a `file <path>` header, then indented, each size of the two files,
/// then an empty line; else prints nothing. (The address ranges and sections, which need
/// the list diff, are not printed here.)
#[verifier::rlimit(30)]
fn diff_summary(state: &mut DiffState, a: &FileSummary, b: &FileSummary, category_file: bool)
    requires
        old(state).current().indent_level() + 1 <= usize::MAX,
        category_file ==> a.fn_size + a.var_size <= a.size,
        category_file ==> b.fn_size + b.var_size <= b.size,
        category_file ==> difference_fits(a.size, b.size),
        category_file ==> difference_fits(a.fn_size, b.fn_size),
        category_file ==> difference_fits(a.var_size, b.var_size),
        category_file ==> difference_fits(diff_other_size(*a), diff_other_size(*b)),
    ensures
        !category_file ==> *final(state) == *old(state),
        category_file ==> ({
            let body = diff_summary_body(*a, *b, old(state).current().indent_level() + 1);
            let mark = if body.len() > 0 {
                if sizes_differ(*a, *b) {
                    DiffPrefix::Modify
                } else {
                    DiffPrefix::Equal
                }
            } else {
                old(state).current().mark()
            };
            &&& final(state).current().output() == old(state).current().output() + diff_line_text(
                mark,
                old(state).current().indent_level(),
                "",
                file_header(a.path@),
                file_header(b.path@),
            ) + body + seq![0x0au8]
            &&& final(state).found() == (old(state).found() || a.path@ != b.path@ || (body.len() > 0
                && sizes_differ(*a, *b)))
        }),
        final(state).current().indent_level() == old(state).current().indent_level(),
{
    if !category_file {
        return;
    }
    let ghost start = state.current();
    let ghost indent = start.indent_level();
    let mut body = state.indent_body();
    diff_sizes(&mut body, a, b);
    let ghost body_out = body.current().output();
    let ghost body_found = body.found();
    let header = state.indent_header(body, false);
    let ghost mark = state.current().mark();
    let ghost buffered = state.current().buffered();
    assert(buffered == body_out);
    assert(body_out == diff_summary_body(*a, *b, indent + 1));
    assert(header.not_empty == (body_out.len() > 0));
    assert(header.body_diff == body_found);
    assert(header.saved_diff == old(state).found());
    let header_a = header_bytes(a.path.as_slice());
    let header_b = header_bytes(b.path.as_slice());
    state.line(header_a.as_slice(), header_b.as_slice());
    let ghost after_line = state.current().output();
    assert(after_line == start.output() + diff_line_text(
        mark,
        indent,
        "",
        file_header(a.path@),
        file_header(b.path@),
    ));
    assert(state.found() == (header_a@ != header_b@));
    state.indent_end(header, true);
    state.line_break();
    proof {
        assert(header_a@ != header_b@ <==> a.path@ != b.path@) by {
            if a.path@ != b.path@ {
                assert(file_header(a.path@).skip(5) =~= a.path@);
                assert(file_header(b.path@).skip(5) =~= b.path@);
            }
        }
    }
}

/// Prints the diff of two files: the diff of their summaries where the file category is
/// asked for (`category_file`), then the diff of their units. Returns the merged units
/// to print next, in the order in which they are printed: the units that the filter
/// selects of each file, sorted by key and merged (units with equal keys paired), then,
/// leaving out units of the first file alone if `ignore_deleted` and of the second alone
/// if `ignore_added`, sorted by key (the key of the second file's unit where there is
/// one), equal keys keeping their order.
pub fn diff(
    state: &mut DiffState,
    a: &FileSummary,
    b: &FileSummary,
    units_a: &File,
    units_b: &File,
    category_file: bool,
    ignore_deleted: bool,
    ignore_added: bool,
) -> (listed: Vec<Entry>)
    requires
        old(state).current().indent_level() + 1 <= usize::MAX,
        category_file ==> a.fn_size + a.var_size <= a.size,
        category_file ==> b.fn_size + b.var_size <= b.size,
        category_file ==> difference_fits(a.size, b.size),
        category_file ==> difference_fits(a.fn_size, b.fn_size),
        category_file ==> difference_fits(a.var_size, b.var_size),
        category_file ==> difference_fits(diff_other_size(*a), diff_other_size(*b)),
    ensures
        !category_file ==> *final(state) == *old(state),
        category_file ==> ({
            let body = diff_summary_body(*a, *b, old(state).current().indent_level() + 1);
            let mark = if body.len() > 0 {
                if sizes_differ(*a, *b) {
                    DiffPrefix::Modify
                } else {
                    DiffPrefix::Equal
                }
            } else {
                old(state).current().mark()
            };
            &&& final(state).current().output() == old(state).current().output() + diff_line_text(
                mark,
                old(state).current().indent_level(),
                "",
                file_header(a.path@),
                file_header(b.path@),
            ) + body + seq![0x0au8]
            &&& final(state).found() == (old(state).found() || a.path@ != b.path@ || (body.len() > 0
                && sizes_differ(*a, *b)))
        }),
        final(state).current().indent_level() == old(state).current().indent_level(),
        listed@ == spec_sort(
            unit_entries(*units_a, *units_b, true).filter(shown(ignore_deleted, ignore_added)),
            entry_order(),
        ),
{
    diff_summary(state, a, b, category_file);
    let merged = DiffState::ord_list(listed_units(units_a, true), listed_units(units_b, true));
    DiffState::sort_list(&merged, ignore_deleted, ignore_added)
}

} // verus!
