//! What is kept to answer requests about one file, about the diff of two files, or
//! about the bloat of a file: the files and their index.
use vstd::prelude::*;

use crate::filter::File;
use crate::index::{Entry, Index, sort_keyed, spec_index_parent, spec_unit_list, unit_entries};
use crate::print::sort::{entry_order, shown, spec_sort};
use crate::merge::MergeResult;
use crate::print::bloat::{
    BloatFile, BloatIndex, bloat, bloat_id, callers_of, callers_valid, caller_lines, function_at,
    function_of_id, sizes_fit, total_lines, totals_valid,
};
use crate::print::id::{IdTarget, diff_id, print_id, spec_diff_id, spec_print_id};
use crate::print::file::{FileSummary, diff_other_size, diff_summary_body, difference_fits, file_header, sizes_differ, summary_lines};
use crate::print::printer::DiffPrefix;
use crate::print::state::{DiffState, PrintState, diff_line_text};

verus! {

/// A file, its summary, and its index.
pub struct PrintContext {
    file: File,
    summary: FileSummary,
    index: Index,
}

impl PrintContext {
    pub closed spec fn file(&self) -> File {
        self.file
    }

    pub closed spec fn summary(&self) -> FileSummary {
        self.summary
    }

    pub closed spec fn index(&self) -> Index {
        self.index
    }

    pub fn new(file: File, summary: FileSummary) -> (res: PrintContext)
        ensures
            res.file() == file,
            res.summary() == summary,
            res.index().is_index_of(file, file, false),
    {
        let index = Index::new(&file);
        PrintContext { file, summary, index }
    }

    /// Prints the file: its summary, where the file category is asked for, then its
    /// units. Returns the units to print next, in the order in which they are printed.
    pub fn print(&self, state: &mut PrintState, category_file: bool, print_file_address: bool) -> (listed: Vec<
        (u64, usize),
    >)
        requires
            old(state).current().indent_level() + 2 <= usize::MAX,
            self.summary().fn_size + self.summary().var_size <= u64::MAX,
        ensures
            final(state).current().output() == old(state).current().output() + if category_file {
                summary_lines(
                    self.summary(),
                    print_file_address,
                    old(state).current().mark(),
                    old(state).current().indent_level(),
                )
            } else {
                Seq::empty()
            },
            final(state).current().indent_level() == old(state).current().indent_level(),
            final(state).current().mark() == old(state).current().mark(),
            listed@ == sort_keyed(spec_unit_list(self.file(), false)),
    {
        crate::print::file::print(state, &self.summary, &self.file, category_file, print_file_address)
    }

    /// The item whose details id `id` shows, if it names one.
    pub fn print_id(&self, id: usize, detail: Option<&str>) -> (res: Option<IdTarget>)
        ensures
            res == if id < self.index().id_pairs().len() {
                spec_print_id(self.index().id_pairs()[id as int].0, detail, self.file())
            } else {
                None
            },
    {
        match self.index.get(id) {
            Some(id) => print_id(id, detail, &self.file),
            None => None,
        }
    }

    /// The id of the unit that the item with id `id` belongs to.
    pub fn parent(&self, id: usize) -> (res: Option<usize>)
        ensures
            res == spec_index_parent(self.index(), id),
    {
        self.index.parent(id)
    }
}

/// Two files, their summaries, and the index of their diff.
pub struct DiffContext {
    file_a: File,
    file_b: File,
    summary_a: FileSummary,
    summary_b: FileSummary,
    index: Index,
}

impl DiffContext {
    pub closed spec fn file_a(&self) -> File {
        self.file_a
    }

    pub closed spec fn file_b(&self) -> File {
        self.file_b
    }

    pub closed spec fn summary_a(&self) -> FileSummary {
        self.summary_a
    }

    pub closed spec fn summary_b(&self) -> FileSummary {
        self.summary_b
    }

    pub closed spec fn index(&self) -> Index {
        self.index
    }

    pub fn new(file_a: File, file_b: File, summary_a: FileSummary, summary_b: FileSummary) -> (res: DiffContext)
        ensures
            res.file_a() == file_a,
            res.file_b() == file_b,
            res.summary_a() == summary_a,
            res.summary_b() == summary_b,
            res.index().is_index_of(file_a, file_b, true),
    {
        let index = Index::new_diff(&file_a, &file_b);
        DiffContext { file_a, file_b, summary_a, summary_b, index }
    }

    /// Prints the diff of the two files: the diff of their summaries, where the file
    /// category is asked for, then the diff of their units. Returns the merged units to
    /// print next, in the order in which they are printed.
    pub fn print(&self, state: &mut DiffState, category_file: bool, ignore_deleted: bool, ignore_added: bool) -> (listed: Vec<Entry>)
        requires
            old(state).current().indent_level() + 1 <= usize::MAX,
            category_file ==> self.summary_a().fn_size + self.summary_a().var_size <= self.summary_a().size,
            category_file ==> self.summary_b().fn_size + self.summary_b().var_size <= self.summary_b().size,
            category_file ==> difference_fits(self.summary_a().size, self.summary_b().size),
            category_file ==> difference_fits(self.summary_a().fn_size, self.summary_b().fn_size),
            category_file ==> difference_fits(self.summary_a().var_size, self.summary_b().var_size),
            category_file ==> difference_fits(
                diff_other_size(self.summary_a()),
                diff_other_size(self.summary_b()),
            ),
        ensures
            !category_file ==> *final(state) == *old(state),
            category_file ==> ({
                let a = self.summary_a();
                let b = self.summary_b();
                let body = diff_summary_body(a, b, old(state).current().indent_level() + 1);
                let mark = if body.len() > 0 {
                    if sizes_differ(a, b) {
                        DiffPrefix::Modify
                    } else {
                        DiffPrefix::Equal
                    }
                } else {
                    old(state).current().mark()
                };
                &&& final(state).current().output() == old(state).current().output() + diff_line_text(
                    mark,
                    old(state).current().indent_level(),
                    "",
                    file_header(a.path@),
                    file_header(b.path@),
                ) + body + seq![0x0au8]
                &&& final(state).found() == (old(state).found() || a.path@ != b.path@ || (body.len()
                    > 0 && sizes_differ(a, b)))
            }),
            final(state).current().indent_level() == old(state).current().indent_level(),
            listed@ == spec_sort(
                unit_entries(self.file_a(), self.file_b(), true).filter(
                    shown(ignore_deleted, ignore_added),
                ),
                entry_order(),
            ),
    {
        crate::print::file::diff(
            state,
            &self.summary_a,
            &self.summary_b,
            &self.file_a,
            &self.file_b,
            category_file,
            ignore_deleted,
            ignore_added,
        )
    }

    /// The items whose details id `id` shows, if it names any.
    pub fn print_id(&self, id: usize, detail: Option<&str>) -> (res: Option<
        MergeResult<IdTarget, IdTarget>,
    >)
        ensures
            res == if id < self.index().id_pairs().len() {
                spec_diff_id(self.index().id_pairs()[id as int], detail, self.file_a(), self.file_b())
            } else {
                None
            },
    {
        match self.index.get_pair(id) {
            Some(pair) => diff_id(pair, detail, &self.file_a, &self.file_b),
            None => None,
        }
    }

    /// The id of the unit that the item with id `id` belongs to.
    pub fn parent(&self, id: usize) -> (res: Option<usize>)
        ensures
            res == spec_index_parent(self.index(), id),
    {
        self.index.parent(id)
    }
}

/// The file and its bloat description have the same units, each with the same number
/// of functions.
pub open spec fn same_shape(file: File, bloat_file: BloatFile) -> bool {
    &&& bloat_file.units@.len() == file.units@.len()
    &&& forall|u: int|
        0 <= u < file.units@.len() ==> (#[trigger] bloat_file.units@[u]).functions@.len()
            == file.units@[u].functions@.len()
}

/// A file, its index, and its bloat index.
pub struct BloatContext {
    file: BloatFile,
    index: Index,
    bloat: BloatIndex,
}

impl BloatContext {
    pub closed spec fn file(&self) -> BloatFile {
        self.file
    }

    pub closed spec fn index(&self) -> Index {
        self.index
    }

    pub closed spec fn bloat_index(&self) -> BloatIndex {
        self.bloat
    }

    /// `file` and `bloat_file` describe the same file: its units and items for the index,
    /// and its functions for the bloat report, unit for unit and function for function.
    pub fn new(file: &File, bloat_file: BloatFile) -> (res: BloatContext)
        requires
            sizes_fit(bloat_file),
            same_shape(*file, bloat_file),
        ensures
            res.file() == bloat_file,
            res.index().is_index_of(*file, *file, false),
            res.bloat_index().id_list() == res.index().id_pairs().map_values(|p: (crate::index::Id, crate::index::Id)| p.0),
            crate::print::bloat::sorted(res.bloat_index().totals()),
            crate::print::bloat::groups_of(
                bloat_file,
                crate::print::bloat::function_positions(bloat_file.units@),
                res.bloat_index().totals(),
            ),
            crate::print::bloat::callers_are(
                res.bloat_index().callers_map(),
                |a: u64|
                    crate::print::bloat::calls_to(
                        bloat_file,
                        crate::print::bloat::function_positions(bloat_file.units@),
                        a,
                    ),
            ),
    {
        let index = Index::new(file);
        let bloat = BloatIndex::new(&bloat_file, &index);
        BloatContext { file: bloat_file, index, bloat }
    }

    /// Prints the bloat report.
    pub fn print(&self, state: &mut PrintState)
        requires
            totals_valid(self.file(), self.bloat_index().totals()),
            callers_valid(self.file(), self.bloat_index().callers_map()),
            old(state).current().indent_level() + 2 <= usize::MAX,
        ensures
            final(state).current().output() == old(state).current().output() + total_lines(
                self.file(),
                self.bloat_index().callers_map(),
                self.bloat_index().totals(),
                old(state).current().mark(),
                old(state).current().indent_level(),
            ),
            final(state).current().indent_level() == old(state).current().indent_level(),
            final(state).current().mark() == old(state).current().mark(),
    {
        bloat(&self.file, state, &self.bloat);
    }

    /// Prints the callers of the function with id `id`; `None` if the id names no
    /// function.
    pub fn print_id(&self, id: usize, state: &mut PrintState) -> (res: Option<()>)
        requires
            callers_valid(self.file(), self.bloat_index().callers_map()),
            function_of_id(self.file(), self.bloat_index().id_list(), id) matches Some(p)
                ==> function_at(self.file(), p).address is Some,
        ensures
            res is Some == function_of_id(self.file(), self.bloat_index().id_list(), id) is Some,
            final(state).current().printed(
                old(state).current(),
                match function_of_id(self.file(), self.bloat_index().id_list(), id) {
                    Some(p) => caller_lines(
                        self.file(),
                        callers_of(self.bloat_index().callers_map(), function_at(self.file(), p).address->0),
                        old(state).current().mark(),
                        old(state).current().indent_level(),
                    ),
                    None => Seq::empty(),
                },
            ),
    {
        bloat_id(id, &self.file, state, &self.bloat)
    }

    /// The id of the unit that the item with id `id` belongs to.
    pub fn parent(&self, id: usize) -> (res: Option<usize>)
        ensures
            res == spec_index_parent(self.index(), id),
    {
        self.index.parent(id)
    }
}

} // verus!
