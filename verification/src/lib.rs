//! Printing of debugging information: which items of a file are listed, the ids that
//! name them, and the text that describes one file, the differences between two, or
//! where a file's code size goes.
use vstd::prelude::*;

pub mod glob;
pub mod merge;
pub mod filter;
pub mod index;
pub mod index_lemmas;
pub mod print;
pub mod context;

verus! {
}
