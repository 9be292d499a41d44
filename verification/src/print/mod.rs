//! Printing.
pub mod printer;
pub mod format;
pub mod text;
pub mod state;
pub mod order;
pub mod bloat;
pub mod id;
pub mod file;
pub mod sort;
pub mod register;
