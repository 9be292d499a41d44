//! The text of a register: its name, or `r` and its number where it has no name.
use vstd::prelude::*;

use crate::print::format::{decimal, push_decimal};
use crate::print::printer::ValuePrinter;

verus! {

/// The text of register `number` with the given name, if it has one.
pub open spec fn register_text(number: u16, name: Option<Seq<u8>>) -> Seq<u8> {
    match name {
        Some(n) => n,
        None => seq![0x72u8] + decimal(number as nat),
    }
}

/// Writes a register: its name, or `r` and its number where it has no name.
pub fn print(number: u16, name: Option<&[u8]>, w: &mut Vec<u8>)
    ensures
        final(w).written() == old(w).written() + register_text(
            number,
            match name {
                Some(n) => Some(n@),
                None => None,
            },
        ),
{
    match name {
        Some(name) => w.write_bytes(name),
        None => {
            let mut text: Vec<u8> = Vec::new();
            text.push(0x72);
            push_decimal(&mut text, number as u64);
            w.write_bytes(text.as_slice());
            assert(text@ =~= register_text(number, None));
        },
    }
}

} // verus!
