use vstd::prelude::*;

verus! {

/// The error type of the parsing and document editing operations.
///
/// `NoMemory` reports that a memory arena could not grow. `BadXml` reports
/// a syntax or structure problem; its text names the problem.
#[derive(Clone, Copy, Debug, PartialEq, Eq)]
pub enum ParseError {
    NoMemory,
    BadXml(&'static str),
}

/// Allocation failure of the memory arena.
#[derive(Clone, Copy, Debug, PartialEq, Eq)]
pub struct NoMemory;

} // verus!
