//! Runtime errors that callers should treat as defects or invalid inputs,
//! as opposed to the recoverable diagnostics accumulated on the parse tree.

use vstd::prelude::*;

verus! {

/// Error result of the fallible primitives.
#[derive(Debug, Clone, Copy, PartialEq, Eq, Structural)]
pub enum Error {
    /// A text range reached beyond the end of the text it indexes.
    OutOfCharBoundary,
    /// A literal matched none of the supported numeric shapes.
    InvalidNumber,
    /// A numeric literal does not fit the fixed 256-bit width.
    NumberOverflow,
}

} // verus!
