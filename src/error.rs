//! The one error that a failed parse or resolution returns.
use vstd::prelude::*;

verus! {

#[derive(Debug)]
pub enum ErrorKind {
    /// The text does not follow the grammar.
    Syntax,
    /// A variant carries more than one `display(...)` attribute.
    DuplicateDisplay,
    /// A `disable(...)` option is unknown, or takes no arguments and was given some.
    InvalidDisable,
    /// A reference names no declaration.
    Undeclared,
    /// A reference supplies a number of generic arguments other than its target declares.
    ArityMismatch { supplied: usize, expected: usize },
    /// References run in a circle; the names along it, first and last equal.
    Cycle(Vec<String>),
}

#[derive(Debug)]
pub struct Error {
    pub kind: ErrorKind,
    /// The character offset in the source of the token the error is about.
    pub at: usize,
    pub message: String,
}

} // verus!
