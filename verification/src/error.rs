//! What can go wrong with the list.

use vstd::prelude::*;

verus! {

/// Why an operation on the list failed.
#[derive(Debug, Clone, Copy, PartialEq, Eq, Structural)]
pub enum TaskError {
    /// The backing file could not be opened, read, written or created.
    IOError,
    /// The line with this number, counted from 1, is not a task line.
    ParseError { line: usize },
    /// The home directory is not known.
    NotFound,
}

} // verus!
