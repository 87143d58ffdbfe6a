//! The failures that the cells report to their callers.

use vstd::prelude::*;

verus! {

/// Why an operation on a cell was refused.
#[derive(Clone, Copy, Debug, PartialEq, Eq, Structural)]
pub enum Fault {
    /// A borrow was requested that the cell's current borrow state excludes.
    BorrowConflict,
    /// A handle was released whose count already stood at zero.
    OverRelease,
}

} // verus!
