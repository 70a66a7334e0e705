use vstd::prelude::*;

verus! {

/// The errors the storage logic reports.
#[derive(Debug, Clone, Copy, PartialEq, Eq, Structural)]
pub enum StorageError {
    /// A construction that needs at least one element was given none.
    EmptyInput,
    /// An operation was asked for in a state that does not allow it.
    StateViolation,
}

} // verus!
