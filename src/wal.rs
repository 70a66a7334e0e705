use vstd::prelude::*;

verus! {

/// A write-ahead log. The engine keeps no log yet: durability rests on each
/// stored file alone, so the log holds nothing.
#[derive(Debug, Clone, Copy, Default, PartialEq, Eq, Structural)]
pub struct WAL;

impl WAL {
    /// A log.
    pub fn new() -> (r: WAL)
        ensures
            r == WAL,
    {
        WAL
    }

    /// The log of an existing store.
    pub fn load() -> (r: WAL)
        ensures
            r == WAL,
    {
        WAL
    }
}

} // verus!
