//! The errors the engine reports: a delete aimed at a key the store does not
//! hold, and a record whose bytes do not parse.

use vstd::prelude::*;

verus! {

/// Why an engine operation failed.
#[derive(Clone, Copy, Debug, PartialEq, Eq, Structural)]
pub enum LsmError {
    /// A delete targeted a key that neither the memtable nor any segment
    /// holds.
    NotFound,
    /// The bytes at a record offset do not parse as a record.
    MalformedRecord,
}

} // verus!
