//! The ways an operation on the routing table can be refused.

use vstd::prelude::*;

verus! {

#[derive(Debug, Clone, Copy, PartialEq, Eq, Structural)]
pub enum LcTrieError {
    /// A bit field was asked for that does not lie inside the key.
    OutOfRange,
    /// A prefix is longer than the key.
    InvalidPrefix,
    /// A prefix is already stored.
    DuplicatePrefix,
    /// A prefix to delete is not stored.
    NotFound,
}

} // verus!
