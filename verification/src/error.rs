//! The ways in which an operation on a tree can be refused.

use vstd::prelude::*;

verus! {

/// Why an operation was refused. A refused operation leaves the tree untouched.
#[derive(Clone, Copy, Debug, PartialEq, Eq, Structural)]
pub enum MerkleError {
    /// The initial batch of leaves is longer than the tree's capacity.
    CapacityExceeded,
    /// The tree has no room for what was to be inserted.
    TreeFull,
    /// The index does not name a leaf that the tree holds.
    IndexOutOfBounds,
    /// An argument has no meaning for the operation.
    InvalidArgument,
}

} // verus!
