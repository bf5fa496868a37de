//! Typed failures of the store, surfaced to callers.

use vstd::prelude::*;

verus! {

/// A store primitive failed; the variant says why.
#[derive(Clone, Copy, Debug, PartialEq, Eq, Structural)]
pub enum GraphError {
    /// The caller referenced a node id that is not present.
    UnknownNode,
    /// The caller referenced an edge id that is not present.
    UnknownEdge,
    /// An insert collided with an id that is already present.
    DuplicateId,
}

} // verus!
