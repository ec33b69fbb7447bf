//! The faults a saved graph can be found to have.

use vstd::prelude::*;

verus! {

/// A fault found in saved graph data.
#[derive(Debug, Clone, PartialEq, Eq, Structural)]
pub enum ValidationError {
    /// The graph has no name.
    EmptyName,
    /// A node carries an identifier outside the node list.
    InvalidNodeId { id: usize },
    /// An edge refers to a node that does not exist.
    InvalidEdgeEndpoint { from: usize, to: usize },
    /// Two nodes carry the same identifier.
    DuplicateNodeId { id: usize },
}

} // verus!
