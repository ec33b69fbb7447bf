//! The state a stepping algorithm shares with the pseudocode and queue panes.

use vstd::prelude::*;

verus! {

/// Where a stepping algorithm stands: the pseudocode line to highlight, the nodes it has
/// finished, the contents of its queue or stack, and whether it is done.
#[derive(Debug, Clone)]
pub struct AlgorithmTracker {
    /// Pseudocode line to highlight.
    pub current_line: usize,
    /// Nodes already visited, in order.
    pub visited_nodes: Vec<usize>,
    /// Contents of the queue or stack shown below the canvas.
    pub open_set: Vec<usize>,
    /// The search has finished.
    pub is_finished: bool,
}

impl Default for AlgorithmTracker {
    fn default() -> (r: Self)
        ensures
            r.current_line == 0,
            r.visited_nodes@.len() == 0,
            r.open_set@.len() == 0,
            !r.is_finished,
    {
        AlgorithmTracker { current_line: 0, visited_nodes: Vec::new(), open_set: Vec::new(), is_finished: false }
    }
}

} // verus!
