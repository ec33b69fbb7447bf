//! Saving graphs and keeping the history of runs: what is written, and how the
//! in-memory record of past runs evolves. Reading and writing files is left to the
//! caller.

use vstd::prelude::*;
use crate::graph::{Graph, GraphView, Node, Edge};
use crate::algorithm::state::AlgorithmKind;

pub mod serializer;
pub mod validator;
pub mod session_history;

verus! {

/// Everything a saved graph file holds.
#[derive(Debug)]
pub struct GraphSaveData {
    /// Format version, "1.0.0".
    pub version: String,
    pub nodes: Vec<Node>,
    pub edges: Vec<Edge>,
    pub is_directed: bool,
    /// The algorithm last run on the graph, when one was recorded.
    pub last_algorithm: Option<AlgorithmKind>,
    pub metadata: SaveMetadata,
}

/// When and under what name a graph was saved, and its size.
#[derive(Debug)]
pub struct SaveMetadata {
    /// Time of saving, as `YYYY-MM-DDTHH:MM:SSZ`.
    pub saved_at: String,
    pub name: String,
    pub node_count: usize,
    pub edge_count: usize,
}

/// The graph a save record holds.
pub open spec fn saved_graph(d: GraphSaveData) -> GraphView {
    GraphView { nodes: d.nodes@, edges: d.edges@, is_directed: d.is_directed }
}

impl GraphSaveData {
    /// The graph held by the record, as loading gives it back.
    pub fn into_graph(self) -> (g: Graph)
        ensures
            g@ == saved_graph(self),
    {
        Graph { nodes: self.nodes, edges: self.edges, is_directed: self.is_directed }
    }
}

} // verus!
