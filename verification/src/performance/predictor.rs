//! Complexity classes of the algorithms, by which a measured time is scaled up.

use vstd::prelude::*;
use crate::algorithm::state::AlgorithmKind;

verus! {

/// The growth of an algorithm's running time with the size of the graph.
#[derive(Debug, Clone, Copy, PartialEq, Eq, Structural)]
pub enum AlgorithmComplexity {
    /// O(V + E): breadth- and depth-first search.
    BfsOrDfs,
    /// O(E log V): Dijkstra and A*.
    Dijkstra,
    /// O(V · E): Bellman-Ford.
    BellmanFord,
    /// O(V³): Floyd-Warshall.
    FloydWarshall,
    /// O(E log E): Kruskal.
    Kruskal,
    /// O(E log V): Prim.
    Prim,
}

/// The complexity class of each algorithm.
pub open spec fn complexity_of(kind: AlgorithmKind) -> AlgorithmComplexity {
    match kind {
        AlgorithmKind::BFS | AlgorithmKind::DFS => AlgorithmComplexity::BfsOrDfs,
        AlgorithmKind::Dijkstra | AlgorithmKind::AStar => AlgorithmComplexity::Dijkstra,
        AlgorithmKind::BellmanFord => AlgorithmComplexity::BellmanFord,
        AlgorithmKind::FloydWarshall => AlgorithmComplexity::FloydWarshall,
        AlgorithmKind::Prim => AlgorithmComplexity::Prim,
        AlgorithmKind::Kruskal => AlgorithmComplexity::Kruskal,
        AlgorithmKind::TopologicalSort | AlgorithmKind::BidirectionalBFS => AlgorithmComplexity::BfsOrDfs,
    }
}

/// The complexity class by which a run of `kind` is scaled: the traversals, the
/// topological sort and the bidirectional search are linear; the shortest-path and
/// spanning-tree algorithms have classes of their own.
pub fn complexity_for(kind: AlgorithmKind) -> (c: AlgorithmComplexity)
    ensures
        c == complexity_of(kind),
{
    match kind {
        AlgorithmKind::BFS | AlgorithmKind::DFS => AlgorithmComplexity::BfsOrDfs,
        AlgorithmKind::Dijkstra | AlgorithmKind::AStar => AlgorithmComplexity::Dijkstra,
        AlgorithmKind::BellmanFord => AlgorithmComplexity::BellmanFord,
        AlgorithmKind::FloydWarshall => AlgorithmComplexity::FloydWarshall,
        AlgorithmKind::Prim => AlgorithmComplexity::Prim,
        AlgorithmKind::Kruskal => AlgorithmComplexity::Kruskal,
        AlgorithmKind::TopologicalSort | AlgorithmKind::BidirectionalBFS => AlgorithmComplexity::BfsOrDfs,
    }
}

/// Which algorithms fall in each class: the traversals, the topological sort and the
/// bidirectional search are linear (O(V + E)); Dijkstra and A* go by Dijkstra's class;
/// Bellman-Ford (O(V · E)), Floyd-Warshall (O(V³)), Prim and Kruskal each have their own.
pub proof fn law_complexity_classes(k: AlgorithmKind)
    ensures
        (complexity_of(k) == AlgorithmComplexity::BfsOrDfs) <==> (k == AlgorithmKind::BFS || k
            == AlgorithmKind::DFS || k == AlgorithmKind::TopologicalSort || k == AlgorithmKind::BidirectionalBFS),
        (complexity_of(k) == AlgorithmComplexity::Dijkstra) <==> (k == AlgorithmKind::Dijkstra || k
            == AlgorithmKind::AStar),
        (complexity_of(k) == AlgorithmComplexity::BellmanFord) <==> k == AlgorithmKind::BellmanFord,
        (complexity_of(k) == AlgorithmComplexity::FloydWarshall) <==> k == AlgorithmKind::FloydWarshall,
        (complexity_of(k) == AlgorithmComplexity::Prim) <==> k == AlgorithmKind::Prim,
        (complexity_of(k) == AlgorithmComplexity::Kruskal) <==> k == AlgorithmKind::Kruskal,
{
}

} // verus!
