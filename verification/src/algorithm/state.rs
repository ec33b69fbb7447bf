//! What an algorithm run produces: the step-by-step snapshots of its state, the order in
//! which it visited the nodes and how many edges it examined.

use vstd::prelude::*;

verus! {

/// The algorithms the tool can run.
#[derive(Debug, Clone, Copy, PartialEq, Eq, Structural)]
pub enum AlgorithmKind {
    BFS,
    DFS,
    Dijkstra,
    BellmanFord,
    FloydWarshall,
    AStar,
    Prim,
    Kruskal,
    TopologicalSort,
    BidirectionalBFS,
}

impl Default for AlgorithmKind {
    fn default() -> (r: Self)
        ensures
            r == AlgorithmKind::BFS,
    {
        AlgorithmKind::BFS
    }
}

/// The name shown for each algorithm.
pub open spec fn kind_name(k: AlgorithmKind) -> Seq<char> {
    match k {
        AlgorithmKind::BFS => "BFS"@,
        AlgorithmKind::DFS => "DFS"@,
        AlgorithmKind::Dijkstra => "Dijkstra"@,
        AlgorithmKind::BellmanFord => "Bellman-Ford"@,
        AlgorithmKind::FloydWarshall => "Floyd-Warshall"@,
        AlgorithmKind::AStar => "A*"@,
        AlgorithmKind::Prim => "Prim"@,
        AlgorithmKind::Kruskal => "Kruskal"@,
        AlgorithmKind::TopologicalSort => "위상 정렬"@,
        AlgorithmKind::BidirectionalBFS => "양방향 BFS"@,
    }
}

impl AlgorithmKind {
    /// The name shown for the algorithm.
    pub fn display_name(&self) -> (r: String)
        ensures
            r@ == kind_name(*self),
    {
        match self {
            AlgorithmKind::BFS => String::from_str("BFS"),
            AlgorithmKind::DFS => String::from_str("DFS"),
            AlgorithmKind::Dijkstra => String::from_str("Dijkstra"),
            AlgorithmKind::BellmanFord => String::from_str("Bellman-Ford"),
            AlgorithmKind::FloydWarshall => String::from_str("Floyd-Warshall"),
            AlgorithmKind::AStar => String::from_str("A*"),
            AlgorithmKind::Prim => String::from_str("Prim"),
            AlgorithmKind::Kruskal => String::from_str("Kruskal"),
            AlgorithmKind::TopologicalSort => String::from_str("위상 정렬"),
            AlgorithmKind::BidirectionalBFS => String::from_str("양방향 BFS"),
        }
    }
}

/// What happened in one step, for the log pane.
#[derive(Debug)]
pub enum StepMessage {
    /// BFS: the start node is queued and marked.
    BfsStart { start: usize },
    /// BFS: a node is taken from the queue.
    BfsDequeue { node: usize },
    /// BFS: an unmarked neighbour is queued.
    BfsDiscover { node: usize, neighbor: usize },
    /// DFS: the start node is pushed.
    DfsStart { start: usize },
    /// DFS: a node is popped and visited.
    DfsVisit { node: usize },
    /// DFS: an unvisited neighbour is pushed.
    DfsPush { node: usize, neighbor: usize },
    /// Kahn: the queue starts with the nodes of in-degree 0.
    KahnInit { queue: Vec<usize> },
    /// Kahn: a node joins the order.
    KahnAppend { node: usize, order: Vec<usize> },
    /// Kahn: an edge is taken away from a neighbour's in-degree.
    KahnDecrement { node: usize, neighbor: usize, in_degree: usize },
    /// Kahn: a neighbour's in-degree reached 0 and it is queued.
    KahnEnqueue { neighbor: usize },
    /// Kahn: fewer nodes than the graph has were ordered, so there is a cycle.
    KahnCycle { processed: usize, total: usize },
    /// Kahn: the order is complete.
    KahnDone { order: Vec<usize> },
    /// DFS-based topological sort starts.
    TopoDfsStart,
    /// DFS-based topological sort: a search starts from a node.
    TopoVisit { node: usize },
    /// DFS-based topological sort: an edge leads back onto the current path.
    TopoCycle { node: usize, next: usize },
    /// DFS-based topological sort: the search descends along an edge.
    TopoDescend { node: usize, next: usize },
    /// DFS-based topological sort: a node is finished.
    TopoFinish { node: usize, finished: Vec<usize> },
    /// Kruskal: the candidate edges are sorted by weight.
    KruskalSorted { count: usize },
    /// Kruskal: an edge joining two trees joins the spanning forest; `added` edges so far.
    KruskalAdd { from: usize, to: usize, weight: u64, added: usize },
    /// Kruskal: an edge inside one tree would close a cycle and is skipped.
    KruskalSkip { from: usize, to: usize, weight: u64 },
    /// Kruskal: the spanning forest is complete with `added` edges.
    KruskalDone { added: usize },
    /// A line of text composed by an algorithm run outside this library.
    Note { text: String },
}

/// The state of an algorithm after one step.
#[derive(Debug)]
pub struct StateSnapshot {
    /// Line of the pseudocode to highlight.
    pub current_line: usize,
    /// The node being processed.
    pub current_node: usize,
    /// Contents of the queue or stack.
    pub queue_or_stack: Vec<usize>,
    /// Nodes in the order they were finished so far.
    pub visited_order: Vec<usize>,
    /// Which nodes are marked.
    pub visited_flags: Vec<bool>,
    /// Tentative distances, as `f64` bit patterns, for the shortest-path algorithms.
    pub distances: Option<Vec<u64>>,
    /// What happened.
    pub message: StepMessage,
    /// A cycle was found (negative cycle for shortest paths, any cycle for the
    /// topological sort).
    pub negative_cycle: bool,
}

/// Everything a run produces.
#[derive(Debug)]
pub struct AlgorithmResult {
    pub kind: AlgorithmKind,
    pub snapshots: Vec<StateSnapshot>,
    pub visit_order: Vec<usize>,
    pub edge_traversal_count: usize,
}

impl AlgorithmResult {
    /// The result of running `kind` on a graph without nodes.
    pub fn empty(kind: AlgorithmKind) -> (r: AlgorithmResult)
        ensures
            r.kind == kind,
            r.snapshots.len() == 0,
            r.visit_order.len() == 0,
            r.edge_traversal_count == 0,
    {
        AlgorithmResult { kind, snapshots: Vec::new(), visit_order: Vec::new(), edge_traversal_count: 0 }
    }
}

impl Default for AlgorithmResult {
    fn default() -> (r: Self)
        ensures
            r.kind == AlgorithmKind::BFS,
            r.snapshots.len() == 0,
            r.visit_order.len() == 0,
            r.edge_traversal_count == 0,
    {
        AlgorithmResult::empty(AlgorithmKind::BFS)
    }
}

/// A copy of `v[from..]`.
pub fn copy_from(v: &Vec<usize>, from: usize) -> (r: Vec<usize>)
    requires
        from <= v.len(),
    ensures
        r@ == v@.subrange(from as int, v.len() as int),
{
    let mut r: Vec<usize> = Vec::new();
    let mut i: usize = from;
    while i < v.len()
        invariant
            from <= i <= v.len(),
            r@ == v@.subrange(from as int, i as int),
        decreases v.len() - i,
    {
        r.push(v[i]);
        i = i + 1;
        assert(r@ =~= v@.subrange(from as int, i as int));
    }
    r
}

/// A copy of `v`.
pub fn copy_all(v: &Vec<usize>) -> (r: Vec<usize>)
    ensures
        r@ == v@,
{
    let r = copy_from(v, 0);
    assert(v@.subrange(0, v.len() as int) =~= v@);
    r
}

/// A copy of `v`.
pub fn copy_flags(v: &Vec<bool>) -> (r: Vec<bool>)
    ensures
        r@ == v@,
{
    let mut r: Vec<bool> = Vec::new();
    let mut i: usize = 0;
    while i < v.len()
        invariant
            i <= v.len(),
            r@ == v@.take(i as int),
        decreases v.len() - i,
    {
        r.push(v[i]);
        i = i + 1;
        assert(r@ =~= v@.take(i as int));
    }
    assert(v@.take(i as int) =~= v@);
    r
}

/// `n` copies of `false`.
pub fn all_false(n: usize) -> (r: Vec<bool>)
    ensures
        r.len() == n,
        forall|i: int| 0 <= i < n ==> !#[trigger] r@[i],
{
    let mut r: Vec<bool> = Vec::new();
    let mut i: usize = 0;
    while i < n
        invariant
            i <= n,
            r.len() == i,
            forall|k: int| 0 <= k < i ==> !#[trigger] r@[k],
        decreases n - i,
    {
        r.push(false);
        i = i + 1;
    }
    r
}

} // verus!
