//! The graph shared by the editor, the algorithms and the storage layer.
//!
//! Screen coordinates and edge weights are IEEE-754 numbers in the editor; here they are
//! carried by their bit patterns (`f32::to_bits` for coordinates, `f64::to_bits` for
//! weights), so that the graph logic can keep, compare and restore them exactly.

use vstd::prelude::*;

pub mod step_tracker;
pub mod history;
pub mod weight;

verus! {

/// Colour state of a node during an algorithm's animation.
#[derive(Debug, Clone, Copy, PartialEq, Eq, Structural)]
pub enum NodeVisualState {
    /// Not visited yet.
    Unvisited,
    /// Being processed now.
    Current,
    /// Finished.
    Visited,
}

impl Default for NodeVisualState {
    fn default() -> (r: Self)
        ensures
            r == NodeVisualState::Unvisited,
    {
        NodeVisualState::Unvisited
    }
}

/// One node of the graph.
#[derive(Debug)]
pub struct Node {
    /// Identifier of the node (0-based).
    pub id: usize,
    /// Screen x coordinate, as the bit pattern of an `f32`.
    pub x: u32,
    /// Screen y coordinate, as the bit pattern of an `f32`.
    pub y: u32,
    /// Label shown on the canvas, such as "A".
    pub label: String,
    /// Current animation state.
    pub visual_state: NodeVisualState,
}

impl Clone for Node {
    fn clone(&self) -> (r: Self)
        ensures
            r == *self,
    {
        Node {
            id: self.id,
            x: self.x,
            y: self.y,
            label: self.label.clone(),
            visual_state: self.visual_state,
        }
    }
}

/// One edge between two nodes.
#[derive(Debug, Clone, Copy, PartialEq, Eq, Structural)]
pub struct Edge {
    /// Source node id.
    pub from: usize,
    /// Target node id.
    pub to: usize,
    /// Weight, as the bit pattern of an `f64`.
    pub weight: u64,
}

/// The whole graph: nodes, edges and whether edges are directed.
#[derive(Debug)]
pub struct Graph {
    pub nodes: Vec<Node>,
    pub edges: Vec<Edge>,
    /// Whether the edges are directed.
    pub is_directed: bool,
}

/// Mathematical model of a graph.
pub struct GraphView {
    pub nodes: Seq<Node>,
    pub edges: Seq<Edge>,
    pub is_directed: bool,
}

impl View for Graph {
    type V = GraphView;

    open spec fn view(&self) -> GraphView {
        GraphView { nodes: self.nodes@, edges: self.edges@, is_directed: self.is_directed }
    }
}

/// The empty undirected graph.
pub open spec fn empty_graph() -> GraphView {
    GraphView { nodes: Seq::empty(), edges: Seq::empty(), is_directed: false }
}

/// The node that `add_node` appends.
pub open spec fn fresh_node(id: usize, x: u32, y: u32, label: String) -> Node {
    Node { id, x, y, label, visual_state: NodeVisualState::Unvisited }
}

/// The node with its animation state put back to `Unvisited`.
pub open spec fn reset_node(n: Node) -> Node {
    Node { visual_state: NodeVisualState::Unvisited, ..n }
}

/// Every edge endpoint names an index of the node list.
pub open spec fn edges_in_range(g: GraphView) -> bool {
    forall|i: int|
        0 <= i < g.edges.len() ==> (#[trigger] g.edges[i]).from < g.nodes.len() && g.edges[i].to
            < g.nodes.len()
}

/// The neighbours of `node` that edge `e` contributes, in the order `neighbors` lists them:
/// the target when `node` is the source, then (undirected only) the source when `node`
/// is the target.
pub open spec fn edge_neighbors(e: Edge, directed: bool, node: usize) -> Seq<(usize, u64)> {
    let fwd: Seq<(usize, u64)> = if e.from == node { seq![(e.to, e.weight)] } else { seq![] };
    let bwd: Seq<(usize, u64)> = if !directed && e.to == node {
        seq![(e.from, e.weight)]
    } else {
        seq![]
    };
    fwd + bwd
}

/// The neighbour list of `node` over the edges `es`, edge by edge.
pub open spec fn neighbor_list(es: Seq<Edge>, directed: bool, node: usize) -> Seq<(usize, u64)>
    decreases es.len(),
{
    if es.len() == 0 {
        seq![]
    } else {
        neighbor_list(es.drop_last(), directed, node) + edge_neighbors(es.last(), directed, node)
    }
}

/// `v` is adjacent to `u`: some edge leads from `u` to `v`, or, in an undirected graph,
/// from `v` to `u`.
pub open spec fn adjacent(g: GraphView, u: usize, v: usize) -> bool {
    exists|i: int|
        0 <= i < g.edges.len() && ((#[trigger] g.edges[i]).from == u && g.edges[i].to == v || (
        !g.is_directed && g.edges[i].to == u && g.edges[i].from == v))
}

/// `p` is a walk of the graph: each element is adjacent to the one before.
pub open spec fn is_walk(g: GraphView, p: Seq<usize>) -> bool {
    forall|i: int| 0 <= i < p.len() - 1 ==> adjacent(g, #[trigger] p[i], p[i + 1])
}

/// `v` can be reached from `s` by a walk.
pub open spec fn reachable(g: GraphView, s: usize, v: usize) -> bool {
    exists|p: Seq<usize>| p.len() > 0 && p[0] == s && p.last() == v && #[trigger] is_walk(g, p)
}

/// A neighbour entry of `node` comes from an edge that makes it adjacent.
pub proof fn lemma_neighbor_list_adjacent(g: GraphView, node: usize, k: int)
    requires
        0 <= k < neighbor_list(g.edges, g.is_directed, node).len(),
    ensures
        adjacent(g, node, neighbor_list(g.edges, g.is_directed, node)[k].0),
{
    assert(g.edges.take(g.edges.len() as int) =~= g.edges);
    lemma_neighbor_list_prefix_adjacent(g, g.edges.len() as int, node, k);
}

proof fn lemma_neighbor_list_prefix_adjacent(g: GraphView, m: int, node: usize, k: int)
    requires
        0 <= m <= g.edges.len(),
        0 <= k < neighbor_list(g.edges.take(m), g.is_directed, node).len(),
    ensures
        adjacent(g, node, neighbor_list(g.edges.take(m), g.is_directed, node)[k].0),
    decreases m,
{
    let es = g.edges.take(m);
    assert(es.drop_last() =~= g.edges.take(m - 1));
    let prev = neighbor_list(g.edges.take(m - 1), g.is_directed, node);
    if k < prev.len() {
        lemma_neighbor_list_prefix_adjacent(g, m - 1, node, k);
    } else {
        let e = g.edges[m - 1];
        assert(g.edges[m - 1] == es.last());
        let j = m - 1;
        assert(0 <= j < g.edges.len());
    }
}

/// Each edge adjacent to `node` puts the other endpoint in the neighbour list.
pub proof fn lemma_adjacent_in_neighbor_list(g: GraphView, node: usize, v: usize)
    requires
        adjacent(g, node, v),
    ensures
        exists|k: int|
            0 <= k < neighbor_list(g.edges, g.is_directed, node).len()
                && (#[trigger] neighbor_list(g.edges, g.is_directed, node)[k]).0 == v,
{
    let i = choose|i: int|
        0 <= i < g.edges.len() && ((#[trigger] g.edges[i]).from == node && g.edges[i].to == v || (
        !g.is_directed && g.edges[i].to == node && g.edges[i].from == v));
    lemma_adjacent_prefix(g, g.edges.len() as int, node, v, i);
    assert(g.edges.take(g.edges.len() as int) =~= g.edges);
}

proof fn lemma_adjacent_prefix(g: GraphView, m: int, node: usize, v: usize, i: int)
    requires
        0 <= i < m <= g.edges.len(),
        (g.edges[i].from == node && g.edges[i].to == v || (!g.is_directed && g.edges[i].to == node
            && g.edges[i].from == v)),
    ensures
        exists|k: int|
            0 <= k < neighbor_list(g.edges.take(m), g.is_directed, node).len()
                && (#[trigger] neighbor_list(g.edges.take(m), g.is_directed, node)[k]).0 == v,
    decreases m,
{
    let es = g.edges.take(m);
    assert(es.drop_last() =~= g.edges.take(m - 1));
    let prev = neighbor_list(g.edges.take(m - 1), g.is_directed, node);
    let last = edge_neighbors(es.last(), g.is_directed, node);
    let all = neighbor_list(es, g.is_directed, node);
    assert(all == prev + last);
    if i < m - 1 {
        lemma_adjacent_prefix(g, m - 1, node, v, i);
        let k = choose|k: int| 0 <= k < prev.len() && (#[trigger] prev[k]).0 == v;
        assert(all[k] == prev[k]);
    } else {
        assert(es.last() == g.edges[i]);
        if g.edges[i].from == node && g.edges[i].to == v {
            assert(all[prev.len() as int] == last[0]);
        } else {
            if g.edges[i].from == node {
                assert(all[prev.len() as int + 1] == last[1]);
            } else {
                assert(all[prev.len() as int] == last[0]);
            }
        }
    }
}

/// Sum, over the nodes of `order`, of the length of their neighbour lists.
pub open spec fn degree_sum(g: GraphView, order: Seq<usize>) -> nat
    decreases order.len(),
{
    if order.len() == 0 {
        0
    } else {
        degree_sum(g, order.drop_last()) + neighbor_list(g.edges, g.is_directed, order.last()).len()
    }
}

/// `order` lists, each once, exactly the nodes reachable from `s`.
pub open spec fn lists_reachable(g: GraphView, s: usize, order: Seq<usize>) -> bool {
    &&& order.no_duplicates()
    &&& forall|v: usize| order.contains(v) <==> v < g.nodes.len() && reachable(g, s, v)
}

/// How many times `x` occurs in `order`.
pub open spec fn count_of(order: Seq<usize>, x: usize) -> nat
    decreases order.len(),
{
    if order.len() == 0 {
        0
    } else {
        count_of(order.drop_last(), x) + if order.last() == x {
            1nat
        } else {
            0nat
        }
    }
}

proof fn lemma_count_absent(order: Seq<usize>, x: usize)
    requires
        !order.contains(x),
    ensures
        count_of(order, x) == 0,
    decreases order.len(),
{
    if order.len() > 0 {
        assert(order.drop_last().contains(x) ==> order.contains(x)) by {
            if order.drop_last().contains(x) {
                let i = choose|i: int| 0 <= i < order.drop_last().len() && order.drop_last()[i] == x;
                assert(order[i] == x);
            }
        }
        assert(order[order.len() - 1] == order.last());
        lemma_count_absent(order.drop_last(), x);
    }
}

proof fn lemma_count_distinct(order: Seq<usize>, x: usize)
    requires
        order.no_duplicates(),
    ensures
        count_of(order, x) <= 1,
    decreases order.len(),
{
    if order.len() > 0 {
        let d = order.drop_last();
        assert(d.no_duplicates()) by {
            assert forall|a: int, b: int| 0 <= a < d.len() && 0 <= b < d.len() && a != b implies d[a] != d[b] by {
                assert(order[a] != order[b]);
            }
        }
        if order.last() == x {
            assert(!d.contains(x)) by {
                if d.contains(x) {
                    let i = choose|i: int| 0 <= i < d.len() && d[i] == x;
                    assert(order[i] == order[order.len() - 1]);
                }
            }
            lemma_count_absent(d, x);
        } else {
            lemma_count_distinct(d, x);
        }
    }
}

/// Sum, over the nodes of `order`, of the neighbours that edge `e` gives them.
pub open spec fn edge_share(e: Edge, directed: bool, order: Seq<usize>) -> nat
    decreases order.len(),
{
    if order.len() == 0 {
        0
    } else {
        edge_share(e, directed, order.drop_last()) + edge_neighbors(e, directed, order.last()).len()
    }
}

proof fn lemma_edge_share_le(e: Edge, directed: bool, order: Seq<usize>)
    ensures
        edge_share(e, directed, order) <= count_of(order, e.from) + count_of(order, e.to),
    decreases order.len(),
{
    if order.len() > 0 {
        lemma_edge_share_le(e, directed, order.drop_last());
    }
}

/// Sum, over the nodes of `order`, of their neighbour lists over the edges `es`.
pub open spec fn degree_over(es: Seq<Edge>, directed: bool, order: Seq<usize>) -> nat
    decreases order.len(),
{
    if order.len() == 0 {
        0
    } else {
        degree_over(es, directed, order.drop_last()) + neighbor_list(es, directed, order.last()).len()
    }
}

proof fn lemma_degree_over_split(es: Seq<Edge>, directed: bool, order: Seq<usize>)
    requires
        es.len() > 0,
    ensures
        degree_over(es, directed, order) == degree_over(es.drop_last(), directed, order) + edge_share(
            es.last(),
            directed,
            order,
        ),
    decreases order.len(),
{
    if order.len() > 0 {
        lemma_degree_over_split(es, directed, order.drop_last());
    }
}

proof fn lemma_degree_over_bound(es: Seq<Edge>, directed: bool, order: Seq<usize>)
    requires
        order.no_duplicates(),
    ensures
        degree_over(es, directed, order) <= 2 * es.len(),
    decreases es.len(),
{
    if es.len() == 0 {
        lemma_degree_over_empty(es, directed, order);
    } else {
        lemma_degree_over_split(es, directed, order);
        lemma_degree_over_bound(es.drop_last(), directed, order);
        lemma_edge_share_le(es.last(), directed, order);
        lemma_count_distinct(order, es.last().from);
        lemma_count_distinct(order, es.last().to);
    }
}

proof fn lemma_degree_over_empty(es: Seq<Edge>, directed: bool, order: Seq<usize>)
    requires
        es.len() == 0,
    ensures
        degree_over(es, directed, order) == 0,
    decreases order.len(),
{
    if order.len() > 0 {
        lemma_degree_over_empty(es, directed, order.drop_last());
    }
}

proof fn lemma_degree_sum_over(g: GraphView, order: Seq<usize>)
    ensures
        degree_sum(g, order) == degree_over(g.edges, g.is_directed, order),
    decreases order.len(),
{
    if order.len() > 0 {
        lemma_degree_sum_over(g, order.drop_last());
    }
}

/// Over distinct nodes, the neighbour lists hold at most two entries per edge.
pub proof fn lemma_degree_sum_distinct(g: GraphView, order: Seq<usize>)
    requires
        order.no_duplicates(),
    ensures
        degree_sum(g, order) <= 2 * g.edges.len(),
{
    lemma_degree_sum_over(g, order);
    lemma_degree_over_bound(g.edges, g.is_directed, order);
}

/// Every neighbour of a node reachable from `s` is a node of the graph.
pub open spec fn reach_in_range(g: GraphView, s: usize) -> bool {
    forall|u: usize, v: usize| reachable(g, s, u) && #[trigger] adjacent(g, u, v) ==> v < g.nodes.len()
}

/// A neighbour of a node reachable from `s` is a node, when `reach_in_range` holds.
pub proof fn lemma_reach_neighbor_in_range(g: GraphView, s: usize, node: usize, k: int)
    requires
        reach_in_range(g, s),
        reachable(g, s, node),
        0 <= k < neighbor_list(g.edges, g.is_directed, node).len(),
    ensures
        neighbor_list(g.edges, g.is_directed, node)[k].0 < g.nodes.len(),
{
    lemma_neighbor_list_adjacent(g, node, k);
}

/// Moving the top of `st` to the end of `dn` keeps the elements of `st + dn`.
proof fn lemma_move_top(st: Seq<usize>, dn: Seq<usize>)
    requires
        st.len() > 0,
        (st + dn).no_duplicates(),
    ensures
        (st.drop_last() + dn.push(st.last())).no_duplicates(),
        forall|x: usize| #[trigger] (st.drop_last() + dn.push(st.last())).contains(x) == (st + dn).contains(x),
{
    let a = st + dn;
    let b = st.drop_last() + dn.push(st.last());
    let m = st.len() - 1;
    // position in `a` of each position of `b`
    let pos = |i: int| if i < m { i } else if i < b.len() - 1 { i + 1 } else { m };
    assert forall|i: int| 0 <= i < b.len() implies #[trigger] b[i] == a[pos(i)] && 0 <= pos(i) < a.len() by {
        if i < m {
        } else if i < b.len() - 1 {
            assert(b[i] == dn[i - m]);
            assert(a[i + 1] == dn[i + 1 - st.len()]);
        } else {
            assert(b[i] == st.last());
        }
    }
    assert forall|i: int, j: int| 0 <= i < b.len() && 0 <= j < b.len() && i != j implies b[i] != b[j] by {
        assert(b[i] == a[pos(i)] && b[j] == a[pos(j)]);
        assert(pos(i) != pos(j));
    }
    assert forall|x: usize| #[trigger] b.contains(x) == a.contains(x) by {
        if b.contains(x) {
            let i = choose|i: int| 0 <= i < b.len() && b[i] == x;
            assert(a[pos(i)] == x);
        }
        if a.contains(x) {
            let j = choose|j: int| 0 <= j < a.len() && a[j] == x;
            if j < m {
                assert(b[j] == x);
            } else if j == m {
                assert(b[b.len() - 1] == x);
            } else {
                assert(b[j - 1] == a[j]);
            }
        }
    }
}

/// Every node reaches itself.
pub proof fn lemma_reach_self(g: GraphView, s: usize)
    ensures
        reachable(g, s, s),
{
    let p = seq![s];
    assert(is_walk(g, p));
}

/// A walk to `u` followed by a step to an adjacent `v` is a walk to `v`.
pub proof fn lemma_reach_step(g: GraphView, s: usize, u: usize, v: usize)
    requires
        reachable(g, s, u),
        adjacent(g, u, v),
    ensures
        reachable(g, s, v),
{
    let p = choose|p: Seq<usize>| p.len() > 0 && p[0] == s && p.last() == u && #[trigger] is_walk(g, p);
    let q = p.push(v);
    assert forall|i: int| 0 <= i < q.len() - 1 implies adjacent(g, #[trigger] q[i], q[i + 1]) by {
        if i < p.len() - 1 {
            assert(q[i] == p[i] && q[i + 1] == p[i + 1]);
        }
    }
    assert(is_walk(g, q));
}

/// A set of nodes that holds `s` and every node adjacent to one of its members holds
/// every node reachable from `s`.
pub proof fn lemma_closed_holds_reachable(g: GraphView, s: usize, inside: spec_fn(usize) -> bool, v: usize)
    requires
        inside(s),
        forall|a: usize, b: usize| inside(a) && #[trigger] adjacent(g, a, b) ==> inside(b),
        reachable(g, s, v),
    ensures
        inside(v),
{
    let p = choose|p: Seq<usize>| p.len() > 0 && p[0] == s && p.last() == v && #[trigger] is_walk(g, p);
    lemma_walk_inside(g, p, inside, p.len() - 1);
}

proof fn lemma_walk_inside(g: GraphView, p: Seq<usize>, inside: spec_fn(usize) -> bool, i: int)
    requires
        0 <= i < p.len(),
        inside(p[0]),
        is_walk(g, p),
        forall|a: usize, b: usize| inside(a) && #[trigger] adjacent(g, a, b) ==> inside(b),
    ensures
        inside(p[i]),
    decreases i,
{
    if i > 0 {
        lemma_walk_inside(g, p, inside, i - 1);
        assert(adjacent(g, p[i - 1], p[i]));
    }
}

/// A list of distinct numbers below `n` has at most `n` entries.
pub proof fn lemma_distinct_below(s: Seq<usize>, n: usize)
    requires
        s.no_duplicates(),
        forall|i: int| 0 <= i < s.len() ==> #[trigger] s[i] < n,
    ensures
        s.len() <= n,
{
    let t = s.map_values(|x: usize| x as int);
    assert(t.no_duplicates()) by {
        assert forall|i: int, j: int| 0 <= i < t.len() && 0 <= j < t.len() && i != j implies t[i] != t[j] by {
            assert(s[i] != s[j]);
        }
    }
    t.unique_seq_to_set();
    vstd::set_lib::lemma_int_range(0, n as int);
    assert(t.to_set().subset_of(vstd::set_lib::set_int_range(0, n as int))) by {
        assert forall|x: int| t.to_set().contains(x) implies vstd::set_lib::set_int_range(0, n as int).contains(x) by {
            let i = choose|i: int| 0 <= i < t.len() && t[i] == x;
            assert(s[i] < n);
        }
    }
    vstd::set_lib::lemma_len_subset(t.to_set(), vstd::set_lib::set_int_range(0, n as int));
}

/// A list of distinct nodes that holds every node holds exactly the nodes.
pub proof fn lemma_covers_below(s: Seq<usize>, n: usize)
    requires
        s.no_duplicates(),
        forall|i: int| 0 <= i < s.len() ==> #[trigger] s[i] < n,
        forall|v: usize| v < n ==> #[trigger] s.contains(v),
    ensures
        s.len() == n,
{
    lemma_distinct_below(s, n);
    let t = s.map_values(|x: usize| x as int);
    assert(t.no_duplicates()) by {
        assert forall|i: int, j: int| 0 <= i < t.len() && 0 <= j < t.len() && i != j implies t[i] != t[j] by {
            assert(s[i] != s[j]);
        }
    }
    t.unique_seq_to_set();
    vstd::seq_lib::seq_to_set_is_finite(t);
    vstd::set_lib::lemma_int_range(0, n as int);
    assert(vstd::set_lib::set_int_range(0, n as int).subset_of(t.to_set())) by {
        assert forall|x: int| vstd::set_lib::set_int_range(0, n as int).contains(x) implies t.to_set().contains(x) by {
            let v = x as usize;
            assert(s.contains(v));
            let i = choose|i: int| 0 <= i < s.len() && s[i] == v;
            assert(t[i] == x);
        }
    }
    vstd::set_lib::lemma_len_subset(vstd::set_lib::set_int_range(0, n as int), t.to_set());
}

impl Default for Graph {
    fn default() -> (g: Self)
        ensures
            g@ == empty_graph(),
    {
        Graph { nodes: Vec::new(), edges: Vec::new(), is_directed: false }
    }
}

impl Graph {
    /// An empty undirected graph.
    pub fn new() -> (g: Self)
        ensures
            g@ == empty_graph(),
    {
        Graph { nodes: Vec::new(), edges: Vec::new(), is_directed: false }
    }

    /// A copy of the graph.
    pub fn duplicate(&self) -> (r: Graph)
        ensures
            r@ == self@,
    {
        let mut nodes: Vec<Node> = Vec::new();
        let mut i: usize = 0;
        while i < self.nodes.len()
            invariant
                i <= self.nodes.len(),
                nodes@ == self.nodes@.take(i as int),
            decreases self.nodes.len() - i,
        {
            nodes.push(self.nodes[i].clone());
            i = i + 1;
            assert(nodes@ =~= self.nodes@.take(i as int));
        }
        assert(self.nodes@.take(i as int) =~= self.nodes@);
        let mut edges: Vec<Edge> = Vec::new();
        let mut j: usize = 0;
        while j < self.edges.len()
            invariant
                j <= self.edges.len(),
                edges@ == self.edges@.take(j as int),
            decreases self.edges.len() - j,
        {
            edges.push(self.edges[j]);
            j = j + 1;
            assert(edges@ =~= self.edges@.take(j as int));
        }
        assert(self.edges@.take(j as int) =~= self.edges@);
        Graph { nodes, edges, is_directed: self.is_directed }
    }

    /// Appends a node whose id is the current node count and returns that id.
    pub fn add_node(&mut self, x: u32, y: u32, label: String) -> (id: usize)
        requires
            old(self).nodes.len() < usize::MAX,
        ensures
            id == old(self).nodes.len(),
            final(self).nodes@ == old(self).nodes@.push(fresh_node(id, x, y, label)),
            final(self).edges@ == old(self).edges@,
            final(self).is_directed == old(self).is_directed,
    {
        let id = self.nodes.len();
        self.nodes.push(Node { id, x, y, label, visual_state: NodeVisualState::Unvisited });
        id
    }

    /// Appends an edge.
    pub fn add_edge(&mut self, from: usize, to: usize, weight: u64)
        ensures
            final(self).edges@ == old(self).edges@.push(Edge { from, to, weight }),
            final(self).nodes@ == old(self).nodes@,
            final(self).is_directed == old(self).is_directed,
    {
        self.edges.push(Edge { from, to, weight });
    }

    /// Puts every node back to `Unvisited`, leaving everything else as it was.
    pub fn reset_visual_states(&mut self)
        ensures
            final(self).nodes.len() == old(self).nodes.len(),
            forall|i: int|
                0 <= i < final(self).nodes.len() ==> #[trigger] final(self).nodes@[i] == reset_node(
                    old(self).nodes@[i],
                ),
            final(self).edges@ == old(self).edges@,
            final(self).is_directed == old(self).is_directed,
    {
        let mut i: usize = 0;
        while i < self.nodes.len()
            invariant
                i <= self.nodes.len(),
                self.nodes.len() == old(self).nodes.len(),
                forall|k: int|
                    0 <= k < i ==> #[trigger] self.nodes@[k] == reset_node(old(self).nodes@[k]),
                forall|k: int| i <= k < self.nodes.len() ==> #[trigger] self.nodes@[k] == old(self).nodes@[k],
                self.edges@ == old(self).edges@,
                self.is_directed == old(self).is_directed,
            decreases self.nodes.len() - i,
        {
            let mut node = self.nodes[i].clone();
            node.visual_state = NodeVisualState::Unvisited;
            self.nodes.set(i, node);
            i = i + 1;
        }
    }

    /// The neighbours of `node_id` with the weight of the edge that leads there: for each
    /// edge in order, its target when `node_id` is its source, then, in an undirected
    /// graph, its source when `node_id` is its target.
    pub fn neighbors(&self, node_id: usize) -> (r: Vec<(usize, u64)>)
        ensures
            r@ == neighbor_list(self.edges@, self.is_directed, node_id),
    {
        let mut result: Vec<(usize, u64)> = Vec::new();
        let mut i: usize = 0;
        while i < self.edges.len()
            invariant
                i <= self.edges.len(),
                result@ == neighbor_list(self.edges@.take(i as int), self.is_directed, node_id),
            decreases self.edges.len() - i,
        {
            let e = self.edges[i];
            let ghost before = result@;
            if e.from == node_id {
                result.push((e.to, e.weight));
            }
            if !self.is_directed && e.to == node_id {
                result.push((e.from, e.weight));
            }
            proof {
                assert(self.edges@.take(i + 1).drop_last() =~= self.edges@.take(i as int));
                assert(result@ =~= before + edge_neighbors(e, self.is_directed, node_id));
            }
            i = i + 1;
        }
        assert(self.edges@.take(i as int) =~= self.edges@);
        result
    }

    /// Whether every neighbour of every node reachable from `start` is a node of the
    /// graph, so that a search from `start` meets no edge to a missing node.
    pub fn reaches_only_nodes(&self, start: usize) -> (r: bool)
        requires
            start < self.nodes.len(),
        ensures
            r == reach_in_range(self@, start),
    {
        let ghost g = self@;
        let n = self.nodes.len();
        let mut seen: Vec<bool> = Vec::new();
        let mut z: usize = 0;
        while z < n
            invariant
                z <= n,
                seen.len() == z,
                forall|v: int| 0 <= v < z ==> !#[trigger] seen@[v],
            decreases n - z,
        {
            seen.push(false);
            z = z + 1;
        }
        let mut stack: Vec<usize> = Vec::new();
        let mut done: Vec<usize> = Vec::new();
        seen.set(start, true);
        stack.push(start);
        proof {
            lemma_reach_self(g, start);
            assert(stack@ + done@ =~= seq![start]);
            assert forall|v: usize| v < n implies seen@[v as int] == (stack@ + done@).contains(v) by {
                if v == start {
                    assert((stack@ + done@)[0] == start);
                }
            }
        }
        while stack.len() > 0
            invariant
                self@ == g,
                n == self.nodes.len(),
                start < n,
                seen.len() == n,
                seen@[start as int],
                (stack@ + done@).no_duplicates(),
                forall|i: int| 0 <= i < (stack@ + done@).len() ==> #[trigger] (stack@ + done@)[i] < n,
                forall|i: int| 0 <= i < (stack@ + done@).len() ==> reachable(g, start, #[trigger] (stack@ + done@)[i]),
                forall|v: usize| v < n ==> seen@[v as int] == (stack@ + done@).contains(v),
                forall|i: int, k: int|
                    0 <= i < done.len() && 0 <= k < neighbor_list(g.edges, g.is_directed, done@[i]).len() ==> (
                    #[trigger] neighbor_list(g.edges, g.is_directed, done@[i])[k]).0 < n && seen@[neighbor_list(
                        g.edges,
                        g.is_directed,
                        done@[i],
                    )[k].0 as int],
            decreases n - (stack.len() + done.len()), stack.len(),
        {
            proof {
                lemma_distinct_below(stack@ + done@, n);
            }
            let ghost all0 = stack@ + done@;
            let ghost st0 = stack@;
            let ghost dn0 = done@;
            let u = stack.pop().unwrap();
            done.push(u);
            proof {
                assert(stack@ == st0.drop_last() && done@ == dn0.push(st0.last()));
                lemma_move_top(st0, dn0);
                let all1 = stack@ + done@;
                assert forall|i: int| 0 <= i < all1.len() implies #[trigger] all1[i] < n && reachable(g, start, all1[i]) by {
                    assert(all1.contains(all1[i]));
                    assert(all0.contains(all1[i]));
                    let j = choose|j: int| 0 <= j < all0.len() && all0[j] == all1[i];
                }
                assert(all1.contains(u)) by {
                    assert(all1[all1.len() - 1] == u);
                }
                assert(all0.contains(u));
            }
            let nb = self.neighbors(u);
            let ghost nbs = nb@;
            let ghost sz0 = stack.len();
            let ghost dl0 = done.len();
            let mut j: usize = 0;
            while j < nb.len()
                invariant
                    stack.len() >= sz0,
                    done.len() == dl0,
                    self@ == g,
                    n == self.nodes.len(),
                    start < n,
                    seen.len() == n,
                    seen@[start as int],
                    nb@ == nbs,
                    nbs == neighbor_list(g.edges, g.is_directed, u),
                    j <= nb.len(),
                    done.len() > 0,
                    done@.last() == u,
                    reachable(g, start, u),
                    (stack@ + done@).no_duplicates(),
                    forall|i: int| 0 <= i < (stack@ + done@).len() ==> #[trigger] (stack@ + done@)[i] < n,
                    forall|i: int| 0 <= i < (stack@ + done@).len() ==> reachable(g, start, #[trigger] (stack@ + done@)[i]),
                    forall|v: usize| v < n ==> seen@[v as int] == (stack@ + done@).contains(v),
                    forall|i: int, k: int|
                        0 <= i < done.len() - 1 && 0 <= k < neighbor_list(g.edges, g.is_directed, done@[i]).len() ==> (
                        #[trigger] neighbor_list(g.edges, g.is_directed, done@[i])[k]).0 < n && seen@[neighbor_list(
                            g.edges,
                            g.is_directed,
                            done@[i],
                        )[k].0 as int],
                    forall|k: int| 0 <= k < j ==> (#[trigger] nbs[k]).0 < n && seen@[nbs[k].0 as int],
                decreases nb.len() - j,
            {
                let (v, _w) = nb[j];
                proof {
                    lemma_neighbor_list_adjacent(g, u, j as int);
                }
                if v >= n {
                    proof {
                        assert(adjacent(g, u, v));
                        assert(!reach_in_range(g, start));
                    }
                    return false;
                }
                if !seen[v] {
                    let ghost all1 = stack@ + done@;
                    let ghost sd1 = seen@;
                    seen.set(v, true);
                    stack.push(v);
                    proof {
                        lemma_reach_step(g, start, u, v);
                        assert(!all1.contains(v));
                        assert(stack@ + done@ =~= (stack@.drop_last() + done@).insert(stack@.len() - 1, v)) by {}
                        let all2 = stack@ + done@;
                        assert forall|x: usize| #[trigger] all2.contains(x) == (all1.contains(x) || x == v) by {
                            if all2.contains(x) {
                                let i = choose|i: int| 0 <= i < all2.len() && all2[i] == x;
                                if i < stack.len() - 1 {
                                    assert(all1[i] == x);
                                } else if i >= stack.len() {
                                    assert(all1[i - 1] == x);
                                }
                            }
                            if all1.contains(x) {
                                let i = choose|i: int| 0 <= i < all1.len() && all1[i] == x;
                                if i < stack.len() - 1 {
                                    assert(all2[i] == x);
                                } else {
                                    assert(all2[i + 1] == x);
                                }
                            }
                            if x == v {
                                assert(all2[stack.len() - 1] == v);
                            }
                        }
                        assert(all2.no_duplicates()) by {
                            assert forall|a: int, b: int| 0 <= a < all2.len() && 0 <= b < all2.len() && a != b implies all2[a]
                                != all2[b] by {
                                let sl = stack.len() - 1;
                                let ia = if a < sl { a } else if a == sl { -1 } else { a - 1 };
                                let ib = if b < sl { b } else if b == sl { -1 } else { b - 1 };
                                if ia >= 0 && ib >= 0 {
                                    assert(all2[a] == all1[ia] && all2[b] == all1[ib]);
                                } else if ia >= 0 {
                                    assert(all2[a] == all1[ia]);
                                    assert(all1.contains(all1[ia]));
                                } else if ib >= 0 {
                                    assert(all2[b] == all1[ib]);
                                    assert(all1.contains(all1[ib]));
                                }
                            }
                        }
                        assert forall|i: int| 0 <= i < all2.len() implies #[trigger] all2[i] < n && reachable(g, start, all2[i]) by {
                            let sl = stack.len() - 1;
                            if i < sl {
                                assert(all2[i] == all1[i]);
                            } else if i > sl {
                                assert(all2[i] == all1[i - 1]);
                            }
                        }
                        assert forall|x: usize| x < n implies seen@[x as int] == all2.contains(x) by {
                            if x != v {
                                assert(seen@[x as int] == sd1[x as int]);
                            }
                        }
                        assert forall|i: int, k: int|
                            0 <= i < done.len() - 1 && 0 <= k < neighbor_list(g.edges, g.is_directed, done@[i]).len() implies (
                            #[trigger] neighbor_list(g.edges, g.is_directed, done@[i])[k]).0 < n && seen@[neighbor_list(
                                g.edges,
                                g.is_directed,
                                done@[i],
                            )[k].0 as int] by {
                            assert(sd1[neighbor_list(g.edges, g.is_directed, done@[i])[k].0 as int]);
                        }
                        assert forall|k: int| 0 <= k < j implies (#[trigger] nbs[k]).0 < n && seen@[nbs[k].0 as int] by {
                            assert(sd1[nbs[k].0 as int]);
                        }
                    }
                }
                j = j + 1;
            }
            proof {
                lemma_distinct_below(stack@ + done@, n);
            }
        }
        proof {
            assert(stack@ + done@ =~= done@);
            let inside = |x: usize| done@.contains(x);
            assert forall|a: usize, b: usize| inside(a) && #[trigger] adjacent(g, a, b) implies inside(b) by {
                let i = choose|i: int| 0 <= i < done.len() && done@[i] == a;
                lemma_adjacent_in_neighbor_list(g, a, b);
                let k = choose|k: int|
                    0 <= k < neighbor_list(g.edges, g.is_directed, a).len()
                        && (#[trigger] neighbor_list(g.edges, g.is_directed, a)[k]).0 == b;
                assert(seen@[b as int]);
            }
            assert(inside(start)) by {
                assert(seen@[start as int]);
            }
            assert forall|u: usize, v: usize| reachable(g, start, u) && #[trigger] adjacent(g, u, v) implies v < g.nodes.len() by {
                lemma_closed_holds_reachable(g, start, inside, u);
                let i = choose|i: int| 0 <= i < done.len() && done@[i] == u;
                lemma_adjacent_in_neighbor_list(g, u, v);
                let k = choose|k: int|
                    0 <= k < neighbor_list(g.edges, g.is_directed, u).len()
                        && (#[trigger] neighbor_list(g.edges, g.is_directed, u)[k]).0 == v;
            }
        }
        true
    }
}

} // verus!
