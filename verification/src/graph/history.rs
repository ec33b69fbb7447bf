//! Editing history of the graph: every edit is recorded as a command, which can be
//! undone and redone.
//!
//! The meaning of each command is given by `apply_spec` (doing it) and `inverse_spec`
//! (undoing it); `restores` says when undoing brings back exactly the graph the command
//! was applied to, and `lemma_undo_restores` proves that it then does.

use vstd::prelude::*;
use crate::graph::{Graph, GraphView, Node, Edge, NodeVisualState, fresh_node};
use crate::graph::weight::{is_finite_weight, same_weight, weights_match, lemma_same_weight_reflexive};

verus! {

/// An edit that can be applied to a graph and undone.
#[derive(Debug)]
pub enum GraphCommand {
    /// Add a node.
    AddNode { id: usize, x: u32, y: u32, label: String },
    /// Remove a node together with the edges that touch it.
    RemoveNode {
        id: usize,
        x: u32,
        y: u32,
        label: String,
        /// The edges removed with the node, restored on undo.
        removed_edges: Vec<Edge>,
    },
    /// Add an edge; undone by removing the first edge that matches it as `RemoveEdge` does.
    AddEdge { from: usize, to: usize, weight: u64 },
    /// Remove the first edge with these ends whose weight matches (`same_weight`: the
    /// difference of the two `f64` weights is below `f64::EPSILON`).
    RemoveEdge {
        from: usize,
        to: usize,
        weight: u64,
        /// Position the edge held in the edge list, where undo puts it back.
        edge_index: usize,
    },
    /// Move a node.
    MoveNode { id: usize, from_x: u32, from_y: u32, to_x: u32, to_y: u32 },
    /// Change a node's label.
    RenameNode { id: usize, old_label: String, new_label: String },
    /// Change an edge's weight.
    UpdateEdgeWeight { from: usize, to: usize, old_weight: u64, new_weight: u64 },
    /// Switch between directed and undirected.
    ToggleDirected { was_directed: bool },
    /// Replace the whole graph (clearing, loading).
    ReplaceGraph { old_graph: Graph, new_graph: Graph },
    /// Close the gap left by taking out the node at position `removed`: edge ends above
    /// it move down by one and every node's identifier becomes its position.
    Renumber { removed: usize },
    /// Several commands applied as one step.
    Batch(Vec<GraphCommand>),
}

// ───────────────────────────── sequence helpers ─────────────────────────────

/// Index of the first element of `s` that satisfies `p`, or `s.len()` when there is none.
pub open spec fn first_match<A>(s: Seq<A>, p: spec_fn(A) -> bool) -> int
    decreases s.len(),
{
    if s.len() == 0 {
        0
    } else if p(s[0]) {
        0
    } else {
        1 + first_match(s.drop_first(), p)
    }
}

/// What characterises `first_match`.
pub open spec fn is_first_match<A>(s: Seq<A>, p: spec_fn(A) -> bool, i: int) -> bool {
    &&& 0 <= i <= s.len()
    &&& forall|j: int| 0 <= j < i ==> !p(#[trigger] s[j])
    &&& i < s.len() ==> p(s[i])
}

pub proof fn lemma_first_match<A>(s: Seq<A>, p: spec_fn(A) -> bool)
    ensures
        is_first_match(s, p, first_match(s, p)),
    decreases s.len(),
{
    if s.len() > 0 && !p(s[0]) {
        lemma_first_match(s.drop_first(), p);
        let r = first_match(s.drop_first(), p);
        assert forall|j: int| 0 <= j < r + 1 implies !p(#[trigger] s[j]) by {
            if j > 0 {
                assert(s[j] == s.drop_first()[j - 1]);
            }
        }
        if r + 1 < s.len() {
            assert(s[r + 1] == s.drop_first()[r]);
        }
    }
}

pub proof fn lemma_first_match_unique<A>(s: Seq<A>, p: spec_fn(A) -> bool, i: int)
    requires
        is_first_match(s, p, i),
    ensures
        first_match(s, p) == i,
{
    lemma_first_match(s, p);
    let r = first_match(s, p);
    if r < i {
        assert(!p(s[r]));
    } else if i < r {
        assert(!p(s[i]));
    }
}

/// `s` without its first element that satisfies `p`.
pub open spec fn remove_first<A>(s: Seq<A>, p: spec_fn(A) -> bool) -> Seq<A> {
    let i = first_match(s, p);
    if i < s.len() {
        s.remove(i)
    } else {
        s
    }
}

/// Filtering with a predicate that every element satisfies changes nothing.
pub proof fn lemma_filter_all<A>(s: Seq<A>, p: spec_fn(A) -> bool)
    requires
        forall|i: int| 0 <= i < s.len() ==> p(#[trigger] s[i]),
    ensures
        s.filter(p) == s,
    decreases s.len(),
{
    reveal(Seq::filter);
    if s.len() > 0 {
        lemma_filter_all(s.drop_last(), p);
        assert(s.drop_last().push(s.last()) =~= s);
    }
}

// ───────────────────────────── node and edge predicates ─────────────────────

pub open spec fn node_has_id(id: usize) -> spec_fn(Node) -> bool {
    |n: Node| n.id == id
}

pub open spec fn node_not_id(id: usize) -> spec_fn(Node) -> bool {
    |n: Node| n.id != id
}

pub open spec fn node_id_above(id: usize) -> spec_fn(Node) -> bool {
    |n: Node| n.id > id
}

pub open spec fn edge_not_touching(id: usize) -> spec_fn(Edge) -> bool {
    |e: Edge| e.from != id && e.to != id
}

pub open spec fn edge_touching(id: usize) -> spec_fn(Edge) -> bool {
    |e: Edge| e.from == id || e.to == id
}

/// The edge from `from` to `to` of weight `weight`, as a command finds it.
pub open spec fn edge_is(from: usize, to: usize, weight: u64) -> spec_fn(Edge) -> bool {
    |e: Edge| e.from == from && e.to == to && same_weight(e.weight, weight)
}

pub open spec fn edge_joins(from: usize, to: usize) -> spec_fn(Edge) -> bool {
    |e: Edge| e.from == from && e.to == to
}

/// The first node with id `id` moved to `(x, y)`; unchanged when there is none.
pub open spec fn move_first(ns: Seq<Node>, id: usize, x: u32, y: u32) -> Seq<Node> {
    let k = first_match(ns, node_has_id(id));
    if k < ns.len() {
        ns.update(k, Node { x: x, y: y, ..ns[k] })
    } else {
        ns
    }
}

/// The first node with id `id` relabelled; unchanged when there is none.
pub open spec fn relabel_first(ns: Seq<Node>, id: usize, label: String) -> Seq<Node> {
    let k = first_match(ns, node_has_id(id));
    if k < ns.len() {
        ns.update(k, Node { label: label, ..ns[k] })
    } else {
        ns
    }
}

/// The first edge from `from` to `to` given weight `w`; unchanged when there is none.
pub open spec fn reweigh_first(es: Seq<Edge>, from: usize, to: usize, w: u64) -> Seq<Edge> {
    let k = first_match(es, edge_joins(from, to));
    if k < es.len() {
        es.update(k, Edge { weight: w, ..es[k] })
    } else {
        es
    }
}

/// `x` placed after every element of `s` whose id is at most `x.id`.
pub open spec fn insert_by_id(s: Seq<Node>, x: Node) -> Seq<Node> {
    s.insert(first_match(s, node_id_above(x.id)), x)
}

/// The stable sort of `s` by node id.
pub open spec fn sort_by_id(s: Seq<Node>) -> Seq<Node>
    decreases s.len(),
{
    if s.len() == 0 {
        s
    } else {
        insert_by_id(sort_by_id(s.drop_last()), s.last())
    }
}

/// Node ids strictly increase along `s`.
pub open spec fn ids_increasing(s: Seq<Node>) -> bool {
    forall|i: int, j: int| 0 <= i < j < s.len() ==> s[i].id < s[j].id
}

/// A node index after the node at `removed` is taken out: indices above it move down.
pub open spec fn shifted(i: usize, removed: usize) -> usize {
    if i > removed {
        (i - 1) as usize
    } else {
        i
    }
}

/// A node index after a node is put back at `removed`: indices from it on move up.
pub open spec fn raised(i: usize, removed: usize) -> usize {
    if i >= removed && i < usize::MAX {
        (i + 1) as usize
    } else {
        i
    }
}

/// The graph `g` renumbered after the node at `removed` was taken out: edge endpoints
/// above `removed` move down by one and every node's identifier becomes its position.
pub open spec fn renumbered(g: GraphView, removed: usize) -> GraphView {
    GraphView {
        nodes: Seq::new(g.nodes.len(), |i: int| Node { id: i as usize, ..g.nodes[i] }),
        edges: Seq::new(
            g.edges.len(),
            |i: int|
                Edge {
                    from: shifted(g.edges[i].from, removed),
                    to: shifted(g.edges[i].to, removed),
                    ..g.edges[i]
                },
        ),
        is_directed: g.is_directed,
    }
}

/// The numbering of `g` opened again at `removed`: edge endpoints from `removed` on move
/// up by one, and node identifiers skip `removed`.
pub open spec fn unrenumbered(g: GraphView, removed: usize) -> GraphView {
    GraphView {
        nodes: Seq::new(
            g.nodes.len(),
            |i: int|
                Node {
                    id: (if i < removed {
                        i
                    } else {
                        i + 1
                    }) as usize,
                    ..g.nodes[i]
                },
        ),
        edges: Seq::new(
            g.edges.len(),
            |i: int|
                Edge {
                    from: raised(g.edges[i].from, removed),
                    to: raised(g.edges[i].to, removed),
                    ..g.edges[i]
                },
        ),
        is_directed: g.is_directed,
    }
}

// ───────────────────────────── meaning of the commands ──────────────────────

/// The graph after doing `c` on `g`.
pub open spec fn apply_spec(g: GraphView, c: GraphCommand) -> GraphView
    decreases c,
{
    match c {
        GraphCommand::AddNode { id, x, y, label } => {
            if id >= g.nodes.len() {
                GraphView { nodes: g.nodes.push(fresh_node(id, x, y, label)), ..g }
            } else {
                g
            }
        },
        GraphCommand::RemoveNode { id, .. } => GraphView {
            nodes: g.nodes.filter(node_not_id(id)),
            edges: g.edges.filter(edge_not_touching(id)),
            is_directed: g.is_directed,
        },
        GraphCommand::AddEdge { from, to, weight } => GraphView {
            edges: g.edges.push(Edge { from, to, weight }),
            ..g
        },
        GraphCommand::RemoveEdge { from, to, weight, .. } => GraphView {
            edges: remove_first(g.edges, edge_is(from, to, weight)),
            ..g
        },
        GraphCommand::MoveNode { id, to_x, to_y, .. } => GraphView {
            nodes: move_first(g.nodes, id, to_x, to_y),
            ..g
        },
        GraphCommand::RenameNode { id, new_label, .. } => GraphView {
            nodes: relabel_first(g.nodes, id, new_label),
            ..g
        },
        GraphCommand::UpdateEdgeWeight { from, to, new_weight, .. } => GraphView {
            edges: reweigh_first(g.edges, from, to, new_weight),
            ..g
        },
        GraphCommand::ToggleDirected { .. } => GraphView { is_directed: !g.is_directed, ..g },
        GraphCommand::ReplaceGraph { new_graph, .. } => new_graph@,
        GraphCommand::Renumber { removed } => renumbered(g, removed),
        GraphCommand::Batch(cmds) => apply_all(g, cmds@),
    }
}

/// The graph after doing each of `cs` in order.
pub open spec fn apply_all(g: GraphView, cs: Seq<GraphCommand>) -> GraphView
    decreases cs,
{
    if cs.len() == 0 {
        g
    } else {
        apply_spec(apply_all(g, cs.drop_last()), cs.last())
    }
}

/// The graph after undoing `c` on `g`.
pub open spec fn inverse_spec(g: GraphView, c: GraphCommand) -> GraphView
    decreases c,
{
    match c {
        GraphCommand::AddNode { id, .. } => GraphView {
            nodes: g.nodes.filter(node_not_id(id)),
            edges: g.edges.filter(edge_not_touching(id)),
            is_directed: g.is_directed,
        },
        GraphCommand::RemoveNode { id, x, y, label, removed_edges } => GraphView {
            nodes: sort_by_id(g.nodes.push(fresh_node(id, x, y, label))),
            edges: g.edges + removed_edges@,
            is_directed: g.is_directed,
        },
        GraphCommand::AddEdge { from, to, weight } => GraphView {
            edges: remove_first(g.edges, edge_is(from, to, weight)),
            ..g
        },
        GraphCommand::RemoveEdge { from, to, weight, edge_index } => GraphView {
            edges: g.edges.insert(
                if edge_index < g.edges.len() {
                    edge_index as int
                } else {
                    g.edges.len() as int
                },
                Edge { from, to, weight },
            ),
            ..g
        },
        GraphCommand::MoveNode { id, from_x, from_y, .. } => GraphView {
            nodes: move_first(g.nodes, id, from_x, from_y),
            ..g
        },
        GraphCommand::RenameNode { id, old_label, .. } => GraphView {
            nodes: relabel_first(g.nodes, id, old_label),
            ..g
        },
        GraphCommand::UpdateEdgeWeight { from, to, old_weight, .. } => GraphView {
            edges: reweigh_first(g.edges, from, to, old_weight),
            ..g
        },
        GraphCommand::ToggleDirected { .. } => GraphView { is_directed: !g.is_directed, ..g },
        GraphCommand::ReplaceGraph { old_graph, .. } => old_graph@,
        GraphCommand::Renumber { removed } => unrenumbered(g, removed),
        GraphCommand::Batch(cmds) => inverse_all(g, cmds@),
    }
}

/// The graph after undoing each of `cs`, last first.
pub open spec fn inverse_all(g: GraphView, cs: Seq<GraphCommand>) -> GraphView
    decreases cs,
{
    if cs.len() == 0 {
        g
    } else {
        inverse_all(inverse_spec(g, cs.last()), cs.drop_last())
    }
}


// ───────────────────────────── when undo restores ───────────────────────────

/// Undoing `c` right after doing it on `g` gives `g` back. This holds when:
/// - `AddNode`: no node of `g` has the id and no edge touches it;
/// - `RemoveNode`: node ids strictly increase, the removed node is exactly the one the
///   command describes (animation state `Unvisited`), and the edges touching it are the
///   last ones, in the order the command lists them;
/// - `AddEdge`: the weight is finite and `g` has no edge the command would take for it;
/// - `RemoveEdge`: the first edge the command matches sits at `edge_index` and is exactly
///   the edge the command carries;
/// - `MoveNode`, `RenameNode`, `UpdateEdgeWeight`: the first matching node or edge has
///   the old position, label or weight (or there is none);
/// - `ToggleDirected`: always;
/// - `ReplaceGraph`: `g` is the old graph;
/// - `Renumber`: the node identifiers skip `removed` (each is its position below it, one
///   more from it on) and no edge touches `removed`;
/// - `Batch`: each command restores the graph it is applied to.
pub open spec fn restores(g: GraphView, c: GraphCommand) -> bool
    decreases c,
{
    match c {
        GraphCommand::AddNode { id, .. } => {
            &&& forall|i: int| 0 <= i < g.nodes.len() ==> (#[trigger] g.nodes[i]).id != id
            &&& forall|i: int|
                0 <= i < g.edges.len() ==> (#[trigger] g.edges[i]).from != id && g.edges[i].to != id
        },
        GraphCommand::RemoveNode { id, x, y, label, removed_edges } => {
            &&& ids_increasing(g.nodes)
            &&& exists|k: int| 0 <= k < g.nodes.len() && #[trigger] g.nodes[k] == fresh_node(id, x, y, label)
            &&& g.edges == g.edges.filter(edge_not_touching(id)) + removed_edges@
        },
        GraphCommand::AddEdge { from, to, weight } => {
            &&& is_finite_weight(weight)
            &&& forall|i: int| 0 <= i < g.edges.len() ==> !edge_is(from, to, weight)(#[trigger] g.edges[i])
        },
        GraphCommand::RemoveEdge { from, to, weight, edge_index } => {
            &&& edge_index < g.edges.len()
            &&& first_match(g.edges, edge_is(from, to, weight)) == edge_index
            &&& g.edges[edge_index as int] == Edge { from, to, weight }
        },
        GraphCommand::MoveNode { id, from_x, from_y, .. } => {
            let k = first_match(g.nodes, node_has_id(id));
            k < g.nodes.len() ==> g.nodes[k].x == from_x && g.nodes[k].y == from_y
        },
        GraphCommand::RenameNode { id, old_label, .. } => {
            let k = first_match(g.nodes, node_has_id(id));
            k < g.nodes.len() ==> g.nodes[k].label == old_label
        },
        GraphCommand::UpdateEdgeWeight { from, to, old_weight, .. } => {
            let k = first_match(g.edges, edge_joins(from, to));
            k < g.edges.len() ==> g.edges[k].weight == old_weight
        },
        GraphCommand::ToggleDirected { .. } => true,
        GraphCommand::ReplaceGraph { old_graph, .. } => g == old_graph@,
        GraphCommand::Renumber { removed } => {
            &&& forall|i: int|
                0 <= i < g.nodes.len() ==> (#[trigger] g.nodes[i]).id == (if i < removed {
                    i
                } else {
                    i + 1
                })
            &&& forall|i: int|
                0 <= i < g.edges.len() ==> (#[trigger] g.edges[i]).from != removed && g.edges[i].to
                    != removed
        },
        GraphCommand::Batch(cmds) => restores_all(g, cmds@),
    }
}

/// Each of `cs` restores the graph that the commands before it produced from `g`.
pub open spec fn restores_all(g: GraphView, cs: Seq<GraphCommand>) -> bool
    decreases cs,
{
    if cs.len() == 0 {
        true
    } else {
        restores_all(g, cs.drop_last()) && restores(apply_all(g, cs.drop_last()), cs.last())
    }
}

/// Undo cancels a command: undoing `c` right after doing it on `g` gives back `g`,
/// whenever `restores(g, c)` holds.
pub proof fn lemma_undo_restores(g: GraphView, c: GraphCommand)
    requires
        restores(g, c),
    ensures
        inverse_spec(apply_spec(g, c), c) == g,
    decreases c,
{
    match c {
        GraphCommand::AddNode { id, x, y, label } => {
            lemma_filter_all(g.nodes, node_not_id(id));
            lemma_filter_all(g.edges, edge_not_touching(id));
            if id >= g.nodes.len() {
                g.nodes.lemma_filter_push(fresh_node(id, x, y, label), node_not_id(id));
            }
        },
        GraphCommand::RemoveNode { id, x, y, label, removed_edges } => {
            lemma_remove_node_restores(g, id, x, y, label);
        },
        GraphCommand::AddEdge { from, to, weight } => {
            lemma_same_weight_reflexive(weight);
            let e = Edge { from, to, weight };
            let es = g.edges.push(e);
            assert(is_first_match(es, edge_is(from, to, weight), g.edges.len() as int)) by {
                assert forall|j: int| 0 <= j < g.edges.len() implies !edge_is(from, to, weight)(
                    #[trigger] es[j],
                ) by {
                    assert(es[j] == g.edges[j]);
                    assert(!edge_is(from, to, weight)(g.edges[j]));
                }
            }
            lemma_first_match_unique(es, edge_is(from, to, weight), g.edges.len() as int);
            assert(es.remove(g.edges.len() as int) =~= g.edges);
        },
        GraphCommand::RemoveEdge { from, to, weight, edge_index } => {
            let k = edge_index as int;
            lemma_first_match(g.edges, edge_is(from, to, weight));
            let removed = g.edges.remove(k);
            assert(removed.insert(k, Edge { from, to, weight }) =~= g.edges);
        },
        GraphCommand::MoveNode { id, from_x, from_y, to_x, to_y } => {
            let k = first_match(g.nodes, node_has_id(id));
            lemma_first_match(g.nodes, node_has_id(id));
            if k < g.nodes.len() {
                let moved = g.nodes.update(k, Node { x: to_x, y: to_y, ..g.nodes[k] });
                assert(is_first_match(moved, node_has_id(id), k)) by {
                    assert forall|j: int| 0 <= j < k implies !node_has_id(id)(#[trigger] moved[j]) by {
                        assert(moved[j] == g.nodes[j]);
                    }
                }
                lemma_first_match_unique(moved, node_has_id(id), k);
                assert(moved.update(k, Node { x: from_x, y: from_y, ..moved[k] }) =~= g.nodes);
            }
        },
        GraphCommand::RenameNode { id, old_label, new_label } => {
            let k = first_match(g.nodes, node_has_id(id));
            lemma_first_match(g.nodes, node_has_id(id));
            if k < g.nodes.len() {
                let moved = g.nodes.update(k, Node { label: new_label, ..g.nodes[k] });
                assert(is_first_match(moved, node_has_id(id), k)) by {
                    assert forall|j: int| 0 <= j < k implies !node_has_id(id)(#[trigger] moved[j]) by {
                        assert(moved[j] == g.nodes[j]);
                    }
                }
                lemma_first_match_unique(moved, node_has_id(id), k);
                assert(moved.update(k, Node { label: old_label, ..moved[k] }) =~= g.nodes);
            }
        },
        GraphCommand::UpdateEdgeWeight { from, to, old_weight, new_weight } => {
            let k = first_match(g.edges, edge_joins(from, to));
            lemma_first_match(g.edges, edge_joins(from, to));
            if k < g.edges.len() {
                let moved = g.edges.update(k, Edge { weight: new_weight, ..g.edges[k] });
                assert(is_first_match(moved, edge_joins(from, to), k)) by {
                    assert forall|j: int| 0 <= j < k implies !edge_joins(from, to)(#[trigger] moved[j]) by {
                        assert(moved[j] == g.edges[j]);
                    }
                }
                lemma_first_match_unique(moved, edge_joins(from, to), k);
                assert(moved.update(k, Edge { weight: old_weight, ..moved[k] }) =~= g.edges);
            }
        },
        GraphCommand::ToggleDirected { .. } => {},
        GraphCommand::ReplaceGraph { .. } => {},
        GraphCommand::Renumber { removed } => {
            let u = unrenumbered(renumbered(g, removed), removed);
            assert(u.nodes =~= g.nodes);
            assert(u.edges =~= g.edges);
        },
        GraphCommand::Batch(cmds) => {
            lemma_undo_restores_all(g, cmds@);
        },
    }
}

/// Undoing a sequence of commands, last first, right after doing them gives back `g`.
pub proof fn lemma_undo_restores_all(g: GraphView, cs: Seq<GraphCommand>)
    requires
        restores_all(g, cs),
    ensures
        inverse_all(apply_all(g, cs), cs) == g,
    decreases cs,
{
    if cs.len() > 0 {
        let before = apply_all(g, cs.drop_last());
        lemma_undo_restores(before, cs.last());
        lemma_undo_restores_all(g, cs.drop_last());
    }
}

pub proof fn lemma_remove_node_restores(g: GraphView, id: usize, x: u32, y: u32, label: String)
    requires
        ids_increasing(g.nodes),
        exists|k: int| 0 <= k < g.nodes.len() && #[trigger] g.nodes[k] == fresh_node(id, x, y, label),
    ensures
        sort_by_id(g.nodes.filter(node_not_id(id)).push(fresh_node(id, x, y, label))) == g.nodes,
{
    let x = fresh_node(id, x, y, label);
    let ns = g.nodes;
    let k = choose|k: int| 0 <= k < ns.len() && #[trigger] ns[k] == x;
    assert forall|i: int| 0 <= i < ns.len() && i != k implies node_not_id(id)(#[trigger] ns[i]) by {
        if i < k {
            assert(ns[i].id < ns[k].id);
        } else {
            assert(ns[k].id < ns[i].id);
        }
    }
    lemma_filter_remove_one(ns, node_not_id(id), k);
    let f = ns.remove(k);
    assert(ids_increasing(f)) by {
        assert forall|i: int, j: int| 0 <= i < j < f.len() implies f[i].id < f[j].id by {
            let oi = if i < k { i } else { i + 1 };
            let oj = if j < k { j } else { j + 1 };
            assert(f[i] == ns[oi]);
            assert(f[j] == ns[oj]);
        }
    }
    lemma_sort_sorted(f);
    let fp = f.push(x);
    assert(fp.drop_last() =~= f);
    assert(sort_by_id(fp) == insert_by_id(sort_by_id(f), x));
    assert(is_first_match(f, node_id_above(x.id), k)) by {
        assert forall|j: int| 0 <= j < k implies !node_id_above(x.id)(#[trigger] f[j]) by {
            assert(f[j] == ns[j]);
            assert(ns[j].id < ns[k].id);
        }
        if k < f.len() {
            assert(f[k] == ns[k + 1]);
            assert(ns[k].id < ns[k + 1].id);
        }
    }
    lemma_first_match_unique(f, node_id_above(x.id), k);
    assert(f.insert(k, x) =~= ns);
}

/// Filtering out the one element that fails the predicate removes it.
pub proof fn lemma_filter_remove_one<A>(s: Seq<A>, p: spec_fn(A) -> bool, k: int)
    requires
        0 <= k < s.len(),
        !p(s[k]),
        forall|i: int| 0 <= i < s.len() && i != k ==> p(#[trigger] s[i]),
    ensures
        s.filter(p) == s.remove(k),
    decreases s.len(),
{
    reveal(Seq::filter);
    let d = s.drop_last();
    if k == s.len() - 1 {
        assert forall|i: int| 0 <= i < d.len() implies p(#[trigger] d[i]) by {
            assert(d[i] == s[i]);
        }
        lemma_filter_all(d, p);
        assert(s.remove(k) =~= d);
    } else {
        assert forall|i: int| 0 <= i < d.len() && i != k implies p(#[trigger] d[i]) by {
            assert(d[i] == s[i]);
        }
        assert(d[k] == s[k]);
        lemma_filter_remove_one(d, p, k);
        assert(p(s[s.len() - 1]));
        assert(d.remove(k).push(s.last()) =~= s.remove(k));
    }
}

/// Sorting a sequence whose ids already increase changes nothing.
pub proof fn lemma_sort_sorted(s: Seq<Node>)
    requires
        ids_increasing(s),
    ensures
        sort_by_id(s) == s,
    decreases s.len(),
{
    if s.len() > 0 {
        let d = s.drop_last();
        assert(ids_increasing(d)) by {
            assert forall|i: int, j: int| 0 <= i < j < d.len() implies d[i].id < d[j].id by {
                assert(d[i] == s[i] && d[j] == s[j]);
            }
        }
        lemma_sort_sorted(d);
        let last = s.last();
        assert(is_first_match(d, node_id_above(last.id), d.len() as int)) by {
            assert forall|j: int| 0 <= j < d.len() implies !node_id_above(last.id)(#[trigger] d[j]) by {
                assert(d[j] == s[j]);
                assert(s[j].id < s[s.len() - 1].id);
            }
        }
        lemma_first_match_unique(d, node_id_above(last.id), d.len() as int);
        assert(d.insert(d.len() as int, last) =~= s);
    }
}


// ───────────────────────────── executable helpers ───────────────────────────

fn nodes_without_id(nodes: &Vec<Node>, id: usize) -> (r: Vec<Node>)
    ensures
        r@ == nodes@.filter(node_not_id(id)),
{
    let mut r: Vec<Node> = Vec::new();
    let mut i: usize = 0;
    while i < nodes.len()
        invariant
            i <= nodes.len(),
            r@ == nodes@.take(i as int).filter(node_not_id(id)),
        decreases nodes.len() - i,
    {
        proof {
            assert(nodes@.take(i + 1) =~= nodes@.take(i as int).push(nodes@[i as int]));
            nodes@.take(i as int).lemma_filter_push(nodes@[i as int], node_not_id(id));
        }
        if nodes[i].id != id {
            r.push(nodes[i].clone());
        }
        i = i + 1;
    }
    assert(nodes@.take(i as int) =~= nodes@);
    r
}

fn edges_filtered(edges: &Vec<Edge>, id: usize, touching: bool) -> (r: Vec<Edge>)
    ensures
        r@ == edges@.filter(if touching { edge_touching(id) } else { edge_not_touching(id) }),
{
    let ghost p = if touching { edge_touching(id) } else { edge_not_touching(id) };
    let mut r: Vec<Edge> = Vec::new();
    let mut i: usize = 0;
    while i < edges.len()
        invariant
            i <= edges.len(),
            p == (if touching { edge_touching(id) } else { edge_not_touching(id) }),
            r@ == edges@.take(i as int).filter(p),
        decreases edges.len() - i,
    {
        proof {
            assert(edges@.take(i + 1) =~= edges@.take(i as int).push(edges@[i as int]));
            edges@.take(i as int).lemma_filter_push(edges@[i as int], p);
        }
        let e = edges[i];
        let hit = e.from == id || e.to == id;
        if hit == touching {
            r.push(e);
        }
        i = i + 1;
    }
    assert(edges@.take(i as int) =~= edges@);
    r
}

fn position_node(nodes: &Vec<Node>, id: usize) -> (k: usize)
    ensures
        k == first_match(nodes@, node_has_id(id)),
{
    let mut i: usize = 0;
    while i < nodes.len() && nodes[i].id != id
        invariant
            i <= nodes.len(),
            forall|j: int| 0 <= j < i ==> !node_has_id(id)(#[trigger] nodes@[j]),
        decreases nodes.len() - i,
    {
        i = i + 1;
    }
    proof {
        lemma_first_match_unique(nodes@, node_has_id(id), i as int);
    }
    i
}

fn position_node_above(nodes: &Vec<Node>, id: usize) -> (k: usize)
    ensures
        k == first_match(nodes@, node_id_above(id)),
{
    let mut i: usize = 0;
    while i < nodes.len() && nodes[i].id <= id
        invariant
            i <= nodes.len(),
            forall|j: int| 0 <= j < i ==> !node_id_above(id)(#[trigger] nodes@[j]),
        decreases nodes.len() - i,
    {
        i = i + 1;
    }
    proof {
        lemma_first_match_unique(nodes@, node_id_above(id), i as int);
    }
    i
}

fn position_edge(edges: &Vec<Edge>, from: usize, to: usize, weight: u64) -> (k: usize)
    ensures
        k == first_match(edges@, edge_is(from, to, weight)),
{
    let mut i: usize = 0;
    while i < edges.len() && !(edges[i].from == from && edges[i].to == to && weights_match(
        edges[i].weight,
        weight,
    ))
        invariant
            i <= edges.len(),
            forall|j: int| 0 <= j < i ==> !edge_is(from, to, weight)(#[trigger] edges@[j]),
        decreases edges.len() - i,
    {
        i = i + 1;
    }
    proof {
        lemma_first_match_unique(edges@, edge_is(from, to, weight), i as int);
    }
    i
}

fn position_edge_joining(edges: &Vec<Edge>, from: usize, to: usize) -> (k: usize)
    ensures
        k == first_match(edges@, edge_joins(from, to)),
{
    let mut i: usize = 0;
    while i < edges.len() && !(edges[i].from == from && edges[i].to == to)
        invariant
            i <= edges.len(),
            forall|j: int| 0 <= j < i ==> !edge_joins(from, to)(#[trigger] edges@[j]),
        decreases edges.len() - i,
    {
        i = i + 1;
    }
    proof {
        lemma_first_match_unique(edges@, edge_joins(from, to), i as int);
    }
    i
}

fn sorted_by_id(nodes: &Vec<Node>) -> (r: Vec<Node>)
    ensures
        r@ == sort_by_id(nodes@),
{
    let mut r: Vec<Node> = Vec::new();
    let mut i: usize = 0;
    while i < nodes.len()
        invariant
            i <= nodes.len(),
            r@ == sort_by_id(nodes@.take(i as int)),
        decreases nodes.len() - i,
    {
        let x = nodes[i].clone();
        let pos = position_node_above(&r, x.id);
        proof {
            lemma_first_match(r@, node_id_above(x.id));
            assert(nodes@.take(i + 1).drop_last() =~= nodes@.take(i as int));
        }
        r.insert(pos, x);
        i = i + 1;
    }
    assert(nodes@.take(i as int) =~= nodes@);
    r
}

fn remove_first_edge(edges: &mut Vec<Edge>, from: usize, to: usize, weight: u64)
    ensures
        final(edges)@ == remove_first(old(edges)@, edge_is(from, to, weight)),
{
    let pos = position_edge(edges, from, to, weight);
    if pos < edges.len() {
        edges.remove(pos);
    }
}

fn move_first_node(nodes: &mut Vec<Node>, id: usize, x: u32, y: u32)
    ensures
        final(nodes)@ == move_first(old(nodes)@, id, x, y),
{
    let k = position_node(nodes, id);
    if k < nodes.len() {
        let mut n = nodes[k].clone();
        n.x = x;
        n.y = y;
        nodes.set(k, n);
    }
}

fn relabel_first_node(nodes: &mut Vec<Node>, id: usize, label: &String)
    ensures
        final(nodes)@ == relabel_first(old(nodes)@, id, *label),
{
    let k = position_node(nodes, id);
    if k < nodes.len() {
        let mut n = nodes[k].clone();
        n.label = label.clone();
        nodes.set(k, n);
    }
}

fn reweigh_first_edge(edges: &mut Vec<Edge>, from: usize, to: usize, w: u64)
    ensures
        final(edges)@ == reweigh_first(old(edges)@, from, to, w),
{
    let k = position_edge_joining(edges, from, to);
    if k < edges.len() {
        let mut e = edges[k];
        e.weight = w;
        edges.set(k, e);
    }
}

fn restore_node(
    graph: &mut Graph,
    id: usize,
    x: u32,
    y: u32,
    label: &String,
    removed_edges: &Vec<Edge>,
)
    ensures
        final(graph)@ == (GraphView {
            nodes: sort_by_id(old(graph)@.nodes.push(fresh_node(id, x, y, *label))),
            edges: old(graph)@.edges + removed_edges@,
            is_directed: old(graph)@.is_directed,
        }),
{
    graph.nodes.push(
        Node { id, x, y, label: label.clone(), visual_state: NodeVisualState::Unvisited },
    );
    graph.nodes = sorted_by_id(&graph.nodes);
    let ghost before = graph.edges@;
    let ghost sorted = graph.nodes@;
    let mut i: usize = 0;
    while i < removed_edges.len()
        invariant
            i <= removed_edges.len(),
            graph.nodes@ == sorted,
            graph.is_directed == old(graph).is_directed,
            graph.edges@ == before + removed_edges@.take(i as int),
        decreases removed_edges.len() - i,
    {
        graph.edges.push(removed_edges[i]);
        i = i + 1;
        assert(graph.edges@ =~= before + removed_edges@.take(i as int));
    }
    assert(removed_edges@.take(i as int) =~= removed_edges@);
}

/// After the node at position `removed` has been taken out, renumbers the graph: edge endpoints above
/// `removed` move down by one and every node's identifier becomes its position.
pub fn renumber_after_removal(graph: &mut Graph, removed: usize)
    ensures
        final(graph)@ == renumbered(old(graph)@, removed),
        final(graph).nodes.len() == old(graph).nodes.len(),
        final(graph).edges.len() == old(graph).edges.len(),
        final(graph).is_directed == old(graph).is_directed,
        forall|i: int| 0 <= i < old(graph).edges.len() ==> #[trigger] final(graph).edges@[i] == (Edge {
            from: shifted(old(graph).edges@[i].from, removed),
            to: shifted(old(graph).edges@[i].to, removed),
            ..old(graph).edges@[i]
        }),
        forall|i: int| 0 <= i < old(graph).nodes.len() ==> #[trigger] final(graph).nodes@[i] == (Node {
            id: i as usize,
            ..old(graph).nodes@[i]
        }),
{
    let ghost g0 = *graph;
    let mut k: usize = 0;
    while k < graph.edges.len()
        invariant
            k <= graph.edges.len(),
            graph.edges.len() == g0.edges.len(),
            graph.nodes@ == g0.nodes@,
            graph.is_directed == g0.is_directed,
            forall|i: int| 0 <= i < k ==> #[trigger] graph.edges@[i] == (Edge {
                from: shifted(g0.edges@[i].from, removed),
                to: shifted(g0.edges@[i].to, removed),
                ..g0.edges@[i]
            }),
            forall|i: int| k <= i < graph.edges.len() ==> #[trigger] graph.edges@[i] == g0.edges@[i],
        decreases graph.edges.len() - k,
    {
        let e = graph.edges[k];
        let from = if e.from > removed { e.from - 1 } else { e.from };
        let to = if e.to > removed { e.to - 1 } else { e.to };
        graph.edges.set(k, Edge { from, to, weight: e.weight });
        k = k + 1;
    }
    let mut j: usize = 0;
    while j < graph.nodes.len()
        invariant
            j <= graph.nodes.len(),
            graph.nodes.len() == g0.nodes.len(),
            graph.edges.len() == g0.edges.len(),
            graph.is_directed == g0.is_directed,
            forall|i: int| 0 <= i < g0.edges.len() ==> #[trigger] graph.edges@[i] == (Edge {
                from: shifted(g0.edges@[i].from, removed),
                to: shifted(g0.edges@[i].to, removed),
                ..g0.edges@[i]
            }),
            forall|i: int| 0 <= i < j ==> #[trigger] graph.nodes@[i] == (Node { id: i as usize, ..g0.nodes@[i] }),
            forall|i: int| j <= i < graph.nodes.len() ==> #[trigger] graph.nodes@[i] == g0.nodes@[i],
        decreases graph.nodes.len() - j,
    {
        let mut nd = graph.nodes[j].clone();
        nd.id = j;
        graph.nodes.set(j, nd);
        j = j + 1;
    }
    assert(graph@.nodes =~= renumbered(g0@, removed).nodes);
    assert(graph@.edges =~= renumbered(g0@, removed).edges);
}


/// Opens the numbering of `graph` again at `removed`, undoing `renumber_after_removal`.
fn unrenumber(graph: &mut Graph, removed: usize)
    ensures
        final(graph)@ == unrenumbered(old(graph)@, removed),
{
    let ghost g0 = *graph;
    let mut k: usize = 0;
    while k < graph.edges.len()
        invariant
            k <= graph.edges.len(),
            graph.edges.len() == g0.edges.len(),
            graph.nodes@ == g0.nodes@,
            graph.is_directed == g0.is_directed,
            forall|i: int| 0 <= i < k ==> #[trigger] graph.edges@[i] == (Edge {
                from: raised(g0.edges@[i].from, removed),
                to: raised(g0.edges@[i].to, removed),
                ..g0.edges@[i]
            }),
            forall|i: int| k <= i < graph.edges.len() ==> #[trigger] graph.edges@[i] == g0.edges@[i],
        decreases graph.edges.len() - k,
    {
        let e = graph.edges[k];
        let from = if e.from >= removed && e.from < usize::MAX { e.from + 1 } else { e.from };
        let to = if e.to >= removed && e.to < usize::MAX { e.to + 1 } else { e.to };
        graph.edges.set(k, Edge { from, to, weight: e.weight });
        k = k + 1;
    }
    let mut j: usize = 0;
    while j < graph.nodes.len()
        invariant
            j <= graph.nodes.len(),
            graph.nodes.len() == g0.nodes.len(),
            graph.edges.len() == g0.edges.len(),
            graph.is_directed == g0.is_directed,
            forall|i: int| 0 <= i < g0.edges.len() ==> #[trigger] graph.edges@[i] == (Edge {
                from: raised(g0.edges@[i].from, removed),
                to: raised(g0.edges@[i].to, removed),
                ..g0.edges@[i]
            }),
            forall|i: int| 0 <= i < j ==> #[trigger] graph.nodes@[i] == (Node {
                id: (if i < removed { i } else { i + 1 }) as usize,
                ..g0.nodes@[i]
            }),
            forall|i: int| j <= i < graph.nodes.len() ==> #[trigger] graph.nodes@[i] == g0.nodes@[i],
        decreases graph.nodes.len() - j,
    {
        let mut nd = graph.nodes[j].clone();
        nd.id = if j < removed { j } else { j + 1 };
        graph.nodes.set(j, nd);
        j = j + 1;
    }
    assert(graph@.nodes =~= unrenumbered(g0@, removed).nodes);
    assert(graph@.edges =~= unrenumbered(g0@, removed).edges);
}

// ───────────────────────────── applying commands ────────────────────────────

/// Does `cmd` on `graph`.
pub fn apply_command(graph: &mut Graph, cmd: &GraphCommand)
    ensures
        final(graph)@ == apply_spec(old(graph)@, *cmd),
    decreases cmd,
{
    match cmd {
        GraphCommand::AddNode { id, x, y, label } => {
            if *id >= graph.nodes.len() {
                graph.nodes.push(
                    Node {
                        id: *id,
                        x: *x,
                        y: *y,
                        label: label.clone(),
                        visual_state: NodeVisualState::Unvisited,
                    },
                );
            }
        },
        GraphCommand::RemoveNode { id, .. } => {
            graph.nodes = nodes_without_id(&graph.nodes, *id);
            graph.edges = edges_filtered(&graph.edges, *id, false);
        },
        GraphCommand::AddEdge { from, to, weight } => {
            graph.edges.push(Edge { from: *from, to: *to, weight: *weight });
        },
        GraphCommand::RemoveEdge { from, to, weight, .. } => {
            remove_first_edge(&mut graph.edges, *from, *to, *weight);
        },
        GraphCommand::MoveNode { id, to_x, to_y, .. } => {
            move_first_node(&mut graph.nodes, *id, *to_x, *to_y);
        },
        GraphCommand::RenameNode { id, new_label, .. } => {
            relabel_first_node(&mut graph.nodes, *id, new_label);
        },
        GraphCommand::UpdateEdgeWeight { from, to, new_weight, .. } => {
            reweigh_first_edge(&mut graph.edges, *from, *to, *new_weight);
        },
        GraphCommand::ToggleDirected { .. } => {
            graph.is_directed = !graph.is_directed;
        },
        GraphCommand::ReplaceGraph { new_graph, .. } => {
            *graph = new_graph.duplicate();
        },
        GraphCommand::Renumber { removed } => {
            renumber_after_removal(graph, *removed);
        },
        GraphCommand::Batch(cmds) => {
            let ghost g0 = old(graph)@;
            let mut i: usize = 0;
            #[verifier::loop_isolation(false)]
            while i < cmds.len()
                invariant
                    i <= cmds.len(),
                    graph@ == apply_all(g0, cmds@.take(i as int)),
                decreases cmds.len() - i,
            {
                proof {
                    assert(decreases_to!(*cmd => cmds@[i as int]));
                }
                apply_command(graph, &cmds[i]);
                proof {
                    assert(cmds@.take(i + 1).drop_last() =~= cmds@.take(i as int));
                }
                i = i + 1;
            }
            assert(cmds@.take(i as int) =~= cmds@);
        },
    }
}

/// Undoes `cmd` on `graph`.
pub fn apply_inverse(graph: &mut Graph, cmd: &GraphCommand)
    ensures
        final(graph)@ == inverse_spec(old(graph)@, *cmd),
    decreases cmd,
{
    match cmd {
        GraphCommand::AddNode { id, .. } => {
            graph.nodes = nodes_without_id(&graph.nodes, *id);
            graph.edges = edges_filtered(&graph.edges, *id, false);
        },
        GraphCommand::RemoveNode { id, x, y, label, removed_edges } => {
            restore_node(graph, *id, *x, *y, label, removed_edges);
        },
        GraphCommand::AddEdge { from, to, weight } => {
            remove_first_edge(&mut graph.edges, *from, *to, *weight);
        },
        GraphCommand::RemoveEdge { from, to, weight, edge_index } => {
            let pos = if *edge_index < graph.edges.len() {
                *edge_index
            } else {
                graph.edges.len()
            };
            graph.edges.insert(pos, Edge { from: *from, to: *to, weight: *weight });
        },
        GraphCommand::MoveNode { id, from_x, from_y, .. } => {
            move_first_node(&mut graph.nodes, *id, *from_x, *from_y);
        },
        GraphCommand::RenameNode { id, old_label, .. } => {
            relabel_first_node(&mut graph.nodes, *id, old_label);
        },
        GraphCommand::UpdateEdgeWeight { from, to, old_weight, .. } => {
            reweigh_first_edge(&mut graph.edges, *from, *to, *old_weight);
        },
        GraphCommand::ToggleDirected { .. } => {
            graph.is_directed = !graph.is_directed;
        },
        GraphCommand::ReplaceGraph { old_graph, .. } => {
            *graph = old_graph.duplicate();
        },
        GraphCommand::Renumber { removed } => {
            unrenumber(graph, *removed);
        },
        GraphCommand::Batch(cmds) => {
            let ghost g0 = old(graph)@;
            let mut k: usize = cmds.len();
            assert(cmds@.take(k as int) =~= cmds@);
            #[verifier::loop_isolation(false)]
            while k > 0
                invariant
                    k <= cmds.len(),
                    inverse_all(g0, cmds@) == inverse_all(graph@, cmds@.take(k as int)),
                decreases k,
            {
                proof {
                    assert(cmds@.take(k as int).drop_last() =~= cmds@.take(k - 1));
                    assert(decreases_to!(*cmd => cmds@[k - 1]));
                }
                apply_inverse(graph, &cmds[k - 1]);
                k = k - 1;
            }
            assert(cmds@.take(cmds.len() as int) =~= cmds@);
        },
    }
}


// ───────────────────────────── building commands ────────────────────────────

/// The command that removes the first node with id `node_id`, carrying that node's
/// position and label and the edges that touch it; `None` when no node has that id.
pub fn build_remove_node_command(graph: &Graph, node_id: usize) -> (r: Option<GraphCommand>)
    ensures
        ({
            let k = first_match(graph@.nodes, node_has_id(node_id));
            match r {
                None => k == graph@.nodes.len(),
                Some(c) => k < graph@.nodes.len() && (c matches GraphCommand::RemoveNode {
                    id,
                    x,
                    y,
                    label,
                    removed_edges,
                } && id == node_id && x == graph@.nodes[k].x && y == graph@.nodes[k].y && label
                    == graph@.nodes[k].label && removed_edges@ == graph@.edges.filter(
                    edge_touching(node_id),
                )),
            }
        }),
{
    let k = position_node(&graph.nodes, node_id);
    if k == graph.nodes.len() {
        return None;
    }
    proof {
        lemma_first_match(graph@.nodes, node_has_id(node_id));
    }
    let node = &graph.nodes[k];
    let removed_edges = edges_filtered(&graph.edges, node_id, true);
    Some(
        GraphCommand::RemoveNode {
            id: node.id,
            x: node.x,
            y: node.y,
            label: node.label.clone(),
            removed_edges,
        },
    )
}

/// The command that removes the first edge from `from` to `to`, carrying its weight and
/// position; `None` when there is no such edge. When that weight is finite, undoing the
/// command right after doing it gives the graph back.
pub fn build_remove_edge_command(graph: &Graph, from: usize, to: usize) -> (r: Option<
    GraphCommand,
>)
    ensures
        ({
            let k = first_match(graph@.edges, edge_joins(from, to));
            match r {
                None => k == graph@.edges.len(),
                Some(c) => k < graph@.edges.len() && c == (GraphCommand::RemoveEdge {
                    from,
                    to,
                    weight: graph@.edges[k].weight,
                    edge_index: k as usize,
                }) && (is_finite_weight(graph@.edges[k].weight) ==> restores(graph@, c)),
            }
        }),
{
    let k = position_edge_joining(&graph.edges, from, to);
    if k == graph.edges.len() {
        return None;
    }
    proof {
        lemma_first_match(graph@.edges, edge_joins(from, to));
    }
    let e = graph.edges[k];
    proof {
        let es = graph@.edges;
        if is_finite_weight(e.weight) {
            lemma_same_weight_reflexive(e.weight);
        }
        assert(is_finite_weight(e.weight) ==> edge_is(from, to, e.weight)(es[k as int]));
        assert(is_finite_weight(e.weight) ==> is_first_match(es, edge_is(from, to, e.weight), k as int)) by {
            assert forall|j: int| 0 <= j < k implies !edge_is(from, to, e.weight)(
                #[trigger] es[j],
            ) by {
                assert(!edge_joins(from, to)(es[j]));
            }
        }
        if is_finite_weight(e.weight) {
            lemma_first_match_unique(es, edge_is(from, to, e.weight), k as int);
        }
    }
    Some(GraphCommand::RemoveEdge { from: e.from, to: e.to, weight: e.weight, edge_index: k })
}

// ───────────────────────────── the history ──────────────────────────────────

/// Model of the history: commands that can be undone (oldest first), commands that can
/// be redone (the next one last), the bound on the undo stack and the edit counter.
pub struct HistoryView {
    pub undo: Seq<GraphCommand>,
    pub redo: Seq<GraphCommand>,
    pub max_history: nat,
    pub edit_count: nat,
}

/// Recording pushes the command, drops the oldest one when the bound is exceeded,
/// clears the redo stack and counts the edit.
pub open spec fn record_spec(h: HistoryView, c: GraphCommand) -> HistoryView {
    let pushed = h.undo.push(c);
    HistoryView {
        undo: if pushed.len() > h.max_history {
            pushed.drop_first()
        } else {
            pushed
        },
        redo: seq![],
        max_history: h.max_history,
        edit_count: h.edit_count + 1,
    }
}

/// Undo moves the newest command to the redo stack; nothing happens when there is none.
pub open spec fn undo_spec(h: HistoryView) -> HistoryView {
    if h.undo.len() == 0 {
        h
    } else {
        HistoryView { undo: h.undo.drop_last(), redo: h.redo.push(h.undo.last()), ..h }
    }
}

/// Redo moves the newest undone command back and counts the edit; nothing happens when
/// there is none.
pub open spec fn redo_spec(h: HistoryView) -> HistoryView {
    if h.redo.len() == 0 {
        h
    } else {
        HistoryView {
            undo: h.undo.push(h.redo.last()),
            redo: h.redo.drop_last(),
            max_history: h.max_history,
            edit_count: h.edit_count + 1,
        }
    }
}

/// The two stacks together never hold more than the bound.
pub open spec fn history_wf(h: HistoryView) -> bool {
    h.undo.len() + h.redo.len() <= h.max_history
}

/// Undo/redo manager that keeps at most `max_history` commands.
#[derive(Debug)]
pub struct GraphHistory {
    undo_stack: Vec<GraphCommand>,
    redo_stack: Vec<GraphCommand>,
    max_history: usize,
    /// Number of edits recorded or redone.
    pub edit_count: usize,
}

impl View for GraphHistory {
    type V = HistoryView;

    closed spec fn view(&self) -> HistoryView {
        HistoryView {
            undo: self.undo_stack@,
            redo: self.redo_stack@,
            max_history: self.max_history as nat,
            edit_count: self.edit_count as nat,
        }
    }
}

impl Default for GraphHistory {
    /// An empty history with bound 0, as a derived default gives.
    fn default() -> (h: Self)
        ensures
            h@ == (HistoryView { undo: seq![], redo: seq![], max_history: 0, edit_count: 0 }),
    {
        let h = GraphHistory {
            undo_stack: Vec::new(),
            redo_stack: Vec::new(),
            max_history: 0,
            edit_count: 0,
        };
        assert(h@.undo =~= seq![]);
        assert(h@.redo =~= seq![]);
        h
    }
}

impl GraphHistory {
    /// An empty history that keeps at most `max_history` commands (at least 1).
    pub fn new(max_history: usize) -> (h: Self)
        ensures
            h@ == (HistoryView {
                undo: seq![],
                redo: seq![],
                max_history: if max_history >= 1 {
                    max_history as nat
                } else {
                    1
                },
                edit_count: 0,
            }),
    {
        let m = if max_history >= 1 {
            max_history
        } else {
            1
        };
        let h = GraphHistory { undo_stack: Vec::new(), redo_stack: Vec::new(), max_history: m, edit_count: 0 };
        assert(h@.undo =~= seq![]);
        assert(h@.redo =~= seq![]);
        h
    }

    /// Records a command that has just been applied. The redo stack is cleared and the
    /// oldest command is dropped when the bound is exceeded.
    pub fn record(&mut self, cmd: GraphCommand)
        requires
            old(self)@.edit_count < usize::MAX,
        ensures
            final(self)@ == record_spec(old(self)@, cmd),
    {
        self.redo_stack.clear();
        self.undo_stack.push(cmd);
        self.edit_count = self.edit_count + 1;
        if self.undo_stack.len() > self.max_history {
            self.undo_stack.remove(0);
        }
        assert(self@.redo =~= seq![]);
        assert(self@.undo =~= record_spec(old(self)@, cmd).undo);
    }

    /// Whether there is a command to undo.
    pub fn can_undo(&self) -> (r: bool)
        ensures
            r == (self@.undo.len() > 0),
    {
        self.undo_stack.len() > 0
    }

    /// Whether there is a command to redo.
    pub fn can_redo(&self) -> (r: bool)
        ensures
            r == (self@.redo.len() > 0),
    {
        self.redo_stack.len() > 0
    }

    /// Undoes the newest command on `graph`; `false` when there is nothing to undo.
    pub fn undo(&mut self, graph: &mut Graph) -> (r: bool)
        ensures
            r == (old(self)@.undo.len() > 0),
            final(self)@ == undo_spec(old(self)@),
            final(graph)@ == if r {
                inverse_spec(old(graph)@, old(self)@.undo.last())
            } else {
                old(graph)@
            },
    {
        match self.undo_stack.pop() {
            None => false,
            Some(cmd) => {
                apply_inverse(graph, &cmd);
                self.redo_stack.push(cmd);
                true
            },
        }
    }

    /// Redoes the newest undone command on `graph`; `false` when there is nothing to redo.
    pub fn redo(&mut self, graph: &mut Graph) -> (r: bool)
        requires
            old(self)@.edit_count < usize::MAX,
        ensures
            r == (old(self)@.redo.len() > 0),
            final(self)@ == redo_spec(old(self)@),
            final(graph)@ == if r {
                apply_spec(old(graph)@, old(self)@.redo.last())
            } else {
                old(graph)@
            },
    {
        match self.redo_stack.pop() {
            None => false,
            Some(cmd) => {
                apply_command(graph, &cmd);
                self.undo_stack.push(cmd);
                self.edit_count = self.edit_count + 1;
                true
            },
        }
    }

    /// The commands that can be undone, newest first.
    pub fn undo_history(&self) -> (r: Vec<&GraphCommand>)
        ensures
            r.len() == self@.undo.len(),
            forall|i: int| 0 <= i < r.len() ==> *#[trigger] r@[i] == self@.undo[self@.undo.len() - 1 - i],
    {
        newest_first(&self.undo_stack)
    }

    /// The commands that can be redone, the next one first.
    pub fn redo_history(&self) -> (r: Vec<&GraphCommand>)
        ensures
            r.len() == self@.redo.len(),
            forall|i: int| 0 <= i < r.len() ==> *#[trigger] r@[i] == self@.redo[self@.redo.len() - 1 - i],
    {
        newest_first(&self.redo_stack)
    }

    /// Forgets every command (after saving, for instance); the edit counter stays.
    pub fn clear(&mut self)
        ensures
            final(self)@ == (HistoryView { undo: seq![], redo: seq![], ..old(self)@ }),
    {
        self.undo_stack.clear();
        self.redo_stack.clear();
        assert(self@.undo =~= seq![]);
        assert(self@.redo =~= seq![]);
    }

    /// Whether some edit has not been undone since the last clear.
    pub fn has_unsaved_changes(&self) -> (r: bool)
        ensures
            r == (self@.undo.len() > 0),
    {
        self.undo_stack.len() > 0
    }

    /// Number of commands that can be undone.
    pub fn undo_depth(&self) -> (r: usize)
        ensures
            r == self@.undo.len(),
    {
        self.undo_stack.len()
    }

    /// Number of commands that can be redone.
    pub fn redo_depth(&self) -> (r: usize)
        ensures
            r == self@.redo.len(),
    {
        self.redo_stack.len()
    }
}

fn newest_first(v: &Vec<GraphCommand>) -> (r: Vec<&GraphCommand>)
    ensures
        r.len() == v.len(),
        forall|i: int| 0 <= i < r.len() ==> *#[trigger] r@[i] == v@[v.len() - 1 - i],
{
    let mut r: Vec<&GraphCommand> = Vec::new();
    let mut k: usize = v.len();
    while k > 0
        invariant
            k <= v.len(),
            r.len() == v.len() - k,
            forall|i: int| 0 <= i < r.len() ==> *#[trigger] r@[i] == v@[v.len() - 1 - i],
        decreases k,
    {
        r.push(&v[k - 1]);
        k = k - 1;
    }
    r
}

// ───────────────────────────── laws of the history ──────────────────────────

/// Redo after undo puts both stacks back; only the edit counter has moved on.
pub proof fn law_undo_then_redo(h: HistoryView)
    requires
        h.undo.len() > 0,
    ensures
        redo_spec(undo_spec(h)) == (HistoryView { edit_count: h.edit_count + 1, ..h }),
{
    assert(undo_spec(h).redo.last() == h.undo.last());
    assert(h.undo.drop_last().push(h.undo.last()) =~= h.undo);
    assert(h.redo.push(h.undo.last()).drop_last() =~= h.redo);
}

/// Undo after redo puts both stacks back.
pub proof fn law_redo_then_undo(h: HistoryView)
    requires
        h.redo.len() > 0,
    ensures
        undo_spec(redo_spec(h)) == (HistoryView { edit_count: h.edit_count + 1, ..h }),
{
    assert(h.undo.push(h.redo.last()).drop_last() =~= h.undo);
    assert(h.redo.drop_last().push(h.redo.last()) =~= h.redo);
}

/// A new record empties the redo stack, and the recorded command is the next one undo
/// takes back.
pub proof fn law_record_then_undo(h: HistoryView, c: GraphCommand)
    requires
        h.max_history >= 1,
    ensures
        record_spec(h, c).redo.len() == 0,
        record_spec(h, c).undo.last() == c,
        undo_spec(record_spec(h, c)).redo == seq![c],
        h.undo.len() < h.max_history ==> undo_spec(record_spec(h, c)).undo == h.undo,
{
    let pushed = h.undo.push(c);
    if pushed.len() > h.max_history {
        assert(pushed.drop_first().last() == c);
    } else {
        assert(pushed.drop_last() =~= h.undo);
    }
    assert(seq![].push(c) =~= seq![c]);
}

/// Recording keeps the newest commands: the undo stack becomes the old one with the new
/// command last, and when that exceeds the bound it is the oldest command that goes.
pub proof fn law_record_keeps_newest(h: HistoryView, c: GraphCommand)
    requires
        h.max_history >= 1,
        h.undo.len() <= h.max_history,
    ensures
        record_spec(h, c).undo == h.undo.push(c).subrange(
            if h.undo.len() + 1 > h.max_history {
                h.undo.len() + 1 - h.max_history
            } else {
                0int
            },
            h.undo.len() + 1int,
        ),
        record_spec(h, c).undo.len() == if h.undo.len() + 1 > h.max_history {
            h.max_history
        } else {
            h.undo.len() + 1
        },
        record_spec(h, c).undo.last() == c,
{
    let pushed = h.undo.push(c);
    if pushed.len() > h.max_history {
        assert(pushed.drop_first() =~= pushed.subrange(1, pushed.len() as int));
    } else {
        assert(pushed =~= pushed.subrange(0, pushed.len() as int));
    }
}

/// Recording, undoing and redoing keep both stacks within the bound.
pub proof fn law_bounded(h: HistoryView, c: GraphCommand)
    requires
        history_wf(h),
    ensures
        history_wf(record_spec(h, c)),
        history_wf(undo_spec(h)),
        history_wf(redo_spec(h)),
        record_spec(h, c).undo.len() <= h.max_history,
{
}

/// Doing a command, recording it and undoing it gives the graph back, whenever the
/// command restores that graph: undo takes back exactly that command, leaving it alone
/// on the redo stack; redoing it then does the command again on the restored graph and
/// puts both stacks back as the record left them.
pub proof fn law_undo_after_record(g: GraphView, h: HistoryView, c: GraphCommand)
    requires
        h.max_history >= 1,
        restores(g, c),
    ensures
        inverse_spec(apply_spec(g, c), record_spec(h, c).undo.last()) == g,
        undo_spec(record_spec(h, c)).redo == seq![c],
        undo_spec(record_spec(h, c)).undo.len() + 1 == record_spec(h, c).undo.len(),
        apply_spec(g, undo_spec(record_spec(h, c)).redo.last()) == apply_spec(g, c),
        redo_spec(undo_spec(record_spec(h, c))) == (HistoryView {
            edit_count: h.edit_count + 2,
            ..record_spec(h, c)
        }),
{
    law_record_then_undo(h, c);
    lemma_undo_restores(g, c);
    let r = record_spec(h, c);
    assert(r.undo.len() >= 1);
    law_undo_then_redo(r);
}

} // verus!
