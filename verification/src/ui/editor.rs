//! What a click on the canvas does to the graph and the editing history, once the node
//! or edge under the pointer is known.

use vstd::prelude::*;
use crate::graph::{Graph, GraphView, NodeVisualState};
use crate::graph::history::{
    GraphCommand, GraphHistory, apply_command, apply_spec, build_remove_node_command, edge_touching,
    edge_not_touching, first_match, node_has_id, node_not_id, record_spec, inverse_spec, apply_all,
    inverse_all, restores, lemma_undo_restores, lemma_remove_node_restores, lemma_filter_remove_one,
    lemma_first_match_unique, is_first_match, ids_increasing,
};
use crate::text::{label_of, node_label};
use super::MouseMode;

verus! {

/// What a primary click on the canvas did.
#[derive(Debug)]
pub enum CanvasClick {
    /// Nothing was added or removed.
    Nothing,
    /// A node with this label was added.
    NodeAdded { label: String },
    /// This node was chosen as the start of a new edge.
    EdgeStart { node: usize },
    /// An edge was added.
    EdgeAdded { from: usize, to: usize },
    /// A node with this label was removed.
    NodeRemoved { label: String },
}

/// `c` removes the first node of `g` with identifier `id`, carrying its position, its
/// label and the edges that touch it.
pub open spec fn removal_of(g: GraphView, id: usize, c: GraphCommand) -> bool {
    let k = first_match(g.nodes, node_has_id(id));
    &&& k < g.nodes.len()
    &&& c matches GraphCommand::RemoveNode { id: cid, x, y, label, removed_edges } && cid == id && x
        == g.nodes[k].x && y == g.nodes[k].y && label == g.nodes[k].label && removed_edges@ == g.edges.filter(
        edge_touching(id),
    )
}

/// `c` is what deleting the node at position `h` records: its removal, then the
/// renumbering that closes the gap.
pub open spec fn deletion_of(g: GraphView, h: usize, c: GraphCommand) -> bool {
    c matches GraphCommand::Batch(cmds) && cmds@.len() == 2 && removal_of(g, h, cmds@[0]) && cmds@[1]
        == GraphCommand::Renumber { removed: h }
}

/// The shape the editor keeps: every node's identifier is its position and every edge
/// joins two nodes of the graph.
pub open spec fn numbered_by_position(g: GraphView) -> bool {
    &&& forall|i: int| 0 <= i < g.nodes.len() ==> (#[trigger] g.nodes[i]).id == i
    &&& forall|i: int|
        0 <= i < g.edges.len() ==> (#[trigger] g.edges[i]).from < g.nodes.len() && g.edges[i].to
            < g.nodes.len()
}

/// The start node kept once the graph has `len` nodes: at most the last node, 0 when
/// there is none.
pub open spec fn clamp_start(start: usize, len: nat) -> usize {
    if len == 0 {
        0
    } else if start < len {
        start
    } else {
        (len - 1) as usize
    }
}

/// A primary click with `mode`, `hit` the node under the pointer and (`x`, `y`) the
/// pointer. Adding a node: on empty canvas, adds the next labelled node there. Adding an
/// edge: the first node clicked is the start, the next one a different node ends an edge
/// of weight `weight`; clicking the start again or empty canvas drops the start.
/// Deleting: removes the node clicked with its edges and renumbers the graph, as one
/// recorded step, keeping the start node within range. Every change is applied and
/// recorded in `history`, and a graph whose identifiers are its positions keeps that
/// shape. Moving does nothing on a click.
pub fn click_canvas(
    graph: &mut Graph,
    history: &mut GraphHistory,
    edge_start: &mut Option<usize>,
    label_counter: &mut usize,
    start_node: &mut usize,
    mode: MouseMode,
    hit: Option<usize>,
    x: u32,
    y: u32,
    weight: u64,
) -> (r: CanvasClick)
    requires
        old(history)@.edit_count < usize::MAX,
        *old(label_counter) < usize::MAX,
        hit matches Some(h) ==> h < old(graph).nodes.len(),
        mode == MouseMode::AddEdge && hit is Some ==> (*old(edge_start) matches Some(f) ==> f
            < old(graph).nodes.len()),
    ensures
        numbered_by_position(old(graph)@) ==> numbered_by_position(final(graph)@),
        mode == MouseMode::Move ==> r is Nothing && final(graph)@ == old(graph)@ && final(history)@ == old(history)@
            && *final(edge_start) == *old(edge_start) && *final(label_counter) == *old(label_counter)
            && *final(start_node) == *old(start_node),
        mode == MouseMode::AddNode && hit is Some ==> r is Nothing && final(graph)@ == old(graph)@
            && final(history)@ == old(history)@ && *final(edge_start) == *old(edge_start) && *final(label_counter)
            == *old(label_counter) && *final(start_node) == *old(start_node),
        mode == MouseMode::AddNode && hit is None ==> exists|c: GraphCommand|
            {
                &&& c matches GraphCommand::AddNode { id, x: cx, y: cy, label } && id == old(graph).nodes.len()
                    && cx == x && cy == y && label@ == label_of(*old(label_counter) as nat)
                &&& final(graph)@ == apply_spec(old(graph)@, c)
                &&& final(history)@ == record_spec(old(history)@, c)
                &&& r matches CanvasClick::NodeAdded { label } && label@ == label_of(*old(label_counter) as nat)
            },
        mode == MouseMode::AddNode && hit is None ==> *final(label_counter) == *old(label_counter) + 1
            && *final(edge_start) == *old(edge_start) && *final(start_node) == *old(start_node),
        mode == MouseMode::AddEdge ==> *final(label_counter) == *old(label_counter) && *final(start_node)
            == *old(start_node),
        mode == MouseMode::AddEdge ==> match (hit, *old(edge_start)) {
            (Some(h), Some(f)) => *final(edge_start) is None && if f != h {
                let c = GraphCommand::AddEdge { from: f, to: h, weight };
                &&& final(graph)@ == apply_spec(old(graph)@, c)
                &&& final(history)@ == record_spec(old(history)@, c)
                &&& r == CanvasClick::EdgeAdded { from: f, to: h }
            } else {
                r is Nothing && final(graph)@ == old(graph)@ && final(history)@ == old(history)@
            },
            (Some(h), None) => *final(edge_start) == Some(h) && r == CanvasClick::EdgeStart { node: h }
                && final(graph)@ == old(graph)@ && final(history)@ == old(history)@,
            (None, _) => *final(edge_start) is None && r is Nothing && final(graph)@ == old(graph)@
                && final(history)@ == old(history)@,
        },
        mode == MouseMode::Delete ==> *final(label_counter) == *old(label_counter) && *final(edge_start)
            == *old(edge_start),
        mode == MouseMode::Delete ==> match hit {
            Some(h) => if first_match(old(graph)@.nodes, node_has_id(h)) < old(graph).nodes.len() {
                exists|c: GraphCommand|
                    {
                        &&& deletion_of(old(graph)@, h, c)
                        &&& final(graph)@ == apply_spec(old(graph)@, c)
                        &&& final(history)@ == record_spec(old(history)@, c)
                        &&& *final(start_node) == clamp_start(*old(start_node), final(graph).nodes.len() as nat)
                        &&& r matches CanvasClick::NodeRemoved { label } && label == old(graph)@.nodes[h as int].label
                    }
            } else {
                r is Nothing && final(graph)@ == old(graph)@ && final(history)@ == old(history)@
                    && *final(start_node) == *old(start_node)
            },
            None => r is Nothing && final(graph)@ == old(graph)@ && final(history)@ == old(history)@
                && *final(start_node) == *old(start_node),
        },
{
    match mode {
        MouseMode::AddNode => {
            if hit.is_none() {
                let label = node_label(*label_counter);
                *label_counter = *label_counter + 1;
                let id = graph.nodes.len();
                let cmd = GraphCommand::AddNode { id, x, y, label: label.clone() };
                apply_command(graph, &cmd);
                history.record(cmd);
                CanvasClick::NodeAdded { label }
            } else {
                CanvasClick::Nothing
            }
        },
        MouseMode::AddEdge => {
            match hit {
                Some(h) => {
                    match *edge_start {
                        Some(f) => {
                            *edge_start = None;
                            if f != h {
                                let cmd = GraphCommand::AddEdge { from: f, to: h, weight };
                                apply_command(graph, &cmd);
                                history.record(cmd);
                                CanvasClick::EdgeAdded { from: f, to: h }
                            } else {
                                CanvasClick::Nothing
                            }
                        },
                        None => {
                            *edge_start = Some(h);
                            CanvasClick::EdgeStart { node: h }
                        },
                    }
                },
                None => {
                    *edge_start = None;
                    CanvasClick::Nothing
                },
            }
        },
        MouseMode::Delete => {
            match hit {
                Some(h) => {
                    match build_remove_node_command(graph, h) {
                        Some(cmd) => {
                            let label = graph.nodes[h].label.clone();
                            let ghost g0 = graph@;
                            let step = GraphCommand::Batch(vec![cmd, GraphCommand::Renumber { removed: h }]);
                            proof {
                                lemma_pair_apply(g0, step);
                                if numbered_by_position(g0) {
                                    lemma_numbered_first_match(g0, h);
                                    lemma_deletion_keeps_numbering(g0, h, step);
                                }
                            }
                            apply_command(graph, &step);
                            history.record(step);
                            let last = if graph.nodes.len() == 0 {
                                0
                            } else {
                                graph.nodes.len() - 1
                            };
                            if *start_node > last {
                                *start_node = last;
                            }
                            CanvasClick::NodeRemoved { label }
                        },
                        None => CanvasClick::Nothing,
                    }
                },
                None => CanvasClick::Nothing,
            }
        },
        MouseMode::Move => CanvasClick::Nothing,
    }
}

/// Doing a two-step batch is doing its first command, then its second; undoing it is
/// undoing the second, then the first.
proof fn lemma_pair_apply(g: GraphView, c: GraphCommand)
    requires
        c matches GraphCommand::Batch(cmds) && cmds@.len() == 2,
    ensures
        apply_spec(g, c) == apply_spec(apply_spec(g, c->0@[0]), c->0@[1]),
        forall|x: GraphView|
            #[trigger] inverse_spec(x, c) == inverse_spec(inverse_spec(x, c->0@[1]), c->0@[0]),
{
    let s = c->0@;
    let one = seq![s[0]];
    assert(s.drop_last() =~= one);
    assert(one.drop_last() =~= Seq::<GraphCommand>::empty());
    assert(one.last() == s[0]);
    assert(apply_all(g, one) == apply_spec(apply_all(g, one.drop_last()), one.last()));
    assert(apply_all(g, one) == apply_spec(g, s[0]));
    assert forall|x: GraphView|
        #[trigger] inverse_spec(x, c) == inverse_spec(inverse_spec(x, s[1]), s[0]) by {
        let y = inverse_spec(x, s[1]);
        assert(inverse_all(y, one) == inverse_all(inverse_spec(y, one.last()), one.drop_last()));
    }
}

/// In a graph numbered by position, the node with identifier `h` sits at position `h`.
proof fn lemma_numbered_first_match(g: GraphView, h: usize)
    requires
        numbered_by_position(g),
        h < g.nodes.len(),
    ensures
        first_match(g.nodes, node_has_id(h)) == h,
{
    assert(is_first_match(g.nodes, node_has_id(h), h as int));
    lemma_first_match_unique(g.nodes, node_has_id(h), h as int);
}

/// Removing the node at `h` from a graph numbered by position leaves the other nodes in
/// order and the edges that do not touch it.
proof fn lemma_removal_shape(g: GraphView, h: usize, c: GraphCommand)
    requires
        numbered_by_position(g),
        h < g.nodes.len(),
        removal_of(g, h, c),
    ensures
        apply_spec(g, c).nodes == g.nodes.remove(h as int),
        apply_spec(g, c).edges == g.edges.filter(edge_not_touching(h)),
        apply_spec(g, c).is_directed == g.is_directed,
        forall|i: int|
            0 <= i < apply_spec(g, c).edges.len() ==> edge_not_touching(h)(
                #[trigger] apply_spec(g, c).edges[i],
            ),
{
    assert forall|i: int| 0 <= i < g.nodes.len() && i != h implies node_not_id(h)(
        #[trigger] g.nodes[i],
    ) by {}
    lemma_filter_remove_one(g.nodes, node_not_id(h), h as int);
    g.edges.filter_lemma(edge_not_touching(h));
}

/// A deletion keeps a graph numbered by position, one node shorter.
proof fn lemma_deletion_keeps_numbering(g: GraphView, h: usize, c: GraphCommand)
    requires
        numbered_by_position(g),
        h < g.nodes.len(),
        deletion_of(g, h, c),
    ensures
        numbered_by_position(apply_spec(g, c)),
        apply_spec(g, c).nodes.len() == g.nodes.len() - 1,
{
    lemma_pair_apply(g, c);
    let s = c->0@;
    lemma_removal_shape(g, h, s[0]);
    let g1 = apply_spec(g, s[0]);
    let g2 = apply_spec(g1, s[1]);
    assert forall|i: int| 0 <= i < g2.edges.len() implies (#[trigger] g2.edges[i]).from < g2.nodes.len()
        && g2.edges[i].to < g2.nodes.len() by {
        let e = g1.edges[i];
        assert(edge_not_touching(h)(e));
        assert(g.edges.filter(edge_not_touching(h)).contains(e));
        g.edges.lemma_filter_contains_rev(edge_not_touching(h), e);
        let j = choose|j: int| 0 <= j < g.edges.len() && g.edges[j] == e;
        assert(g.edges[j].from < g.nodes.len());
    }
}

/// Undoing a deletion made on the canvas gives back the graph from before it: the same
/// nodes, in the same order and with the same identifiers, and the same edges, those of
/// the deleted node now last. This holds when the graph is numbered by position and the
/// deleted node was unvisited, the state in which undo puts it back.
pub proof fn law_undo_deletion(g: GraphView, h: usize, c: GraphCommand)
    requires
        numbered_by_position(g),
        h < g.nodes.len(),
        g.nodes[h as int].visual_state == NodeVisualState::Unvisited,
        deletion_of(g, h, c),
    ensures
        inverse_spec(apply_spec(g, c), c).nodes == g.nodes,
        inverse_spec(apply_spec(g, c), c).edges == g.edges.filter(edge_not_touching(h)) + g.edges.filter(
            edge_touching(h),
        ),
        inverse_spec(apply_spec(g, c), c).edges.to_multiset() == g.edges.to_multiset(),
        inverse_spec(apply_spec(g, c), c).is_directed == g.is_directed,
{
    lemma_pair_apply(g, c);
    let s = c->0@;
    lemma_numbered_first_match(g, h);
    lemma_removal_shape(g, h, s[0]);
    let g1 = apply_spec(g, s[0]);
    assert(restores(g1, s[1])) by {
        assert forall|i: int| 0 <= i < g1.nodes.len() implies (#[trigger] g1.nodes[i]).id == (if i < h {
            i
        } else {
            i + 1
        }) by {
            if i >= h {
                assert(g1.nodes[i] == g.nodes[i + 1]);
            }
        }
    }
    lemma_undo_restores(g1, s[1]);
    assert(ids_increasing(g.nodes));
    let rm = s[0];
    assert(g.nodes[h as int] == crate::graph::fresh_node(h, rm->RemoveNode_x, rm->RemoveNode_y, rm->RemoveNode_label));
    lemma_remove_node_restores(g, h, rm->RemoveNode_x, rm->RemoveNode_y, rm->RemoveNode_label);
    lemma_split_multiset(g.edges, h);
}

/// Splitting edges by whether they touch `h`, and putting the two parts together again,
/// keeps the same edges.
proof fn lemma_split_multiset(s: Seq<crate::graph::Edge>, h: usize)
    ensures
        (s.filter(edge_not_touching(h)) + s.filter(edge_touching(h))).to_multiset() == s.to_multiset(),
    decreases s.len(),
{
    broadcast use vstd::seq_lib::group_to_multiset_ensures;
    broadcast use vstd::multiset::group_multiset_axioms;

    let a = s.filter(edge_not_touching(h));
    let b = s.filter(edge_touching(h));
    vstd::seq_lib::lemma_multiset_commutative(a, b);
    if s.len() == 0 {
        assert(a =~= Seq::<crate::graph::Edge>::empty());
        assert(b =~= Seq::<crate::graph::Edge>::empty());
        assert(s.to_multiset() =~= vstd::multiset::Multiset::empty());
    } else {
        let d = s.drop_last();
        let e = s.last();
        lemma_split_multiset(d, h);
        assert(s =~= d.push(e));
        d.lemma_filter_push(e, edge_not_touching(h));
        d.lemma_filter_push(e, edge_touching(h));
        vstd::seq_lib::lemma_multiset_commutative(d.filter(edge_not_touching(h)), d.filter(edge_touching(h)));
        assert((a + b).to_multiset() =~= s.to_multiset());
    }
}

/// A secondary click on the edge at position `idx`: removes it and records the removal.
/// Returns the removed edge's ends.
pub fn remove_edge_at(graph: &mut Graph, history: &mut GraphHistory, idx: usize) -> (r: (usize, usize))
    requires
        idx < old(graph).edges.len(),
        old(history)@.edit_count < usize::MAX,
    ensures
        ({
            let e = old(graph)@.edges[idx as int];
            let c = GraphCommand::RemoveEdge { from: e.from, to: e.to, weight: e.weight, edge_index: idx };
            &&& final(graph)@ == apply_spec(old(graph)@, c)
            &&& final(history)@ == record_spec(old(history)@, c)
            &&& r == (e.from, e.to)
        }),
{
    let e = graph.edges[idx];
    let cmd = GraphCommand::RemoveEdge { from: e.from, to: e.to, weight: e.weight, edge_index: idx };
    apply_command(graph, &cmd);
    history.record(cmd);
    (e.from, e.to)
}

} // verus!
