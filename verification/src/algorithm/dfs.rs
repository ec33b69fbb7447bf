//! Depth-first search with an explicit stack.

use vstd::prelude::*;
use crate::graph::{
    Graph, GraphView, adjacent, degree_sum, lemma_adjacent_in_neighbor_list,
    lemma_closed_holds_reachable, lemma_degree_sum_distinct, lemma_distinct_below,
    lemma_neighbor_list_adjacent, lemma_reach_neighbor_in_range, reach_in_range,
    lemma_reach_self, lemma_reach_step, lists_reachable, neighbor_list, reachable,
};
use super::state::{
    AlgorithmKind, AlgorithmResult, StateSnapshot, StepMessage, all_false, copy_all, copy_flags,
};

verus! {

/// Some neighbour of `order[i]` lies outside the first `j` nodes of `order`.
pub open spec fn has_fresh(g: GraphView, order: Seq<usize>, i: int, j: int) -> bool {
    exists|k: int|
        0 <= k < neighbor_list(g.edges, g.is_directed, order[i]).len() && !order.take(j).contains(
            #[trigger] neighbor_list(g.edges, g.is_directed, order[i])[k].0,
        )
}

/// `order[j]` is the first neighbour of `order[p]`, in list order, outside the first `j`
/// nodes.
pub open spec fn first_fresh(g: GraphView, order: Seq<usize>, p: int, j: int) -> bool {
    exists|k: int|
        0 <= k < neighbor_list(g.edges, g.is_directed, order[p]).len() && #[trigger] neighbor_list(
            g.edges,
            g.is_directed,
            order[p],
        )[k].0 == order[j] && forall|k2: int|
            0 <= k2 < k ==> order.take(j).contains(#[trigger] neighbor_list(g.edges, g.is_directed, order[p])[k2].0)
}

/// `order[j]` comes from `order[p]`: the latest node before it that still had a neighbour
/// outside the first `j` nodes, whose first such neighbour it is.
pub open spec fn df_parent(g: GraphView, order: Seq<usize>, j: int, p: int) -> bool {
    &&& 0 <= p < j
    &&& has_fresh(g, order, p, j)
    &&& first_fresh(g, order, p, j)
    &&& forall|i: int| #![trigger has_fresh(g, order, i, j)] p < i < j ==> !has_fresh(g, order, i, j)
}

/// `order` is depth-first: each node after the first is the first unlisted neighbour of
/// the latest listed node that still has one.
pub open spec fn depth_first(g: GraphView, order: Seq<usize>) -> bool {
    forall|j: int| 1 <= j < order.len() ==> #[trigger] comes_from_some(g, order, j)
}

/// Some earlier node is the depth-first parent of `order[j]`.
pub open spec fn comes_from_some(g: GraphView, order: Seq<usize>, j: int) -> bool {
    exists|p: int| #[trigger] df_parent(g, order, j, p)
}

/// Stack entry `s` is neighbour `tags[s].1` of the listed node `tags[s].0`, and entries
/// stand by listed node, then by decreasing position in its neighbour list.
pub open spec fn stack_tagged(g: GraphView, order: Seq<usize>, stack: Seq<usize>, tags: Seq<(int, int)>) -> bool {
    &&& tags.len() == stack.len()
    &&& forall|s: int|
        0 <= s < stack.len() ==> 0 <= (#[trigger] tags[s]).0 < order.len() && 0 <= tags[s].1 < neighbor_list(
            g.edges,
            g.is_directed,
            order[tags[s].0],
        ).len() && stack[s] == neighbor_list(g.edges, g.is_directed, order[tags[s].0])[tags[s].1].0
    &&& forall|s: int, s2: int|
        0 <= s < s2 < stack.len() ==> (#[trigger] tags[s]).0 < (#[trigger] tags[s2]).0 || (tags[s].0 == tags[s2].0
            && tags[s].1 > tags[s2].1)
}


proof fn lemma_has_fresh_push(g: GraphView, o: Seq<usize>, w: usize, i: int, j: int)
    requires
        0 <= i < j <= o.len(),
    ensures
        has_fresh(g, o.push(w), i, j) == has_fresh(g, o, i, j),
{
    let o2 = o.push(w);
    assert(o2.take(j) =~= o.take(j));
    assert(o2[i] == o[i]);
}

proof fn lemma_df_parent_push(g: GraphView, o: Seq<usize>, w: usize, j: int, p: int)
    requires
        1 <= j < o.len(),
        df_parent(g, o, j, p),
    ensures
        df_parent(g, o.push(w), j, p),
{
    let o2 = o.push(w);
    assert(o2.take(j) =~= o.take(j));
    assert(o2[p] == o[p]);
    assert(o2[j] == o[j]);
    lemma_has_fresh_push(g, o, w, p, j);
    assert forall|i: int| #![trigger has_fresh(g, o2, i, j)] p < i < j implies !has_fresh(g, o2, i, j) by {
        lemma_has_fresh_push(g, o, w, i, j);
    }
    let k = choose|k: int|
        0 <= k < neighbor_list(g.edges, g.is_directed, o[p]).len() && #[trigger] neighbor_list(
            g.edges,
            g.is_directed,
            o[p],
        )[k].0 == o[j] && forall|k2: int|
            0 <= k2 < k ==> o.take(j).contains(#[trigger] neighbor_list(g.edges, g.is_directed, o[p])[k2].0);
    assert(neighbor_list(g.edges, g.is_directed, o2[p])[k].0 == o2[j]);
}

/// Snapshot `s` shows a depth-first search that visits the nodes in the order `order`,
/// after the first `t` of them are visited: they are the visit order so far, exactly they
/// are marked, and the stack holds nodes of the graph.
pub open spec fn dfs_state(s: StateSnapshot, order: Seq<usize>, n: int, t: int) -> bool {
    &&& 0 <= t <= order.len()
    &&& s.visited_order@ == order.take(t)
    &&& s.visited_flags@.len() == n
    &&& forall|v: usize| v < n ==> s.visited_flags@[v as int] == order.take(t).contains(v)
    &&& forall|x: int| 0 <= x < s.queue_or_stack@.len() ==> #[trigger] s.queue_or_stack@[x] < n
    &&& s.distances is None
    &&& !s.negative_cycle
}

/// The step snapshot `s` records once `t` nodes are visited: pushing the start; visiting
/// node `t`; or pushing neighbour number `k` of node `t`, which is not visited, onto the
/// top of the stack.
pub open spec fn dfs_event(g: GraphView, s: StateSnapshot, order: Seq<usize>, t: int, k: int) -> bool {
    match s.message {
        StepMessage::DfsStart { start } => t == 0 && (order.len() > 0 ==> start == order[0])
            && s.current_node == start && s.current_line == 1 && s.queue_or_stack@ == seq![start],
        StepMessage::DfsVisit { node } => 1 <= t && node == order[t - 1] && s.current_node == node
            && s.current_line == 2,
        StepMessage::DfsPush { node, neighbor } => {
            &&& 1 <= t
            &&& node == order[t - 1]
            &&& 0 <= k < neighbor_list(g.edges, g.is_directed, node).len()
            &&& neighbor == neighbor_list(g.edges, g.is_directed, node)[k].0
            &&& !order.take(t).contains(neighbor)
            &&& s.current_node == neighbor
            &&& s.current_line == 3
            &&& s.queue_or_stack@.len() > 0
            &&& s.queue_or_stack@.last() == neighbor
        },
        _ => false,
    }
}

/// Snapshot `s` shows the search with `tk.0` nodes visited, recording the step `tk.1`
/// names.
pub open spec fn dfs_step(g: GraphView, s: StateSnapshot, order: Seq<usize>, n: int, tk: (int, int)) -> bool {
    dfs_state(s, order, n, tk.0) && dfs_event(g, s, order, tk.0, tk.1)
}

/// Snapshot `i` follows snapshot `i - 1`: a visit counts one more visited node, and the
/// pushes after a visit go from later neighbours to earlier ones.
pub open spec fn dfs_follows(snaps: Seq<StateSnapshot>, tks: Seq<(int, int)>, i: int) -> bool {
    &&& !(snaps[i].message is DfsStart)
    &&& snaps[i].message is DfsVisit ==> tks[i].0 == tks[i - 1].0 + 1
    &&& snaps[i].message is DfsPush ==> tks[i].0 == tks[i - 1].0 && (snaps[i - 1].message is DfsPush
        ==> tks[i].1 < tks[i - 1].1)
}

/// The stack of snapshot `i` follows from that of snapshot `i - 1`: a visit pops the
/// entries above the visited node, which were all visited before, and the node itself; a
/// push adds the neighbour on top.
pub open spec fn dfs_stack_follows(snaps: Seq<StateSnapshot>, order: Seq<usize>, tks: Seq<(int, int)>, i: int) -> bool {
    let st = snaps[i].queue_or_stack@;
    let prev = snaps[i - 1].queue_or_stack@;
    match snaps[i].message {
        StepMessage::DfsVisit { node } => {
            &&& st.len() < prev.len()
            &&& st == prev.take(st.len() as int)
            &&& prev[st.len() as int] == node
            &&& forall|x: int| st.len() < x < prev.len() ==> order.take(tks[i - 1].0).contains(#[trigger] prev[x])
        },
        StepMessage::DfsPush { node, neighbor } => st == prev.push(neighbor),
        _ => true,
    }
}

proof fn lemma_dfs_stack_follows_push(snaps: Seq<StateSnapshot>, o: Seq<usize>, tks: Seq<(int, int)>, i: int, w: usize)
    requires
        dfs_stack_follows(snaps, o, tks, i),
        0 <= tks[i - 1].0 <= o.len(),
    ensures
        dfs_stack_follows(snaps, o.push(w), tks, i),
{
    assert(o.push(w).take(tks[i - 1].0) =~= o.take(tks[i - 1].0));
}

proof fn lemma_dfs_stack_follows_snaps(
    snaps: Seq<StateSnapshot>,
    o: Seq<usize>,
    tks: Seq<(int, int)>,
    i: int,
    s: StateSnapshot,
    tk: (int, int),
)
    requires
        1 <= i < snaps.len(),
        tks.len() == snaps.len(),
        dfs_stack_follows(snaps, o, tks, i),
    ensures
        dfs_stack_follows(snaps.push(s), o, tks.push(tk), i),
{
    assert(snaps.push(s)[i] == snaps[i]);
    assert(snaps.push(s)[i - 1] == snaps[i - 1]);
    assert(tks.push(tk)[i - 1] == tks[i - 1]);
}

/// Neighbour number `k` of node `t` of `order` was not visited when node `t` was.
pub open spec fn dfs_fresh(g: GraphView, order: Seq<usize>, t: int, k: int) -> bool {
    &&& 0 <= k < neighbor_list(g.edges, g.is_directed, order[t - 1]).len()
    &&& !order.take(t).contains(neighbor_list(g.edges, g.is_directed, order[t - 1])[k].0)
}

/// Some snapshot records pushing neighbour number `k` of node `t`.
pub open spec fn dfs_pushed(snaps: Seq<StateSnapshot>, tks: Seq<(int, int)>, t: int, k: int) -> bool {
    exists|i: int| 0 <= i < snaps.len() && snaps[i].message is DfsPush && #[trigger] tks[i] == (t, k)
}

/// The snapshots of a depth-first search that visits the nodes in the order `order`, one
/// per step in the order of the steps, `tks[i]` counting the nodes visited at snapshot `i`
/// and naming the neighbour it pushes: after each visit, exactly the neighbours not yet
/// visited are pushed, from the last in list order to the first; a visit pops the
/// visited entries above the node it visits; and the stack is left with visited nodes.
pub open spec fn dfs_trace(
    g: GraphView,
    snaps: Seq<StateSnapshot>,
    order: Seq<usize>,
    n: int,
    tks: Seq<(int, int)>,
) -> bool {
    &&& tks.len() == snaps.len()
    &&& snaps.len() >= 1
    &&& forall|i: int| 0 <= i < snaps.len() ==> #[trigger] dfs_step(g, snaps[i], order, n, tks[i])
    &&& forall|i: int| 1 <= i < snaps.len() ==> #[trigger] dfs_follows(snaps, tks, i)
    &&& tks[snaps.len() - 1].0 == order.len()
    &&& forall|t: int, k: int|
        1 <= t <= order.len() && #[trigger] dfs_fresh(g, order, t, k) ==> dfs_pushed(snaps, tks, t, k)
    &&& forall|i: int| 1 <= i < snaps.len() ==> #[trigger] dfs_stack_follows(snaps, order, tks, i)
    &&& forall|x: int|
        0 <= x < snaps.last().queue_or_stack@.len() ==> order.contains(#[trigger] snaps.last().queue_or_stack@[x])
}

proof fn lemma_dfs_order_push(g: GraphView, s: StateSnapshot, o: Seq<usize>, w: usize, n: int, tk: (int, int))
    requires
        dfs_step(g, s, o, n, tk),
        o.len() == 0 && s.message is DfsStart ==> s.current_node == w,
    ensures
        dfs_step(g, s, o.push(w), n, tk),
{
    let o2 = o.push(w);
    assert(o2.take(tk.0) =~= o.take(tk.0));
    if tk.0 >= 1 {
        assert(o2[tk.0 - 1] == o[tk.0 - 1]);
    }
    if o.len() > 0 {
        assert(o2[0] == o[0]);
    }
}

proof fn lemma_dfs_fresh_push(g: GraphView, o: Seq<usize>, w: usize, t: int, k: int)
    requires
        1 <= t <= o.len(),
    ensures
        dfs_fresh(g, o.push(w), t, k) == dfs_fresh(g, o, t, k),
{
    let o2 = o.push(w);
    assert(o2.take(t) =~= o.take(t));
    assert(o2[t - 1] == o[t - 1]);
}

/// Depth-first search from `start`: a node taken from the stack is visited unless it
/// already was, and its unvisited neighbours are pushed in reverse order, so that the
/// first neighbour is taken next. The visit order lists every node reachable from
/// `start` exactly once, starting with `start`, in depth-first order: each next node is
/// the first unvisited neighbour of the latest visited node that still has one. Every
/// visited node's neighbour list is examined once. Each step (pushing the start, visiting
/// a node, pushing a neighbour) leaves one snapshot, in order, showing the nodes visited
/// so far, their marks and the stack; after each visit exactly the neighbours not yet
/// visited are pushed, last to first.
pub fn run(graph: &Graph, start: usize) -> (r: AlgorithmResult)
    requires
        graph.nodes.len() > 0 ==> start < graph.nodes.len(),
        graph.nodes.len() > 0 ==> reach_in_range(graph@, start),
        2 * graph.edges.len() <= usize::MAX,
    ensures
        r.kind == AlgorithmKind::DFS,
        graph.nodes.len() == 0 ==> r.visit_order.len() == 0 && r.snapshots.len() == 0,
        graph.nodes.len() > 0 ==> lists_reachable(graph@, start, r.visit_order@),
        graph.nodes.len() > 0 ==> r.visit_order@[0] == start,
        depth_first(graph@, r.visit_order@),
        graph.nodes.len() > 0 ==> r.snapshots.len() >= 1 + r.visit_order.len(),
        graph.nodes.len() > 0 ==> exists|tks: Seq<(int, int)>|
            dfs_trace(graph@, r.snapshots@, r.visit_order@, graph.nodes.len() as int, tks),
        r.edge_traversal_count == degree_sum(graph@, r.visit_order@),
{
    let n = graph.nodes.len();
    if n == 0 {
        return AlgorithmResult::empty(AlgorithmKind::DFS);
    }
    let ghost g = graph@;
    let ghost e2 = 2 * graph.edges.len();
    let mut snapshots: Vec<StateSnapshot> = Vec::new();
    let mut visited_flags = all_false(n);
    let mut visited_order: Vec<usize> = Vec::new();
    let mut stack: Vec<usize> = Vec::new();
    let mut edge_traversal_count: usize = 0;

    stack.push(start);
    let ghost mut tags: Seq<(int, int)> = seq![(0int, 0int)];
    proof {
        lemma_reach_self(g, start);
    }
    snapshots.push(
        StateSnapshot {
            current_line: 1,
            current_node: start,
            queue_or_stack: copy_all(&stack),
            visited_order: copy_all(&visited_order),
            visited_flags: copy_flags(&visited_flags),
            distances: None,
            message: StepMessage::DfsStart { start },
            negative_cycle: false,
        },
    );
    let ghost mut tks: Seq<(int, int)> = seq![(0int, 0int)];
    proof {
        assert(visited_order@.take(0) =~= visited_order@);
        assert(dfs_step(g, snapshots@[0], visited_order@, n as int, tks[0]));
        assert(stack@ =~= snapshots@.last().queue_or_stack@.take(stack.len() as int));
    }

    while stack.len() > 0
        invariant
            graph@ == g,
            n == graph.nodes.len(),
            n > 0,
            e2 == 2 * graph.edges.len(),
            e2 <= usize::MAX,
            reach_in_range(g, start),
            start < n,
            visited_flags.len() == n,
            visited_order@.no_duplicates(),
            forall|i: int| 0 <= i < visited_order.len() ==> #[trigger] visited_order@[i] < n,
            forall|v: usize| v < n ==> visited_flags@[v as int] == visited_order@.contains(v),
            visited_order.len() == 0 ==> stack@ == seq![start],
            visited_order.len() > 0 ==> visited_order@[0] == start,
            forall|i: int| 0 <= i < stack.len() ==> #[trigger] stack@[i] < n,
            forall|i: int| 0 <= i < stack.len() ==> reachable(g, start, #[trigger] stack@[i]),
            forall|i: int| 0 <= i < visited_order.len() ==> reachable(g, start, #[trigger] visited_order@[i]),
            forall|i: int, k: int|
                0 <= i < visited_order.len() && 0 <= k < neighbor_list(
                    g.edges,
                    g.is_directed,
                    visited_order@[i],
                ).len() ==> (#[trigger] neighbor_list(g.edges, g.is_directed, visited_order@[i])[k]).0
                    < n && (visited_flags@[neighbor_list(
                    g.edges,
                    g.is_directed,
                    visited_order@[i],
                )[k].0 as int] || stack@.contains(
                    neighbor_list(g.edges, g.is_directed, visited_order@[i])[k].0,
                )),
            edge_traversal_count == degree_sum(g, visited_order@),
            snapshots.len() >= 1 + visited_order.len(),
            tags.len() == stack.len(),
            visited_order.len() > 0 ==> stack_tagged(g, visited_order@, stack@, tags),
            visited_order.len() > 0 ==> forall|i: int, k: int|
                #![trigger neighbor_list(g.edges, g.is_directed, visited_order@[i])[k]]
                0 <= i < visited_order.len() && 0 <= k < neighbor_list(g.edges, g.is_directed, visited_order@[i]).len()
                    && !visited_flags@[neighbor_list(g.edges, g.is_directed, visited_order@[i])[k].0 as int]
                    ==> exists|s: int| 0 <= s < stack.len() && #[trigger] tags[s] == (i, k),
            depth_first(g, visited_order@),
            tks.len() == snapshots.len(),
            snapshots.len() >= 1,
            forall|i: int| 0 <= i < snapshots.len() ==> #[trigger] dfs_step(g, snapshots@[i], visited_order@, n as int, tks[i]),
            forall|i: int| 1 <= i < snapshots.len() ==> #[trigger] dfs_follows(snapshots@, tks, i),
            tks[snapshots.len() - 1].0 == visited_order.len(),
            forall|t: int, k: int|
                1 <= t <= visited_order.len() && #[trigger] dfs_fresh(g, visited_order@, t, k) ==> dfs_pushed(
                    snapshots@,
                    tks,
                    t,
                    k,
                ),
            visited_order.len() == 0 ==> snapshots@[0].message is DfsStart && snapshots@[0].current_node == start,
            forall|i: int| 1 <= i < snapshots.len() ==> #[trigger] dfs_stack_follows(snapshots@, visited_order@, tks, i),
            stack.len() <= snapshots@.last().queue_or_stack@.len(),
            stack@ == snapshots@.last().queue_or_stack@.take(stack.len() as int),
            forall|x: int|
                stack.len() <= x < snapshots@.last().queue_or_stack@.len() ==> visited_order@.contains(
                    #[trigger] snapshots@.last().queue_or_stack@[x],
                ),
        decreases n - visited_order.len(), stack.len(),
    {
        proof {
            lemma_distinct_below(visited_order@, n);
        }
        let ghost s0 = stack@;
        let node = stack.pop().unwrap();
        proof {
            assert(node == s0.last());
            assert(stack@ == s0.drop_last());
            assert forall|w: usize| #[trigger] s0.contains(w) && w != node implies stack@.contains(w) by {
                let i = choose|i: int| 0 <= i < s0.len() && s0[i] == w;
                assert(i < s0.len() - 1);
                assert(stack@[i] == w);
            }
            assert(s0[s0.len() - 1] == node);
        }
        let ghost t0 = tags;
        proof {
            tags = tags.drop_last();
        }
        if visited_flags[node] {
            proof {
                if visited_order.len() > 0 {
                    assert forall|i: int, k: int|
                        #![trigger neighbor_list(g.edges, g.is_directed, visited_order@[i])[k]]
                        0 <= i < visited_order.len() && 0 <= k < neighbor_list(g.edges, g.is_directed, visited_order@[i]).len()
                            && !visited_flags@[neighbor_list(g.edges, g.is_directed, visited_order@[i])[k].0 as int]
                            implies exists|s: int| 0 <= s < stack.len() && #[trigger] tags[s] == (i, k) by {
                        let s = choose|s: int| 0 <= s < s0.len() && #[trigger] t0[s] == (i, k);
                        assert(s0[s] == neighbor_list(g.edges, g.is_directed, visited_order@[i])[k].0);
                        assert(s != s0.len() - 1);
                        assert(tags[s] == t0[s]);
                    }
                    assert forall|s: int| 0 <= s < stack.len() implies #[trigger] tags[s] == t0[s] && stack@[s] == s0[s] by {}
                }
                let lst = snapshots@.last().queue_or_stack@;
                assert(stack@ =~= lst.take(stack.len() as int));
                assert forall|x: int| stack.len() <= x < lst.len() implies visited_order@.contains(#[trigger] lst[x]) by {
                    if x == stack.len() {
                        assert(lst[x] == s0[x]);
                        assert(visited_flags@[node as int]);
                    }
                }
            }
            continue;
        }
        let ghost f0 = visited_flags@;
        let ghost o0 = visited_order@;
        visited_flags.set(node, true);
        visited_order.push(node);
        proof {
            assert(visited_order@.drop_last() =~= o0);
            assert(visited_order@.no_duplicates()) by {
                assert(!o0.contains(node));
                assert forall|a: int, b: int|
                    0 <= a < visited_order.len() && 0 <= b < visited_order.len() && a != b implies visited_order@[a]
                    != visited_order@[b] by {
                    if a < o0.len() && b < o0.len() {
                        assert(o0[a] != o0[b]);
                    } else if a < o0.len() {
                        assert(o0.contains(o0[a]));
                    } else {
                        assert(o0.contains(o0[b]));
                    }
                }
            }
            assert forall|v: usize| v < n implies visited_flags@[v as int] == visited_order@.contains(v) by {
                if v == node {
                    assert(visited_order@[o0.len() as int] == v);
                } else {
                    if visited_order@.contains(v) {
                        let i = choose|i: int| 0 <= i < visited_order.len() && visited_order@[i] == v;
                        assert(o0[i] == v);
                    }
                    if o0.contains(v) {
                        let i = choose|i: int| 0 <= i < o0.len() && o0[i] == v;
                        assert(visited_order@[i] == v);
                    }
                }
            }
            assert forall|x: int| 0 <= x < n && f0[x] implies visited_flags@[x] by {}
            if o0.len() == 0 {
                assert(node == start);
            }
            let ord = visited_order@;
            let j0 = o0.len() as int;
            assert(ord.take(j0) =~= o0);
            if j0 > 0 {
                let top = s0.len() - 1;
                let p = t0[top].0;
                let k = t0[top].1;
                assert(0 <= p < j0);
                assert(ord[p] == o0[p]);
                assert(neighbor_list(g.edges, g.is_directed, ord[p])[k].0 == ord[j0]);
                assert(!o0.contains(node));
                assert(has_fresh(g, ord, p, j0));
                assert forall|k2: int| 0 <= k2 < k implies ord.take(j0).contains(
                    #[trigger] neighbor_list(g.edges, g.is_directed, ord[p])[k2].0,
                ) by {
                    let w = neighbor_list(g.edges, g.is_directed, o0[p])[k2].0;
                    if !o0.contains(w) {
                        lemma_reach_neighbor_in_range(g, start, o0[p], k2);
                        assert(!f0[w as int]);
                        let s = choose|s: int| 0 <= s < s0.len() && #[trigger] t0[s] == (p, k2);
                        if s < top {
                            assert(t0[s].0 < t0[top].0 || (t0[s].0 == t0[top].0 && t0[s].1 > t0[top].1));
                        }
                    }
                }
                assert(first_fresh(g, ord, p, j0));
                assert forall|i: int| #![trigger has_fresh(g, ord, i, j0)] p < i < j0 implies !has_fresh(g, ord, i, j0) by {
                    if has_fresh(g, ord, i, j0) {
                        let k3 = choose|k3: int|
                            0 <= k3 < neighbor_list(g.edges, g.is_directed, ord[i]).len() && !ord.take(j0).contains(
                                #[trigger] neighbor_list(g.edges, g.is_directed, ord[i])[k3].0,
                            );
                        assert(ord[i] == o0[i]);
                        let w = neighbor_list(g.edges, g.is_directed, o0[i])[k3].0;
                        lemma_reach_neighbor_in_range(g, start, o0[i], k3);
                        assert(!f0[w as int]);
                        let s = choose|s: int| 0 <= s < s0.len() && #[trigger] t0[s] == (i, k3);
                        if s < top {
                            assert(t0[s].0 < t0[top].0 || (t0[s].0 == t0[top].0 && t0[s].1 > t0[top].1));
                        }
                    }
                }
                assert(df_parent(g, ord, j0, p));
            }
            assert forall|j: int| 1 <= j < ord.len() implies #[trigger] comes_from_some(g, ord, j) by {
                if j < j0 {
                    assert(comes_from_some(g, o0, j));
                    let p = choose|p: int| #[trigger] df_parent(g, o0, j, p);
                    lemma_df_parent_push(g, o0, node, j, p);
                } else {
                    let p = t0[s0.len() - 1].0;
                    assert(df_parent(g, ord, j, p));
                }
            }
            assert forall|x: int| 0 <= x < o0.len() implies #[trigger] ord[x] == o0[x] by {}
            if j0 > 0 {
                assert forall|s: int| 0 <= s < stack.len() implies #[trigger] tags[s] == t0[s] && stack@[s] == s0[s] by {}
                assert(stack_tagged(g, ord, stack@, tags));
                assert forall|i: int, k: int|
                    #![trigger neighbor_list(g.edges, g.is_directed, ord[i])[k]]
                    0 <= i < j0 && 0 <= k < neighbor_list(g.edges, g.is_directed, ord[i]).len()
                        && !visited_flags@[neighbor_list(g.edges, g.is_directed, ord[i])[k].0 as int]
                        implies exists|s: int| 0 <= s < stack.len() && #[trigger] tags[s] == (i, k) by {
                    assert(ord[i] == o0[i]);
                    let w = neighbor_list(g.edges, g.is_directed, o0[i])[k].0;
                    lemma_reach_neighbor_in_range(g, start, o0[i], k);
                    assert(!f0[w as int]);
                    let s = choose|s: int| 0 <= s < s0.len() && #[trigger] t0[s] == (i, k);
                    assert(s0[s] == w);
                    assert(s != s0.len() - 1);
                    assert(tags[s] == t0[s]);
                }
            }
        }
        proof {
            assert forall|i: int| 0 <= i < snapshots.len() implies #[trigger] dfs_step(
                g,
                snapshots@[i],
                visited_order@,
                n as int,
                tks[i],
            ) by {
                if i >= 1 {
                    assert(dfs_follows(snapshots@, tks, i));
                }
                lemma_dfs_order_push(g, snapshots@[i], o0, node, n as int, tks[i]);
            }
            assert forall|t: int, k: int|
                1 <= t <= o0.len() && #[trigger] dfs_fresh(g, visited_order@, t, k) implies dfs_pushed(
                snapshots@,
                tks,
                t,
                k,
            ) by {
                lemma_dfs_fresh_push(g, o0, node, t, k);
            }
            assert forall|i: int| 1 <= i < snapshots.len() implies #[trigger] dfs_stack_follows(snapshots@, visited_order@, tks, i) by {
                assert(dfs_step(g, snapshots@[i - 1], o0, n as int, tks[i - 1]));
                lemma_dfs_stack_follows_push(snapshots@, o0, tks, i, node);
            }
        }
        let ghost lst0 = snapshots@.last().queue_or_stack@;
        let ghost sn0 = snapshots@;
        let ghost tk0 = tks;
        snapshots.push(
            StateSnapshot {
                current_line: 2,
                current_node: node,
                queue_or_stack: copy_all(&stack),
                visited_order: copy_all(&visited_order),
                visited_flags: copy_flags(&visited_flags),
                distances: None,
                message: StepMessage::DfsVisit { node },
                negative_cycle: false,
            },
        );
        proof {
            let i0 = tks.len() as int;
            tks = tks.push((visited_order.len() as int, 0int));
            assert(visited_order@.take(visited_order.len() as int) =~= visited_order@);
            assert(dfs_step(g, snapshots@[i0], visited_order@, n as int, tks[i0]));
            assert(dfs_follows(snapshots@, tks, i0));
            assert forall|i: int| 0 <= i < snapshots.len() implies #[trigger] dfs_step(
                g,
                snapshots@[i],
                visited_order@,
                n as int,
                tks[i],
            ) by {
                if i < i0 {
                    assert(snapshots@[i] == sn0[i] && tks[i] == tk0[i]);
                }
            }
            assert forall|i: int| 1 <= i < snapshots.len() implies #[trigger] dfs_follows(snapshots@, tks, i) by {
                if i < i0 {
                    assert(dfs_follows(sn0, tk0, i));
                    assert(snapshots@[i] == sn0[i] && tks[i] == tk0[i]);
                    assert(snapshots@[i - 1] == sn0[i - 1] && tks[i - 1] == tk0[i - 1]);
                }
            }
            assert forall|t: int, k: int|
                1 <= t < visited_order.len() && #[trigger] dfs_fresh(g, visited_order@, t, k) implies dfs_pushed(
                snapshots@,
                tks,
                t,
                k,
            ) by {
                assert(dfs_pushed(sn0, tk0, t, k));
                let i = choose|i: int| 0 <= i < sn0.len() && sn0[i].message is DfsPush && #[trigger] tk0[i] == (t, k);
                assert(snapshots@[i] == sn0[i] && tks[i] == tk0[i]);
            }
            let st = snapshots@[i0].queue_or_stack@;
            assert(st == stack@);
            assert(stack@ =~= s0.drop_last());
            assert(s0 =~= lst0.take(s0.len() as int));
            assert(st =~= lst0.take(st.len() as int));
            assert(lst0[st.len() as int] == node);
            assert(visited_order@.take(tk0[i0 - 1].0) =~= o0);
            assert forall|x: int| st.len() < x < lst0.len() implies visited_order@.take(tks[i0 - 1].0).contains(#[trigger] lst0[x]) by {
                assert(o0.contains(lst0[x]));
            }
            assert(dfs_stack_follows(snapshots@, visited_order@, tks, i0));
            assert forall|i: int| 1 <= i < snapshots.len() implies #[trigger] dfs_stack_follows(snapshots@, visited_order@, tks, i) by {
                if i < i0 {
                    lemma_dfs_stack_follows_snaps(sn0, visited_order@, tk0, i, snapshots@[i0], tks[i0]);
                }
            }
            assert(stack@ =~= snapshots@.last().queue_or_stack@.take(stack.len() as int));
        }
        let neighbors = graph.neighbors(node);
        let ghost nbrs = neighbors@;
        let ghost count0 = edge_traversal_count as int;
        proof {
            assert(visited_order@.drop_last() =~= o0);
            lemma_degree_sum_distinct(g, visited_order@);
            lemma_distinct_below(visited_order@, n);
            assert(visited_order@[visited_order.len() - 1] == node);
            assert(reachable(g, start, node));
        }
        // Neighbours are pushed last to first, so that the first one is popped next.
        let mut j: usize = neighbors.len();
        while j > 0
            invariant
                graph@ == g,
                n == graph.nodes.len(),
                reach_in_range(g, start),
                reachable(g, start, node),
                neighbors@ == nbrs,
                nbrs == neighbor_list(g.edges, g.is_directed, node),
                count0 + nbrs.len() <= usize::MAX,
                j <= neighbors.len(),
                visited_flags.len() == n,
                visited_order@.no_duplicates(),
                visited_order.len() > 0,
                visited_order@[0] == start,
                visited_order@.last() == node,
                forall|i: int| 0 <= i < visited_order.len() ==> #[trigger] visited_order@[i] < n,
                forall|v: usize| v < n ==> visited_flags@[v as int] == visited_order@.contains(v),
                forall|i: int| 0 <= i < stack.len() ==> #[trigger] stack@[i] < n,
                forall|i: int| 0 <= i < stack.len() ==> reachable(g, start, #[trigger] stack@[i]),
                forall|i: int| 0 <= i < visited_order.len() ==> reachable(g, start, #[trigger] visited_order@[i]),
                forall|i: int, k: int|
                    0 <= i < visited_order.len() - 1 && 0 <= k < neighbor_list(
                        g.edges,
                        g.is_directed,
                        visited_order@[i],
                    ).len() ==> (#[trigger] neighbor_list(g.edges, g.is_directed, visited_order@[i])[k]).0
                        < n && (visited_flags@[neighbor_list(
                        g.edges,
                        g.is_directed,
                        visited_order@[i],
                    )[k].0 as int] || stack@.contains(
                        neighbor_list(g.edges, g.is_directed, visited_order@[i])[k].0,
                    )),
                forall|k: int|
                    j <= k < nbrs.len() ==> (#[trigger] nbrs[k]).0 < n && (visited_flags@[nbrs[k].0 as int]
                        || stack@.contains(nbrs[k].0)),
                edge_traversal_count == count0 + (nbrs.len() - j),
                snapshots.len() >= 1 + visited_order.len(),
                depth_first(g, visited_order@),
                tags.len() == stack.len(),
                stack_tagged(g, visited_order@, stack@, tags),
                forall|s: int|
                    0 <= s < stack.len() ==> (#[trigger] tags[s]).0 < visited_order.len() - 1 || (tags[s].0
                        == visited_order.len() - 1 && tags[s].1 >= j),
                forall|i: int, k: int|
                    #![trigger neighbor_list(g.edges, g.is_directed, visited_order@[i])[k]]
                    0 <= i < visited_order.len() && 0 <= k < neighbor_list(g.edges, g.is_directed, visited_order@[i]).len()
                        && (i < visited_order.len() - 1 || k >= j)
                        && !visited_flags@[neighbor_list(g.edges, g.is_directed, visited_order@[i])[k].0 as int]
                        ==> exists|s: int| 0 <= s < stack.len() && #[trigger] tags[s] == (i, k),
                tks.len() == snapshots.len(),
                snapshots.len() >= 1,
                forall|i: int| 0 <= i < snapshots.len() ==> #[trigger] dfs_step(g, snapshots@[i], visited_order@, n as int, tks[i]),
                forall|i: int| 1 <= i < snapshots.len() ==> #[trigger] dfs_follows(snapshots@, tks, i),
                tks[snapshots.len() - 1].0 == visited_order.len(),
                snapshots@[snapshots.len() - 1].message is DfsPush ==> tks[snapshots.len() - 1].1 >= j,
                forall|t: int, k: int|
                    1 <= t < visited_order.len() && #[trigger] dfs_fresh(g, visited_order@, t, k) ==> dfs_pushed(
                        snapshots@,
                        tks,
                        t,
                        k,
                    ),
                forall|k: int|
                    j <= k && #[trigger] dfs_fresh(g, visited_order@, visited_order.len() as int, k) ==> dfs_pushed(
                        snapshots@,
                        tks,
                        visited_order.len() as int,
                        k,
                    ),
                forall|i: int| 1 <= i < snapshots.len() ==> #[trigger] dfs_stack_follows(snapshots@, visited_order@, tks, i),
                snapshots@.last().queue_or_stack@ == stack@,
            decreases j,
        {
            let (neighbor, _weight) = neighbors[j - 1];
            proof {
                lemma_reach_neighbor_in_range(g, start, node, j - 1);
            }
            edge_traversal_count = edge_traversal_count + 1;
            if !visited_flags[neighbor] {
                proof {
                    lemma_neighbor_list_adjacent(g, node, j - 1);
                    let i = visited_order.len() - 1;
                    assert(reachable(g, start, visited_order@[i]));
                    lemma_reach_step(g, start, node, neighbor);
                }
                let ghost st0 = stack@;
                let ghost tg0 = tags;
                stack.push(neighbor);
                proof {
                    let jn = visited_order.len() - 1;
                    tags = tags.push((jn as int, j - 1));
                    assert forall|s: int| 0 <= s < st0.len() implies #[trigger] tags[s] == tg0[s] && stack@[s] == st0[s] by {}
                    assert(visited_order@[jn as int] == node);
                    assert(stack_tagged(g, visited_order@, stack@, tags)) by {
                        assert forall|s: int, s2: int| 0 <= s < s2 < stack.len() implies (#[trigger] tags[s]).0 < (
                        #[trigger] tags[s2]).0 || (tags[s].0 == tags[s2].0 && tags[s].1 > tags[s2].1) by {
                            if s2 < st0.len() {
                                assert(tags[s] == tg0[s] && tags[s2] == tg0[s2]);
                            } else {
                                assert(tags[s] == tg0[s]);
                            }
                        }
                    }
                    assert forall|i: int, k: int|
                        #![trigger neighbor_list(g.edges, g.is_directed, visited_order@[i])[k]]
                        0 <= i < visited_order.len() && 0 <= k < neighbor_list(g.edges, g.is_directed, visited_order@[i]).len()
                            && (i < visited_order.len() - 1 || k >= j - 1)
                            && !visited_flags@[neighbor_list(g.edges, g.is_directed, visited_order@[i])[k].0 as int]
                            implies exists|s: int| 0 <= s < stack.len() && #[trigger] tags[s] == (i, k) by {
                        if i == jn && k == j - 1 {
                            assert(tags[st0.len() as int] == (i, k));
                        } else {
                            let s = choose|s: int| 0 <= s < st0.len() && #[trigger] tg0[s] == (i, k);
                            assert(tags[s] == tg0[s]);
                        }
                    }
                }
                proof {
                    assert forall|w: usize| #[trigger] st0.contains(w) implies stack@.contains(w) by {
                        let i = choose|i: int| 0 <= i < st0.len() && st0[i] == w;
                        assert(stack@[i] == w);
                    }
                    assert(stack@[st0.len() as int] == neighbor);
                }
                proof {
                    assert forall|x: int| 0 <= x < stack.len() implies #[trigger] stack@[x] < n by {
                        if x < st0.len() {
                            assert(stack@[x] == st0[x]);
                        }
                    }
                }
                let ghost sn0 = snapshots@;
                let ghost tk0 = tks;
                snapshots.push(
                    StateSnapshot {
                        current_line: 3,
                        current_node: neighbor,
                        queue_or_stack: copy_all(&stack),
                        visited_order: copy_all(&visited_order),
                        visited_flags: copy_flags(&visited_flags),
                        distances: None,
                        message: StepMessage::DfsPush { node, neighbor },
                        negative_cycle: false,
                    },
                );
                proof {
                    let len = visited_order.len() as int;
                    let i0 = tks.len() as int;
                    tks = tks.push((len, j - 1));
                    assert(visited_order@.take(len) =~= visited_order@);
                    assert(visited_order@[len - 1] == node);
                    assert(dfs_step(g, snapshots@[i0], visited_order@, n as int, tks[i0]));
                    assert(snapshots@[i0 - 1] == sn0[i0 - 1] && tks[i0 - 1] == tk0[i0 - 1]);
                    assert(dfs_follows(snapshots@, tks, i0));
                    assert forall|i: int| 0 <= i < snapshots.len() implies #[trigger] dfs_step(
                        g,
                        snapshots@[i],
                        visited_order@,
                        n as int,
                        tks[i],
                    ) by {
                        if i < i0 {
                            assert(snapshots@[i] == sn0[i] && tks[i] == tk0[i]);
                        }
                    }
                    assert forall|i: int| 1 <= i < snapshots.len() implies #[trigger] dfs_follows(snapshots@, tks, i) by {
                        if i < i0 {
                            assert(dfs_follows(sn0, tk0, i));
                            assert(snapshots@[i] == sn0[i] && tks[i] == tk0[i]);
                            assert(snapshots@[i - 1] == sn0[i - 1] && tks[i - 1] == tk0[i - 1]);
                        }
                    }
                    assert forall|t: int, k: int|
                        1 <= t < len && #[trigger] dfs_fresh(g, visited_order@, t, k) implies dfs_pushed(
                        snapshots@,
                        tks,
                        t,
                        k,
                    ) by {
                        assert(dfs_pushed(sn0, tk0, t, k));
                        let i = choose|i: int| 0 <= i < sn0.len() && sn0[i].message is DfsPush && #[trigger] tk0[i] == (t, k);
                        assert(snapshots@[i] == sn0[i] && tks[i] == tk0[i]);
                    }
                    assert(snapshots@[i0].queue_or_stack@ == sn0[i0 - 1].queue_or_stack@.push(neighbor));
                    assert(dfs_stack_follows(snapshots@, visited_order@, tks, i0));
                    assert forall|i: int| 1 <= i < snapshots.len() implies #[trigger] dfs_stack_follows(snapshots@, visited_order@, tks, i) by {
                        if i < i0 {
                            lemma_dfs_stack_follows_snaps(sn0, visited_order@, tk0, i, snapshots@[i0], tks[i0]);
                        }
                    }
                    assert forall|k: int|
                        j - 1 <= k && #[trigger] dfs_fresh(g, visited_order@, len, k) implies dfs_pushed(
                        snapshots@,
                        tks,
                        len,
                        k,
                    ) by {
                        if k == j - 1 {
                            assert(tks[i0] == (len, k));
                        } else {
                            assert(dfs_pushed(sn0, tk0, len, k));
                            let i = choose|i: int| 0 <= i < sn0.len() && sn0[i].message is DfsPush && #[trigger] tk0[i] == (len, k);
                            assert(snapshots@[i] == sn0[i] && tks[i] == tk0[i]);
                        }
                    }
                }
            } else {
                proof {
                    let len = visited_order.len() as int;
                    assert(visited_order@.take(len) =~= visited_order@);
                    assert(visited_order@[len - 1] == node);
                    assert(!dfs_fresh(g, visited_order@, len, j - 1));
                }
            }
            j = j - 1;
        }
        proof {
            assert(visited_order@.drop_last() =~= o0);
            assert(edge_traversal_count == degree_sum(g, visited_order@));
            assert forall|t: int, k: int|
                1 <= t <= visited_order.len() && #[trigger] dfs_fresh(g, visited_order@, t, k) implies dfs_pushed(
                snapshots@,
                tks,
                t,
                k,
            ) by {
                if t == visited_order.len() {
                    assert(dfs_fresh(g, visited_order@, visited_order.len() as int, k));
                }
            }
            assert(stack@ =~= snapshots@.last().queue_or_stack@.take(stack.len() as int));
        }
    }
    proof {
        assert(visited_order.len() > 0);
        assert forall|v: usize| #[trigger] visited_order@.contains(v) <==> v < n && reachable(g, start, v) by {
            if v < n && reachable(g, start, v) {
                let inside = |x: usize| visited_order@.contains(x);
                assert forall|a: usize, b: usize| inside(a) && #[trigger] adjacent(g, a, b) implies inside(b) by {
                    let i = choose|i: int| 0 <= i < visited_order.len() && visited_order@[i] == a;
                    lemma_adjacent_in_neighbor_list(g, a, b);
                    let k = choose|k: int|
                        0 <= k < neighbor_list(g.edges, g.is_directed, a).len()
                            && (#[trigger] neighbor_list(g.edges, g.is_directed, a)[k]).0 == b;
                    lemma_reach_neighbor_in_range(g, start, a, k);
                }
                assert(inside(start)) by {
                    assert(visited_order@[0] == start);
                }
                lemma_closed_holds_reachable(g, start, inside, v);
            }
            if visited_order@.contains(v) {
                let i = choose|i: int| 0 <= i < visited_order.len() && visited_order@[i] == v;
            }
        }
    }
    proof {
        assert(stack.len() == 0);
    }
    let r = AlgorithmResult { kind: AlgorithmKind::DFS, snapshots, visit_order: visited_order, edge_traversal_count };
    assert(dfs_trace(graph@, r.snapshots@, r.visit_order@, graph.nodes.len() as int, tks));
    r
}

} // verus!
