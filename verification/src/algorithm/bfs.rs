//! Breadth-first search.

use vstd::prelude::*;
use crate::graph::{
    Graph, GraphView, adjacent, degree_sum, lemma_adjacent_in_neighbor_list,
    lemma_closed_holds_reachable, lemma_degree_sum_distinct, lemma_distinct_below,
    lemma_neighbor_list_adjacent, lemma_reach_neighbor_in_range, reach_in_range,
    lemma_reach_self, lemma_reach_step, lists_reachable, neighbor_list, reachable,
};
use super::state::{
    AlgorithmKind, AlgorithmResult, StateSnapshot, StepMessage, all_false, copy_all, copy_flags,
    copy_from,
};

verus! {

/// `a` comes before `b`: by finder first, then by position in the finder's list.
pub open spec fn lex_less(a: (int, int), b: (int, int)) -> bool {
    a.0 < b.0 || (a.0 == b.0 && a.1 < b.1)
}

/// Node `order[j]` is first found in the neighbour list of `order[i]`, at position `k`:
/// it stands there, at no earlier position of that list, and in no neighbour list of a
/// node before `order[i]`.
pub open spec fn found_at(g: GraphView, order: Seq<usize>, j: int, i: int, k: int) -> bool {
    let nl = neighbor_list(g.edges, g.is_directed, order[i]);
    &&& 0 <= i < j
    &&& 0 <= k < nl.len()
    &&& nl[k].0 == order[j]
    &&& forall|k2: int| 0 <= k2 < k ==> #[trigger] nl[k2].0 != order[j]
    &&& forall|i2: int, k2: int|
        0 <= i2 < i && 0 <= k2 < neighbor_list(g.edges, g.is_directed, order[i2]).len() ==> #[trigger] neighbor_list(
            g.edges,
            g.is_directed,
            order[i2],
        )[k2].0 != order[j]
}

/// `order` is breadth-first, with `keys[j]` the finder and position of `order[j]`: every
/// node after the first is found in the neighbour list of an earlier one, and nodes come
/// in the order in which they are found.
pub open spec fn breadth_first(g: GraphView, order: Seq<usize>, keys: Seq<(int, int)>) -> bool {
    &&& keys.len() == order.len()
    &&& forall|j: int| 1 <= j < order.len() ==> found_at(g, order, j, (#[trigger] keys[j]).0, keys[j].1)
    &&& forall|j: int, j2: int| 1 <= j < j2 < order.len() ==> lex_less(#[trigger] keys[j], #[trigger] keys[j2])
}

/// Snapshot `s` shows a breadth-first search that finds the nodes in the order `order`,
/// after `t` of them have been taken from the queue and `d` found: the taken ones are the
/// visit order so far, the queue holds the found ones not yet taken, and exactly the
/// found ones are marked.
pub open spec fn bfs_state(s: StateSnapshot, order: Seq<usize>, n: int, t: int, d: int) -> bool {
    &&& 0 <= t <= d
    &&& 1 <= d <= order.len()
    &&& s.visited_order@ == order.take(t)
    &&& s.queue_or_stack@ == order.subrange(t, d)
    &&& s.visited_flags@.len() == n
    &&& forall|v: usize| v < n ==> s.visited_flags@[v as int] == order.take(d).contains(v)
    &&& s.distances is None
    &&& !s.negative_cycle
}

/// The step snapshot `s` records, with `t` nodes taken and `d` found, `keys` giving the
/// finder of each found node: the start; taking node `t` once every node found by the
/// nodes before it is queued and none found by it yet; or finding node `d` as a
/// neighbour of node `t`.
pub open spec fn bfs_event(s: StateSnapshot, order: Seq<usize>, keys: Seq<(int, int)>, t: int, d: int) -> bool {
    match s.message {
        StepMessage::BfsStart { start } => t == 0 && d == 1 && start == order[0] && s.current_node == start
            && s.current_line == 1,
        StepMessage::BfsDequeue { node } => {
            &&& 1 <= t
            &&& node == order[t - 1]
            &&& s.current_node == node
            &&& s.current_line == 2
            &&& forall|j: int| 1 <= j < d ==> (#[trigger] keys[j]).0 < t - 1
            &&& d < order.len() ==> keys[d].0 >= t - 1
        },
        StepMessage::BfsDiscover { node, neighbor } => {
            &&& 1 <= t
            &&& 2 <= d
            &&& node == order[t - 1]
            &&& neighbor == order[d - 1]
            &&& keys[d - 1].0 == t - 1
            &&& s.current_node == neighbor
            &&& s.current_line == 3
        },
        _ => false,
    }
}

/// Snapshot number `i` shows the search with `td.0` nodes taken and `td.1` found; each
/// step takes or finds one node, so the two add up to `i + 1`.
pub open spec fn bfs_step_at(s: StateSnapshot, order: Seq<usize>, keys: Seq<(int, int)>, n: int, i: int, td: (int, int)) -> bool {
    &&& td.0 + td.1 == i + 1
    &&& bfs_state(s, order, n, td.0, td.1)
    &&& bfs_event(s, order, keys, td.0, td.1)
}

/// The snapshots of a breadth-first search that finds the nodes in the order `order`,
/// `keys` giving each one's finder: one per step, in the order of the steps, `tds[i]`
/// counting the nodes taken and found at snapshot `i`.
pub open spec fn bfs_trace(
    snaps: Seq<StateSnapshot>,
    order: Seq<usize>,
    keys: Seq<(int, int)>,
    n: int,
    tds: Seq<(int, int)>,
) -> bool {
    &&& tds.len() == snaps.len()
    &&& forall|i: int| 0 <= i < snaps.len() ==> #[trigger] bfs_step_at(snaps[i], order, keys, n, i, tds[i])
}

proof fn lemma_bfs_step_push(
    s: StateSnapshot,
    q: Seq<usize>,
    keys: Seq<(int, int)>,
    n: int,
    i: int,
    td: (int, int),
    x: usize,
    key: (int, int),
)
    requires
        bfs_step_at(s, q, keys, n, i, td),
        keys.len() == q.len(),
        key.0 >= td.0 - 1,
    ensures
        bfs_step_at(s, q.push(x), keys.push(key), n, i, td),
{
    let q2 = q.push(x);
    let k2 = keys.push(key);
    assert(q2.take(td.0) =~= q.take(td.0));
    assert(q2.take(td.1) =~= q.take(td.1));
    assert(q2.subrange(td.0, td.1) =~= q.subrange(td.0, td.1));
    match s.message {
        StepMessage::BfsDequeue { node } => {
            assert forall|j: int| 1 <= j < td.1 implies (#[trigger] k2[j]).0 < td.0 - 1 by {
                assert(k2[j] == keys[j]);
            }
            if td.1 < q.len() {
                assert(k2[td.1] == keys[td.1]);
            }
        },
        StepMessage::BfsDiscover { node, neighbor } => {
            assert(k2[td.1 - 1] == keys[td.1 - 1]);
        },
        _ => {},
    }
}

/// Breadth-first search from `start`. The visit order lists every node reachable from
/// `start` exactly once, starting with `start`, in breadth-first order: nodes come in
/// the order in which they are first found scanning the neighbour lists of the nodes
/// before them. Every visited node's neighbour list is examined once, and each step
/// (queueing the start, taking a node from the queue, queueing a neighbour) leaves one
/// snapshot, in order, showing the nodes taken so far, the queue, and the marks.
pub fn run(graph: &Graph, start: usize) -> (r: AlgorithmResult)
    requires
        graph.nodes.len() > 0 ==> start < graph.nodes.len(),
        graph.nodes.len() > 0 ==> reach_in_range(graph@, start),
        2 * graph.edges.len() <= usize::MAX,
    ensures
        r.kind == AlgorithmKind::BFS,
        graph.nodes.len() == 0 ==> r.visit_order.len() == 0 && r.snapshots.len() == 0,
        graph.nodes.len() > 0 ==> lists_reachable(graph@, start, r.visit_order@),
        graph.nodes.len() > 0 ==> r.visit_order@[0] == start,
        graph.nodes.len() > 0 ==> exists|keys: Seq<(int, int)>, tds: Seq<(int, int)>|
            breadth_first(graph@, r.visit_order@, keys) && bfs_trace(
                r.snapshots@,
                r.visit_order@,
                keys,
                graph.nodes.len() as int,
                tds,
            ),
        r.edge_traversal_count == degree_sum(graph@, r.visit_order@),
        r.snapshots.len() == 2 * r.visit_order.len(),
{
    let n = graph.nodes.len();
    if n == 0 {
        return AlgorithmResult::empty(AlgorithmKind::BFS);
    }
    let ghost g = graph@;
    let ghost e2 = 2 * graph.edges.len();
    let mut snapshots: Vec<StateSnapshot> = Vec::new();
    let mut visited_flags = all_false(n);
    let mut visited_order: Vec<usize> = Vec::new();
    // The queue is `queue[head..]`; `queue[..head]` are the nodes already taken out.
    let mut queue: Vec<usize> = Vec::new();
    let mut head: usize = 0;
    let mut edge_traversal_count: usize = 0;

    visited_flags.set(start, true);
    queue.push(start);
    let ghost mut keys: Seq<(int, int)> = seq![(0int, 0int)];
    proof {
        lemma_reach_self(g, start);
        assert(queue@.no_duplicates());
        assert forall|v: usize| v < n implies visited_flags@[v as int] == queue@.contains(v) by {
            if v == start {
                assert(queue@[0] == v);
            }
        }
    }
    snapshots.push(
        StateSnapshot {
            current_line: 1,
            current_node: start,
            queue_or_stack: copy_from(&queue, head),
            visited_order: copy_all(&visited_order),
            visited_flags: copy_flags(&visited_flags),
            distances: None,
            message: StepMessage::BfsStart { start },
            negative_cycle: false,
        },
    );
    let ghost mut tds: Seq<(int, int)> = seq![(0int, 1int)];
    proof {
        assert(queue@.take(1) =~= queue@);
        assert(queue@.take(0) =~= visited_order@);
        assert(bfs_step_at(snapshots@[0], queue@, keys, n as int, 0, tds[0]));
    }

    while head < queue.len()
        invariant
            graph@ == g,
            n == graph.nodes.len(),
            n > 0,
            e2 == 2 * graph.edges.len(),
            e2 <= usize::MAX,
            reach_in_range(g, start),
            start < n,
            visited_flags.len() == n,
            head <= queue.len(),
            queue.len() >= 1,
            queue@[0] == start,
            queue@.no_duplicates(),
            forall|i: int| 0 <= i < queue.len() ==> #[trigger] queue@[i] < n,
            forall|v: usize| v < n ==> visited_flags@[v as int] == queue@.contains(v),
            forall|i: int| 0 <= i < queue.len() ==> reachable(g, start, #[trigger] queue@[i]),
            forall|i: int, k: int|
                0 <= i < visited_order.len() && 0 <= k < neighbor_list(
                    g.edges,
                    g.is_directed,
                    visited_order@[i],
                ).len() ==> (#[trigger] neighbor_list(g.edges, g.is_directed, visited_order@[i])[k]).0
                    < n && visited_flags@[neighbor_list(
                    g.edges,
                    g.is_directed,
                    visited_order@[i],
                )[k].0 as int],
            visited_order@ == queue@.take(head as int),
            edge_traversal_count == degree_sum(g, visited_order@),
            snapshots.len() == head + queue.len(),
            keys.len() == queue.len(),
            forall|j: int| 1 <= j < queue.len() ==> found_at(g, queue@, j, (#[trigger] keys[j]).0, keys[j].1)
                && keys[j].0 < head,
            forall|j: int, j2: int| 1 <= j < j2 < queue.len() ==> lex_less(#[trigger] keys[j], #[trigger] keys[j2]),
            tds.len() == snapshots.len(),
            forall|i: int|
                0 <= i < snapshots.len() ==> bfs_step_at(snapshots@[i], queue@, keys, n as int, i, #[trigger] tds[i])
                    && tds[i].0 <= head,
        decreases n - head, n - queue.len(),
    {
        proof {
            lemma_distinct_below(queue@, n);
        }
        let node = queue[head];
        head = head + 1;
        visited_order.push(node);
        proof {
            assert(queue@.take(head as int).drop_last() =~= queue@.take(head - 1));
            assert(visited_order@ =~= queue@.take(head as int));
        }
        let ghost s0 = snapshots@;
        snapshots.push(
            StateSnapshot {
                current_line: 2,
                current_node: node,
                queue_or_stack: copy_from(&queue, head),
                visited_order: copy_all(&visited_order),
                visited_flags: copy_flags(&visited_flags),
                distances: None,
                message: StepMessage::BfsDequeue { node },
                negative_cycle: false,
            },
        );
        proof {
            let i0 = tds.len() as int;
            tds = tds.push((head as int, queue.len() as int));
            assert(queue@.take(queue.len() as int) =~= queue@);
            assert(bfs_step_at(snapshots@[i0], queue@, keys, n as int, i0, tds[i0]));
            assert forall|i: int| 0 <= i < snapshots.len() implies bfs_step_at(snapshots@[i], queue@, keys, n as int, i, #[trigger] tds[i])
                && tds[i].0 <= head by {
                if i < i0 {
                    assert(snapshots@[i] == s0[i]);
                }
            }
        }
        let neighbors = graph.neighbors(node);
        let ghost nbrs = neighbors@;
        let ghost count0 = edge_traversal_count as int;
        proof {
            assert(visited_order@.drop_last() =~= queue@.take(head - 1));
            assert(visited_order@.no_duplicates()) by {
                assert forall|a: int, b: int|
                    0 <= a < visited_order.len() && 0 <= b < visited_order.len() && a != b implies visited_order@[a]
                    != visited_order@[b] by {
                    assert(visited_order@[a] == queue@[a] && visited_order@[b] == queue@[b]);
                }
            }
            lemma_degree_sum_distinct(g, visited_order@);
            assert(reachable(g, start, queue@[head - 1]));
        }
        let mut j: usize = 0;
        while j < neighbors.len()
            invariant
                graph@ == g,
                n == graph.nodes.len(),
                reach_in_range(g, start),
                reachable(g, start, node),
                neighbors@ == nbrs,
                nbrs == neighbor_list(g.edges, g.is_directed, node),
                count0 + nbrs.len() <= usize::MAX,
                j <= neighbors.len(),
                node == queue@[head - 1],
                1 <= head <= queue.len(),
                visited_flags.len() == n,
                queue.len() >= 1,
                queue@[0] == start,
                queue@.no_duplicates(),
                forall|i: int| 0 <= i < queue.len() ==> #[trigger] queue@[i] < n,
                forall|v: usize| v < n ==> visited_flags@[v as int] == queue@.contains(v),
                forall|i: int| 0 <= i < queue.len() ==> reachable(g, start, #[trigger] queue@[i]),
                visited_order@ == queue@.take(head as int),
                visited_order.len() == head,
                visited_order@[head - 1] == node,
                forall|i: int, k: int|
                    0 <= i < head - 1 && 0 <= k < neighbor_list(
                        g.edges,
                        g.is_directed,
                        visited_order@[i],
                    ).len() ==> (#[trigger] neighbor_list(g.edges, g.is_directed, visited_order@[i])[k]).0
                        < n && visited_flags@[neighbor_list(
                        g.edges,
                        g.is_directed,
                        visited_order@[i],
                    )[k].0 as int],
                forall|k: int| 0 <= k < j ==> (#[trigger] nbrs[k]).0 < n && visited_flags@[nbrs[k].0 as int],
                edge_traversal_count == count0 + j,
                snapshots.len() == head + queue.len(),
                keys.len() == queue.len(),
                forall|jj: int| 1 <= jj < queue.len() ==> found_at(g, queue@, jj, (#[trigger] keys[jj]).0, keys[jj].1)
                    && (keys[jj].0 < head - 1 || (keys[jj].0 == head - 1 && keys[jj].1 < j)),
                forall|jj: int, j2: int| 1 <= jj < j2 < queue.len() ==> lex_less(#[trigger] keys[jj], #[trigger] keys[j2]),
                tds.len() == snapshots.len(),
                forall|i: int|
                    0 <= i < snapshots.len() ==> bfs_step_at(snapshots@[i], queue@, keys, n as int, i, #[trigger] tds[i])
                        && tds[i].0 <= head,
            decreases neighbors.len() - j,
        {
            let (neighbor, _weight) = neighbors[j];
            proof {
                lemma_reach_neighbor_in_range(g, start, node, j as int);
            }
            edge_traversal_count = edge_traversal_count + 1;
            if !visited_flags[neighbor] {
                proof {
                    lemma_neighbor_list_adjacent(g, node, j as int);
                    lemma_reach_step(g, start, node, neighbor);
                    assert(!queue@.contains(neighbor));
                }
                let ghost q0 = queue@;
                let ghost k0 = keys;
                let ghost f0 = visited_flags@;
                visited_flags.set(neighbor, true);
                assert forall|x: int| 0 <= x < n && f0[x] implies visited_flags@[x] by {}
                queue.push(neighbor);
                proof {
                    assert(queue@.no_duplicates()) by {
                        assert forall|a: int, b: int|
                            0 <= a < queue.len() && 0 <= b < queue.len() && a != b implies queue@[a]
                            != queue@[b] by {
                            if a < q0.len() && b < q0.len() {
                                assert(q0[a] != q0[b]);
                            } else if a < q0.len() {
                                assert(q0.contains(q0[a]));
                            } else {
                                assert(q0.contains(q0[b]));
                            }
                        }
                    }
                    assert forall|v: usize| v < n implies visited_flags@[v as int] == queue@.contains(v) by {
                        if v == neighbor {
                            assert(queue@[q0.len() as int] == v);
                        } else {
                            if queue@.contains(v) {
                                let i = choose|i: int| 0 <= i < queue.len() && queue@[i] == v;
                                assert(i < q0.len());
                                assert(q0[i] == v);
                            }
                            if q0.contains(v) {
                                let i = choose|i: int| 0 <= i < q0.len() && q0[i] == v;
                                assert(queue@[i] == v);
                            }
                        }
                    }
                    assert(queue@.take(head as int) =~= q0.take(head as int));
                    keys = keys.push((head - 1, j as int));
                    let nq = q0.len() as int;
                    assert forall|jj: int| 1 <= jj < queue.len() implies found_at(g, queue@, jj, (#[trigger] keys[jj]).0, keys[jj].1)
                        && (keys[jj].0 < head - 1 || (keys[jj].0 == head - 1 && keys[jj].1 < j + 1)) by {
                        if jj < nq {
                            assert(keys[jj] == k0[jj]);
                            assert(found_at(g, q0, jj, k0[jj].0, k0[jj].1));
                            assert(queue@[jj] == q0[jj]);
                            assert(queue@[k0[jj].0] == q0[k0[jj].0]);
                            assert forall|i2: int, k2: int|
                                0 <= i2 < k0[jj].0 && 0 <= k2 < neighbor_list(g.edges, g.is_directed, queue@[i2]).len() implies #[trigger] neighbor_list(
                                g.edges,
                                g.is_directed,
                                queue@[i2],
                            )[k2].0 != queue@[jj] by {
                                assert(queue@[i2] == q0[i2]);
                            }
                        } else {
                            assert(queue@[jj] == neighbor);
                            assert(queue@[head - 1] == node);
                            assert forall|k2: int| 0 <= k2 < j implies #[trigger] nbrs[k2].0 != neighbor by {
                                assert(visited_flags@[nbrs[k2].0 as int]);
                                assert(f0[nbrs[k2].0 as int]);
                            }
                            assert forall|i2: int, k2: int|
                                0 <= i2 < head - 1 && 0 <= k2 < neighbor_list(g.edges, g.is_directed, queue@[i2]).len() implies #[trigger] neighbor_list(
                                g.edges,
                                g.is_directed,
                                queue@[i2],
                            )[k2].0 != queue@[jj] by {
                                assert(queue@[i2] == visited_order@[i2]);
                                assert(f0[neighbor_list(g.edges, g.is_directed, visited_order@[i2])[k2].0 as int]);
                            }
                        }
                    }
                    assert forall|jj: int, j2: int| 1 <= jj < j2 < queue.len() implies lex_less(#[trigger] keys[jj], #[trigger] keys[j2]) by {
                        if j2 < nq {
                            assert(keys[jj] == k0[jj] && keys[j2] == k0[j2]);
                        } else {
                            assert(keys[jj] == k0[jj]);
                        }
                    }
                }
                proof {
                    assert forall|i: int| 0 <= i < snapshots.len() implies bfs_step_at(snapshots@[i], queue@, keys, n as int, i, #[trigger] tds[i])
                        && tds[i].0 <= head by {
                        lemma_bfs_step_push(snapshots@[i], q0, k0, n as int, i, tds[i], neighbor, (head - 1, j as int));
                    }
                }
                let ghost s0 = snapshots@;
                snapshots.push(
                    StateSnapshot {
                        current_line: 3,
                        current_node: neighbor,
                        queue_or_stack: copy_from(&queue, head),
                        visited_order: copy_all(&visited_order),
                        visited_flags: copy_flags(&visited_flags),
                        distances: None,
                        message: StepMessage::BfsDiscover { node, neighbor },
                        negative_cycle: false,
                    },
                );
                proof {
                    let i0 = tds.len() as int;
                    tds = tds.push((head as int, queue.len() as int));
                    assert(queue@.take(queue.len() as int) =~= queue@);
                    assert(bfs_step_at(snapshots@[i0], queue@, keys, n as int, i0, tds[i0]));
                    assert forall|i: int| 0 <= i < snapshots.len() implies bfs_step_at(snapshots@[i], queue@, keys, n as int, i, #[trigger] tds[i])
                        && tds[i].0 <= head by {
                        if i < i0 {
                            assert(snapshots@[i] == s0[i]);
                        }
                    }
                }
            }
            j = j + 1;
        }
        proof {
            assert(visited_order@.drop_last() =~= visited_order@.take(head - 1));
            assert(edge_traversal_count == degree_sum(g, visited_order@));
        }
    }
    proof {
        assert(queue@.take(head as int) =~= queue@);
        assert(breadth_first(g, queue@, keys));
        assert(bfs_trace(snapshots@, queue@, keys, n as int, tds));
        assert(visited_order@ == queue@);
        assert(breadth_first(g, visited_order@, keys) && bfs_trace(snapshots@, visited_order@, keys, n as int, tds));
        assert forall|v: usize| #[trigger] queue@.contains(v) <==> v < n && reachable(g, start, v) by {
            if v < n && reachable(g, start, v) {
                let inside = |x: usize| queue@.contains(x);
                assert forall|a: usize, b: usize| inside(a) && #[trigger] adjacent(g, a, b) implies inside(b) by {
                    let i = choose|i: int| 0 <= i < queue.len() && queue@[i] == a;
                    lemma_adjacent_in_neighbor_list(g, a, b);
                    let k = choose|k: int|
                        0 <= k < neighbor_list(g.edges, g.is_directed, a).len()
                            && (#[trigger] neighbor_list(g.edges, g.is_directed, a)[k]).0 == b;
                    assert(reachable(g, start, queue@[i]));
                    lemma_reach_neighbor_in_range(g, start, a, k);
                }
                assert(inside(start));
                lemma_closed_holds_reachable(g, start, inside, v);
            }
            if queue@.contains(v) {
                let i = choose|i: int| 0 <= i < queue.len() && queue@[i] == v;
            }
        }
    }
    let r = AlgorithmResult { kind: AlgorithmKind::BFS, snapshots, visit_order: visited_order, edge_traversal_count };
    assert(breadth_first(graph@, r.visit_order@, keys));
    assert(bfs_trace(r.snapshots@, r.visit_order@, keys, graph.nodes.len() as int, tds));
    r
}

} // verus!
