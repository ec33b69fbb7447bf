//! Topological sort: Kahn's algorithm (in-degree counting, O(V + E)) and a depth-first
//! variant, the DAG test and the level of each node.

use vstd::prelude::*;
use crate::graph::{Graph, GraphView, Edge, lemma_distinct_below, lemma_covers_below};
use crate::graph::history::{first_match, lemma_first_match};
use super::state::{
    AlgorithmKind, AlgorithmResult, StateSnapshot, StepMessage, all_false, copy_all, copy_flags,
    copy_from,
};
use super::bfs::lex_less;

verus! {

// ───────────────────────────── counting edges ───────────────────────────────

/// Number of edges into `v` whose source is not listed in `done`: the in-degree that
/// Kahn's algorithm still counts for `v` once the nodes of `done` are taken out.
pub open spec fn pending_in(es: Seq<Edge>, v: usize, done: Seq<usize>) -> nat
    decreases es.len(),
{
    if es.len() == 0 {
        0
    } else {
        pending_in(es.drop_last(), v, done) + if es.last().to == v && !done.contains(
            es.last().from,
        ) {
            1nat
        } else {
            0nat
        }
    }
}

/// Number of edges from `u` to `v`.
pub open spec fn hits(es: Seq<Edge>, u: usize, v: usize) -> nat
    decreases es.len(),
{
    if es.len() == 0 {
        0
    } else {
        hits(es.drop_last(), u, v) + if es.last().from == u && es.last().to == v {
            1nat
        } else {
            0nat
        }
    }
}

/// Number of edges whose source is listed in `done`.
pub open spec fn from_listed(es: Seq<Edge>, done: Seq<usize>) -> nat
    decreases es.len(),
{
    if es.len() == 0 {
        0
    } else {
        from_listed(es.drop_last(), done) + if done.contains(es.last().from) {
            1nat
        } else {
            0nat
        }
    }
}

/// Number of edges whose source is `u`.
pub open spec fn out_count(es: Seq<Edge>, u: usize) -> nat
    decreases es.len(),
{
    if es.len() == 0 {
        0
    } else {
        out_count(es.drop_last(), u) + if es.last().from == u {
            1nat
        } else {
            0nat
        }
    }
}

// ───────────────────────────── orders ───────────────────────────────────────

/// Every edge into a listed node (of the graph) comes from a node listed before it.
pub open spec fn sources_first(g: GraphView, order: Seq<usize>) -> bool {
    forall|j: int, t: int|
        #![trigger g.edges[t], order[j]]
        0 <= j < order.len() && 0 <= t < g.edges.len() && g.edges[t].to == order[j] ==> exists|i: int|
            0 <= i < j && #[trigger] order[i] == g.edges[t].from
}

/// `order` lists every node once, and every edge into a node of the graph leads from an
/// earlier node to a later one.
pub open spec fn is_topological_order(g: GraphView, order: Seq<usize>) -> bool {
    &&& order.len() == g.nodes.len()
    &&& order.no_duplicates()
    &&& forall|i: int| 0 <= i < order.len() ==> #[trigger] order[i] < g.nodes.len()
    &&& forall|v: usize| v < g.nodes.len() ==> #[trigger] order.contains(v)
    &&& sources_first(g, order)
}

/// The graph has a topological order: it is a DAG.
pub open spec fn is_dag_spec(g: GraphView) -> bool {
    exists|order: Seq<usize>| #[trigger] is_topological_order(g, order)
}

/// Node `order[j]` is released by edge `t` out of `order[i]`: once the nodes up to
/// `order[i]` are taken out no edge into `order[j]` is left, though one was before, and
/// `t` is the last edge from `order[i]` to `order[j]`.
pub open spec fn released_at(es: Seq<Edge>, order: Seq<usize>, j: int, i: int, t: int) -> bool {
    &&& 0 <= i < j
    &&& 0 <= t < es.len()
    &&& es[t].from == order[i]
    &&& es[t].to == order[j]
    &&& forall|t2: int| t < t2 < es.len() ==> !((#[trigger] es[t2]).from == order[i] && es[t2].to == order[j])
    &&& pending_in(es, order[j], order.take(i + 1)) == 0
    &&& pending_in(es, order[j], order.take(i)) > 0
}

/// Kahn's order, with the first `ns` entries the nodes without incoming edges and
/// `keys[j]` the releasing node and edge of each later entry: first the nodes without
/// incoming edges in increasing order, then each node as the edge that releases it is
/// met, taking the listed nodes in turn and each one's edges in edge-list order.
pub open spec fn kahn_ordered(g: GraphView, order: Seq<usize>, ns: int, keys: Seq<(int, int)>) -> bool {
    &&& 0 <= ns <= order.len()
    &&& keys.len() == order.len()
    &&& forall|j: int| 0 <= j < ns ==> in_count(g.edges, #[trigger] order[j]) == 0
    &&& forall|a: int, b: int| 0 <= a < b < ns ==> #[trigger] order[a] < #[trigger] order[b]
    &&& forall|v: usize| v < g.nodes.len() && in_count(g.edges, v) == 0 ==> #[trigger] order.take(ns).contains(v)
    &&& forall|j: int| ns <= j < order.len() ==> released_at(g.edges, order, j, (#[trigger] keys[j]).0, keys[j].1)
    &&& forall|j: int, j2: int| ns <= j < j2 < order.len() ==> lex_less(#[trigger] keys[j], #[trigger] keys[j2])
}

/// Snapshot `s` shows Kahn's algorithm, which lists the nodes in the order `order`, after
/// `t` of them are taken out and `d` queued: the taken ones are the order so far and are
/// marked, the queue holds the queued ones not yet taken, and the cycle flag is raised
/// only by the report of a cycle.
pub open spec fn kahn_state(s: StateSnapshot, order: Seq<usize>, n: int, t: int, d: int) -> bool {
    &&& 0 <= t <= d <= order.len()
    &&& s.visited_order@ == order.take(t)
    &&& s.queue_or_stack@ == order.subrange(t, d)
    &&& s.visited_flags@.len() == n
    &&& forall|v: usize| v < n ==> s.visited_flags@[v as int] == order.take(t).contains(v)
    &&& s.distances is None
    &&& s.negative_cycle == s.message is KahnCycle
}

/// The step snapshot `s` records with `t` nodes taken out and `d` queued, `e` naming an
/// edge: the initial queue of the first `ns` nodes; taking out node `t`; taking edge `e`
/// out of node `t` away from its target's in-degree, which it reports; queueing node `d`,
/// which edge `e` of node `t` released; or the outcome once the queue is empty.
pub open spec fn kahn_event(
    g: GraphView,
    s: StateSnapshot,
    order: Seq<usize>,
    keys: Seq<(int, int)>,
    ns: int,
    n: int,
    t: int,
    d: int,
    e: int,
) -> bool {
    match s.message {
        StepMessage::KahnInit { queue } => {
            &&& t == 0
            &&& d == ns
            &&& queue@ == order.take(ns)
            &&& s.current_line == 1
            &&& s.current_node == if ns > 0 { order[0] } else { 0 }
        },
        StepMessage::KahnAppend { node, order: so_far } => {
            &&& 1 <= t
            &&& node == order[t - 1]
            &&& so_far@ == order.take(t)
            &&& s.current_node == node
            &&& s.current_line == 2
        },
        StepMessage::KahnDecrement { node, neighbor, in_degree } => {
            &&& 1 <= t
            &&& node == order[t - 1]
            &&& 0 <= e < g.edges.len()
            &&& g.edges[e].from == node
            &&& g.edges[e].to == neighbor
            &&& neighbor < n
            &&& in_degree == pending_in(g.edges, neighbor, order.take(t - 1)) - hits(g.edges.take(e + 1), node, neighbor)
            &&& s.current_node == neighbor
            &&& s.current_line == 3
        },
        StepMessage::KahnEnqueue { neighbor } => {
            &&& 1 <= t
            &&& ns < d
            &&& neighbor == order[d - 1]
            &&& keys[d - 1] == (t - 1, e)
            &&& s.current_node == neighbor
            &&& s.current_line == 4
        },
        StepMessage::KahnCycle { processed, total } => {
            &&& t == d == order.len() < n
            &&& processed == order.len()
            &&& total == n
            &&& s.current_node == 0
            &&& s.current_line == 5
        },
        StepMessage::KahnDone { order: all } => {
            &&& t == d == order.len() == n
            &&& all@ == order
            &&& s.current_node == 0
            &&& s.current_line == 5
        },
        _ => false,
    }
}

/// Snapshot `s` shows the state and step that `tde` (nodes taken, nodes queued, edge)
/// describes.
pub open spec fn kahn_step_at(
    g: GraphView,
    s: StateSnapshot,
    order: Seq<usize>,
    keys: Seq<(int, int)>,
    ns: int,
    n: int,
    tde: (int, int, int),
) -> bool {
    kahn_state(s, order, n, tde.0, tde.1) && kahn_event(g, s, order, keys, ns, n, tde.0, tde.1, tde.2)
}

/// Snapshot `s` reports an in-degree that reached 0, so that a queueing follows.
pub open spec fn kahn_releases(s: StateSnapshot) -> bool {
    s.message matches StepMessage::KahnDecrement { in_degree, .. } && in_degree == 0
}

/// Snapshot `i` follows snapshot `i - 1`: taking a node out counts one more; the edges
/// out of a node come in edge-list order; a queueing follows exactly a decrement to 0,
/// for the same edge; and the outcome comes last.
pub open spec fn kahn_follows(snaps: Seq<StateSnapshot>, tdes: Seq<(int, int, int)>, i: int) -> bool {
    let s = snaps[i];
    let p = snaps[i - 1];
    &&& !(s.message is KahnInit)
    &&& s.message is KahnAppend ==> tdes[i].0 == tdes[i - 1].0 + 1 && tdes[i].1 == tdes[i - 1].1
    &&& s.message is KahnDecrement ==> tdes[i].0 == tdes[i - 1].0 && tdes[i].1 == tdes[i - 1].1 && ((
    p.message is KahnDecrement || p.message is KahnEnqueue) ==> tdes[i].2 > tdes[i - 1].2)
    &&& s.message is KahnEnqueue ==> tdes[i].0 == tdes[i - 1].0 && tdes[i].1 == tdes[i - 1].1 + 1
        && tdes[i].2 == tdes[i - 1].2
    &&& kahn_releases(p) <==> s.message is KahnEnqueue
    &&& (s.message is KahnCycle || s.message is KahnDone) ==> tdes[i].0 == tdes[i - 1].0 && tdes[i].1
        == tdes[i - 1].1 && i == snaps.len() - 1
}

/// Some snapshot records taking edge `e` out of node `t`.
pub open spec fn kahn_decremented(snaps: Seq<StateSnapshot>, tdes: Seq<(int, int, int)>, t: int, e: int) -> bool {
    exists|i: int|
        0 <= i < snaps.len() && snaps[i].message is KahnDecrement && (#[trigger] tdes[i]).0 == t && tdes[i].2 == e
}

/// Edge `e` leaves node `t` of `order` for a node of the graph.
pub open spec fn kahn_edge_of(g: GraphView, order: Seq<usize>, n: int, t: int, e: int) -> bool {
    0 <= e < g.edges.len() && g.edges[e].from == order[t - 1] && g.edges[e].to < n
}

/// The snapshots of Kahn's algorithm listing the nodes in the order `order`, the first
/// `ns` of them queued at the start and `keys` naming the edge that releases each later
/// one: one per step in the order of the steps, every edge out of a listed node to a node
/// of the graph taken away once, and the outcome last.
pub open spec fn kahn_trace(
    g: GraphView,
    snaps: Seq<StateSnapshot>,
    order: Seq<usize>,
    keys: Seq<(int, int)>,
    ns: int,
    n: int,
    tdes: Seq<(int, int, int)>,
) -> bool {
    &&& tdes.len() == snaps.len()
    &&& snaps.len() >= 2
    &&& forall|i: int| 0 <= i < snaps.len() ==> #[trigger] kahn_step_at(g, snaps[i], order, keys, ns, n, tdes[i])
    &&& forall|i: int| 1 <= i < snaps.len() ==> #[trigger] kahn_follows(snaps, tdes, i)
    &&& snaps.last().message is KahnCycle || snaps.last().message is KahnDone
    &&& forall|t: int, e: int|
        1 <= t <= order.len() && #[trigger] kahn_edge_of(g, order, n, t, e) ==> kahn_decremented(snaps, tdes, t, e)
}

proof fn lemma_kahn_step_push(
    g: GraphView,
    s: StateSnapshot,
    q: Seq<usize>,
    keys: Seq<(int, int)>,
    ns: int,
    n: int,
    tde: (int, int, int),
    x: usize,
    key: (int, int),
)
    requires
        kahn_step_at(g, s, q, keys, ns, n, tde),
        keys.len() == q.len(),
        0 <= ns <= q.len(),
        !(s.message is KahnCycle || s.message is KahnDone),
    ensures
        kahn_step_at(g, s, q.push(x), keys.push(key), ns, n, tde),
{
    let q2 = q.push(x);
    let k2 = keys.push(key);
    let (t, d, e) = tde;
    assert(q2.take(t) =~= q.take(t));
    assert(q2.take(d) =~= q.take(d));
    assert(q2.subrange(t, d) =~= q.subrange(t, d));
    assert(q2.take(ns) =~= q.take(ns));
    if t >= 1 {
        assert(q2[t - 1] == q[t - 1]);
        assert(q2.take(t - 1) =~= q.take(t - 1));
    }
    if d >= 1 {
        assert(q2[d - 1] == q[d - 1]);
        assert(k2[d - 1] == keys[d - 1]);
    }
    if ns > 0 {
        assert(q2[0] == q[0]);
    }
}

proof fn lemma_kahn_edge_of_push(g: GraphView, q: Seq<usize>, x: usize, n: int, t: int, e: int)
    requires
        1 <= t <= q.len(),
    ensures
        kahn_edge_of(g, q.push(x), n, t, e) == kahn_edge_of(g, q, n, t, e),
{
    assert(q.push(x)[t - 1] == q[t - 1]);
}

proof fn lemma_decremented_push(
    snaps: Seq<StateSnapshot>,
    tdes: Seq<(int, int, int)>,
    s: StateSnapshot,
    tde: (int, int, int),
    t: int,
    e: int,
)
    requires
        kahn_decremented(snaps, tdes, t, e),
        snaps.len() == tdes.len(),
    ensures
        kahn_decremented(snaps.push(s), tdes.push(tde), t, e),
{
    let x = choose|x: int|
        0 <= x < snaps.len() && snaps[x].message is KahnDecrement && (#[trigger] tdes[x]).0 == t && tdes[x].2 == e;
    assert(snaps.push(s)[x] == snaps[x]);
    assert(tdes.push(tde)[x] == tdes[x]);
}

proof fn lemma_kahn_follows_push(
    snaps: Seq<StateSnapshot>,
    tdes: Seq<(int, int, int)>,
    s: StateSnapshot,
    tde: (int, int, int),
    i: int,
)
    requires
        1 <= i < snaps.len(),
        snaps.len() == tdes.len(),
        kahn_follows(snaps, tdes, i),
        !(snaps[i].message is KahnCycle || snaps[i].message is KahnDone),
    ensures
        kahn_follows(snaps.push(s), tdes.push(tde), i),
{
    let s2 = snaps.push(s);
    let t2 = tdes.push(tde);
    assert(s2[i] == snaps[i] && s2[i - 1] == snaps[i - 1]);
    assert(t2[i] == tdes[i] && t2[i - 1] == tdes[i - 1]);
}

/// Kahn's algorithm has taken `head` nodes out of the queue `q` and examined the first `i`
/// edges of the last one: the snapshots so far are its steps, the last one has `head`
/// nodes taken and `q.len()` queued, and every examined edge to a node of the graph was
/// taken away.
#[verifier::opaque]
pub open spec fn kahn_progress(
    g: GraphView,
    snaps: Seq<StateSnapshot>,
    tdes: Seq<(int, int, int)>,
    q: Seq<usize>,
    keys: Seq<(int, int)>,
    ns: int,
    n: int,
    head: int,
    i: int,
) -> bool {
    let last = snaps.len() - 1;
    &&& tdes.len() == snaps.len()
    &&& snaps.len() >= 1
    &&& keys.len() == q.len()
    &&& 0 <= ns <= q.len()
    &&& forall|x: int| 0 <= x < snaps.len() ==> #[trigger] kahn_step_at(g, snaps[x], q, keys, ns, n, tdes[x]) && tdes[x].0 <= head
    &&& forall|x: int| 0 <= x < snaps.len() ==> !((#[trigger] snaps[x]).message is KahnCycle || snaps[x].message is KahnDone)
    &&& forall|x: int| 1 <= x < snaps.len() ==> #[trigger] kahn_follows(snaps, tdes, x)
    &&& tdes[last].0 == head
    &&& tdes[last].1 == q.len()
    &&& (snaps[last].message is KahnDecrement || snaps[last].message is KahnEnqueue) ==> tdes[last].2 < i
    &&& forall|t: int, e: int| 1 <= t < head && #[trigger] kahn_edge_of(g, q, n, t, e) ==> kahn_decremented(snaps, tdes, t, e)
    &&& forall|e: int| 1 <= head && e < i && #[trigger] kahn_edge_of(g, q, n, head, e) ==> kahn_decremented(snaps, tdes, head, e)
}

proof fn lemma_kahn_progress_start(
    g: GraphView,
    s: StateSnapshot,
    q: Seq<usize>,
    keys: Seq<(int, int)>,
    ns: int,
    n: int,
)
    requires
        kahn_step_at(g, s, q, keys, ns, n, (0, q.len() as int, 0)),
        s.message is KahnInit,
        keys.len() == q.len(),
        0 <= ns <= q.len(),
    ensures
        kahn_progress(g, seq![s], seq![(0int, q.len() as int, 0int)], q, keys, ns, n, 0, g.edges.len() as int),
{
    reveal(kahn_progress);
    let snaps = seq![s];
    let tdes = seq![(0int, q.len() as int, 0int)];
    assert(snaps[0] == s && tdes[0] == (0int, q.len() as int, 0int));
}

proof fn lemma_kahn_progress_append(
    g: GraphView,
    snaps: Seq<StateSnapshot>,
    tdes: Seq<(int, int, int)>,
    q: Seq<usize>,
    keys: Seq<(int, int)>,
    ns: int,
    n: int,
    head: int,
    s: StateSnapshot,
)
    requires
        kahn_progress(g, snaps, tdes, q, keys, ns, n, head, g.edges.len() as int),
        !kahn_releases(snaps.last()),
        kahn_step_at(g, s, q, keys, ns, n, (head + 1, q.len() as int, 0)),
        s.message is KahnAppend,
    ensures
        kahn_progress(g, snaps.push(s), tdes.push((head + 1, q.len() as int, 0)), q, keys, ns, n, head + 1, 0),
{
    reveal(kahn_progress);
    let nt = (head + 1, q.len() as int, 0int);
    let s2 = snaps.push(s);
    let t2 = tdes.push(nt);
    let i0 = snaps.len() as int;
    assert(s2[i0] == s && t2[i0] == nt);
    assert(s2[i0 - 1] == snaps[i0 - 1] && t2[i0 - 1] == tdes[i0 - 1]);
    assert(kahn_follows(s2, t2, i0));
    assert forall|x: int| 0 <= x < s2.len() implies #[trigger] kahn_step_at(g, s2[x], q, keys, ns, n, t2[x]) && t2[x].0 <= head + 1 by {
        if x < i0 {
            assert(s2[x] == snaps[x] && t2[x] == tdes[x]);
            assert(kahn_step_at(g, snaps[x], q, keys, ns, n, tdes[x]));
        }
    }
    assert forall|x: int| 0 <= x < s2.len() implies !((#[trigger] s2[x]).message is KahnCycle || s2[x].message is KahnDone) by {
        if x < i0 {
            assert(s2[x] == snaps[x]);
        }
    }
    assert forall|x: int| 1 <= x < s2.len() implies #[trigger] kahn_follows(s2, t2, x) by {
        if x < i0 {
            lemma_kahn_follows_push(snaps, tdes, s, nt, x);
        }
    }
    assert forall|t: int, e: int| 1 <= t < head + 1 && #[trigger] kahn_edge_of(g, q, n, t, e) implies kahn_decremented(s2, t2, t, e) by {
        if t == head {
            assert(kahn_edge_of(g, q, n, head, e));
        }
        lemma_decremented_push(snaps, tdes, s, nt, t, e);
    }
}

proof fn lemma_kahn_progress_skip(
    g: GraphView,
    snaps: Seq<StateSnapshot>,
    tdes: Seq<(int, int, int)>,
    q: Seq<usize>,
    keys: Seq<(int, int)>,
    ns: int,
    n: int,
    head: int,
    i: int,
)
    requires
        kahn_progress(g, snaps, tdes, q, keys, ns, n, head, i),
        !kahn_edge_of(g, q, n, head, i),
    ensures
        kahn_progress(g, snaps, tdes, q, keys, ns, n, head, i + 1),
{
    reveal(kahn_progress);
    assert forall|e: int| 1 <= head && e < i + 1 && #[trigger] kahn_edge_of(g, q, n, head, e) implies kahn_decremented(
        snaps,
        tdes,
        head,
        e,
    ) by {}
}

proof fn lemma_kahn_progress_decrement(
    g: GraphView,
    snaps: Seq<StateSnapshot>,
    tdes: Seq<(int, int, int)>,
    q: Seq<usize>,
    keys: Seq<(int, int)>,
    ns: int,
    n: int,
    head: int,
    i: int,
    s: StateSnapshot,
)
    requires
        kahn_progress(g, snaps, tdes, q, keys, ns, n, head, i),
        !kahn_releases(snaps.last()),
        kahn_step_at(g, s, q, keys, ns, n, (head, q.len() as int, i)),
        s.message is KahnDecrement,
    ensures
        kahn_progress(g, snaps.push(s), tdes.push((head, q.len() as int, i)), q, keys, ns, n, head, i + 1),
{
    reveal(kahn_progress);
    let nt = (head, q.len() as int, i);
    let s2 = snaps.push(s);
    let t2 = tdes.push(nt);
    let i0 = snaps.len() as int;
    assert(s2[i0] == s && t2[i0] == nt);
    assert(s2[i0 - 1] == snaps[i0 - 1] && t2[i0 - 1] == tdes[i0 - 1]);
    assert(kahn_follows(s2, t2, i0));
    assert forall|x: int| 0 <= x < s2.len() implies #[trigger] kahn_step_at(g, s2[x], q, keys, ns, n, t2[x]) && t2[x].0 <= head by {
        if x < i0 {
            assert(s2[x] == snaps[x] && t2[x] == tdes[x]);
            assert(kahn_step_at(g, snaps[x], q, keys, ns, n, tdes[x]));
        }
    }
    assert forall|x: int| 0 <= x < s2.len() implies !((#[trigger] s2[x]).message is KahnCycle || s2[x].message is KahnDone) by {
        if x < i0 {
            assert(s2[x] == snaps[x]);
        }
    }
    assert forall|x: int| 1 <= x < s2.len() implies #[trigger] kahn_follows(s2, t2, x) by {
        if x < i0 {
            lemma_kahn_follows_push(snaps, tdes, s, nt, x);
        }
    }
    assert forall|t: int, e: int| 1 <= t < head && #[trigger] kahn_edge_of(g, q, n, t, e) implies kahn_decremented(s2, t2, t, e) by {
        lemma_decremented_push(snaps, tdes, s, nt, t, e);
    }
    assert forall|e: int| e < i + 1 && #[trigger] kahn_edge_of(g, q, n, head, e) implies kahn_decremented(s2, t2, head, e) by {
        if e < i {
            lemma_decremented_push(snaps, tdes, s, nt, head, e);
        } else {
            assert(t2[i0] == nt);
        }
    }
}

proof fn lemma_kahn_progress_enqueue(
    g: GraphView,
    snaps: Seq<StateSnapshot>,
    tdes: Seq<(int, int, int)>,
    q: Seq<usize>,
    keys: Seq<(int, int)>,
    ns: int,
    n: int,
    head: int,
    i: int,
    x: usize,
    s: StateSnapshot,
)
    requires
        kahn_progress(g, snaps, tdes, q, keys, ns, n, head, i + 1),
        kahn_releases(snaps.last()),
        tdes.last().2 == i,
        1 <= head <= q.len(),
        kahn_step_at(g, s, q.push(x), keys.push((head - 1, i)), ns, n, (head, (q.len() + 1) as int, i)),
        s.message is KahnEnqueue,
    ensures
        kahn_progress(
            g,
            snaps.push(s),
            tdes.push((head, (q.len() + 1) as int, i)),
            q.push(x),
            keys.push((head - 1, i)),
            ns,
            n,
            head,
            i + 1,
        ),
{
    reveal(kahn_progress);
    let q2 = q.push(x);
    let k2 = keys.push((head - 1, i));
    let nt = (head, (q.len() + 1) as int, i);
    let s2 = snaps.push(s);
    let t2 = tdes.push(nt);
    let i0 = snaps.len() as int;
    assert(s2[i0] == s && t2[i0] == nt);
    assert(s2[i0 - 1] == snaps[i0 - 1] && t2[i0 - 1] == tdes[i0 - 1]);
    assert(kahn_follows(s2, t2, i0));
    assert forall|y: int| 0 <= y < s2.len() implies #[trigger] kahn_step_at(g, s2[y], q2, k2, ns, n, t2[y]) && t2[y].0 <= head by {
        if y < i0 {
            assert(s2[y] == snaps[y] && t2[y] == tdes[y]);
            assert(kahn_step_at(g, snaps[y], q, keys, ns, n, tdes[y]));
            lemma_kahn_step_push(g, snaps[y], q, keys, ns, n, tdes[y], x, (head - 1, i));
        }
    }
    assert forall|y: int| 0 <= y < s2.len() implies !((#[trigger] s2[y]).message is KahnCycle || s2[y].message is KahnDone) by {
        if y < i0 {
            assert(s2[y] == snaps[y]);
        }
    }
    assert forall|y: int| 1 <= y < s2.len() implies #[trigger] kahn_follows(s2, t2, y) by {
        if y < i0 {
            lemma_kahn_follows_push(snaps, tdes, s, nt, y);
        }
    }
    assert forall|t: int, e: int| 1 <= t < head && #[trigger] kahn_edge_of(g, q2, n, t, e) implies kahn_decremented(s2, t2, t, e) by {
        lemma_kahn_edge_of_push(g, q, x, n, t, e);
        assert(kahn_edge_of(g, q, n, t, e));
        lemma_decremented_push(snaps, tdes, s, nt, t, e);
    }
    assert forall|e: int| e < i + 1 && #[trigger] kahn_edge_of(g, q2, n, head, e) implies kahn_decremented(s2, t2, head, e) by {
        lemma_kahn_edge_of_push(g, q, x, n, head, e);
        assert(kahn_edge_of(g, q, n, head, e));
        lemma_decremented_push(snaps, tdes, s, nt, head, e);
    }
}

proof fn lemma_kahn_progress_finish(
    g: GraphView,
    snaps: Seq<StateSnapshot>,
    tdes: Seq<(int, int, int)>,
    q: Seq<usize>,
    keys: Seq<(int, int)>,
    ns: int,
    n: int,
    s: StateSnapshot,
)
    requires
        kahn_progress(g, snaps, tdes, q, keys, ns, n, q.len() as int, g.edges.len() as int),
        !kahn_releases(snaps.last()),
        kahn_step_at(g, s, q, keys, ns, n, (q.len() as int, q.len() as int, 0)),
        s.message is KahnCycle || s.message is KahnDone,
    ensures
        kahn_trace(g, snaps.push(s), q, keys, ns, n, tdes.push((q.len() as int, q.len() as int, 0))),
{
    reveal(kahn_progress);
    let nt = (q.len() as int, q.len() as int, 0int);
    let s2 = snaps.push(s);
    let t2 = tdes.push(nt);
    let i0 = snaps.len() as int;
    let head = q.len() as int;
    assert(s2[i0] == s && t2[i0] == nt);
    assert(s2[i0 - 1] == snaps[i0 - 1] && t2[i0 - 1] == tdes[i0 - 1]);
    assert(kahn_follows(s2, t2, i0));
    assert forall|x: int| 0 <= x < s2.len() implies #[trigger] kahn_step_at(g, s2[x], q, keys, ns, n, t2[x]) by {
        if x < i0 {
            assert(s2[x] == snaps[x] && t2[x] == tdes[x]);
            assert(kahn_step_at(g, snaps[x], q, keys, ns, n, tdes[x]));
        }
    }
    assert forall|x: int| 1 <= x < s2.len() implies #[trigger] kahn_follows(s2, t2, x) by {
        if x < i0 {
            lemma_kahn_follows_push(snaps, tdes, s, nt, x);
        }
    }
    assert forall|t: int, e: int| 1 <= t <= q.len() && #[trigger] kahn_edge_of(g, q, n, t, e) implies kahn_decremented(s2, t2, t, e) by {
        if t == head {
            assert(kahn_edge_of(g, q, n, head, e));
        }
        lemma_decremented_push(snaps, tdes, s, nt, t, e);
    }
}

proof fn lemma_released_push(es: Seq<Edge>, q: Seq<usize>, x: usize, j: int, i: int, t: int)
    requires
        j < q.len(),
        released_at(es, q, j, i, t),
    ensures
        released_at(es, q.push(x), j, i, t),
{
    let q2 = q.push(x);
    assert(q2.take(i + 1) =~= q.take(i + 1));
    assert(q2.take(i) =~= q.take(i));
    assert(q2[i] == q[i]);
    assert(q2[j] == q[j]);
}

/// When a prefix of the edges already holds every edge from `u` to `v`, no later edge does.
proof fn lemma_hits_done(es: Seq<Edge>, m: int, u: usize, v: usize)
    requires
        0 <= m <= es.len(),
        hits(es.take(m), u, v) == hits(es, u, v),
    ensures
        forall|t: int| m <= t < es.len() ==> !((#[trigger] es[t]).from == u && es[t].to == v),
    decreases es.len() - m,
{
    if m < es.len() {
        assert(es.take(m + 1).drop_last() =~= es.take(m));
        lemma_hits_prefix(es, m + 1, u, v);
        assert(!(es[m].from == u && es[m].to == v));
        lemma_hits_done(es, m + 1, u, v);
    }
}

// ───────────────────────────── lemmas on the counts ─────────────────────────

proof fn lemma_pending_push(es: Seq<Edge>, v: usize, done: Seq<usize>, x: usize)
    requires
        !done.contains(x),
    ensures
        pending_in(es, v, done.push(x)) + hits(es, x, v) == pending_in(es, v, done),
    decreases es.len(),
{
    if es.len() > 0 {
        lemma_pending_push(es.drop_last(), v, done, x);
        let f = es.last().from;
        if f == x {
            assert(done.push(x).contains(x)) by {
                assert(done.push(x)[done.len() as int] == x);
            }
        } else {
            if done.push(x).contains(f) {
                let i = choose|i: int| 0 <= i < done.push(x).len() && done.push(x)[i] == f;
                assert(done[i] == f);
            }
            if done.contains(f) {
                let i = choose|i: int| 0 <= i < done.len() && done[i] == f;
                assert(done.push(x)[i] == f);
            }
        }
    }
}

proof fn lemma_hits_le_pending(es: Seq<Edge>, v: usize, done: Seq<usize>, x: usize)
    requires
        !done.contains(x),
    ensures
        hits(es, x, v) <= pending_in(es, v, done),
    decreases es.len(),
{
    if es.len() > 0 {
        lemma_hits_le_pending(es.drop_last(), v, done, x);
    }
}

proof fn lemma_hits_prefix(es: Seq<Edge>, m: int, u: usize, v: usize)
    requires
        0 <= m <= es.len(),
    ensures
        hits(es.take(m), u, v) <= hits(es, u, v),
    decreases es.len() - m,
{
    if m < es.len() {
        lemma_hits_prefix(es, m + 1, u, v);
        assert(es.take(m + 1).drop_last() =~= es.take(m));
    } else {
        assert(es.take(m) =~= es);
    }
}

proof fn lemma_pending_zero(es: Seq<Edge>, v: usize, done: Seq<usize>, t: int)
    requires
        pending_in(es, v, done) == 0,
        0 <= t < es.len(),
        es[t].to == v,
    ensures
        done.contains(es[t].from),
    decreases es.len(),
{
    if t < es.len() - 1 {
        assert(es.drop_last()[t] == es[t]);
        lemma_pending_zero(es.drop_last(), v, done, t);
    }
}

proof fn lemma_pending_positive(es: Seq<Edge>, v: usize, done: Seq<usize>)
    requires
        pending_in(es, v, done) > 0,
    ensures
        exists|t: int| 0 <= t < es.len() && (#[trigger] es[t]).to == v && !done.contains(es[t].from),
    decreases es.len(),
{
    let d = es.drop_last();
    if pending_in(d, v, done) > 0 {
        lemma_pending_positive(d, v, done);
        let t = choose|t: int| 0 <= t < d.len() && (#[trigger] d[t]).to == v && !done.contains(d[t].from);
        assert(es[t] == d[t]);
    } else {
        assert(es[es.len() - 1] == es.last());
    }
}

proof fn lemma_from_listed_push(es: Seq<Edge>, done: Seq<usize>, x: usize)
    requires
        !done.contains(x),
    ensures
        from_listed(es, done.push(x)) == from_listed(es, done) + out_count(es, x),
    decreases es.len(),
{
    if es.len() > 0 {
        lemma_from_listed_push(es.drop_last(), done, x);
        let f = es.last().from;
        if f == x {
            assert(done.push(x)[done.len() as int] == x);
        } else {
            if done.push(x).contains(f) {
                let i = choose|i: int| 0 <= i < done.push(x).len() && done.push(x)[i] == f;
                assert(done[i] == f);
            }
            if done.contains(f) {
                let i = choose|i: int| 0 <= i < done.len() && done[i] == f;
                assert(done.push(x)[i] == f);
            }
        }
    }
}

proof fn lemma_from_listed_le(es: Seq<Edge>, done: Seq<usize>)
    ensures
        from_listed(es, done) <= es.len(),
    decreases es.len(),
{
    if es.len() > 0 {
        lemma_from_listed_le(es.drop_last(), done);
    }
}

proof fn lemma_from_listed_empty(es: Seq<Edge>)
    ensures
        from_listed(es, seq![]) == 0,
    decreases es.len(),
{
    if es.len() > 0 {
        lemma_from_listed_empty(es.drop_last());
    }
}

proof fn lemma_pending_empty(es: Seq<Edge>, v: usize)
    ensures
        pending_in(es, v, seq![]) == in_count(es, v),
    decreases es.len(),
{
    if es.len() > 0 {
        lemma_pending_empty(es.drop_last(), v);
    }
}

/// Number of edges into `v`.
pub open spec fn in_count(es: Seq<Edge>, v: usize) -> nat
    decreases es.len(),
{
    if es.len() == 0 {
        0
    } else {
        in_count(es.drop_last(), v) + if es.last().to == v {
            1nat
        } else {
            0nat
        }
    }
}

/// A list that holds every number below `n` has at least `n` entries.
proof fn lemma_covering_len(s: Seq<usize>, n: usize)
    requires
        forall|v: usize| v < n ==> #[trigger] s.contains(v),
    ensures
        s.len() >= n,
{
    let t = s.map_values(|x: usize| x as int);
    t.lemma_cardinality_of_set();
    vstd::set_lib::lemma_int_range(0, n as int);
    assert(vstd::set_lib::set_int_range(0, n as int).subset_of(t.to_set())) by {
        assert forall|x: int| vstd::set_lib::set_int_range(0, n as int).contains(x) implies t.to_set().contains(x) by {
            let v = x as usize;
            assert(s.contains(v));
            let i = choose|i: int| 0 <= i < s.len() && s[i] == v;
            assert(t[i] == x);
        }
    }
    vstd::set_lib::lemma_len_subset(vstd::set_lib::set_int_range(0, n as int), t.to_set());
}

/// A list of `n` distinct numbers below `n` holds every one of them.
proof fn lemma_distinct_full(s: Seq<usize>, n: usize, v: usize)
    requires
        s.no_duplicates(),
        s.len() == n,
        forall|i: int| 0 <= i < s.len() ==> #[trigger] s[i] < n,
        v < n,
    ensures
        s.contains(v),
{
    if !s.contains(v) {
        let t = s.map_values(|x: usize| x as int);
        assert(t.no_duplicates()) by {
            assert forall|i: int, j: int| 0 <= i < t.len() && 0 <= j < t.len() && i != j implies t[i] != t[j] by {
                assert(s[i] != s[j]);
            }
        }
        t.unique_seq_to_set();
        vstd::set_lib::lemma_int_range(0, n as int);
        let r = vstd::set_lib::set_int_range(0, n as int).remove(v as int);
        assert(t.to_set().subset_of(r)) by {
            assert forall|x: int| t.to_set().contains(x) implies r.contains(x) by {
                let i = choose|i: int| 0 <= i < t.len() && t[i] == x;
                assert(s[i] < n);
                assert(s[i] != v);
            }
        }
        vstd::set_lib::lemma_len_subset(t.to_set(), r);
    }
}


proof fn lemma_in_count_le(es: Seq<Edge>, v: usize)
    ensures
        in_count(es, v) <= es.len(),
    decreases es.len(),
{
    if es.len() > 0 {
        lemma_in_count_le(es.drop_last(), v);
    }
}

/// What Kahn's algorithm knows when its queue runs dry: the order lists distinct nodes,
/// sources first, and every node left out still has an edge from a node left out.
/// The order then lists every node exactly when the graph is a DAG, and is then a
/// topological order.
proof fn lemma_kahn_outcome(g: GraphView, order: Seq<usize>)
    requires
        g.nodes.len() <= usize::MAX,
        order.no_duplicates(),
        forall|i: int| 0 <= i < order.len() ==> #[trigger] order[i] < g.nodes.len(),
        sources_first(g, order),
        forall|v: usize| v < g.nodes.len() && !order.contains(v) ==> #[trigger] pending_in(g.edges, v, order) > 0,
    ensures
        (order.len() == g.nodes.len()) == is_dag_spec(g),
        order.len() == g.nodes.len() ==> is_topological_order(g, order),
{
    let n = g.nodes.len() as usize;
    lemma_distinct_below(order, n);
    if order.len() == n {
        assert forall|v: usize| v < n implies #[trigger] order.contains(v) by {
            lemma_distinct_full(order, n, v);
        }
        assert(is_topological_order(g, order));
    } else {
        if is_dag_spec(g) {
            let t = choose|t: Seq<usize>| #[trigger] is_topological_order(g, t);
            if forall|v: usize| v < n ==> #[trigger] order.contains(v) {
                lemma_covering_len(order, n);
            }
            let v = choose|v: usize| v < n && !#[trigger] order.contains(v);
            let out = |x: usize| !order.contains(x);
            lemma_first_match(t, out);
            let m = first_match(t, out);
            assert(t.contains(v));
            let iv = choose|i: int| 0 <= i < t.len() && t[i] == v;
            assert(out(t[iv]));
            assert(m < t.len());
            let u = t[m];
            assert(u < n);
            assert(!order.contains(u));
            lemma_pending_positive(g.edges, u, order);
            let e = choose|e: int|
                0 <= e < g.edges.len() && (#[trigger] g.edges[e]).to == u && !order.contains(
                    g.edges[e].from,
                );
            assert(g.edges[e].to == t[m]);
            let i = choose|i: int| 0 <= i < m && #[trigger] t[i] == g.edges[e].from;
            assert(out(t[i]));
        }
    }
}

// ───────────────────────────── Kahn's algorithm ─────────────────────────────

/// `idx` lists, in increasing order, the positions below `m` of the edges leaving `u`.
pub open spec fn lists_out_edges_below(es: Seq<Edge>, u: usize, idx: Seq<usize>, m: int) -> bool {
    &&& forall|a: int, b: int| 0 <= a < b < idx.len() ==> idx[a] < idx[b]
    &&& forall|a: int| 0 <= a < idx.len() ==> (#[trigger] idx[a]) < m && m <= es.len() && es[idx[a] as int].from == u
    &&& forall|j: int| 0 <= j < m && (#[trigger] es[j]).from == u ==> exists|a: int| 0 <= a < idx.len() && idx[a] == j
}

/// `idx` lists, in increasing order, the positions of all the edges leaving `u`.
pub open spec fn lists_out_edges(es: Seq<Edge>, u: usize, idx: Seq<usize>) -> bool {
    lists_out_edges_below(es, u, idx, es.len() as int)
}

/// For each node, the positions of the edges leaving it, in edge-list order.
fn out_edge_lists(graph: &Graph) -> (adj: Vec<Vec<usize>>)
    ensures
        adj.len() == graph.nodes.len(),
        forall|u: int| 0 <= u < graph.nodes.len() ==> lists_out_edges(graph@.edges, u as usize, #[trigger] adj@[u]@),
{
    let n = graph.nodes.len();
    let ghost es = graph@.edges;
    let mut adj: Vec<Vec<usize>> = Vec::new();
    let mut k: usize = 0;
    while k < n
        invariant
            k <= n,
            adj.len() == k,
            forall|u: int| 0 <= u < k ==> (#[trigger] adj@[u])@.len() == 0,
        decreases n - k,
    {
        adj.push(Vec::new());
        k = k + 1;
    }
    let mut j: usize = 0;
    while j < graph.edges.len()
        invariant
            n == graph.nodes.len(),
            es == graph@.edges,
            j <= graph.edges.len(),
            adj.len() == n,
            forall|u: int| 0 <= u < n ==> lists_out_edges_below(es, u as usize, #[trigger] adj@[u]@, j as int),
        decreases graph.edges.len() - j,
    {
        let from = graph.edges[j].from;
        let ghost a0 = adj@;
        if from < n {
            adj[from].push(j);
        }
        proof {
            assert forall|u: int| 0 <= u < n implies lists_out_edges_below(es, u as usize, #[trigger] adj@[u]@, j + 1) by {
                let idx = adj@[u]@;
                let old_idx = a0[u]@;
                assert(lists_out_edges_below(es, u as usize, old_idx, j as int));
                if u == from as int {
                    assert(idx =~= old_idx.push(j));
                    assert forall|jj: int| 0 <= jj < j + 1 && (#[trigger] es[jj]).from == u as usize implies exists|a: int|
                        0 <= a < idx.len() && idx[a] == jj by {
                        if jj < j {
                            let a = choose|a: int| 0 <= a < old_idx.len() && old_idx[a] == jj;
                            assert(idx[a] == jj);
                        } else {
                            assert(idx[old_idx.len() as int] == jj);
                        }
                    }
                } else {
                    assert(idx == old_idx);
                    assert forall|jj: int| 0 <= jj < j + 1 && (#[trigger] es[jj]).from == u as usize implies exists|a: int|
                        0 <= a < idx.len() && idx[a] == jj by {
                        if jj < j {
                        } else {
                            assert(es[jj].from == from);
                        }
                    }
                }
            }
        }
        j = j + 1;
    }
    adj
}

/// Passing over edges that do not leave `node` changes neither Kahn's progress nor the
/// counts of edges out of `node` seen so far.
proof fn lemma_kahn_skip_range(
    g: GraphView,
    snaps: Seq<StateSnapshot>,
    tdes: Seq<(int, int, int)>,
    q: Seq<usize>,
    keys: Seq<(int, int)>,
    ns: int,
    n: int,
    head: int,
    node: usize,
    i: int,
    i2: int,
)
    requires
        kahn_progress(g, snaps, tdes, q, keys, ns, n, head, i),
        1 <= head <= q.len(),
        q[head - 1] == node,
        0 <= i <= i2 <= g.edges.len(),
        forall|j: int| i <= j < i2 ==> (#[trigger] g.edges[j]).from != node,
    ensures
        kahn_progress(g, snaps, tdes, q, keys, ns, n, head, i2),
        forall|v: usize| #[trigger] hits(g.edges.take(i2), node, v) == hits(g.edges.take(i), node, v),
        out_count(g.edges.take(i2), node) == out_count(g.edges.take(i), node),
    decreases i2 - i,
{
    if i < i2 {
        let es = g.edges;
        assert(!kahn_edge_of(g, q, n, head, i));
        lemma_kahn_progress_skip(g, snaps, tdes, q, keys, ns, n, head, i);
        lemma_kahn_skip_range(g, snaps, tdes, q, keys, ns, n, head, node, i + 1, i2);
    }
    lemma_counts_skip_range(g.edges, node, i, i2);
}

/// Edges that do not leave `node` add nothing to the counts of edges out of it.
proof fn lemma_counts_skip_range(es: Seq<Edge>, node: usize, i: int, i2: int)
    requires
        0 <= i <= i2 <= es.len(),
        forall|j: int| i <= j < i2 ==> (#[trigger] es[j]).from != node,
    ensures
        forall|v: usize| #[trigger] hits(es.take(i2), node, v) == hits(es.take(i), node, v),
        out_count(es.take(i2), node) == out_count(es.take(i), node),
    decreases i2 - i,
{
    if i < i2 {
        lemma_counts_skip_range(es, node, i + 1, i2);
        assert(es.take(i + 1).drop_last() =~= es.take(i));
        assert(es.take(i + 1).last() == es[i]);
        assert forall|v: usize| #[trigger] hits(es.take(i + 1), node, v) == hits(es.take(i), node, v) by {}
    }
}

fn in_degrees(graph: &Graph) -> (r: Vec<usize>)
    ensures
        r.len() == graph.nodes.len(),
        forall|v: usize| v < graph.nodes.len() ==> #[trigger] r@[v as int] == in_count(graph@.edges, v),
{
    let n = graph.nodes.len();
    let mut in_degree: Vec<usize> = Vec::new();
    let mut k: usize = 0;
    while k < n
        invariant
            k <= n,
            in_degree.len() == k,
            forall|v: int| 0 <= v < k ==> #[trigger] in_degree@[v] == 0,
        decreases n - k,
    {
        in_degree.push(0);
        k = k + 1;
    }
    let mut i: usize = 0;
    while i < graph.edges.len()
        invariant
            n == graph.nodes.len(),
            i <= graph.edges.len(),
            in_degree.len() == n,
            forall|v: usize| v < n ==> #[trigger] in_degree@[v as int] == in_count(graph@.edges.take(i as int), v),
        decreases graph.edges.len() - i,
    {
        let to = graph.edges[i].to;
        proof {
            assert(graph@.edges.take(i + 1).drop_last() =~= graph@.edges.take(i as int));
            lemma_in_count_le(graph@.edges.take(i as int), to);
        }
        if to < n {
            in_degree.set(to, in_degree[to] + 1);
        }
        i = i + 1;
    }
    assert(graph@.edges.take(i as int) =~= graph@.edges);
    in_degree
}

/// Kahn's algorithm: the nodes of in-degree 0 are queued in increasing order; a node
/// taken from the queue joins the order and takes its outgoing edges away from the
/// in-degrees of their targets, queueing those that reach 0. Edges whose target is not
/// a node are ignored. Each node's outgoing edges are listed once beforehand, so every
/// node and every edge is handled once: O(V + E).
///
/// The order is Kahn's order (`kahn_ordered`) and stops only when every node left has an
/// edge from an unlisted node. It lists distinct nodes, each after the sources of its
/// incoming edges; it lists every node exactly when the graph is a DAG, and is then a
/// topological order. The last snapshot flags a cycle exactly when the graph is not a
/// DAG. The count of examined edges is the number of edges leaving ordered nodes. Each
/// step (the initial queue, taking a node out, taking an edge away, queueing a node, the
/// outcome) leaves one snapshot, in order (`kahn_trace`).
pub fn run_kahn(graph: &Graph, _start: usize) -> (r: AlgorithmResult)
    ensures
        r.kind == AlgorithmKind::TopologicalSort,
        graph.nodes.len() == 0 ==> r.visit_order.len() == 0 && r.snapshots.len() == 0,
        r.visit_order@.no_duplicates(),
        forall|i: int| 0 <= i < r.visit_order.len() ==> #[trigger] r.visit_order@[i] < graph.nodes.len(),
        sources_first(graph@, r.visit_order@),
        graph.nodes.len() > 0 ==> (r.visit_order.len() == graph.nodes.len()) == is_dag_spec(graph@),
        r.visit_order.len() == graph.nodes.len() ==> is_topological_order(graph@, r.visit_order@),
        graph.nodes.len() > 0 ==> r.snapshots.len() >= 2 && r.snapshots@.last().negative_cycle
            == !is_dag_spec(graph@),
        r.edge_traversal_count == from_listed(graph@.edges, r.visit_order@),
        exists|ns: int, keys: Seq<(int, int)>| kahn_ordered(graph@, r.visit_order@, ns, keys),
        graph.nodes.len() > 0 ==> exists|ns: int, keys: Seq<(int, int)>, tdes: Seq<(int, int, int)>|
            kahn_ordered(graph@, r.visit_order@, ns, keys) && kahn_trace(
                graph@,
                r.snapshots@,
                r.visit_order@,
                keys,
                ns,
                graph.nodes.len() as int,
                tdes,
            ),
        forall|v: usize|
            v < graph.nodes.len() && pending_in(graph@.edges, v, r.visit_order@) == 0 ==> #[trigger] r.visit_order@.contains(v),
{
    let n = graph.nodes.len();
    if n == 0 {
        let r = AlgorithmResult::empty(AlgorithmKind::TopologicalSort);
        proof {
            lemma_from_listed_empty(graph@.edges);
            assert(r.visit_order@ =~= seq![]);
            assert(kahn_ordered(graph@, r.visit_order@, 0, seq![]));
        }
        return r;
    }
    let ghost g = graph@;
    let ghost es = graph@.edges;
    let mut in_degree = in_degrees(graph);
    let adj = out_edge_lists(graph);
    let mut queue: Vec<usize> = Vec::new();
    let mut head: usize = 0;
    let mut k: usize = 0;
    while k < n
        invariant
            graph@ == g,
            n == graph.nodes.len(),
            k <= n,
            in_degree.len() == n,
            forall|v: usize| v < n ==> #[trigger] in_degree@[v as int] == in_count(es, v),
            forall|i: int| 0 <= i < queue.len() ==> #[trigger] queue@[i] < k,
            forall|a: int, b: int| 0 <= a < b < queue.len() ==> queue@[a] < queue@[b],
            forall|v: usize| v < k ==> (#[trigger] queue@.contains(v) <==> in_degree@[v as int] == 0),
        decreases n - k,
    {
        let ghost q0 = queue@;
        if in_degree[k] == 0 {
            queue.push(k);
        }
        proof {
            assert forall|v: usize| v < k + 1 implies (#[trigger] queue@.contains(v) <==> in_degree@[v as int] == 0) by {
                if queue@.contains(v) {
                    let i = choose|i: int| 0 <= i < queue.len() && queue@[i] == v;
                    if i < q0.len() {
                        assert(q0[i] == v);
                    }
                }
                if v < k && q0.contains(v) {
                    let i = choose|i: int| 0 <= i < q0.len() && q0[i] == v;
                    assert(queue@[i] == v);
                }
                if v == k && in_degree@[v as int] == 0 {
                    assert(queue@[q0.len() as int] == v);
                }
            }
        }
        k = k + 1;
    }
    proof {
        assert(queue@.no_duplicates()) by {
            assert forall|a: int, b: int| 0 <= a < queue.len() && 0 <= b < queue.len() && a != b implies queue@[a] != queue@[b] by {
                if a < b {
                    assert(queue@[a] < queue@[b]);
                } else {
                    assert(queue@[b] < queue@[a]);
                }
            }
        }
        assert forall|v: usize| v < n implies #[trigger] in_degree@[v as int] == pending_in(es, v, seq![]) by {
            lemma_pending_empty(es, v);
        }
        assert(sources_first(g, queue@)) by {
            assert forall|j: int, t: int|
                #![trigger g.edges[t], queue@[j]]
                0 <= j < queue.len() && 0 <= t < g.edges.len() && g.edges[t].to == queue@[j] implies exists|i: int|
                    0 <= i < j && #[trigger] queue@[i] == g.edges[t].from by {
                let v = queue@[j];
                assert(queue@.contains(v));
                lemma_pending_empty(es, v);
                lemma_pending_zero(es, v, seq![], t);
            }
        }
        lemma_from_listed_empty(es);
    }
    let ghost qs = queue@;
    let ghost ns = queue@.len() as int;
    let ghost mut keys: Seq<(int, int)> = Seq::new(queue@.len(), |j: int| (0int, 0int));
    proof {
        assert forall|v: usize| v < n && in_count(es, v) == 0 implies #[trigger] qs.take(ns).contains(v) by {
            assert(qs.take(ns) =~= qs);
            lemma_pending_empty(es, v);
        }
        assert forall|j: int| 0 <= j < ns implies in_count(es, #[trigger] qs[j]) == 0 by {
            assert(qs.contains(qs[j]));
            lemma_pending_empty(es, qs[j]);
        }
        assert forall|a: int, b: int| 0 <= a < b < ns implies #[trigger] qs[a] < #[trigger] qs[b] by {}
    }

    let mut snapshots: Vec<StateSnapshot> = Vec::new();
    let mut visited_order: Vec<usize> = Vec::new();
    let mut visited_flags = all_false(n);
    let mut edge_traversal_count: usize = 0;

    let first = if queue.len() > 0 {
        queue[0]
    } else {
        0
    };
    snapshots.push(
        StateSnapshot {
            current_line: 1,
            current_node: first,
            queue_or_stack: copy_from(&queue, head),
            visited_order: copy_all(&visited_order),
            visited_flags: copy_flags(&visited_flags),
            distances: None,
            message: StepMessage::KahnInit { queue: copy_from(&queue, head) },
            negative_cycle: false,
        },
    );
    assert(visited_order@ =~= queue@.take(0));
    let ghost mut tdes: Seq<(int, int, int)> = seq![(0int, queue.len() as int, 0int)];
    proof {
        assert(queue@.subrange(0, ns) =~= queue@.take(ns));
        assert(kahn_step_at(g, snapshots@[0], queue@, keys, ns, n as int, (0, queue.len() as int, 0)));
        lemma_kahn_progress_start(g, snapshots@[0], queue@, keys, ns, n as int);
        assert(snapshots@ =~= seq![snapshots@[0]]);
    }

    while head < queue.len()
        invariant
            graph@ == g,
            es == g.edges,
            n == graph.nodes.len(),
            n > 0,
            adj.len() == n,
            forall|u: int| 0 <= u < n ==> lists_out_edges(es, u as usize, #[trigger] adj@[u]@),
            in_degree.len() == n,
            visited_flags.len() == n,
            head <= queue.len(),
            queue@.no_duplicates(),
            forall|i: int| 0 <= i < queue.len() ==> #[trigger] queue@[i] < n,
            visited_order@ == queue@.take(head as int),
            forall|v: usize| v < n ==> #[trigger] in_degree@[v as int] == pending_in(es, v, visited_order@),
            forall|v: usize| v < n ==> (#[trigger] queue@.contains(v) <==> in_degree@[v as int] == 0),
            sources_first(g, queue@),
            edge_traversal_count == from_listed(es, visited_order@),
            snapshots.len() >= 1,
            0 <= ns <= queue.len(),
            queue@.take(ns) == qs,
            qs.len() == ns,
            forall|j: int| 0 <= j < ns ==> in_count(es, #[trigger] qs[j]) == 0,
            forall|a: int, b: int| 0 <= a < b < ns ==> #[trigger] qs[a] < #[trigger] qs[b],
            forall|v: usize| v < n && in_count(es, v) == 0 ==> #[trigger] qs.take(ns).contains(v),
            keys.len() == queue.len(),
            forall|j: int| ns <= j < queue.len() ==> released_at(es, queue@, j, (#[trigger] keys[j]).0, keys[j].1)
                && keys[j].0 < head,
            forall|j: int, j2: int| ns <= j < j2 < queue.len() ==> lex_less(#[trigger] keys[j], #[trigger] keys[j2]),
            forall|v: usize| v < n ==> visited_flags@[v as int] == visited_order@.contains(v),
            kahn_progress(g, snapshots@, tdes, queue@, keys, ns, n as int, head as int, es.len() as int),
            !kahn_releases(snapshots@.last()),
        decreases n - head,
    {
        proof {
            lemma_distinct_below(queue@, n);
        }
        let node = queue[head];
        head = head + 1;
        let ghost o0 = visited_order@;
        visited_order.push(node);
        visited_flags.set(node, true);
        proof {
            assert(visited_order@ =~= queue@.take(head as int));
            assert(o0 =~= queue@.take(head - 1));
            assert(!o0.contains(node)) by {
                if o0.contains(node) {
                    let i = choose|i: int| 0 <= i < o0.len() && o0[i] == node;
                    assert(queue@[i] == queue@[head - 1]);
                }
            }
            lemma_from_listed_push(es, o0, node);
            lemma_from_listed_le(es, visited_order@);
            assert forall|v: usize| v < n implies visited_flags@[v as int] == visited_order@.contains(v) by {
                if v == node {
                    assert(visited_order@[o0.len() as int] == v);
                } else {
                    if visited_order@.contains(v) {
                        let x = choose|x: int| 0 <= x < visited_order.len() && visited_order@[x] == v;
                        assert(o0[x] == v);
                    }
                    if o0.contains(v) {
                        let x = choose|x: int| 0 <= x < o0.len() && o0[x] == v;
                        assert(visited_order@[x] == v);
                    }
                }
            }
        }
        let ghost sn0 = snapshots@;
        snapshots.push(
            StateSnapshot {
                current_line: 2,
                current_node: node,
                queue_or_stack: copy_from(&queue, head),
                visited_order: copy_all(&visited_order),
                visited_flags: copy_flags(&visited_flags),
                distances: None,
                message: StepMessage::KahnAppend { node, order: copy_all(&visited_order) },
                negative_cycle: false,
            },
        );
        proof {
            let nt = (head as int, queue.len() as int, 0int);
            assert(kahn_step_at(g, snapshots@.last(), queue@, keys, ns, n as int, nt));
            lemma_kahn_progress_append(g, sn0, tdes, queue@, keys, ns, n as int, head - 1, snapshots@.last());
            assert(snapshots@ =~= sn0.push(snapshots@.last()));
            tdes = tdes.push(nt);
        }
        let out = &adj[node];
        let mut p: usize = 0;
        let mut i: usize = if out.len() > 0 {
            out[0]
        } else {
            graph.edges.len()
        };
        assert(es.len() == graph.edges.len());
        proof {
            assert forall|j: int| 0 <= j < i implies (#[trigger] es[j]).from != node by {
                if es[j].from == node {
                    let a = choose|a: int| 0 <= a < out@.len() && out@[a] == j;
                    assert(out@[a] >= out@[0]);
                }
            }
            assert(es.take(0) =~= Seq::<Edge>::empty());
            lemma_kahn_skip_range(g, snapshots@, tdes, queue@, keys, ns, n as int, head as int, node, 0, i as int);
        }
        while i < graph.edges.len()
            invariant
                graph@ == g,
                es == g.edges,
                n == graph.nodes.len(),
                i <= graph.edges.len(),
                lists_out_edges(es, node, out@),
                p <= out.len(),
                i == (if p < out.len() {
                    out@[p as int] as int
                } else {
                    es.len() as int
                }),
                p > 0 ==> out@[p - 1] < i,
                in_degree.len() == n,
                visited_flags.len() == n,
                1 <= head <= queue.len(),
                queue@.no_duplicates(),
                forall|x: int| 0 <= x < queue.len() ==> #[trigger] queue@[x] < n,
                visited_order@ == queue@.take(head as int),
                visited_order@ == o0.push(node),
                !o0.contains(node),
                node < n,
                forall|v: usize|
                    v < n ==> #[trigger] in_degree@[v as int] + hits(es.take(i as int), node, v)
                        == pending_in(es, v, o0),
                forall|v: usize| v < n ==> (#[trigger] queue@.contains(v) <==> in_degree@[v as int] == 0),
                sources_first(g, queue@),
                edge_traversal_count == from_listed(es, o0) + out_count(es.take(i as int), node),
                from_listed(es, o0) + out_count(es, node) <= es.len(),
                es.len() <= usize::MAX,
                snapshots.len() >= 1,
                0 <= ns <= queue.len(),
                queue@.take(ns) == qs,
                keys.len() == queue.len(),
                forall|j: int| ns <= j < queue.len() ==> released_at(es, queue@, j, (#[trigger] keys[j]).0, keys[j].1)
                    && (keys[j].0 < head - 1 || (keys[j].0 == head - 1 && keys[j].1 < i)),
                forall|j: int, j2: int| ns <= j < j2 < queue.len() ==> lex_less(#[trigger] keys[j], #[trigger] keys[j2]),
                queue@[head - 1] == node,
                forall|v: usize| v < n ==> visited_flags@[v as int] == visited_order@.contains(v),
                kahn_progress(g, snapshots@, tdes, queue@, keys, ns, n as int, head as int, i as int),
                !kahn_releases(snapshots@.last()),
            decreases graph.edges.len() - i,
        {
            let edge = graph.edges[i];
            proof {
                assert(edge.from == node);
                assert(es.take(i + 1).drop_last() =~= es.take(i as int));
                assert(es.take(i + 1).last() == edge);
                lemma_out_count_prefix(es, i + 1, node);
            }
            edge_traversal_count = edge_traversal_count + 1;
            let neighbor = edge.to;
            if neighbor < n {
                proof {
                    lemma_hits_prefix(es, i + 1, node, neighbor);
                    lemma_hits_le_pending(es, neighbor, o0, node);
                }
                in_degree.set(neighbor, in_degree[neighbor] - 1);
                let ghost sn1 = snapshots@;
                snapshots.push(
                    StateSnapshot {
                        current_line: 3,
                        current_node: neighbor,
                        queue_or_stack: copy_from(&queue, head),
                        visited_order: copy_all(&visited_order),
                        visited_flags: copy_flags(&visited_flags),
                        distances: None,
                        message: StepMessage::KahnDecrement {
                            node,
                            neighbor,
                            in_degree: in_degree[neighbor],
                        },
                        negative_cycle: false,
                    },
                );
                proof {
                    let nt = (head as int, queue.len() as int, i as int);
                    assert(visited_order@.drop_last() =~= o0);
                    assert(queue@.take(head - 1) =~= queue@.take(head as int).drop_last());
                    assert(o0 =~= queue@.take(head - 1));
                    assert(hits(es.take(i + 1), node, neighbor) == hits(es.take(i as int), node, neighbor) + 1);
                    assert(kahn_step_at(g, snapshots@.last(), queue@, keys, ns, n as int, nt));
                    lemma_kahn_progress_decrement(g, sn1, tdes, queue@, keys, ns, n as int, head as int, i as int, snapshots@.last());
                    assert(snapshots@ =~= sn1.push(snapshots@.last()));
                    tdes = tdes.push(nt);
                }
                if in_degree[neighbor] == 0 {
                    let ghost q0 = queue@;
                    let ghost kk0 = keys;
                    proof {
                        assert(!q0.contains(neighbor));
                        lemma_pending_push(es, neighbor, o0, node);
                        assert(pending_in(es, neighbor, visited_order@) == 0);
                    }
                    queue.push(neighbor);
                    proof {
                        assert(queue@.no_duplicates()) by {
                            assert forall|a: int, b: int|
                                0 <= a < queue.len() && 0 <= b < queue.len() && a != b implies queue@[a]
                                != queue@[b] by {
                                if a < q0.len() && b < q0.len() {
                                    assert(q0[a] != q0[b]);
                                } else if a < q0.len() {
                                    assert(q0.contains(q0[a]));
                                } else {
                                    assert(q0.contains(q0[b]));
                                }
                            }
                        }
                        assert forall|v: usize| v < n implies (#[trigger] queue@.contains(v)
                            <==> in_degree@[v as int] == 0) by {
                            if v == neighbor {
                                assert(queue@[q0.len() as int] == v);
                            } else {
                                if queue@.contains(v) {
                                    let x = choose|x: int| 0 <= x < queue.len() && queue@[x] == v;
                                    assert(q0[x] == v);
                                }
                                if q0.contains(v) {
                                    let x = choose|x: int| 0 <= x < q0.len() && q0[x] == v;
                                    assert(queue@[x] == v);
                                }
                            }
                        }
                        assert(queue@.take(head as int) =~= q0.take(head as int));
                        assert(queue@.take(ns) =~= q0.take(ns));
                        let k0 = keys;
                        keys = keys.push((head - 1, i as int));
                        let nq = q0.len() as int;
                        assert(released_at(es, queue@, nq, head - 1, i as int)) by {
                            assert(queue@.take(head as int) =~= visited_order@);
                            assert(queue@.take(head - 1) =~= o0);
                            assert(queue@[head - 1] == node);
                            assert(queue@[nq] == neighbor);
                            let pre = es.take(i + 1);
                            assert(pre.last() == es[i as int]);
                            assert(pre.last().from == node && pre.last().to == neighbor);
                            assert(pre.drop_last() =~= es.take(i as int));
                            assert(hits(pre, node, neighbor) == hits(pre.drop_last(), node, neighbor) + 1);
                            assert(hits(es.take(i + 1), node, neighbor) >= 1);
                            lemma_hits_prefix(es, i + 1, node, neighbor);
                            lemma_hits_le_pending(es, neighbor, o0, node);
                            assert(hits(es.take(i + 1), node, neighbor) == hits(es, node, neighbor));
                            lemma_hits_done(es, i + 1, node, neighbor);
                        }
                        assert forall|j: int| ns <= j < queue.len() implies released_at(es, queue@, j, (
                        #[trigger] keys[j]).0, keys[j].1) && (keys[j].0 < head - 1 || (keys[j].0 == head - 1
                            && keys[j].1 < i + 1)) by {
                            if j < nq {
                                assert(keys[j] == k0[j]);
                                lemma_released_push(es, q0, neighbor, j, k0[j].0, k0[j].1);
                            }
                        }
                        assert forall|j: int, j2: int| ns <= j < j2 < queue.len() implies lex_less(
                            #[trigger] keys[j],
                            #[trigger] keys[j2],
                        ) by {
                            if j2 < nq {
                                assert(keys[j] == k0[j] && keys[j2] == k0[j2]);
                            } else {
                                assert(keys[j] == k0[j]);
                            }
                        }
                        assert(sources_first(g, queue@)) by {
                            assert forall|j: int, t: int|
                                #![trigger g.edges[t], queue@[j]]
                                0 <= j < queue.len() && 0 <= t < g.edges.len() && g.edges[t].to
                                    == queue@[j] implies exists|x: int|
                                0 <= x < j && #[trigger] queue@[x] == g.edges[t].from by {
                                if j < q0.len() {
                                    assert(q0[j] == queue@[j]);
                                    let x = choose|x: int| 0 <= x < j && #[trigger] q0[x] == g.edges[t].from;
                                    assert(queue@[x] == q0[x]);
                                } else {
                                    lemma_pending_zero(es, neighbor, visited_order@, t);
                                    let x = choose|x: int|
                                        0 <= x < visited_order.len() && visited_order@[x] == g.edges[t].from;
                                    assert(queue@[x] == visited_order@[x]);
                                }
                            }
                        }
                    }
                    let ghost sn2 = snapshots@;
                    snapshots.push(
                        StateSnapshot {
                            current_line: 4,
                            current_node: neighbor,
                            queue_or_stack: copy_from(&queue, head),
                            visited_order: copy_all(&visited_order),
                            visited_flags: copy_flags(&visited_flags),
                            distances: None,
                            message: StepMessage::KahnEnqueue { neighbor },
                            negative_cycle: false,
                        },
                    );
                    proof {
                        let nt = (head as int, queue.len() as int, i as int);
                        assert(queue@.take(queue.len() as int) =~= queue@);
                        assert(kahn_step_at(g, snapshots@.last(), queue@, keys, ns, n as int, nt));
                        lemma_kahn_progress_enqueue(
                            g,
                            sn2,
                            tdes,
                            q0,
                            kk0,
                            ns,
                            n as int,
                            head as int,
                            i as int,
                            neighbor,
                            snapshots@.last(),
                        );
                        assert(snapshots@ =~= sn2.push(snapshots@.last()));
                        tdes = tdes.push(nt);
                    }
                }
            } else {
                proof {
                    lemma_kahn_progress_skip(g, snapshots@, tdes, queue@, keys, ns, n as int, head as int, i as int);
                }
            }
            p = p + 1;
            let next = if p < out.len() {
                out[p]
            } else {
                graph.edges.len()
            };
            proof {
                assert forall|j: int| i + 1 <= j < next implies (#[trigger] es[j]).from != node by {
                    if es[j].from == node {
                        let a = choose|a: int| 0 <= a < out@.len() && out@[a] == j;
                        if a < p {
                            assert(out@[a] <= out@[p - 1]);
                        } else {
                            assert(out@[a] >= out@[p as int]);
                        }
                    }
                }
                lemma_kahn_skip_range(g, snapshots@, tdes, queue@, keys, ns, n as int, head as int, node, i + 1, next as int);
            }
            i = next;
        }
        proof {
            assert(es.take(i as int) =~= es);
            assert forall|v: usize| v < n implies #[trigger] in_degree@[v as int] == pending_in(
                es,
                v,
                visited_order@,
            ) by {
                lemma_pending_push(es, v, o0, node);
            }
            lemma_from_listed_push(es, o0, node);
        }
    }
    proof {
        assert(queue@.take(head as int) =~= queue@);
        assert forall|v: usize| v < n && !visited_order@.contains(v) implies #[trigger] pending_in(
            es,
            v,
            visited_order@,
        ) > 0 by {}
        assert forall|j: int| 0 <= j < ns implies in_count(es, #[trigger] visited_order@[j]) == 0 by {
            assert(visited_order@[j] == qs[j]);
        }
        assert forall|a: int, b: int| 0 <= a < b < ns implies #[trigger] visited_order@[a] < #[trigger] visited_order@[b] by {
            assert(visited_order@[a] == qs[a] && visited_order@[b] == qs[b]);
        }
        assert(visited_order@.take(ns) =~= qs);
        assert(kahn_ordered(g, visited_order@, ns, keys));
        lemma_kahn_outcome(g, visited_order@);
        lemma_distinct_below(visited_order@, n);
    }
    let ghost sn3 = snapshots@;
    let has_cycle = visited_order.len() < n;
    if has_cycle {
        snapshots.push(
            StateSnapshot {
                current_line: 5,
                current_node: 0,
                queue_or_stack: Vec::new(),
                visited_order: copy_all(&visited_order),
                visited_flags: copy_flags(&visited_flags),
                distances: None,
                message: StepMessage::KahnCycle { processed: visited_order.len(), total: n },
                negative_cycle: true,
            },
        );
    } else {
        snapshots.push(
            StateSnapshot {
                current_line: 5,
                current_node: 0,
                queue_or_stack: Vec::new(),
                visited_order: copy_all(&visited_order),
                visited_flags: copy_flags(&visited_flags),
                distances: None,
                message: StepMessage::KahnDone { order: copy_all(&visited_order) },
                negative_cycle: false,
            },
        );
    }
    proof {
        let nt = (queue.len() as int, queue.len() as int, 0int);
        assert(queue@.subrange(head as int, queue.len() as int) =~= Seq::<usize>::empty());
        assert(kahn_step_at(g, snapshots@.last(), queue@, keys, ns, n as int, nt));
        lemma_kahn_progress_finish(g, sn3, tdes, queue@, keys, ns, n as int, snapshots@.last());
        assert(snapshots@ =~= sn3.push(snapshots@.last()));
        tdes = tdes.push(nt);
        assert(visited_order@ == queue@);
    }
    let r = AlgorithmResult {
        kind: AlgorithmKind::TopologicalSort,
        snapshots,
        visit_order: visited_order,
        edge_traversal_count,
    };
    assert(kahn_ordered(graph@, r.visit_order@, ns, keys));
    assert(kahn_trace(graph@, r.snapshots@, r.visit_order@, keys, ns, graph.nodes.len() as int, tdes));
    r
}

proof fn lemma_out_count_prefix(es: Seq<Edge>, m: int, u: usize)
    requires
        0 <= m <= es.len(),
    ensures
        out_count(es.take(m), u) <= out_count(es, u),
    decreases es.len() - m,
{
    if m < es.len() {
        lemma_out_count_prefix(es, m + 1, u);
        assert(es.take(m + 1).drop_last() =~= es.take(m));
    } else {
        assert(es.take(m) =~= es);
    }
}


// ───────────────────────────── levels ───────────────────────────────────────

/// The largest `lv[u] + 1` over the edges `u -> v` whose source `u` is listed in
/// `done`, or 0 when there is none.
pub open spec fn level_from(es: Seq<Edge>, v: usize, done: Seq<usize>, lv: Seq<usize>) -> nat
    decreases es.len(),
{
    if es.len() == 0 {
        0
    } else {
        let r = level_from(es.drop_last(), v, done, lv);
        let e = es.last();
        if e.to == v && done.contains(e.from) && r < lv[e.from as int] + 1 {
            (lv[e.from as int] + 1) as nat
        } else {
            r
        }
    }
}

/// `order` is what Kahn's algorithm can end with: distinct nodes, each after the
/// sources of its incoming edges, and every node left out still counting an edge from
/// a node left out.
pub open spec fn kahn_final(g: GraphView, order: Seq<usize>) -> bool {
    &&& order.no_duplicates()
    &&& forall|i: int| 0 <= i < order.len() ==> #[trigger] order[i] < g.nodes.len()
    &&& sources_first(g, order)
    &&& forall|v: usize| v < g.nodes.len() && !order.contains(v) ==> #[trigger] pending_in(g.edges, v, order) > 0
}

proof fn lemma_level_push(es: Seq<Edge>, v: usize, done: Seq<usize>, x: usize, lv: Seq<usize>)
    requires
        !done.contains(x),
    ensures
        level_from(es, v, done.push(x), lv) == if hits(es, x, v) > 0 && level_from(es, v, done, lv) < lv[x as int] + 1 {
            (lv[x as int] + 1) as nat
        } else {
            level_from(es, v, done, lv)
        },
    decreases es.len(),
{
    if es.len() > 0 {
        lemma_level_push(es.drop_last(), v, done, x, lv);
        let f = es.last().from;
        if f == x {
            assert(done.push(x)[done.len() as int] == x);
        } else {
            if done.push(x).contains(f) {
                let i = choose|i: int| 0 <= i < done.push(x).len() && done.push(x)[i] == f;
                assert(done[i] == f);
            }
            if done.contains(f) {
                let i = choose|i: int| 0 <= i < done.len() && done[i] == f;
                assert(done.push(x)[i] == f);
            }
        }
    }
}

proof fn lemma_level_frame(es: Seq<Edge>, v: usize, done: Seq<usize>, lv: Seq<usize>, lw: Seq<usize>)
    requires
        forall|i: int| 0 <= i < done.len() ==> lv[#[trigger] done[i] as int] == lw[done[i] as int],
    ensures
        level_from(es, v, done, lv) == level_from(es, v, done, lw),
    decreases es.len(),
{
    if es.len() > 0 {
        lemma_level_frame(es.drop_last(), v, done, lv, lw);
        let f = es.last().from;
        if done.contains(f) {
            let i = choose|i: int| 0 <= i < done.len() && done[i] == f;
            assert(lv[done[i] as int] == lw[done[i] as int]);
        }
    }
}

proof fn lemma_level_bound(es: Seq<Edge>, v: usize, done: Seq<usize>, lv: Seq<usize>, b: nat)
    requires
        forall|i: int| 0 <= i < done.len() ==> lv[#[trigger] done[i] as int] + 1 <= b,
    ensures
        level_from(es, v, done, lv) <= b,
    decreases es.len(),
{
    if es.len() > 0 {
        lemma_level_bound(es.drop_last(), v, done, lv, b);
        let f = es.last().from;
        if done.contains(f) {
            let i = choose|i: int| 0 <= i < done.len() && done[i] == f;
        }
    }
}

proof fn lemma_level_empty(es: Seq<Edge>, v: usize, lv: Seq<usize>)
    ensures
        level_from(es, v, seq![], lv) == 0,
    decreases es.len(),
{
    if es.len() > 0 {
        lemma_level_empty(es.drop_last(), v, lv);
    }
}

/// Each edge into `v` from a listed source gives `v` a level above the source's.
proof fn lemma_level_edge(es: Seq<Edge>, v: usize, done: Seq<usize>, lv: Seq<usize>, t: int)
    requires
        0 <= t < es.len(),
        es[t].to == v,
        done.contains(es[t].from),
    ensures
        level_from(es, v, done, lv) >= lv[es[t].from as int] + 1,
    decreases es.len(),
{
    if t < es.len() - 1 {
        assert(es.drop_last()[t] == es[t]);
        lemma_level_edge(es.drop_last(), v, done, lv, t);
    }
}

/// A positive level comes from an edge into `v` from a listed source.
proof fn lemma_level_witness(es: Seq<Edge>, v: usize, done: Seq<usize>, lv: Seq<usize>)
    requires
        level_from(es, v, done, lv) > 0,
    ensures
        exists|t: int|
            0 <= t < es.len() && (#[trigger] es[t]).to == v && done.contains(es[t].from) && level_from(
                es,
                v,
                done,
                lv,
            ) == lv[es[t].from as int] + 1,
    decreases es.len(),
{
    let d = es.drop_last();
    let r = level_from(d, v, done, lv);
    let e = es.last();
    if e.to == v && done.contains(e.from) && r < lv[e.from as int] + 1 {
        assert(es[es.len() - 1] == e);
    } else {
        lemma_level_witness(d, v, done, lv);
        let t = choose|t: int|
            0 <= t < d.len() && (#[trigger] d[t]).to == v && done.contains(d[t].from) && level_from(
                d,
                v,
                done,
                lv,
            ) == lv[d[t].from as int] + 1;
        assert(es[t] == d[t]);
    }
}

/// Kahn's algorithm, computing levels on the way: each node's level is one more than
/// the largest level among the sources of its incoming edges that were ordered.
fn kahn_levels(graph: &Graph) -> (r: (Vec<usize>, Vec<usize>))
    ensures
        kahn_final(graph@, r.0@),
        r.1.len() == graph.nodes.len(),
        forall|v: usize|
            v < graph.nodes.len() ==> #[trigger] r.1@[v as int] == level_from(graph@.edges, v, r.0@, r.1@),
{
    let n = graph.nodes.len();
    let ghost g = graph@;
    let ghost es = graph@.edges;
    let mut in_degree = in_degrees(graph);
    let adj = out_edge_lists(graph);
    let mut levels: Vec<usize> = Vec::new();
    let mut queue: Vec<usize> = Vec::new();
    let mut head: usize = 0;
    let mut k: usize = 0;
    while k < n
        invariant
            graph@ == g,
            n == graph.nodes.len(),
            k <= n,
            in_degree.len() == n,
            levels.len() == k,
            forall|v: int| 0 <= v < k ==> #[trigger] levels@[v] == 0,
            forall|v: usize| v < n ==> #[trigger] in_degree@[v as int] == in_count(es, v),
            forall|i: int| 0 <= i < queue.len() ==> #[trigger] queue@[i] < k,
            forall|a: int, b: int| 0 <= a < b < queue.len() ==> queue@[a] < queue@[b],
            forall|v: usize| v < k ==> (#[trigger] queue@.contains(v) <==> in_degree@[v as int] == 0),
        decreases n - k,
    {
        let ghost q0 = queue@;
        if in_degree[k] == 0 {
            queue.push(k);
        }
        levels.push(0);
        proof {
            assert forall|v: usize| v < k + 1 implies (#[trigger] queue@.contains(v) <==> in_degree@[v as int] == 0) by {
                if queue@.contains(v) {
                    let i = choose|i: int| 0 <= i < queue.len() && queue@[i] == v;
                    if i < q0.len() {
                        assert(q0[i] == v);
                    }
                }
                if v < k && q0.contains(v) {
                    let i = choose|i: int| 0 <= i < q0.len() && q0[i] == v;
                    assert(queue@[i] == v);
                }
                if v == k && in_degree@[v as int] == 0 {
                    assert(queue@[q0.len() as int] == v);
                }
            }
        }
        k = k + 1;
    }
    let mut order: Vec<usize> = Vec::new();
    proof {
        assert(queue@.no_duplicates()) by {
            assert forall|a: int, b: int| 0 <= a < queue.len() && 0 <= b < queue.len() && a != b implies queue@[a] != queue@[b] by {
                if a < b {
                    assert(queue@[a] < queue@[b]);
                } else {
                    assert(queue@[b] < queue@[a]);
                }
            }
        }
        assert forall|v: usize| v < n implies #[trigger] in_degree@[v as int] == pending_in(es, v, seq![]) by {
            lemma_pending_empty(es, v);
        }
        assert forall|v: usize| v < n implies #[trigger] levels@[v as int] == level_from(es, v, seq![], levels@) by {
            lemma_level_empty(es, v, levels@);
        }
        assert(sources_first(g, queue@)) by {
            assert forall|j: int, t: int|
                #![trigger g.edges[t], queue@[j]]
                0 <= j < queue.len() && 0 <= t < g.edges.len() && g.edges[t].to == queue@[j] implies exists|i: int|
                    0 <= i < j && #[trigger] queue@[i] == g.edges[t].from by {
                let v = queue@[j];
                assert(queue@.contains(v));
                lemma_pending_empty(es, v);
                lemma_pending_zero(es, v, seq![], t);
            }
        }
        assert(order@ =~= queue@.take(0));
        assert(order@ =~= seq![]);
    }
    while head < queue.len()
        invariant
            graph@ == g,
            es == g.edges,
            n == graph.nodes.len(),
            adj.len() == n,
            forall|u: int| 0 <= u < n ==> lists_out_edges(es, u as usize, #[trigger] adj@[u]@),
            in_degree.len() == n,
            levels.len() == n,
            head <= queue.len(),
            queue@.no_duplicates(),
            forall|i: int| 0 <= i < queue.len() ==> #[trigger] queue@[i] < n,
            order@ == queue@.take(head as int),
            forall|v: usize| v < n ==> #[trigger] in_degree@[v as int] == pending_in(es, v, order@),
            forall|v: usize| v < n ==> (#[trigger] queue@.contains(v) <==> in_degree@[v as int] == 0),
            forall|v: usize| v < n ==> #[trigger] levels@[v as int] == level_from(es, v, order@, levels@),
            forall|v: usize| v < n ==> #[trigger] levels@[v as int] <= order.len(),
            sources_first(g, queue@),
        decreases n - head,
    {
        proof {
            lemma_distinct_below(queue@, n);
        }
        let node = queue[head];
        head = head + 1;
        let ghost o0 = order@;
        order.push(node);
        proof {
            assert(order@ =~= queue@.take(head as int));
            assert(o0 =~= queue@.take(head - 1));
            assert(!o0.contains(node)) by {
                if o0.contains(node) {
                    let i = choose|i: int| 0 <= i < o0.len() && o0[i] == node;
                    assert(queue@[i] == queue@[head - 1]);
                }
            }
            assert forall|v: usize| v < n implies #[trigger] levels@[v as int] == (if hits(
                es.take(0),
                node,
                v,
            ) > 0 && level_from(es, v, o0, levels@) < levels@[node as int] + 1 {
                (levels@[node as int] + 1) as nat
            } else {
                level_from(es, v, o0, levels@)
            }) by {
                assert(es.take(0) =~= seq![]);
            }
        }
        let ghost lv0 = levels@;
        let out = &adj[node];
        let mut p: usize = 0;
        let mut i: usize = if out.len() > 0 {
            out[0]
        } else {
            graph.edges.len()
        };
        assert(es.len() == graph.edges.len());
        proof {
            assert forall|j: int| 0 <= j < i implies (#[trigger] es[j]).from != node by {
                if es[j].from == node {
                    let a = choose|a: int| 0 <= a < out@.len() && out@[a] == j;
                    assert(out@[a] >= out@[0]);
                }
            }
            lemma_counts_skip_range(es, node, 0, i as int);
        }
        while i < graph.edges.len()
            invariant
                graph@ == g,
                es == g.edges,
                n == graph.nodes.len(),
                i <= graph.edges.len(),
                lists_out_edges(es, node, out@),
                p <= out.len(),
                i == (if p < out.len() {
                    out@[p as int] as int
                } else {
                    es.len() as int
                }),
                p > 0 ==> out@[p - 1] < i,
                in_degree.len() == n,
                levels.len() == n,
                1 <= head <= queue.len(),
                queue@.no_duplicates(),
                forall|x: int| 0 <= x < queue.len() ==> #[trigger] queue@[x] < n,
                order@ == queue@.take(head as int),
                order@ == o0.push(node),
                queue@[head - 1] == node,
                !o0.contains(node),
                node < n,
                forall|x: int| 0 <= x < order.len() ==> levels@[#[trigger] order@[x] as int] == lv0[order@[x] as int],
                forall|v: usize|
                    v < n ==> #[trigger] in_degree@[v as int] + hits(es.take(i as int), node, v)
                        == pending_in(es, v, o0),
                forall|v: usize| v < n ==> (#[trigger] queue@.contains(v) <==> in_degree@[v as int] == 0),
                forall|v: usize| v < n ==> #[trigger] levels@[v as int] == (if hits(
                    es.take(i as int),
                    node,
                    v,
                ) > 0 && level_from(es, v, o0, lv0) < lv0[node as int] + 1 {
                    (lv0[node as int] + 1) as nat
                } else {
                    level_from(es, v, o0, lv0)
                }),
                forall|v: usize| v < n ==> #[trigger] levels@[v as int] <= order.len(),
                lv0[node as int] + 1 <= order.len(),
                sources_first(g, queue@),
            decreases graph.edges.len() - i,
        {
            let edge = graph.edges[i];
            proof {
                assert(edge.from == node);
                assert(es.take(i + 1).drop_last() =~= es.take(i as int));
                assert(es.take(i + 1).last() == edge);
            }
            let neighbor = edge.to;
            if neighbor < n {
                proof {
                    lemma_hits_prefix(es, i + 1, node, neighbor);
                    lemma_hits_le_pending(es, neighbor, o0, node);
                    // The target is not ordered yet: its incoming edges all come from
                    // nodes ordered before it, and `node` was ordered last.
                    assert forall|x: int| 0 <= x < order.len() implies #[trigger] order@[x] != neighbor by {
                        if order@[x] == neighbor {
                            assert(queue@[x] == neighbor);
                            assert(g.edges[i as int].to == queue@[x]);
                            let y = choose|y: int| 0 <= y < x && #[trigger] queue@[y] == g.edges[i as int].from;
                            assert(queue@[y] == queue@[head - 1]);
                        }
                    }
                }
                in_degree.set(neighbor, in_degree[neighbor] - 1);
                proof {
                    assert(order@[order.len() - 1] == node);
                    assert(levels@[node as int] == lv0[node as int]);
                }
                let lvn = levels[node];
                let ghost lv1 = levels@;
                if levels[neighbor] < lvn + 1 {
                    levels.set(neighbor, lvn + 1);
                }
                proof {
                    assert forall|x: int| 0 <= x < order.len() implies levels@[#[trigger] order@[x] as int]
                        == lv0[order@[x] as int] by {
                        assert(order@[x] != neighbor);
                        assert(lv1[order@[x] as int] == lv0[order@[x] as int]);
                    }
                    assert forall|v: usize| v < n implies #[trigger] levels@[v as int] == (if hits(
                        es.take(i + 1),
                        node,
                        v,
                    ) > 0 && level_from(es, v, o0, lv0) < lv0[node as int] + 1 {
                        (lv0[node as int] + 1) as nat
                    } else {
                        level_from(es, v, o0, lv0)
                    }) by {
                        if v != neighbor {
                            assert(lv1[v as int] == levels@[v as int]);
                        }
                    }
                }
                if in_degree[neighbor] == 0 {
                    let ghost q0 = queue@;
                    proof {
                        assert(!q0.contains(neighbor));
                        lemma_pending_push(es, neighbor, o0, node);
                        assert(pending_in(es, neighbor, order@) == 0);
                    }
                    queue.push(neighbor);
                    proof {
                        assert(queue@.no_duplicates()) by {
                            assert forall|a: int, b: int|
                                0 <= a < queue.len() && 0 <= b < queue.len() && a != b implies queue@[a]
                                != queue@[b] by {
                                if a < q0.len() && b < q0.len() {
                                    assert(q0[a] != q0[b]);
                                } else if a < q0.len() {
                                    assert(q0.contains(q0[a]));
                                } else {
                                    assert(q0.contains(q0[b]));
                                }
                            }
                        }
                        assert forall|v: usize| v < n implies (#[trigger] queue@.contains(v)
                            <==> in_degree@[v as int] == 0) by {
                            if v == neighbor {
                                assert(queue@[q0.len() as int] == v);
                            } else {
                                if queue@.contains(v) {
                                    let x = choose|x: int| 0 <= x < queue.len() && queue@[x] == v;
                                    assert(q0[x] == v);
                                }
                                if q0.contains(v) {
                                    let x = choose|x: int| 0 <= x < q0.len() && q0[x] == v;
                                    assert(queue@[x] == v);
                                }
                            }
                        }
                        assert(queue@.take(head as int) =~= q0.take(head as int));
                        assert(sources_first(g, queue@)) by {
                            assert forall|j: int, t: int|
                                #![trigger g.edges[t], queue@[j]]
                                0 <= j < queue.len() && 0 <= t < g.edges.len() && g.edges[t].to
                                    == queue@[j] implies exists|x: int|
                                0 <= x < j && #[trigger] queue@[x] == g.edges[t].from by {
                                if j < q0.len() {
                                    assert(q0[j] == queue@[j]);
                                    let x = choose|x: int| 0 <= x < j && #[trigger] q0[x] == g.edges[t].from;
                                    assert(queue@[x] == q0[x]);
                                } else {
                                    lemma_pending_zero(es, neighbor, order@, t);
                                    let x = choose|x: int|
                                        0 <= x < order.len() && order@[x] == g.edges[t].from;
                                    assert(queue@[x] == order@[x]);
                                }
                            }
                        }
                    }
                }
            }
            p = p + 1;
            let next = if p < out.len() {
                out[p]
            } else {
                graph.edges.len()
            };
            proof {
                assert forall|j: int| i + 1 <= j < next implies (#[trigger] es[j]).from != node by {
                    if es[j].from == node {
                        let a = choose|a: int| 0 <= a < out@.len() && out@[a] == j;
                        if a < p {
                            assert(out@[a] <= out@[p - 1]);
                        } else {
                            assert(out@[a] >= out@[p as int]);
                        }
                    }
                }
                lemma_counts_skip_range(es, node, i + 1, next as int);
            }
            i = next;
        }
        proof {
            assert(es.take(i as int) =~= es);
            assert forall|v: usize| v < n implies #[trigger] in_degree@[v as int] == pending_in(
                es,
                v,
                order@,
            ) by {
                lemma_pending_push(es, v, o0, node);
            }
            assert forall|v: usize| v < n implies #[trigger] levels@[v as int] == level_from(
                es,
                v,
                order@,
                levels@,
            ) by {
                lemma_level_push(es, v, o0, node, lv0);
                lemma_level_frame(es, v, order@, lv0, levels@);
            }
        }
    }
    proof {
        assert(queue@.take(head as int) =~= queue@);
        assert forall|v: usize| v < n && !order@.contains(v) implies #[trigger] pending_in(
            es,
            v,
            order@,
        ) > 0 by {}
    }
    (order, levels)
}

/// Whether the graph is a DAG, that is, has a topological order. Edges whose target is
/// not a node are ignored.
pub fn is_dag(graph: &Graph) -> (r: bool)
    ensures
        r == is_dag_spec(graph@),
{
    let n = graph.nodes.len();
    if n == 0 {
        proof {
            assert(is_topological_order(graph@, seq![]));
        }
        return true;
    }
    let (order, _levels) = kahn_levels(graph);
    proof {
        lemma_kahn_outcome(graph@, order@);
        lemma_distinct_below(order@, n);
    }
    order.len() == n
}

/// The level of each node: 0 for a node without incoming edges, otherwise one more than
/// the largest level among the sources of its incoming edges, taken over the sources
/// that Kahn's algorithm orders. In a DAG every edge therefore climbs at least one level,
/// and nodes of the same level can be processed in parallel.
pub fn compute_levels(graph: &Graph) -> (r: Vec<usize>)
    ensures
        r.len() == graph.nodes.len(),
        exists|order: Seq<usize>|
            kahn_final(graph@, order) && forall|v: usize|
                v < graph.nodes.len() ==> #[trigger] r@[v as int] == level_from(graph@.edges, v, order, r@),
        is_dag_spec(graph@) ==> forall|v: usize|
            v < graph.nodes.len() ==> #[trigger] r@[v as int] == level_from(
                graph@.edges,
                v,
                topological_nodes(graph@),
                r@,
            ),
        is_dag_spec(graph@) ==> forall|t: int|
            0 <= t < graph@.edges.len() && (#[trigger] graph@.edges[t]).to < graph.nodes.len() ==> graph@.edges[t].from
                < graph.nodes.len() && r@[graph@.edges[t].to as int] >= r@[graph@.edges[t].from as int] + 1,
{
    let n = graph.nodes.len();
    if n == 0 {
        let r: Vec<usize> = Vec::new();
        proof {
            assert(kahn_final(graph@, seq![]));
        }
        return r;
    }
    let (order, levels) = kahn_levels(graph);
    proof {
        lemma_kahn_outcome(graph@, order@);
        lemma_distinct_below(order@, n);
        if is_dag_spec(graph@) {
            assert forall|v: usize| v < n implies #[trigger] levels@[v as int] == level_from(
                graph@.edges,
                v,
                topological_nodes(graph@),
                levels@,
            ) by {
                assert forall|x: usize| #[trigger] order@.contains(x) == topological_nodes(graph@).contains(x) by {
                    if x < n {
                        assert(topological_nodes(graph@)[x as int] == x);
                        lemma_distinct_full(order@, n, x);
                    }
                    if topological_nodes(graph@).contains(x) {
                        let i = choose|i: int| 0 <= i < n && topological_nodes(graph@)[i] == x;
                    }
                    if order@.contains(x) {
                        let i = choose|i: int| 0 <= i < order.len() && order@[i] == x;
                    }
                }
                lemma_level_same_nodes(graph@.edges, v, order@, topological_nodes(graph@), levels@);
            }
            assert forall|t: int|
                0 <= t < graph@.edges.len() && (#[trigger] graph@.edges[t]).to < n implies graph@.edges[t].from
                < n && levels@[graph@.edges[t].to as int] >= levels@[graph@.edges[t].from as int] + 1 by {
                let v = graph@.edges[t].to;
                assert(order@.contains(v));
                let j = choose|j: int| 0 <= j < order.len() && order@[j] == v;
                assert(graph@.edges[t].to == order@[j]);
                let i = choose|i: int| 0 <= i < j && #[trigger] order@[i] == graph@.edges[t].from;
                lemma_level_edge(graph@.edges, v, order@, levels@, t);
            }
        }
    }
    levels
}

/// The nodes `0..n` in increasing order.
pub open spec fn topological_nodes(g: GraphView) -> Seq<usize> {
    Seq::new(g.nodes.len(), |i: int| i as usize)
}

/// `level_from` depends only on which sources are listed.
proof fn lemma_level_same_nodes(es: Seq<Edge>, v: usize, a: Seq<usize>, b: Seq<usize>, lv: Seq<usize>)
    requires
        forall|x: usize| #[trigger] a.contains(x) == b.contains(x),
    ensures
        level_from(es, v, a, lv) == level_from(es, v, b, lv),
    decreases es.len(),
{
    if es.len() > 0 {
        lemma_level_same_nodes(es.drop_last(), v, a, b, lv);
        assert(a.contains(es.last().from) == b.contains(es.last().from));
    }
}


// ───────────────────────────── DFS-based topological sort ───────────────────

/// Targets of the edges leaving `u`, in edge order.
pub open spec fn out_targets(es: Seq<Edge>, u: usize) -> Seq<usize>
    decreases es.len(),
{
    if es.len() == 0 {
        seq![]
    } else {
        out_targets(es.drop_last(), u) + if es.last().from == u {
            seq![es.last().to]
        } else {
            seq![]
        }
    }
}

proof fn lemma_out_targets_len(es: Seq<Edge>, u: usize)
    ensures
        out_targets(es, u).len() == out_count(es, u),
    decreases es.len(),
{
    if es.len() > 0 {
        lemma_out_targets_len(es.drop_last(), u);
    }
}

proof fn lemma_out_targets_edge(es: Seq<Edge>, u: usize, k: int)
    requires
        0 <= k < out_targets(es, u).len(),
    ensures
        exists|t: int| 0 <= t < es.len() && (#[trigger] es[t]).from == u && es[t].to == out_targets(es, u)[k],
    decreases es.len(),
{
    let d = es.drop_last();
    if k < out_targets(d, u).len() {
        lemma_out_targets_edge(d, u, k);
        let t = choose|t: int| 0 <= t < d.len() && (#[trigger] d[t]).from == u && d[t].to == out_targets(d, u)[k];
        assert(es[t] == d[t]);
    } else {
        assert(es[es.len() - 1] == es.last());
    }
}

proof fn lemma_edge_out_targets(es: Seq<Edge>, u: usize, t: int)
    requires
        0 <= t < es.len(),
        es[t].from == u,
    ensures
        exists|k: int| 0 <= k < out_targets(es, u).len() && #[trigger] out_targets(es, u)[k] == es[t].to,
    decreases es.len(),
{
    let d = es.drop_last();
    if t < es.len() - 1 {
        assert(d[t] == es[t]);
        lemma_edge_out_targets(d, u, t);
        let k = choose|k: int| 0 <= k < out_targets(d, u).len() && #[trigger] out_targets(d, u)[k] == d[t].to;
        assert(out_targets(es, u)[k] == out_targets(d, u)[k]);
    } else {
        assert(out_targets(es, u)[out_targets(d, u).len() as int] == es[t].to);
    }
}

fn out_targets_exec(graph: &Graph, u: usize) -> (r: Vec<usize>)
    ensures
        r@ == out_targets(graph@.edges, u),
{
    let mut r: Vec<usize> = Vec::new();
    let mut i: usize = 0;
    while i < graph.edges.len()
        invariant
            i <= graph.edges.len(),
            r@ == out_targets(graph@.edges.take(i as int), u),
        decreases graph.edges.len() - i,
    {
        proof {
            assert(graph@.edges.take(i + 1).drop_last() =~= graph@.edges.take(i as int));
        }
        let ghost before = r@;
        if graph.edges[i].from == u {
            r.push(graph.edges[i].to);
        }
        proof {
            assert(r@ =~= out_targets(graph@.edges.take(i + 1), u));
        }
        i = i + 1;
    }
    assert(graph@.edges.take(i as int) =~= graph@.edges);
    r
}

/// Some edge leads from `u` to `w`.
pub open spec fn has_edge(g: GraphView, u: usize, w: usize) -> bool {
    exists|t: int| 0 <= t < g.edges.len() && (#[trigger] g.edges[t]).from == u && g.edges[t].to == w
}

/// The walk `path` closed by an edge from its last node back to its first is a cycle,
/// which no topological order can have.
proof fn lemma_cycle_not_dag(g: GraphView, path: Seq<usize>)
    requires
        path.len() >= 1,
        forall|i: int| 0 <= i < path.len() ==> #[trigger] path[i] < g.nodes.len(),
        forall|i: int| 0 <= i < path.len() - 1 ==> has_edge(g, #[trigger] path[i], path[i + 1]),
        has_edge(g, path.last(), path[0]),
    ensures
        !is_dag_spec(g),
{
    if is_dag_spec(g) {
        let order = choose|order: Seq<usize>| #[trigger] is_topological_order(g, order);
        lemma_cycle_positions(g, order, path, path.len() - 1);
        let t = choose|t: int|
            0 <= t < g.edges.len() && (#[trigger] g.edges[t]).from == path.last() && g.edges[t].to == path[0];
        lemma_edge_goes_forward(g, order, t);
        assert(path[path.len() - 1] == path.last());
        assert(order.contains(path[0]));
        assert(order.contains(path.last()));
        let a = choose|a: int| 0 <= a < order.len() && order[a] == path[0];
        let b = choose|b: int| 0 <= b < order.len() && order[b] == path.last();
        assert(a <= b);
        assert(b < a);
    }
}

/// In a topological order, the target of each edge into a node sits after its source.
proof fn lemma_edge_goes_forward(g: GraphView, order: Seq<usize>, t: int)
    requires
        is_topological_order(g, order),
        0 <= t < g.edges.len(),
        g.edges[t].to < g.nodes.len(),
    ensures
        forall|a: int, b: int|
            0 <= a < order.len() && 0 <= b < order.len() && order[a] == g.edges[t].from && order[b]
                == g.edges[t].to ==> a < b,
{
    let w = g.edges[t].to;
    assert(order.contains(w));
    assert forall|a: int, b: int|
        0 <= a < order.len() && 0 <= b < order.len() && order[a] == g.edges[t].from && order[b]
            == g.edges[t].to implies a < b by {
        assert(g.edges[t].to == order[b]);
        let i = choose|i: int| 0 <= i < b && #[trigger] order[i] == g.edges[t].from;
        assert(order[i] == order[a]);
    }
}

proof fn lemma_cycle_positions(g: GraphView, order: Seq<usize>, path: Seq<usize>, k: int)
    requires
        is_topological_order(g, order),
        0 <= k < path.len(),
        forall|i: int| 0 <= i < path.len() ==> #[trigger] path[i] < g.nodes.len(),
        forall|i: int| 0 <= i < path.len() - 1 ==> has_edge(g, #[trigger] path[i], path[i + 1]),
    ensures
        forall|a: int, b: int|
            0 <= a < order.len() && 0 <= b < order.len() && order[a] == path[0] && order[b] == path[k] ==> a <= b,
    decreases k,
{
    if k > 0 {
        lemma_cycle_positions(g, order, path, k - 1);
        assert(has_edge(g, path[k - 1], path[k]));
        let t = choose|t: int|
            0 <= t < g.edges.len() && (#[trigger] g.edges[t]).from == path[k - 1] && g.edges[t].to == path[k];
        lemma_edge_goes_forward(g, order, t);
        assert(order.contains(path[k - 1]));
        let c = choose|c: int| 0 <= c < order.len() && order[c] == path[k - 1];
        assert forall|a: int, b: int|
            0 <= a < order.len() && 0 <= b < order.len() && order[a] == path[0] && order[b] == path[k] implies a <= b by {
            assert(a <= c);
            assert(c < b);
        }
    }
}


/// The nodes of the call-stack frames.
pub open spec fn frame_nodes(c: Seq<(usize, usize)>) -> Seq<usize> {
    c.map_values(|f: (usize, usize)| f.0)
}

/// Edges still to examine in the call-stack frames.
pub open spec fn rem_sum(es: Seq<Edge>, c: Seq<(usize, usize)>) -> nat
    decreases c.len(),
{
    if c.len() == 0 {
        0
    } else {
        rem_sum(es, c.drop_last()) + (out_targets(es, c.last().0).len() - c.last().1) as nat
    }
}

/// Each finished node's out-neighbours were finished before it.
pub open spec fn finished_ok(g: GraphView, f: Seq<usize>) -> bool {
    forall|i: int, k: int|
        #![trigger out_targets(g.edges, f[i])[k]]
        0 <= i < f.len() && 0 <= k < out_targets(g.edges, f[i]).len() ==> listed_before(
            f,
            i,
            out_targets(g.edges, f[i])[k],
        )
}

/// `w` appears in `f` before position `i`.
pub open spec fn listed_before(f: Seq<usize>, i: int, w: usize) -> bool {
    exists|i2: int| 0 <= i2 < i && #[trigger] f[i2] == w
}

proof fn lemma_finished_push(g: GraphView, f: Seq<usize>, node: usize)
    requires
        finished_ok(g, f),
        forall|k: int| 0 <= k < out_targets(g.edges, node).len() ==> f.contains(#[trigger] out_targets(g.edges, node)[k]),
    ensures
        finished_ok(g, f.push(node)),
{
    let h = f.push(node);
    assert forall|i: int, k: int|
        #![trigger out_targets(g.edges, h[i])[k]]
        0 <= i < h.len() && 0 <= k < out_targets(g.edges, h[i]).len() implies listed_before(
            h,
            i,
            out_targets(g.edges, h[i])[k],
        ) by {
        if i < f.len() {
            assert(h[i] == f[i]);
            assert(listed_before(f, i, out_targets(g.edges, f[i])[k]));
            let i2 = choose|i2: int| 0 <= i2 < i && #[trigger] f[i2] == out_targets(g.edges, f[i])[k];
            assert(h[i2] == f[i2]);
        } else {
            assert(h[i] == node);
            let w = out_targets(g.edges, node)[k];
            assert(f.contains(w));
            let i2 = choose|i2: int| 0 <= i2 < f.len() && f[i2] == w;
            assert(h[i2] == f[i2]);
        }
    }
}

/// Some snapshot reports a cycle.
pub open spec fn reports_cycle(snaps: Seq<StateSnapshot>) -> bool {
    exists|i: int| 0 <= i < snaps.len() && (#[trigger] snaps[i]).negative_cycle
}

/// Every edge that leaves a node leads to a node.
pub open spec fn targets_in_range(g: GraphView) -> bool {
    forall|t: int| 0 <= t < g.edges.len() && (#[trigger] g.edges[t]).from < g.nodes.len() ==> g.edges[t].to < g.nodes.len()
}

/// Snapshot `s` of the depth-first topological sort, whose nodes finish in the order `f`:
/// it lists the nodes finished so far, marks exactly those and the ones on the path of
/// the search (its stack), raises the cycle flag only to report a cycle, and records the
/// start; the start of a search from a node; an edge from the top of the path back onto
/// it; a descent along an edge from the top of the path; or the top node finishing.
pub open spec fn topo_snap(g: GraphView, s: StateSnapshot, f: Seq<usize>) -> bool {
    let n = g.nodes.len();
    let stack = s.queue_or_stack@;
    let done = s.visited_order@;
    &&& done.len() <= f.len()
    &&& done == f.take(done.len() as int)
    &&& s.visited_flags@.len() == n
    &&& forall|v: usize| v < n ==> s.visited_flags@[v as int] == (done.contains(v) || stack.contains(v))
    &&& s.distances is None
    &&& s.negative_cycle == s.message is TopoCycle
    &&& match s.message {
        StepMessage::TopoDfsStart => s.current_line == 1 && s.current_node == 0 && stack.len() == 0 && done.len() == 0,
        StepMessage::TopoVisit { node } => s.current_line == 2 && s.current_node == node && stack == seq![node],
        StepMessage::TopoCycle { node, next } => {
            &&& s.current_line == 3
            &&& s.current_node == next
            &&& stack.len() > 0
            &&& stack.last() == node
            &&& stack.contains(next)
            &&& has_edge(g, node, next)
        },
        StepMessage::TopoDescend { node, next } => {
            &&& s.current_line == 4
            &&& s.current_node == next
            &&& stack.len() >= 2
            &&& stack.last() == next
            &&& stack[stack.len() - 2] == node
            &&& has_edge(g, node, next)
        },
        StepMessage::TopoFinish { node, finished } => {
            &&& s.current_line == 5
            &&& s.current_node == node
            &&& done.len() > 0
            &&& done.last() == node
            &&& finished@ == done
        },
        _ => false,
    }
}

/// Every snapshot in `snaps` is a snapshot of the search whose nodes finish in the order
/// `f` (or in any order that starts with `f`).
#[verifier::opaque]
pub open spec fn topo_snaps(g: GraphView, snaps: Seq<StateSnapshot>, f: Seq<usize>) -> bool {
    forall|i: int| 0 <= i < snaps.len() ==> #[trigger] topo_snap(g, snaps[i], f)
}

proof fn lemma_topo_snaps_push(g: GraphView, snaps: Seq<StateSnapshot>, f: Seq<usize>, s: StateSnapshot)
    requires
        topo_snaps(g, snaps, f),
        topo_snap(g, s, f),
    ensures
        topo_snaps(g, snaps.push(s), f),
{
    reveal(topo_snaps);
    assert forall|i: int| 0 <= i < snaps.push(s).len() implies #[trigger] topo_snap(g, snaps.push(s)[i], f) by {
        if i < snaps.len() {
            assert(snaps.push(s)[i] == snaps[i]);
        }
    }
}

proof fn lemma_topo_snaps_extend(g: GraphView, snaps: Seq<StateSnapshot>, f: Seq<usize>, f2: Seq<usize>)
    requires
        topo_snaps(g, snaps, f),
        f.len() <= f2.len(),
        f2.take(f.len() as int) == f,
    ensures
        topo_snaps(g, snaps, f2),
{
    reveal(topo_snaps);
    assert forall|i: int| 0 <= i < snaps.len() implies #[trigger] topo_snap(g, snaps[i], f2) by {
        let d = snaps[i].visited_order@.len() as int;
        assert(topo_snap(g, snaps[i], f));
        assert(f2.take(d) =~= f.take(d)) by {
            assert forall|x: int| 0 <= x < d implies f2.take(d)[x] == f.take(d)[x] by {
                assert(f2.take(f.len() as int)[x] == f2[x]);
            }
        }
    }
}

proof fn lemma_topo_snaps_all(g: GraphView, snaps: Seq<StateSnapshot>, f: Seq<usize>)
    requires
        topo_snaps(g, snaps, f),
    ensures
        forall|i: int| 0 <= i < snaps.len() ==> #[trigger] topo_snap(g, snaps[i], f),
{
    reveal(topo_snaps);
}

/// The targets of `u`'s edges from position `a` up to `b` are all finished nodes.
pub open spec fn skipped_finished(g: GraphView, u: usize, a: int, b: int, done: Seq<usize>) -> bool {
    forall|j: int| a <= j < b ==> done.contains(#[trigger] out_targets(g.edges, u)[j])
}

/// Snapshot `s`, whose search frames (node and next edge position) are `fs`, follows
/// snapshot `prev`, whose frames are `fp`: with no search under way, a search starts from
/// the first unmarked node; otherwise the top node's edges are examined from its next
/// position, passing those to finished nodes, until one leads onto the path (a cycle) or
/// to an unmarked node (a descent), or none is left (the top node finishes).
pub open spec fn topo_follows(
    g: GraphView,
    prev: StateSnapshot,
    s: StateSnapshot,
    fp: Seq<(usize, usize)>,
    fs: Seq<(usize, usize)>,
) -> bool {
    let done = prev.visited_order@;
    let u = fp.last().0;
    let j0 = fp.last().1 as int;
    let ts = out_targets(g.edges, u);
    match s.message {
        StepMessage::TopoVisit { node } => {
            &&& fp.len() == 0
            &&& fs == seq![(node, 0usize)]
            &&& node < prev.visited_flags@.len()
            &&& !prev.visited_flags@[node as int]
            &&& forall|v: int| 0 <= v < node ==> #[trigger] prev.visited_flags@[v]
        },
        StepMessage::TopoCycle { node, next } => {
            let js = fs.last().1 - 1;
            &&& fp.len() > 0
            &&& node == u
            &&& fs == fp.update(fp.len() - 1, (u, (js + 1) as usize))
            &&& j0 <= js < ts.len()
            &&& ts[js] == next
            &&& frame_nodes(fp).contains(next)
            &&& skipped_finished(g, u, j0, js, done)
        },
        StepMessage::TopoDescend { node, next } => {
            let js = fs[fp.len() - 1].1 - 1;
            &&& fp.len() > 0
            &&& node == u
            &&& fs == fp.update(fp.len() - 1, (u, (js + 1) as usize)).push((next, 0usize))
            &&& j0 <= js < ts.len()
            &&& ts[js] == next
            &&& next < prev.visited_flags@.len()
            &&& !prev.visited_flags@[next as int]
            &&& skipped_finished(g, u, j0, js, done)
        },
        StepMessage::TopoFinish { node, .. } => {
            &&& fp.len() > 0
            &&& node == u
            &&& fs == fp.drop_last()
            &&& j0 <= ts.len()
            &&& skipped_finished(g, u, j0, ts.len() as int, done)
        },
        _ => false,
    }
}

/// The snapshots so far of the depth-first topological sort, `frames[i]` the search
/// frames at snapshot `i`: the start with no search under way, then each snapshot
/// follows the one before and shows the nodes of its frames as its stack.
#[verifier::opaque]
pub open spec fn topo_progress(g: GraphView, snaps: Seq<StateSnapshot>, frames: Seq<Seq<(usize, usize)>>) -> bool {
    &&& frames.len() == snaps.len()
    &&& snaps.len() >= 1
    &&& frames[0].len() == 0
    &&& forall|i: int| 0 <= i < snaps.len() ==> #[trigger] snaps[i].queue_or_stack@ == frame_nodes(frames[i])
    &&& forall|i: int|
        1 <= i < snaps.len() ==> #[trigger] topo_follows(g, snaps[i - 1], snaps[i], frames[i - 1], frames[i])
}

/// The snapshots of the depth-first topological sort follow its steps in order, from the
/// start to the last node finishing with every node marked.
pub open spec fn topo_trace(g: GraphView, snaps: Seq<StateSnapshot>, frames: Seq<Seq<(usize, usize)>>) -> bool {
    &&& frames.len() == snaps.len()
    &&& snaps.len() >= 1
    &&& frames[0].len() == 0
    &&& forall|i: int| 0 <= i < snaps.len() ==> #[trigger] snaps[i].queue_or_stack@ == frame_nodes(frames[i])
    &&& forall|i: int|
        1 <= i < snaps.len() ==> #[trigger] topo_follows(g, snaps[i - 1], snaps[i], frames[i - 1], frames[i])
    &&& frames.last().len() == 0
    &&& forall|v: int| 0 <= v < g.nodes.len() ==> #[trigger] snaps.last().visited_flags@[v]
}

proof fn lemma_topo_progress_push(
    g: GraphView,
    snaps: Seq<StateSnapshot>,
    frames: Seq<Seq<(usize, usize)>>,
    s: StateSnapshot,
    f: Seq<(usize, usize)>,
)
    requires
        topo_progress(g, snaps, frames),
        s.queue_or_stack@ == frame_nodes(f),
        topo_follows(g, snaps.last(), s, frames.last(), f),
    ensures
        topo_progress(g, snaps.push(s), frames.push(f)),
{
    reveal(topo_progress);
    let s2 = snaps.push(s);
    let f2 = frames.push(f);
    let i0 = snaps.len() as int;
    assert(s2[i0] == s && f2[i0] == f);
    assert(s2[i0 - 1] == snaps.last() && f2[i0 - 1] == frames.last());
    assert forall|i: int| 0 <= i < s2.len() implies #[trigger] s2[i].queue_or_stack@ == frame_nodes(f2[i]) by {
        if i < i0 {
            assert(s2[i] == snaps[i] && f2[i] == frames[i]);
        }
    }
    assert forall|i: int| 1 <= i < s2.len() implies #[trigger] topo_follows(g, s2[i - 1], s2[i], f2[i - 1], f2[i]) by {
        if i < i0 {
            assert(s2[i] == snaps[i] && f2[i] == frames[i]);
            assert(s2[i - 1] == snaps[i - 1] && f2[i - 1] == frames[i - 1]);
        }
    }
}

proof fn lemma_topo_progress_start(g: GraphView, s: StateSnapshot)
    requires
        s.queue_or_stack@.len() == 0,
    ensures
        topo_progress(g, seq![s], seq![Seq::<(usize, usize)>::empty()]),
{
    reveal(topo_progress);
    assert(frame_nodes(Seq::<(usize, usize)>::empty()) =~= s.queue_or_stack@);
    assert(seq![s][0] == s);
}

proof fn lemma_topo_progress_trace(g: GraphView, snaps: Seq<StateSnapshot>, frames: Seq<Seq<(usize, usize)>>)
    requires
        topo_progress(g, snaps, frames),
        frames.last().len() == 0,
        forall|v: int| 0 <= v < g.nodes.len() ==> #[trigger] snaps.last().visited_flags@[v],
    ensures
        topo_trace(g, snaps, frames),
{
    reveal(topo_progress);
}

/// The search frames `cs` are the frames `lf` of the last snapshot, but for the top
/// frame's next edge position, moved on past edges to finished nodes.
#[verifier::opaque]
pub open spec fn frames_advanced(g: GraphView, lf: Seq<(usize, usize)>, cs: Seq<(usize, usize)>, done: Seq<usize>) -> bool {
    &&& cs.len() == lf.len()
    &&& forall|p: int| 0 <= p < cs.len() - 1 ==> #[trigger] cs[p] == lf[p]
    &&& cs.len() > 0 ==> {
        &&& cs.last().0 == lf.last().0
        &&& lf.last().1 <= cs.last().1
        &&& skipped_finished(g, lf.last().0, lf.last().1 as int, cs.last().1 as int, done)
    }
}

/// The state of the depth-first topological sort between two searches.
pub open spec fn topo_state(
    g: GraphView,
    f: Seq<usize>,
    visited: Seq<bool>,
    on_stack: Seq<bool>,
    has_cycle: bool,
    count: nat,
    snaps: Seq<StateSnapshot>,
) -> bool {
    &&& visited.len() == g.nodes.len()
    &&& on_stack.len() == g.nodes.len()
    &&& f.no_duplicates()
    &&& forall|i: int| 0 <= i < f.len() ==> #[trigger] f[i] < g.nodes.len()
    &&& forall|v: usize| v < g.nodes.len() ==> visited[v as int] == #[trigger] f.contains(v)
    &&& forall|v: usize| v < g.nodes.len() ==> !#[trigger] on_stack[v as int]
    &&& !has_cycle ==> finished_ok(g, f)
    &&& has_cycle ==> !is_dag_spec(g)
    &&& count == from_listed(g.edges, f)
    &&& has_cycle == reports_cycle(snaps)
}

proof fn lemma_from_listed_same(es: Seq<Edge>, a: Seq<usize>, b: Seq<usize>)
    requires
        forall|x: usize| #[trigger] a.contains(x) == b.contains(x),
    ensures
        from_listed(es, a) == from_listed(es, b),
    decreases es.len(),
{
    if es.len() > 0 {
        lemma_from_listed_same(es.drop_last(), a, b);
        assert(a.contains(es.last().from) == b.contains(es.last().from));
    }
}

fn frame_node_list(c: &Vec<(usize, usize)>) -> (r: Vec<usize>)
    ensures
        r@ == frame_nodes(c@),
{
    let mut r: Vec<usize> = Vec::new();
    let mut i: usize = 0;
    while i < c.len()
        invariant
            i <= c.len(),
            r@ == frame_nodes(c@.take(i as int)),
        decreases c.len() - i,
    {
        r.push(c[i].0);
        i = i + 1;
        assert(r@ =~= frame_nodes(c@.take(i as int)));
    }
    assert(c@.take(i as int) =~= c@);
    r
}

/// Each node below `n` is marked visited exactly when it is finished or on the stack.
pub open spec fn marks_agree(vis: Seq<bool>, r: Seq<usize>, f: Seq<usize>, n: int) -> bool {
    forall|v: usize| v < n ==> #[trigger] vis[v as int] == (r.contains(v) || f.contains(v))
}

/// One depth-first search from `start`, with an explicit stack of (node, next edge to
/// examine) frames. An edge that leads back onto the stack flags a cycle; an edge to an
/// unvisited node descends; a node whose edges are all examined is finished.
#[verifier::rlimit(60)]
fn dfs_topo_visit(
    graph: &Graph,
    start: usize,
    visited_flags: &mut Vec<bool>,
    on_stack: &mut Vec<bool>,
    result_stack: &mut Vec<usize>,
    snapshots: &mut Vec<StateSnapshot>,
    edge_traversal_count: &mut usize,
    has_cycle: &mut bool,
    fr: Ghost<Seq<Seq<(usize, usize)>>>,
) -> (out: Ghost<Seq<Seq<(usize, usize)>>>)
    requires
        topo_state(
            graph@,
            old(result_stack)@,
            old(visited_flags)@,
            old(on_stack)@,
            *old(has_cycle),
            *old(edge_traversal_count) as nat,
            old(snapshots)@,
        ),
        start < graph.nodes.len(),
        !old(visited_flags)@[start as int],
        targets_in_range(graph@),
        topo_snaps(graph@, old(snapshots)@, old(result_stack)@),
        topo_progress(graph@, old(snapshots)@, fr@),
        fr@.last().len() == 0,
        old(snapshots)@.last().visited_flags@ == old(visited_flags)@,
        old(snapshots)@.last().visited_order@ == old(result_stack)@,
        forall|v: int| 0 <= v < start ==> #[trigger] old(visited_flags)@[v],
    ensures
        topo_snaps(graph@, final(snapshots)@, final(result_stack)@),
        topo_progress(graph@, final(snapshots)@, out@),
        out@.last().len() == 0,
        final(snapshots)@.last().visited_flags@ == final(visited_flags)@,
        final(snapshots)@.last().visited_order@ == final(result_stack)@,
        topo_state(
            graph@,
            final(result_stack)@,
            final(visited_flags)@,
            final(on_stack)@,
            *final(has_cycle),
            *final(edge_traversal_count) as nat,
            final(snapshots)@,
        ),
        final(visited_flags)@[start as int],
        final(result_stack)@.len() >= old(result_stack)@.len(),
        final(result_stack)@.take(old(result_stack)@.len() as int) == old(result_stack)@,
        final(snapshots)@.len() > old(snapshots)@.len(),
        final(snapshots)@.take(old(snapshots)@.len() as int) == old(snapshots)@,
{
    let ghost g = graph@;
    let ghost es = graph@.edges;
    let ghost n = graph.nodes.len();
    let ghost f0 = result_stack@;
    let ghost s_in = snapshots@;
    let mut call_stack: Vec<(usize, usize)> = Vec::new();
    call_stack.push((start, 0));
    visited_flags.set(start, true);
    on_stack.set(start, true);
    proof {
        assert(frame_nodes(call_stack@) =~= seq![start]);
        assert(!f0.contains(start));
        assert(call_stack@ =~= seq![(start, 0usize)]);
        assert(rem_sum(es, call_stack@) == out_targets(es, start).len()) by {
            assert(call_stack@.drop_last() =~= Seq::<(usize, usize)>::empty());
            assert(rem_sum(es, Seq::<(usize, usize)>::empty()) == 0);
            assert(call_stack@.last() == (start, 0usize));
        }
        assert forall|i: int| 0 <= i < f0.push(start).len() implies #[trigger] f0.push(start)[i] < n by {
            if i < f0.len() {
                assert(f0.push(start)[i] == f0[i]);
            }
        }
        assert(f0.push(start).no_duplicates()) by {
            assert forall|a: int, b: int|
                0 <= a < f0.push(start).len() && 0 <= b < f0.push(start).len() && a != b implies f0.push(start)[a]
                != f0.push(start)[b] by {
                if a < f0.len() && b < f0.len() {
                    assert(f0[a] != f0[b]);
                } else if a < f0.len() {
                    assert(f0.contains(f0[a]));
                } else {
                    assert(f0.contains(f0[b]));
                }
            }
        }
        lemma_distinct_below(f0.push(start), n as usize);
        assert forall|v: usize| v < n implies #[trigger] visited_flags@[v as int] == (result_stack@.contains(v)
            || frame_nodes(call_stack@).contains(v)) && on_stack@[v as int]
            == frame_nodes(call_stack@).contains(v) by {
            if v == start {
                assert(frame_nodes(call_stack@)[0] == start);
            }
        }
        assert forall|v: usize| v < n implies on_stack@[v as int] == #[trigger] frame_nodes(call_stack@).contains(v) by {
            if v == start {
                assert(frame_nodes(call_stack@)[0] == start);
            }
        }
        lemma_from_listed_push(es, f0, start);
        lemma_out_targets_len(es, start);
        assert(f0 + frame_nodes(call_stack@) =~= f0.push(start));
    }
    snapshots.push(
        StateSnapshot {
            current_line: 2,
            current_node: start,
            queue_or_stack: frame_node_list(&call_stack),
            visited_order: copy_all(result_stack),
            visited_flags: copy_flags(visited_flags),
            distances: None,
            message: StepMessage::TopoVisit { node: start },
            negative_cycle: false,
        },
    );
    let ghost mut frames = fr@;
    proof {
        assert(result_stack@.take(result_stack@.len() as int) =~= result_stack@);
        assert(topo_snap(g, snapshots@.last(), result_stack@));
        lemma_topo_snaps_push(g, old(snapshots)@, result_stack@, snapshots@.last());
        assert(snapshots@ =~= old(snapshots)@.push(snapshots@.last()));
        assert(topo_follows(g, old(snapshots)@.last(), snapshots@.last(), frames.last(), call_stack@));
        lemma_topo_progress_push(g, old(snapshots)@, frames, snapshots@.last(), call_stack@);
        frames = frames.push(call_stack@);
        reveal(frames_advanced);
        assert(frames_advanced(g, frames.last(), call_stack@, result_stack@));
    }
    proof {
        let ghost sn = snapshots@;
        assert(reports_cycle(sn) == reports_cycle(old(snapshots)@)) by {
            if reports_cycle(old(snapshots)@) {
                let i = choose|i: int| 0 <= i < old(snapshots)@.len() && (#[trigger] old(snapshots)@[i]).negative_cycle;
                assert(sn[i] == old(snapshots)@[i]);
            }
        }
    }
    while call_stack.len() > 0
        invariant
            graph@ == g,
            es == g.edges,
            n == g.nodes.len(),
            targets_in_range(g),
            visited_flags.len() == n,
            on_stack.len() == n,
            result_stack@.no_duplicates(),
            forall|i: int| 0 <= i < result_stack.len() ==> #[trigger] result_stack@[i] < n,
            frame_nodes(call_stack@).no_duplicates(),
            forall|p: int| 0 <= p < call_stack.len() ==> #[trigger] call_stack@[p].0 < n,
            forall|x: usize| !(result_stack@.contains(x) && #[trigger] frame_nodes(call_stack@).contains(x)),
            marks_agree(visited_flags@, result_stack@, frame_nodes(call_stack@), n as int),
            forall|v: usize| v < n ==> on_stack@[v as int] == #[trigger] frame_nodes(call_stack@).contains(v),
            forall|p: int| 0 <= p < call_stack.len() ==> (#[trigger] call_stack@[p]).1 <= out_targets(es, call_stack@[p].0).len(),
            forall|p: int|
                0 <= p < call_stack.len() - 1 ==> (#[trigger] call_stack@[p]).1 >= 1 && out_targets(es, call_stack@[p].0)[call_stack@[p].1 - 1]
                    == call_stack@[p + 1].0,
            !*has_cycle ==> forall|p: int, j: int|
                0 <= p < call_stack.len() && 0 <= j < call_stack@[p].1 ==> result_stack@.contains(
                    #[trigger] out_targets(es, call_stack@[p].0)[j],
                ) || (p + 1 < call_stack.len() && j == call_stack@[p].1 - 1),
            !*has_cycle ==> finished_ok(g, result_stack@),
            *has_cycle ==> !is_dag_spec(g),
            *edge_traversal_count + rem_sum(es, call_stack@) == from_listed(es, result_stack@ + frame_nodes(call_stack@)),
            *has_cycle == reports_cycle(snapshots@),
            result_stack.len() >= f0.len(),
            result_stack@.take(f0.len() as int) == f0,
            start < n,
            visited_flags@[start as int],
            result_stack.len() + call_stack.len() <= n,
            es.len() == graph.edges.len(),
            snapshots.len() > s_in.len(),
            snapshots@.take(s_in.len() as int) == s_in,
            topo_snaps(g, snapshots@, result_stack@),
            topo_progress(g, snapshots@, frames),
            frames_advanced(g, frames.last(), call_stack@, result_stack@),
            snapshots@.last().visited_flags@ == visited_flags@,
            snapshots@.last().visited_order@ == result_stack@,
        decreases n - result_stack.len() - call_stack.len(), rem_sum(es, call_stack@) + call_stack.len(),
    {
        let top = call_stack.len() - 1;
        let (node, idx) = call_stack[top];
        let neighbors = out_targets_exec(graph, node);
        let ghost c0 = call_stack@;
        let ghost r0 = result_stack@;
        let ghost s0 = snapshots@;
        let ghost fn0 = frame_nodes(c0);
        let ghost vis0 = visited_flags@;
        assert(marks_agree(vis0, r0, fn0, n as int));
        proof {
            assert(fn0[top as int] == node);
            assert(c0.drop_last().push(c0.last()) =~= c0);
        }
        if idx < neighbors.len() {
            let next = neighbors[idx];
            proof {
                lemma_out_targets_edge(es, node, idx as int);
                lemma_from_listed_le(es, r0 + fn0);
                assert(rem_sum(es, c0) >= 1);
            }
            call_stack.set(top, (node, idx + 1));
            *edge_traversal_count = *edge_traversal_count + 1;
            proof {
                let c1 = call_stack@;
                assert(c1.drop_last() =~= c0.drop_last());
                assert(frame_nodes(c1) =~= fn0);
                assert(rem_sum(es, c1) + 1 == rem_sum(es, c0));
            }
            if on_stack[next] {
                proof {
                    assert(fn0.contains(next));
                    let k = choose|k: int| 0 <= k < fn0.len() && fn0[k] == next;
                    let path = fn0.subrange(k, fn0.len() as int);
                    assert(fn0.len() == c0.len());
                    assert forall|i: int| 0 <= i < path.len() - 1 implies has_edge(g, #[trigger] path[i], path[i + 1]) by {
                        let p = k + i;
                        assert(0 <= p < c0.len() - 1);
                        assert(c0[p].1 >= 1);
                        lemma_out_targets_edge(es, c0[p].0, c0[p].1 - 1);
                        assert(path[i] == c0[p].0);
                        assert(path[i + 1] == c0[p + 1].0);
                    }
                    assert(path.last() == node);
                    assert(path[0] == next);
                    assert forall|i: int| 0 <= i < path.len() implies #[trigger] path[i] < g.nodes.len() by {
                        assert(path[i] == c0[k + i].0);
                    }
                    lemma_cycle_not_dag(g, path);
                }
                *has_cycle = true;
                snapshots.push(
                    StateSnapshot {
                        current_line: 3,
                        current_node: next,
                        queue_or_stack: frame_node_list(&call_stack),
                        visited_order: copy_all(result_stack),
                        visited_flags: copy_flags(visited_flags),
                        distances: None,
                        message: StepMessage::TopoCycle { node, next },
                        negative_cycle: true,
                    },
                );
                proof {
                    assert(snapshots@[s0.len() as int].negative_cycle);
                    lemma_out_targets_edge(es, node, idx as int);
                    assert(has_edge(g, node, next));
                    assert(r0.take(r0.len() as int) =~= r0);
                    assert(frame_nodes(call_stack@) =~= fn0);
                    assert(fn0.contains(next));
                    assert(topo_snap(g, snapshots@.last(), result_stack@)) by {
                        assert forall|v: usize| v < n implies #[trigger] visited_flags@[v as int] == (r0.contains(v) || fn0.contains(v)) by {}
                    }
                    lemma_topo_snaps_push(g, s0, r0, snapshots@.last());
                    assert(snapshots@ =~= s0.push(snapshots@.last()));
                    let lf = frames.last();
                    let cs = call_stack@;
                    reveal(frames_advanced);
                    assert(cs =~= lf.update(lf.len() - 1, (node, (idx + 1) as usize)));
                    assert(frame_nodes(lf) =~= fn0);
                    assert(topo_follows(g, s0.last(), snapshots@.last(), lf, cs));
                    lemma_topo_progress_push(g, s0, frames, snapshots@.last(), cs);
                    frames = frames.push(cs);
                    assert(frames_advanced(g, frames.last(), call_stack@, result_stack@));
                }
            } else if !visited_flags[next] {
                proof {
                    assert(!fn0.contains(next));
                    assert(!r0.contains(next));
                }
                visited_flags.set(next, true);
                on_stack.set(next, true);
                let ghost c1 = call_stack@;
                call_stack.push((next, 0));
                proof {
                    let c2 = call_stack@;
                    assert(frame_nodes(c2) =~= fn0.push(next));
                    assert(c2.drop_last() =~= c1);
                    assert(rem_sum(es, c2) == rem_sum(es, c1) + out_targets(es, next).len());
                    lemma_out_targets_len(es, next);
                    assert(!(r0 + fn0).contains(next)) by {
                        if (r0 + fn0).contains(next) {
                            let i = choose|i: int| 0 <= i < (r0 + fn0).len() && (r0 + fn0)[i] == next;
                            if i < r0.len() {
                                assert(r0[i] == next);
                            } else {
                                assert(fn0[i - r0.len()] == next);
                            }
                        }
                    }
                    lemma_from_listed_push(es, r0 + fn0, next);
                    assert((r0 + fn0).push(next) =~= r0 + frame_nodes(c2));
                    assert(frame_nodes(c2).no_duplicates()) by {
                        assert forall|a: int, b: int|
                            0 <= a < frame_nodes(c2).len() && 0 <= b < frame_nodes(c2).len() && a != b implies frame_nodes(c2)[a]
                            != frame_nodes(c2)[b] by {
                            if a < fn0.len() && b < fn0.len() {
                                assert(fn0[a] != fn0[b]);
                            } else if a < fn0.len() {
                                assert(fn0.contains(fn0[a]));
                            } else {
                                assert(fn0.contains(fn0[b]));
                            }
                        }
                    }
                    assert forall|x: usize| #[trigger] frame_nodes(c2).contains(x) == (fn0.contains(x) || x == next) by {
                        if frame_nodes(c2).contains(x) {
                            let i = choose|i: int| 0 <= i < frame_nodes(c2).len() && frame_nodes(c2)[i] == x;
                            if i < fn0.len() {
                                assert(fn0[i] == x);
                            }
                        }
                        if fn0.contains(x) {
                            let i = choose|i: int| 0 <= i < fn0.len() && fn0[i] == x;
                            assert(frame_nodes(c2)[i] == x);
                        }
                        if x == next {
                            assert(frame_nodes(c2)[fn0.len() as int] == x);
                        }
                    }
                    // The stack and the finished list are disjoint lists of nodes.
                    let all = r0 + frame_nodes(c2);
                    assert(all.no_duplicates()) by {
                        assert forall|a: int, b: int| 0 <= a < all.len() && 0 <= b < all.len() && a != b implies all[a] != all[b] by {
                            if a < r0.len() && b < r0.len() {
                                assert(r0[a] != r0[b]);
                            } else if a >= r0.len() && b >= r0.len() {
                                assert(frame_nodes(c2)[a - r0.len()] != frame_nodes(c2)[b - r0.len()]);
                            } else if a < r0.len() {
                                assert(r0.contains(r0[a]));
                                assert(frame_nodes(c2).contains(frame_nodes(c2)[b - r0.len()]));
                            } else {
                                assert(r0.contains(r0[b]));
                                assert(frame_nodes(c2).contains(frame_nodes(c2)[a - r0.len()]));
                            }
                        }
                    }
                    assert forall|i: int| 0 <= i < all.len() implies #[trigger] all[i] < n by {
                        if i < r0.len() {
                            assert(all[i] == r0[i]);
                        } else {
                            assert(all[i] == frame_nodes(c2)[i - r0.len()]);
                            assert(frame_nodes(c2)[i - r0.len()] == c2[i - r0.len()].0);
                        }
                    }
                    lemma_distinct_below(all, n as usize);
                }
                snapshots.push(
                    StateSnapshot {
                        current_line: 4,
                        current_node: next,
                        queue_or_stack: frame_node_list(&call_stack),
                        visited_order: copy_all(result_stack),
                        visited_flags: copy_flags(visited_flags),
                        distances: None,
                        message: StepMessage::TopoDescend { node, next },
                        negative_cycle: false,
                    },
                );
                proof {
                    lemma_snapshot_push(s0, snapshots@);
                    lemma_out_targets_edge(es, node, idx as int);
                    assert(has_edge(g, node, next));
                    assert(r0.take(r0.len() as int) =~= r0);
                    let st = frame_nodes(call_stack@);
                    assert(st =~= fn0.push(next));
                    assert(st[st.len() - 2] == node);
                    assert(topo_snap(g, snapshots@.last(), result_stack@)) by {
                        assert forall|v: usize| v < n implies #[trigger] visited_flags@[v as int] == (r0.contains(v) || st.contains(v)) by {
                            assert(vis0[v as int] == (r0.contains(v) || fn0.contains(v)));
                            assert(st.contains(v) == (fn0.contains(v) || v == next));
                            if v != next {
                                assert(visited_flags@[v as int] == vis0[v as int]);
                            }
                        }
                    }
                    lemma_topo_snaps_push(g, s0, r0, snapshots@.last());
                    assert(snapshots@ =~= s0.push(snapshots@.last()));
                    let lf = frames.last();
                    let cs = call_stack@;
                    reveal(frames_advanced);
                    assert(cs =~= lf.update(lf.len() - 1, (node, (idx + 1) as usize)).push((next, 0usize)));
                    assert(cs[lf.len() - 1] == (node, (idx + 1) as usize));
                    assert(topo_follows(g, s0.last(), snapshots@.last(), lf, cs));
                    lemma_topo_progress_push(g, s0, frames, snapshots@.last(), cs);
                    frames = frames.push(cs);
                    assert(frames_advanced(g, frames.last(), call_stack@, result_stack@));
                }
            } else {
                proof {
                    assert(!fn0.contains(next));
                    assert(r0.contains(next));
                    let lf = frames.last();
                    reveal(frames_advanced);
                    assert forall|j: int| lf.last().1 <= j < idx + 1 implies r0.contains(#[trigger] out_targets(g.edges, node)[j]) by {
                        if j < idx {
                            assert(skipped_finished(g, lf.last().0, lf.last().1 as int, idx as int, r0));
                        }
                    }
                    assert(frames_advanced(g, lf, call_stack@, result_stack@));
                }
            }
            proof {
                assert forall|v: usize| v < n implies #[trigger] visited_flags@[v as int] == (result_stack@.contains(v)
                    || frame_nodes(call_stack@).contains(v)) by {
                    assert(vis0[v as int] == (r0.contains(v) || fn0.contains(v)));
                    assert(frame_nodes(call_stack@).contains(v) == (fn0.contains(v) || (v == next
                        && call_stack.len() > c0.len())));
                    assert(result_stack@ == r0);
                    if v != next {
                        assert(visited_flags@[v as int] == vis0[v as int]);
                    }
                }
            }
        } else {
            call_stack.pop();
            on_stack.set(node, false);
            result_stack.push(node);
            proof {
                let c1 = call_stack@;
                assert(c1 =~= c0.drop_last());
                assert(frame_nodes(c1) =~= fn0.drop_last());
                assert(fn0.contains(node));
                assert(!r0.contains(node));
                assert(result_stack@.drop_last() =~= r0);
                assert(result_stack@.no_duplicates()) by {
                    assert forall|a: int, b: int|
                        0 <= a < result_stack.len() && 0 <= b < result_stack.len() && a != b implies result_stack@[a]
                        != result_stack@[b] by {
                        if a < r0.len() && b < r0.len() {
                            assert(r0[a] != r0[b]);
                        } else if a < r0.len() {
                            assert(r0.contains(r0[a]));
                        } else {
                            assert(r0.contains(r0[b]));
                        }
                    }
                }
                assert forall|x: usize| #[trigger] frame_nodes(c1).contains(x) == (fn0.contains(x) && x != node) by {
                    if frame_nodes(c1).contains(x) {
                        let i = choose|i: int| 0 <= i < frame_nodes(c1).len() && frame_nodes(c1)[i] == x;
                        assert(fn0[i] == x);
                        assert(fn0[i] != fn0[top as int]);
                    }
                    if fn0.contains(x) && x != node {
                        let i = choose|i: int| 0 <= i < fn0.len() && fn0[i] == x;
                        assert(i != top);
                        assert(frame_nodes(c1)[i] == x);
                    }
                }
                assert forall|x: usize| #[trigger] result_stack@.contains(x) == (r0.contains(x) || x == node) by {
                    if result_stack@.contains(x) {
                        let i = choose|i: int| 0 <= i < result_stack.len() && result_stack@[i] == x;
                        if i < r0.len() {
                            assert(r0[i] == x);
                        }
                    }
                    if r0.contains(x) {
                        let i = choose|i: int| 0 <= i < r0.len() && r0[i] == x;
                        assert(result_stack@[i] == x);
                    }
                    if x == node {
                        assert(result_stack@[r0.len() as int] == x);
                    }
                }
                assert(rem_sum(es, c0) == rem_sum(es, c1));
                assert forall|x: usize| #[trigger] (r0 + fn0).contains(x) == (result_stack@ + frame_nodes(c1)).contains(x) by {
                    lemma_concat_contains(r0, fn0, x);
                    lemma_concat_contains(result_stack@, frame_nodes(c1), x);
                }
                lemma_from_listed_same(es, r0 + fn0, result_stack@ + frame_nodes(c1));
                if !*has_cycle {
                    assert forall|k: int| 0 <= k < out_targets(g.edges, node).len() implies r0.contains(
                        #[trigger] out_targets(g.edges, node)[k],
                    ) by {
                        assert(c0[top as int].1 == idx);
                        assert(out_targets(es, c0[top as int].0)[k] == out_targets(g.edges, node)[k]);
                    }
                    lemma_finished_push(g, r0, node);
                    assert forall|p: int, j: int|
                        0 <= p < c1.len() && 0 <= j < c1[p].1 implies result_stack@.contains(
                            #[trigger] out_targets(es, c1[p].0)[j],
                        ) || (p + 1 < c1.len() && j == c1[p].1 - 1) by {
                        assert(c1[p] == c0[p]);
                        if p + 1 == c1.len() && j == c1[p].1 - 1 {
                            assert(out_targets(es, c0[p].0)[c0[p].1 - 1] == c0[p + 1].0);
                            assert(c0[p + 1].0 == node);
                        }
                    }
                }
            }
            proof {
                let c1 = call_stack@;
                assert forall|v: usize| v < n implies #[trigger] visited_flags@[v as int] == (result_stack@.contains(v)
                    || frame_nodes(call_stack@).contains(v)) && on_stack@[v as int]
                    == frame_nodes(call_stack@).contains(v) by {
                    assert(vis0[v as int] == (r0.contains(v) || fn0.contains(v)));
                    assert(visited_flags@[v as int] == vis0[v as int]);
                    assert(frame_nodes(c1).contains(v) == (fn0.contains(v) && v != node));
                    assert(result_stack@.contains(v) == (r0.contains(v) || v == node));
                }
            }
            snapshots.push(
                StateSnapshot {
                    current_line: 5,
                    current_node: node,
                    queue_or_stack: frame_node_list(&call_stack),
                    visited_order: copy_all(result_stack),
                    visited_flags: copy_flags(visited_flags),
                    distances: None,
                    message: StepMessage::TopoFinish { node, finished: copy_all(result_stack) },
                    negative_cycle: false,
                },
            );
            proof {
                lemma_snapshot_push(s0, snapshots@);
                assert(result_stack@ == r0.push(node));
                assert(result_stack@.take(r0.len() as int) =~= r0);
                lemma_topo_snaps_extend(g, s0, r0, result_stack@);
                assert(result_stack@.take(result_stack@.len() as int) =~= result_stack@);
                assert(topo_snap(g, snapshots@.last(), result_stack@));
                lemma_topo_snaps_push(g, s0, result_stack@, snapshots@.last());
                assert(snapshots@ =~= s0.push(snapshots@.last()));
                let lf = frames.last();
                let cs = call_stack@;
                reveal(frames_advanced);
                assert(idx == out_targets(es, node).len());
                assert(cs =~= lf.drop_last());
                assert(topo_follows(g, s0.last(), snapshots@.last(), lf, cs));
                lemma_topo_progress_push(g, s0, frames, snapshots@.last(), cs);
                frames = frames.push(cs);
                assert(frames_advanced(g, frames.last(), call_stack@, result_stack@));
            }
        }
    }
    proof {
        assert(frame_nodes(call_stack@) =~= seq![]);
        assert(result_stack@ + frame_nodes(call_stack@) =~= result_stack@);
        assert(call_stack@ =~= Seq::<(usize, usize)>::empty());
        assert(rem_sum(es, call_stack@) == 0);
        assert forall|v: usize| v < n implies visited_flags@[v as int] == #[trigger] result_stack@.contains(v)
            && !on_stack@[v as int] by {
            assert(!frame_nodes(call_stack@).contains(v));
            assert(visited_flags@[v as int] == (result_stack@.contains(v) || frame_nodes(call_stack@).contains(v)));
        }
        assert forall|v: usize| v < n implies !#[trigger] on_stack@[v as int] by {
            assert(!frame_nodes(call_stack@).contains(v));
        }
        assert(*edge_traversal_count == from_listed(es, result_stack@));
        assert(!*has_cycle ==> finished_ok(g, result_stack@));
        assert(result_stack@.no_duplicates());
        reveal(frames_advanced);
        assert(frames.last().len() == 0);
    }
    Ghost(frames)
}

/// When every node is finished after its out-neighbours, the finishing order read
/// backwards is a topological order.
proof fn lemma_reverse_finished(g: GraphView, f: Seq<usize>)
    requires
        finished_ok(g, f),
        f.no_duplicates(),
        f.len() == g.nodes.len(),
        forall|i: int| 0 <= i < f.len() ==> #[trigger] f[i] < g.nodes.len(),
        forall|v: usize| v < g.nodes.len() ==> #[trigger] f.contains(v),
        crate::graph::edges_in_range(g),
    ensures
        is_topological_order(g, f.reverse()),
{
    let r = f.reverse();
    let m = f.len() as int;
    assert forall|i: int| 0 <= i < r.len() implies #[trigger] r[i] < g.nodes.len() by {
        assert(r[i] == f[m - 1 - i]);
    }
    assert forall|v: usize| v < g.nodes.len() implies #[trigger] r.contains(v) by {
        assert(f.contains(v));
        let i = choose|i: int| 0 <= i < m && f[i] == v;
        assert(r[m - 1 - i] == f[i]);
    }
    assert(r.no_duplicates()) by {
        assert forall|a: int, b: int| 0 <= a < r.len() && 0 <= b < r.len() && a != b implies r[a] != r[b] by {
            assert(r[a] == f[m - 1 - a]);
            assert(r[b] == f[m - 1 - b]);
        }
    }
    assert forall|j: int, t: int|
        #![trigger g.edges[t], r[j]]
        0 <= j < r.len() && 0 <= t < g.edges.len() && g.edges[t].to == r[j] implies exists|i: int|
            0 <= i < j && #[trigger] r[i] == g.edges[t].from by {
        let u = g.edges[t].from;
        assert(u < g.nodes.len());
        assert(f.contains(u));
        let p = choose|p: int| 0 <= p < m && f[p] == u;
        lemma_edge_out_targets(g.edges, u, t);
        let k = choose|k: int| 0 <= k < out_targets(g.edges, u).len() && #[trigger] out_targets(g.edges, u)[k] == g.edges[t].to;
        assert(out_targets(g.edges, f[p])[k] == g.edges[t].to);
        assert(listed_before(f, p, out_targets(g.edges, f[p])[k]));
        let i2 = choose|i2: int| 0 <= i2 < p && #[trigger] f[i2] == out_targets(g.edges, f[p])[k];
        assert(r[j] == f[m - 1 - j]);
        assert(i2 == m - 1 - j);
        assert(r[m - 1 - p] == f[p]);
    }
}

/// Topological sort by depth-first search: each unvisited node in turn starts a
/// search, nodes are listed as they finish, and the list read backwards is the result.
///
/// The order lists every node once. A snapshot flags a cycle only when the graph has
/// one; when every edge joins two nodes, a cycle is flagged exactly when the graph is
/// not a DAG, and otherwise the order is a topological order. The count of examined
/// edges is the number of edges leaving a node. Every snapshot shows the nodes finished
/// so far, the path of the search and the marks, and records one step (`topo_snap`);
/// the snapshots follow the steps in order (`topo_trace`): searches start from the
/// unmarked nodes in increasing order, and each examines the top node's edges in
/// edge-list order.
pub fn run_dfs_based(graph: &Graph, _start: usize) -> (r: AlgorithmResult)
    requires
        targets_in_range(graph@),
    ensures
        r.kind == AlgorithmKind::TopologicalSort,
        graph.nodes.len() == 0 ==> r.visit_order.len() == 0 && r.snapshots.len() == 0
            && r.edge_traversal_count == 0,
        graph.nodes.len() > 0 ==> r.snapshots.len() >= 2 && r.snapshots@[0].message == StepMessage::TopoDfsStart,
        graph.nodes.len() > 0 ==> r.visit_order.len() == graph.nodes.len(),
        r.visit_order@.no_duplicates(),
        forall|i: int| 0 <= i < r.visit_order.len() ==> #[trigger] r.visit_order@[i] < graph.nodes.len(),
        reports_cycle(r.snapshots@) ==> !is_dag_spec(graph@),
        crate::graph::edges_in_range(graph@) ==> (reports_cycle(r.snapshots@) <==> !is_dag_spec(graph@)),
        crate::graph::edges_in_range(graph@) && !reports_cycle(r.snapshots@) ==> is_topological_order(
            graph@,
            r.visit_order@,
        ),
        r.edge_traversal_count == from_listed(graph@.edges, r.visit_order@),
        forall|i: int| 0 <= i < r.snapshots.len() ==> #[trigger] topo_snap(graph@, r.snapshots@[i], r.visit_order@.reverse()),
        graph.nodes.len() > 0 ==> exists|frames: Seq<Seq<(usize, usize)>>| topo_trace(graph@, r.snapshots@, frames),
{
    let n = graph.nodes.len();
    if n == 0 {
        let r = AlgorithmResult::empty(AlgorithmKind::TopologicalSort);
        proof {
            lemma_from_listed_empty(graph@.edges);
            assert(r.visit_order@ =~= seq![]);
            assert(!reports_cycle(r.snapshots@));
            assert(is_topological_order(graph@, r.visit_order@));
        }
        return r;
    }
    let ghost g = graph@;
    let mut snapshots: Vec<StateSnapshot> = Vec::new();
    let mut visited_flags = all_false(n);
    let mut on_stack = all_false(n);
    let mut result_stack: Vec<usize> = Vec::new();
    let mut edge_traversal_count: usize = 0;
    let mut has_cycle = false;
    snapshots.push(
        StateSnapshot {
            current_line: 1,
            current_node: 0,
            queue_or_stack: Vec::new(),
            visited_order: Vec::new(),
            visited_flags: copy_flags(&visited_flags),
            distances: None,
            message: StepMessage::TopoDfsStart,
            negative_cycle: false,
        },
    );
    proof {
        lemma_from_listed_empty(graph@.edges);
        assert(result_stack@ =~= seq![]);
        assert(!reports_cycle(snapshots@));
        assert forall|v: usize| v < n implies visited_flags@[v as int] == #[trigger] result_stack@.contains(v) by {}
        assert(snapshots@[0].visited_order@ =~= result_stack@.take(0));
        assert(topo_snap(g, snapshots@[0], result_stack@)) by {
            assert forall|v: usize| v < n implies snapshots@[0].visited_flags@[v as int] == (
            snapshots@[0].visited_order@.contains(v) || snapshots@[0].queue_or_stack@.contains(v)) by {
                assert(!visited_flags@[v as int]);
            }
        }
        reveal(topo_snaps);
        assert(topo_snaps(g, snapshots@, result_stack@));
    }
    let ghost mut frames: Seq<Seq<(usize, usize)>> = seq![Seq::<(usize, usize)>::empty()];
    proof {
        lemma_topo_progress_start(g, snapshots@[0]);
        assert(snapshots@ =~= seq![snapshots@[0]]);
    }
    let mut k: usize = 0;
    while k < n
        invariant
            graph@ == g,
            n == g.nodes.len(),
            n > 0,
            k <= n,
            targets_in_range(g),
            topo_state(
                g,
                result_stack@,
                visited_flags@,
                on_stack@,
                has_cycle,
                edge_traversal_count as nat,
                snapshots@,
            ),
            forall|v: usize| v < k ==> #[trigger] visited_flags@[v as int],
            snapshots.len() >= 1,
            snapshots@[0].message == StepMessage::TopoDfsStart,
            k > 0 ==> snapshots.len() >= 2,
            k == 0 ==> result_stack.len() == 0,
            topo_snaps(g, snapshots@, result_stack@),
            topo_progress(g, snapshots@, frames),
            frames.last().len() == 0,
            snapshots@.last().visited_flags@ == visited_flags@,
            snapshots@.last().visited_order@ == result_stack@,
        decreases n - k,
    {
        proof {
            if k == 0 {
                assert(!result_stack@.contains(0));
            }
        }
        if !visited_flags[k] {
            let ghost f0 = result_stack@;
            let ghost v0 = visited_flags@;
            let ghost s0 = snapshots@;
            let more = dfs_topo_visit(
                graph,
                k,
                &mut visited_flags,
                &mut on_stack,
                &mut result_stack,
                &mut snapshots,
                &mut edge_traversal_count,
                &mut has_cycle,
                Ghost(frames),
            );
            proof {
                frames = more@;
            }
            proof {
                assert(snapshots@[0] == snapshots@.take(s0.len() as int)[0]);
                assert forall|v: usize| v < k + 1 implies #[trigger] visited_flags@[v as int] by {
                    if v < k {
                        assert(v0[v as int]);
                        assert(f0.contains(v));
                        let i = choose|i: int| 0 <= i < f0.len() && f0[i] == v;
                        assert(result_stack@.take(f0.len() as int)[i] == v);
                        assert(result_stack@[i] == v);
                        assert(result_stack@.contains(v));
                    }
                }
            }
        }
        k = k + 1;
    }
    let ghost f = result_stack@;
    proof {
        assert forall|v: usize| v < n implies #[trigger] f.contains(v) by {
            assert(visited_flags@[v as int]);
        }
        lemma_covers_below(f, n);
    }
    let mut order: Vec<usize> = Vec::new();
    let mut i: usize = 0;
    while i < result_stack.len()
        invariant
            result_stack@ == f,
            i <= f.len(),
            order@ == f.reverse().take(i as int),
        decreases f.len() - i,
    {
        order.push(result_stack[result_stack.len() - 1 - i]);
        i = i + 1;
        proof {
            assert(order@ =~= f.reverse().take(i as int));
        }
    }
    proof {
        assert(order@ =~= f.reverse());
        let r = f.reverse();
        let m = f.len() as int;
        assert forall|i: int| 0 <= i < r.len() implies #[trigger] r[i] < n by {
            assert(r[i] == f[m - 1 - i]);
        }
        assert(r.no_duplicates()) by {
            assert forall|a: int, b: int| 0 <= a < r.len() && 0 <= b < r.len() && a != b implies r[a] != r[b] by {
                assert(r[a] == f[m - 1 - a]);
                assert(r[b] == f[m - 1 - b]);
            }
        }
        assert forall|x: usize| #[trigger] f.contains(x) == r.contains(x) by {
            if f.contains(x) {
                let i = choose|i: int| 0 <= i < m && f[i] == x;
                assert(r[m - 1 - i] == x);
            }
            if r.contains(x) {
                let i = choose|i: int| 0 <= i < m && r[i] == x;
                assert(f[m - 1 - i] == x);
            }
        }
        lemma_from_listed_same(g.edges, f, r);
        if crate::graph::edges_in_range(g) && !has_cycle {
            lemma_reverse_finished(g, f);
            assert(is_dag_spec(g));
        }

    }
    proof {
        assert(order@.reverse() =~= f);
        lemma_topo_snaps_all(g, snapshots@, f);
        lemma_topo_progress_trace(g, snapshots@, frames);
    }
    AlgorithmResult {
        kind: AlgorithmKind::TopologicalSort,
        snapshots,
        visit_order: order,
        edge_traversal_count,
    }
}

/// Topological sort; the default method is Kahn's algorithm.
pub fn run(graph: &Graph, start: usize) -> (r: AlgorithmResult)
    ensures
        r.kind == AlgorithmKind::TopologicalSort,
        graph.nodes.len() == 0 ==> r.visit_order.len() == 0 && r.snapshots.len() == 0,
        r.visit_order@.no_duplicates(),
        forall|i: int| 0 <= i < r.visit_order.len() ==> #[trigger] r.visit_order@[i] < graph.nodes.len(),
        sources_first(graph@, r.visit_order@),
        graph.nodes.len() > 0 ==> (r.visit_order.len() == graph.nodes.len()) == is_dag_spec(graph@),
        r.visit_order.len() == graph.nodes.len() ==> is_topological_order(graph@, r.visit_order@),
        graph.nodes.len() > 0 ==> r.snapshots.len() >= 2 && r.snapshots@.last().negative_cycle
            == !is_dag_spec(graph@),
        r.edge_traversal_count == from_listed(graph@.edges, r.visit_order@),
        exists|ns: int, keys: Seq<(int, int)>| kahn_ordered(graph@, r.visit_order@, ns, keys),
        graph.nodes.len() > 0 ==> exists|ns: int, keys: Seq<(int, int)>, tdes: Seq<(int, int, int)>|
            kahn_ordered(graph@, r.visit_order@, ns, keys) && kahn_trace(
                graph@,
                r.snapshots@,
                r.visit_order@,
                keys,
                ns,
                graph.nodes.len() as int,
                tdes,
            ),
        forall|v: usize|
            v < graph.nodes.len() && pending_in(graph@.edges, v, r.visit_order@) == 0 ==> #[trigger] r.visit_order@.contains(v),
{
    run_kahn(graph, start)
}

/// The lines of Kahn's algorithm shown beside the animation; snapshot lines refer to them.
pub fn kahn_pseudocode() -> (r: Vec<&'static str>)
    ensures
        r@.len() == 5,
        r@[0]@ == "1: in_degree[] 계산; 진입차수=0 노드 → queue"@,
        r@[1]@ == "2: node = queue.pop(); result.append(node)"@,
        r@[2]@ == "3: for neighbor in adj[node]: in_degree[neighbor] -= 1"@,
        r@[3]@ == "4: if in_degree[neighbor] == 0: queue.push(neighbor)"@,
        r@[4]@ == "5: if len(result) < V: 사이클 존재"@,
{
    vec![
        "1: in_degree[] 계산; 진입차수=0 노드 → queue",
        "2: node = queue.pop(); result.append(node)",
        "3: for neighbor in adj[node]: in_degree[neighbor] -= 1",
        "4: if in_degree[neighbor] == 0: queue.push(neighbor)",
        "5: if len(result) < V: 사이클 존재",
    ]
}

/// The lines of the depth-first topological sort shown beside the animation.
pub fn dfs_pseudocode() -> (r: Vec<&'static str>)
    ensures
        r@.len() == 5,
        r@[0]@ == "1: for node in V: if not visited: dfs(node)"@,
        r@[1]@ == "2: visited[node] = true; on_stack[node] = true"@,
        r@[2]@ == "3: if neighbor on_stack: 사이클 감지"@,
        r@[3]@ == "4: if not visited: dfs(neighbor)"@,
        r@[4]@ == "5: on_stack[node] = false; result_stack.push(node)"@,
{
    vec![
        "1: for node in V: if not visited: dfs(node)",
        "2: visited[node] = true; on_stack[node] = true",
        "3: if neighbor on_stack: 사이클 감지",
        "4: if not visited: dfs(neighbor)",
        "5: on_stack[node] = false; result_stack.push(node)",
    ]
}

proof fn lemma_concat_contains(a: Seq<usize>, b: Seq<usize>, x: usize)
    ensures
        (a + b).contains(x) == (a.contains(x) || b.contains(x)),
{
    if (a + b).contains(x) {
        let i = choose|i: int| 0 <= i < (a + b).len() && (a + b)[i] == x;
        if i < a.len() {
            assert(a[i] == x);
        } else {
            assert(b[i - a.len()] == x);
        }
    }
    if a.contains(x) {
        let i = choose|i: int| 0 <= i < a.len() && a[i] == x;
        assert((a + b)[i] == x);
    }
    if b.contains(x) {
        let i = choose|i: int| 0 <= i < b.len() && b[i] == x;
        assert((a + b)[a.len() + i] == x);
    }
}

proof fn lemma_snapshot_push(old_snaps: Seq<StateSnapshot>, new_snaps: Seq<StateSnapshot>)
    requires
        new_snaps.len() == old_snaps.len() + 1,
        forall|i: int| 0 <= i < old_snaps.len() ==> new_snaps[i] == old_snaps[i],
        !new_snaps.last().negative_cycle,
    ensures
        reports_cycle(new_snaps) == reports_cycle(old_snaps),
{
    if reports_cycle(old_snaps) {
        let i = choose|i: int| 0 <= i < old_snaps.len() && (#[trigger] old_snaps[i]).negative_cycle;
        assert(new_snaps[i] == old_snaps[i]);
    }
    if reports_cycle(new_snaps) {
        let i = choose|i: int| 0 <= i < new_snaps.len() && (#[trigger] new_snaps[i]).negative_cycle;
        assert(i < old_snaps.len());
        assert(new_snaps[i] == old_snaps[i]);
    }
}

} // verus!
