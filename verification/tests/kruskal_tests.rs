use algo_caster::algorithm::kruskal::{reaches_only_nodes, run, sorted_candidates, weight_order_key};
use algo_caster::algorithm::state::{AlgorithmKind, StepMessage};
use algo_caster::graph::Graph;

fn w(x: f64) -> u64 {
    x.to_bits()
}

fn square() -> Graph {
    let mut g = Graph::new();
    for l in ["A", "B", "C", "D"] {
        g.add_node(0, 0, l.into());
    }
    g.add_edge(0, 1, w(4.0));
    g.add_edge(1, 2, w(1.0));
    g.add_edge(2, 3, w(3.0));
    g.add_edge(0, 3, w(2.0));
    g.add_edge(0, 2, w(5.0));
    g
}

#[test]
fn weight_key_follows_total_cmp() {
    let xs = [
        f64::NEG_INFINITY,
        -2.5,
        -1.0,
        -f64::MIN_POSITIVE,
        -0.0,
        0.0,
        f64::MIN_POSITIVE,
        1e-300,
        1.0,
        3.0,
        f64::INFINITY,
        f64::NAN,
    ];
    for a in xs {
        for b in xs {
            let by_key = weight_order_key(a.to_bits()).cmp(&weight_order_key(b.to_bits()));
            assert_eq!(by_key, a.total_cmp(&b));
        }
    }
}

#[test]
fn candidates_are_sorted_stably() {
    let mut g = Graph::new();
    for l in ["A", "B", "C"] {
        g.add_node(0, 0, l.into());
    }
    g.add_edge(0, 1, w(2.0));
    g.add_edge(2, 1, w(1.0));
    g.add_edge(1, 2, w(2.0));
    g.add_edge(0, 2, w(-1.0));
    let c = sorted_candidates(&g);
    assert_eq!(c, vec![(w(-1.0), 0, 2), (w(1.0), 2, 1), (w(2.0), 0, 1), (w(2.0), 1, 2)]);
    g.is_directed = true;
    let c = sorted_candidates(&g);
    assert_eq!(c, vec![(w(-1.0), 0, 2), (w(1.0), 2, 1), (w(2.0), 0, 1), (w(2.0), 1, 2)]);
}

#[test]
fn kruskal_stops_when_the_tree_is_complete() {
    let g = square();
    let r = run(&g, 0);
    assert_eq!(r.kind, AlgorithmKind::Kruskal);
    assert_eq!(r.edge_traversal_count, 3);
    assert_eq!(r.visit_order, vec![1, 2, 0, 3]);
    assert_eq!(r.snapshots.len(), 5);
    assert!(matches!(r.snapshots[0].message, StepMessage::KruskalSorted { count: 5 }));
    assert!(matches!(r.snapshots[1].message, StepMessage::KruskalAdd { from: 1, to: 2, added: 1, .. }));
    assert!(matches!(r.snapshots[3].message, StepMessage::KruskalAdd { from: 2, to: 3, added: 3, .. }));
    assert!(matches!(r.snapshots[4].message, StepMessage::KruskalDone { added: 3 }));
    assert_eq!(r.snapshots[4].current_line, 3);
}

#[test]
fn kruskal_skips_edges_inside_a_tree() {
    let mut g = Graph::new();
    for l in ["A", "B", "C", "D"] {
        g.add_node(0, 0, l.into());
    }
    g.add_edge(0, 1, w(1.0));
    g.add_edge(1, 0, w(0.5));
    g.add_edge(0, 1, w(2.0));
    let r = run(&g, 2);
    // Every edge is a candidate: 1->0 joins first, the two 0->1 edges are skipped.
    assert_eq!(r.edge_traversal_count, 3);
    assert!(matches!(r.snapshots[1].message, StepMessage::KruskalAdd { from: 1, to: 0, added: 1, .. }));
    assert_eq!(r.snapshots[2].current_line, 2);
    assert!(matches!(r.snapshots[2].message, StepMessage::KruskalSkip { from: 0, to: 1, .. }));
    assert!(matches!(r.snapshots[3].message, StepMessage::KruskalSkip { from: 0, to: 1, .. }));
    assert_eq!(r.visit_order, vec![1, 0, 2, 3]);
    assert_eq!(r.snapshots.last().unwrap().current_node, 2);
}

#[test]
fn kruskal_joins_undirected_edges_drawn_either_way() {
    let mut g = Graph::new();
    for l in ["A", "B", "C"] {
        g.add_node(0, 0, l.into());
    }
    g.add_edge(1, 0, w(1.0));
    g.add_edge(2, 1, w(2.0));
    let r = run(&g, 0);
    let joined: Vec<&Vec<usize>> =
        r.snapshots.iter().filter(|s| s.current_line == 1).map(|s| &s.queue_or_stack).collect();
    assert_eq!(joined.len(), 2);
    assert!(matches!(r.snapshots[1].message, StepMessage::KruskalAdd { from: 1, to: 0, added: 1, .. }));
    assert!(matches!(r.snapshots[2].message, StepMessage::KruskalAdd { from: 2, to: 1, added: 2, .. }));
    let mut order = r.visit_order.clone();
    order.sort();
    assert_eq!(order, vec![0, 1, 2]);
}

#[test]
fn kruskal_on_an_empty_graph() {
    let g = Graph::new();
    let r = run(&g, 0);
    assert!(r.visit_order.is_empty() && r.snapshots.is_empty());
}

#[test]
fn kruskal_on_one_node_with_a_loop() {
    let mut g = Graph::new();
    g.add_node(0, 0, "A".into());
    g.add_edge(0, 0, w(1.0));
    let r = run(&g, 0);
    assert_eq!(r.edge_traversal_count, 1);
    assert_eq!(r.visit_order, vec![0]);
    assert_eq!(r.snapshots.len(), 3);
}

#[test]
fn kruskal_snapshots_list_the_nodes_brought_in() {
    let g = square();
    let r = run(&g, 2);
    assert_eq!(r.snapshots.len(), 5);
    assert_eq!(r.snapshots[0].queue_or_stack, vec![1, 0, 2, 0, 0]);
    assert_eq!(r.snapshots[0].current_node, 2);
    assert_eq!(r.snapshots[0].visited_flags, vec![false; 4]);
    let lists: Vec<Vec<usize>> = r.snapshots.iter().map(|s| s.visited_order.clone()).collect();
    assert_eq!(lists, vec![vec![], vec![1, 2], vec![1, 2, 0, 3], vec![1, 2, 0, 3], vec![1, 2, 0, 3]]);
    assert_eq!(r.snapshots[1].visited_flags, vec![false, true, true, false]);
    let last = r.snapshots.last().unwrap();
    assert_eq!(last.current_node, 2);
    assert!(last.queue_or_stack.is_empty());
    assert_eq!(last.visited_flags, vec![true; 4]);
    assert!(r.snapshots.iter().all(|s| s.distances.is_none() && !s.negative_cycle));
}

#[test]
fn kruskal_minds_missing_ends_only_before_the_tree_is_complete() {
    let mut g = square();
    assert!(reaches_only_nodes(&g));
    g.add_edge(0, 7, w(100.0));
    assert!(reaches_only_nodes(&g));
    let r = run(&g, 0);
    assert_eq!(r.edge_traversal_count, 3);
    g.add_edge(0, 8, w(0.5));
    assert!(!reaches_only_nodes(&g));
    assert!(reaches_only_nodes(&Graph::new()));
}
