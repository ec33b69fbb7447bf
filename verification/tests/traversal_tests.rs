use algo_caster::algorithm::state::{AlgorithmKind, StepMessage};
use algo_caster::algorithm::{bfs, dfs};
use algo_caster::graph::Graph;

fn dag() -> Graph {
    let mut g = Graph::new();
    for i in 0..5 {
        g.add_node(0, 0, format!("{}", i));
    }
    g.is_directed = true;
    for (a, b) in [(0, 1), (0, 2), (1, 3), (2, 3), (3, 4)] {
        g.add_edge(a, b, 1.0f64.to_bits());
    }
    g
}

#[test]
fn bfs_visits_level_by_level() {
    let g = dag();
    let r = bfs::run(&g, 0);
    assert_eq!(r.kind, AlgorithmKind::BFS);
    assert_eq!(r.visit_order, vec![0, 1, 2, 3, 4]);
    assert_eq!(r.edge_traversal_count, 5);
    assert_eq!(r.snapshots.len(), 2 * r.visit_order.len());
    assert_eq!(r.snapshots[0].current_node, 0);
}

#[test]
fn dfs_goes_deep_first() {
    let g = dag();
    let r = dfs::run(&g, 0);
    assert_eq!(r.kind, AlgorithmKind::DFS);
    assert_eq!(r.visit_order, vec![0, 1, 3, 4, 2]);
    assert_eq!(r.edge_traversal_count, 5);
}

#[test]
fn traversals_reach_only_what_is_reachable() {
    let g = dag();
    let r = bfs::run(&g, 3);
    assert_eq!(r.visit_order, vec![3, 4]);
    let r = dfs::run(&g, 2);
    assert_eq!(r.visit_order, vec![2, 3, 4]);
}

#[test]
fn undirected_edges_work_both_ways() {
    let mut g = dag();
    g.is_directed = false;
    let r = bfs::run(&g, 4);
    assert_eq!(r.visit_order, vec![4, 3, 1, 2, 0]);
    assert_eq!(r.edge_traversal_count, 10);
}

#[test]
fn traversals_of_an_empty_graph_are_empty() {
    let g = Graph::new();
    assert!(bfs::run(&g, 0).visit_order.is_empty());
    assert!(dfs::run(&g, 0).snapshots.is_empty());
}

#[test]
fn bfs_snapshots_follow_the_queue() {
    let g = dag();
    let r = bfs::run(&g, 0);
    let states: Vec<(usize, usize, Vec<usize>, Vec<usize>)> = r
        .snapshots
        .iter()
        .map(|s| (s.current_line, s.current_node, s.visited_order.clone(), s.queue_or_stack.clone()))
        .collect();
    assert_eq!(
        states,
        vec![
            (1, 0, vec![], vec![0]),
            (2, 0, vec![0], vec![]),
            (3, 1, vec![0], vec![1]),
            (3, 2, vec![0], vec![1, 2]),
            (2, 1, vec![0, 1], vec![2]),
            (3, 3, vec![0, 1], vec![2, 3]),
            (2, 2, vec![0, 1, 2], vec![3]),
            (2, 3, vec![0, 1, 2, 3], vec![]),
            (3, 4, vec![0, 1, 2, 3], vec![4]),
            (2, 4, vec![0, 1, 2, 3, 4], vec![]),
        ]
    );
    assert_eq!(r.snapshots[3].visited_flags, vec![true, true, true, false, false]);
    assert!(matches!(r.snapshots[5].message, StepMessage::BfsDiscover { node: 1, neighbor: 3 }));
    assert!(r.snapshots.iter().all(|s| s.distances.is_none() && !s.negative_cycle));
}

#[test]
fn dfs_snapshots_follow_the_stack() {
    let g = dag();
    let r = dfs::run(&g, 0);
    let states: Vec<(usize, usize, Vec<usize>, Vec<usize>)> = r
        .snapshots
        .iter()
        .map(|s| (s.current_line, s.current_node, s.visited_order.clone(), s.queue_or_stack.clone()))
        .collect();
    assert_eq!(
        states,
        vec![
            (1, 0, vec![], vec![0]),
            (2, 0, vec![0], vec![]),
            (3, 2, vec![0], vec![2]),
            (3, 1, vec![0], vec![2, 1]),
            (2, 1, vec![0, 1], vec![2]),
            (3, 3, vec![0, 1], vec![2, 3]),
            (2, 3, vec![0, 1, 3], vec![2]),
            (3, 4, vec![0, 1, 3], vec![2, 4]),
            (2, 4, vec![0, 1, 3, 4], vec![2]),
            (2, 2, vec![0, 1, 3, 4, 2], vec![]),
        ]
    );
    assert_eq!(r.snapshots[4].visited_flags, vec![true, true, false, false, false]);
    assert!(matches!(r.snapshots[3].message, StepMessage::DfsPush { node: 0, neighbor: 1 }));
}

#[test]
fn an_edge_to_a_missing_node_matters_only_when_reached() {
    let mut g = dag();
    g.add_edge(4, 9, 1.0f64.to_bits());
    assert!(!g.reaches_only_nodes(0));
    assert!(g.reaches_only_nodes(4) == false);
    let mut h = dag();
    h.add_node(0, 0, "5".to_string());
    h.add_edge(5, 9, 1.0f64.to_bits());
    assert!(h.reaches_only_nodes(0));
    assert!(!h.reaches_only_nodes(5));
    let r = bfs::run(&h, 0);
    assert_eq!(r.visit_order, vec![0, 1, 2, 3, 4]);
    let r = dfs::run(&h, 0);
    assert_eq!(r.visit_order, vec![0, 1, 3, 4, 2]);
}
