use algo_caster::algorithm::topological_sort::{
    compute_levels, dfs_pseudocode, is_dag, kahn_pseudocode, run, run_dfs_based, run_kahn,
};
use algo_caster::algorithm::state::{AlgorithmKind, StepMessage};
use algo_caster::graph::Graph;

fn make_dag() -> Graph {
    let mut g = Graph::new();
    for i in 0..5 {
        g.add_node((i as f32 * 50.0).to_bits(), 100.0f32.to_bits(), format!("{}", i));
    }
    g.is_directed = true;
    g.add_edge(0, 1, 1.0f64.to_bits());
    g.add_edge(0, 2, 1.0f64.to_bits());
    g.add_edge(1, 3, 1.0f64.to_bits());
    g.add_edge(2, 3, 1.0f64.to_bits());
    g.add_edge(3, 4, 1.0f64.to_bits());
    g
}

fn make_cyclic() -> Graph {
    let mut g = Graph::new();
    for i in 0..3 {
        g.add_node((i as f32 * 50.0).to_bits(), 100.0f32.to_bits(), format!("{}", i));
    }
    g.is_directed = true;
    g.add_edge(0, 1, 1.0f64.to_bits());
    g.add_edge(1, 2, 1.0f64.to_bits());
    g.add_edge(2, 0, 1.0f64.to_bits());
    g
}

#[test]
fn test_kahn_dag() {
    let g = make_dag();
    let result = run_kahn(&g, 0);
    assert_eq!(result.visit_order.len(), 5);
    assert_eq!(*result.visit_order.last().unwrap(), 4);
}

#[test]
fn test_is_dag_true() {
    let g = make_dag();
    assert!(is_dag(&g));
}

#[test]
fn test_is_dag_false() {
    let g = make_cyclic();
    assert!(!is_dag(&g));
}

#[test]
fn test_compute_levels() {
    let g = make_dag();
    let levels = compute_levels(&g);
    assert_eq!(levels[4], 3);
    assert_eq!(levels[0], 0);
}

#[test]
fn test_dfs_based_dag() {
    let g = make_dag();
    let result = run_dfs_based(&g, 0);
    assert_eq!(result.visit_order.len(), 5);
    assert_eq!(*result.visit_order.last().unwrap(), 4);
}

fn is_order_of(g: &Graph, order: &[usize]) -> bool {
    let pos = |v: usize| order.iter().position(|&x| x == v).unwrap();
    order.len() == g.nodes.len() && g.edges.iter().all(|e| pos(e.from) < pos(e.to))
}

#[test]
fn kahn_orders_a_dag_exactly() {
    let g = make_dag();
    let result = run_kahn(&g, 0);
    assert_eq!(result.visit_order, vec![0, 1, 2, 3, 4]);
    assert!(is_order_of(&g, &result.visit_order));
    assert_eq!(result.edge_traversal_count, 5);
    assert!(!result.snapshots.last().unwrap().negative_cycle);
    assert_eq!(result.kind, AlgorithmKind::TopologicalSort);
}

#[test]
fn kahn_flags_a_cycle_and_stops_short() {
    let g = make_cyclic();
    let result = run(&g, 0);
    assert!(result.visit_order.is_empty());
    assert!(result.snapshots.last().unwrap().negative_cycle);
    assert_eq!(result.edge_traversal_count, 0);
}

#[test]
fn kahn_orders_the_acyclic_part_of_a_graph_with_a_cycle() {
    let mut g = make_cyclic();
    g.add_node(0, 0, "3".into());
    g.add_edge(3, 0, 1.0f64.to_bits());
    let result = run_kahn(&g, 0);
    assert_eq!(result.visit_order, vec![3]);
    assert!(result.snapshots.last().unwrap().negative_cycle);
    assert_eq!(result.edge_traversal_count, 1);
}

#[test]
fn dfs_based_gives_a_topological_order() {
    let g = make_dag();
    let result = run_dfs_based(&g, 0);
    assert_eq!(result.visit_order, vec![0, 2, 1, 3, 4]);
    assert!(is_order_of(&g, &result.visit_order));
    assert!(!result.snapshots.iter().any(|s| s.negative_cycle));
    assert_eq!(result.edge_traversal_count, 5);
}

#[test]
fn dfs_based_flags_a_cycle_but_lists_every_node() {
    let g = make_cyclic();
    let result = run_dfs_based(&g, 0);
    assert_eq!(result.visit_order.len(), 3);
    assert!(result.snapshots.iter().any(|s| s.negative_cycle));
    assert_eq!(result.edge_traversal_count, 3);
}

#[test]
fn empty_graph_is_a_dag_with_no_levels() {
    let g = Graph::new();
    assert!(is_dag(&g));
    assert!(compute_levels(&g).is_empty());
    let r = run_kahn(&g, 0);
    assert!(r.visit_order.is_empty() && r.snapshots.is_empty());
    let r = run_dfs_based(&g, 0);
    assert!(r.visit_order.is_empty() && r.snapshots.is_empty());
}

#[test]
fn levels_follow_the_longest_chain_of_edges() {
    let g = make_dag();
    assert_eq!(compute_levels(&g), vec![0, 1, 1, 2, 3]);
    for e in &g.edges {
        let l = compute_levels(&g);
        assert!(l[e.to] >= l[e.from] + 1);
    }
}

#[test]
fn self_loop_is_a_cycle() {
    let mut g = Graph::new();
    g.add_node(0, 0, "A".into());
    g.is_directed = true;
    g.add_edge(0, 0, 1.0f64.to_bits());
    assert!(!is_dag(&g));
    assert!(run_dfs_based(&g, 0).snapshots.iter().any(|s| s.negative_cycle));
}

#[test]
fn pseudocode_has_five_lines_each() {
    let k = kahn_pseudocode();
    let d = dfs_pseudocode();
    assert_eq!(k.len(), 5);
    assert_eq!(d.len(), 5);
    assert_eq!(k[4], "5: if len(result) < V: 사이클 존재");
    assert_eq!(d[0], "1: for node in V: if not visited: dfs(node)");
}

#[test]
fn kahn_snapshots_follow_each_edge() {
    let g = make_dag();
    let r = run_kahn(&g, 0);
    let steps: Vec<(usize, usize, Vec<usize>)> =
        r.snapshots.iter().map(|s| (s.current_line, s.current_node, s.queue_or_stack.clone())).collect();
    assert_eq!(
        steps,
        vec![
            (1, 0, vec![0]),
            (2, 0, vec![]),
            (3, 1, vec![]),
            (4, 1, vec![1]),
            (3, 2, vec![1]),
            (4, 2, vec![1, 2]),
            (2, 1, vec![2]),
            (3, 3, vec![2]),
            (2, 2, vec![]),
            (3, 3, vec![]),
            (4, 3, vec![3]),
            (2, 3, vec![]),
            (3, 4, vec![]),
            (4, 4, vec![4]),
            (2, 4, vec![]),
            (5, 0, vec![]),
        ]
    );
    assert!(matches!(r.snapshots[7].message, StepMessage::KahnDecrement { node: 1, neighbor: 3, in_degree: 1 }));
    assert_eq!(r.snapshots[6].visited_order, vec![0, 1]);
    assert_eq!(r.snapshots[6].visited_flags, vec![true, true, false, false, false]);
    assert!(matches!(&r.snapshots[15].message, StepMessage::KahnDone { order } if order == &vec![0, 1, 2, 3, 4]));
    assert!(!r.snapshots[15].negative_cycle);
}

#[test]
fn dfs_based_snapshots_follow_the_path() {
    let g = make_dag();
    let r = run_dfs_based(&g, 0);
    assert_eq!(r.visit_order, vec![0, 2, 1, 3, 4]);
    let steps: Vec<(usize, usize, Vec<usize>, Vec<usize>)> = r
        .snapshots
        .iter()
        .map(|s| (s.current_line, s.current_node, s.queue_or_stack.clone(), s.visited_order.clone()))
        .collect();
    assert_eq!(
        steps,
        vec![
            (1, 0, vec![], vec![]),
            (2, 0, vec![0], vec![]),
            (4, 1, vec![0, 1], vec![]),
            (4, 3, vec![0, 1, 3], vec![]),
            (4, 4, vec![0, 1, 3, 4], vec![]),
            (5, 4, vec![0, 1, 3], vec![4]),
            (5, 3, vec![0, 1], vec![4, 3]),
            (5, 1, vec![0], vec![4, 3, 1]),
            (4, 2, vec![0, 2], vec![4, 3, 1]),
            (5, 2, vec![0], vec![4, 3, 1, 2]),
            (5, 0, vec![], vec![4, 3, 1, 2, 0]),
        ]
    );
    assert_eq!(r.snapshots[3].visited_flags, vec![true, true, false, true, false]);
    assert!(r.snapshots.iter().all(|s| !s.negative_cycle));
}

#[test]
fn dfs_based_reports_the_back_edge() {
    let g = make_cyclic();
    let r = run_dfs_based(&g, 0);
    let cycle: Vec<&algo_caster::algorithm::state::StateSnapshot> =
        r.snapshots.iter().filter(|s| s.negative_cycle).collect();
    assert_eq!(cycle.len(), 1);
    assert!(matches!(cycle[0].message, StepMessage::TopoCycle { node: 2, next: 0 }));
    assert_eq!(cycle[0].queue_or_stack, vec![0, 1, 2]);
}
