use algo_caster::graph::weight::weights_match;
use algo_caster::graph::Graph;
use algo_caster::graph::history::{
    apply_command, apply_inverse, build_remove_edge_command, build_remove_node_command, GraphCommand,
    GraphHistory,
};

fn bits32(v: f32) -> u32 {
    v.to_bits()
}

fn bits64(v: f64) -> u64 {
    v.to_bits()
}

#[test]
fn test_add_undo_redo_node() {
    let mut graph = Graph::new();
    let mut history = GraphHistory::new(20);

    let cmd = GraphCommand::AddNode { id: 0, x: bits32(50.0), y: bits32(50.0), label: "A".into() };
    apply_command(&mut graph, &cmd);
    history.record(cmd);
    assert_eq!(graph.nodes.len(), 1);

    history.undo(&mut graph);
    assert_eq!(graph.nodes.len(), 0);

    history.redo(&mut graph);
    assert_eq!(graph.nodes.len(), 1);
    assert_eq!(graph.nodes[0].label, "A");
}

#[test]
fn test_add_remove_edge() {
    let mut graph = Graph::new();
    graph.add_node(bits32(0.0), bits32(0.0), "A".into());
    graph.add_node(bits32(100.0), bits32(0.0), "B".into());

    let mut history = GraphHistory::new(20);

    let cmd = GraphCommand::AddEdge { from: 0, to: 1, weight: bits64(3.0) };
    apply_command(&mut graph, &cmd);
    history.record(cmd);
    assert_eq!(graph.edges.len(), 1);

    history.undo(&mut graph);
    assert_eq!(graph.edges.len(), 0);

    history.redo(&mut graph);
    assert_eq!(graph.edges.len(), 1);
    assert!((f64::from_bits(graph.edges[0].weight) - 3.0).abs() < f64::EPSILON);
}

#[test]
fn test_move_node_undo() {
    let mut graph = Graph::new();
    graph.add_node(bits32(0.0), bits32(0.0), "A".into());
    let mut history = GraphHistory::new(20);

    let cmd = GraphCommand::MoveNode {
        id: 0,
        from_x: bits32(0.0),
        from_y: bits32(0.0),
        to_x: bits32(100.0),
        to_y: bits32(200.0),
    };
    apply_command(&mut graph, &cmd);
    history.record(cmd);
    assert!((f32::from_bits(graph.nodes[0].x) - 100.0).abs() < f32::EPSILON);

    history.undo(&mut graph);
    assert!((f32::from_bits(graph.nodes[0].x) - 0.0).abs() < f32::EPSILON);
}

#[test]
fn test_batch_undo() {
    let mut graph = Graph::new();
    let mut history = GraphHistory::new(20);

    let batch = GraphCommand::Batch(vec![
        GraphCommand::AddNode { id: 0, x: bits32(0.0), y: bits32(0.0), label: "A".into() },
        GraphCommand::AddNode { id: 1, x: bits32(100.0), y: bits32(0.0), label: "B".into() },
        GraphCommand::AddEdge { from: 0, to: 1, weight: bits64(1.0) },
    ]);
    apply_command(&mut graph, &batch);
    history.record(batch);
    assert_eq!(graph.nodes.len(), 2);
    assert_eq!(graph.edges.len(), 1);

    history.undo(&mut graph);
    assert_eq!(graph.nodes.len(), 0);
    assert_eq!(graph.edges.len(), 0);
}

#[test]
fn test_max_history_limit() {
    let mut graph = Graph::new();
    let mut history = GraphHistory::new(3);

    for i in 0..5usize {
        let cmd = GraphCommand::AddNode { id: i, x: bits32(i as f32), y: bits32(0.0), label: format!("{}", i) };
        apply_command(&mut graph, &cmd);
        history.record(cmd);
    }

    assert_eq!(history.undo_depth(), 3);
}

#[test]
fn test_redo_cleared_after_new_record() {
    let mut graph = Graph::new();
    let mut history = GraphHistory::new(20);

    let cmd1 = GraphCommand::AddNode { id: 0, x: bits32(0.0), y: bits32(0.0), label: "A".into() };
    apply_command(&mut graph, &cmd1);
    history.record(cmd1);

    history.undo(&mut graph);
    assert!(history.can_redo());

    let cmd2 = GraphCommand::AddNode { id: 1, x: bits32(100.0), y: bits32(0.0), label: "B".into() };
    apply_command(&mut graph, &cmd2);
    history.record(cmd2);

    assert!(!history.can_redo());
}

fn sample_graph() -> Graph {
    let mut g = Graph::new();
    g.add_node(bits32(0.0), bits32(0.0), "A".into());
    g.add_node(bits32(10.0), bits32(0.0), "B".into());
    g.add_node(bits32(20.0), bits32(5.0), "C".into());
    g.add_edge(0, 1, bits64(1.5));
    g.add_edge(1, 2, bits64(2.5));
    g.add_edge(2, 0, bits64(-4.0));
    g
}

fn same_graph(a: &Graph, b: &Graph) -> bool {
    a.is_directed == b.is_directed
        && a.nodes.len() == b.nodes.len()
        && a.edges.len() == b.edges.len()
        && a.nodes.iter().zip(b.nodes.iter()).all(|(x, y)| {
            x.id == y.id && x.x == y.x && x.y == y.y && x.label == y.label && x.visual_state == y.visual_state
        })
        && a.edges.iter().zip(b.edges.iter()).all(|(x, y)| x.from == y.from && x.to == y.to && x.weight == y.weight)
}

#[test]
fn undo_of_node_removal_restores_nodes_and_appends_edges() {
    let mut g = sample_graph();
    let cmd = build_remove_node_command(&g, 1).unwrap();
    apply_command(&mut g, &cmd);
    assert_eq!(g.nodes.len(), 2);
    assert_eq!(g.edges.len(), 1);
    apply_inverse(&mut g, &cmd);
    let labels: Vec<&str> = g.nodes.iter().map(|n| n.label.as_str()).collect();
    assert_eq!(labels, vec!["A", "B", "C"]);
    let ends: Vec<(usize, usize)> = g.edges.iter().map(|e| (e.from, e.to)).collect();
    assert_eq!(ends, vec![(2, 0), (0, 1), (1, 2)]);
}

#[test]
fn undo_of_node_removal_restores_the_graph_when_its_edges_come_last() {
    let mut g = Graph::new();
    g.add_node(bits32(0.0), bits32(0.0), "A".into());
    g.add_node(bits32(10.0), bits32(0.0), "B".into());
    g.add_node(bits32(20.0), bits32(5.0), "C".into());
    g.add_edge(0, 2, bits64(1.0));
    g.add_edge(1, 2, bits64(2.0));
    g.add_edge(0, 1, bits64(3.0));
    let before = g.duplicate();
    let cmd = build_remove_node_command(&g, 1).unwrap();
    apply_command(&mut g, &cmd);
    apply_inverse(&mut g, &cmd);
    assert!(same_graph(&g, &before));
}

#[test]
fn undo_of_edge_removal_puts_the_edge_back_in_place() {
    let mut g = sample_graph();
    let before = g.duplicate();
    let cmd = build_remove_edge_command(&g, 1, 2).unwrap();
    match &cmd {
        GraphCommand::RemoveEdge { edge_index, weight, .. } => {
            assert_eq!(*edge_index, 1);
            assert_eq!(*weight, bits64(2.5));
        }
        _ => panic!("expected an edge removal"),
    }
    apply_command(&mut g, &cmd);
    assert_eq!(g.edges.len(), 2);
    apply_inverse(&mut g, &cmd);
    assert!(same_graph(&g, &before));
}

#[test]
fn removal_commands_need_an_existing_target() {
    let g = sample_graph();
    assert!(build_remove_node_command(&g, 3).is_none());
    assert!(build_remove_edge_command(&g, 0, 2).is_none());
}

#[test]
fn undo_then_redo_gives_back_the_edited_graph() {
    let mut g = sample_graph();
    let mut h = GraphHistory::new(10);
    let cmd = GraphCommand::RenameNode { id: 2, old_label: "C".into(), new_label: "Z".into() };
    apply_command(&mut g, &cmd);
    h.record(cmd);
    let edited = g.duplicate();
    assert!(h.undo(&mut g));
    assert_eq!(g.nodes[2].label, "C");
    assert!(h.redo(&mut g));
    assert!(same_graph(&g, &edited));
    assert_eq!(h.undo_depth(), 1);
    assert_eq!(h.redo_depth(), 0);
}

#[test]
fn undo_and_redo_on_empty_stacks_do_nothing() {
    let mut g = sample_graph();
    let before = g.duplicate();
    let mut h = GraphHistory::new(5);
    assert!(!h.can_undo());
    assert!(!h.undo(&mut g));
    assert!(!h.redo(&mut g));
    assert!(same_graph(&g, &before));
    assert!(!h.has_unsaved_changes());
}

#[test]
fn undo_history_lists_newest_first() {
    let mut g = Graph::new();
    let mut h = GraphHistory::new(10);
    for i in 0..3usize {
        let cmd = GraphCommand::AddNode { id: i, x: bits32(0.0), y: bits32(0.0), label: format!("N{}", i) };
        apply_command(&mut g, &cmd);
        h.record(cmd);
    }
    let list = h.undo_history();
    assert_eq!(list.len(), 3);
    match list[0] {
        GraphCommand::AddNode { id, .. } => assert_eq!(*id, 2),
        _ => panic!("expected a node addition"),
    }
    h.clear();
    assert_eq!(h.undo_depth(), 0);
    assert!(h.undo_history().is_empty());
}

#[test]
fn weight_update_and_toggle_are_undone() {
    let mut g = sample_graph();
    let before = g.duplicate();
    let mut h = GraphHistory::new(10);
    let c1 = GraphCommand::UpdateEdgeWeight { from: 0, to: 1, old_weight: bits64(1.5), new_weight: bits64(9.0) };
    apply_command(&mut g, &c1);
    h.record(c1);
    assert_eq!(g.edges[0].weight, bits64(9.0));
    let c2 = GraphCommand::ToggleDirected { was_directed: false };
    apply_command(&mut g, &c2);
    h.record(c2);
    assert!(g.is_directed);
    h.undo(&mut g);
    h.undo(&mut g);
    assert!(same_graph(&g, &before));
}

#[test]
fn removing_an_edge_treats_the_two_zeros_as_one_weight() {
    let mut g = Graph::new();
    g.add_node(0, 0, "A".to_string());
    g.add_node(0, 0, "B".to_string());
    g.add_edge(0, 1, (-0.0f64).to_bits());
    g.add_edge(0, 1, f64::NAN.to_bits());
    let cmd = GraphCommand::RemoveEdge { from: 0, to: 1, weight: 0.0f64.to_bits(), edge_index: 0 };
    apply_command(&mut g, &cmd);
    assert_eq!(g.edges.len(), 1);
    assert!(f64::from_bits(g.edges[0].weight).is_nan());
    // A NaN weight matches nothing, not even itself.
    let cmd = GraphCommand::RemoveEdge { from: 0, to: 1, weight: f64::NAN.to_bits(), edge_index: 0 };
    apply_command(&mut g, &cmd);
    assert_eq!(g.edges.len(), 1);
}

#[test]
fn removing_an_edge_matches_weights_within_epsilon() {
    let mut g = Graph::new();
    g.add_node(0, 0, "A".to_string());
    g.add_node(0, 0, "B".to_string());
    g.add_edge(0, 1, 1.0f64.to_bits());
    g.add_edge(0, 1, 0.5f64.to_bits());
    // 1.0 + 2^-52 lies exactly f64::EPSILON away from 1.0: no match.
    let cmd = GraphCommand::RemoveEdge { from: 0, to: 1, weight: (1.0f64 + f64::EPSILON).to_bits(), edge_index: 0 };
    apply_command(&mut g, &cmd);
    assert_eq!(g.edges.len(), 2);
    // One unit in the last place above 0.5 is 2^-53 away: it matches.
    let cmd = GraphCommand::RemoveEdge { from: 0, to: 1, weight: 0.5f64.to_bits() + 1, edge_index: 1 };
    apply_command(&mut g, &cmd);
    assert_eq!(g.edges.len(), 1);
    assert_eq!(g.edges[0].weight, 1.0f64.to_bits());
}

#[test]
fn weight_matching_agrees_with_float_subtraction() {
    let base: Vec<f64> = vec![
        0.0, -0.0, 1.0, -1.0, 0.5, 2.0, 1e-300, -1e-300, 5e-324, 1e-16, 2.2e-16, 1.1e-16, 3e-16,
        0.75, 1.0 - 1e-16, 4.0, 1e300, f64::MAX, f64::MIN_POSITIVE, f64::EPSILON, f64::EPSILON / 2.0,
        f64::INFINITY, f64::NEG_INFINITY, f64::NAN, 123.456, -0.3, 0.3,
    ];
    let mut vals: Vec<u64> = Vec::new();
    for v in &base {
        let b = v.to_bits();
        vals.push(b);
        vals.push(b.wrapping_add(1));
        vals.push(b.wrapping_sub(1));
        vals.push(b.wrapping_add(3));
        vals.push(b.wrapping_sub(1 << 20));
    }
    // Pairs straddling the bound: a - b near 2^-52 - 2^-106.
    let e = f64::EPSILON;
    for k in 0..8u64 {
        vals.push((0.5 + e / 2.0).to_bits() + k);
        vals.push((e - e / 4.0).to_bits() + k);
        vals.push((e / 2.0).to_bits().wrapping_sub(k));
    }
    let mut checked = 0;
    for &a in &vals {
        for &b in &vals {
            let expected = (f64::from_bits(a) - f64::from_bits(b)).abs() < f64::EPSILON;
            assert_eq!(weights_match(a, b), expected, "{:e} vs {:e}", f64::from_bits(a), f64::from_bits(b));
            checked += 1;
        }
    }
    assert!(checked > 10000);
}
