use algo_caster::algorithm::state::AlgorithmKind;
use algo_caster::graph::step_tracker::AlgorithmTracker;
use algo_caster::graph::{Graph, NodeVisualState};
use algo_caster::performance::predictor::{complexity_for, AlgorithmComplexity};
use algo_caster::performance::tracker::PerformanceTracker;
use algo_caster::ui::{apply_snapshot_states, mark_all_visited, pseudocode_lines};
use algo_caster::graph::history::renumber_after_removal;
use algo_caster::ui::{AppState, MouseMode, Rgba, Theme};
use algo_caster::ui::editor::{click_canvas, remove_edge_at, CanvasClick};
use algo_caster::graph::history::GraphHistory;
use algo_caster::visualization::ScaleView;

#[test]
fn pseudocode_for_each_algorithm() {
    assert_eq!(pseudocode_lines(AlgorithmKind::BFS).len(), 8);
    assert_eq!(pseudocode_lines(AlgorithmKind::AStar).len(), 12);
    assert_eq!(pseudocode_lines(AlgorithmKind::Kruskal)[0], "Kruskal(G):");
    assert_eq!(pseudocode_lines(AlgorithmKind::TopologicalSort).len(), 10);
}

#[test]
fn complexity_classes() {
    assert_eq!(complexity_for(AlgorithmKind::BFS), AlgorithmComplexity::BfsOrDfs);
    assert_eq!(complexity_for(AlgorithmKind::AStar), AlgorithmComplexity::Dijkstra);
    assert_eq!(complexity_for(AlgorithmKind::TopologicalSort), AlgorithmComplexity::BfsOrDfs);
    assert_eq!(complexity_for(AlgorithmKind::Kruskal), AlgorithmComplexity::Kruskal);
    assert_eq!(complexity_for(AlgorithmKind::FloydWarshall), AlgorithmComplexity::FloydWarshall);
}

#[test]
fn renumbering_closes_the_gap() {
    let mut g = Graph::new();
    for l in ["A", "C", "D"] {
        g.add_node(0, 0, l.into());
    }
    g.nodes[1].id = 2;
    g.nodes[2].id = 3;
    g.add_edge(0, 2, 1);
    g.add_edge(3, 0, 2);
    g.add_edge(2, 3, 3);
    renumber_after_removal(&mut g, 1);
    let ids: Vec<usize> = g.nodes.iter().map(|n| n.id).collect();
    assert_eq!(ids, vec![0, 1, 2]);
    let ends: Vec<(usize, usize, u64)> = g.edges.iter().map(|e| (e.from, e.to, e.weight)).collect();
    assert_eq!(ends, vec![(0, 1, 1), (2, 0, 2), (1, 2, 3)]);
}

#[test]
fn snapshot_colours() {
    let mut g = Graph::new();
    for l in ["A", "B", "C", "D"] {
        g.add_node(0, 0, l.into());
    }
    g.nodes[3].visual_state = NodeVisualState::Visited;
    apply_snapshot_states(&mut g, &vec![true, true, false], 1);
    assert_eq!(g.nodes[0].visual_state, NodeVisualState::Visited);
    assert_eq!(g.nodes[1].visual_state, NodeVisualState::Current);
    assert_eq!(g.nodes[2].visual_state, NodeVisualState::Unvisited);
    assert_eq!(g.nodes[3].visual_state, NodeVisualState::Visited);
    mark_all_visited(&mut g);
    assert!(g.nodes.iter().all(|n| n.visual_state == NodeVisualState::Visited));
    g.reset_visual_states();
    assert!(g.nodes.iter().all(|n| n.visual_state == NodeVisualState::Unvisited));
}

#[test]
fn defaults() {
    assert_eq!(Theme::default(), Theme::Dark);
    assert_eq!(AppState::default(), AppState::Editing);
    assert_eq!(MouseMode::default(), MouseMode::AddNode);
    assert_eq!(ScaleView::default(), ScaleView::Scale100);
    let t = AlgorithmTracker::default();
    assert_eq!(t.current_line, 0);
    assert!(t.visited_nodes.is_empty() && t.open_set.is_empty() && !t.is_finished);
}

#[test]
fn tracker_hands_back_its_start_once() {
    let mut t = PerformanceTracker::new();
    assert!(t.take_start().is_none());
    t.start();
    assert!(t.take_start().is_some());
    assert!(t.take_start().is_none());
}

#[test]
fn starting_again_drops_the_earlier_start() {
    let mut t = PerformanceTracker::new();
    let earlier = std::time::Instant::now();
    t.start_at(earlier);
    t.start();
    let later = std::time::Instant::now();
    t.start_at(later);
    assert_eq!(t.take_start(), Some(later));
}

#[test]
fn themes_have_their_palettes() {
    let dark = Theme::Dark.colors();
    assert_eq!(dark.canvas_bg, Rgba { r: 30, g: 30, b: 40, a: 255 });
    assert_eq!(dark.grid_line, Rgba { r: 60, g: 60, b: 80, a: 100 });
    assert_eq!(dark.pseudocode_inactive_fg, Rgba { r: 220, g: 220, b: 220, a: 255 });
    let light = Theme::Light.colors();
    assert_eq!(light.node_label, Rgba { r: 20, g: 20, b: 40, a: 255 });
    assert_eq!(light.negative_cycle_warn, Rgba { r: 200, g: 40, b: 40, a: 255 });
}

#[test]
fn canvas_clicks_edit_the_graph() {
    let mut g = Graph::new();
    let mut h = GraphHistory::new(50);
    let mut edge_start: Option<usize> = None;
    let mut counter = 0usize;
    let mut start = 0usize;
    let r = click_canvas(&mut g, &mut h, &mut edge_start, &mut counter, &mut start, MouseMode::AddNode, None, 1, 2, 0);
    assert!(matches!(r, CanvasClick::NodeAdded { ref label } if label == "A"));
    let r = click_canvas(&mut g, &mut h, &mut edge_start, &mut counter, &mut start, MouseMode::AddNode, None, 3, 4, 0);
    assert!(matches!(r, CanvasClick::NodeAdded { ref label } if label == "B"));
    assert_eq!(g.nodes.len(), 2);
    assert_eq!((g.nodes[1].x, g.nodes[1].y), (3, 4));
    let r = click_canvas(&mut g, &mut h, &mut edge_start, &mut counter, &mut start, MouseMode::AddNode, Some(0), 5, 5, 0);
    assert!(matches!(r, CanvasClick::Nothing));
    assert_eq!(g.nodes.len(), 2);

    let w = 2.5f64.to_bits();
    let r = click_canvas(&mut g, &mut h, &mut edge_start, &mut counter, &mut start, MouseMode::AddEdge, Some(0), 0, 0, w);
    assert!(matches!(r, CanvasClick::EdgeStart { node: 0 }));
    assert_eq!(edge_start, Some(0));
    let r = click_canvas(&mut g, &mut h, &mut edge_start, &mut counter, &mut start, MouseMode::AddEdge, Some(1), 0, 0, w);
    assert!(matches!(r, CanvasClick::EdgeAdded { from: 0, to: 1 }));
    assert_eq!(edge_start, None);
    assert_eq!((g.edges[0].from, g.edges[0].to, g.edges[0].weight), (0, 1, w));
    let r = click_canvas(&mut g, &mut h, &mut edge_start, &mut counter, &mut start, MouseMode::AddEdge, Some(1), 0, 0, w);
    assert!(matches!(r, CanvasClick::EdgeStart { node: 1 }));
    let r = click_canvas(&mut g, &mut h, &mut edge_start, &mut counter, &mut start, MouseMode::AddEdge, Some(1), 0, 0, w);
    assert!(matches!(r, CanvasClick::Nothing));
    assert_eq!(edge_start, None);
    assert_eq!(g.edges.len(), 1);

    start = 1;
    let r = click_canvas(&mut g, &mut h, &mut edge_start, &mut counter, &mut start, MouseMode::Delete, Some(0), 0, 0, w);
    assert!(matches!(r, CanvasClick::NodeRemoved { ref label } if label == "A"));
    assert_eq!(g.nodes.len(), 1);
    assert_eq!(g.nodes[0].label, "B");
    assert_eq!(g.nodes[0].id, 0);
    assert!(g.edges.is_empty());
    assert_eq!(start, 0);
    assert_eq!(h.undo_depth(), 4);
    assert!(h.undo(&mut g));
    assert_eq!(g.nodes.len(), 2);
    assert_eq!((g.nodes[0].label.as_str(), g.nodes[0].id), ("A", 0));
    assert_eq!((g.nodes[1].label.as_str(), g.nodes[1].id), ("B", 1));
    assert_eq!((g.edges[0].from, g.edges[0].to), (0, 1));
}

#[test]
fn undo_after_deleting_a_middle_node_restores_the_graph() {
    let mut g = Graph::new();
    g.add_node(0, 0, "A".to_string());
    g.add_node(50, 0, "B".to_string());
    g.add_node(100, 0, "C".to_string());
    g.add_edge(1, 2, 1);
    g.add_edge(0, 2, 1);
    let mut h = GraphHistory::new(50);
    let mut edge_start: Option<usize> = None;
    let mut counter = 3usize;
    let mut start = 2usize;
    let r = click_canvas(&mut g, &mut h, &mut edge_start, &mut counter, &mut start, MouseMode::Delete, Some(1), 0, 0, 1);
    assert!(matches!(r, CanvasClick::NodeRemoved { ref label } if label == "B"));
    let labels: Vec<&str> = g.nodes.iter().map(|n| n.label.as_str()).collect();
    assert_eq!(labels, vec!["A", "C"]);
    assert_eq!((g.nodes[1].id, g.edges.len(), g.edges[0].from, g.edges[0].to), (1, 1, 0, 1));
    assert_eq!(start, 1);
    assert!(h.undo(&mut g));
    let nodes: Vec<(&str, usize)> = g.nodes.iter().map(|n| (n.label.as_str(), n.id)).collect();
    assert_eq!(nodes, vec![("A", 0), ("B", 1), ("C", 2)]);
    let mut ends: Vec<(usize, usize)> = g.edges.iter().map(|e| (e.from, e.to)).collect();
    ends.sort();
    assert_eq!(ends, vec![(0, 2), (1, 2)]);
    assert!(h.redo(&mut g));
    let labels: Vec<(&str, usize)> = g.nodes.iter().map(|n| (n.label.as_str(), n.id)).collect();
    assert_eq!(labels, vec![("A", 0), ("C", 1)]);
    assert_eq!((g.edges[0].from, g.edges[0].to), (0, 1));
}

#[test]
fn secondary_click_removes_an_edge() {
    let mut g = Graph::new();
    g.add_node(0, 0, "A".to_string());
    g.add_node(0, 0, "B".to_string());
    g.add_edge(0, 1, 7);
    g.add_edge(1, 0, 8);
    let mut h = GraphHistory::new(10);
    assert_eq!(remove_edge_at(&mut g, &mut h, 1), (1, 0));
    assert_eq!(g.edges.len(), 1);
    assert_eq!(g.edges[0].weight, 7);
    assert!(h.can_undo());
}
