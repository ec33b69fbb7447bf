use algo_caster::algorithm::state::AlgorithmKind;
use algo_caster::graph::Graph;
use algo_caster::storage::serializer::build_save_data;
use algo_caster::storage::session_history::{SessionHistory, SessionRecord};
use algo_caster::storage::validator::ValidationError;

fn record(kind: AlgorithmKind, ms: f64) -> SessionRecord {
    let g = Graph::new();
    SessionRecord::new(0, 0, kind, 0, &g, ms.to_bits(), vec![0, 1, 2], 3, 5)
}

fn append(h: &mut SessionHistory, r: SessionRecord) -> u64 {
    let r = h.assign_id(r);
    h.commit(r)
}

#[test]
fn identifiers_increase_from_one() {
    let mut h = SessionHistory::new();
    assert_eq!(append(&mut h, record(AlgorithmKind::BFS, 1.5)), 1);
    assert_eq!(append(&mut h, record(AlgorithmKind::DFS, 1.5)), 2);
    assert_eq!(h.cached_count(), 2);
    assert_eq!(h.total_count(), 2);
    let recent = h.recent_records();
    assert_eq!(recent[0].id, 2);
    assert_eq!(recent[1].id, 1);
}

#[test]
fn test_filter_by_algorithm() {
    let mut h = SessionHistory::new();
    append(&mut h, record(AlgorithmKind::BFS, 1.5));
    append(&mut h, record(AlgorithmKind::BFS, 1.5));
    append(&mut h, record(AlgorithmKind::Dijkstra, 1.5));
    assert_eq!(h.records_for_algorithm(AlgorithmKind::BFS).len(), 2);
    assert_eq!(h.records_for_algorithm(AlgorithmKind::Dijkstra).len(), 1);
    assert_eq!(h.records_for_algorithm(AlgorithmKind::Prim).len(), 0);
}

#[test]
fn test_most_used_algorithm() {
    let mut h = SessionHistory::new();
    assert_eq!(h.most_used_algorithm(), None);
    for _ in 0..3 {
        append(&mut h, record(AlgorithmKind::BFS, 1.5));
    }
    append(&mut h, record(AlgorithmKind::DFS, 1.5));
    assert_eq!(h.most_used_algorithm(), Some(AlgorithmKind::BFS));
}

#[test]
fn cache_keeps_the_latest_hundred() {
    let mut h = SessionHistory::new();
    for _ in 0..105 {
        append(&mut h, record(AlgorithmKind::Prim, 2.0));
    }
    assert_eq!(h.cached_count(), 100);
    assert_eq!(h.total_count(), 105);
    assert_eq!(h.recent_records()[0].id, 105);
    assert_eq!(h.recent_records()[99].id, 6);
    h.clear_cache();
    assert_eq!(h.cached_count(), 0);
    assert_eq!(h.total_count(), 105);
}

#[test]
fn loading_continues_after_the_last_record() {
    let mut h = SessionHistory::new();
    let mut loaded = Vec::new();
    for i in 0..120u64 {
        let mut r = record(AlgorithmKind::BFS, 1.0);
        r.id = i + 1;
        loaded.push(r);
    }
    assert_eq!(h.load_records(loaded), 120);
    assert_eq!(h.total_count(), 120);
    assert_eq!(h.cached_count(), 100);
    assert_eq!(h.recent_records()[99].id, 21);
    assert_eq!(append(&mut h, record(AlgorithmKind::DFS, 1.0)), 121);
}

#[test]
fn loading_nothing_keeps_the_counter() {
    let mut h = SessionHistory::new();
    assert_eq!(h.load_records(Vec::new()), 0);
    assert_eq!(append(&mut h, record(AlgorithmKind::DFS, 1.0)), 1);
}

#[test]
fn record_carries_the_run() {
    let mut g = Graph::new();
    g.add_node(0, 0, "A".into());
    g.add_node(0, 0, "B".into());
    g.add_edge(0, 1, 2.0f64.to_bits());
    let r = SessionRecord::new(7, 86400 + 61, AlgorithmKind::Kruskal, 1, &g, 1.25f64.to_bits(), vec![1, 0], 1, 4);
    assert_eq!(r.id, 7);
    assert_eq!(r.timestamp, "1970-01-02T00:01:01Z");
    assert_eq!(r.node_count, 2);
    assert_eq!(r.edge_count, 1);
    assert_eq!(f64::from_bits(r.elapsed_ms), 1.25);
    assert!(r.note.is_none());
}

#[test]
fn save_data_copies_the_graph() {
    let mut g = Graph::new();
    g.add_node(1.0f32.to_bits(), 2.0f32.to_bits(), "A".into());
    g.add_node(3.0f32.to_bits(), 4.0f32.to_bits(), "B".into());
    g.add_edge(0, 1, 5.0f64.to_bits());
    g.is_directed = true;
    let d = build_save_data(&g, "my_graph", "2024-01-01T00:00:00Z".to_string());
    assert_eq!(d.version, "1.0.0");
    assert_eq!(d.nodes.len(), 2);
    assert_eq!(d.nodes[1].label, "B");
    assert_eq!(d.edges[0].weight, 5.0f64.to_bits());
    assert!(d.is_directed);
    assert!(d.last_algorithm.is_none());
    assert_eq!(d.metadata.name, "my_graph");
    assert_eq!(d.metadata.node_count, 2);
    assert_eq!(d.metadata.edge_count, 1);
    assert_eq!(d.metadata.saved_at, "2024-01-01T00:00:00Z");
}

#[test]
fn validation_errors_compare_by_value() {
    assert_eq!(ValidationError::DuplicateNodeId { id: 3 }, ValidationError::DuplicateNodeId { id: 3 });
    assert_ne!(ValidationError::EmptyName, ValidationError::InvalidNodeId { id: 0 });
}
