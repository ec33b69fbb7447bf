use algo_caster::algorithm::state::AlgorithmKind;
use algo_caster::performance::benchmark::{BenchmarkConfig, BenchmarkReport, BenchmarkRunner};
use algo_caster::performance::stats::{AlgorithmStats, ComparisonReport, PerformanceResult, PredictionPoint};
use algo_caster::visualization::{DashboardPanel, ScaleView};

fn stats(kind: AlgorithmKind, ms: f64, visited: usize) -> AlgorithmStats {
    AlgorithmStats {
        kind,
        performance: PerformanceResult { elapsed_ms: ms.to_bits(), visited_count: visited, edge_traversal_count: 0 },
        predictions: vec![PredictionPoint { node_count: 100, edge_count: 200, predicted_ms: ms.to_bits() }],
    }
}

#[test]
fn add_replaces_the_entry_of_the_same_algorithm() {
    let mut r = ComparisonReport::new();
    r.add(stats(AlgorithmKind::BFS, 2.0, 5));
    r.add(stats(AlgorithmKind::DFS, 1.0, 4));
    r.add(stats(AlgorithmKind::BFS, 0.5, 7));
    assert_eq!(r.entries.len(), 2);
    assert_eq!(r.entries[0].kind, AlgorithmKind::BFS);
    assert_eq!(f64::from_bits(r.entries[0].performance.elapsed_ms), 0.5);
    assert_eq!(r.entries[1].kind, AlgorithmKind::DFS);
}

#[test]
fn fastest_and_most_efficient() {
    let mut r = ComparisonReport::new();
    assert!(r.fastest().is_none());
    assert!(r.most_efficient().is_none());
    r.add(stats(AlgorithmKind::Dijkstra, 3.0, 2));
    r.add(stats(AlgorithmKind::Prim, 1.25, 9));
    r.add(stats(AlgorithmKind::Kruskal, 1.25, 2));
    assert_eq!(r.fastest().unwrap().kind, AlgorithmKind::Prim);
    assert_eq!(r.most_efficient().unwrap().kind, AlgorithmKind::Dijkstra);
}

#[test]
fn fastest_orders_times_like_total_cmp() {
    let mut r = ComparisonReport::new();
    r.add(stats(AlgorithmKind::BFS, 0.0, 1));
    r.add(stats(AlgorithmKind::DFS, -0.0, 1));
    assert_eq!(r.fastest().unwrap().kind, AlgorithmKind::DFS);
}

#[test]
fn benchmark_defaults() {
    let c = BenchmarkConfig::default();
    assert_eq!(c.warmup, 2);
    assert_eq!(c.iterations, 10);
    assert_eq!(f64::from_bits(c.timeout_sec), 5.0);
    assert_eq!(c.algorithms.len(), 8);
    assert_eq!(c.algorithms[7], AlgorithmKind::Kruskal);
    let r = BenchmarkRunner::with_default();
    assert_eq!(r.config.algorithms, c.algorithms);
    let report = BenchmarkReport::default();
    assert!(report.results.is_empty());
}

#[test]
fn dashboard_keeps_the_latest_report() {
    let mut d = DashboardPanel::new();
    assert!(d.report.is_none());
    assert_eq!(d.selected_scale, ScaleView::Scale100);
    d.show_predictions = true;
    d.update_report(ComparisonReport::new());
    assert!(d.report.as_ref().unwrap().entries.is_empty());
    assert!(d.show_predictions);
}
