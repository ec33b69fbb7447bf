//! Settings and results of repeated timing runs over several algorithms. Times are kept
//! as the bit patterns of `f64` milliseconds.

use vstd::prelude::*;
use crate::algorithm::state::AlgorithmKind;

verus! {

/// The timing of one algorithm over repeated runs.
#[derive(Debug, Clone)]
pub struct AlgoBenchResult {
    pub kind: AlgorithmKind,
    pub iterations: usize,
    pub mean_ms: u64,
    pub std_dev_ms: u64,
    pub min_ms: u64,
    pub max_ms: u64,
    pub median_ms: u64,
    pub samples: Vec<u64>,
    pub node_count: usize,
    pub edge_count: usize,
}

/// The timings of several algorithms on one graph.
#[derive(Debug, Clone)]
pub struct BenchmarkReport {
    pub results: Vec<AlgoBenchResult>,
    pub graph_node_count: usize,
    pub graph_edge_count: usize,
    pub total_elapsed_ms: u64,
}

impl Default for BenchmarkReport {
    fn default() -> (r: Self)
        ensures
            r.results@.len() == 0,
            r.graph_node_count == 0,
            r.graph_edge_count == 0,
            r.total_elapsed_ms == 0,
    {
        BenchmarkReport { results: Vec::new(), graph_node_count: 0, graph_edge_count: 0, total_elapsed_ms: 0 }
    }
}

/// How to time: warm-up runs, measured runs, a time limit and the algorithms to time.
#[derive(Debug, Clone)]
pub struct BenchmarkConfig {
    pub warmup: usize,
    pub iterations: usize,
    pub timeout_sec: u64,
    pub algorithms: Vec<AlgorithmKind>,
}

/// The bit pattern of 5.0 as an `f64`.
pub const FIVE_SECONDS: u64 = 0x4014_0000_0000_0000u64;

/// The algorithms timed by default: all but the topological sort and the bidirectional
/// search.
pub open spec fn default_algorithms() -> Seq<AlgorithmKind> {
    seq![
        AlgorithmKind::BFS,
        AlgorithmKind::DFS,
        AlgorithmKind::Dijkstra,
        AlgorithmKind::BellmanFord,
        AlgorithmKind::FloydWarshall,
        AlgorithmKind::AStar,
        AlgorithmKind::Prim,
        AlgorithmKind::Kruskal,
    ]
}

impl Default for BenchmarkConfig {
    /// Two warm-up runs, ten measured runs, five seconds, and the default algorithms.
    fn default() -> (r: Self)
        ensures
            r.warmup == 2,
            r.iterations == 10,
            r.timeout_sec == FIVE_SECONDS,
            r.algorithms@ == default_algorithms(),
    {
        let algorithms = vec![
            AlgorithmKind::BFS,
            AlgorithmKind::DFS,
            AlgorithmKind::Dijkstra,
            AlgorithmKind::BellmanFord,
            AlgorithmKind::FloydWarshall,
            AlgorithmKind::AStar,
            AlgorithmKind::Prim,
            AlgorithmKind::Kruskal,
        ];
        assert(algorithms@ =~= default_algorithms());
        BenchmarkConfig { warmup: 2, iterations: 10, timeout_sec: FIVE_SECONDS, algorithms }
    }
}

/// Runs timings with a configuration.
pub struct BenchmarkRunner {
    pub config: BenchmarkConfig,
}

impl BenchmarkRunner {
    /// A runner with `config`.
    pub fn new(config: BenchmarkConfig) -> (r: Self)
        ensures
            r.config == config,
    {
        BenchmarkRunner { config }
    }

    /// A runner with the default configuration.
    pub fn with_default() -> (r: Self)
        ensures
            r.config.warmup == 2,
            r.config.iterations == 10,
            r.config.timeout_sec == FIVE_SECONDS,
            r.config.algorithms@ == default_algorithms(),
    {
        Self::new(BenchmarkConfig::default())
    }
}

} // verus!
