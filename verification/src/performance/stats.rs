//! Comparing runs of several algorithms: one entry per algorithm, the fastest and the
//! one that visited fewest nodes.

use vstd::prelude::*;
use crate::algorithm::state::AlgorithmKind;
use crate::algorithm::kruskal::{weight_key, weight_order_key};

verus! {

/// What one measured run gave.
#[derive(Debug, Clone, Copy)]
pub struct PerformanceResult {
    /// Running time in milliseconds, as the bit pattern of an `f64`.
    pub elapsed_ms: u64,
    /// Number of nodes visited.
    pub visited_count: usize,
    /// Number of edges examined.
    pub edge_traversal_count: usize,
}

impl Default for PerformanceResult {
    fn default() -> (r: Self)
        ensures
            r.elapsed_ms == 0,
            r.visited_count == 0,
            r.edge_traversal_count == 0,
    {
        PerformanceResult { elapsed_ms: 0, visited_count: 0, edge_traversal_count: 0 }
    }
}

/// The predicted running time on a graph of a given size.
#[derive(Debug, Clone, Copy)]
pub struct PredictionPoint {
    pub node_count: usize,
    pub edge_count: usize,
    /// Predicted time in milliseconds, as the bit pattern of an `f64`.
    pub predicted_ms: u64,
}

/// The measurement and predictions for one algorithm.
#[derive(Debug, Clone)]
pub struct AlgorithmStats {
    pub kind: AlgorithmKind,
    pub performance: PerformanceResult,
    pub predictions: Vec<PredictionPoint>,
}

/// The entries of a comparison, at most one per algorithm when built with `add`.
#[derive(Debug, Clone)]
pub struct ComparisonReport {
    pub entries: Vec<AlgorithmStats>,
}

/// Position of the first entry of `s` for `kind`, or `s.len()` when there is none.
pub open spec fn entry_of(s: Seq<AlgorithmStats>, kind: AlgorithmKind) -> int
    decreases s.len(),
{
    if s.len() == 0 {
        0
    } else if entry_of(s.drop_last(), kind) < s.len() - 1 {
        entry_of(s.drop_last(), kind)
    } else if s.last().kind == kind {
        s.len() - 1
    } else {
        s.len() as int
    }
}

proof fn lemma_entry_of(s: Seq<AlgorithmStats>, kind: AlgorithmKind)
    ensures
        0 <= entry_of(s, kind) <= s.len(),
        entry_of(s, kind) < s.len() ==> s[entry_of(s, kind)].kind == kind,
        forall|j: int| 0 <= j < entry_of(s, kind) ==> (#[trigger] s[j]).kind != kind,
    decreases s.len(),
{
    if s.len() > 0 {
        lemma_entry_of(s.drop_last(), kind);
        let d = s.drop_last();
        assert forall|j: int| 0 <= j < entry_of(s, kind) implies (#[trigger] s[j]).kind != kind by {
            if j < d.len() {
                assert(s[j] == d[j]);
            }
        }
        if entry_of(d, kind) < d.len() {
            assert(s[entry_of(d, kind)] == d[entry_of(d, kind)]);
        }
    }
}

/// Entry `i` is the first of `s` with the smallest key.
pub open spec fn first_least(s: Seq<AlgorithmStats>, key: spec_fn(AlgorithmStats) -> int, i: int) -> bool {
    &&& 0 <= i < s.len()
    &&& forall|j: int| 0 <= j < s.len() ==> key(s[i]) <= key(#[trigger] s[j])
    &&& forall|j: int| 0 <= j < i ==> key(s[i]) < key(#[trigger] s[j])
}

/// Orders entries by running time, as `f64::total_cmp` orders the times.
pub open spec fn time_key() -> spec_fn(AlgorithmStats) -> int {
    |e: AlgorithmStats| weight_key(e.performance.elapsed_ms)
}

/// Orders entries by the number of nodes visited.
pub open spec fn visits_key() -> spec_fn(AlgorithmStats) -> int {
    |e: AlgorithmStats| e.performance.visited_count as int
}

impl ComparisonReport {
    /// An empty report.
    pub fn new() -> (r: Self)
        ensures
            r.entries@.len() == 0,
    {
        ComparisonReport { entries: Vec::new() }
    }

    /// Puts `stats` in the report: in place of the first entry for the same algorithm,
    /// or at the end when there is none.
    pub fn add(&mut self, stats: AlgorithmStats)
        ensures
            final(self).entries@ == if entry_of(old(self).entries@, stats.kind) < old(self).entries.len() {
                old(self).entries@.update(entry_of(old(self).entries@, stats.kind), stats)
            } else {
                old(self).entries@.push(stats)
            },
    {
        proof {
            lemma_entry_of(self.entries@, stats.kind);
        }
        let mut i: usize = 0;
        while i < self.entries.len()
            invariant
                i <= self.entries.len(),
                self.entries@ == old(self).entries@,
                forall|j: int| 0 <= j < i ==> (#[trigger] self.entries@[j]).kind != stats.kind,
            decreases self.entries.len() - i,
        {
            if self.entries[i].kind == stats.kind {
                proof {
                    lemma_entry_of(self.entries@, stats.kind);
                    assert(entry_of(self.entries@, stats.kind) == i) by {
                        if entry_of(self.entries@, stats.kind) < i {
                            assert(self.entries@[entry_of(self.entries@, stats.kind)].kind == stats.kind);
                        }
                        if entry_of(self.entries@, stats.kind) > i {
                            assert(self.entries@[i as int].kind == stats.kind);
                        }
                    }
                }
                self.entries.set(i, stats);
                return;
            }
            i = i + 1;
        }
        proof {
            lemma_entry_of(self.entries@, stats.kind);
            if entry_of(self.entries@, stats.kind) < self.entries.len() {
                assert(self.entries@[entry_of(self.entries@, stats.kind)].kind == stats.kind);
            }
        }
        self.entries.push(stats);
    }

    /// The entry with the shortest running time (the first of several), none when the
    /// report is empty.
    pub fn fastest(&self) -> (r: Option<&AlgorithmStats>)
        ensures
            r is None <==> self.entries.len() == 0,
            r matches Some(e) ==> exists|i: int| first_least(self.entries@, time_key(), i) && *e == self.entries@[i],
    {
        if self.entries.len() == 0 {
            return None;
        }
        let mut best: usize = 0;
        let mut i: usize = 1;
        while i < self.entries.len()
            invariant
                1 <= i <= self.entries.len(),
                best < i,
                forall|j: int| 0 <= j < i ==> weight_key(self.entries@[best as int].performance.elapsed_ms) <= weight_key(
                    (#[trigger] self.entries@[j]).performance.elapsed_ms,
                ),
                forall|j: int| 0 <= j < best ==> weight_key(self.entries@[best as int].performance.elapsed_ms) < weight_key(
                    (#[trigger] self.entries@[j]).performance.elapsed_ms,
                ),
            decreases self.entries.len() - i,
        {
            if weight_order_key(self.entries[i].performance.elapsed_ms) < weight_order_key(
                self.entries[best].performance.elapsed_ms,
            ) {
                best = i;
            }
            i = i + 1;
        }
        proof {
            assert(first_least(self.entries@, time_key(), best as int));
        }
        Some(&self.entries[best])
    }

    /// The entry that visited the fewest nodes (the first of several), none when the
    /// report is empty.
    pub fn most_efficient(&self) -> (r: Option<&AlgorithmStats>)
        ensures
            r is None <==> self.entries.len() == 0,
            r matches Some(e) ==> exists|i: int| first_least(self.entries@, visits_key(), i) && *e == self.entries@[i],
    {
        if self.entries.len() == 0 {
            return None;
        }
        let mut best: usize = 0;
        let mut i: usize = 1;
        while i < self.entries.len()
            invariant
                1 <= i <= self.entries.len(),
                best < i,
                forall|j: int| 0 <= j < i ==> self.entries@[best as int].performance.visited_count <= (
                #[trigger] self.entries@[j]).performance.visited_count,
                forall|j: int| 0 <= j < best ==> self.entries@[best as int].performance.visited_count < (
                #[trigger] self.entries@[j]).performance.visited_count,
            decreases self.entries.len() - i,
        {
            if self.entries[i].performance.visited_count < self.entries[best].performance.visited_count {
                best = i;
            }
            i = i + 1;
        }
        proof {
            assert(first_least(self.entries@, visits_key(), best as int));
        }
        Some(&self.entries[best])
    }
}

impl Default for ComparisonReport {
    fn default() -> (r: Self)
        ensures
            r.entries@.len() == 0,
    {
        ComparisonReport::new()
    }
}

/// After `add`, each algorithm has at most one entry if it had before.
pub proof fn law_add_keeps_one_entry_per_algorithm(s: Seq<AlgorithmStats>, stats: AlgorithmStats)
    requires
        forall|i: int, j: int| 0 <= i < j < s.len() ==> (#[trigger] s[i]).kind != (#[trigger] s[j]).kind,
    ensures
        ({
            let t = if entry_of(s, stats.kind) < s.len() {
                s.update(entry_of(s, stats.kind), stats)
            } else {
                s.push(stats)
            };
            forall|i: int, j: int| 0 <= i < j < t.len() ==> (#[trigger] t[i]).kind != (#[trigger] t[j]).kind
        }),
{
    lemma_entry_of(s, stats.kind);
    let k = entry_of(s, stats.kind);
    let t = if k < s.len() {
        s.update(k, stats)
    } else {
        s.push(stats)
    };
    assert forall|i: int, j: int| 0 <= i < j < t.len() implies (#[trigger] t[i]).kind != (#[trigger] t[j]).kind by {
        if k < s.len() {
            if i == k {
                assert(s[k].kind == stats.kind);
                assert(s[j].kind != s[k].kind);
            } else if j == k {
                assert(s[i].kind != stats.kind);
            }
        } else {
            if j == s.len() {
                assert(t[i] == s[i]);
            }
        }
    }
}

} // verus!
