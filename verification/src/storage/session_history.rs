//! The history of algorithm runs: one record per run, identifiers handed out in
//! increasing order, and an in-memory cache of the most recent records. The caller
//! keeps the history file (one JSON record per line) and reads and appends it.

use vstd::prelude::*;
use crate::algorithm::state::AlgorithmKind;
use crate::graph::Graph;
use super::serializer::{civil_from_days, clock_fields, timestamp_text, write_timestamp};

verus! {

/// One run of an algorithm.
#[derive(Debug)]
pub struct SessionRecord {
    /// Identifier, increasing from one record to the next.
    pub id: u64,
    /// Time of the run, as `YYYY-MM-DDTHH:MM:SSZ`.
    pub timestamp: String,
    pub algorithm: AlgorithmKind,
    pub start_node: usize,
    /// Nodes of the graph at the time of the run.
    pub node_count: usize,
    /// Edges of the graph at the time of the run.
    pub edge_count: usize,
    /// Running time in milliseconds, as the bit pattern of an `f64`.
    pub elapsed_ms: u64,
    pub visit_order: Vec<usize>,
    pub edge_traversal_count: usize,
    /// A note the user may attach.
    pub note: Option<String>,
    /// Number of steps (snapshots) of the run.
    pub snapshot_count: usize,
}

/// The timestamp of a run `secs` seconds after the Unix epoch, in ISO 8601 form, UTC.
pub fn format_session_timestamp(secs: u64) -> (r: String)
    ensures
        r@ == timestamp_text(clock_fields(secs as nat)),
{
    let s = secs % 60;
    let m = (secs / 60) % 60;
    let h = (secs / 3600) % 24;
    let (year, month, day) = civil_from_days(secs / 86400);
    write_timestamp(year, month, day, h, m, s)
}

impl SessionRecord {
    /// The record of a run made `secs` seconds after the Unix epoch on `graph`; it has
    /// no note.
    pub fn new(
        id: u64,
        secs: u64,
        algorithm: AlgorithmKind,
        start_node: usize,
        graph: &Graph,
        elapsed_ms: u64,
        visit_order: Vec<usize>,
        edge_traversal_count: usize,
        snapshot_count: usize,
    ) -> (r: Self)
        ensures
            r.id == id,
            r.timestamp@ == timestamp_text(clock_fields(secs as nat)),
            r.algorithm == algorithm,
            r.start_node == start_node,
            r.node_count == graph.nodes.len(),
            r.edge_count == graph.edges.len(),
            r.elapsed_ms == elapsed_ms,
            r.visit_order == visit_order,
            r.edge_traversal_count == edge_traversal_count,
            r.note is None,
            r.snapshot_count == snapshot_count,
    {
        SessionRecord {
            id,
            timestamp: format_session_timestamp(secs),
            algorithm,
            start_node,
            node_count: graph.nodes.len(),
            edge_count: graph.edges.len(),
            elapsed_ms,
            visit_order,
            edge_traversal_count,
            note: None,
            snapshot_count,
        }
    }
}

/// The records of `s` that ran `kind`, in order.
pub open spec fn of_kind(s: Seq<SessionRecord>, kind: AlgorithmKind) -> Seq<SessionRecord>
    decreases s.len(),
{
    if s.len() == 0 {
        seq![]
    } else if s.last().algorithm == kind {
        of_kind(s.drop_last(), kind).push(s.last())
    } else {
        of_kind(s.drop_last(), kind)
    }
}

/// How many records of `s` ran `kind`.
pub open spec fn count_kind(s: Seq<SessionRecord>, kind: AlgorithmKind) -> nat {
    of_kind(s, kind).len()
}

/// The record ran `kind`.
pub open spec fn ran(kind: AlgorithmKind) -> spec_fn(SessionRecord) -> bool {
    |r: SessionRecord| r.algorithm == kind
}

/// The records listed for `kind` are exactly the records of `s` that ran `kind`, in
/// their order, and their count is how many records ran it.
pub proof fn law_of_kind_is_filter(s: Seq<SessionRecord>, kind: AlgorithmKind)
    ensures
        of_kind(s, kind) == s.filter(ran(kind)),
        count_kind(s, kind) == s.filter(ran(kind)).len(),
        forall|i: int| 0 <= i < count_kind(s, kind) ==> (#[trigger] of_kind(s, kind)[i]).algorithm == kind,
    decreases s.len(),
{
    reveal(Seq::filter);
    if s.len() > 0 {
        law_of_kind_is_filter(s.drop_last(), kind);
    }
    s.filter_lemma(ran(kind));
}

/// What the history holds: the cached records, oldest first; the cache limit; the
/// identifier the next record gets; and the number of records in the file.
pub struct SessionView {
    pub cache: Seq<SessionRecord>,
    pub max_cache: nat,
    pub next_id: nat,
    pub total_saved: nat,
}

/// The cache after `r` joins it: the oldest record leaves when the cache would exceed
/// its limit.
pub open spec fn cache_after_append(cache: Seq<SessionRecord>, max_cache: nat, r: SessionRecord) -> Seq<SessionRecord> {
    if cache.len() + 1 > max_cache {
        cache.push(r).drop_first()
    } else {
        cache.push(r)
    }
}

/// `r` with the next identifier, and the history with the counter moved on.
pub open spec fn assigned(v: SessionView, r: SessionRecord) -> (SessionRecord, SessionView) {
    (SessionRecord { id: v.next_id as u64, ..r }, SessionView { next_id: v.next_id + 1, ..v })
}

/// Two records given identifiers one after the other get increasing identifiers.
pub proof fn law_identifiers_increase(v: SessionView, r1: SessionRecord, r2: SessionRecord)
    requires
        v.next_id + 1 < u64::MAX,
    ensures
        assigned(v, r1).0.id < assigned(assigned(v, r1).1, r2).0.id,
{
}

/// The cache stays within its limit, and a committed record is the newest cached one.
pub proof fn law_cache_keeps_newest(cache: Seq<SessionRecord>, max_cache: nat, r: SessionRecord)
    requires
        cache.len() <= max_cache,
        max_cache > 0,
    ensures
        cache_after_append(cache, max_cache, r).len() <= max_cache,
        cache_after_append(cache, max_cache, r).last() == r,
{
}

/// The in-memory side of the run history.
#[derive(Debug)]
pub struct SessionHistory {
    cache: Vec<SessionRecord>,
    max_cache: usize,
    next_id: u64,
    total_saved: usize,
}

impl View for SessionHistory {
    type V = SessionView;

    closed spec fn view(&self) -> SessionView {
        SessionView {
            cache: self.cache@,
            max_cache: self.max_cache as nat,
            next_id: self.next_id as nat,
            total_saved: self.total_saved as nat,
        }
    }
}

impl SessionHistory {
    /// The cache never holds more than its limit, and the limit is positive.
    pub closed spec fn wf(&self) -> bool {
        &&& self.cache.len() <= self.max_cache
        &&& self.max_cache > 0
    }

    /// An empty history: no records, a cache of at most 100, the first identifier 1.
    pub fn new() -> (h: Self)
        ensures
            h.wf(),
            h@.cache.len() == 0,
            h@.max_cache == 100,
            h@.next_id == 1,
            h@.total_saved == 0,
    {
        SessionHistory { cache: Vec::new(), max_cache: 100, next_id: 1, total_saved: 0 }
    }

    /// Takes in the records read from the history file: all of them count as saved, the
    /// next identifier follows the last record's, and the cache keeps the most recent
    /// ones up to its limit. Returns how many records there were.
    pub fn load_records(&mut self, records: Vec<SessionRecord>) -> (total: usize)
        requires
            old(self).wf(),
            records.len() > 0 ==> records@.last().id < u64::MAX,
        ensures
            final(self).wf(),
            total == records.len(),
            final(self)@.total_saved == records.len(),
            final(self)@.max_cache == old(self)@.max_cache,
            final(self)@.next_id == if records.len() > 0 {
                records@.last().id + 1
            } else {
                old(self)@.next_id as int
            },
            final(self)@.cache == records@.subrange(
                if records.len() > old(self)@.max_cache {
                    records.len() - old(self)@.max_cache
                } else {
                    0int
                },
                records.len() as int,
            ),
    {
        let mut records = records;
        let total = records.len();
        self.total_saved = total;
        if total > 0 {
            self.next_id = records[total - 1].id + 1;
        }
        let start = if total > self.max_cache { total - self.max_cache } else { 0 };
        self.cache = records.split_off(start);
        total
    }

    /// The identifier the next record is given.
    pub fn next_id(&self) -> (r: u64)
        ensures
            r == self@.next_id,
    {
        self.next_id
    }


    /// Gives `record` the next identifier and moves the counter on, before the record
    /// is written out.
    pub fn assign_id(&mut self, record: SessionRecord) -> (r: SessionRecord)
        requires
            old(self).wf(),
            old(self)@.next_id < u64::MAX,
        ensures
            final(self).wf(),
            (r, final(self)@) == assigned(old(self)@, record),
    {
        let mut record = record;
        record.id = self.next_id;
        self.next_id = self.next_id + 1;
        record
    }

    /// Counts `record` as written to the file and caches it, dropping the oldest cached
    /// record when the cache is over its limit. Returns the record's identifier.
    pub fn commit(&mut self, record: SessionRecord) -> (id: u64)
        requires
            old(self).wf(),
            old(self)@.total_saved < usize::MAX,
        ensures
            final(self).wf(),
            id == record.id,
            final(self)@ == (SessionView {
                cache: cache_after_append(old(self)@.cache, old(self)@.max_cache, record),
                total_saved: old(self)@.total_saved + 1,
                ..old(self)@
            }),
    {
        self.total_saved = self.total_saved + 1;
        let id = record.id;
        let ghost r = record;
        self.cache.push(record);
        if self.cache.len() > self.max_cache {
            self.cache.remove(0);
        }
        proof {
            assert(self.cache@ =~= cache_after_append(old(self)@.cache, old(self)@.max_cache, r));
        }
        id
    }

    /// The cached records, newest first.
    pub fn recent_records(&self) -> (r: Vec<&SessionRecord>)
        ensures
            r.len() == self@.cache.len(),
            forall|i: int| 0 <= i < r.len() ==> *#[trigger] r@[i] == self@.cache[self@.cache.len() - 1 - i],
    {
        let mut r: Vec<&SessionRecord> = Vec::new();
        let mut k: usize = self.cache.len();
        while k > 0
            invariant
                k <= self.cache.len(),
                r.len() == self.cache.len() - k,
                forall|i: int| 0 <= i < r.len() ==> *#[trigger] r@[i] == self.cache@[self.cache.len() - 1 - i],
            decreases k,
        {
            r.push(&self.cache[k - 1]);
            k = k - 1;
        }
        r
    }

    /// The cached records of runs of `kind`, oldest first.
    pub fn records_for_algorithm(&self, kind: AlgorithmKind) -> (r: Vec<&SessionRecord>)
        ensures
            r.len() == count_kind(self@.cache, kind),
            forall|i: int| 0 <= i < r.len() ==> *#[trigger] r@[i] == of_kind(self@.cache, kind)[i],
    {
        let mut r: Vec<&SessionRecord> = Vec::new();
        let mut k: usize = 0;
        while k < self.cache.len()
            invariant
                k <= self.cache.len(),
                r.len() == of_kind(self.cache@.take(k as int), kind).len(),
                forall|i: int| 0 <= i < r.len() ==> *#[trigger] r@[i] == of_kind(self.cache@.take(k as int), kind)[i],
            decreases self.cache.len() - k,
        {
            proof {
                assert(self.cache@.take(k + 1).drop_last() =~= self.cache@.take(k as int));
            }
            if self.cache[k].algorithm == kind {
                r.push(&self.cache[k]);
            }
            k = k + 1;
        }
        proof {
            assert(self.cache@.take(k as int) =~= self.cache@);
        }
        r
    }

    /// Number of records in the history file.
    pub fn total_count(&self) -> (n: usize)
        ensures
            n == self@.total_saved,
    {
        self.total_saved
    }

    /// Number of cached records.
    pub fn cached_count(&self) -> (n: usize)
        ensures
            n == self@.cache.len(),
    {
        self.cache.len()
    }

    /// Empties the cache; the file and its count stay.
    pub fn clear_cache(&mut self)
        requires
            old(self).wf(),
        ensures
            final(self).wf(),
            final(self)@ == (SessionView { cache: seq![], ..old(self)@ }),
    {
        self.cache.clear();
    }

    /// The algorithm run most often among the cached records: none when the cache is
    /// empty; otherwise one whose count no other algorithm exceeds.
    pub fn most_used_algorithm(&self) -> (r: Option<AlgorithmKind>)
        ensures
            r is None <==> self@.cache.len() == 0,
            r matches Some(k) ==> count_kind(self@.cache, k) > 0 && forall|k2: AlgorithmKind|
                count_kind(self@.cache, k2) <= #[trigger] count_kind(self@.cache, k),
    {
        let mut counts: Vec<usize> = Vec::new();
        let mut j: usize = 0;
        while j < 10
            invariant
                j <= 10,
                counts.len() == j,
                forall|i: int| 0 <= i < j ==> #[trigger] counts@[i] == 0,
            decreases 10 - j,
        {
            counts.push(0);
            j = j + 1;
        }
        let mut k: usize = 0;
        while k < self.cache.len()
            invariant
                k <= self.cache.len(),
                counts.len() == 10,
                forall|i: int| 0 <= i < 10 ==> #[trigger] counts@[i] == count_kind(self.cache@.take(k as int), kind_at(i)),
            decreases self.cache.len() - k,
        {
            proof {
                assert(self.cache@.take(k + 1).drop_last() =~= self.cache@.take(k as int));
                lemma_count_le_len(self.cache@.take(k as int), self.cache[k as int].algorithm);
            }
            let idx = kind_index(self.cache[k].algorithm);
            counts.set(idx, counts[idx] + 1);
            k = k + 1;
            proof {
                assert forall|i: int| 0 <= i < 10 implies #[trigger] counts@[i] == count_kind(self.cache@.take(k as int), kind_at(i)) by {
                    lemma_kind_index(self.cache[k - 1].algorithm);
                    lemma_kind_at(i);
                }
            }
        }
        proof {
            assert(self.cache@.take(k as int) =~= self.cache@);
        }
        let mut best: usize = 0;
        let mut i: usize = 1;
        while i < 10
            invariant
                1 <= i <= 10,
                best < i,
                counts.len() == 10,
                forall|t: int| 0 <= t < i ==> counts@[t] <= #[trigger] counts@[best as int],
            decreases 10 - i,
        {
            if counts[i] > counts[best] {
                best = i;
            }
            i = i + 1;
        }
        proof {
            let s = self.cache@;
            let kb = kind_at(best as int);
            assert forall|k2: AlgorithmKind| count_kind(s, k2) <= #[trigger] count_kind(s, kb) by {
                lemma_kind_index(k2);
                assert(counts@[kind_index_spec(k2)] == count_kind(s, kind_at(kind_index_spec(k2))));
            }
            if s.len() > 0 {
                lemma_count_total(s);
            }
            if s.len() == 0 {
                assert forall|t: int| 0 <= t < 10 implies #[trigger] counts@[t] == 0 by {
                    assert(of_kind(s, kind_at(t)) =~= seq![]);
                }
            }
        }
        if counts[best] == 0 {
            None
        } else {
            Some(kind_at_exec(best))
        }
    }
}

impl Default for SessionHistory {
    fn default() -> (h: Self)
        ensures
            h.wf(),
            h@.cache.len() == 0,
            h@.max_cache == 100,
            h@.next_id == 1,
            h@.total_saved == 0,
    {
        SessionHistory::new()
    }
}

/// The position of each algorithm in the list of algorithms.
pub open spec fn kind_index_spec(k: AlgorithmKind) -> int {
    match k {
        AlgorithmKind::BFS => 0,
        AlgorithmKind::DFS => 1,
        AlgorithmKind::Dijkstra => 2,
        AlgorithmKind::BellmanFord => 3,
        AlgorithmKind::FloydWarshall => 4,
        AlgorithmKind::AStar => 5,
        AlgorithmKind::Prim => 6,
        AlgorithmKind::Kruskal => 7,
        AlgorithmKind::TopologicalSort => 8,
        AlgorithmKind::BidirectionalBFS => 9,
    }
}

/// The algorithm at each position of the list.
pub open spec fn kind_at(i: int) -> AlgorithmKind {
    if i == 0 {
        AlgorithmKind::BFS
    } else if i == 1 {
        AlgorithmKind::DFS
    } else if i == 2 {
        AlgorithmKind::Dijkstra
    } else if i == 3 {
        AlgorithmKind::BellmanFord
    } else if i == 4 {
        AlgorithmKind::FloydWarshall
    } else if i == 5 {
        AlgorithmKind::AStar
    } else if i == 6 {
        AlgorithmKind::Prim
    } else if i == 7 {
        AlgorithmKind::Kruskal
    } else if i == 8 {
        AlgorithmKind::TopologicalSort
    } else {
        AlgorithmKind::BidirectionalBFS
    }
}

proof fn lemma_kind_index(k: AlgorithmKind)
    ensures
        0 <= kind_index_spec(k) < 10,
        kind_at(kind_index_spec(k)) == k,
{
}

proof fn lemma_kind_at(i: int)
    requires
        0 <= i < 10,
    ensures
        kind_index_spec(kind_at(i)) == i,
{
}

fn kind_index(k: AlgorithmKind) -> (i: usize)
    ensures
        i == kind_index_spec(k),
        i < 10,
{
    match k {
        AlgorithmKind::BFS => 0,
        AlgorithmKind::DFS => 1,
        AlgorithmKind::Dijkstra => 2,
        AlgorithmKind::BellmanFord => 3,
        AlgorithmKind::FloydWarshall => 4,
        AlgorithmKind::AStar => 5,
        AlgorithmKind::Prim => 6,
        AlgorithmKind::Kruskal => 7,
        AlgorithmKind::TopologicalSort => 8,
        AlgorithmKind::BidirectionalBFS => 9,
    }
}

fn kind_at_exec(i: usize) -> (k: AlgorithmKind)
    ensures
        k == kind_at(i as int),
{
    if i == 0 {
        AlgorithmKind::BFS
    } else if i == 1 {
        AlgorithmKind::DFS
    } else if i == 2 {
        AlgorithmKind::Dijkstra
    } else if i == 3 {
        AlgorithmKind::BellmanFord
    } else if i == 4 {
        AlgorithmKind::FloydWarshall
    } else if i == 5 {
        AlgorithmKind::AStar
    } else if i == 6 {
        AlgorithmKind::Prim
    } else if i == 7 {
        AlgorithmKind::Kruskal
    } else if i == 8 {
        AlgorithmKind::TopologicalSort
    } else {
        AlgorithmKind::BidirectionalBFS
    }
}

proof fn lemma_count_le_len(s: Seq<SessionRecord>, k: AlgorithmKind)
    ensures
        count_kind(s, k) <= s.len(),
    decreases s.len(),
{
    if s.len() > 0 {
        lemma_count_le_len(s.drop_last(), k);
    }
}

/// A nonempty list has a record of some algorithm.
proof fn lemma_count_total(s: Seq<SessionRecord>)
    requires
        s.len() > 0,
    ensures
        count_kind(s, s.last().algorithm) > 0,
{
}

} // verus!
