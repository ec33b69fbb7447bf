//! Kruskal's minimum spanning tree: candidate edges sorted by weight, then taken
//! greedily whenever they join two trees, tracked with a disjoint-set forest.

use vstd::prelude::*;
use crate::graph::{Graph, GraphView, Edge, lemma_covers_below};
use crate::graph::weight::{is_finite_weight, is_negative_weight, magnitude, value_in_units, lemma_size_monotone};
use super::bfs::lex_less;
use super::state::{AlgorithmKind, AlgorithmResult, StateSnapshot, StepMessage, all_false, copy_all, copy_flags};

verus! {

/// Some element has rank `j`.
pub open spec fn rank_occurs(r: Seq<usize>, j: int) -> bool {
    exists|y: int| 0 <= y < r.len() && r[y] == j
}

/// The parent and rank arrays are a forest of disjoint sets: parents are in range, the
/// rank grows strictly towards a root, every rank is below the number of elements, and
/// each positive rank has the rank just below it somewhere in the forest.
pub open spec fn forest_wf(p: Seq<usize>, r: Seq<usize>) -> bool {
    &&& p.len() == r.len()
    &&& forall|i: int| 0 <= i < p.len() ==> #[trigger] p[i] < p.len()
    &&& forall|i: int| 0 <= i < p.len() ==> #[trigger] r[i] < p.len()
    &&& forall|i: int| 0 <= i < p.len() && #[trigger] p[i] != i ==> r[i] < r[p[i] as int]
    &&& forall|i: int| 0 <= i < p.len() && #[trigger] r[i] > 0 ==> rank_occurs(r, r[i] - 1)
}

/// The root of the tree holding `x`: follow parents until a node is its own parent.
pub open spec fn root(p: Seq<usize>, r: Seq<usize>, x: int) -> int
    decreases r.len() - r[x],
    when forest_wf(p, r) && 0 <= x < p.len()
{
    if p[x] as int == x {
        x
    } else {
        root(p, r, p[x] as int)
    }
}

/// The representative of each element.
pub open spec fn roots(p: Seq<usize>, r: Seq<usize>) -> Seq<int> {
    Seq::new(p.len(), |x: int| root(p, r, x))
}

/// A disjoint-set forest with union by rank and path compression.
pub struct UnionFind {
    parent: Vec<usize>,
    rank: Vec<usize>,
}

impl View for UnionFind {
    /// The representative of each element; two elements are in one set exactly when
    /// their representatives agree.
    type V = Seq<int>;

    closed spec fn view(&self) -> Seq<int> {
        roots(self.parent@, self.rank@)
    }
}

/// The root of a tree is a root, holds the tree's highest rank, and is in range.
proof fn lemma_root(p: Seq<usize>, r: Seq<usize>, x: int)
    requires
        forest_wf(p, r),
        0 <= x < p.len(),
    ensures
        0 <= root(p, r, x) < p.len(),
        p[root(p, r, x)] == root(p, r, x),
        r[root(p, r, x)] >= r[x],
        p[x] as int == x ==> root(p, r, x) == x,
        p[x] as int != x ==> root(p, r, x) == root(p, r, p[x] as int) && r[root(p, r, x)] > r[x],
    decreases r.len() - r[x],
{
    if p[x] as int != x {
        assert(r[x] < r[p[x] as int]);
        lemma_root(p, r, p[x] as int);
    }
}

/// Pointing `x` straight at its root keeps the forest and every element's root.
proof fn lemma_compress(p: Seq<usize>, r: Seq<usize>, x: int)
    requires
        forest_wf(p, r),
        0 <= x < p.len(),
    ensures
        forest_wf(p.update(x, root(p, r, x) as usize), r),
        forall|z: int| 0 <= z < p.len() ==> #[trigger] root(p.update(x, root(p, r, x) as usize), r, z) == root(p, r, z),
{
    let t = root(p, r, x);
    lemma_root(p, r, x);
    let q = p.update(x, t as usize);
    assert(forest_wf(q, r)) by {
        assert forall|i: int| 0 <= i < q.len() && #[trigger] q[i] != i implies r[i] < r[q[i] as int] by {
            if i == x {
                lemma_root(p, r, x);
            }
        }
    }
    assert forall|z: int| 0 <= z < p.len() implies #[trigger] root(q, r, z) == root(p, r, z) by {
        lemma_compress_at(p, r, x, z);
    }
}

proof fn lemma_compress_at(p: Seq<usize>, r: Seq<usize>, x: int, z: int)
    requires
        forest_wf(p, r),
        0 <= x < p.len(),
        0 <= z < p.len(),
        forest_wf(p.update(x, root(p, r, x) as usize), r),
    ensures
        root(p.update(x, root(p, r, x) as usize), r, z) == root(p, r, z),
    decreases r.len() - r[z],
{
    let t = root(p, r, x);
    let q = p.update(x, t as usize);
    lemma_root(p, r, x);
    lemma_root(p, r, z);
    if z == x {
        if p[x] as int != x {
            assert(q[t] == t);
            assert(root(q, r, t) == t);
        }
    } else if p[z] as int == z {
    } else {
        assert(q[z] == p[z]);
        lemma_compress_at(p, r, x, p[z] as int);
    }
}

/// Hanging root `a` under root `b` (whose rank may grow by one) merges their trees.
proof fn lemma_link(p: Seq<usize>, r: Seq<usize>, r2: Seq<usize>, a: int, b: int, z: int)
    requires
        forest_wf(p, r),
        0 <= a < p.len(),
        0 <= b < p.len(),
        a != b,
        p[a] as int == a,
        p[b] as int == b,
        forest_wf(p.update(a, b as usize), r2),
        r2.len() == r.len(),
        forall|i: int| 0 <= i < r.len() && i != b ==> r2[i] == r[i],
        0 <= z < p.len(),
    ensures
        root(p.update(a, b as usize), r2, z) == if root(p, r, z) == a {
            b
        } else {
            root(p, r, z)
        },
    decreases r.len() - r[z],
{
    let q = p.update(a, b as usize);
    lemma_root(p, r, z);
    if z == a {
        assert(q[b] == b);
        assert(root(q, r2, b) == b);
    } else if p[z] as int == z {
    } else {
        assert(q[z] == p[z]);
        lemma_link(p, r, r2, a, b, p[z] as int);
    }
}

/// Every rank from 0 up to one that occurs occurs in the forest.
proof fn lemma_ranks_below(p: Seq<usize>, r: Seq<usize>, k: int)
    requires
        forest_wf(p, r),
        0 <= k,
        rank_occurs(r, k),
    ensures
        forall|j: int| 0 <= j <= k ==> #[trigger] rank_occurs(r, j),
    decreases k,
{
    let x = choose|x: int| 0 <= x < r.len() && r[x] == k;
    if k > 0 {
        assert(r[x] > 0);
        assert(rank_occurs(r, k - 1));
        lemma_ranks_below(p, r, k - 1);
    }
}

/// Two distinct elements of rank `k` need `k + 2` elements at least.
proof fn lemma_two_of_rank(p: Seq<usize>, r: Seq<usize>, a: int, b: int)
    requires
        forest_wf(p, r),
        0 <= a < p.len(),
        0 <= b < p.len(),
        a != b,
        r[a] == r[b],
    ensures
        r[a] + 2 <= p.len(),
{
    let k = r[a] as int;
    assert(rank_occurs(r, k));
    lemma_ranks_below(p, r, k);
    let low = Seq::new(k as nat, |j: int| choose|y: int| 0 <= y < r.len() && r[y] == j);
    assert forall|j: int| 0 <= j < k implies 0 <= #[trigger] low[j] < p.len() && r[low[j]] == j by {
        assert(rank_occurs(r, j));
    }
    let w = low.push(a).push(b);
    let n = p.len() as int;
    assert forall|i: int| 0 <= i < w.len() implies 0 <= #[trigger] w[i] < n && r[w[i]] == if i < k {
        i
    } else {
        k
    } by {
        if i < k {
            assert(w[i] == low[i]);
        }
    }
    assert(w.no_duplicates()) by {
        assert forall|i: int, j: int| 0 <= i < w.len() && 0 <= j < w.len() && i != j implies w[i] != w[j] by {
            assert(0 <= w[i] < n && 0 <= w[j] < n);
            if i >= k && j >= k {
                assert(w[k] == a);
                assert(w[k + 1] == b);
            }
        }
    }
    w.unique_seq_to_set();
    vstd::set_lib::lemma_int_range(0, n);
    assert(w.to_set().subset_of(vstd::set_lib::set_int_range(0, n))) by {
        assert forall|v: int| w.to_set().contains(v) implies vstd::set_lib::set_int_range(0, n).contains(v) by {
            let i = choose|i: int| 0 <= i < w.len() && w[i] == v;
            assert(0 <= w[i] < n);
        }
    }
    vstd::set_lib::lemma_len_subset(w.to_set(), vstd::set_lib::set_int_range(0, n));
}

impl UnionFind {
    /// The forest is well formed.
    pub closed spec fn wf(&self) -> bool {
        forest_wf(self.parent@, self.rank@)
    }

    /// The rank of each element: an upper bound on the height of its subtree.
    pub closed spec fn ranks(&self) -> Seq<usize> {
        self.rank@
    }

    /// Number of elements.
    pub closed spec fn size(&self) -> nat {
        self.parent@.len()
    }

    /// `n` elements, each in a set of its own.
    pub fn new(n: usize) -> (uf: Self)
        ensures
            uf.wf(),
            uf.size() == n,
            uf@.len() == n,
            forall|x: int| 0 <= x < n ==> #[trigger] uf@[x] == x,
    {
        let mut parent: Vec<usize> = Vec::new();
        let mut rank: Vec<usize> = Vec::new();
        let mut i: usize = 0;
        while i < n
            invariant
                i <= n,
                parent.len() == i,
                rank.len() == i,
                forall|j: int| 0 <= j < i ==> #[trigger] parent@[j] == j,
                forall|j: int| 0 <= j < i ==> #[trigger] rank@[j] == 0,
            decreases n - i,
        {
            parent.push(i);
            rank.push(0);
            i = i + 1;
        }
        let uf = UnionFind { parent, rank };
        proof {
            assert(forest_wf(uf.parent@, uf.rank@));
            assert forall|x: int| 0 <= x < n implies #[trigger] uf@[x] == x by {
                assert(root(uf.parent@, uf.rank@, x) == x);
            }
        }
        uf
    }

    /// The representative of the set holding `x`. Every element on the way to it is
    /// made to point at it directly; no element changes set.
    pub fn find(&mut self, x: usize) -> (r: usize)
        requires
            old(self).wf(),
            x < old(self).size(),
        ensures
            final(self).wf(),
            final(self).size() == old(self).size(),
            final(self)@ == old(self)@,
            r == old(self)@[x as int],
            final(self).ranks() == old(self).ranks(),
        decreases old(self).ranks().len() - old(self).ranks()[x as int],
    {
        proof {
            lemma_root(self.parent@, self.rank@, x as int);
        }
        let px = self.parent[x];
        if px != x {
            let ghost p0 = self.parent@;
            let ghost r0 = self.rank@;
            assert(r0[x as int] < r0[px as int]);
            let r = self.find(px);
            proof {
                assert(roots(self.parent@, self.rank@)[px as int] == roots(p0, r0)[px as int]);
                assert(root(p0, r0, x as int) == root(p0, r0, px as int));
                assert forall|z: int| 0 <= z < p0.len() implies #[trigger] root(self.parent@, self.rank@, z) == root(p0, r0, z) by {
                    assert(roots(self.parent@, self.rank@)[z] == roots(p0, r0)[z]);
                }
                lemma_root(self.parent@, self.rank@, x as int);
                lemma_compress(self.parent@, self.rank@, x as int);
            }
            let ghost p1 = self.parent@;
            self.parent.set(x, r);
            proof {
                assert(self.parent@ == p1.update(x as int, root(p1, r0, x as int) as usize));
                assert(roots(self.parent@, self.rank@) =~= roots(p0, r0)) by {
                    assert forall|z: int| 0 <= z < p0.len() implies #[trigger] roots(self.parent@, self.rank@)[z] == roots(p0, r0)[z] by {
                        assert(root(self.parent@, r0, z) == root(p1, r0, z));
                        assert(root(p1, r0, z) == root(p0, r0, z));
                    }
                }
            }
            r
        } else {
            proof {
                assert(root(self.parent@, self.rank@, x as int) == x);
            }
            x
        }
    }

    /// Merges the sets of `x` and `y`; `false` when they were one set already, and
    /// then nothing changes. By rank: the root of lower rank goes under the other; on
    /// equal ranks `y`'s root goes under `x`'s, whose rank grows by one.
    #[verifier::rlimit(40)]
    pub fn union(&mut self, x: usize, y: usize) -> (merged: bool)
        requires
            old(self).wf(),
            x < old(self).size(),
            y < old(self).size(),
        ensures
            final(self).wf(),
            final(self).size() == old(self).size(),
            merged == (old(self)@[x as int] != old(self)@[y as int]),
            !merged ==> final(self)@ == old(self)@ && final(self).ranks() == old(self).ranks(),
            merged ==> final(self)@[x as int] == if old(self).ranks()[old(self)@[x as int]]
                < old(self).ranks()[old(self)@[y as int]] {
                old(self)@[y as int]
            } else {
                old(self)@[x as int]
            },
            merged ==> final(self).ranks() == if old(self).ranks()[old(self)@[x as int]]
                == old(self).ranks()[old(self)@[y as int]] {
                old(self).ranks().update(
                    old(self)@[x as int],
                    (old(self).ranks()[old(self)@[x as int]] + 1) as usize,
                )
            } else {
                old(self).ranks()
            },
            merged ==> forall|z: int|
                0 <= z < old(self).size() ==> #[trigger] final(self)@[z] == if old(self)@[z] == old(self)@[x as int]
                    || old(self)@[z] == old(self)@[y as int] {
                    final(self)@[x as int]
                } else {
                    old(self)@[z]
                },
    {
        let ghost v0 = self@;
        let rx = self.find(x);
        let ry = self.find(y);
        if rx == ry {
            return false;
        }
        let ghost p = self.parent@;
        let ghost rk = self.rank@;
        proof {
            lemma_root(p, rk, x as int);
            lemma_root(p, rk, y as int);
            assert(roots(p, rk)[x as int] == v0[x as int]);
            assert(roots(p, rk)[y as int] == v0[y as int]);
        }
        if self.rank[rx] < self.rank[ry] {
            proof {
                lemma_link_wf(p, rk, rx as int, ry as int);
            }
            self.parent.set(rx, ry);
            proof {
                lemma_linked(p, rk, self.parent@, self.rank@, rx as int, ry as int, v0, x, y);
            }
        } else if self.rank[ry] < self.rank[rx] {
            proof {
                lemma_link_wf(p, rk, ry as int, rx as int);
            }
            self.parent.set(ry, rx);
            proof {
                lemma_linked(p, rk, self.parent@, self.rank@, ry as int, rx as int, v0, x, y);
            }
        } else {
            proof {
                assert(p.len() == self.parent.len());
                assert(rk[rx as int] == rk[ry as int]);
                assert(p[rx as int] == rx);
                assert(p[ry as int] == ry);
                lemma_link_equal_wf(p, rk, ry as int, rx as int);
            }
            self.parent.set(ry, rx);
            let k = self.rank[rx];
            self.rank.set(rx, k + 1);
            assert(self.rank@ == rk.update(rx as int, (rk[rx as int] + 1) as usize));
            proof {
                let q = self.parent@;
                let r2 = self.rank@;
                lemma_link_equal_wf(p, rk, ry as int, rx as int);
                lemma_linked(p, rk, q, r2, ry as int, rx as int, v0, x, y);
            }
        }
        true
    }
}

/// Hanging root `a` under root `b` leaves every element's root alone except those of
/// `a`'s tree, which now reach `b`.
proof fn lemma_linked(
    p: Seq<usize>,
    rk: Seq<usize>,
    q: Seq<usize>,
    r2: Seq<usize>,
    a: int,
    b: int,
    v0: Seq<int>,
    x: usize,
    y: usize,
)
    requires
        forest_wf(p, rk),
        0 <= a < p.len(),
        0 <= b < p.len(),
        a != b,
        p[a] as int == a,
        p[b] as int == b,
        q == p.update(a, b as usize),
        forest_wf(q, r2),
        r2.len() == rk.len(),
        forall|i: int| 0 <= i < rk.len() && i != b ==> r2[i] == rk[i],
        v0 == roots(p, rk),
        x < p.len(),
        y < p.len(),
        (v0[x as int] == a && v0[y as int] == b) || (v0[x as int] == b && v0[y as int] == a),
    ensures
        roots(q, r2).len() == v0.len(),
        roots(q, r2)[x as int] == b,
        forall|z: int|
            0 <= z < v0.len() ==> #[trigger] roots(q, r2)[z] == if v0[z] == v0[x as int] || v0[z] == v0[y as int] {
                b
            } else {
                v0[z]
            },
{
    assert forall|z: int| 0 <= z < v0.len() implies #[trigger] roots(q, r2)[z] == if v0[z] == v0[x as int] || v0[z]
        == v0[y as int] {
        b
    } else {
        v0[z]
    } by {
        lemma_link(p, rk, r2, a, b, z);
        lemma_root(p, rk, z);
        assert(roots(q, r2)[z] == root(q, r2, z));
        assert(v0[z] == root(p, rk, z));
    }
    lemma_link(p, rk, r2, a, b, x as int);
}

/// Hanging root `a` under root `b` of the same rank, and raising `b`'s rank by one,
/// keeps the forest well formed.
proof fn lemma_link_equal_wf(p: Seq<usize>, rk: Seq<usize>, a: int, b: int)
    requires
        forest_wf(p, rk),
        0 <= a < p.len(),
        0 <= b < p.len(),
        a != b,
        p[a] as int == a,
        p[b] as int == b,
        rk[a] == rk[b],
        p.len() <= usize::MAX,
    ensures
        rk[b] + 1 < p.len(),
        forest_wf(p.update(a, b as usize), rk.update(b, (rk[b] + 1) as usize)),
{
    lemma_two_of_rank(p, rk, a, b);
    let q = p.update(a, b as usize);
    let r2 = rk.update(b, (rk[b] + 1) as usize);
    assert(q[a] == p[b]);
    assert forall|i: int| 0 <= i < q.len() && #[trigger] q[i] != i implies r2[i] < r2[q[i] as int] by {
        if i != a {
            assert(p[i] != i);
            assert(rk[i] < rk[p[i] as int]);
        }
    }
    assert forall|i: int| 0 <= i < q.len() && #[trigger] r2[i] > 0 implies rank_occurs(r2, r2[i] - 1) by {
        if i == b {
            assert(r2[a] == rk[b]);
        } else {
            assert(rk[i] > 0);
            assert(rank_occurs(rk, rk[i] - 1));
            let j = choose|j: int| 0 <= j < rk.len() && rk[j] == rk[i] - 1;
            if j == b {
                assert(r2[a] == rk[i] - 1);
            } else {
                assert(r2[j] == rk[i] - 1);
            }
        }
    }
}

/// Hanging a root under a root of higher rank keeps the forest well formed.
proof fn lemma_link_wf(p: Seq<usize>, rk: Seq<usize>, a: int, b: int)
    requires
        forest_wf(p, rk),
        0 <= a < p.len(),
        0 <= b < p.len(),
        p[a] as int == a,
        p[b] as int == b,
        rk[a] < rk[b],
    ensures
        forest_wf(p.update(a, b as usize), rk),
{
    let q = p.update(a, b as usize);
    assert(q[a] == p[b]);
    assert forall|i: int| 0 <= i < q.len() && #[trigger] q[i] != i implies rk[i] < rk[q[i] as int] by {
        if i != a {
            assert(p[i] != i);
        }
    }
}

// ───────────────────────────── ordering the edges ───────────────────────────

/// The position of a weight (an `f64` bit pattern) in the total order of `f64::total_cmp`:
/// negative numbers below positive ones, magnitudes ordered by their bits.
pub open spec fn weight_key(w: u64) -> int {
    if w < 0x8000_0000_0000_0000 {
        w + 0x8000_0000_0000_0000
    } else {
        0xFFFF_FFFF_FFFF_FFFF - w
    }
}

/// The position of weight `w` in the order of `f64::total_cmp`.
pub fn weight_order_key(w: u64) -> (k: u64)
    ensures
        k == weight_key(w),
{
    if w < 0x8000_0000_0000_0000 {
        w + 0x8000_0000_0000_0000
    } else {
        0xFFFF_FFFF_FFFF_FFFF - w
    }
}

/// Keys order finite weights by the numbers they stand for: a smaller number always has
/// a smaller key.
pub proof fn law_weight_key_orders_values(a: u64, b: u64)
    requires
        is_finite_weight(a),
        is_finite_weight(b),
        value_in_units(a) < value_in_units(b),
    ensures
        weight_key(a) < weight_key(b),
{
    if weight_key(a) >= weight_key(b) {
        if !is_negative_weight(a) && !is_negative_weight(b) {
            lemma_size_monotone(magnitude(a) as nat, magnitude(b) as nat);
        } else if is_negative_weight(a) && is_negative_weight(b) {
            lemma_size_monotone(magnitude(b) as nat, magnitude(a) as nat);
        }
    }
}

/// A candidate edge of the spanning forest: weight bits, source, target.
pub type Candidate = (u64, usize, usize);

/// The edges Kruskal considers, in edge-list order: every edge, with its weight and its
/// ends as stored (an undirected edge joins its two ends whichever way it was drawn).
pub open spec fn candidates_of(es: Seq<Edge>) -> Seq<Candidate>
    decreases es.len(),
{
    if es.len() == 0 {
        seq![]
    } else {
        let e = es.last();
        candidates_of(es.drop_last()).push((e.weight, e.from, e.to))
    }
}

/// `x` placed into `s` after every element whose weight does not exceed its own that
/// stands at the end of `s`.
pub open spec fn insert_by_weight(s: Seq<Candidate>, x: Candidate) -> Seq<Candidate>
    decreases s.len(),
{
    if s.len() == 0 || weight_key(s.last().0) <= weight_key(x.0) {
        s.push(x)
    } else {
        insert_by_weight(s.drop_last(), x).push(s.last())
    }
}

/// `s` sorted by weight, stably: equal weights keep their order.
pub open spec fn sorted_by_weight(s: Seq<Candidate>) -> Seq<Candidate>
    decreases s.len(),
{
    if s.len() == 0 {
        seq![]
    } else {
        insert_by_weight(sorted_by_weight(s.drop_last()), s.last())
    }
}

/// Weights never decrease along `s`.
pub open spec fn weights_ascending(s: Seq<Candidate>) -> bool {
    forall|i: int, j: int| 0 <= i <= j < s.len() ==> weight_key(#[trigger] s[i].0) <= weight_key(#[trigger] s[j].0)
}

proof fn lemma_insert_by_weight(s: Seq<Candidate>, x: Candidate)
    requires
        weights_ascending(s),
    ensures
        weights_ascending(insert_by_weight(s, x)),
        insert_by_weight(s, x).to_multiset() == s.to_multiset().insert(x),
        insert_by_weight(s, x).len() == s.len() + 1,
    decreases s.len(),
{
    broadcast use vstd::seq_lib::group_to_multiset_ensures;
    if s.len() == 0 || weight_key(s.last().0) <= weight_key(x.0) {
        let t = s.push(x);
        assert forall|i: int, j: int| 0 <= i <= j < t.len() implies weight_key(#[trigger] t[i].0) <= weight_key(
            #[trigger] t[j].0,
        ) by {
            if j == s.len() && i < j {
                assert(weight_key(s[i].0) <= weight_key(s[s.len() - 1].0));
            }
        }
    } else {
        let d = s.drop_last();
        assert forall|i: int, j: int| 0 <= i <= j < d.len() implies weight_key(#[trigger] d[i].0) <= weight_key(
            #[trigger] d[j].0,
        ) by {
            assert(d[i] == s[i] && d[j] == s[j]);
        }
        lemma_insert_by_weight(d, x);
        let u = insert_by_weight(d, x);
        let t = u.push(s.last());
        assert forall|i: int, j: int| 0 <= i <= j < t.len() implies weight_key(#[trigger] t[i].0) <= weight_key(
            #[trigger] t[j].0,
        ) by {
            if j == u.len() && i < j {
                // every element of u is x or an element of d, none above s.last()
                assert(u.to_multiset().contains(u[i]));
                assert(u[i] == x || d.to_multiset().contains(u[i]));
                if u[i] != x {
                    assert(d.contains(u[i]));
                    let k = choose|k: int| 0 <= k < d.len() && d[k] == u[i];
                    assert(weight_key(s[k].0) <= weight_key(s[s.len() - 1].0));
                }
            }
        }
        assert(s =~= d.push(s.last()));
    }
}

/// Sorting by weight sorts, and keeps the same edges.
pub proof fn lemma_sorted_by_weight(s: Seq<Candidate>)
    ensures
        weights_ascending(sorted_by_weight(s)),
        sorted_by_weight(s).to_multiset() == s.to_multiset(),
        sorted_by_weight(s).len() == s.len(),
    decreases s.len(),
{
    broadcast use vstd::seq_lib::group_to_multiset_ensures;
    if s.len() > 0 {
        lemma_sorted_by_weight(s.drop_last());
        lemma_insert_by_weight(sorted_by_weight(s.drop_last()), s.last());
        assert(s =~= s.drop_last().push(s.last()));
    }
}

/// Kruskal examines the candidates from the lightest up: along the sorted candidates,
/// finite weights never decrease as numbers.
pub proof fn law_candidates_ascend_by_value(s: Seq<Candidate>, i: int, j: int)
    requires
        0 <= i <= j < s.len(),
        is_finite_weight(sorted_by_weight(s)[i].0),
        is_finite_weight(sorted_by_weight(s)[j].0),
    ensures
        value_in_units(sorted_by_weight(s)[i].0) <= value_in_units(sorted_by_weight(s)[j].0),
{
    lemma_sorted_by_weight(s);
    let t = sorted_by_weight(s);
    if value_in_units(t[j].0) < value_in_units(t[i].0) {
        law_weight_key_orders_values(t[j].0, t[i].0);
    }
}

/// Inserting at the first position from the end whose element weighs no more than `x`
/// is `insert_by_weight`.
proof fn lemma_insert_at(s: Seq<Candidate>, x: Candidate, p: int)
    requires
        0 <= p <= s.len(),
        forall|i: int| p <= i < s.len() ==> weight_key(#[trigger] s[i].0) > weight_key(x.0),
        p > 0 ==> weight_key(s[p - 1].0) <= weight_key(x.0),
    ensures
        insert_by_weight(s, x) == s.insert(p, x),
    decreases s.len(),
{
    if p == s.len() {
        assert(s.insert(p, x) =~= s.push(x));
    } else {
        let d = s.drop_last();
        assert(weight_key(s[s.len() - 1].0) > weight_key(x.0));
        assert forall|i: int| p <= i < d.len() implies weight_key(#[trigger] d[i].0) > weight_key(x.0) by {
            assert(d[i] == s[i]);
        }
        if p > 0 {
            assert(d[p - 1] == s[p - 1]);
        }
        lemma_insert_at(d, x, p);
        assert(d.insert(p, x).push(s.last()) =~= s.insert(p, x));
    }
}

/// The candidate edges of `graph`, sorted by weight (stably).
pub fn sorted_candidates(graph: &Graph) -> (r: Vec<Candidate>)
    ensures
        r@ == sorted_by_weight(candidates_of(graph@.edges)),
{
    let ghost es = graph@.edges;
    let mut r: Vec<Candidate> = Vec::new();
    let mut i: usize = 0;
    while i < graph.edges.len()
        invariant
            i <= graph.edges.len(),
            es == graph@.edges,
            r@ == sorted_by_weight(candidates_of(es.take(i as int))),
        decreases graph.edges.len() - i,
    {
        let e = graph.edges[i];
        proof {
            assert(es.take(i + 1).drop_last() =~= es.take(i as int));
        }
        let x: Candidate = (e.weight, e.from, e.to);
        let kx = weight_order_key(e.weight);
        let mut p: usize = r.len();
        while p > 0 && weight_order_key(r[p - 1].0) > kx
            invariant
                p <= r.len(),
                kx == weight_key(x.0),
                forall|j: int| p <= j < r.len() ==> weight_key(#[trigger] r@[j].0) > weight_key(x.0),
            decreases p,
        {
            p = p - 1;
        }
        proof {
            lemma_insert_at(r@, x, p as int);
        }
        r.insert(p, x);
        proof {
            let c = candidates_of(es.take(i as int));
            assert(candidates_of(es.take(i + 1)) =~= c.push(x));
            assert(c.push(x).drop_last() =~= c);
            assert(sorted_by_weight(c.push(x)) == insert_by_weight(sorted_by_weight(c), x));
        }
        i = i + 1;
    }
    proof {
        assert(es.take(i as int) =~= es);
    }
    r
}

// ───────────────────────────── the greedy rule ───────────────────────────────

/// Merges the label of `a` into the label of `b`.
pub open spec fn relabel(lab: Seq<int>, a: int, b: int) -> Seq<int> {
    Seq::new(lab.len(), |i: int| if lab[i] == lab[a] { lab[b] } else { lab[i] })
}

/// The tree labels of nodes `0..n` after the greedy rule has looked at the first `k`
/// candidates: each node starts with its own label, and each candidate whose ends
/// carry different labels joins the forest and merges the two labels.
pub open spec fn labels_after(es: Seq<Candidate>, n: nat, k: nat) -> Seq<int>
    decreases k,
{
    if k == 0 {
        Seq::new(n, |i: int| i)
    } else {
        let lab = labels_after(es, n, (k - 1) as nat);
        let e = es[k - 1];
        if lab[e.1 as int] != lab[e.2 as int] {
            relabel(lab, e.1 as int, e.2 as int)
        } else {
            lab
        }
    }
}

/// Candidate `k` joins two trees when the greedy rule reaches it.
pub open spec fn joins(es: Seq<Candidate>, n: nat, k: nat) -> bool {
    let lab = labels_after(es, n, k);
    lab[es[k as int].1 as int] != lab[es[k as int].2 as int]
}

/// Number of the first `k` candidates that joined the forest.
pub open spec fn added_after(es: Seq<Candidate>, n: nat, k: nat) -> nat
    decreases k,
{
    if k == 0 {
        0
    } else {
        added_after(es, n, (k - 1) as nat) + if joins(es, n, (k - 1) as nat) {
            1nat
        } else {
            0nat
        }
    }
}

/// Looking at candidate `k` completes the spanning tree: it joins, bringing the forest
/// to `n - 1` edges.
pub open spec fn completes(es: Seq<Candidate>, n: nat, k: nat) -> bool {
    joins(es, n, k) && added_after(es, n, k + 1) == n - 1
}

/// Merging two different labels leaves one label fewer.
proof fn lemma_relabel_set(lab: Seq<int>, a: int, b: int)
    requires
        0 <= a < lab.len(),
        0 <= b < lab.len(),
        lab[a] != lab[b],
    ensures
        relabel(lab, a, b).to_set() == lab.to_set().remove(lab[a]),
        relabel(lab, a, b).len() == lab.len(),
{
    let r = relabel(lab, a, b);
    assert forall|l: int| #[trigger] r.to_set().contains(l) == lab.to_set().remove(lab[a]).contains(l) by {
        if r.to_set().contains(l) {
            let i = choose|i: int| 0 <= i < r.len() && r[i] == l;
            if lab[i] == lab[a] {
                assert(lab[b] == l);
            }
        }
        if lab.to_set().remove(lab[a]).contains(l) {
            let i = choose|i: int| 0 <= i < lab.len() && lab[i] == l;
            if l == lab[b] {
                assert(r[b] == l);
            } else {
                assert(r[i] == l);
            }
        }
    }
    assert(r.to_set() =~= lab.to_set().remove(lab[a]));
}

/// Each edge that joins the forest removes one of the `n` tree labels, so the joined
/// edges and the remaining labels always add up to `n`.
proof fn lemma_labels_count(es: Seq<Candidate>, n: nat, k: nat)
    requires
        k <= es.len(),
        forall|j: int| 0 <= j < k ==> (#[trigger] es[j]).1 < n && es[j].2 < n,
    ensures
        labels_after(es, n, k).len() == n,
        labels_after(es, n, k).to_set().finite(),
        added_after(es, n, k) + labels_after(es, n, k).to_set().len() == n,
    decreases k,
{
    vstd::seq_lib::seq_to_set_is_finite(labels_after(es, n, k));
    if k == 0 {
        let id = Seq::new(n, |i: int| i);
        assert(id.no_duplicates());
        id.unique_seq_to_set();
    } else {
        lemma_labels_count(es, n, (k - 1) as nat);
        let lab = labels_after(es, n, (k - 1) as nat);
        let e = es[k - 1];
        vstd::seq_lib::seq_to_set_is_finite(lab);
        if lab[e.1 as int] != lab[e.2 as int] {
            lemma_relabel_set(lab, e.1 as int, e.2 as int);
            assert(lab.to_set().contains(lab[e.1 as int]));
        }
    }
}

/// The spanning forest never has more than `n - 1` edges on `n` nodes.
pub proof fn law_forest_edges(es: Seq<Candidate>, n: nat, k: nat)
    requires
        n >= 1,
        k <= es.len(),
        forall|j: int| 0 <= j < k ==> (#[trigger] es[j]).1 < n && es[j].2 < n,
    ensures
        added_after(es, n, k) <= n - 1,
{
    lemma_labels_count(es, n, k);
    let lab = labels_after(es, n, k);
    assert(lab.to_set().contains(lab[0]));
    vstd::set_lib::lemma_set_empty_equivalency_len(lab.to_set());
}

/// Two nodes in one tree stay in one tree as the greedy rule goes on.
proof fn lemma_labels_keep(es: Seq<Candidate>, n: nat, j: nat, k: nat, a: int, b: int)
    requires
        j <= k <= es.len(),
        forall|i: int| 0 <= i < k ==> (#[trigger] es[i]).1 < n && es[i].2 < n,
        0 <= a < n,
        0 <= b < n,
        labels_after(es, n, j)[a] == labels_after(es, n, j)[b],
    ensures
        labels_after(es, n, k)[a] == labels_after(es, n, k)[b],
    decreases k - j,
{
    if j < k {
        lemma_labels_count(es, n, j);
        let lab = labels_after(es, n, j);
        let e = es[j as int];
        if lab[e.1 as int] != lab[e.2 as int] {
            let r = relabel(lab, e.1 as int, e.2 as int);
            assert(r[a] == r[b]);
        }
        lemma_labels_keep(es, n, j + 1, k, a, b);
    }
}

/// The greedy forest spans: after the first `k` candidates, the two ends of each of them
/// lie in one tree of the forest; and once `n - 1` candidates have joined, all `n` nodes
/// lie in one tree.
pub proof fn law_forest_spans(es: Seq<Candidate>, n: nat, k: nat)
    requires
        k <= es.len(),
        forall|j: int| 0 <= j < k ==> (#[trigger] es[j]).1 < n && es[j].2 < n,
    ensures
        forall|j: int|
            0 <= j < k ==> labels_after(es, n, k)[(#[trigger] es[j]).1 as int] == labels_after(es, n, k)[es[j].2 as int],
        n >= 1 && added_after(es, n, k) == n - 1 ==> forall|u: int, v: int|
            0 <= u < n && 0 <= v < n ==> #[trigger] labels_after(es, n, k)[u] == #[trigger] labels_after(es, n, k)[v],
{
    assert forall|j: int| 0 <= j < k implies labels_after(es, n, k)[(#[trigger] es[j]).1 as int]
        == labels_after(es, n, k)[es[j].2 as int] by {
        lemma_labels_count(es, n, j as nat);
        let lab = labels_after(es, n, j as nat);
        let e = es[j];
        if lab[e.1 as int] != lab[e.2 as int] {
            let r = relabel(lab, e.1 as int, e.2 as int);
            assert(r[e.1 as int] == r[e.2 as int]);
        }
        assert(labels_after(es, n, (j + 1) as nat)[e.1 as int] == labels_after(es, n, (j + 1) as nat)[e.2 as int]);
        lemma_labels_keep(es, n, (j + 1) as nat, k, e.1 as int, e.2 as int);
    }
    if n >= 1 && added_after(es, n, k) == n - 1 {
        lemma_labels_count(es, n, k);
        let lab = labels_after(es, n, k);
        let st = lab.to_set();
        assert forall|u: int, v: int| 0 <= u < n && 0 <= v < n implies #[trigger] lab[u] == #[trigger] lab[v] by {
            if lab[u] != lab[v] {
                let two = set![lab[u], lab[v]];
                assert(two.len() == 2);
                assert(two.subset_of(st));
                vstd::set_lib::lemma_len_subset(two, st);
            }
        }
    }
}

/// Node `v` is an end of a candidate among the first `count` that joined the forest.
pub open spec fn joined_end(es: Seq<Candidate>, n: nat, count: nat, v: usize) -> bool {
    exists|i: int| 0 <= i < count && #[trigger] joins(es, n, i as nat) && (es[i].1 == v || es[i].2 == v)
}

/// `order[a]` first appears as end `side` (0 for the source, 1 for the target) of the
/// joined candidate `i`: no joined candidate before `i` has it as an end, and as a
/// target it is not also the source.
pub open spec fn first_joined_at(es: Seq<Candidate>, n: nat, order: Seq<usize>, a: int, i: int, side: int) -> bool {
    &&& 0 <= i < es.len()
    &&& joins(es, n, i as nat)
    &&& (side == 0 && es[i].1 == order[a]) || (side == 1 && es[i].2 == order[a] && es[i].1 != order[a])
    &&& forall|i2: int| 0 <= i2 < i && #[trigger] joins(es, n, i2 as nat) ==> es[i2].1 != order[a] && es[i2].2 != order[a]
}

/// The nodes in Kruskal's order: first the `m` ends of joined candidates, as the joined
/// candidates bring them in (source before target), then the other nodes in increasing
/// order.
pub open spec fn kruskal_listed(es: Seq<Candidate>, n: nat, count: nat, order: Seq<usize>, m: int, keys: Seq<(int, int)>) -> bool {
    &&& 0 <= m <= order.len()
    &&& keys.len() == m
    &&& forall|a: int| 0 <= a < m ==> first_joined_at(es, n, order, a, (#[trigger] keys[a]).0, keys[a].1) && keys[a].0 < count
    &&& forall|a: int, b: int| 0 <= a < b < m ==> lex_less(#[trigger] keys[a], #[trigger] keys[b])
    &&& forall|a: int| m <= a < order.len() ==> !joined_end(es, n, count, #[trigger] order[a])
    &&& forall|a: int, b: int| m <= a < b < order.len() ==> #[trigger] order[a] < #[trigger] order[b]
}

/// The union-find's sets are the label classes.
pub open spec fn same_classes(reps: Seq<int>, lab: Seq<int>, n: nat) -> bool {
    forall|u: int, v: int| 0 <= u < n && 0 <= v < n ==> (reps[u] == reps[v] <==> #[trigger] lab[u] == #[trigger] lab[v])
}

/// Every candidate that the greedy rule reaches, up to the one that completes the tree,
/// joins two nodes of the graph.
pub open spec fn reached_in_range(g: GraphView) -> bool {
    let es = sorted_by_weight(candidates_of(g.edges));
    let n = g.nodes.len() as nat;
    forall|i: int|
        0 <= i < es.len() && (forall|k: nat| k < i ==> !#[trigger] completes(es, n, k)) ==> (#[trigger] es[i]).1 < n
            && es[i].2 < n
}

/// Whether Kruskal's search on `graph` meets only candidates that join two nodes of the
/// graph: the greedy rule is followed until the tree is complete or a candidate with a
/// missing end is reached.
pub fn reaches_only_nodes(graph: &Graph) -> (r: bool)
    ensures
        r == (graph.nodes.len() > 0 ==> reached_in_range(graph@)),
{
    let n = graph.nodes.len();
    if n == 0 {
        return true;
    }
    let ghost nn = n as nat;
    let edges = sorted_candidates(graph);
    let ghost es = edges@;
    let mut uf = UnionFind::new(n);
    let ghost mut lab: Seq<int> = Seq::new(nn, |i: int| i);
    proof {
        assert(same_classes(uf@, lab, nn));
    }
    let mut added: usize = 0;
    let mut i: usize = 0;
    let mut done = false;
    while i < edges.len() && !done
        invariant
            edges@ == es,
            es == sorted_by_weight(candidates_of(graph@.edges)),
            n == graph.nodes.len(),
            nn == n,
            n > 0,
            i <= es.len(),
            uf.wf(),
            uf.size() == n,
            uf@.len() == n,
            lab == labels_after(es, nn, i as nat),
            lab.len() == n,
            same_classes(uf@, lab, nn),
            added == added_after(es, nn, i as nat),
            added <= i,
            done <==> (i >= 1 && completes(es, nn, (i - 1) as nat)),
            forall|k: nat| k + 1 < i ==> !#[trigger] completes(es, nn, k),
            forall|j: int| 0 <= j < i ==> (#[trigger] es[j]).1 < n && es[j].2 < n,
        decreases es.len() - i,
    {
        let (_weight, from, to) = edges[i];
        proof {
            assert forall|k: nat| k < i implies !#[trigger] completes(es, nn, k) by {
                if k + 1 < i {
                } else {
                    assert(k == i - 1);
                }
            }
        }
        if from >= n || to >= n {
            proof {
                assert(!((es[i as int]).1 < nn && es[i as int].2 < nn));
            }
            return false;
        }
        let ghost old_reps = uf@;
        let joined = uf.union(from, to);
        proof {
            assert(joins(es, nn, i as nat) == (lab[from as int] != lab[to as int]));
        }
        if joined {
            added = added + 1;
            let ghost lab2 = relabel(lab, from as int, to as int);
            proof {
                assert forall|u: int, v: int| 0 <= u < nn && 0 <= v < nn implies (uf@[u] == uf@[v] <==> #[trigger] lab2[u]
                    == #[trigger] lab2[v]) by {
                    assert(old_reps[u] == old_reps[from as int] <==> lab[u] == lab[from as int]);
                    assert(old_reps[u] == old_reps[to as int] <==> lab[u] == lab[to as int]);
                    assert(old_reps[v] == old_reps[from as int] <==> lab[v] == lab[from as int]);
                    assert(old_reps[v] == old_reps[to as int] <==> lab[v] == lab[to as int]);
                    assert(old_reps[u] == old_reps[v] <==> lab[u] == lab[v]);
                    assert(old_reps[from as int] != old_reps[to as int]);
                }
                lab = lab2;
            }
            if added == n - 1 {
                done = true;
            }
        }
        i = i + 1;
    }
    proof {
        let g = graph@;
        assert forall|i2: int|
            0 <= i2 < es.len() && (forall|k: nat| k < i2 ==> !#[trigger] completes(es, nn, k)) implies (
            #[trigger] es[i2]).1 < nn && es[i2].2 < nn by {
            if i2 >= i {
                assert(done);
                assert(completes(es, nn, (i - 1) as nat));
            }
        }
    }
    true
}

/// The snapshot of step `i` of the greedy loop over the sorted candidates `es`.
pub open spec fn step_reported(snap: StateSnapshot, es: Seq<Candidate>, n: nat, i: nat) -> bool {
    let e = es[i as int];
    &&& snap.current_node == e.1
    &&& snap.queue_or_stack@ == seq![e.1, e.2]
    &&& !snap.negative_cycle
    &&& if joins(es, n, i) {
        snap.current_line == 1 && snap.message == StepMessage::KruskalAdd {
            from: e.1,
            to: e.2,
            weight: e.0,
            added: added_after(es, n, i + 1) as usize,
        }
    } else {
        snap.current_line == 2 && snap.message == StepMessage::KruskalSkip { from: e.1, to: e.2, weight: e.0 }
    }
}

/// The source ends of the candidates, in order.
pub open spec fn sources_of(es: Seq<Candidate>) -> Seq<usize> {
    es.map_values(|e: Candidate| e.1)
}

/// Snapshot `s` of step `i` lists the first `d` nodes of `order`, exactly those that the
/// joined candidates up to `i` brought in (`keys` giving the candidate that brought each
/// in), and marks exactly them.
pub open spec fn kruskal_marks(s: StateSnapshot, order: Seq<usize>, keys: Seq<(int, int)>, n: nat, i: int, d: int) -> bool {
    &&& 0 <= d <= keys.len()
    &&& d <= order.len()
    &&& s.visited_order@ == order.take(d)
    &&& forall|a: int| 0 <= a < d ==> (#[trigger] keys[a]).0 <= i
    &&& d < keys.len() ==> keys[d].0 > i
    &&& s.visited_flags@.len() == n
    &&& forall|v: usize| v < n ==> s.visited_flags@[v as int] == order.take(d).contains(v)
    &&& s.distances is None
}

proof fn lemma_kruskal_marks_extend(
    s: StateSnapshot,
    o: Seq<usize>,
    k: Seq<(int, int)>,
    o2: Seq<usize>,
    k2: Seq<(int, int)>,
    n: nat,
    i: int,
    d: int,
)
    requires
        kruskal_marks(s, o, k, n, i, d),
        k.len() <= o.len(),
        o.len() <= o2.len(),
        forall|x: int| 0 <= x < o.len() ==> #[trigger] o2[x] == o[x],
        k.len() <= k2.len(),
        forall|a: int| 0 <= a < k.len() ==> #[trigger] k2[a] == k[a],
        forall|a: int| k.len() <= a < k2.len() ==> (#[trigger] k2[a]).0 > i,
    ensures
        kruskal_marks(s, o2, k2, n, i, d),
{
    assert(o2.take(d) =~= o.take(d));
    assert forall|a: int| 0 <= a < d implies (#[trigger] k2[a]).0 <= i by {
        assert(k2[a] == k[a]);
    }
    if d < k2.len() && d < k.len() {
        assert(k2[d] == k[d]);
    }
}

/// Kruskal's minimum spanning tree. The candidate edges (every edge, each once, whichever
/// way an undirected one was drawn) are sorted by
/// weight in the order of `f64::total_cmp`, keeping equal weights in edge-list order.
/// Each is examined in turn and joins the forest when its ends lie in different trees;
/// the search stops once `n - 1` edges have joined. Nodes are listed as the edges that
/// join bring them in, then the remaining nodes in increasing order.
///
/// Snapshots: one for the sorting, one per examined edge (joined or skipped), one at
/// the end. The count of examined edges is the number of edges looked at.
pub fn run(graph: &Graph, start: usize) -> (r: AlgorithmResult)
    requires
        graph.nodes.len() > 0 ==> reached_in_range(graph@),
    ensures
        r.kind == AlgorithmKind::Kruskal,
        graph.nodes.len() == 0 ==> r.visit_order.len() == 0 && r.snapshots.len() == 0 && r.edge_traversal_count
            == 0,
        graph.nodes.len() > 0 ==> ({
            let es = sorted_by_weight(candidates_of(graph@.edges));
            let n = graph.nodes.len() as nat;
            let count = r.edge_traversal_count as nat;
            &&& count <= es.len()
            &&& forall|k: nat| k < count && k + 1 < count ==> !#[trigger] completes(es, n, k)
            &&& count < es.len() ==> count >= 1 && completes(es, n, (count - 1) as nat)
            &&& r.snapshots.len() == count + 2
            &&& r.snapshots@[0].message == (StepMessage::KruskalSorted { count: es.len() as usize })
            &&& forall|i: nat| i < count ==> step_reported(#[trigger] r.snapshots@[(i + 1) as int], es, n, i)
            &&& r.snapshots@.last().current_line == 3
            &&& r.snapshots@.last().message == (StepMessage::KruskalDone { added: added_after(es, n, count) as usize })
            &&& r.visit_order.len() == n
            &&& r.visit_order@.no_duplicates()
            &&& forall|i: int| 0 <= i < r.visit_order.len() ==> #[trigger] r.visit_order@[i] < n
            &&& exists|m: int, keys: Seq<(int, int)>, ds: Seq<int>|
                kruskal_listed(es, n, count, r.visit_order@, m, keys) && ds.len() == count && forall|i: int|
                    0 <= i < count ==> kruskal_marks(r.snapshots@[i + 1], r.visit_order@, keys, n, i, #[trigger] ds[i])
            &&& r.snapshots@[0].current_line == 0
            &&& r.snapshots@[0].current_node == start
            &&& r.snapshots@[0].queue_or_stack@ == sources_of(es)
            &&& r.snapshots@[0].visited_order@.len() == 0
            &&& r.snapshots@[0].visited_flags@ == Seq::new(n, |v: int| false)
            &&& r.snapshots@[0].distances is None
            &&& !r.snapshots@[0].negative_cycle
            &&& r.snapshots@.last().current_node == start
            &&& r.snapshots@.last().queue_or_stack@.len() == 0
            &&& r.snapshots@.last().visited_order@ == r.visit_order@
            &&& r.snapshots@.last().visited_flags@ == Seq::new(n, |v: int| true)
            &&& r.snapshots@.last().distances is None
            &&& !r.snapshots@.last().negative_cycle
        }),
{
    let n = graph.nodes.len();
    if n == 0 {
        let r = AlgorithmResult::empty(AlgorithmKind::Kruskal);
        return r;
    }
    let ghost nn = n as nat;
    let edges = sorted_candidates(graph);
    let ghost es = edges@;
    let mut uf = UnionFind::new(n);
    let mut visited_flags = all_false(n);
    let mut visited_order: Vec<usize> = Vec::new();
    let mut snapshots: Vec<StateSnapshot> = Vec::new();
    let mut edge_traversal_count: usize = 0;
    let mut mst_edges_added: usize = 0;
    let mut initial_queue: Vec<usize> = Vec::new();
    let mut q: usize = 0;
    while q < edges.len()
        invariant
            q <= edges.len(),
            edges@ == es,
            initial_queue@ == sources_of(es.take(q as int)),
        decreases edges.len() - q,
    {
        initial_queue.push(edges[q].1);
        q = q + 1;
        assert(sources_of(es.take(q as int)) =~= sources_of(es.take(q - 1)).push(es[q - 1].1));
    }
    assert(es.take(q as int) =~= es);
    snapshots.push(
        StateSnapshot {
            current_line: 0,
            current_node: start,
            queue_or_stack: initial_queue,
            visited_order: Vec::new(),
            visited_flags: copy_flags(&visited_flags),
            distances: None,
            message: StepMessage::KruskalSorted { count: edges.len() },
            negative_cycle: false,
        },
    );
    let ghost mut lab: Seq<int> = Seq::new(nn, |i: int| i);
    let ghost mut keys: Seq<(int, int)> = seq![];
    let ghost mut ds: Seq<int> = seq![];
    proof {
        assert(same_classes(uf@, lab, nn));
        assert(snapshots@[0].visited_flags@ =~= Seq::new(nn, |v: int| false));
    }
    let mut i: usize = 0;
    let mut done = false;
    while i < edges.len() && !done
        invariant
            edges@ == es,
            n == graph.nodes.len(),
            nn == n,
            n > 0,
            i <= es.len(),
            es == sorted_by_weight(candidates_of(graph@.edges)),
            reached_in_range(graph@),
            forall|j: int| 0 <= j < i ==> (#[trigger] es[j]).1 < n && es[j].2 < n,
            uf.wf(),
            uf.size() == n,
            uf@.len() == n,
            lab == labels_after(es, nn, i as nat),
            lab.len() == n,
            same_classes(uf@, lab, nn),
            mst_edges_added == added_after(es, nn, i as nat),
            mst_edges_added <= i,
            edge_traversal_count == i,
            done <==> (i >= 1 && completes(es, nn, (i - 1) as nat)),
            forall|k: nat| k + 1 < i ==> !#[trigger] completes(es, nn, k),
            snapshots.len() == i + 1,
            snapshots@[0].message == (StepMessage::KruskalSorted { count: es.len() as usize }),
            forall|j: nat| j < i ==> step_reported(#[trigger] snapshots@[(j + 1) as int], es, nn, j),
            visited_flags.len() == n,
            visited_order@.no_duplicates(),
            forall|j: int| 0 <= j < visited_order.len() ==> #[trigger] visited_order@[j] < n,
            forall|v: usize| v < n ==> (#[trigger] visited_flags@[v as int] <==> visited_order@.contains(v)),
            forall|v: usize| v < n ==> (#[trigger] visited_flags@[v as int] <==> joined_end(es, nn, i as nat, v)),
            keys.len() == visited_order.len(),
            forall|a: int| 0 <= a < visited_order.len() ==> first_joined_at(es, nn, visited_order@, a, (
            #[trigger] keys[a]).0, keys[a].1) && keys[a].0 < i,
            forall|a: int, b: int| 0 <= a < b < visited_order.len() ==> lex_less(#[trigger] keys[a], #[trigger] keys[b]),
            ds.len() == i,
            forall|j: int| 0 <= j < i ==> kruskal_marks(snapshots@[j + 1], visited_order@, keys, nn, j, #[trigger] ds[j]),
            snapshots@[0].current_line == 0,
            snapshots@[0].current_node == start,
            snapshots@[0].queue_or_stack@ == sources_of(es),
            snapshots@[0].visited_order@.len() == 0,
            snapshots@[0].visited_flags@ == Seq::new(nn, |v: int| false),
            snapshots@[0].distances is None,
            !snapshots@[0].negative_cycle,
        decreases es.len() - i,
    {
        let (weight, from, to) = edges[i];
        proof {
            assert forall|k: nat| k < i implies !#[trigger] completes(es, nn, k) by {
                if k + 1 < i {
                } else {
                    assert(k == i - 1);
                }
            }
            assert(es[i as int].1 < n && es[i as int].2 < n);
        }
        edge_traversal_count = edge_traversal_count + 1;
        let ghost old_reps = uf@;
        let ghost s0 = snapshots@;
        let ghost vo0 = visited_order@;
        let ghost ky0 = keys;
        let can_add = uf.union(from, to);
        proof {
            assert(joins(es, nn, i as nat) == (lab[from as int] != lab[to as int]));
            assert(can_add == (lab[from as int] != lab[to as int]));
        }
        if can_add {
            mst_edges_added = mst_edges_added + 1;
            let ghost lab2 = relabel(lab, from as int, to as int);
            proof {
                assert forall|u: int, v: int| 0 <= u < nn && 0 <= v < nn implies (uf@[u] == uf@[v] <==> #[trigger] lab2[u]
                    == #[trigger] lab2[v]) by {
                    assert(old_reps[u] == old_reps[from as int] <==> lab[u] == lab[from as int]);
                    assert(old_reps[u] == old_reps[to as int] <==> lab[u] == lab[to as int]);
                    assert(old_reps[v] == old_reps[from as int] <==> lab[v] == lab[from as int]);
                    assert(old_reps[v] == old_reps[to as int] <==> lab[v] == lab[to as int]);
                    assert(old_reps[u] == old_reps[v] <==> lab[u] == lab[v]);
                    assert(old_reps[from as int] != old_reps[to as int]);
                }
                lab = lab2;
            }
            let ghost fl0 = visited_flags@;
            let ghost or0 = visited_order@;
            let ghost k0 = keys;
            add_visit(&mut visited_flags, &mut visited_order, from);
            let ghost fl1 = visited_flags@;
            let ghost or1 = visited_order@;
            proof {
                if !fl0[from as int] {
                    keys = keys.push((i as int, 0int));
                }
            }
            let ghost k1 = keys;
            add_visit(&mut visited_flags, &mut visited_order, to);
            proof {
                if !fl1[to as int] {
                    keys = keys.push((i as int, 1int));
                }
                assert(joins(es, nn, i as nat));
                // the new ends were not ends of earlier joined candidates
                assert forall|v: usize| v < n implies (#[trigger] visited_flags@[v as int] <==> joined_end(es, nn, (i + 1) as nat, v)) by {
                    if joined_end(es, nn, (i + 1) as nat, v) {
                        let i2 = choose|i2: int| 0 <= i2 < i + 1 && #[trigger] joins(es, nn, i2 as nat) && (es[i2].1 == v || es[i2].2 == v);
                        if i2 < i {
                            assert(joined_end(es, nn, i as nat, v));
                            assert(fl0[v as int]);
                        }
                    }
                    if fl0[v as int] {
                        assert(joined_end(es, nn, i as nat, v));
                        let i2 = choose|i2: int| 0 <= i2 < i && #[trigger] joins(es, nn, i2 as nat) && (es[i2].1 == v || es[i2].2 == v);
                        assert(joined_end(es, nn, (i + 1) as nat, v));
                    }
                    if v == from || v == to {
                        let ii: int = i as int;
                        assert(joins(es, nn, ii as nat) && (es[ii].1 == v || es[ii].2 == v));
                        assert(joined_end(es, nn, (i + 1) as nat, v));
                    }
                }
                assert forall|a: int| 0 <= a < visited_order.len() implies first_joined_at(es, nn, visited_order@, a, (
                #[trigger] keys[a]).0, keys[a].1) && keys[a].0 < i + 1 by {
                    if a < or0.len() {
                        assert(visited_order@[a] == or0[a]);
                        assert(keys[a] == k0[a]);
                    } else if a < or1.len() {
                        assert(!fl0[from as int]);
                        assert(visited_order@[a] == from);
                        assert(keys[a] == (i as int, 0int));
                        assert forall|i2: int| 0 <= i2 < i && #[trigger] joins(es, nn, i2 as nat) implies es[i2].1 != from
                            && es[i2].2 != from by {
                            if es[i2].1 == from || es[i2].2 == from {
                                assert(joined_end(es, nn, i as nat, from));
                            }
                        }
                    } else {
                        assert(!fl1[to as int]);
                        assert(visited_order@[a] == to);
                        assert(keys[a] == (i as int, 1int));
                        assert(fl1[from as int]);
                        assert(to != from);
                        assert(!fl0[to as int]);
                        assert forall|i2: int| 0 <= i2 < i && #[trigger] joins(es, nn, i2 as nat) implies es[i2].1 != to
                            && es[i2].2 != to by {
                            if es[i2].1 == to || es[i2].2 == to {
                                assert(joined_end(es, nn, i as nat, to));
                            }
                        }
                    }
                }
                assert forall|a: int, b: int| 0 <= a < b < visited_order.len() implies lex_less(#[trigger] keys[a], #[trigger] keys[b]) by {
                    if b < or0.len() {
                        assert(keys[a] == k0[a] && keys[b] == k0[b]);
                    } else if a < or0.len() {
                        assert(keys[a] == k0[a]);
                    }
                }
            }
            snapshots.push(
                StateSnapshot {
                    current_line: 1,
                    current_node: from,
                    queue_or_stack: vec![from, to],
                    visited_order: copy_all(&visited_order),
                    visited_flags: copy_flags(&visited_flags),
                    distances: None,
                    message: StepMessage::KruskalAdd { from, to, weight, added: mst_edges_added },
                    negative_cycle: false,
                },
            );
            if mst_edges_added == n - 1 {
                done = true;
            }
        } else {
            proof {
                assert(!joins(es, nn, i as nat));
                assert forall|v: usize| v < n implies (#[trigger] visited_flags@[v as int] <==> joined_end(es, nn, (i + 1) as nat, v)) by {
                    if joined_end(es, nn, (i + 1) as nat, v) {
                        let i2 = choose|i2: int| 0 <= i2 < i + 1 && #[trigger] joins(es, nn, i2 as nat) && (es[i2].1 == v || es[i2].2 == v);
                        assert(i2 != i);
                        assert(joined_end(es, nn, i as nat, v));
                    }
                    if joined_end(es, nn, i as nat, v) {
                        let i2 = choose|i2: int| 0 <= i2 < i && #[trigger] joins(es, nn, i2 as nat) && (es[i2].1 == v || es[i2].2 == v);
                        assert(joined_end(es, nn, (i + 1) as nat, v));
                    }
                }
            }
            snapshots.push(
                StateSnapshot {
                    current_line: 2,
                    current_node: from,
                    queue_or_stack: vec![from, to],
                    visited_order: copy_all(&visited_order),
                    visited_flags: copy_flags(&visited_flags),
                    distances: None,
                    message: StepMessage::KruskalSkip { from, to, weight },
                    negative_cycle: false,
                },
            );
        }
        proof {
            assert(snapshots@[i as int + 1].queue_or_stack@ =~= seq![from, to]);
            assert forall|j: nat| j < i + 1 implies step_reported(#[trigger] snapshots@[(j + 1) as int], es, nn, j) by {
                if j < i {
                    assert(snapshots@[(j + 1) as int] == s0[(j + 1) as int]);
                }
            }
            assert forall|j: int| 0 <= j < i implies kruskal_marks(snapshots@[j + 1], visited_order@, keys, nn, j, #[trigger] ds[j]) by {
                assert(snapshots@[j + 1] == s0[j + 1]);
                assert(kruskal_marks(s0[j + 1], vo0, ky0, nn, j, ds[j]));
                lemma_kruskal_marks_extend(s0[j + 1], vo0, ky0, visited_order@, keys, nn, j, ds[j]);
            }
            let d = visited_order.len() as int;
            ds = ds.push(d);
            assert(visited_order@.take(d) =~= visited_order@);
            assert(kruskal_marks(snapshots@[i + 1], visited_order@, keys, nn, i as int, ds[i as int]));
            assert(snapshots@[0] == s0[0]);
        }
        i = i + 1;
    }
    let ghost count = i as nat;
    let ghost m = visited_order.len() as int;
    let mut v: usize = 0;
    while v < n
        invariant
            v <= n,
            n == graph.nodes.len(),
            nn == n,
            count == i,
            visited_flags.len() == n,
            0 <= m <= visited_order.len(),
            keys.len() == m,
            forall|a: int| 0 <= a < m ==> first_joined_at(es, nn, visited_order@, a, (#[trigger] keys[a]).0, keys[a].1)
                && keys[a].0 < count,
            forall|a: int, b: int| 0 <= a < b < m ==> lex_less(#[trigger] keys[a], #[trigger] keys[b]),
            forall|w: usize| w < n ==> (joined_end(es, nn, count, w) ==> #[trigger] visited_flags@[w as int]),
            forall|a: int| m <= a < visited_order.len() ==> !joined_end(es, nn, count, #[trigger] visited_order@[a])
                && visited_order@[a] < v,
            forall|a: int, b: int| m <= a < b < visited_order.len() ==> #[trigger] visited_order@[a] < #[trigger] visited_order@[b],
            visited_order@.no_duplicates(),
            forall|j: int| 0 <= j < visited_order.len() ==> #[trigger] visited_order@[j] < n,
            forall|w: usize| w < n ==> (#[trigger] visited_flags@[w as int] <==> visited_order@.contains(w)),
            forall|w: usize| w < v ==> #[trigger] visited_flags@[w as int],
            ds.len() == count,
            forall|j: int| 0 <= j < count ==> kruskal_marks(snapshots@[j + 1], visited_order@, keys, nn, j, #[trigger] ds[j]),
        decreases n - v,
    {
        let ghost f0 = visited_flags@;
        let ghost o0 = visited_order@;
        add_visit(&mut visited_flags, &mut visited_order, v);
        proof {
            assert forall|j: int| 0 <= j < count implies kruskal_marks(snapshots@[j + 1], visited_order@, keys, nn, j, #[trigger] ds[j]) by {
                assert forall|x: int| 0 <= x < o0.len() implies #[trigger] visited_order@[x] == o0[x] by {}
                lemma_kruskal_marks_extend(snapshots@[j + 1], o0, keys, visited_order@, keys, nn, j, ds[j]);
            }
            assert forall|w: usize| w < v + 1 implies #[trigger] visited_flags@[w as int] by {
                if w < v {
                    assert(f0[w as int]);
                }
            }
            assert forall|a: int| 0 <= a < m implies first_joined_at(es, nn, visited_order@, a, (#[trigger] keys[a]).0, keys[a].1)
                && keys[a].0 < count by {
                assert(visited_order@[a] == o0[a]);
            }
            assert forall|w: usize| w < n implies (joined_end(es, nn, count, w) ==> #[trigger] visited_flags@[w as int]) by {
                if joined_end(es, nn, count, w) {
                    assert(f0[w as int]);
                }
            }
            assert forall|a: int| m <= a < visited_order.len() implies !joined_end(es, nn, count, #[trigger] visited_order@[a])
                && visited_order@[a] < v + 1 by {
                if a < o0.len() {
                    assert(visited_order@[a] == o0[a]);
                } else {
                    assert(!f0[v as int]);
                }
            }
            assert forall|a: int, b: int| m <= a < b < visited_order.len() implies #[trigger] visited_order@[a]
                < #[trigger] visited_order@[b] by {
                if b < o0.len() {
                    assert(visited_order@[a] == o0[a] && visited_order@[b] == o0[b]);
                } else {
                    assert(visited_order@[a] == o0[a]);
                }
            }
        }
        v = v + 1;
    }
    proof {
        assert forall|w: usize| w < n implies #[trigger] visited_order@.contains(w) by {
            assert(visited_flags@[w as int]);
        }
        lemma_covers_below(visited_order@, n);
        assert(kruskal_listed(es, nn, count, visited_order@, m, keys));
    }
    let ghost s1 = snapshots@;
    snapshots.push(
        StateSnapshot {
            current_line: 3,
            current_node: start,
            queue_or_stack: Vec::new(),
            visited_order: copy_all(&visited_order),
            visited_flags: copy_flags(&visited_flags),
            distances: None,
            message: StepMessage::KruskalDone { added: mst_edges_added },
            negative_cycle: false,
        },
    );
    proof {
        assert forall|j: nat| j < count implies step_reported(#[trigger] snapshots@[(j + 1) as int], es, nn, j) by {
            assert(snapshots@[(j + 1) as int] == s1[(j + 1) as int]);
        }
        assert(snapshots@[0] == s1[0]);
        assert forall|j: int| 0 <= j < count implies kruskal_marks(snapshots@[j + 1], visited_order@, keys, nn, j, #[trigger] ds[j]) by {
            assert(snapshots@[j + 1] == s1[j + 1]);
        }
        assert(snapshots@.last().visited_flags@ =~= Seq::new(nn, |v: int| true));
    }
    let r = AlgorithmResult { kind: AlgorithmKind::Kruskal, snapshots, visit_order: visited_order, edge_traversal_count };
    assert(kruskal_listed(es, nn, count, r.visit_order@, m, keys));
    assert(forall|j: int| 0 <= j < count ==> kruskal_marks(r.snapshots@[j + 1], r.visit_order@, keys, nn, j, #[trigger] ds[j]));
    assert(count <= es.len());
    assert(forall|k: nat| k < count && k + 1 < count ==> !#[trigger] completes(es, nn, k));
    assert(count < es.len() ==> count >= 1 && completes(es, nn, (count - 1) as nat));
    assert(r.snapshots.len() == count + 2);
    assert(forall|j: nat| j < count ==> step_reported(#[trigger] r.snapshots@[(j + 1) as int], es, nn, j));
    assert(r.visit_order.len() == n);
    assert(r.snapshots@[0].message == (StepMessage::KruskalSorted { count: es.len() as usize }));
    assert(r.snapshots@.last().current_line == 3);
    assert(r.snapshots@.last().message == (StepMessage::KruskalDone { added: added_after(es, nn, count) as usize }));
    assert(r.visit_order@.no_duplicates());
    assert(r.snapshots@[0].queue_or_stack@ == sources_of(es));
    assert(r.snapshots@[0].visited_flags@ == Seq::new(nn, |v: int| false));
    assert(r.snapshots@.last().visited_order@ == r.visit_order@);
    assert(forall|i: int| 0 <= i < r.visit_order.len() ==> #[trigger] r.visit_order@[i] < n);
    assert(exists|m: int, keys: Seq<(int, int)>, ds: Seq<int>|
                kruskal_listed(es, nn, count, r.visit_order@, m, keys) && ds.len() == count && forall|i: int|
                    0 <= i < count ==> kruskal_marks(r.snapshots@[i + 1], r.visit_order@, keys, nn, i, #[trigger] ds[i]));
    assert(r.snapshots@[0].current_line == 0);
    assert(r.snapshots@[0].current_node == start);
    assert(r.snapshots@[0].visited_order@.len() == 0);
    assert(r.snapshots@.last().queue_or_stack@.len() == 0);
    assert(r.snapshots@.last().visited_flags@ == Seq::new(nn, |v: int| true));
    assert(r.snapshots@[0].distances is None && !r.snapshots@[0].negative_cycle);
    assert(r.snapshots@.last().distances is None && !r.snapshots@.last().negative_cycle);
    assert(r.snapshots@.last().current_node == start);
    r
}

/// Marks `v` visited and lists it, unless it already is.
fn add_visit(flags: &mut Vec<bool>, order: &mut Vec<usize>, v: usize)
    requires
        v < old(flags).len(),
        old(order)@.no_duplicates(),
        forall|j: int| 0 <= j < old(order).len() ==> #[trigger] old(order)@[j] < old(flags).len(),
        forall|w: usize| w < old(flags).len() ==> (#[trigger] old(flags)@[w as int] <==> old(order)@.contains(w)),
    ensures
        final(flags).len() == old(flags).len(),
        final(order)@.no_duplicates(),
        forall|j: int| 0 <= j < final(order).len() ==> #[trigger] final(order)@[j] < final(flags).len(),
        forall|w: usize| w < final(flags).len() ==> (#[trigger] final(flags)@[w as int] <==> final(order)@.contains(w)),
        final(flags)@[v as int],
        forall|w: usize| w < old(flags).len() && #[trigger] old(flags)@[w as int] ==> final(flags)@[w as int],
        final(order)@ == if old(flags)@[v as int] {
            old(order)@
        } else {
            old(order)@.push(v)
        },
{
    if !flags[v] {
        let ghost o = order@;
        flags.set(v, true);
        order.push(v);
        proof {
            assert forall|w: usize| w < flags.len() implies (#[trigger] flags@[w as int] <==> order@.contains(w)) by {
                if order@.contains(w) && w != v {
                    let k = choose|k: int| 0 <= k < order.len() && order@[k] == w;
                    assert(o[k] == w);
                }
                if w == v {
                    assert(order@[o.len() as int] == v);
                } else if o.contains(w) {
                    let k = choose|k: int| 0 <= k < o.len() && o[k] == w;
                    assert(order@[k] == w);
                }
            }
            assert(order@.no_duplicates()) by {
                assert forall|a: int, b: int| 0 <= a < order.len() && 0 <= b < order.len() && a != b implies order@[a]
                    != order@[b] by {
                    if a < o.len() && b < o.len() {
                        assert(o[a] != o[b]);
                    } else if a < o.len() {
                        assert(o.contains(o[a]));
                    } else {
                        assert(o.contains(o[b]));
                    }
                }
            }
        }
    }
}

} // verus!
