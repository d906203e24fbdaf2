//! The traveling-salesman driver: 2-opt local search over a complete
//! weighted graph, scoring each candidate tour either by direct summation or
//! through the incremental dependency graph. Every accepted swap strictly
//! shortens the tour, and the search stops at a local optimum.

use vstd::prelude::*;
use crate::graph::Graph;
use crate::tsp_comp::{TspComp, tsp_len, apply_updates, MAX_NODES, MAX_WEIGHT};

verus! {

pub type TspPath = Vec<i32>;

/// How the driver scores a tour: direct summation with a delta pre-filter,
/// direct summation alone, or the incremental dependency graph.
pub enum ScoreCalcTypeTSP {
    Fast,
    Slow,
    Incremental,
}

/// The weight table a graph induces: zero on the diagonal and for missing
/// edges, the edge weight elsewhere.
pub open spec fn graph_table(g: Graph) -> Seq<Seq<i32>> {
    Seq::new(
        g.size() as nat,
        |u: int|
            Seq::new(
                g.size() as nat,
                |v: int|
                    if g.edge_weight(u, v) is Some {
                        g.edge_weight(u, v)->Some_0
                    } else {
                        0
                    },
            ),
    )
}

/// A tour as mathematical integers.
pub open spec fn path_view(p: Seq<i32>) -> Seq<int> {
    p.map_values(|x: i32| x as int)
}

/// The tour with the segment `l ..= r` reversed.
pub open spec fn rev_between(p: Seq<int>, l: int, r: int) -> Seq<int> {
    Seq::new(p.len(), |k: int| if l <= k <= r {
        p[l + r - k]
    } else {
        p[k]
    })
}

/// With nonnegative weights and in-range positions, a tour's length is
/// nonnegative and bounded.
pub proof fn lemma_tsp_len_nonneg(p: Seq<int>, w: Seq<Seq<i32>>, k: int)
    requires
        forall|q: int| 0 <= q < p.len() ==> 0 <= #[trigger] p[q] < w.len(),
        forall|u: int| 0 <= u < w.len() ==> (#[trigger] w[u]).len() == w.len(),
        forall|u: int, v: int|
            0 <= u < w.len() && 0 <= v < w.len() ==> 0 <= #[trigger] w[u][v],
        k <= p.len(),
        p.len() > 0,
    ensures
        0 <= crate::tsp_comp::tour_len_upto(p, w, k),
    decreases k,
{
    if k > 0 {
        lemma_tsp_len_nonneg(p, w, k - 1);
        assert(0 <= p[k - 1] < w.len());
        let nx = k % (p.len() as int);
        assert(0 <= nx < p.len());
    }
}

/// Sum of the legs from position `a` up to position `b`, without wrapping.
pub open spec fn segsum(p: Seq<int>, w: Seq<Seq<i32>>, a: int, b: int) -> int
    decreases b - a,
{
    if b <= a {
        0
    } else {
        segsum(p, w, a, b - 1) + w[p[b - 1]][p[b]] as int
    }
}

/// A segment sum can also be peeled from the front.
proof fn lemma_segsum_front(p: Seq<int>, w: Seq<Seq<i32>>, a: int, b: int)
    requires
        a < b,
    ensures
        segsum(p, w, a, b) == w[p[a]][p[a + 1]] as int + segsum(p, w, a + 1, b),
    decreases b - a,
{
    if a + 1 < b {
        lemma_segsum_front(p, w, a, b - 1);
    } else {
        assert(segsum(p, w, a, a) == 0);
        assert(segsum(p, w, a + 1, b) == 0);
    }
}

/// Segment sums concatenate.
proof fn lemma_segsum_split(p: Seq<int>, w: Seq<Seq<i32>>, a: int, m: int, b: int)
    requires
        a <= m <= b,
    ensures
        segsum(p, w, a, b) == segsum(p, w, a, m) + segsum(p, w, m, b),
    decreases b - m,
{
    if m < b {
        lemma_segsum_split(p, w, a, m, b - 1);
    }
}

/// Tours agreeing on the positions a segment touches have the same segment
/// sum.
proof fn lemma_segsum_congruent(p1: Seq<int>, p2: Seq<int>, w: Seq<Seq<i32>>, a: int, b: int)
    requires
        forall|k: int| a <= k <= b ==> #[trigger] p1[k] == p2[k],
    ensures
        segsum(p1, w, a, b) == segsum(p2, w, a, b),
    decreases b - a,
{
    if a < b {
        lemma_segsum_congruent(p1, p2, w, a, b - 1);
    }
}

/// A symmetric weight table: what every 2-opt argument rests on.
pub open spec fn table_sym(w: Seq<Seq<i32>>) -> bool {
    forall|u: int, v: int|
        0 <= u < w.len() && 0 <= v < w.len() ==> #[trigger] w[u][v] == w[v][u]
}

/// Reversing a segment leaves its internal leg sum unchanged, because each
/// leg reappears with its endpoints exchanged and the table is symmetric.
proof fn lemma_rev_segsum(p: Seq<int>, w: Seq<Seq<i32>>, l: int, r: int, t: int)
    requires
        0 <= l <= r,
        (r as int) < p.len(),
        table_sym(w),
        forall|q: int| 0 <= q < p.len() ==> 0 <= #[trigger] p[q] < w.len(),
        0 <= t <= r - l,
    ensures
        segsum(rev_between(p, l, r), w, l, l + t) == segsum(p, w, r - t, r),
    decreases t,
{
    let pr = rev_between(p, l, r);
    if t > 0 {
        lemma_rev_segsum(p, w, l, r, t - 1);
        assert(pr[l + t - 1] == p[r - t + 1]);
        assert(pr[l + t] == p[r - t]);
        assert(w[p[r - t + 1]][p[r - t]] == w[p[r - t]][p[r - t + 1]]);
        lemma_segsum_front(p, w, r - t, r);
    }
}

/// The tour prefix sum coincides with the wrap-free segment sum below the
/// last position.
proof fn lemma_tour_is_segsum(p: Seq<int>, w: Seq<Seq<i32>>, m: int)
    requires
        p.len() >= 2,
        0 <= m <= p.len() - 1,
    ensures
        crate::tsp_comp::tour_len_upto(p, w, m) == segsum(p, w, 0, m),
    decreases m,
{
    if m > 0 {
        lemma_tour_is_segsum(p, w, m - 1);
        assert(m % (p.len() as int) == m) by (nonlinear_arith)
            requires
                0 < m < p.len(),
        ;
    }
}

/// The whole tour is the wrap-free sum plus the closing leg.
proof fn lemma_tour_decompose(p: Seq<int>, w: Seq<Seq<i32>>)
    requires
        p.len() >= 2,
    ensures
        tsp_len(p, w) == segsum(p, w, 0, p.len() - 1) + w[p[p.len() - 1]][p[0]] as int,
{
    let n = p.len() as int;
    lemma_tour_is_segsum(p, w, n - 1);
    assert(n % n == 0) by (nonlinear_arith)
        requires
            n > 0,
    ;
}

/// The 2-opt identity: reversing the segment between two edges changes the
/// tour length by exactly the weight of the two new edges minus the weight
/// of the two old ones.
pub proof fn lemma_two_opt_delta(p: Seq<int>, w: Seq<Seq<i32>>, i: int, j: int)
    requires
        p.len() >= 2,
        0 <= i,
        i + 1 <= j,
        j < p.len(),
        table_sym(w),
        forall|q: int| 0 <= q < p.len() ==> 0 <= #[trigger] p[q] < w.len(),
    ensures
        tsp_len(rev_between(p, i + 1, j), w) == tsp_len(p, w) - (w[p[i]][p[i + 1]] as int) - (
        w[p[j]][p[(j + 1) % (p.len() as int)]] as int) + (w[p[i]][p[j]] as int) + (w[p[i + 1]][p[(
        j + 1) % (p.len() as int)]] as int),
{
    let n = p.len() as int;
    let l = i + 1;
    let pr = rev_between(p, l, j);
    assert(pr.len() == n);
    lemma_tour_decompose(p, w);
    lemma_tour_decompose(pr, w);
    assert forall|q: int| 0 <= q < pr.len() implies 0 <= #[trigger] pr[q] && pr[q]
        < w.len() by {
        if l <= q <= j {
            assert(pr[q] == p[l + j - q]);
        }
    }
    lemma_rev_segsum(p, w, l, j, j - l);
    assert(segsum(pr, w, l, j) == segsum(p, w, l, j));
    if j < n - 1 {
        assert((j + 1) % n == j + 1) by (nonlinear_arith)
            requires
                0 < j + 1 < n,
        ;
        // split both tours at the four boundaries
        lemma_segsum_split(p, w, 0, i, n - 1);
        lemma_segsum_split(p, w, i, j + 1, n - 1);
        lemma_segsum_split(p, w, i, i + 1, j + 1);
        lemma_segsum_split(p, w, i + 1, j, j + 1);
        lemma_segsum_split(pr, w, 0, i, n - 1);
        lemma_segsum_split(pr, w, i, j + 1, n - 1);
        lemma_segsum_split(pr, w, i, i + 1, j + 1);
        lemma_segsum_split(pr, w, i + 1, j, j + 1);
        lemma_segsum_congruent(pr, p, w, 0, i);
        lemma_segsum_congruent(pr, p, w, j + 1, n - 1);
        assert(segsum(pr, w, i, i) == 0 && segsum(p, w, i, i) == 0);
        assert(segsum(pr, w, j, j) == 0 && segsum(p, w, j, j) == 0);
        assert(segsum(pr, w, i, i + 1) == w[pr[i]][pr[i + 1]] as int);
        assert(segsum(pr, w, j, j + 1) == w[pr[j]][pr[j + 1]] as int);
        assert(segsum(p, w, i, i + 1) == w[p[i]][p[i + 1]] as int);
        assert(segsum(p, w, j, j + 1) == w[p[j]][p[j + 1]] as int);
        assert(pr[i] == p[i] && pr[i + 1] == p[j] && pr[j] == p[i + 1] && pr[j + 1] == p[j + 1]);
        assert(pr[n - 1] == p[n - 1] && pr[0] == p[0]);
    } else {
        assert(j == n - 1);
        assert((j + 1) % n == 0) by (nonlinear_arith)
            requires
                j + 1 == n,
                n > 0,
        ;
        lemma_segsum_split(p, w, 0, i, n - 1);
        lemma_segsum_split(p, w, i, i + 1, n - 1);
        lemma_segsum_split(pr, w, 0, i, n - 1);
        lemma_segsum_split(pr, w, i, i + 1, n - 1);
        lemma_segsum_congruent(pr, p, w, 0, i);
        assert(segsum(pr, w, i, i) == 0 && segsum(p, w, i, i) == 0);
        assert(segsum(pr, w, i, i + 1) == w[pr[i]][pr[i + 1]] as int);
        assert(segsum(p, w, i, i + 1) == w[p[i]][p[i + 1]] as int);
        assert(pr[i] == p[i] && pr[i + 1] == p[j]);
        assert(pr[n - 1] == p[i + 1] && pr[0] == p[0]);
    }
}

/// With weights at most the cap, a tour prefix sum is bounded above.
pub proof fn lemma_tsp_len_upper(p: Seq<int>, w: Seq<Seq<i32>>, k: int)
    requires
        forall|q: int| 0 <= q < p.len() ==> 0 <= #[trigger] p[q] < w.len(),
        forall|u: int| 0 <= u < w.len() ==> (#[trigger] w[u]).len() == w.len(),
        forall|u: int, v: int|
            0 <= u < w.len() && 0 <= v < w.len() ==> #[trigger] w[u][v] <= MAX_WEIGHT,
        k <= p.len(),
        p.len() > 0,
    ensures
        crate::tsp_comp::tour_len_upto(p, w, k) <= (if k >= 0 {
            k
        } else {
            0
        }) * (MAX_WEIGHT as int),
    decreases k,
{
    if k > 0 {
        lemma_tsp_len_upper(p, w, k - 1);
        assert(0 <= p[k - 1] < w.len());
        let nx = k % (p.len() as int);
        assert(0 <= nx < p.len());
        assert((k - 1) * (MAX_WEIGHT as int) + MAX_WEIGHT == k * (MAX_WEIGHT as int))
            by (nonlinear_arith);
    }
}

/// Every 2-opt pair before `(iu, ju)` in sweep order fails to shorten the
/// tour.
pub open spec fn two_opt_optimal_upto(p: Seq<int>, w: Seq<Seq<i32>>, iu: int, ju: int) -> bool {
    forall|i: int, j: int|
        0 <= i && i + 2 <= j && j < p.len() && (i < iu || (i == iu && j < ju)) ==> tsp_len(
            #[trigger] rev_between(p, i + 1, j),
            w,
        ) >= tsp_len(p, w)
}

/// The tour is 2-opt locally optimal: no segment reversal strictly shortens
/// it.
pub open spec fn two_opt_optimal(p: Seq<int>, w: Seq<Seq<i32>>) -> bool {
    forall|i: int, j: int|
        0 <= i && i + 2 <= j && j < p.len() ==> tsp_len(#[trigger] rev_between(p, i + 1, j), w)
            >= tsp_len(p, w)
}

/// The 2-opt search state.
pub struct Tsp {
    pub graph: Graph,
    pub history: Vec<TspPath>,
    pub path: TspPath,
    pub score_calc_type: ScoreCalcTypeTSP,
    pub computation_graph: Option<TspComp>,
}

impl Tsp {
    pub open spec fn size(self) -> int {
        self.graph.size()
    }

    pub open spec fn pathv(self) -> Seq<int> {
        path_view(self.path@)
    }

    /// A tour visits each vertex once: entries in range and pairwise
    /// distinct.
    pub open spec fn path_ok(self) -> bool {
        &&& self.path@.len() == self.size()
        &&& forall|k: int|
            0 <= k < self.pathv().len() ==> 0 <= #[trigger] self.pathv()[k] < self.size()
        &&& forall|k1: int, k2: int|
            0 <= k1 < k2 < self.pathv().len() ==> #[trigger] self.pathv()[k1]
                != #[trigger] self.pathv()[k2]
    }

    pub open spec fn graph_ok(self) -> bool {
        &&& self.graph.wf()
        &&& self.graph.complete()
        &&& 2 <= self.size() <= MAX_NODES
        &&& forall|u: int, v: int|
            0 <= u < self.size() && 0 <= v < self.size() && self.graph.edge_weight(u, v)
                is Some ==> 0 <= (#[trigger] self.graph.edge_weight(u, v))->Some_0 <= MAX_WEIGHT
    }

    /// The incremental scorer, when present, mirrors the driver: same size,
    /// the graph's weight table, the same tour, not sealed.
    pub open spec fn comp_ok(self) -> bool {
        match self.computation_graph {
            Some(c) => {
                &&& c.inv()
                &&& !c.sealed
                &&& c.size() == self.size()
                &&& c.table() == graph_table(self.graph)
                &&& (self.path@.len() == self.size() ==> c.path() == self.pathv())
            },
            None => true,
        }
    }

    pub open spec fn inv(self) -> bool {
        &&& self.graph_ok()
        &&& self.comp_ok()
        &&& (self.score_calc_type is Incremental ==> self.computation_graph is Some)
    }

    /// Build the driver; the incremental variant constructs its dependency
    /// graph from the weight table, over an initially all-zero tour.
    pub fn new(graph: Graph, score_calc_type: ScoreCalcTypeTSP) -> (r: Tsp)
        requires
            graph.wf(),
            graph.complete(),
            2 <= graph.size() <= MAX_NODES,
            forall|u: int, v: int|
                0 <= u < graph.size() && 0 <= v < graph.size() && graph.edge_weight(u, v)
                    is Some ==> 0 <= (#[trigger] graph.edge_weight(u, v))->Some_0 <= MAX_WEIGHT,
        ensures
            r.inv(),
            r.graph == graph,
            r.path@.len() == 0,
            r.history@.len() == 0,
            r.score_calc_type == score_calc_type,
    {
        let n = graph.get_number_of_nodes();
        let is_inc = match score_calc_type {
            ScoreCalcTypeTSP::Incremental => true,
            _ => false,
        };
        let computation_graph = if is_inc {
            let al = graph.get_raw_adjacency_list();
            proof {
                assert forall|u: int, v: int|
                    0 <= u < n as int && 0 <= v < n as int implies 0 <= #[trigger] al@[u]@[v]
                    <= MAX_WEIGHT by {
                    if graph.edge_weight(u, v) is Some {
                    } else {
                    }
                }
            }
            let c = TspComp::new(al, n);
            proof {
                assert(c.table() =~= graph_table(graph)) by {
                    assert forall|u: int| 0 <= u < n as int implies #[trigger] c.table()[u]
                        =~= graph_table(graph)[u] by {
                        assert forall|v: int| 0 <= v < n as int implies #[trigger] c.table()[u][v]
                            == graph_table(graph)[u][v] by {
                            assert(c.table()[u] == c.w@[u]@);
                        }
                    }
                }
            }
            Some(c)
        } else {
            None
        };
        Tsp { graph, history: Vec::new(), path: Vec::new(), score_calc_type, computation_graph }
    }

    /// Install a starting tour, mirrored into the incremental scorer.
    pub fn set_starting_path(&mut self, path: TspPath)
        requires
            old(self).inv(),
            path@.len() == old(self).size(),
            forall|k: int|
                0 <= k < path@.len() ==> 0 <= (#[trigger] path@[k] as int) < old(self).size(),
            forall|k1: int, k2: int|
                0 <= k1 < k2 < path@.len() ==> #[trigger] path@[k1] != #[trigger] path@[k2],
        ensures
            final(self).inv(),
            final(self).path_ok(),
            final(self).pathv() == path_view(path@),
            final(self).path@ == path@,
            final(self).graph == old(self).graph,
            final(self).score_calc_type == old(self).score_calc_type,
            final(self).history@ == old(self).history@,
    {
        let n = self.graph.get_number_of_nodes();
        let has_comp = match &self.computation_graph {
            Some(_) => true,
            None => false,
        };
        if has_comp {
            let mut updates: Vec<(usize, i32)> = Vec::new();
            let mut i: usize = 0;
            while i < n
                invariant
                    i <= n,
                    n as int == old(self).size(),
                    path@.len() == n as int,
                    forall|k: int|
                        0 <= k < path@.len() ==> 0 <= (#[trigger] path@[k] as int) < n as int,
                    updates@.len() == i as int,
                    forall|q: int|
                        0 <= q < i as int ==> #[trigger] updates@[q] == (q as usize, path@[q]),
                decreases n - i,
            {
                updates.push((i, path[i]));
                i += 1;
            }
            let c = match &mut self.computation_graph {
                Some(c) => c,
                None => {
                    proof {
                        assert(false);
                    }
                    return ;
                },
            };
            let res = c.update_input_nodes(updates);
            proof {
                assert(res is Ok);
                assert(path.len() == path@.len());
                Self::lemma_apply_all(old(self).computation_graph->Some_0.path(), updates@, path@);
            }
        }
        self.path = path;
        proof {
            assert(self.pathv() =~= path_view(path@));
            if self.computation_graph is Some {
                assert(self.computation_graph->Some_0.path() =~= self.pathv());
            }
        }
    }

    /// Point-wise updates covering every index yield exactly the new tour.
    proof fn lemma_apply_all(p0: Seq<int>, ups: Seq<(usize, i32)>, path: Seq<i32>)
        requires
            p0.len() == path.len(),
            ups.len() <= path.len(),
            path.len() <= usize::MAX as int,
            forall|q: int| 0 <= q < ups.len() ==> #[trigger] ups[q] == (q as usize, path[q]),
        ensures
            forall|k: int|
                0 <= k < p0.len() ==> #[trigger] apply_updates(p0, ups)[k] == (if k < ups.len() {
                    path[k] as int
                } else {
                    p0[k]
                }),
            apply_updates(p0, ups).len() == p0.len(),
        decreases ups.len(),
    {
        if ups.len() > 0 {
            assert forall|q: int| 0 <= q < ups.drop_last().len() implies
                #[trigger] ups.drop_last()[q] == (q as usize, path[q]) by {
                assert(ups[q] == (q as usize, path[q]));
            }
            Self::lemma_apply_all(p0, ups.drop_last(), path);
            assert(ups.last() == ((ups.len() - 1) as usize, path[ups.len() - 1]));
        }
    }

    /// A deterministic starting tour derived from a seed: the identity tour
    /// rotated by the seed. Both searches behave the same for the same seed.
    pub fn generate_starting_path(&mut self, seed: u64) -> (r: TspPath)
        requires
            old(self).inv(),
        ensures
            final(self).inv(),
            final(self).path_ok(),
            final(self).graph == old(self).graph,
            final(self).score_calc_type == old(self).score_calc_type,
            final(self).history@ == old(self).history@,
            r@ == final(self).path@,
            r@.len() == old(self).size(),
            forall|q: int|
                0 <= q < old(self).size() ==> #[trigger] r@[q] as int == (q + seed as int % old(
                    self,
                ).size()) % old(self).size(),
    {
        let n = self.graph.get_number_of_nodes();
        let shift = (seed % (n as u64)) as usize;
        proof {
            assert(shift as int == seed as int % (n as int));
        }
        let mut path: Vec<i32> = Vec::new();
        let mut k: usize = 0;
        while k < n
            invariant
                n as int == old(self).size(),
                2 <= n <= MAX_NODES,
                shift < n,
                k <= n,
                path@.len() == k as int,
                forall|q: int|
                    0 <= q < k as int ==> #[trigger] path@[q] as int == (q + shift as int) % (
                    n as int),
            decreases n - k,
        {
            let v = (k + shift) % n;
            path.push(v as i32);
            k += 1;
        }
        proof {
            assert forall|k1: int, k2: int| 0 <= k1 < k2 < path@.len() implies #[trigger] path@[k1]
                != #[trigger] path@[k2] by {
                assert((k1 + shift as int) % (n as int) != (k2 + shift as int) % (n as int))
                    by (nonlinear_arith)
                    requires
                        0 <= k1 < k2 < n as int,
                        0 <= shift as int && (shift as int) < n as int,
                ;
            }
        }
        let out = Self::copy_path(&path);
        self.set_starting_path(path);
        out
    }

    /// Copy a tour.
    fn copy_path(p: &Vec<i32>) -> (r: Vec<i32>)
        ensures
            r@ == p@,
    {
        let mut out: Vec<i32> = Vec::new();
        let mut i: usize = 0;
        while i < p.len()
            invariant
                (i as int) <= p@.len(),
                out@ == p@.take(i as int),
            decreases p@.len() - i,
        {
            out.push(p[i]);
            proof {
                assert(out@ =~= p@.take(i as int + 1));
            }
            i += 1;
        }
        proof {
            assert(p@.take(p@.len() as int) =~= p@);
        }
        out
    }

    /// Sum the tour's edges straight off the graph.
    pub fn calculate_path_length_naive(&self) -> (r: i32)
        requires
            self.inv(),
            self.path_ok(),
        ensures
            r as int == tsp_len(self.pathv(), graph_table(self.graph)),
    {
        let n = self.path.len();
        let mut length: i64 = 0;
        let mut i: usize = 0;
        while i < n
            invariant
                self.inv(),
                self.path_ok(),
                n as int == self.size(),
                i <= n,
                length as int == crate::tsp_comp::tour_len_upto(
                    self.pathv(),
                    graph_table(self.graph),
                    i as int,
                ),
                0 <= length as int <= (i as int) * (MAX_WEIGHT as int),
            decreases n - i,
        {
            let u = self.path[i];
            let v = if i + 1 < n {
                self.path[i + 1]
            } else {
                self.path[0]
            };
            proof {
                let p = self.pathv();
                let kn = if i as int + 1 < n as int {
                    i as int + 1
                } else {
                    0
                };
                assert((i as int + 1) % (p.len() as int) == kn) by (nonlinear_arith)
                    requires
                        0 <= i as int && (i as int) < n as int,
                        p.len() == n as int,
                        kn == if i as int + 1 < n as int {
                            i as int + 1
                        } else {
                            0
                        },
                ;
                assert(self.pathv()[i as int] == self.path@[i as int] as int);
                assert(self.pathv()[kn] == self.path@[kn] as int);
                assert(u as int == p[i as int] && v as int == p[kn]);
                if (i as int) < kn {
                    assert(p[i as int] != p[kn]);
                } else {
                    assert(kn == 0 && i as int > 0);
                    assert(p[kn] != p[i as int]);
                }
                assert(u as int != v as int);
                assert(self.graph.has_edge(u as int, v as int));
            }
            let e = self.graph.get_edge_from_lookup(u, v);
            let w = match e {
                Some(edge) => edge.weight,
                None => {
                    proof {
                        assert(false);
                    }
                    0
                },
            };
            proof {
                assert(graph_table(self.graph)[u as int][v as int] == w) by {
                    assert(graph_table(self.graph)[u as int] == Seq::new(
                        self.graph.size() as nat,
                        |v2: int|
                            if self.graph.edge_weight(u as int, v2) is Some {
                                self.graph.edge_weight(u as int, v2)->Some_0
                            } else {
                                0
                            },
                    ));
                }
                assert((i as int + 1) * (MAX_WEIGHT as int) == (i as int) * (MAX_WEIGHT as int)
                    + MAX_WEIGHT) by (nonlinear_arith);
                assert((i as int) * (MAX_WEIGHT as int) <= 1000 * 1000000) by (nonlinear_arith)
                    requires
                        0 <= i as int <= 1000,
                ;
            }
            length = length + (w as i64);
            i += 1;
        }
        proof {
            assert((n as int) * (MAX_WEIGHT as int) <= 1000 * 1000000) by (nonlinear_arith)
                requires
                    0 <= n as int <= 1000,
            ;
        }
        length as i32
    }

    /// The tour's current length, by whichever scorer the driver carries.
    pub fn calculate_path_length(&mut self) -> (r: i32)
        requires
            old(self).inv(),
            old(self).path_ok(),
        ensures
            final(self).inv(),
            final(self).path_ok(),
            final(self).graph == old(self).graph,
            final(self).pathv() == old(self).pathv(),
            final(self).path@ == old(self).path@,
            final(self).history@ == old(self).history@,
            final(self).score_calc_type == old(self).score_calc_type,
            (final(self).computation_graph is Some) == (old(self).computation_graph is Some),
            r as int == tsp_len(old(self).pathv(), graph_table(old(self).graph)),
    {
        let is_inc = match self.score_calc_type {
            ScoreCalcTypeTSP::Incremental => true,
            _ => false,
        };
        if is_inc {
            let c = match &mut self.computation_graph {
                Some(c) => c,
                None => {
                    proof {
                        assert(false);
                    }
                    return 0;
                },
            };
            let r = c.get_result();
            r
        } else {
            self.calculate_path_length_naive()
        }
    }

    /// Reverse the segment strictly between the edge ends: positions
    /// `i + 1 ..= j`, mirrored into the incremental scorer.
    pub fn swap_edges(&mut self, i: usize, j: usize)
        requires
            old(self).inv(),
            old(self).path_ok(),
            i < j,
            (j as int) < old(self).size(),
        ensures
            final(self).inv(),
            final(self).path_ok(),
            final(self).graph == old(self).graph,
            final(self).history@ == old(self).history@,
            final(self).score_calc_type == old(self).score_calc_type,
            (final(self).computation_graph is Some) == (old(self).computation_graph is Some),
            final(self).pathv() == rev_between(old(self).pathv(), i as int + 1, j as int),
    {
        let ghost p0 = self.pathv();
        let ghost l = i as int + 1;
        let ghost r = j as int;
        let mut updates: Vec<(usize, i32)> = Vec::new();
        let mut a: usize = i + 1;
        let mut b: usize = j;
        while a < b
            invariant
                self.graph == old(self).graph,
                self.history@ == old(self).history@,
                self.score_calc_type == old(self).score_calc_type,
                self.computation_graph == old(self).computation_graph,
                old(self).inv(),
                old(self).path_ok(),
                self.path@.len() == p0.len(),
                p0 == old(self).pathv(),
                p0.len() == old(self).size(),
                l == i as int + 1,
                r == j as int,
                l <= a as int,
                a as int + b as int == l + r,
                a as int <= b as int + 1,
                (b as int) <= r,
                (j as int) < old(self).size(),
                i < j,
                forall|k: int|
                    0 <= k < p0.len() ==> #[trigger] self.pathv()[k] == (if (l <= k && k
                        < a as int) || ((b as int) < k && k <= r) {
                        p0[l + r - k]
                    } else {
                        p0[k]
                    }),
                forall|q: int|
                    0 <= q < updates@.len() ==> (#[trigger] updates@[q].0 as int) < p0.len()
                        && 0 <= updates@[q].1 as int && (updates@[q].1 as int) < old(self).size(),
                apply_updates(p0, updates@) == self.pathv(),
            decreases b + 1 - a,
        {
            let ghost prevp = self.pathv();
            let ghost prev_ups = updates@;
            let va = self.path[a];
            let vb = self.path[b];
            self.path[a] = vb;
            self.path[b] = va;
            updates.push((a, vb));
            updates.push((b, va));
            proof {
                assert(va as int == prevp[a as int] && vb as int == prevp[b as int]);
                assert(prevp[a as int] == p0[a as int]);
                assert(prevp[b as int] == p0[b as int]);
                assert(self.pathv() =~= prevp.update(a as int, vb as int).update(
                    b as int,
                    va as int,
                ));
                assert forall|k: int| 0 <= k < p0.len() implies #[trigger] self.pathv()[k] == (
                if (l <= k && k < a as int + 1) || ((b as int - 1) < k && k <= r) {
                    p0[l + r - k]
                } else {
                    p0[k]
                }) by {
                    if k == a as int {
                        assert(l + r - (a as int) == b as int);
                    } else if k == b as int {
                        assert(l + r - (b as int) == a as int);
                    }
                }
                assert(apply_updates(p0, updates@) == self.pathv()) by {
                    assert(updates@.drop_last() =~= prev_ups.push((a, vb)));
                    assert(updates@.drop_last().drop_last() =~= prev_ups);
                    assert(apply_updates(p0, updates@) == apply_updates(
                        p0,
                        updates@.drop_last(),
                    ).update(b as int, va as int));
                    assert(apply_updates(p0, updates@.drop_last()) == apply_updates(
                        p0,
                        prev_ups,
                    ).update(a as int, vb as int));
                    assert(apply_updates(p0, prev_ups) == prevp);
                    assert(apply_updates(p0, updates@) =~= prevp.update(
                        a as int,
                        vb as int,
                    ).update(b as int, va as int));
                }
            }
            a += 1;
            b -= 1;
        }
        proof {
            assert(self.pathv() =~= rev_between(p0, l, r)) by {
                assert forall|k: int| 0 <= k < p0.len() implies #[trigger] self.pathv()[k]
                    == rev_between(p0, l, r)[k] by {
                    if l <= k && k <= r {
                        if a as int <= k && k <= b as int {
                            assert(a as int == b as int && k == a as int);
                            assert(l + r - k == k);
                        }
                    }
                }
            }
        }
        let has_comp = match &self.computation_graph {
            Some(_) => true,
            None => false,
        };
        if has_comp {
            let c = match &mut self.computation_graph {
                Some(c) => c,
                None => {
                    proof {
                        assert(false);
                    }
                    return ;
                },
            };
            let ghost cpre = *c;
            let res = c.update_input_nodes(updates);
            proof {
                assert(res is Ok);
                assert(c.path() =~= self.pathv()) by {
                    assert(c.path() == apply_updates(cpre.path(), updates@));
                    assert(cpre.path() == p0);
                }
            }
        }
        proof {
            // reversing a segment permutes positions, keeping the tour valid
            assert forall|k1: int, k2: int| 0 <= k1 < k2 < self.pathv().len() implies
                #[trigger] self.pathv()[k1] != #[trigger] self.pathv()[k2] by {
                let m1 = if l <= k1 && k1 <= r {
                    l + r - k1
                } else {
                    k1
                };
                let m2 = if l <= k2 && k2 <= r {
                    l + r - k2
                } else {
                    k2
                };
                assert(m1 != m2);
                assert(self.pathv()[k1] == p0[m1] && self.pathv()[k2] == p0[m2]);
                if m1 < m2 {
                    assert(p0[m1] != p0[m2]);
                } else {
                    assert(p0[m2] != p0[m1]);
                }
            }
        }
    }

    /// After the search the incremental scorer, when present, is sealed and
    /// still mirrors the final tour.
    pub open spec fn comp_done(self) -> bool {
        match self.computation_graph {
            Some(c) => {
                &&& c.inv()
                &&& c.sealed
                &&& c.size() == self.size()
                &&& c.table() == graph_table(self.graph)
                &&& c.path() == self.pathv()
            },
            None => true,
        }
    }

    /// Seal the incremental scorer, if any.
    fn finish(&mut self)
        requires
            old(self).inv(),
            old(self).path_ok(),
        ensures
            final(self).path_ok(),
            final(self).graph_ok(),
            final(self).pathv() == old(self).pathv(),
            final(self).path@ == old(self).path@,
            final(self).history@ == old(self).history@,
            final(self).graph == old(self).graph,
            final(self).score_calc_type == old(self).score_calc_type,
            (final(self).computation_graph is Some) == (old(self).computation_graph is Some),
            final(self).comp_done(),
    {
        let has_comp = match &self.computation_graph {
            Some(_) => true,
            None => false,
        };
        if has_comp {
            let c = match &mut self.computation_graph {
                Some(c) => c,
                None => {
                    proof {
                        assert(false);
                    }
                    return ;
                },
            };
            let _ = c.seal();
        }
    }

    /// The graph's weight table is square, symmetric, and holds weights in
    /// range.
    proof fn lemma_my_table(self)
        requires
            self.graph_ok(),
        ensures
            graph_table(self.graph).len() == self.size(),
            forall|u: int|
                0 <= u < self.size() ==> (#[trigger] graph_table(self.graph)[u]).len()
                    == self.size(),
            forall|u: int, v: int|
                0 <= u < self.size() && 0 <= v < self.size() ==> 0 <= #[trigger] graph_table(
                    self.graph,
                )[u][v] && graph_table(self.graph)[u][v] <= MAX_WEIGHT,
            table_sym(graph_table(self.graph)),
    {
        let w = graph_table(self.graph);
        assert forall|u: int| 0 <= u < self.size() implies (#[trigger] w[u]).len()
            == self.size() by {
            assert(w[u] == Seq::new(
                self.graph.size() as nat,
                |v: int|
                    if self.graph.edge_weight(u, v) is Some {
                        self.graph.edge_weight(u, v)->Some_0
                    } else {
                        0
                    },
            ));
        }
        assert forall|u: int, v: int|
            0 <= u < self.size() && 0 <= v < self.size() implies 0 <= #[trigger] w[u][v] && w[u][v]
            <= MAX_WEIGHT && w[u][v] == w[v][u] by {
            assert(w[u] == Seq::new(
                self.graph.size() as nat,
                |v2: int|
                    if self.graph.edge_weight(u, v2) is Some {
                        self.graph.edge_weight(u, v2)->Some_0
                    } else {
                        0
                    },
            ));
            assert(w[v] == Seq::new(
                self.graph.size() as nat,
                |v2: int|
                    if self.graph.edge_weight(v, v2) is Some {
                        self.graph.edge_weight(v, v2)->Some_0
                    } else {
                        0
                    },
            ));
            assert(self.graph.edge_weight(u, v) == self.graph.edge_weight(v, u));
        }
    }

    /// The current tour's length lies between zero and the weight cap times
    /// the tour's size.
    proof fn lemma_my_len_bounds(self)
        requires
            self.graph_ok(),
            self.path_ok(),
        ensures
            0 <= tsp_len(self.pathv(), graph_table(self.graph)),
            tsp_len(self.pathv(), graph_table(self.graph)) <= self.size() * (MAX_WEIGHT as int),
    {
        self.lemma_my_table();
        let w = graph_table(self.graph);
        lemma_tsp_len_nonneg(self.pathv(), w, self.pathv().len() as int);
        lemma_tsp_len_upper(self.pathv(), w, self.pathv().len() as int);
    }

    /// 2-opt local search: sweep all edge pairs, accept a reversal exactly
    /// when it strictly shortens the tour, and stop after a sweep with no
    /// improvement. The returned length is the final tour's; the final tour
    /// admits no improving reversal; every recorded tour is strictly shorter
    /// than the one before it, and the last recorded tour is the final one.
    /// Afterwards the incremental scorer, if any, is sealed.
    pub fn tsp(&mut self) -> (r: Result<i32, ()>)
        requires
            old(self).inv(),
            old(self).path_ok(),
        ensures
            final(self).path_ok(),
            final(self).graph_ok(),
            final(self).graph == old(self).graph,
            final(self).score_calc_type == old(self).score_calc_type,
            (final(self).computation_graph is Some) == (old(self).computation_graph is Some),
            final(self).comp_done(),
            r is Ok,
            r->Ok_0 as int == tsp_len(final(self).pathv(), graph_table(final(self).graph)),
            r->Ok_0 as int <= tsp_len(old(self).pathv(), graph_table(old(self).graph)),
            two_opt_optimal(final(self).pathv(), graph_table(final(self).graph)),
            forall|k: int|
                0 <= k && k + 1 < final(self).history@.len() ==> tsp_len(
                    path_view(#[trigger] final(self).history@[k + 1]@),
                    graph_table(final(self).graph),
                ) < tsp_len(path_view(final(self).history@[k]@), graph_table(final(self).graph)),
            final(self).history@.len() > 0 ==> final(self).history@.last()@ == final(self).path@,
            final(self).history@.len() == 0 ==> final(self).path@ == old(self).path@,
    {
        let mut best_length = self.calculate_path_length();
        proof {
            self.lemma_my_len_bounds();
        }
        let n = self.path.len();
        let mut improved = true;
        let mut history: Vec<TspPath> = Vec::new();
        while improved
            invariant
                self.inv(),
                self.path_ok(),
                self.graph == old(self).graph,
                self.score_calc_type == old(self).score_calc_type,
                (self.computation_graph is Some) == (old(self).computation_graph is Some),
                n as int == self.size(),
                best_length as int == tsp_len(self.pathv(), graph_table(self.graph)),
                best_length as int <= tsp_len(old(self).pathv(), graph_table(old(self).graph)),
                0 <= best_length as int,
                forall|k: int|
                    0 <= k && k + 1 < history@.len() ==> tsp_len(
                        path_view(#[trigger] history@[k + 1]@),
                        graph_table(self.graph),
                    ) < tsp_len(path_view(history@[k]@), graph_table(self.graph)),
                history@.len() > 0 ==> tsp_len(
                    path_view(history@[history@.len() - 1]@),
                    graph_table(self.graph),
                ) == best_length as int,
                history@.len() > 0 ==> history@.last()@ == self.path@,
                history@.len() == 0 ==> self.path@ == old(self).path@,
                !improved ==> two_opt_optimal(self.pathv(), graph_table(self.graph)),
            decreases (best_length as int) + (if improved {
                1int
            } else {
                0int
            }),
        {
            let ghost entry_best = best_length;
            improved = false;
            let mut i: usize = 0;
            while i + 1 < n
                invariant
                    i <= n,
                    self.inv(),
                    self.path_ok(),
                    self.graph == old(self).graph,
                    self.score_calc_type == old(self).score_calc_type,
                    (self.computation_graph is Some) == (old(self).computation_graph is Some),
                    n as int == self.size(),
                    best_length as int == tsp_len(self.pathv(), graph_table(self.graph)),
                    best_length as int <= tsp_len(
                        old(self).pathv(),
                        graph_table(old(self).graph),
                    ),
                    0 <= best_length as int,
                    improved ==> best_length < entry_best,
                    !improved ==> best_length == entry_best,
                    forall|k: int|
                        0 <= k && k + 1 < history@.len() ==> tsp_len(
                            path_view(#[trigger] history@[k + 1]@),
                            graph_table(self.graph),
                        ) < tsp_len(path_view(history@[k]@), graph_table(self.graph)),
                    history@.len() > 0 ==> tsp_len(
                        path_view(history@[history@.len() - 1]@),
                        graph_table(self.graph),
                    ) == best_length as int,
                    history@.len() > 0 ==> history@.last()@ == self.path@,
                    history@.len() == 0 ==> self.path@ == old(self).path@,
                    !improved ==> two_opt_optimal_upto(
                        self.pathv(),
                        graph_table(self.graph),
                        i as int,
                        i as int + 2,
                    ),
                decreases n - i,
            {
                let mut j: usize = i + 2;
                while j < n
                    invariant
                        self.inv(),
                        self.path_ok(),
                        self.graph == old(self).graph,
                        self.score_calc_type == old(self).score_calc_type,
                        (self.computation_graph is Some) == (old(
                            self,
                        ).computation_graph is Some),
                        n as int == self.size(),
                        i + 1 < n,
                        i + 2 <= j || j == i + 2,
                        best_length as int == tsp_len(self.pathv(), graph_table(self.graph)),
                        best_length as int <= tsp_len(
                            old(self).pathv(),
                            graph_table(old(self).graph),
                        ),
                        0 <= best_length as int,
                        improved ==> best_length < entry_best,
                        !improved ==> best_length == entry_best,
                        forall|k: int|
                            0 <= k && k + 1 < history@.len() ==> tsp_len(
                                path_view(#[trigger] history@[k + 1]@),
                                graph_table(self.graph),
                            ) < tsp_len(path_view(history@[k]@), graph_table(self.graph)),
                        history@.len() > 0 ==> tsp_len(
                            path_view(history@[history@.len() - 1]@),
                            graph_table(self.graph),
                        ) == best_length as int,
                        history@.len() > 0 ==> history@.last()@ == self.path@,
                        history@.len() == 0 ==> self.path@ == old(self).path@,
                        !improved ==> two_opt_optimal_upto(
                            self.pathv(),
                            graph_table(self.graph),
                            i as int,
                            j as int,
                        ),
                    decreases n - j,
                {
                    let ghost pre_pair = self.pathv();
                    let mut accept = false;
                    let mut new_length: i32 = 0;
                    let is_fast = match self.score_calc_type {
                        ScoreCalcTypeTSP::Fast => true,
                        _ => false,
                    };
                    if is_fast {
                        // the delta of the four edges the reversal touches,
                        // straight off the weight table, bypassing the
                        // dependency graph
                        let inx = i + 1;
                        let jn = if j + 1 < n {
                            j + 1
                        } else {
                            0
                        };
                        let e1 = self.lookup_weight(i, inx);
                        let e2 = self.lookup_weight(j, jn);
                        let ne1 = self.lookup_weight(i, j);
                        let ne2 = self.lookup_weight(inx, jn);
                        let delta = (ne1 as i64 + ne2 as i64) - (e1 as i64 + e2 as i64);
                        proof {
                            self.lemma_my_table();
                            lemma_two_opt_delta(
                                self.pathv(),
                                graph_table(self.graph),
                                i as int,
                                j as int,
                            );
                            assert((j as int + 1) % (n as int) == jn as int) by (nonlinear_arith)
                                requires
                                    0 <= j as int,
                                    (j as int) < n as int,
                                    n as int > 0,
                                    jn as int == if j as int + 1 < n as int {
                                        j as int + 1
                                    } else {
                                        0
                                    },
                            ;
                            assert(tsp_len(
                                rev_between(self.pathv(), i as int + 1, j as int),
                                graph_table(self.graph),
                            ) == best_length as int + delta as int);
                        }
                        if delta < 0 {
                            self.swap_edges(i, j);
                            proof {
                                self.lemma_my_len_bounds();
                                assert((self.size()) * (MAX_WEIGHT as int) <= 1000 * 1000000)
                                    by (nonlinear_arith)
                                    requires
                                        0 <= self.size() <= 1000,
                                ;
                            }
                            new_length = (best_length as i64 + delta) as i32;
                            accept = true;
                        } else {
                            proof {
                                assert(tsp_len(
                                    rev_between(self.pathv(), i as int + 1, j as int),
                                    graph_table(self.graph),
                                ) >= tsp_len(self.pathv(), graph_table(self.graph)));
                            }
                        }
                    } else {
                        let ghost orig = self.pathv();
                        let ghost orig_p = self.path@;
                        self.swap_edges(i, j);
                        let nl = self.calculate_path_length();
                        if nl < best_length {
                            new_length = nl;
                            accept = true;
                        } else {
                            // revert: reversing the same segment again
                            // restores the tour
                            self.swap_edges(i, j);
                            proof {
                                let l = i as int + 1;
                                let r = j as int;
                                assert(self.pathv() =~= orig) by {
                                    assert forall|k: int| 0 <= k < orig.len() implies
                                        #[trigger] self.pathv()[k] == orig[k] by {
                                        if l <= k && k <= r {
                                            assert(self.pathv()[k] == rev_between(orig, l, r)[l
                                                + r - k]);
                                        }
                                    }
                                }
                                assert(self.path@ =~= orig_p) by {
                                    assert forall|k: int| 0 <= k < orig_p.len() implies
                                        #[trigger] self.path@[k] == orig_p[k] by {
                                        assert(self.pathv()[k] == orig[k]);
                                        assert(self.pathv()[k] == self.path@[k] as int);
                                        assert(orig[k] == orig_p[k] as int);
                                    }
                                }
                                assert(tsp_len(
                                    rev_between(self.pathv(), i as int + 1, j as int),
                                    graph_table(self.graph),
                                ) >= tsp_len(self.pathv(), graph_table(self.graph)));
                            }
                        }
                    }
                    if accept {
                        proof {
                            self.lemma_my_len_bounds();
                        }
                        let ghost old_best = best_length;
                        let ghost hist0 = history@;
                        best_length = new_length;
                        improved = true;
                        let snap = Self::copy_path(&self.path);
                        history.push(snap);
                        proof {
                            assert(history@ =~= hist0.push(snap));
                            assert(path_view(snap@) == self.pathv());
                            assert forall|k: int|
                                0 <= k && k + 1 < history@.len() implies tsp_len(
                                path_view(#[trigger] history@[k + 1]@),
                                graph_table(self.graph),
                            ) < tsp_len(
                                path_view(history@[k]@),
                                graph_table(self.graph),
                            ) by {
                                if k + 1 < history@.len() - 1 {
                                    assert(history@[k] == hist0[k]);
                                    assert(history@[k + 1] == hist0[k + 1]);
                                } else {
                                    assert(history@[k + 1] == snap);
                                    assert(history@[k] == hist0[hist0.len() - 1]);
                                    assert(tsp_len(
                                        path_view(hist0[hist0.len() - 1]@),
                                        graph_table(self.graph),
                                    ) == old_best as int);
                                }
                            }
                        }
                    } else {
                        proof {
                            if !improved {
                                assert(self.pathv() == pre_pair);
                                assert forall|i2: int, j2: int|
                                    0 <= i2 && i2 + 2 <= j2 && j2 < self.pathv().len() && (i2
                                        < i as int || (i2 == i as int && j2 < j as int
                                        + 1)) implies tsp_len(
                                    #[trigger] rev_between(self.pathv(), i2 + 1, j2),
                                    graph_table(self.graph),
                                ) >= tsp_len(self.pathv(), graph_table(self.graph)) by {
                                    if !(i2 == i as int && j2 == j as int) {
                                        assert(two_opt_optimal_upto(
                                            self.pathv(),
                                            graph_table(self.graph),
                                            i as int,
                                            j as int,
                                        ));
                                    }
                                }
                            }
                        }
                    }
                    j += 1;
                }
                proof {
                    if !improved {
                        assert forall|i2: int, j2: int|
                            0 <= i2 && i2 + 2 <= j2 && j2 < self.pathv().len() && (i2 < i as int
                                + 1 || (i2 == i as int + 1 && j2 < i as int + 3)) implies
                            tsp_len(
                            #[trigger] rev_between(self.pathv(), i2 + 1, j2),
                            graph_table(self.graph),
                        ) >= tsp_len(self.pathv(), graph_table(self.graph)) by {
                            assert(two_opt_optimal_upto(
                                self.pathv(),
                                graph_table(self.graph),
                                i as int,
                                j as int,
                            ));
                        }
                    }
                }
                i += 1;
            }
            proof {
                if !improved {
                    assert forall|i2: int, j2: int|
                        0 <= i2 && i2 + 2 <= j2 && j2 < self.pathv().len() implies tsp_len(
                        #[trigger] rev_between(self.pathv(), i2 + 1, j2),
                        graph_table(self.graph),
                    ) >= tsp_len(self.pathv(), graph_table(self.graph)) by {
                        assert(i2 < i as int);
                        assert(two_opt_optimal_upto(
                            self.pathv(),
                            graph_table(self.graph),
                            i as int,
                            i as int + 2,
                        ));
                    }
                }
            }
        }
        self.finish();
        self.history = history;
        Ok(best_length)
    }

    /// One weight-table entry, read off the graph.
    fn lookup_weight(&self, a: usize, b: usize) -> (r: i32)
        requires
            self.inv(),
            self.path_ok(),
            (a as int) < self.size(),
            (b as int) < self.size(),
        ensures
            r as int == graph_table(self.graph)[path_view(self.path@)[a as int]][path_view(
                self.path@,
            )[b as int]] as int || a == b,
    {
        let u = self.path[a];
        let v = self.path[b];
        let e = self.graph.get_edge_from_lookup(u, v);
        match e {
            Some(edge) => {
                proof {
                    assert(graph_table(self.graph)[u as int] == Seq::new(
                        self.graph.size() as nat,
                        |v2: int|
                            if self.graph.edge_weight(u as int, v2) is Some {
                                self.graph.edge_weight(u as int, v2)->Some_0
                            } else {
                                0
                            },
                    ));
                }
                edge.weight
            },
            None => {
                proof {
                    if a != b {
                        assert(self.pathv()[a as int] != self.pathv()[b as int]);
                        assert(self.graph.has_edge(u as int, v as int));
                        assert(false);
                    }
                }
                0
            },
        }
    }

    pub fn get_history(&self) -> (r: &Vec<TspPath>)
        ensures
            r == self.history,
    {
        &self.history
    }

    pub fn get_path(&self) -> (r: &TspPath)
        ensures
            r == self.path,
    {
        &self.path
    }
}

} // verus!
