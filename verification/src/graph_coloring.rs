//! The graph-coloring driver: a deterministic local search that sweeps the
//! vertices, trying every alternative color and one fresh color per vertex,
//! and keeps whichever recoloring lowers the cost most. Scoring goes through
//! a direct count or through the incremental dependency graph; all variants
//! compute the same cost function.

use vstd::prelude::*;
use crate::graph::{Graph, PointId};
use crate::graph_coloring_comp::{GraphColoringComp, GraphColouringFlags, coloring_score,
    branch_score, ind_seq, lemma_score_extra_colors_zero, MAX_COLOR_NODES};
use crate::engine::{ones_upto, ill_pairs};

verus! {

/// A vertex's color.
#[derive(Clone, Copy, Debug, PartialEq, Eq, Structural, Hash)]
pub struct Color(pub i32);

/// How the driver scores a coloring.
pub enum ScoreCalcTypeGraphColoring {
    Fast,
    Slow,
    Incremental,
}

/// A coloring as mathematical integers.
pub open spec fn colv(cs: Seq<Color>) -> Seq<int> {
    cs.map_values(|c: Color| c.0 as int)
}

/// The adjacency matrix a graph induces.
pub open spec fn graph_adjv(g: Graph) -> Seq<Seq<bool>> {
    Seq::new(g.size() as nat, |u: int| Seq::new(g.size() as nat, |v: int| g.has_edge(u, v)))
}

/// A branch scores at least the negated square of its member count.
pub proof fn lemma_score_lower(colors: Seq<int>, adjv: Seq<Seq<bool>>, k: int)
    requires
        colors.len() <= MAX_COLOR_NODES as int,
    ensures
        k >= 0 ==> coloring_score(colors, adjv, k) >= -(k * 16384),
        k <= 0 ==> coloring_score(colors, adjv, k) == 0,
    decreases k,
{
    if k > 0 {
        lemma_score_lower(colors, adjv, k - 1);
        let ind = ind_seq(colors, k - 1);
        crate::engine::lemma_ones_bound(ind, ind.len() as int);
        crate::engine::lemma_ill_bound(ind, adjv, ind.len() as int);
        let ones = ones_upto(ind, ind.len() as int);
        let ill = ill_pairs(ind, adjv);
        assert(branch_score(colors, adjv, k - 1) >= -16384) by (nonlinear_arith)
            requires
                0 <= ones <= 128,
                0 <= ill,
                branch_score(colors, adjv, k - 1) == 2 * ones * ill - ones * ones,
        ;
        assert((k - 1) * 16384 + 16384 == k * 16384) by (nonlinear_arith);
    }
}

/// Recoloring any single vertex below `upto_v` within the palette does not
/// lower the cost.
pub open spec fn swap_optimal_upto(
    colors: Seq<int>,
    adjv: Seq<Seq<bool>>,
    ncolors: int,
    upto_v: int,
) -> bool {
    forall|v: int, c: int|
        0 <= v < upto_v && 0 <= c < ncolors ==> coloring_score(
            #[trigger] colors.update(v, c),
            adjv,
            ncolors,
        ) >= coloring_score(colors, adjv, ncolors)
}

/// Giving any single vertex below `upto_v` a fresh color does not lower the
/// cost.
pub open spec fn fresh_optimal_upto(
    colors: Seq<int>,
    adjv: Seq<Seq<bool>>,
    ncolors: int,
    upto_v: int,
) -> bool {
    forall|v: int|
        0 <= v < upto_v ==> coloring_score(#[trigger] colors.update(v, ncolors), adjv, ncolors + 1)
            >= coloring_score(colors, adjv, ncolors)
}

/// The search state.
pub struct GraphColoring {
    pub graph: Graph,
    pub coloring: Vec<Color>,
    pub number_of_colors: i32,
    pub history: Vec<Vec<Color>>,
    pub score_type: ScoreCalcTypeGraphColoring,
    pub comp: Option<GraphColoringComp>,
}

impl GraphColoring {
    pub open spec fn size(self) -> int {
        self.graph.size()
    }

    pub open spec fn cview(self) -> Seq<int> {
        colv(self.coloring@)
    }

    /// The current score: the cost formula over the colors in use.
    pub open spec fn score(self) -> int {
        coloring_score(self.cview(), graph_adjv(self.graph), self.number_of_colors as int)
    }

    /// Everything but the palette bound: sizes, ranges against the vertex
    /// count, and the mirror into the incremental scorer.
    pub open spec fn core_inv(self) -> bool {
        &&& self.graph.wf()
        &&& 1 <= self.size() <= MAX_COLOR_NODES
        &&& self.coloring@.len() == self.size()
        &&& 1 <= self.number_of_colors as int <= self.size()
        &&& forall|k: int|
            0 <= k < self.cview().len() ==> 0 <= #[trigger] self.cview()[k]
                && self.cview()[k] < self.size()
        &&& match self.comp {
            Some(c) => {
                &&& c.inv()
                &&& !c.sealed
                &&& c.result is Some
                &&& c.size() == self.size()
                &&& c.colors() == self.cview()
                &&& c.adjv() == graph_adjv(self.graph)
                &&& self.number_of_colors as int <= c.colour_cap()
            },
            None => true,
        }
        &&& (self.score_type is Incremental ==> self.comp is Some)
    }

    pub open spec fn inv(self) -> bool {
        &&& self.core_inv()
        &&& forall|k: int|
            0 <= k < self.cview().len() ==> #[trigger] self.cview()[k]
                < self.number_of_colors as int
    }

    /// Build the driver over a graph, everything colored zero; the
    /// incremental variant constructs its dependency graph with the given
    /// flags.
    pub fn new_with_flags(
        graph: Graph,
        score_type: ScoreCalcTypeGraphColoring,
        flags: GraphColouringFlags,
    ) -> (r: GraphColoring)
        requires
            graph.wf(),
            1 <= graph.size() <= MAX_COLOR_NODES,
        ensures
            r.inv(),
            r.graph == graph,
            r.score_type == score_type,
            (r.comp is Some) <==> score_type is Incremental,
            r.comp is Some ==> r.comp->Some_0.flags == flags,
            r.number_of_colors == 1,
            r.history@.len() == 0,
            r.cview() =~= Seq::new(graph.size() as nat, |k: int| 0int),
    {
        let n = graph.get_number_of_nodes();
        let mut coloring: Vec<Color> = Vec::new();
        let mut k: usize = 0;
        while k < n
            invariant
                k <= n,
                coloring@.len() == k as int,
                forall|q: int| 0 <= q < k as int ==> #[trigger] coloring@[q] == (Color(0)),
            decreases n - k,
        {
            coloring.push(Color(0));
            k += 1;
        }
        let is_inc = match score_type {
            ScoreCalcTypeGraphColoring::Incremental => true,
            _ => false,
        };
        let comp = if is_inc {
            let mut c = GraphColoringComp::new(&graph, n, flags);
            let ghost c0 = c;
            c.create_computation_graph();
            let _ = c.get_result();
            proof {
                assert(c.colors() =~= colv(coloring@));
                assert(c.adj == c0.adj);
                assert(c.adjv() == c0.adjv());
                assert(c.adjv() =~= graph_adjv(graph)) by {
                    assert forall|u: int| 0 <= u < n as int implies #[trigger] c.adjv()[u]
                        =~= graph_adjv(graph)[u] by {
                        assert forall|v: int| 0 <= v < n as int implies #[trigger] c.adjv()[u][v]
                            == graph_adjv(graph)[u][v] by {
                            assert(c0.adjv()[u][v] == graph.has_edge(u, v));
                        }
                        assert(c.adjv()[u].len() == n as int) by {
                            assert(c.adjv()[u] == c.adj@[u]@);
                        }
                    }
                }
            }
            Some(c)
        } else {
            None
        };
        let r = GraphColoring {
            graph,
            coloring,
            number_of_colors: 1,
            history: Vec::new(),
            score_type,
            comp,
        };
        proof {
            assert(r.cview() =~= Seq::new(r.graph.size() as nat, |k: int| 0int));
        }
        r
    }

    /// Build the driver with the plain construction flags.
    pub fn new(graph: Graph, score_type: ScoreCalcTypeGraphColoring) -> (r: GraphColoring)
        requires
            graph.wf(),
            1 <= graph.size() <= MAX_COLOR_NODES,
        ensures
            r.inv(),
            r.graph == graph,
            r.score_type == score_type,
            (r.comp is Some) <==> score_type is Incremental,
            r.comp is Some ==> r.comp->Some_0.flags == GraphColouringFlags::default_spec(),
            r.number_of_colors == 1,
            r.history@.len() == 0,
            r.cview() =~= Seq::new(graph.size() as nat, |k: int| 0int),
    {
        Self::new_with_flags(graph, score_type, GraphColouringFlags::default())
    }

    /// How many vertices wear color `c`.
    fn count_members(&self, c: i32) -> (r: i32)
        requires
            self.inv(),
        ensures
            r as int == ones_upto(
                ind_seq(self.cview(), c as int),
                self.cview().len() as int,
            ),
            0 <= r as int <= self.cview().len(),
    {
        let n = self.coloring.len();
        let mut acc: i32 = 0;
        let mut v: usize = 0;
        while v < n
            invariant
                self.inv(),
                n as int == self.cview().len(),
                v <= n,
                acc as int == ones_upto(ind_seq(self.cview(), c as int), v as int),
                0 <= acc as int <= v as int,
            decreases n - v,
        {
            proof {
                assert(ind_seq(self.cview(), c as int)[v as int] == (if self.cview()[v as int]
                    == c as int {
                    1int
                } else {
                    0int
                }));
                assert(self.cview()[v as int] == self.coloring@[v as int].0 as int);
            }
            if self.coloring[v].0 == c {
                acc = acc + 1;
            }
            v += 1;
        }
        acc
    }

    /// How many edges join two vertices both wearing color `c`.
    fn count_illegal(&self, c: i32) -> (r: i32)
        requires
            self.inv(),
        ensures
            r as int == ill_pairs(ind_seq(self.cview(), c as int), graph_adjv(self.graph)),
            0 <= r as int <= 16384,
    {
        let n = self.coloring.len();
        let ghost ind = ind_seq(self.cview(), c as int);
        let ghost aj = graph_adjv(self.graph);
        let mut count: i32 = 0;
        let mut i: usize = 0;
        proof {
            crate::engine::lemma_ill_bound(ind, aj, 0);
        }
        while i < n
            invariant
                self.inv(),
                n as int == self.cview().len(),
                ind == ind_seq(self.cview(), c as int),
                aj == graph_adjv(self.graph),
                i <= n,
                count as int == crate::engine::ill_upto(ind, aj, i as int),
                0 <= count as int <= (i as int) * (n as int),
                (i as int) * (n as int) <= 16384,
            decreases n - i,
        {
            let mut j: usize = i + 1;
            let ghost base = count as int;
            while j < n
                invariant
                    self.inv(),
                    n as int == self.cview().len(),
                    ind == ind_seq(self.cview(), c as int),
                    aj == graph_adjv(self.graph),
                    i < n,
                    i < j || j == i + 1,
                    j <= n,
                    base == crate::engine::ill_upto(ind, aj, i as int),
                    count as int == base + crate::engine::row_upto(ind, aj, i as int, j as int),
                    0 <= base <= (i as int) * (n as int),
                    count as int <= (i as int) * (n as int) + (n as int),
                    (i as int) * (n as int) <= 16384,
                decreases n - j,
            {
                proof {
                    assert(ind[i as int] == (if self.cview()[i as int] == c as int {
                        1int
                    } else {
                        0int
                    }));
                    assert(ind[j as int] == (if self.cview()[j as int] == c as int {
                        1int
                    } else {
                        0int
                    }));
                    assert(self.cview()[i as int] == self.coloring@[i as int].0 as int);
                    assert(self.cview()[j as int] == self.coloring@[j as int].0 as int);
                    assert(aj[i as int] == Seq::new(
                        self.graph.size() as nat,
                        |v: int| self.graph.has_edge(i as int, v),
                    ));
                    crate::engine::lemma_row_bound(ind, aj, i as int, j as int);
                    assert((i as int) * (n as int) + (n as int) <= 16384 + 128);
                }
                let ci = self.coloring[i].0;
                let cj = self.coloring[j].0;
                if ci == c && cj == c {
                    let e = self.graph.get_edge_from_lookup(i as i32, j as i32);
                    let adjacent = match e {
                        Some(_) => true,
                        None => false,
                    };
                    proof {
                        assert(adjacent == self.graph.has_edge(i as int, j as int));
                        assert(aj[i as int][j as int] == self.graph.has_edge(i as int, j as int));
                    }
                    if adjacent {
                        count = count + 1;
                    }
                }
                j += 1;
            }
            proof {
                crate::engine::lemma_row_bound(ind, aj, i as int, n as int);
                crate::engine::lemma_ill_bound(ind, aj, i as int + 1);
                assert((i as int + 1) * (n as int) == (i as int) * (n as int) + (n as int))
                    by (nonlinear_arith);
                assert((i as int + 1) * (n as int) <= 16384) by (nonlinear_arith)
                    requires
                        0 <= i as int + 1 <= 128,
                        0 <= n as int <= 128,
                ;
            }
            i += 1;
        }
        proof {
            crate::engine::lemma_ill_bound(ind, aj, n as int);
            assert((n as int) * (n as int) <= 16384) by (nonlinear_arith)
                requires
                    0 <= n as int <= 128,
            ;
        }
        count
    }

    /// The cost, recomputed from scratch per color.
    pub fn calculate_score_slow(&self) -> (r: i32)
        requires
            self.inv(),
        ensures
            r as int == self.score(),
    {
        let ncolors = self.number_of_colors;
        let mut score: i64 = 0;
        let mut c: i32 = 0;
        while c < ncolors
            invariant
                self.inv(),
                ncolors == self.number_of_colors,
                0 <= c <= ncolors,
                score as int == coloring_score(
                    self.cview(),
                    graph_adjv(self.graph),
                    c as int,
                ),
                -(c as int * 4210688) <= score as int <= c as int * 4210688,
            decreases ncolors - c,
        {
            let cnt = self.count_members(c);
            let ill = self.count_illegal(c);
            proof {
                let ind = ind_seq(self.cview(), c as int);
                crate::engine::lemma_ill_bound(ind, graph_adjv(self.graph), ind.len() as int);
                assert(-4210688 <= 2 * (cnt as int) * (ill as int) - (cnt as int) * (cnt as int)
                    <= 4210688) by (nonlinear_arith)
                    requires
                        0 <= cnt as int <= 128,
                        0 <= ill as int <= 16384,
                ;
                assert((c as int + 1) * 4210688 == c as int * 4210688 + 4210688)
                    by (nonlinear_arith);
                assert(c as int * 4210688 <= 128 * 4210688) by (nonlinear_arith)
                    requires
                        0 <= c as int <= 128,
                ;
            }
            proof {
                assert(0 <= (cnt as int) * (ill as int) <= 128 * 16384) by (nonlinear_arith)
                    requires
                        0 <= cnt as int <= 128,
                        0 <= ill as int <= 16384,
                ;
                assert(0 <= (cnt as int) * (cnt as int) <= 128 * 128) by (nonlinear_arith)
                    requires
                        0 <= cnt as int <= 128,
                ;
                assert(2 * (cnt as int) * (ill as int) == 2 * ((cnt as int) * (ill as int)))
                    by (nonlinear_arith);
            }
            let term: i64 = 2 * (cnt as i64) * (ill as i64) - (cnt as i64) * (cnt as i64);
            score = score + term;
            c = c + 1;
        }
        proof {
            assert(ncolors as int * 4210688 <= 128 * 4210688) by (nonlinear_arith)
                requires
                    0 <= ncolors as int <= 128,
            ;
        }
        score as i32
    }

    /// The cost, from a frequency table filled in one pass.
    pub fn calculate_score_naive(&self) -> (r: i32)
        requires
            self.inv(),
        ensures
            r as int == self.score(),
    {
        let n = self.coloring.len();
        let mut freq: Vec<i32> = Vec::new();
        let mut k: usize = 0;
        while k < n
            invariant
                k <= n,
                freq@.len() == k as int,
                forall|q: int| 0 <= q < k as int ==> #[trigger] freq@[q] == 0i32,
            decreases n - k,
        {
            freq.push(0);
            k += 1;
        }
        let mut v: usize = 0;
        while v < n
            invariant
                self.inv(),
                n as int == self.cview().len(),
                v <= n,
                freq@.len() == n as int,
                forall|q: int|
                    0 <= q < n as int ==> #[trigger] freq@[q] as int == ones_upto(
                        crate::graph_coloring_comp::ind_seq(self.cview().take(v as int), q),
                        v as int,
                    ) && 0 <= freq@[q] as int <= v as int,
            decreases n - v,
        {
            let cv = self.coloring[v].0;
            let ghost pre = freq@;
            if 0 <= cv && (cv as usize) < n {
                let idx = cv as usize;
                let old_f = freq[idx];
                freq[idx] = old_f + 1;
            }
            proof {
                assert forall|q: int| 0 <= q < n as int implies #[trigger] freq@[q] as int
                    == ones_upto(
                    crate::graph_coloring_comp::ind_seq(self.cview().take(v as int + 1), q),
                    v as int + 1,
                ) && 0 <= freq@[q] as int <= v as int + 1 by {
                    let ind0 = crate::graph_coloring_comp::ind_seq(
                        self.cview().take(v as int),
                        q,
                    );
                    let ind1 = crate::graph_coloring_comp::ind_seq(
                        self.cview().take(v as int + 1),
                        q,
                    );
                    Self::lemma_ones_take(self.cview(), q, v as int);
                    assert(self.cview()[v as int] == self.coloring@[v as int].0 as int);
                    assert(0 <= self.cview()[v as int] < self.number_of_colors as int);
                    assert(ind1[v as int] == (if self.cview()[v as int] == q {
                        1int
                    } else {
                        0int
                    }));
                }
            }
            v += 1;
        }
        proof {
            assert forall|q: int| 0 <= q < n as int implies #[trigger] freq@[q] as int
                == ones_upto(ind_seq(self.cview(), q), n as int) by {
                assert(self.cview().take(n as int) =~= self.cview());
            }
        }
        let ncolors = self.number_of_colors;
        let mut score: i64 = 0;
        let mut c: i32 = 0;
        while c < ncolors
            invariant
                self.inv(),
                n as int == self.cview().len(),
                ncolors == self.number_of_colors,
                0 <= c <= ncolors,
                freq@.len() == n as int,
                forall|q: int|
                    0 <= q < n as int ==> #[trigger] freq@[q] as int == ones_upto(
                        ind_seq(self.cview(), q),
                        n as int,
                    ) && 0 <= freq@[q] as int <= n as int,
                score as int == coloring_score(
                    self.cview(),
                    graph_adjv(self.graph),
                    c as int,
                ),
                -(c as int * 4210688) <= score as int <= c as int * 4210688,
            decreases ncolors - c,
        {
            let cnt = freq[c as usize];
            let ill = self.count_illegal(c);
            proof {
                let ind = ind_seq(self.cview(), c as int);
                crate::engine::lemma_ones_bound(ind, ind.len() as int);
                crate::engine::lemma_ill_bound(ind, graph_adjv(self.graph), ind.len() as int);
                assert(-4210688 <= 2 * (cnt as int) * (ill as int) - (cnt as int) * (cnt as int)
                    <= 4210688) by (nonlinear_arith)
                    requires
                        0 <= cnt as int <= 128,
                        0 <= ill as int <= 16384,
                ;
                assert((c as int + 1) * 4210688 == c as int * 4210688 + 4210688)
                    by (nonlinear_arith);
                assert(c as int * 4210688 <= 128 * 4210688) by (nonlinear_arith)
                    requires
                        0 <= c as int <= 128,
                ;
            }
            proof {
                assert(0 <= (cnt as int) * (ill as int) <= 128 * 16384) by (nonlinear_arith)
                    requires
                        0 <= cnt as int <= 128,
                        0 <= ill as int <= 16384,
                ;
                assert(0 <= (cnt as int) * (cnt as int) <= 128 * 128) by (nonlinear_arith)
                    requires
                        0 <= cnt as int <= 128,
                ;
                assert(2 * (cnt as int) * (ill as int) == 2 * ((cnt as int) * (ill as int)))
                    by (nonlinear_arith);
            }
            let term: i64 = 2 * (cnt as i64) * (ill as i64) - (cnt as i64) * (cnt as i64);
            score = score + term;
            c = c + 1;
        }
        proof {
            assert(ncolors as int * 4210688 <= 128 * 4210688) by (nonlinear_arith)
                requires
                    0 <= ncolors as int <= 128,
            ;
        }
        score as i32
    }

    /// Counting ones over a one-longer prefix adds the new entry's
    /// indicator.
    proof fn lemma_ones_take(cs: Seq<int>, q: int, v: int)
        requires
            0 <= v < cs.len(),
        ensures
            ones_upto(ind_seq(cs.take(v + 1), q), v + 1) == ones_upto(
                ind_seq(cs.take(v), q),
                v,
            ) + (if cs[v] == q {
                1int
            } else {
                0int
            }),
        decreases v,
    {
        Self::lemma_ones_prefix(cs.take(v + 1), cs.take(v), q, v);
    }

    /// Two prefixes agreeing below `v` count the same ones below `v`.
    proof fn lemma_ones_prefix(a: Seq<int>, b: Seq<int>, q: int, v: int)
        requires
            0 <= v <= a.len(),
            v <= b.len(),
            forall|k: int| 0 <= k < v ==> a[k] == b[k],
        ensures
            ones_upto(ind_seq(a, q), v) == ones_upto(ind_seq(b, q), v),
        decreases v,
    {
        if v > 0 {
            Self::lemma_ones_prefix(a, b, q, v - 1);
        }
    }

    /// The current score by whichever scorer the driver carries.
    pub fn calc_score(&mut self) -> (r: i32)
        requires
            old(self).inv(),
        ensures
            final(self).inv(),
            final(self).graph == old(self).graph,
            final(self).coloring@ == old(self).coloring@,
            final(self).number_of_colors == old(self).number_of_colors,
            final(self).history@ == old(self).history@,
            final(self).score_type == old(self).score_type,
            (final(self).comp is Some) == (old(self).comp is Some),
            r as int == old(self).score(),
    {
        let is_inc = match self.score_type {
            ScoreCalcTypeGraphColoring::Incremental => true,
            _ => false,
        };
        if is_inc {
            let nc = self.number_of_colors;
            let ghost pre = *self;
            let c = match &mut self.comp {
                Some(c) => c,
                None => {
                    proof {
                        assert(false);
                    }
                    return 0;
                },
            };
            let r = match c.get_result() {
                Some(x) => x,
                None => {
                    proof {
                        assert(false);
                    }
                    0
                },
            };
            proof {
                lemma_score_extra_colors_zero(
                    pre.cview(),
                    graph_adjv(pre.graph),
                    pre.number_of_colors as int,
                    pre.comp->Some_0.computation_nodes_layer@.len() as int,
                );
            }
            r
        } else {
            let is_fast = match self.score_type {
                ScoreCalcTypeGraphColoring::Fast => true,
                _ => false,
            };
            if is_fast {
                self.calculate_score_naive()
            } else {
                self.calculate_score_slow()
            }
        }
    }

    /// Recolor one vertex, mirrored into the incremental scorer. The color
    /// may be the next unused one; the count of colors in use is the
    /// caller's to adjust.
    fn set_color(&mut self, v: usize, color: Color)
        requires
            old(self).core_inv(),
            (v as int) < old(self).size(),
            0 <= color.0 as int,
            color.0 as int <= old(self).number_of_colors as int,
            (color.0 as int) < old(self).size(),
        ensures
            final(self).core_inv(),
            final(self).graph == old(self).graph,
            final(self).number_of_colors == old(self).number_of_colors,
            final(self).history@ == old(self).history@,
            final(self).score_type == old(self).score_type,
            final(self).coloring@ == old(self).coloring@.update(v as int, color),
            final(self).cview() =~= old(self).cview().update(v as int, color.0 as int),
            (final(self).comp is Some) == (old(self).comp is Some),
            final(self).comp is Some && color.0 as int == old(self).number_of_colors as int
                ==> old(self).number_of_colors as int + 1
                <= final(self).comp->Some_0.colour_cap(),
    {
        let has_comp = match &self.comp {
            Some(_) => true,
            None => false,
        };
        if has_comp {
            let ghost pre = *self;
            let nc = self.number_of_colors;
            let c = match &mut self.comp {
                Some(c) => c,
                None => {
                    proof {
                        assert(false);
                    }
                    return ;
                },
            };
            let ghost cpre = *c;
            let res = c.update_input_node(v, color.0);
            proof {
                assert(res is Ok) by {
                    if cpre.flags.enable_dynamic_branches {
                        assert(cpre.colour_cap() == cpre.used_colours as int);
                        assert(color.0 as int <= cpre.used_colours as int);
                    }
                }
                assert(c.colour_cap() >= cpre.colour_cap());
                if color.0 as int == nc as int {
                    if cpre.flags.enable_dynamic_branches {
                        if color.0 as int == cpre.used_colours as int {
                            assert(c.colour_cap() == cpre.used_colours as int + 1);
                        } else {
                            assert((color.0 as int) < cpre.used_colours as int);
                        }
                    } else {
                        assert(c.colour_cap() == c.size());
                        assert((color.0 as int) < c.size());
                    }
                }
            }
        }
        self.coloring[v] = color;
        proof {
            assert(self.cview() =~= old(self).cview().update(v as int, color.0 as int));
            if self.comp is Some {
                assert(self.comp->Some_0.colors() =~= self.cview());
            }
            assert forall|k: int| 0 <= k < self.cview().len() implies 0
                <= #[trigger] self.cview()[k] && self.cview()[k] < self.size() by {
                if k != v as int {
                    assert(self.cview()[k] == old(self).cview()[k]);
                }
            }
        }
    }

    /// Try every other color on one vertex; keep the best and restore the
    /// rest. The result is the score of the coloring left behind, never
    /// worse than the score handed in.
    fn try_swap_color_operation(&mut self, vertex: PointId, best_score: i32) -> (r: i32)
        requires
            old(self).inv(),
            0 <= vertex as int,
            (vertex as int) < old(self).size(),
            best_score as int == old(self).score(),
        ensures
            final(self).inv(),
            final(self).graph == old(self).graph,
            final(self).number_of_colors == old(self).number_of_colors,
            final(self).history@ == old(self).history@,
            final(self).score_type == old(self).score_type,
            (final(self).comp is Some) == (old(self).comp is Some),
            r as int == final(self).score(),
            r <= best_score,
            r == best_score ==> final(self).coloring@ == old(self).coloring@,
            // the vertex keeps the best candidate: no palette color beats it
            forall|c: int|
                0 <= c < old(self).number_of_colors as int ==> coloring_score(
                    #[trigger] old(self).cview().update(vertex as int, c),
                    graph_adjv(old(self).graph),
                    old(self).number_of_colors as int,
                ) >= r as int,
            final(self).cview() == old(self).cview().update(
                vertex as int,
                final(self).cview()[vertex as int],
            ),
            // ties break first: on an improvement, the kept color is the
            // least one attaining the minimum
            r < best_score ==> forall|c: int|
                0 <= c < final(self).cview()[vertex as int] ==> coloring_score(
                    #[trigger] old(self).cview().update(vertex as int, c),
                    graph_adjv(old(self).graph),
                    old(self).number_of_colors as int,
                ) > r as int,
    {
        let vtx = vertex as usize;
        let starting_color = self.coloring[vtx];
        let ncolors = self.number_of_colors;
        let mut current_best_score = best_score;
        let mut best_color = starting_color;
        let ghost mut curc = starting_color;
        proof {
            assert(old(self).cview()[vtx as int] == starting_color.0 as int);
            assert(old(self).coloring@.update(vtx as int, starting_color) =~= old(
                self,
            ).coloring@);
            assert(old(self).cview().update(vtx as int, starting_color.0 as int) =~= old(
                self,
            ).cview());
        }
        let mut c: i32 = 0;
        while c < ncolors
            invariant
                self.inv(),
                old(self).inv(),
                self.graph == old(self).graph,
                self.number_of_colors == old(self).number_of_colors,
                self.history@ == old(self).history@,
                self.score_type == old(self).score_type,
                ncolors == self.number_of_colors,
                0 <= c <= ncolors,
                (vtx as int) < self.size(),
                vtx as int == vertex as int,
                starting_color == old(self).coloring@[vtx as int],
                0 <= starting_color.0 as int,
                (starting_color.0 as int) < ncolors as int,
                0 <= best_color.0 as int,
                (best_color.0 as int) < ncolors as int,
                0 <= curc.0 as int,
                (curc.0 as int) < ncolors as int,
                self.coloring@ == old(self).coloring@.update(vtx as int, curc),
                (self.comp is Some) == (old(self).comp is Some),
                old(self).cview().update(vtx as int, starting_color.0 as int) == old(
                    self,
                ).cview(),
                current_best_score <= best_score,
                best_score as int == old(self).score(),
                current_best_score as int == coloring_score(
                    old(self).cview().update(vtx as int, best_color.0 as int),
                    graph_adjv(self.graph),
                    ncolors as int,
                ),
                current_best_score == best_score ==> best_color == starting_color,
                forall|c2: int|
                    0 <= c2 < c as int ==> coloring_score(
                        #[trigger] old(self).cview().update(vtx as int, c2),
                        graph_adjv(self.graph),
                        ncolors as int,
                    ) >= current_best_score as int,
                current_best_score < best_score ==> forall|c2: int|
                    0 <= c2 < best_color.0 as int ==> coloring_score(
                        #[trigger] old(self).cview().update(vtx as int, c2),
                        graph_adjv(self.graph),
                        ncolors as int,
                    ) > current_best_score as int,
            decreases ncolors - c,
        {
            if c != starting_color.0 {
                let ghost snap = *self;
                self.set_color(vtx, Color(c));
                proof {
                    curc = Color(c);
                    assert(self.coloring@ =~= old(self).coloring@.update(vtx as int, curc));
                    assert(self.inv()) by {
                        assert forall|k: int| 0 <= k < self.cview().len() implies 0
                            <= #[trigger] self.cview()[k] && self.cview()[k]
                            < self.number_of_colors as int by {
                            if k != vtx as int {
                                assert(self.cview()[k] == snap.cview()[k]);
                            }
                        }
                        if self.comp is Some {
                            assert(self.number_of_colors as int
                                <= self.comp->Some_0.colour_cap());
                        }
                    }
                    assert(self.cview() =~= old(self).cview().update(vtx as int, c as int));
                }
                let score = self.calc_score();
                proof {
                    assert(score as int == coloring_score(
                        old(self).cview().update(vtx as int, c as int),
                        graph_adjv(self.graph),
                        ncolors as int,
                    ));
                }
                if score < current_best_score {
                    current_best_score = score;
                    best_color = Color(c);
                }
            } else {
                proof {
                    assert(coloring_score(
                        old(self).cview().update(vtx as int, c as int),
                        graph_adjv(self.graph),
                        ncolors as int,
                    ) == best_score as int);
                }
            }
            c = c + 1;
        }
        let ghost snap2 = *self;
        self.set_color(vtx, best_color);
        proof {
            assert(self.coloring@ =~= old(self).coloring@.update(vtx as int, best_color));
            assert(self.cview() =~= old(self).cview().update(vtx as int, best_color.0 as int));
            assert(self.inv()) by {
                assert forall|k: int| 0 <= k < self.cview().len() implies 0
                    <= #[trigger] self.cview()[k] && self.cview()[k]
                    < self.number_of_colors as int by {
                    if k != vtx as int {
                        assert(self.cview()[k] == snap2.cview()[k]);
                    }
                }
                if self.comp is Some {
                    assert(self.number_of_colors as int <= self.comp->Some_0.colour_cap());
                }
            }
            if current_best_score == best_score {
                assert(best_color == starting_color);
                assert(self.coloring@ =~= old(self).coloring@);
            }
            assert(self.cview()[vtx as int] == best_color.0 as int);
            assert(self.cview() == old(self).cview().update(
                vtx as int,
                self.cview()[vtx as int],
            ));
        }
        current_best_score
    }

    /// Try a fresh color on one vertex; keep it exactly when it strictly
    /// improves the score, growing the palette, else restore.
    fn try_new_color_operation(&mut self, vertex: PointId, best_score: i32) -> (r: i32)
        requires
            old(self).inv(),
            0 <= vertex as int,
            (vertex as int) < old(self).size(),
            best_score as int == old(self).score(),
        ensures
            final(self).inv(),
            final(self).graph == old(self).graph,
            final(self).history@ == old(self).history@,
            final(self).score_type == old(self).score_type,
            (final(self).comp is Some) == (old(self).comp is Some),
            final(self).number_of_colors == old(self).number_of_colors ==> final(self).graph
                == old(self).graph,
            r as int == final(self).score(),
            r <= best_score,
            r == best_score ==> final(self).coloring@ == old(self).coloring@
                && final(self).number_of_colors == old(self).number_of_colors,
            old(self).number_of_colors as int <= final(self).number_of_colors as int
                <= old(self).number_of_colors as int + 1,
            // a fresh color on this vertex cannot beat the result
            (old(self).number_of_colors as int) < old(self).size() ==> coloring_score(
                old(self).cview().update(vertex as int, old(self).number_of_colors as int),
                graph_adjv(old(self).graph),
                old(self).number_of_colors as int + 1,
            ) >= r as int,
            r < best_score ==> final(self).cview() == old(self).cview().update(
                vertex as int,
                old(self).number_of_colors as int,
            ) && final(self).number_of_colors as int == old(self).number_of_colors as int + 1,
    {
        let n = self.coloring.len();
        if self.number_of_colors >= n as i32 {
            return best_score;
        }
        let vtx = vertex as usize;
        let starting_color = self.coloring[vtx];
        proof {
            assert(old(self).cview()[vtx as int] == starting_color.0 as int);
        }
        let ghost snap = *self;
        self.set_color(vtx, Color(self.number_of_colors));
        self.number_of_colors = self.number_of_colors + 1;
        proof {
            assert(self.inv()) by {
                assert forall|k: int| 0 <= k < self.cview().len() implies 0
                    <= #[trigger] self.cview()[k] && self.cview()[k]
                    < self.number_of_colors as int by {
                    if k != vtx as int {
                        assert(self.cview()[k] == snap.cview()[k]);
                    }
                }
                if self.comp is Some {
                    assert(self.number_of_colors as int <= self.comp->Some_0.colour_cap());
                }
            }
        }
        let score = self.calc_score();
        proof {
            assert(self.cview() =~= old(self).cview().update(
                vtx as int,
                old(self).number_of_colors as int,
            ));
            assert(score as int == coloring_score(
                old(self).cview().update(vtx as int, old(self).number_of_colors as int),
                graph_adjv(old(self).graph),
                old(self).number_of_colors as int + 1,
            ));
        }
        if score < best_score {
            proof {
                assert(score as int == self.score());
            }
            score
        } else {
            self.number_of_colors = self.number_of_colors - 1;
            self.set_color(vtx, starting_color);
            proof {
                assert(self.coloring@ =~= old(self).coloring@);
                assert(self.cview() =~= old(self).cview());
                assert(self.inv()) by {
                    assert forall|k: int| 0 <= k < self.cview().len() implies 0
                        <= #[trigger] self.cview()[k] && self.cview()[k]
                        < self.number_of_colors as int by {
                        assert(self.cview()[k] == old(self).cview()[k]);
                    }
                    if self.comp is Some {
                        assert(self.number_of_colors as int <= self.comp->Some_0.colour_cap());
                    }
                }
            }
            best_score
        }
    }

    /// Copy a coloring for the history.
    fn copy_coloring(p: &Vec<Color>) -> (r: Vec<Color>)
        ensures
            r@ == p@,
    {
        let mut out: Vec<Color> = Vec::new();
        let mut i: usize = 0;
        while i < p.len()
            invariant
                (i as int) <= p@.len(),
                out@ == p@.take(i as int),
            decreases p@.len() - i,
        {
            out.push(p[i]);
            proof {
                assert(out@ =~= p@.take(i as int + 1));
            }
            i += 1;
        }
        proof {
            assert(p@.take(p@.len() as int) =~= p@);
        }
        out
    }

    /// The deterministic vertex sweep: improve every vertex in turn, record
    /// each improvement, and stop after a sweep that changes nothing. The
    /// result is the final coloring's score; every recorded coloring scores
    /// strictly lower than the one before it.
    pub fn graph_coloring(&mut self) -> (r: i32)
        requires
            old(self).inv(),
        ensures
            final(self).inv(),
            final(self).graph == old(self).graph,
            final(self).score_type == old(self).score_type,
            (final(self).comp is Some) == (old(self).comp is Some),
            old(self).number_of_colors as int <= final(self).number_of_colors as int,
            r as int == final(self).score(),
            r as int == coloring_score(
                final(self).cview(),
                graph_adjv(final(self).graph),
                final(self).size(),
            ),
            r as int <= old(self).score(),
            // local optimality: no single-vertex recoloring and no fresh
            // color improves the final coloring
            swap_optimal_upto(
                final(self).cview(),
                graph_adjv(final(self).graph),
                final(self).number_of_colors as int,
                final(self).size(),
            ),
            (final(self).number_of_colors as int) < final(self).size() ==> fresh_optimal_upto(
                final(self).cview(),
                graph_adjv(final(self).graph),
                final(self).number_of_colors as int,
                final(self).size(),
            ),
            // every recorded coloring scores strictly less than the one
            // before it, and the last recorded coloring is the final one
            final(self).history@.len() >= old(self).history@.len(),
            final(self).history@.take(old(self).history@.len() as int) == old(self).history@,
            forall|k: int|
                old(self).history@.len() <= k && k + 1 < final(self).history@.len()
                    ==> coloring_score(
                    colv(#[trigger] final(self).history@[k + 1]@),
                    graph_adjv(final(self).graph),
                    final(self).size(),
                ) < coloring_score(
                    colv(final(self).history@[k]@),
                    graph_adjv(final(self).graph),
                    final(self).size(),
                ),
            final(self).history@.len() > old(self).history@.len()
                ==> final(self).history@.last()@ == final(self).coloring@,
            final(self).history@.len() == old(self).history@.len() ==> final(self).coloring@
                == old(self).coloring@ && final(self).number_of_colors == old(
                self,
            ).number_of_colors,
    {
        let mut best_score = self.calc_score();
        let n = self.coloring.len();
        let mut incremented = true;
        proof {
            lemma_score_lower(
                self.cview(),
                graph_adjv(self.graph),
                self.number_of_colors as int,
            );
            assert(self.number_of_colors as int * 16384 <= 2097152) by (nonlinear_arith)
                requires
                    0 <= self.number_of_colors as int <= 128,
            ;
        }
        while incremented
            invariant
                self.inv(),
                self.graph == old(self).graph,
                self.score_type == old(self).score_type,
                (self.comp is Some) == (old(self).comp is Some),
                old(self).number_of_colors as int <= self.number_of_colors as int,
                n as int == self.size(),
                best_score as int == self.score(),
                best_score as int <= old(self).score(),
                best_score as int >= -2097152,
                self.history@.len() >= old(self).history@.len(),
                self.history@.take(old(self).history@.len() as int) == old(self).history@,
                forall|k: int|
                    old(self).history@.len() <= k && k + 1 < self.history@.len()
                        ==> coloring_score(
                        colv(#[trigger] self.history@[k + 1]@),
                        graph_adjv(self.graph),
                        n as int,
                    ) < coloring_score(
                        colv(self.history@[k]@),
                        graph_adjv(self.graph),
                        n as int,
                    ),
                self.history@.len() > old(self).history@.len() ==> self.history@.last()@
                    == self.coloring@ && coloring_score(
                    colv(self.history@.last()@),
                    graph_adjv(self.graph),
                    n as int,
                ) == best_score as int,
                self.history@.len() == old(self).history@.len() ==> self.coloring@ == old(
                    self,
                ).coloring@ && self.number_of_colors == old(self).number_of_colors,
                !incremented ==> swap_optimal_upto(
                    self.cview(),
                    graph_adjv(self.graph),
                    self.number_of_colors as int,
                    n as int,
                ) && ((self.number_of_colors as int) < n as int ==> fresh_optimal_upto(
                    self.cview(),
                    graph_adjv(self.graph),
                    self.number_of_colors as int,
                    n as int,
                )),
            decreases (best_score as int) + 2097153 + (if incremented {
                1int
            } else {
                0int
            }),
        {
            let ghost entry_best = best_score;
            incremented = false;
            let mut u: usize = 0;
            while u < n
                invariant
                    self.inv(),
                    self.graph == old(self).graph,
                    self.score_type == old(self).score_type,
                    (self.comp is Some) == (old(self).comp is Some),
                    old(self).number_of_colors as int <= self.number_of_colors as int,
                    n as int == self.size(),
                    u <= n,
                    best_score as int == self.score(),
                    best_score as int <= old(self).score(),
                    best_score as int >= -2097152,
                    incremented ==> best_score < entry_best,
                    !incremented ==> best_score == entry_best,
                    self.history@.len() >= old(self).history@.len(),
                    self.history@.take(old(self).history@.len() as int) == old(self).history@,
                    forall|k: int|
                        old(self).history@.len() <= k && k + 1 < self.history@.len()
                            ==> coloring_score(
                            colv(#[trigger] self.history@[k + 1]@),
                            graph_adjv(self.graph),
                            n as int,
                        ) < coloring_score(
                            colv(self.history@[k]@),
                            graph_adjv(self.graph),
                            n as int,
                        ),
                    self.history@.len() > old(self).history@.len() ==> self.history@.last()@
                        == self.coloring@ && coloring_score(
                        colv(self.history@.last()@),
                        graph_adjv(self.graph),
                        n as int,
                    ) == best_score as int,
                    self.history@.len() == old(self).history@.len() ==> self.coloring@ == old(
                        self,
                    ).coloring@ && self.number_of_colors == old(self).number_of_colors,
                    !incremented ==> swap_optimal_upto(
                        self.cview(),
                        graph_adjv(self.graph),
                        self.number_of_colors as int,
                        u as int,
                    ) && ((self.number_of_colors as int) < n as int ==> fresh_optimal_upto(
                        self.cview(),
                        graph_adjv(self.graph),
                        self.number_of_colors as int,
                        u as int,
                    )),
                decreases n - u,
            {
                let ghost pre_u = *self;
                let tmp_best_score = best_score;
                best_score = self.try_swap_color_operation(u as i32, best_score);
                best_score = self.try_new_color_operation(u as i32, best_score);
                if tmp_best_score != best_score {
                    let snap = Self::copy_coloring(&self.coloring);
                    let ghost hist0 = self.history@;
                    self.history.push(snap);
                    incremented = true;
                    proof {
                        assert(self.history@ =~= hist0.push(snap));
                        assert(colv(snap@) == self.cview());
                        lemma_score_extra_colors_zero(
                            self.cview(),
                            graph_adjv(self.graph),
                            self.number_of_colors as int,
                            n as int,
                        );
                        assert(coloring_score(
                            colv(snap@),
                            graph_adjv(self.graph),
                            n as int,
                        ) == best_score as int);
                        assert forall|k: int|
                            old(self).history@.len() <= k && k + 1
                                < self.history@.len() implies coloring_score(
                            colv(#[trigger] self.history@[k + 1]@),
                            graph_adjv(self.graph),
                            n as int,
                        ) < coloring_score(
                            colv(self.history@[k]@),
                            graph_adjv(self.graph),
                            n as int,
                        ) by {
                            if k + 1 < self.history@.len() - 1 {
                                assert(self.history@[k] == hist0[k]);
                                assert(self.history@[k + 1] == hist0[k + 1]);
                            } else {
                                assert(self.history@[k + 1] == snap);
                                assert(self.history@[k] == hist0[hist0.len() - 1]);
                                assert(best_score < tmp_best_score);
                            }
                        }
                    }
                } else {
                    proof {
                        // neither operation changed anything: the facts they
                        // return are about the current coloring
                        assert(self.coloring@ == pre_u.coloring@);
                        assert(self.number_of_colors == pre_u.number_of_colors);
                        if !incremented {
                        assert forall|v: int, c: int|
                            0 <= v < u as int + 1 && 0 <= c
                                < self.number_of_colors as int implies coloring_score(
                            #[trigger] self.cview().update(v, c),
                            graph_adjv(self.graph),
                            self.number_of_colors as int,
                        ) >= coloring_score(
                            self.cview(),
                            graph_adjv(self.graph),
                            self.number_of_colors as int,
                        ) by {
                            if v < u as int {
                                assert(swap_optimal_upto(
                                    self.cview(),
                                    graph_adjv(self.graph),
                                    self.number_of_colors as int,
                                    u as int,
                                ));
                            } else {
                                assert(coloring_score(
                                    pre_u.cview().update(u as int, c),
                                    graph_adjv(pre_u.graph),
                                    pre_u.number_of_colors as int,
                                ) >= tmp_best_score as int);
                            }
                        }
                        if (self.number_of_colors as int) < n as int {
                            assert forall|v: int| 0 <= v < u as int + 1 implies coloring_score(
                                #[trigger] self.cview().update(
                                    v,
                                    self.number_of_colors as int,
                                ),
                                graph_adjv(self.graph),
                                self.number_of_colors as int + 1,
                            ) >= coloring_score(
                                self.cview(),
                                graph_adjv(self.graph),
                                self.number_of_colors as int,
                            ) by {
                                if v < u as int {
                                    assert(fresh_optimal_upto(
                                        self.cview(),
                                        graph_adjv(self.graph),
                                        self.number_of_colors as int,
                                        u as int,
                                    ));
                                } else {
                                    assert(coloring_score(
                                        pre_u.cview().update(
                                            u as int,
                                            pre_u.number_of_colors as int,
                                        ),
                                        graph_adjv(pre_u.graph),
                                        pre_u.number_of_colors as int + 1,
                                    ) >= best_score as int);
                                }
                            }
                        }
                        }
                    }
                }
                proof {
                    lemma_score_lower(
                        self.cview(),
                        graph_adjv(self.graph),
                        self.number_of_colors as int,
                    );
                    assert(self.number_of_colors as int * 16384 <= 2097152)
                        by (nonlinear_arith)
                        requires
                            0 <= self.number_of_colors as int <= 128,
                    ;
                }
                u += 1;
            }
        }
        proof {
            lemma_score_extra_colors_zero(
                self.cview(),
                graph_adjv(self.graph),
                self.number_of_colors as int,
                n as int,
            );
        }
        best_score
    }
}

} // verus!
