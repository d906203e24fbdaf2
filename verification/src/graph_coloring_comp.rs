//! The coloring-cost dependency graph. For each color a branch scores
//! `2 * |V_c| * |E_c^ill| - |V_c|^2` over per-vertex guards; a root sums the
//! branches. Three independent flags shape the graph: `merge_computation_layers`
//! fuses a branch into one thunk, `enable_dynamic_branches` builds branches
//! only for colors in use and extends on demand, and `enable_firewall` wraps
//! each guard in the firewall pattern so downstream work is skipped when a
//! recoloring does not flip membership.

use vstd::prelude::*;
use crate::engine::{Engine, Body, Val, Trace, body_refs, fw_kind, as_math, ones_upto, ill_pairs, sum_upto, MAX_GROUP};
use crate::errors::CompError;
use crate::graph::Graph;
use crate::diagnostics::{Diagnostics, count_upto, is_cell_fresh, is_thunk_fresh};

verus! {

/// Most vertices a coloring graph may have; keeps every score inside `i32`.
pub const MAX_COLOR_NODES: usize = 128;

/// The three construction flags.
#[derive(Clone, Copy, Debug, PartialEq, Eq, Structural)]
pub struct GraphColouringFlags {
    pub enable_firewall: bool,
    pub enable_dynamic_branches: bool,
    pub merge_computation_layers: bool,
}

impl GraphColouringFlags {
    /// The plain construction: every flag off.
    pub open spec fn default_spec() -> GraphColouringFlags {
        GraphColouringFlags {
            enable_firewall: false,
            enable_dynamic_branches: false,
            merge_computation_layers: false,
        }
    }

    pub fn new(enable_firewall: bool, enable_dynamic_branches: bool,
        merge_computation_layers: bool) -> (r: GraphColouringFlags)
        ensures
            r == (GraphColouringFlags { enable_firewall, enable_dynamic_branches,
            merge_computation_layers }),
    {
        GraphColouringFlags { enable_firewall, enable_dynamic_branches, merge_computation_layers }
    }

    pub fn default() -> (r: GraphColouringFlags)
        ensures
            r == (GraphColouringFlags {
                enable_firewall: false,
                enable_dynamic_branches: false,
                merge_computation_layers: false,
            }),
    {
        GraphColouringFlags {
            enable_firewall: false,
            enable_dynamic_branches: false,
            merge_computation_layers: false,
        }
    }
}

/// One guards layer: the per-vertex membership indicators for one color,
/// plain thunks or firewall thunks.
#[derive(Debug)]
pub enum Guards {
    Normal(Vec<usize>),
    Firewall(Vec<usize>),
}

/// The guard identifiers and whether they are firewall guards.
pub open spec fn guards_view(g: Guards) -> (Seq<usize>, bool) {
    match g {
        Guards::Normal(v) => (v@, false),
        Guards::Firewall(v) => (v@, true),
    }
}

impl Guards {
    pub fn len(&self) -> (r: usize)
        ensures
            r as int == guards_view(*self).0.len(),
    {
        match self {
            Guards::Normal(v) => v.len(),
            Guards::Firewall(v) => v.len(),
        }
    }
}

/// The 0/1 membership indicators of color `c` under a coloring.
pub open spec fn ind_seq(colors: Seq<int>, c: int) -> Seq<int> {
    Seq::new(colors.len(), |v: int| if colors[v] == c {
        1int
    } else {
        0int
    })
}

/// One branch's score: twice the member count times the intra-color edge
/// count, minus the member count squared.
pub open spec fn branch_score(colors: Seq<int>, adjv: Seq<Seq<bool>>, c: int) -> int {
    let ind = ind_seq(colors, c);
    let ones = ones_upto(ind, ind.len() as int);
    let ill = ill_pairs(ind, adjv);
    2 * ones * ill - ones * ones
}

/// The total score over the first `k` colors.
pub open spec fn coloring_score(colors: Seq<int>, adjv: Seq<Seq<bool>>, k: int) -> int
    decreases k,
{
    if k <= 0 {
        0
    } else {
        coloring_score(colors, adjv, k - 1) + branch_score(colors, adjv, k - 1)
    }
}

/// A color no vertex wears scores zero, so padding with unused branches does
/// not change the total.
pub proof fn lemma_empty_branch_zero(colors: Seq<int>, adjv: Seq<Seq<bool>>, c: int)
    requires
        forall|v: int| 0 <= v < colors.len() ==> #[trigger] colors[v] != c,
    ensures
        branch_score(colors, adjv, c) == 0,
{
    let ind = ind_seq(colors, c);
    lemma_all_zero_counts(ind, adjv, ind.len() as int);
    assert(ones_upto(ind, ind.len() as int) == 0);
    assert(ill_pairs(ind, adjv) == 0);
}

proof fn lemma_all_zero_counts(ind: Seq<int>, adjv: Seq<Seq<bool>>, k: int)
    requires
        forall|v: int| 0 <= v < ind.len() ==> #[trigger] ind[v] == 0,
        k <= ind.len(),
    ensures
        ones_upto(ind, k) == 0,
        k >= 0 ==> crate::engine::ill_upto(ind, adjv, k) == 0,
    decreases k,
{
    if k > 0 {
        lemma_all_zero_counts(ind, adjv, k - 1);
        crate::engine::lemma_row_bound(ind, adjv, k - 1, ind.len() as int);
        lemma_zero_row(ind, adjv, k - 1, ind.len() as int);
    }
}

proof fn lemma_zero_row(ind: Seq<int>, adjv: Seq<Seq<bool>>, u: int, v: int)
    requires
        0 <= u < ind.len(),
        forall|q: int| 0 <= q < ind.len() ==> #[trigger] ind[q] == 0,
        v <= ind.len(),
    ensures
        crate::engine::row_upto(ind, adjv, u, v) == 0,
    decreases v - u,
{
    if v > u + 1 {
        lemma_zero_row(ind, adjv, u, v - 1);
    }
}

/// Every state a coloring passes through keeps all colors below `k2`, so two
/// branch lists that both cover the coloring give the same score: the extra
/// branches are empty and score zero.
pub proof fn lemma_score_extra_colors_zero(
    colors: Seq<int>,
    adjv: Seq<Seq<bool>>,
    k1: int,
    k2: int,
)
    requires
        0 <= k1 <= k2,
        forall|v: int| 0 <= v < colors.len() ==> 0 <= #[trigger] colors[v] < k1,
    ensures
        coloring_score(colors, adjv, k1) == coloring_score(colors, adjv, k2),
    decreases k2 - k1,
{
    if k2 > k1 {
        lemma_score_extra_colors_zero(colors, adjv, k1, k2 - 1);
        lemma_empty_branch_zero(colors, adjv, k2 - 1);
    }
}

/// The guards of one branch: one indicator thunk per vertex, reading that
/// vertex's color cell and comparing it with the branch's color.
pub open spec fn guards_ok(
    s: Engine,
    gs: Seq<usize>,
    inputs: Seq<usize>,
    colour: int,
    fw: bool,
) -> bool {
    &&& gs.len() == inputs.len()
    &&& forall|v: int|
        0 <= v < gs.len() ==> {
            let g = #[trigger] gs[v] as int;
            &&& s.is_thunk(g)
            &&& !s.is_internal_cell(g)
            &&& s.body_at(g) == if fw {
                Body::FwCellEq { c: inputs[v], k: colour as i32 }
            } else {
                Body::CellEq { c: inputs[v], k: colour as i32 }
            }
            &&& (inputs[v] as int) < g
        }
}

/// The incremental coloring-cost computation.
pub struct GraphColoringComp {
    pub eng: Engine,
    pub input_nodes_layer: Vec<usize>,
    pub computation_nodes_layer: Vec<usize>,
    pub result: Option<usize>,
    pub sealed: bool,
    pub max_number_of_colours: i32,
    pub used_colours: usize,
    pub diagnostics: Option<Diagnostics>,
    pub adj: Vec<Vec<bool>>,
    pub flags: GraphColouringFlags,
}

impl GraphColoringComp {
    pub open spec fn size(self) -> int {
        self.input_nodes_layer@.len() as int
    }

    /// The current coloring, read off the input cells.
    pub open spec fn colors(self) -> Seq<int> {
        Seq::new(
            self.size() as nat,
            |k: int| as_math(self.eng.val_at(self.input_nodes_layer@[k] as int)),
        )
    }

    pub open spec fn adjv(self) -> Seq<Seq<bool>> {
        self.adj.deep_view()
    }

    /// How many colors the branch list must cover: with dynamic branches the
    /// colors in use, otherwise every possible color.
    pub open spec fn colour_cap(self) -> int {
        if self.flags.enable_dynamic_branches {
            self.used_colours as int
        } else {
            self.size()
        }
    }

    /// One branch node for color `c`: merged into a single thunk, or a score
    /// thunk over a member-count thunk and an illegal-edge-count thunk.
    pub open spec fn branch_ok(self, bid: int, c: int) -> bool {
        let n = self.size();
        let inputs = self.input_nodes_layer@;
        let fw = self.flags.enable_firewall;
        &&& self.eng.is_thunk(bid)
        &&& !self.eng.is_internal_cell(bid)
        &&& if self.flags.merge_computation_layers {
            &&& (self.eng.body_at(bid) matches Body::Merged { gs, fw: f, adj: ba } && f == fw
                && ba.deep_view() == self.adjv() && guards_ok(self.eng, gs@, inputs, c, fw)
                && (forall|v: int| 0 <= v < gs@.len() ==> (#[trigger] gs@[v] as int) < bid))
        } else {
            &&& (self.eng.body_at(bid) matches Body::BranchScore { cnt, ill } && {
                let cb = self.eng.body_at(cnt as int);
                let ib = self.eng.body_at(ill as int);
                &&& (cnt as int) < bid
                &&& (ill as int) < bid
                &&& self.eng.is_thunk(cnt as int)
                &&& self.eng.is_thunk(ill as int)
                &&& !self.eng.is_internal_cell(cnt as int)
                &&& !self.eng.is_internal_cell(ill as int)
                &&& (cb matches Body::Sum { xs, fw: f } && f == fw && guards_ok(
                    self.eng,
                    xs@,
                    inputs,
                    c,
                    fw,
                ) && (forall|v: int|
                    0 <= v < xs@.len() ==> (#[trigger] xs@[v] as int) < cnt as int))
                &&& (ib matches Body::CountIll { gs, fw: f2, adj: ba } && f2 == fw
                    && ba.deep_view() == self.adjv() && guards_ok(self.eng, gs@, inputs, c, fw)
                    && (forall|v: int|
                    0 <= v < gs@.len() ==> (#[trigger] gs@[v] as int) < ill as int))
            })
        }
    }

    /// The pieces `new` establishes and everything preserves.
    pub open spec fn base_inv(self) -> bool {
        let n = self.size();
        &&& self.eng.wf()
        &&& 1 <= n <= MAX_COLOR_NODES
        &&& self.max_number_of_colours as int == n
        &&& 1 <= self.used_colours as int <= n
        &&& self.adj@.len() == n
        &&& forall|u: int| 0 <= u < n ==> (#[trigger] self.adj@[u])@.len() == n
        &&& forall|k: int|
            0 <= k < n ==> self.eng.is_input_cell(#[trigger] self.input_nodes_layer@[k] as int)
        &&& forall|k1: int, k2: int|
            0 <= k1 < k2 < n ==> #[trigger] self.input_nodes_layer@[k1]
                < #[trigger] self.input_nodes_layer@[k2]
        &&& forall|k: int|
            0 <= k < n ==> {
                let v = #[trigger] self.eng.val_at(self.input_nodes_layer@[k] as int);
                v is I && 0 <= as_math(v) && as_math(v) < self.colour_cap()
            }
    }

    /// With the root built, a branch exists for every color the coloring can
    /// wear and the root sums exactly the branch list.
    pub open spec fn built_inv(self) -> bool {
        self.result is Some ==> {
            let root = self.result->Some_0 as int;
            let bs = self.computation_nodes_layer@;
            &&& bs.len() >= self.colour_cap()
            &&& bs.len() <= self.size()
            &&& (self.flags.enable_dynamic_branches ==> bs.len() == self.used_colours as int)
            &&& forall|c: int| 0 <= c < bs.len() ==> self.branch_ok(#[trigger] bs[c] as int, c)
            &&& self.eng.is_thunk(root)
            &&& !self.eng.is_internal_cell(root)
            &&& (self.eng.body_at(root) matches Body::Sum { xs, fw } && !fw && xs@ == bs)
            &&& forall|c: int| 0 <= c < bs.len() ==> (#[trigger] bs[c] as int) < root
        }
    }

    pub open spec fn inv(self) -> bool {
        self.base_inv() && self.built_inv()
    }

    /// Build the context over a graph: one color cell per vertex, all zero,
    /// the adjacency captured as a matrix, and a trace window opened.
    pub fn new(graph: &Graph, n: usize, flags: GraphColouringFlags) -> (r: GraphColoringComp)
        requires
            graph.wf(),
            graph.size() == n as int,
            1 <= n <= MAX_COLOR_NODES,
        ensures
            r.inv(),
            !r.sealed,
            r.size() == n as int,
            r.flags == flags,
            r.used_colours == 1,
            r.result is None,
            r.colors() =~= Seq::new(n as nat, |k: int| 0int),
            // the trace window opens empty and holds one fresh cell per
            // vertex, nothing else
            r.eng.window_start() == 0,
            r.eng.trace@.len() == n as int,
            forall|t: int|
                0 <= t < r.eng.trace@.len() ==> ((#[trigger] r.eng.trace@[t]) matches
                    Trace::AllocCell { id, fresh } && fresh),
            forall|u: int, v: int|
                0 <= u < n as int && 0 <= v < n as int ==> #[trigger] r.adjv()[u][v]
                    == graph.has_edge(u, v),
    {
        let mut eng = Engine::new();
        eng.trace_begin();
        let ids = crate::input_nodes::create_input_nodes(&mut eng, n);
        let mut adj: Vec<Vec<bool>> = Vec::new();
        let mut u: usize = 0;
        while u < n
            invariant
                graph.wf(),
                graph.size() == n as int,
                u <= n,
                adj@.len() == u as int,
                forall|q: int| 0 <= q < u as int ==> (#[trigger] adj@[q])@.len() == n as int,
                forall|q: int, v: int|
                    0 <= q < u as int && 0 <= v < n as int ==> #[trigger] adj@[q]@[v]
                        == graph.has_edge(q, v),
            decreases n - u,
        {
            let mut row: Vec<bool> = Vec::new();
            let mut v: usize = 0;
            while v < n
                invariant
                    graph.wf(),
                    graph.size() == n as int,
                    u < n,
                    v <= n,
                    row@.len() == v as int,
                    forall|q: int|
                        0 <= q < v as int ==> #[trigger] row@[q] == graph.has_edge(u as int, q),
                decreases n - v,
            {
                let e = graph.get_edge_from_lookup(u as i32, v as i32);
                let present = match e {
                    Some(_) => true,
                    None => false,
                };
                row.push(present);
                v += 1;
            }
            adj.push(row);
            u += 1;
        }
        let comp = GraphColoringComp {
            eng,
            input_nodes_layer: ids,
            computation_nodes_layer: Vec::new(),
            result: None,
            sealed: false,
            max_number_of_colours: n as i32,
            used_colours: 1,
            diagnostics: None,
            adj,
            flags,
        };
        proof {
            assert(comp.colors() =~= Seq::new(n as nat, |k: int| 0int));
            assert forall|uu: int, vv: int|
                0 <= uu < n as int && 0 <= vv < n as int implies #[trigger] comp.adjv()[uu][vv]
                == graph.has_edge(uu, vv) by {
                assert(comp.adjv()[uu] == comp.adj@[uu]@);
            }
        }
        comp
    }

    /// Allocate the guards layer for one color: a membership indicator per
    /// vertex, firewall-wrapped when the flag asks for it.
    pub fn create_guards_layer(&mut self, colour: i32) -> (r: Guards)
        requires
            old(self).inv(),
        ensures
            final(self).inv(),
            final(self).size() == old(self).size(),
            final(self).colors() == old(self).colors(),
            final(self).input_nodes_layer@ == old(self).input_nodes_layer@,
            final(self).computation_nodes_layer@ == old(self).computation_nodes_layer@,
            final(self).result == old(self).result,
            final(self).sealed == old(self).sealed,
            final(self).used_colours == old(self).used_colours,
            final(self).flags == old(self).flags,
            final(self).adj == old(self).adj,
            guards_view(r).1 == old(self).flags.enable_firewall,
            guards_ok(
                final(self).eng,
                guards_view(r).0,
                final(self).input_nodes_layer@,
                colour as int,
                old(self).flags.enable_firewall,
            ),
            crate::input_nodes::extends(old(self).eng, final(self).eng),
            Engine::fresh_thunk_allocs(old(self).eng, final(self).eng, old(self).size()),
            forall|v: int|
                0 <= v < guards_view(r).0.len() ==> (#[trigger] guards_view(r).0[v] as int)
                    < final(self).eng.n(),
    {
        let n = self.input_nodes_layer.len();
        let fw = self.flags.enable_firewall;
        let mut gs: Vec<usize> = Vec::new();
        let mut v: usize = 0;
        proof {
            Engine::lemma_fresh_thunks_refl(old(self).eng, self.eng);
        }
        while v < n
            invariant
                old(self).inv(),
                self.eng.wf(),
                crate::input_nodes::extends(old(self).eng, self.eng),
                n as int == old(self).size(),
                self.input_nodes_layer@ == old(self).input_nodes_layer@,
                self.computation_nodes_layer@ == old(self).computation_nodes_layer@,
                self.result == old(self).result,
                self.sealed == old(self).sealed,
                self.used_colours == old(self).used_colours,
                self.max_number_of_colours == old(self).max_number_of_colours,
                self.flags == old(self).flags,
                self.adj == old(self).adj,
                self.diagnostics == old(self).diagnostics,
                Engine::fresh_thunk_allocs(old(self).eng, self.eng, v as int),
                forall|k: int|
                    0 <= k < n as int ==> self.eng.is_input_cell(
                        #[trigger] self.input_nodes_layer@[k] as int,
                    ),
                v <= n,
                gs@.len() == v as int,
                fw == old(self).flags.enable_firewall,
                forall|q: int|
                    0 <= q < v as int ==> {
                        let g = #[trigger] gs@[q] as int;
                        &&& self.eng.is_thunk(g)
                        &&& !self.eng.is_internal_cell(g)
                        &&& self.eng.body_at(g) == if fw {
                            Body::FwCellEq { c: self.input_nodes_layer@[q], k: colour }
                        } else {
                            Body::CellEq { c: self.input_nodes_layer@[q], k: colour }
                        }
                        &&& (self.input_nodes_layer@[q] as int) < g
                        &&& g < self.eng.n()
                    },
            decreases n - v,
        {
            let ghost pre = self.eng;
            let c = self.input_nodes_layer[v];
            let g = if fw {
                self.eng.thunk(Body::FwCellEq { c, k: colour })
            } else {
                self.eng.thunk(Body::CellEq { c, k: colour })
            };
            gs.push(g);
            proof {
                assert(crate::input_nodes::extends(pre, self.eng));
                crate::input_nodes::lemma_extends_trans(old(self).eng, pre, self.eng);
                Engine::lemma_fresh_thunks_step(pre, self.eng, g);
                Engine::lemma_fresh_thunks_trans(old(self).eng, pre, self.eng, v as int, 1);
                assert forall|k: int| 0 <= k < n as int implies self.eng.is_input_cell(
                    #[trigger] self.input_nodes_layer@[k] as int,
                ) by {
                    assert(pre.is_input_cell(self.input_nodes_layer@[k] as int));
                }
            }
            v += 1;
        }
        proof {
            Self::lemma_extends_inv(*old(self), *self);
        }
        if fw {
            Guards::Firewall(gs)
        } else {
            Guards::Normal(gs)
        }
    }

    /// Pure engine extension preserves the whole invariant.
    proof fn lemma_extends_inv(prev: GraphColoringComp, cur: GraphColoringComp)
        requires
            prev.inv(),
            cur.eng.wf(),
            crate::input_nodes::extends(prev.eng, cur.eng),
            cur.input_nodes_layer@ == prev.input_nodes_layer@,
            cur.computation_nodes_layer@ == prev.computation_nodes_layer@,
            cur.result == prev.result,
            cur.sealed == prev.sealed,
            cur.used_colours == prev.used_colours,
            cur.max_number_of_colours == prev.max_number_of_colours,
            cur.flags == prev.flags,
            cur.adj == prev.adj,
        ensures
            cur.inv(),
            cur.colors() == prev.colors(),
    {
        let n = prev.size();
        assert forall|k: int| 0 <= k < n implies cur.eng.is_input_cell(
            #[trigger] cur.input_nodes_layer@[k] as int,
        ) && cur.eng.val_at(cur.input_nodes_layer@[k] as int) == prev.eng.val_at(
            prev.input_nodes_layer@[k] as int,
        ) by {
            assert(prev.eng.is_input_cell(prev.input_nodes_layer@[k] as int));
        }
        assert(cur.colors() =~= prev.colors());
        if cur.result is Some {
            let bs = prev.computation_nodes_layer@;
            assert forall|c: int| 0 <= c < bs.len() implies cur.branch_ok(
                #[trigger] bs[c] as int,
                c,
            ) by {
                assert(prev.branch_ok(bs[c] as int, c));
                Self::lemma_branch_ok_bodies(prev, cur, bs[c] as int, c);
            }
            let root = prev.result->Some_0 as int;
            assert(prev.eng.is_thunk(root));
            assert(cur.eng.bodies@[root] == prev.eng.bodies@[root]);
            assert(cur.eng.owners@[root] == prev.eng.owners@[root]);
        }
    }

    /// Branch structure depends only on bodies and owners of existing nodes.
    proof fn lemma_branch_ok_bodies(prev: GraphColoringComp, cur: GraphColoringComp, bid: int,
        c: int)
        requires
            prev.branch_ok(bid, c),
            prev.eng.n() <= cur.eng.n(),
            forall|j: int|
                0 <= j < prev.eng.n() ==> #[trigger] cur.eng.bodies@[j] == prev.eng.bodies@[j],
            forall|j: int|
                0 <= j < prev.eng.n() ==> #[trigger] cur.eng.owners@[j] == prev.eng.owners@[j],
            cur.input_nodes_layer@ == prev.input_nodes_layer@,
            cur.adj == prev.adj,
            cur.flags == prev.flags,
        ensures
            cur.branch_ok(bid, c),
    {
        let inputs = prev.input_nodes_layer@;
        let fw = prev.flags.enable_firewall;
        assert(prev.eng.is_thunk(bid));
        assert(cur.eng.bodies@[bid] == prev.eng.bodies@[bid]);
        assert(cur.eng.owners@[bid] == prev.eng.owners@[bid]);
        if prev.flags.merge_computation_layers {
            let gs = prev.eng.body_at(bid)->Merged_gs;
            assert forall|v: int| 0 <= v < gs@.len() implies {
                let g = #[trigger] gs@[v] as int;
                &&& cur.eng.is_thunk(g)
                &&& !cur.eng.is_internal_cell(g)
                &&& cur.eng.body_at(g) == if fw {
                    Body::FwCellEq { c: inputs[v], k: c as i32 }
                } else {
                    Body::CellEq { c: inputs[v], k: c as i32 }
                }
                &&& (inputs[v] as int) < g
            } by {
                assert(prev.eng.is_thunk(gs@[v] as int));
                assert(cur.eng.bodies@[gs@[v] as int] == prev.eng.bodies@[gs@[v] as int]);
                assert(cur.eng.owners@[gs@[v] as int] == prev.eng.owners@[gs@[v] as int]);
            }
        } else {
            let cnt = prev.eng.body_at(bid)->BranchScore_cnt as int;
            let ill = prev.eng.body_at(bid)->BranchScore_ill as int;
            assert(prev.eng.is_thunk(cnt) && prev.eng.is_thunk(ill));
            assert(cur.eng.bodies@[cnt] == prev.eng.bodies@[cnt]);
            assert(cur.eng.bodies@[ill] == prev.eng.bodies@[ill]);
            assert(cur.eng.owners@[cnt] == prev.eng.owners@[cnt]);
            assert(cur.eng.owners@[ill] == prev.eng.owners@[ill]);
            let xs = prev.eng.body_at(cnt)->Sum_xs;
            let gs = prev.eng.body_at(ill)->CountIll_gs;
            assert forall|v: int| 0 <= v < xs@.len() implies {
                let g = #[trigger] xs@[v] as int;
                &&& cur.eng.is_thunk(g)
                &&& !cur.eng.is_internal_cell(g)
                &&& cur.eng.body_at(g) == if fw {
                    Body::FwCellEq { c: inputs[v], k: c as i32 }
                } else {
                    Body::CellEq { c: inputs[v], k: c as i32 }
                }
                &&& (inputs[v] as int) < g
            } by {
                assert(prev.eng.is_thunk(xs@[v] as int));
                assert(cur.eng.bodies@[xs@[v] as int] == prev.eng.bodies@[xs@[v] as int]);
                assert(cur.eng.owners@[xs@[v] as int] == prev.eng.owners@[xs@[v] as int]);
            }
            assert forall|v: int| 0 <= v < gs@.len() implies {
                let g = #[trigger] gs@[v] as int;
                &&& cur.eng.is_thunk(g)
                &&& !cur.eng.is_internal_cell(g)
                &&& cur.eng.body_at(g) == if fw {
                    Body::FwCellEq { c: inputs[v], k: c as i32 }
                } else {
                    Body::CellEq { c: inputs[v], k: c as i32 }
                }
                &&& (inputs[v] as int) < g
            } by {
                assert(prev.eng.is_thunk(gs@[v] as int));
                assert(cur.eng.bodies@[gs@[v] as int] == prev.eng.bodies@[gs@[v] as int]);
                assert(cur.eng.owners@[gs@[v] as int] == prev.eng.owners@[gs@[v] as int]);
            }
        }
    }
    /// Guards mean membership indicators: 1 exactly when the vertex wears
    /// the branch's color.
    proof fn lemma_guards_denote(self, gs: Seq<usize>, c: int)
        requires
            self.base_inv(),
            guards_ok(self.eng, gs, self.input_nodes_layer@, c, self.flags.enable_firewall),
            0 <= c <= MAX_COLOR_NODES as int,
        ensures
            forall|v: int|
                0 <= v < gs.len() ==> {
                    let g = #[trigger] gs[v] as int;
                    &&& self.eng.denote(g) == ind_seq(self.colors(), c)[v]
                    &&& self.eng.denote_ok(g)
                    &&& fw_kind(self.eng.body_at(g)) == self.flags.enable_firewall
                    &&& 0 <= g < self.eng.n()
                    &&& !self.eng.is_internal_cell(g)
                    &&& self.eng.is_thunk(g)
                },
    {
        let fw = self.flags.enable_firewall;
        let colors = self.colors();
        assert forall|v: int| 0 <= v < gs.len() implies {
            let g = #[trigger] gs[v] as int;
            &&& self.eng.denote(g) == ind_seq(colors, c)[v]
            &&& self.eng.denote_ok(g)
            &&& fw_kind(self.eng.body_at(g)) == fw
            &&& 0 <= g < self.eng.n()
            &&& !self.eng.is_internal_cell(g)
            &&& self.eng.is_thunk(g)
        } by {
            let g = gs[v] as int;
            let b = self.eng.body_at(g);
            let rs = body_refs(b);
            assert(rs[0] == self.input_nodes_layer@[v]);
            self.eng.lemma_dep_vals_index(rs, g);
            let dv = self.eng.dep_vals(rs, g);
            assert(self.eng.is_input_cell(rs[0] as int));
            assert(dv[0] == colors[v]);
            assert(crate::engine::body_math(b, dv) == if colors[v] == c {
                1int
            } else {
                0int
            });
            assert(self.eng.denote_ok(g)) by {
                self.eng.lemma_all_ok_pointwise(rs, g);
                assert(self.eng.denote_ok(rs[0] as int));
                assert(!(self.eng.is_thunk(rs[0] as int)));
            }
        }
    }

    /// A 0/1 sequence sums to its count of ones.
    proof fn lemma_sum01(vs: Seq<int>, k: int)
        requires
            forall|v: int| 0 <= v < vs.len() ==> #[trigger] vs[v] == 0 || vs[v] == 1,
            k <= vs.len(),
        ensures
            sum_upto(vs, k) == ones_upto(vs, k),
        decreases k,
    {
        if k > 0 {
            Self::lemma_sum01(vs, k - 1);
        }
    }

    /// One branch means its score formula, within fixed bounds.
    proof fn lemma_branch_denote(self, bid: int, c: int)
        requires
            self.base_inv(),
            self.branch_ok(bid, c),
            0 <= c <= MAX_COLOR_NODES as int,
        ensures
            self.eng.denote(bid) == branch_score(self.colors(), self.adjv(), c),
            self.eng.denote_ok(bid),
            -4210688 <= self.eng.denote(bid) <= 4210688,
            !(fw_kind(self.eng.body_at(bid))),
    {
        let n = self.size();
        let colors = self.colors();
        let ind = ind_seq(colors, c);
        let fw = self.flags.enable_firewall;
        assert(ind.len() == n);
        crate::engine::lemma_ones_bound(ind, n);
        crate::engine::lemma_ill_bound(ind, self.adjv(), n);
        let ones = ones_upto(ind, n);
        let ill = ill_pairs(ind, self.adjv());
        assert(0 <= ill <= n * n);
        assert(n * n <= MAX_COLOR_NODES * MAX_COLOR_NODES) by (nonlinear_arith)
            requires
                0 <= n <= MAX_COLOR_NODES,
        ;
        assert(-4210688 <= 2 * ones * ill - ones * ones <= 4210688) by (nonlinear_arith)
            requires
                0 <= ones <= 128,
                0 <= ill <= 16384,
        ;
        if self.flags.merge_computation_layers {
            let b = self.eng.body_at(bid);
            let gs = b->Merged_gs;
            self.lemma_guards_denote(gs@, c);
            let rs = body_refs(b);
            self.eng.lemma_dep_vals_index(rs, bid);
            let dv = self.eng.dep_vals(rs, bid);
            assert(dv =~= ind) by {
                assert forall|v: int| 0 <= v < n implies #[trigger] dv[v] == ind[v] by {
                    assert(self.eng.denote(rs[v] as int) == ind[v]);
                }
            }
            assert(self.eng.denote(bid) == branch_score(colors, self.adjv(), c)) by {
                assert(b->Merged_adj.deep_view() == self.adjv());
                assert(crate::engine::body_math(b, dv) == 2 * ones_upto(dv, dv.len() as int)
                    * ill_pairs(dv, b->Merged_adj.deep_view()) - ones_upto(dv, dv.len() as int)
                    * ones_upto(dv, dv.len() as int));
            }
            assert(self.eng.denote_ok(bid)) by {
                self.eng.lemma_all_ok_pointwise(rs, bid);
                assert(gs@.len() <= MAX_GROUP);
                assert(b->Merged_adj.deep_view().len() == n);
                assert(b->Merged_adj@.len() == n);
                assert forall|u: int| 0 <= u < gs@.len() implies #[trigger] b->Merged_adj@[u]@.len()
                    >= gs@.len() by {
                    assert(b->Merged_adj.deep_view()[u] == b->Merged_adj@[u]@);
                    assert(self.adjv()[u] == self.adj@[u]@);
                }
            }
        } else {
            let b = self.eng.body_at(bid);
            let cnt = b->BranchScore_cnt as int;
            let ill_id = b->BranchScore_ill as int;
            let cb = self.eng.body_at(cnt);
            let ib = self.eng.body_at(ill_id);
            let xs = cb->Sum_xs;
            let gs = ib->CountIll_gs;
            self.lemma_guards_denote(xs@, c);
            self.lemma_guards_denote(gs@, c);
            // the member count node
            let crs = body_refs(cb);
            self.eng.lemma_dep_vals_index(crs, cnt);
            let cdv = self.eng.dep_vals(crs, cnt);
            assert(cdv =~= ind) by {
                assert forall|v: int| 0 <= v < n implies #[trigger] cdv[v] == ind[v] by {
                    assert(self.eng.denote(crs[v] as int) == ind[v]);
                }
            }
            assert forall|v: int| 0 <= v < ind.len() implies #[trigger] ind[v] == 0 || ind[v]
                == 1 by {}
            Self::lemma_sum01(ind, n);
            assert(self.eng.denote(cnt) == ones);
            assert(self.eng.denote_ok(cnt)) by {
                self.eng.lemma_all_ok_pointwise(crs, cnt);
            }
            // the illegal-edge count node
            let irs = body_refs(ib);
            self.eng.lemma_dep_vals_index(irs, ill_id);
            let idv = self.eng.dep_vals(irs, ill_id);
            assert(idv =~= ind) by {
                assert forall|v: int| 0 <= v < n implies #[trigger] idv[v] == ind[v] by {
                    assert(self.eng.denote(irs[v] as int) == ind[v]);
                }
            }
            assert(ib->CountIll_adj.deep_view() == self.adjv());
            assert(self.eng.denote(ill_id) == ill);
            assert(self.eng.denote_ok(ill_id)) by {
                self.eng.lemma_all_ok_pointwise(irs, ill_id);
                assert(gs@.len() <= MAX_GROUP);
                assert(ib->CountIll_adj.deep_view().len() == ib->CountIll_adj@.len());
                assert(self.adjv().len() == self.adj@.len());
                assert(ib->CountIll_adj@.len() == n);
                assert forall|u: int| 0 <= u < gs@.len() implies #[trigger] ib->CountIll_adj@[
                    u]@.len() >= gs@.len() by {
                    assert(ib->CountIll_adj.deep_view()[u] == ib->CountIll_adj@[u]@);
                    assert(self.adjv()[u] == self.adj@[u]@);
                }
            }
            // the score node
            let rs = body_refs(b);
            self.eng.lemma_dep_vals_index(rs, bid);
            let dv = self.eng.dep_vals(rs, bid);
            assert(rs[0] as int == cnt && rs[1] as int == ill_id);
            assert(dv[0] == ones && dv[1] == ill);
            assert(crate::engine::body_math(b, dv) == 2 * ones * ill - ones * ones);
            assert(self.eng.denote_ok(bid)) by {
                self.eng.lemma_all_ok_pointwise(rs, bid);
            }
        }
    }

    /// The branch sums telescope into the total score, staying in bounds.
    proof fn lemma_branch_sum(self, dv: Seq<int>, k: int)
        requires
            self.base_inv(),
            dv.len() == self.computation_nodes_layer@.len(),
            0 <= k <= dv.len(),
            forall|c: int|
                0 <= c < dv.len() ==> #[trigger] dv[c] == branch_score(
                    self.colors(),
                    self.adjv(),
                    c,
                ) && -4210688 <= dv[c] <= 4210688,
        ensures
            sum_upto(dv, k) == coloring_score(self.colors(), self.adjv(), k),
            -(k * 4210688) <= sum_upto(dv, k) <= k * 4210688,
        decreases k,
    {
        if k > 0 {
            Self::lemma_branch_sum(self, dv, k - 1);
            assert((k - 1) * 4210688 + 4210688 == k * 4210688) by (nonlinear_arith);
        }
    }

    /// The root means the score of the current coloring over the whole
    /// branch list.
    proof fn lemma_root(self)
        requires
            self.inv(),
            self.result is Some,
        ensures
            self.eng.denote_ok(self.result->Some_0 as int),
            self.eng.denote(self.result->Some_0 as int) == coloring_score(
                self.colors(),
                self.adjv(),
                self.computation_nodes_layer@.len() as int,
            ),
            i32::MIN as int <= self.eng.denote(self.result->Some_0 as int) <= i32::MAX as int,
    {
        let root = self.result->Some_0 as int;
        let bs = self.computation_nodes_layer@;
        let b = self.eng.body_at(root);
        let rs = body_refs(b);
        assert(rs == bs);
        assert forall|c: int| 0 <= c < bs.len() implies {
            &&& self.eng.denote(#[trigger] bs[c] as int) == branch_score(
                self.colors(),
                self.adjv(),
                c,
            )
            &&& self.eng.denote_ok(bs[c] as int)
            &&& -4210688 <= self.eng.denote(bs[c] as int) <= 4210688
            &&& !(self.eng.is_thunk(bs[c] as int) && fw_kind(self.eng.body_at(bs[c] as int)))
        } by {
            assert(self.branch_ok(bs[c] as int, c));
            self.lemma_branch_denote(bs[c] as int, c);
        }
        self.eng.lemma_dep_vals_index(rs, root);
        let dv = self.eng.dep_vals(rs, root);
        assert forall|c: int| 0 <= c < dv.len() implies #[trigger] dv[c] == branch_score(
            self.colors(),
            self.adjv(),
            c,
        ) && -4210688 <= dv[c] <= 4210688 by {
            assert(self.eng.denote(bs[c] as int) == branch_score(self.colors(), self.adjv(), c));
        }
        Self::lemma_branch_sum(self, dv, dv.len() as int);
        assert(bs.len() * 4210688 <= 128 * 4210688) by (nonlinear_arith)
            requires
                0 <= bs.len() <= 128,
        ;
        assert(-(bs.len() * 4210688) >= -(128 * 4210688)) by (nonlinear_arith)
            requires
                0 <= bs.len() <= 128,
        ;
        assert(self.eng.denote(root) == sum_upto(dv, dv.len() as int));
        assert(self.eng.denote_ok(root)) by {
            self.eng.lemma_all_ok_pointwise(rs, root);
        }
    }

    /// Copy a guard list so a body can own it.
    fn copy_ids(v: &Vec<usize>) -> (r: Vec<usize>)
        ensures
            r@ == v@,
    {
        let mut out: Vec<usize> = Vec::new();
        let mut i: usize = 0;
        while i < v.len()
            invariant
                (i as int) <= v@.len(),
                out@ == v@.take(i as int),
            decreases v@.len() - i,
        {
            out.push(v[i]);
            proof {
                assert(out@ =~= v@.take(i as int + 1));
            }
            i += 1;
        }
        proof {
            assert(v@.take(v@.len() as int) =~= v@);
        }
        out
    }

    /// Copy the adjacency matrix so a body can own it.
    fn copy_adj(v: &Vec<Vec<bool>>) -> (r: Vec<Vec<bool>>)
        ensures
            r.deep_view() == v.deep_view(),
            r@.len() == v@.len(),
            forall|i: int| 0 <= i < v@.len() ==> (#[trigger] r@[i])@.len() == v@[i]@.len(),
    {
        let mut out: Vec<Vec<bool>> = Vec::new();
        let mut i: usize = 0;
        while i < v.len()
            invariant
                (i as int) <= v@.len(),
                out@.len() == i as int,
                forall|q: int| 0 <= q < i as int ==> (#[trigger] out@[q])@ == v@[q]@,
            decreases v@.len() - i,
        {
            let mut row: Vec<bool> = Vec::new();
            let mut j: usize = 0;
            while j < v[i].len()
                invariant
                    (i as int) < v@.len(),
                    (j as int) <= v@[i as int]@.len(),
                    row@.len() == j as int,
                    forall|q: int| 0 <= q < j as int ==> #[trigger] row@[q] == v@[i as int]@[q],
                decreases v@[i as int]@.len() - j,
            {
                row.push(v[i][j]);
                j += 1;
            }
            proof {
                assert(row@ =~= v@[i as int]@);
            }
            out.push(row);
            i += 1;
        }
        proof {
            assert(out.deep_view() =~= v.deep_view()) by {
                assert forall|q: int| 0 <= q < v@.len() implies #[trigger] out.deep_view()[q]
                    == v.deep_view()[q] by {
                    assert(out.deep_view()[q] == out@[q]@);
                    assert(v.deep_view()[q] == v@[q]@);
                }
            }
        }
        out
    }

    /// The identifiers inside a guards layer.
    fn guard_ids(guards: &Guards) -> (r: Vec<usize>)
        ensures
            r@ == guards_view(*guards).0,
    {
        match guards {
            Guards::Normal(v) => Self::copy_ids(v),
            Guards::Firewall(v) => Self::copy_ids(v),
        }
    }

    /// The node counting illegal edges among the vertices a guards layer
    /// marks active.
    pub fn create_invalid_edges_node(&mut self, guards: &Guards) -> (r: usize)
        requires
            old(self).inv(),
            guards_view(*guards).1 == old(self).flags.enable_firewall,
            forall|v: int|
                0 <= v < guards_view(*guards).0.len() ==> (#[trigger] guards_view(*guards).0[v]
                    as int) < old(self).eng.n() && !old(self).eng.is_internal_cell(
                    guards_view(*guards).0[v] as int,
                ),
        ensures
            final(self).inv(),
            crate::input_nodes::extends(old(self).eng, final(self).eng),
            final(self).size() == old(self).size(),
            final(self).colors() == old(self).colors(),
            final(self).input_nodes_layer@ == old(self).input_nodes_layer@,
            final(self).computation_nodes_layer@ == old(self).computation_nodes_layer@,
            final(self).result == old(self).result,
            final(self).sealed == old(self).sealed,
            final(self).used_colours == old(self).used_colours,
            final(self).flags == old(self).flags,
            final(self).adj == old(self).adj,
            Engine::fresh_thunk_allocs(old(self).eng, final(self).eng, 1),
            final(self).eng.is_thunk(r as int),
            !final(self).eng.is_internal_cell(r as int),
            (r as int) < final(self).eng.n(),
            (final(self).eng.body_at(r as int) matches Body::CountIll { gs, fw, adj } && gs@
                == guards_view(*guards).0 && fw == guards_view(*guards).1 && adj.deep_view()
                == old(self).adjv()),
            forall|v: int|
                0 <= v < guards_view(*guards).0.len() ==> (#[trigger] guards_view(*guards).0[v]
                    as int) < r as int,
    {
        let gs = Self::guard_ids(guards);
        let fw = match guards {
            Guards::Normal(_) => false,
            Guards::Firewall(_) => true,
        };
        let adj = Self::copy_adj(&self.adj);
        let ghost pre = *self;
        let t = self.eng.thunk(Body::CountIll { gs, fw, adj });
        proof {
            Self::lemma_extends_inv(pre, *self);
            Engine::lemma_fresh_thunks_step(pre.eng, self.eng, t);
        }
        t
    }

    /// The node counting the vertices a guards layer marks active.
    pub fn create_summing_node(&mut self, guards: &Guards) -> (r: usize)
        requires
            old(self).inv(),
            guards_view(*guards).1 == old(self).flags.enable_firewall,
            forall|v: int|
                0 <= v < guards_view(*guards).0.len() ==> (#[trigger] guards_view(*guards).0[v]
                    as int) < old(self).eng.n() && !old(self).eng.is_internal_cell(
                    guards_view(*guards).0[v] as int,
                ),
        ensures
            final(self).inv(),
            crate::input_nodes::extends(old(self).eng, final(self).eng),
            final(self).size() == old(self).size(),
            final(self).colors() == old(self).colors(),
            final(self).input_nodes_layer@ == old(self).input_nodes_layer@,
            final(self).computation_nodes_layer@ == old(self).computation_nodes_layer@,
            final(self).result == old(self).result,
            final(self).sealed == old(self).sealed,
            final(self).used_colours == old(self).used_colours,
            final(self).flags == old(self).flags,
            final(self).adj == old(self).adj,
            Engine::fresh_thunk_allocs(old(self).eng, final(self).eng, 1),
            final(self).eng.is_thunk(r as int),
            !final(self).eng.is_internal_cell(r as int),
            (r as int) < final(self).eng.n(),
            (final(self).eng.body_at(r as int) matches Body::Sum { xs, fw } && xs@ == guards_view(
                *guards,
            ).0 && fw == guards_view(*guards).1),
            forall|v: int|
                0 <= v < guards_view(*guards).0.len() ==> (#[trigger] guards_view(*guards).0[v]
                    as int) < r as int,
    {
        let xs = Self::guard_ids(guards);
        let fw = match guards {
            Guards::Normal(_) => false,
            Guards::Firewall(_) => true,
        };
        let ghost pre = *self;
        let t = self.eng.thunk(Body::Sum { xs, fw });
        proof {
            Self::lemma_extends_inv(pre, *self);
            Engine::lemma_fresh_thunks_step(pre.eng, self.eng, t);
        }
        t
    }

    /// The branch node over one guards layer: one merged thunk, or the score
    /// thunk over the two counting nodes.
    fn create_computation_layer(&mut self, guards: &Guards, Ghost(colour): Ghost<int>) -> (r:
        usize)
        requires
            old(self).inv(),
            guards_view(*guards).1 == old(self).flags.enable_firewall,
            guards_ok(
                old(self).eng,
                guards_view(*guards).0,
                old(self).input_nodes_layer@,
                colour,
                old(self).flags.enable_firewall,
            ),
            forall|v: int|
                0 <= v < guards_view(*guards).0.len() ==> (#[trigger] guards_view(*guards).0[v]
                    as int) < old(self).eng.n(),
        ensures
            final(self).inv(),
            crate::input_nodes::extends(old(self).eng, final(self).eng),
            final(self).size() == old(self).size(),
            final(self).colors() == old(self).colors(),
            final(self).input_nodes_layer@ == old(self).input_nodes_layer@,
            final(self).computation_nodes_layer@ == old(self).computation_nodes_layer@,
            final(self).result == old(self).result,
            final(self).sealed == old(self).sealed,
            final(self).used_colours == old(self).used_colours,
            final(self).flags == old(self).flags,
            final(self).adj == old(self).adj,
            Engine::fresh_thunk_allocs(
                old(self).eng,
                final(self).eng,
                if old(self).flags.merge_computation_layers {
                    1int
                } else {
                    3int
                },
            ),
            (r as int) < final(self).eng.n(),
            final(self).branch_ok(r as int, colour),
    {
        let ghost pre = *self;
        if self.flags.merge_computation_layers {
            let gs = Self::guard_ids(guards);
            let fw = match guards {
                Guards::Normal(_) => false,
                Guards::Firewall(_) => true,
            };
            let adj = Self::copy_adj(&self.adj);
            let t = self.eng.thunk(Body::Merged { gs, fw, adj });
            proof {
                Self::lemma_extends_inv(pre, *self);
                Engine::lemma_fresh_thunks_step(pre.eng, self.eng, t);
                assert(self.branch_ok(t as int, colour)) by {
                    assert(guards_ok(
                        self.eng,
                        guards_view(*guards).0,
                        self.input_nodes_layer@,
                        colour,
                        self.flags.enable_firewall,
                    )) by {
                        Self::lemma_guards_ok_bodies(pre, *self, guards_view(*guards).0, colour);
                    }
                }
            }
            t
        } else {
            let ill = self.create_invalid_edges_node(guards);
            let ghost mid = *self;
            let cnt = self.create_summing_node(guards);
            let ghost mid2 = *self;
            let t = self.eng.thunk(Body::BranchScore { cnt, ill });
            proof {
                crate::input_nodes::lemma_extends_trans(pre.eng, mid.eng, mid2.eng);
                Engine::lemma_fresh_thunks_trans(pre.eng, mid.eng, mid2.eng, 1, 1);
                Engine::lemma_fresh_thunks_step(mid2.eng, self.eng, t);
                Engine::lemma_fresh_thunks_trans(pre.eng, mid2.eng, self.eng, 2, 1);
                assert(crate::input_nodes::extends(mid2.eng, self.eng));
                crate::input_nodes::lemma_extends_trans(pre.eng, mid2.eng, self.eng);
                Self::lemma_extends_inv(mid2, *self);
                assert(self.branch_ok(t as int, colour)) by {
                    assert(self.eng.body_at(cnt as int) == mid2.eng.body_at(cnt as int));
                    assert(self.eng.body_at(ill as int) == mid2.eng.body_at(ill as int));
                    assert(guards_ok(
                        self.eng,
                        guards_view(*guards).0,
                        self.input_nodes_layer@,
                        colour,
                        self.flags.enable_firewall,
                    )) by {
                        Self::lemma_guards_ok_bodies(pre, *self, guards_view(*guards).0, colour);
                    }
                }
            }
            t
        }
    }

    /// Guard structure survives engine extension.
    proof fn lemma_guards_ok_bodies(prev: GraphColoringComp, cur: GraphColoringComp,
        gs: Seq<usize>, colour: int)
        requires
            guards_ok(prev.eng, gs, prev.input_nodes_layer@, colour, prev.flags.enable_firewall),
            prev.eng.n() <= cur.eng.n(),
            forall|j: int|
                0 <= j < prev.eng.n() ==> #[trigger] cur.eng.bodies@[j] == prev.eng.bodies@[j],
            forall|j: int|
                0 <= j < prev.eng.n() ==> #[trigger] cur.eng.owners@[j] == prev.eng.owners@[j],
            cur.input_nodes_layer@ == prev.input_nodes_layer@,
            cur.flags == prev.flags,
        ensures
            guards_ok(cur.eng, gs, cur.input_nodes_layer@, colour, cur.flags.enable_firewall),
    {
        assert forall|v: int| 0 <= v < gs.len() implies {
            let g = #[trigger] gs[v] as int;
            &&& cur.eng.is_thunk(g)
            &&& !cur.eng.is_internal_cell(g)
            &&& cur.eng.body_at(g) == if cur.flags.enable_firewall {
                Body::FwCellEq { c: cur.input_nodes_layer@[v], k: colour as i32 }
            } else {
                Body::CellEq { c: cur.input_nodes_layer@[v], k: colour as i32 }
            }
            &&& (cur.input_nodes_layer@[v] as int) < g
        } by {
            assert(prev.eng.is_thunk(gs[v] as int));
            assert(cur.eng.bodies@[gs[v] as int] == prev.eng.bodies@[gs[v] as int]);
            assert(cur.eng.owners@[gs[v] as int] == prev.eng.owners@[gs[v] as int]);
        }
    }

    /// Build the branch for one color: its guards, then its scoring node.
    fn create_branch(&mut self, colour: i32) -> (r: usize)
        requires
            old(self).inv(),
            0 <= colour as int <= MAX_COLOR_NODES as int,
        ensures
            final(self).inv(),
            crate::input_nodes::extends(old(self).eng, final(self).eng),
            final(self).size() == old(self).size(),
            final(self).colors() == old(self).colors(),
            final(self).input_nodes_layer@ == old(self).input_nodes_layer@,
            final(self).computation_nodes_layer@ == old(self).computation_nodes_layer@,
            final(self).result == old(self).result,
            final(self).sealed == old(self).sealed,
            final(self).used_colours == old(self).used_colours,
            final(self).flags == old(self).flags,
            final(self).adj == old(self).adj,
            Engine::fresh_thunk_allocs(
                old(self).eng,
                final(self).eng,
                old(self).size() + (if old(self).flags.merge_computation_layers {
                    1int
                } else {
                    3int
                }),
            ),
            (r as int) < final(self).eng.n(),
            final(self).branch_ok(r as int, colour as int),
    {
        let guards = self.create_guards_layer(colour);
        let ghost mid = *self;
        let t = self.create_computation_layer(&guards, Ghost(colour as int));
        proof {
            crate::input_nodes::lemma_extends_trans(old(self).eng, mid.eng, self.eng);
            Engine::lemma_fresh_thunks_trans(
                old(self).eng,
                mid.eng,
                self.eng,
                old(self).size(),
                if old(self).flags.merge_computation_layers {
                    1int
                } else {
                    3int
                },
            );
        }
        t
    }

    /// The root: one plain sum over the current branch list.
    fn create_final_layer(&mut self) -> (r: usize)
        requires
            old(self).inv(),
            forall|c: int|
                0 <= c < old(self).computation_nodes_layer@.len() ==> {
                    let bid = #[trigger] old(self).computation_nodes_layer@[c] as int;
                    bid < old(self).eng.n() && !old(self).eng.is_internal_cell(bid)
                },
        ensures
            final(self).inv(),
            crate::input_nodes::extends(old(self).eng, final(self).eng),
            final(self).size() == old(self).size(),
            final(self).colors() == old(self).colors(),
            final(self).input_nodes_layer@ == old(self).input_nodes_layer@,
            final(self).computation_nodes_layer@ == old(self).computation_nodes_layer@,
            final(self).result == old(self).result,
            final(self).sealed == old(self).sealed,
            final(self).used_colours == old(self).used_colours,
            final(self).flags == old(self).flags,
            final(self).adj == old(self).adj,
            Engine::fresh_thunk_allocs(old(self).eng, final(self).eng, 1),
            (r as int) < final(self).eng.n(),
            r as int >= old(self).eng.n(),
            final(self).eng.is_thunk(r as int),
            !final(self).eng.is_internal_cell(r as int),
            (final(self).eng.body_at(r as int) matches Body::Sum { xs, fw } && !fw && xs@ == old(
                self,
            ).computation_nodes_layer@),
            forall|c: int|
                0 <= c < old(self).computation_nodes_layer@.len()
                    ==> (#[trigger] old(self).computation_nodes_layer@[c] as int) < r as int,
    {
        let xs = Self::copy_ids(&self.computation_nodes_layer);
        let ghost pre = *self;
        let t = self.eng.thunk(Body::Sum { xs, fw: false });
        proof {
            Self::lemma_extends_inv(pre, *self);
            Engine::lemma_fresh_thunks_step(pre.eng, self.eng, t);
        }
        t
    }

    /// Build the branch list and the root: one branch per color, or, with
    /// dynamic branches, a single branch for the one color in use.
    pub fn create_computation_graph(&mut self)
        requires
            old(self).inv(),
            old(self).flags.enable_dynamic_branches ==> old(self).used_colours == 1,
        ensures
            final(self).inv(),
            final(self).result is Some,
            final(self).size() == old(self).size(),
            final(self).colors() == old(self).colors(),
            final(self).input_nodes_layer@ == old(self).input_nodes_layer@,
            final(self).sealed == old(self).sealed,
            final(self).used_colours == old(self).used_colours,
            final(self).flags == old(self).flags,
            final(self).adj == old(self).adj,
            // the construction budget: one branch per covered color, one
            // root, nothing run
            Engine::fresh_thunk_allocs(
                old(self).eng,
                final(self).eng,
                (if old(self).flags.enable_dynamic_branches {
                    1int
                } else {
                    old(self).size()
                }) * (old(self).size() + (if old(self).flags.merge_computation_layers {
                    1int
                } else {
                    3int
                })) + 1,
            ),
    {
        let n = self.input_nodes_layer.len();
        let count: usize = if self.flags.enable_dynamic_branches {
            1
        } else {
            n
        };
        let mut branches: Vec<usize> = Vec::new();
        let mut c: usize = 0;
        proof {
            Engine::lemma_fresh_thunks_refl(old(self).eng, self.eng);
            let bsz0 = old(self).size() + (if old(self).flags.merge_computation_layers {
                1int
            } else {
                3int
            });
            assert(0int * bsz0 == 0) by (nonlinear_arith);
        }
        while c < count
            invariant
                self.inv(),
                count as int <= self.size(),
                self.size() == old(self).size(),
                self.colors() == old(self).colors(),
                self.input_nodes_layer@ == old(self).input_nodes_layer@,
                self.computation_nodes_layer@ == old(self).computation_nodes_layer@,
                self.result == old(self).result,
                self.sealed == old(self).sealed,
                self.used_colours == old(self).used_colours,
                self.max_number_of_colours == old(self).max_number_of_colours,
                self.flags == old(self).flags,
                self.adj == old(self).adj,
                c <= count,
                Engine::fresh_thunk_allocs(
                    old(self).eng,
                    self.eng,
                    (c as int) * (old(self).size() + (if old(
                        self,
                    ).flags.merge_computation_layers {
                        1int
                    } else {
                        3int
                    })),
                ),
                branches@.len() == c as int,
                forall|q: int|
                    0 <= q < c as int ==> self.branch_ok(#[trigger] branches@[q] as int, q)
                        && (branches@[q] as int) < self.eng.n() && !self.eng.is_internal_cell(
                        branches@[q] as int,
                    ),
            decreases count - c,
        {
            let ghost pre = *self;
            let b = self.create_branch(c as i32);
            branches.push(b);
            proof {
                let ghost bsz = old(self).size() + (if old(self).flags.merge_computation_layers {
                    1int
                } else {
                    3int
                });
                Engine::lemma_fresh_thunks_trans(
                    old(self).eng,
                    pre.eng,
                    self.eng,
                    (c as int) * bsz,
                    bsz,
                );
                assert((c as int) * bsz >= 0) by (nonlinear_arith)
                    requires
                        0 <= c as int,
                        0 <= bsz,
                ;
                assert((c as int) * bsz + bsz == (c as int + 1) * bsz) by (nonlinear_arith);
                assert forall|q: int| 0 <= q < c as int implies self.branch_ok(
                    #[trigger] branches@[q] as int,
                    q,
                ) by {
                    Self::lemma_branch_ok_bodies(pre, *self, branches@[q] as int, q);
                }
            }
            c += 1;
        }
        self.result = None;
        self.computation_nodes_layer = branches;
        let ghost mid = *self;
        let root = self.create_final_layer();
        self.result = Some(root);
        proof {
            let ghost bsz = old(self).size() + (if old(self).flags.merge_computation_layers {
                1int
            } else {
                3int
            });
            assert((count as int) * bsz >= 0) by (nonlinear_arith)
                requires
                    0 <= count as int,
                    0 <= bsz,
            ;
            Engine::lemma_fresh_thunks_trans(
                old(self).eng,
                mid.eng,
                self.eng,
                (count as int) * bsz,
                1,
            );
            assert forall|q: int| 0 <= q < self.computation_nodes_layer@.len() implies
                self.branch_ok(#[trigger] self.computation_nodes_layer@[q] as int, q) by {
                Self::lemma_branch_ok_bodies(
                    mid,
                    *self,
                    self.computation_nodes_layer@[q] as int,
                    q,
                );
            }
        }
        proof {
            assert(self.built_inv()) by {
                let bs = self.computation_nodes_layer@;
                assert(bs.len() == count as int);
                assert(self.colour_cap() <= bs.len());
            }
        }
    }

    /// Grow the branch list for a newly introduced color and rebuild the
    /// root over the extended list; the old root's consumers see a dirty
    /// edge.
    fn update_root_with_new_colour(&mut self, colour: i32)
        requires
            old(self).inv(),
            0 <= colour as int <= MAX_COLOR_NODES as int,
            old(self).computation_nodes_layer@.len() == colour as int,
            old(self).computation_nodes_layer@.len() < old(self).size(),
            old(self).result is Some,
            forall|c: int|
                0 <= c < old(self).computation_nodes_layer@.len() ==> old(self).branch_ok(
                    #[trigger] old(self).computation_nodes_layer@[c] as int,
                    c,
                ) && (old(self).computation_nodes_layer@[c] as int) < old(self).eng.n()
                    && !old(self).eng.is_internal_cell(
                    old(self).computation_nodes_layer@[c] as int,
                ),
        ensures
            final(self).base_inv(),
            final(self).result is Some,
            final(self).size() == old(self).size(),
            final(self).colors() == old(self).colors(),
            final(self).input_nodes_layer@ == old(self).input_nodes_layer@,
            final(self).sealed == old(self).sealed,
            final(self).used_colours == old(self).used_colours,
            final(self).flags == old(self).flags,
            final(self).adj == old(self).adj,
            Engine::fresh_thunk_allocs(
                old(self).eng,
                final(self).eng,
                old(self).size() + (if old(self).flags.merge_computation_layers {
                    1int
                } else {
                    3int
                }) + 1,
            ),
            final(self).result != old(self).result,
            final(self).computation_nodes_layer@.len() == colour as int + 1,
            final(self).computation_nodes_layer@.take(colour as int) == old(
                self,
            ).computation_nodes_layer@,
            forall|c: int|
                0 <= c < final(self).computation_nodes_layer@.len() ==> final(self).branch_ok(
                    #[trigger] final(self).computation_nodes_layer@[c] as int,
                    c,
                ) && (final(self).computation_nodes_layer@[c] as int) < final(self).eng.n()
                    && !final(self).eng.is_internal_cell(
                    final(self).computation_nodes_layer@[c] as int,
                ),
            (final(self).eng.body_at(final(self).result->Some_0 as int) matches Body::Sum {
                xs,
                fw,
            } && !fw && xs@ == final(self).computation_nodes_layer@),
            final(self).eng.is_thunk(final(self).result->Some_0 as int),
            !final(self).eng.is_internal_cell(final(self).result->Some_0 as int),
            forall|c: int|
                0 <= c < final(self).computation_nodes_layer@.len()
                    ==> (#[trigger] final(self).computation_nodes_layer@[c] as int)
                    < final(self).result->Some_0 as int,
    {
        let ghost pre = *self;
        let b = self.create_branch(colour);
        self.result = None;
        self.computation_nodes_layer.push(b);
        proof {
            assert(self.computation_nodes_layer@.take(colour as int)
                =~= pre.computation_nodes_layer@);
        }
        proof {
            assert forall|c: int| 0 <= c < self.computation_nodes_layer@.len() implies
                self.branch_ok(#[trigger] self.computation_nodes_layer@[c] as int, c) && (
            self.computation_nodes_layer@[c] as int) < self.eng.n()
                && !self.eng.is_internal_cell(self.computation_nodes_layer@[c] as int) by {
                if c < colour as int {
                    Self::lemma_branch_ok_bodies(
                        pre,
                        *self,
                        self.computation_nodes_layer@[c] as int,
                        c,
                    );
                }
            }
        }
        let ghost mid = *self;
        let root = self.create_final_layer();
        self.result = Some(root);
        proof {
            let ghost bsz = old(self).size() + (if old(self).flags.merge_computation_layers {
                1int
            } else {
                3int
            });
            Engine::lemma_fresh_thunks_refl(old(self).eng, pre.eng);
            Engine::lemma_fresh_thunks_trans(old(self).eng, pre.eng, mid.eng, 0, bsz);
            Engine::lemma_fresh_thunks_trans(old(self).eng, mid.eng, self.eng, bsz, 1);
            // the rebuilt root is a fresh location, distinct from the old one
            assert(old(self).eng.is_thunk(old(self).result->Some_0 as int));
            assert((old(self).result->Some_0 as int) < old(self).eng.n());
            assert(root as int >= mid.eng.n());
            assert(mid.eng.n() >= old(self).eng.n());
            assert(self.result != old(self).result);
            assert forall|c: int| 0 <= c < self.computation_nodes_layer@.len() implies
                self.branch_ok(#[trigger] self.computation_nodes_layer@[c] as int, c) && (
            self.computation_nodes_layer@[c] as int) < self.eng.n()
                && !self.eng.is_internal_cell(self.computation_nodes_layer@[c] as int) by {
                Self::lemma_branch_ok_bodies(
                    mid,
                    *self,
                    self.computation_nodes_layer@[c] as int,
                    c,
                );
            }
        }
    }

    /// Whether a color is refused: outside the palette, or, with dynamic
    /// branches, beyond the next unused color.
    pub open spec fn bad_colour(self, val: i32) -> bool {
        val < 0 || val as int >= self.size() || (self.flags.enable_dynamic_branches && val as int
            > self.used_colours as int)
    }

    /// Recolor one vertex. An invalid color is refused first, then a sealed
    /// graph, then a vertex outside the graph. Assigning exactly the next
    /// unused color first grows the bookkeeping (and, with dynamic branches,
    /// the branch list, rebinding the root to a fresh location). The call
    /// runs no thunk body: re-evaluation waits for the next demand.
    pub fn update_input_node(&mut self, idx: usize, val: i32) -> (r: Result<(), CompError>)
        requires
            old(self).inv(),
        ensures
            final(self).inv(),
            final(self).size() == old(self).size(),
            final(self).input_nodes_layer@ == old(self).input_nodes_layer@,
            final(self).flags == old(self).flags,
            final(self).adj == old(self).adj,
            final(self).sealed == old(self).sealed,
            old(self).result is Some ==> final(self).result is Some,
            Engine::no_force_entries(old(self).eng, final(self).eng),
            r is Err ==> *final(self) == *old(self),
            old(self).bad_colour(val) ==> r == Err::<(), CompError>(CompError::InvalidColor),
            !old(self).bad_colour(val) && old(self).sealed ==> r == Err::<(), CompError>(
                CompError::MutateAfterSeal,
            ),
            !old(self).bad_colour(val) && !old(self).sealed && (idx as int) >= old(self).size()
                ==> r == Err::<(), CompError>(CompError::InvalidVertex),
            r is Ok <==> (!old(self).bad_colour(val) && !old(self).sealed && (idx as int) < old(
                self,
            ).size()),
            r is Ok ==> {
                &&& final(self).colors() =~= old(self).colors().update(idx as int, val as int)
                &&& final(self).used_colours as int == if val as int == old(
                    self,
                ).used_colours as int {
                    old(self).used_colours as int + 1
                } else {
                    old(self).used_colours as int
                }
            },
            // the root is rebound to a fresh location exactly when dynamic
            // growth runs on a built graph; otherwise it stays as it was
            r is Ok && old(self).flags.enable_dynamic_branches && val as int == old(
                self,
            ).used_colours as int && old(self).result is Some ==> final(self).result is Some
                && final(self).result != old(self).result
                && final(self).computation_nodes_layer@.len() == old(
                self,
            ).computation_nodes_layer@.len() + 1 && final(self).computation_nodes_layer@.take(
                old(self).computation_nodes_layer@.len() as int,
            ) == old(self).computation_nodes_layer@,
            !(r is Ok && old(self).flags.enable_dynamic_branches && val as int == old(
                self,
            ).used_colours as int && old(self).result is Some) ==> final(self).result == old(
                self,
            ).result && final(self).computation_nodes_layer@ == old(
                self,
            ).computation_nodes_layer@,
            // a no-op recoloring dirties nothing: every node keeps its value,
            // state, record and output cell, so the next demand re-runs no
            // thunk at all
            r is Ok && old(self).colors()[idx as int] == val as int && val as int != old(
                self,
            ).used_colours as int ==> final(self).eng.vals@ == old(self).eng.vals@
                && final(self).eng.sts@ == old(self).eng.sts@
                && final(self).eng.edges@ == old(self).eng.edges@
                && final(self).eng.outs@ == old(self).eng.outs@
                && final(self).eng.bodies@ == old(self).eng.bodies@,
    {
        // an invalid color wins over every other refusal, as the scoring
        // graph has always answered
        if val < 0 || val >= self.max_number_of_colours {
            return Err(CompError::InvalidColor);
        }
        if self.flags.enable_dynamic_branches && (val as usize) > self.used_colours {
            return Err(CompError::InvalidColor);
        }
        if self.sealed {
            return Err(CompError::MutateAfterSeal);
        }
        if idx >= self.input_nodes_layer.len() {
            return Err(CompError::InvalidVertex);
        }
        let n = self.input_nodes_layer.len();
        if (val as usize) == self.used_colours {
            if self.flags.enable_dynamic_branches {
                let built = match self.result {
                    Some(_) => true,
                    None => false,
                };
                if built {
                    self.update_root_with_new_colour(val);
                }
                // an unbuilt graph only adjusts the count
            }
            self.used_colours = self.used_colours + 1;
            proof {
                assert forall|k: int| 0 <= k < self.size() implies {
                    let v = #[trigger] self.eng.val_at(self.input_nodes_layer@[k] as int);
                    v is I && 0 <= as_math(v) && as_math(v) < self.colour_cap()
                } by {
                    assert(old(self).eng.val_at(old(self).input_nodes_layer@[k] as int) is I);
                }
            }
        }
        let ghost pre = *self;
        self.eng.set(self.input_nodes_layer[idx], val);
        proof {
            Self::lemma_after_set(pre, *self, idx as int, val);
            if old(self).colors()[idx as int] == val as int && val as int != old(self).used_colours as int {
                assert(pre.eng == old(self).eng);
                assert(pre.eng.val_at(pre.input_nodes_layer@[idx as int] as int) is I);
                assert(as_math(pre.eng.val_at(pre.input_nodes_layer@[idx as int] as int))
                    == val as int);
                assert(pre.eng.val_at(pre.input_nodes_layer@[idx as int] as int) == Val::I(val));
            }
            assert(Engine::no_force_entries(old(self).eng, self.eng)) by {
                assert forall|t: int|
                    old(self).eng.trace@.len() <= t < self.eng.trace@.len() implies !((
                #[trigger] self.eng.trace@[t]) is ForceRerun || self.eng.trace@[t]
                    is ForceCleanHit || self.eng.trace@[t] is CleanRevalidate) by {
                    if t < pre.eng.trace@.len() {
                        assert(Engine::alloc_only(old(self).eng, pre.eng));
                        assert(self.eng.trace@[t] == pre.eng.trace@[t]);
                    } else {
                        assert(self.eng.trace@[t] == Trace::SetChanged { id: pre.input_nodes_layer@[idx as int] }
                            || self.eng.trace@[t] == Trace::SetNoChange { id: pre.input_nodes_layer@[idx as int] });
                    }
                }
            }
        }
        Ok(())
    }

    /// A `set` on one color cell updates the coloring at that vertex and
    /// preserves the invariant.
    proof fn lemma_after_set(prev: GraphColoringComp, cur: GraphColoringComp, idx: int, val: i32)
        requires
            prev.base_inv(),
            prev.built_inv(),
            0 <= idx < prev.size(),
            0 <= val as int,
            (val as int) < prev.colour_cap(),
            cur.input_nodes_layer@ == prev.input_nodes_layer@,
            cur.computation_nodes_layer@ == prev.computation_nodes_layer@,
            cur.result == prev.result,
            cur.sealed == prev.sealed,
            cur.used_colours == prev.used_colours,
            cur.max_number_of_colours == prev.max_number_of_colours,
            cur.flags == prev.flags,
            cur.adj == prev.adj,
            cur.eng.wf(),
            cur.eng.bodies@ == prev.eng.bodies@,
            cur.eng.owners@ == prev.eng.owners@,
            cur.eng.vals@ == prev.eng.vals@.update(
                prev.input_nodes_layer@[idx] as int,
                Val::I(val),
            ) || cur.eng.vals@ == prev.eng.vals@,
        ensures
            cur.inv(),
            cur.colors() =~= if cur.eng.vals@ == prev.eng.vals@ {
                prev.colors()
            } else {
                prev.colors().update(idx, val as int)
            },
    {
        let n = prev.size();
        assert forall|k: int| 0 <= k < n implies cur.eng.is_input_cell(
            #[trigger] cur.input_nodes_layer@[k] as int,
        ) by {
            assert(prev.eng.is_input_cell(prev.input_nodes_layer@[k] as int));
        }
        assert forall|k: int| 0 <= k < n implies {
            let v = #[trigger] cur.eng.val_at(cur.input_nodes_layer@[k] as int);
            v is I && 0 <= as_math(v) && as_math(v) < cur.colour_cap()
        } by {
            assert(prev.eng.is_input_cell(prev.input_nodes_layer@[k] as int));
            assert((prev.input_nodes_layer@[k] as int) < prev.eng.n());
            if cur.eng.vals@ != prev.eng.vals@ {
                if k != idx {
                    assert(cur.input_nodes_layer@[k] != cur.input_nodes_layer@[idx]) by {
                        if k < idx {
                            assert(prev.input_nodes_layer@[k] < prev.input_nodes_layer@[idx]);
                        } else {
                            assert(prev.input_nodes_layer@[idx] < prev.input_nodes_layer@[k]);
                        }
                    }
                    assert(cur.eng.val_at(cur.input_nodes_layer@[k] as int) == prev.eng.val_at(
                        prev.input_nodes_layer@[k] as int,
                    ));
                } else {
                    assert(cur.eng.val_at(cur.input_nodes_layer@[k] as int) == Val::I(val));
                }
            }
        }
        if cur.result is Some {
            let bs = prev.computation_nodes_layer@;
            assert forall|c: int| 0 <= c < bs.len() implies cur.branch_ok(
                #[trigger] bs[c] as int,
                c,
            ) by {
                assert(prev.branch_ok(bs[c] as int, c));
                Self::lemma_branch_ok_bodies(prev, cur, bs[c] as int, c);
            }
            let root = prev.result->Some_0 as int;
            assert(prev.eng.is_thunk(root));
            assert(cur.eng.bodies@[root] == prev.eng.bodies@[root]);
            assert(cur.eng.owners@[root] == prev.eng.owners@[root]);
        }
        assert forall|k: int| 0 <= k < n implies #[trigger] cur.colors()[k] == (if cur.eng.vals@
            == prev.eng.vals@ {
            prev.colors()[k]
        } else {
            prev.colors().update(idx, val as int)[k]
        }) by {
            if cur.eng.vals@ != prev.eng.vals@ && k != idx {
                assert(cur.input_nodes_layer@[k] != cur.input_nodes_layer@[idx]) by {
                    if k < idx {
                        assert(prev.input_nodes_layer@[k] < prev.input_nodes_layer@[idx]);
                    } else {
                        assert(prev.input_nodes_layer@[idx] < prev.input_nodes_layer@[k]);
                    }
                }
            }
        }
    }

    /// Demand the root's value: the score of the current coloring, or
    /// nothing while the graph is unbuilt.
    pub fn get_result(&mut self) -> (r: Option<i32>)
        requires
            old(self).inv(),
        ensures
            final(self).inv(),
            final(self).size() == old(self).size(),
            final(self).colors() == old(self).colors(),
            final(self).input_nodes_layer@ == old(self).input_nodes_layer@,
            final(self).computation_nodes_layer@ == old(self).computation_nodes_layer@,
            final(self).result == old(self).result,
            final(self).sealed == old(self).sealed,
            final(self).used_colours == old(self).used_colours,
            final(self).flags == old(self).flags,
            final(self).adj == old(self).adj,
            r is Some <==> old(self).result is Some,
            r is Some ==> r->Some_0 as int == coloring_score(
                old(self).colors(),
                old(self).adjv(),
                old(self).computation_nodes_layer@.len() as int,
            ),
            // only thunks with a stale observation may re-run: settled ones
            // (in particular every firewall consumer whose guards' values
            // did not flip) keep their record and are never re-executed
            Engine::settled_nodes_kept(old(self).eng, final(self).eng),
    {
        let root = match self.result {
            Some(t) => t,
            None => {
                proof {
                    Engine::lemma_settled_kept_refl(old(self).eng, self.eng);
                }
                return None;
            },
        };
        proof {
            old(self).lemma_root();
        }
        let ghost prev = *self;
        let rr = self.eng.get(root);
        proof {
            assert(prev.eng.is_thunk(root as int));
            assert(rr is Ok);
            Self::lemma_after_get(prev, *self);
        }
        let v = match rr {
            Ok(v) => v,
            Err(_) => {
                proof {
                    assert(false);
                }
                Val::I(0)
            },
        };
        match v {
            Val::I(x) => {
                proof {
                    assert(as_math(v) == prev.eng.denote(root as int));
                }
                Some(x)
            },
            _ => {
                proof {
                    assert(self.eng.clean(root as int));
                    assert(self.eng.executed(root as int));
                    assert(self.eng.cached_ok(root as int));
                    assert(v == self.eng.val_at(root as int));
                    assert(self.eng.body_at(root as int) is Sum);
                    assert(crate::engine::cache_rel(
                        self.eng.body_at(root as int),
                        self.eng.edges_at(root as int),
                        v,
                    ));
                    assert(false);
                }
                None
            },
        }
    }

    /// A force preserves the invariant: bodies, owners and input cells are
    /// untouched.
    proof fn lemma_after_get(prev: GraphColoringComp, cur: GraphColoringComp)
        requires
            prev.inv(),
            cur.input_nodes_layer@ == prev.input_nodes_layer@,
            cur.computation_nodes_layer@ == prev.computation_nodes_layer@,
            cur.result == prev.result,
            cur.sealed == prev.sealed,
            cur.used_colours == prev.used_colours,
            cur.max_number_of_colours == prev.max_number_of_colours,
            cur.flags == prev.flags,
            cur.adj == prev.adj,
            cur.eng.wf(),
            prev.eng.n() <= cur.eng.n(),
            forall|j: int|
                0 <= j < prev.eng.n() ==> #[trigger] cur.eng.bodies@[j] == prev.eng.bodies@[j],
            forall|j: int|
                0 <= j < prev.eng.n() ==> #[trigger] cur.eng.owners@[j] == prev.eng.owners@[j],
            forall|j: int|
                #[trigger] prev.eng.is_input_cell(j) ==> cur.eng.vals@[j] == prev.eng.vals@[j],
        ensures
            cur.inv(),
            cur.colors() == prev.colors(),
    {
        let n = prev.size();
        assert forall|k: int| 0 <= k < n implies cur.eng.is_input_cell(
            #[trigger] cur.input_nodes_layer@[k] as int,
        ) && cur.eng.val_at(cur.input_nodes_layer@[k] as int) == prev.eng.val_at(
            prev.input_nodes_layer@[k] as int,
        ) by {
            assert(prev.eng.is_input_cell(prev.input_nodes_layer@[k] as int));
        }
        assert(cur.colors() =~= prev.colors());
        if cur.result is Some {
            let bs = prev.computation_nodes_layer@;
            assert forall|c: int| 0 <= c < bs.len() implies cur.branch_ok(
                #[trigger] bs[c] as int,
                c,
            ) by {
                assert(prev.branch_ok(bs[c] as int, c));
                Self::lemma_branch_ok_bodies(prev, cur, bs[c] as int, c);
            }
            let root = prev.result->Some_0 as int;
            assert(prev.eng.is_thunk(root));
            assert(cur.eng.bodies@[root] == prev.eng.bodies@[root]);
            assert(cur.eng.owners@[root] == prev.eng.owners@[root]);
        }
    }

    /// Seal the graph: further mutation is refused, the trace window closes
    /// and its diagnostics are kept.
    pub fn seal(&mut self) -> (r: Result<(), CompError>)
        requires
            old(self).inv(),
        ensures
            final(self).inv(),
            final(self).size() == old(self).size(),
            final(self).colors() == old(self).colors(),
            final(self).input_nodes_layer@ == old(self).input_nodes_layer@,
            final(self).result == old(self).result,
            final(self).used_colours == old(self).used_colours,
            final(self).flags == old(self).flags,
            old(self).sealed ==> r == Err::<(), CompError>(CompError::MutateAfterSeal)
                && *final(self) == *old(self) && final(self).sealed,
            // sealing closes the trace window and stores its diagnostics:
            // the kept trace is exactly the window, counted
            !old(self).sealed ==> {
                &&& r == Ok::<(), CompError>(())
                &&& final(self).sealed
                &&& final(self).diagnostics is Some
                &&& final(self).diagnostics->Some_0.traces@ == old(self).eng.trace@.subrange(
                    old(self).eng.window_start(),
                    old(self).eng.trace@.len() as int,
                )
                &&& final(self).diagnostics->Some_0.counted()
                &&& final(self).diagnostics->Some_0.cells_count as int == count_upto(
                    final(self).diagnostics->Some_0.traces@,
                    final(self).diagnostics->Some_0.traces@.len() as int,
                    |t: Trace| is_cell_fresh(t),
                )
                &&& final(self).diagnostics->Some_0.thunks_count as int == count_upto(
                    final(self).diagnostics->Some_0.traces@,
                    final(self).diagnostics->Some_0.traces@.len() as int,
                    |t: Trace| is_thunk_fresh(t),
                )
                &&& final(self).eng.trace@ == old(self).eng.trace@
                &&& final(self).eng.window_start() == old(self).eng.trace@.len()
            },
    {
        if self.sealed {
            return Err(CompError::MutateAfterSeal);
        }
        self.sealed = true;
        let ghost pre = *self;
        let traces = self.eng.trace_end();
        let d = Diagnostics::new(traces).analyse();
        self.diagnostics = Some(d);
        proof {
            Self::lemma_after_get(pre, *self);
        }
        Ok(())
    }
}

} // verus!
