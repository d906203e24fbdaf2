//! The tour-length dependency graph: one input cell per position of the
//! tour, one leg thunk per consecutive pair (plus the closing leg), and a
//! balanced summation tree over the legs. Re-scoring after a small edit
//! re-executes only the legs whose endpoints changed and the path above them.

use vstd::prelude::*;
use crate::engine::{Engine, Body, Val, Trace, body_refs, fw_kind, as_math};
use crate::errors::CompError;
use crate::diagnostics::{Diagnostics, count_upto, is_cell_fresh, is_thunk_fresh};
use crate::input_nodes::{covers, create_input_nodes, devide_and_conquer, denote_sum};

verus! {

/// Most vertices a tour may have.
pub const MAX_NODES: usize = 1000;

/// Largest edge weight the scoring graph accepts; `MAX_NODES` of them summed
/// stay within `i32`.
pub const MAX_WEIGHT: i32 = 1000000;

/// The weight-table entry a tour's `k`-th leg reads: the edge from position
/// `k` to the next position, wrapping at the end.
pub open spec fn tour_term(p: Seq<int>, w: Seq<Seq<i32>>, k: int) -> int {
    w[p[k]][p[(k + 1) % (p.len() as int)]] as int
}

/// The length of the first `k` legs.
pub open spec fn tour_len_upto(p: Seq<int>, w: Seq<Seq<i32>>, k: int) -> int
    decreases k,
{
    if k <= 0 {
        0
    } else {
        tour_len_upto(p, w, k - 1) + tour_term(p, w, k - 1)
    }
}

/// The tour's total length: the sum of all its legs.
pub open spec fn tsp_len(p: Seq<int>, w: Seq<Seq<i32>>) -> int {
    tour_len_upto(p, w, p.len() as int)
}

/// A sequence of position updates applied left to right.
pub open spec fn apply_updates(p: Seq<int>, ups: Seq<(usize, i32)>) -> Seq<int>
    decreases ups.len(),
{
    if ups.len() == 0 {
        p
    } else {
        apply_updates(p, ups.drop_last()).update(ups.last().0 as int, ups.last().1 as int)
    }
}

/// Copy a weight matrix so a thunk body can own it.
pub fn copy_matrix(v: &Vec<Vec<i32>>) -> (r: Vec<Vec<i32>>)
    ensures
        r@.len() == v@.len(),
        forall|i: int| 0 <= i < v@.len() ==> (#[trigger] r@[i])@ == v@[i]@,
{
    let mut out: Vec<Vec<i32>> = Vec::new();
    let mut i: usize = 0;
    while i < v.len()
        invariant
            (i as int) <= v@.len(),
            out@.len() == i as int,
            forall|q: int| 0 <= q < i as int ==> (#[trigger] out@[q])@ == v@[q]@,
        decreases v@.len() - i,
    {
        let mut row: Vec<i32> = Vec::new();
        let mut j: usize = 0;
        while j < v[i].len()
            invariant
                (i as int) < v@.len(),
                (j as int) <= v@[i as int]@.len(),
                row@.len() == j as int,
                forall|q: int| 0 <= q < j as int ==> #[trigger] row@[q] == v@[i as int]@[q],
        decreases v@[i as int]@.len() - j,
        {
            row.push(v[i][j]);
            j += 1;
        }
        proof {
            assert(row@ =~= v@[i as int]@);
        }
        out.push(row);
        i += 1;
    }
    out
}

/// The incremental tour-length computation.
pub struct TspComp {
    pub eng: Engine,
    pub input_nodes: Vec<usize>,
    pub legs: Vec<usize>,
    pub res: usize,
    pub sealed: bool,
    pub diagnostics: Option<Diagnostics>,
    pub w: Vec<Vec<i32>>,
}

impl TspComp {
    pub open spec fn size(self) -> int {
        self.input_nodes@.len() as int
    }

    /// The current tour, read off the input cells.
    pub open spec fn path(self) -> Seq<int> {
        Seq::new(self.size() as nat, |k: int| as_math(self.eng.val_at(self.input_nodes@[k] as int)))
    }

    /// The captured weight table as a mathematical matrix.
    pub open spec fn table(self) -> Seq<Seq<i32>> {
        self.w.deep_view()
    }

    /// Structure and ranges the builder establishes and every operation
    /// preserves.
    pub open spec fn inv(self) -> bool {
        let n = self.size();
        &&& self.eng.wf()
        &&& 1 <= n <= MAX_NODES
        &&& self.w@.len() == n
        &&& forall|i: int| 0 <= i < n ==> (#[trigger] self.w@[i])@.len() == n
        &&& forall|i: int, j: int|
            0 <= i < n && 0 <= j < n ==> 0 <= #[trigger] self.w@[i]@[j] <= MAX_WEIGHT
        // input cells: valid, distinct, holding positions in range
        &&& forall|k: int|
            0 <= k < n ==> self.eng.is_input_cell(#[trigger] self.input_nodes@[k] as int)
        &&& forall|k1: int, k2: int|
            0 <= k1 < k2 < n ==> #[trigger] self.input_nodes@[k1] < #[trigger] self.input_nodes@[k2]
        &&& forall|k: int|
            0 <= k < n ==> {
                let v = #[trigger] self.eng.val_at(self.input_nodes@[k] as int);
                v is I && 0 <= as_math(v) && as_math(v) < n
            }
        // legs: one per consecutive pair, one closing, reading the cells
        &&& self.legs@.len() == n
        &&& forall|k: int|
            0 <= k < n ==> {
                let lg = #[trigger] self.legs@[k] as int;
                &&& self.eng.is_thunk(lg)
                &&& !self.eng.is_internal_cell(lg)
                &&& (self.eng.body_at(lg) matches Body::Leg { a, b, w: lw } && a
                    == self.input_nodes@[k] && b == self.input_nodes@[if k + 1 < n {
                    k + 1
                } else {
                    0
                }] && lw.deep_view() == self.table() && lw@.len() == n)
                &&& (self.input_nodes@[k] as int) < lg
                &&& (self.input_nodes@[if k + 1 < n {
                    k + 1
                } else {
                    0
                }] as int) < lg
            }
        &&& covers(self.eng, self.res as int, self.legs@)
    }

    /// Every leg means its weight-table entry, within bounds, and is owed
    /// success.
    proof fn lemma_legs(self)
        requires
            self.inv(),
        ensures
            forall|k: int|
                0 <= k < self.size() ==> {
                    let lg = #[trigger] self.legs@[k] as int;
                    &&& self.eng.denote(lg) == tour_term(self.path(), self.table(), k)
                    &&& 0 <= self.eng.denote(lg) <= MAX_WEIGHT as int
                    &&& self.eng.denote_ok(lg)
                    &&& !(self.eng.is_thunk(lg) && fw_kind(self.eng.body_at(lg)))
                    &&& 0 <= lg < self.eng.n()
                    &&& !self.eng.is_internal_cell(lg)
                },
    {
        let n = self.size();
        let p = self.path();
        assert forall|k: int| 0 <= k < n implies {
            let lg = #[trigger] self.legs@[k] as int;
            &&& self.eng.denote(lg) == tour_term(p, self.table(), k)
            &&& 0 <= self.eng.denote(lg) <= MAX_WEIGHT as int
            &&& self.eng.denote_ok(lg)
            &&& !(self.eng.is_thunk(lg) && fw_kind(self.eng.body_at(lg)))
            &&& 0 <= lg < self.eng.n()
            &&& !self.eng.is_internal_cell(lg)
        } by {
            let lg = self.legs@[k] as int;
            let b = self.eng.body_at(lg);
            let rs = body_refs(b);
            let kn = if k + 1 < n {
                k + 1
            } else {
                0
            };
            assert(rs[0] == self.input_nodes@[k] && rs[1] == self.input_nodes@[kn]);
            self.eng.lemma_dep_vals_index(rs, lg);
            let dv = self.eng.dep_vals(rs, lg);
            assert(self.eng.denote(rs[0] as int) == p[k]);
            assert(self.eng.denote(rs[1] as int) == p[kn]);
            assert(dv[0] == p[k] && dv[1] == p[kn]);
            assert(p.len() == n);
            assert((k + 1) % (p.len() as int) == kn) by (nonlinear_arith)
                requires
                    0 <= k < n,
                    p.len() == n,
                    kn == if k + 1 < n {
                        k + 1
                    } else {
                        0
                    },
            ;
            let lw = b->Leg_w;
            assert(lw.deep_view()[dv[0]] == lw@[dv[0]]@);
            assert(lw@[dv[0]]@[dv[1]] == self.table()[p[k]][p[kn]]);
            assert(0 <= self.table()[p[k]][p[kn]] <= MAX_WEIGHT) by {
                assert(self.table()[p[k]] == self.w@[p[k]]@);
                assert(self.w@[p[k]]@[p[kn]] == self.table()[p[k]][p[kn]]);
            }
            assert(self.eng.denote_ok(lg)) by {
                self.eng.lemma_all_ok_pointwise(rs, lg);
                assert(self.eng.denote_ok(rs[0] as int) && self.eng.denote_ok(rs[1] as int));
                assert(0 <= dv[0] < lw@.len());
                assert(lw@[dv[0]]@.len() == lw.deep_view()[dv[0]].len());
                assert(0 <= dv[1] < lw@[dv[0]]@.len());
            }
        }
    }

    /// The root means the tour length.
    proof fn lemma_root(self)
        requires
            self.inv(),
        ensures
            self.eng.denote_ok(self.res as int),
            self.eng.denote(self.res as int) == tsp_len(self.path(), self.table()),
            0 <= self.eng.denote(self.res as int) <= i32::MAX as int,
    {
        self.lemma_legs();
        crate::input_nodes::lemma_covers_sum(
            self.eng,
            self.res as int,
            self.legs@,
            MAX_WEIGHT as int,
        );
        Self::lemma_sum_is_len(self, self.size() as int);
        assert(self.legs@.take(self.size() as int) =~= self.legs@);
    }

    /// The leg sum telescopes into the tour length.
    proof fn lemma_sum_is_len(self, k: int)
        requires
            self.inv(),
            0 <= k <= self.size(),
            forall|q: int|
                0 <= q < self.size() ==> #[trigger] self.eng.denote(self.legs@[q] as int)
                    == tour_term(self.path(), self.table(), q),
        ensures
            denote_sum(self.eng, self.legs@.take(k)) == tour_len_upto(
                self.path(),
                self.table(),
                k,
            ),
        decreases k,
    {
        if k > 0 {
            Self::lemma_sum_is_len(self, k - 1);
            assert(self.legs@.take(k).drop_last() =~= self.legs@.take(k - 1));
            assert(self.legs@.take(k).last() == self.legs@[k - 1]);
        }
    }

    /// Build the computation graph over an `n`-by-`n` weight table: `n`
    /// position cells all zero, `n` legs, and the summation tree.
    pub fn new(al: Vec<Vec<i32>>, n: usize) -> (r: TspComp)
        requires
            1 <= n <= MAX_NODES,
            al@.len() == n as int,
            forall|i: int| 0 <= i < n as int ==> (#[trigger] al@[i])@.len() == n as int,
            forall|i: int, j: int|
                0 <= i < n as int && 0 <= j < n as int ==> 0 <= #[trigger] al@[i]@[j] <= MAX_WEIGHT,
        ensures
            r.inv(),
            !r.sealed,
            r.size() == n as int,
            r.table() == al.deep_view(),
            r.path() =~= Seq::new(n as nat, |k: int| 0int),
    {
        let mut eng = Engine::new();
        eng.trace_begin();
        let ids = create_input_nodes(&mut eng, n);
        let mut legs: Vec<usize> = Vec::new();
        let mut k: usize = 0;
        while k < n
            invariant
                eng.wf(),
                1 <= n <= MAX_NODES,
                ids@.len() == n as int,
                al@.len() == n as int,
                forall|i: int| 0 <= i < n as int ==> (#[trigger] al@[i])@.len() == n as int,
                forall|q: int| 0 <= q < n as int ==> #[trigger] ids@[q] as int == q,
                forall|q: int|
                    0 <= q < n as int ==> eng.is_input_cell(#[trigger] ids@[q] as int)
                        && eng.val_at(ids@[q] as int) == Val::I(0),
                k <= n,
                legs@.len() == k as int,
                eng.n() >= n as int,
                forall|q: int|
                    0 <= q < k as int ==> {
                        let lg = #[trigger] legs@[q] as int;
                        &&& eng.is_thunk(lg)
                        &&& !eng.is_internal_cell(lg)
                        &&& (eng.body_at(lg) matches Body::Leg { a, b, w: lw } && a == ids@[q]
                            && b == ids@[if q + 1 < n as int {
                            q + 1
                        } else {
                            0
                        }] && lw.deep_view() == al.deep_view() && lw@.len() == n as int)
                        &&& (ids@[q] as int) < lg
                        &&& (ids@[if q + 1 < n as int {
                            q + 1
                        } else {
                            0
                        }] as int) < lg
                        &&& lg < eng.n()
                    },
            decreases n - k,
        {
            let ghost pre = eng;
            let wcopy = copy_matrix(&al);
            proof {
                assert(wcopy.deep_view() =~= al.deep_view()) by {
                    assert forall|i: int| 0 <= i < al@.len() implies #[trigger] wcopy.deep_view()[i]
                        == al.deep_view()[i] by {
                        assert(wcopy@[i]@ == al@[i]@);
                        assert(wcopy.deep_view()[i] == wcopy@[i]@);
                        assert(al.deep_view()[i] == al@[i]@);
                    }
                }
            }
            let a = ids[k];
            let b = if k + 1 < n {
                ids[k + 1]
            } else {
                ids[0]
            };
            let lg = eng.thunk(Body::Leg { a, b, w: wcopy });
            legs.push(lg);
            proof {
                assert(crate::input_nodes::extends(pre, eng));
                assert forall|q: int| 0 <= q < n as int implies eng.is_input_cell(
                    #[trigger] ids@[q] as int,
                ) && eng.val_at(ids@[q] as int) == Val::I(0) by {
                    assert(pre.is_input_cell(ids@[q] as int));
                }
            }
            k += 1;
        }
        let res = devide_and_conquer(&mut eng, &legs, 0, n - 1);
        proof {
            assert(legs@.subrange(0, n as int) =~= legs@);
        }
        let comp = TspComp {
            eng,
            input_nodes: ids,
            legs,
            res,
            sealed: false,
            diagnostics: None,
            w: al,
        };
        proof {
            assert(comp.path() =~= Seq::new(n as nat, |k: int| 0int));
        }
        comp
    }

    /// Write new positions into the input cells. After the graph is sealed
    /// this is refused.
    pub fn update_input_nodes(&mut self, updates: Vec<(usize, i32)>) -> (r: Result<
        (),
        CompError,
    >)
        requires
            old(self).inv(),
            forall|q: int|
                0 <= q < updates@.len() ==> {
                    let u = #[trigger] updates@[q];
                    (u.0 as int) < old(self).size() && 0 <= u.1 as int && (u.1 as int) < old(self).size()
                },
        ensures
            final(self).inv(),
            final(self).sealed == old(self).sealed,
            final(self).size() == old(self).size(),
            final(self).table() == old(self).table(),
            final(self).input_nodes@ == old(self).input_nodes@,
            old(self).sealed ==> r == Err::<(), CompError>(CompError::MutateAfterSeal)
                && final(self).path() == old(self).path() && *final(self) == *old(self),
            !old(self).sealed ==> r == Ok::<(), CompError>(()) && final(self).path()
                =~= apply_updates(old(self).path(), updates@),
            // the batch only writes cells: one set entry per update, no
            // thunk body runs, re-evaluation waits for the next demand
            final(self).eng.trace@.len() == old(self).eng.trace@.len() + (if old(self).sealed {
                0int
            } else {
                updates@.len() as int
            }),
            forall|t: int|
                old(self).eng.trace@.len() <= t < final(self).eng.trace@.len() ==> ((
                #[trigger] final(self).eng.trace@[t]) is SetChanged || final(self).eng.trace@[t]
                    is SetNoChange),
    {
        if self.sealed {
            return Err(CompError::MutateAfterSeal);
        }
        let m = updates.len();
        let mut q: usize = 0;
        while q < m
            invariant
                self.inv(),
                !self.sealed,
                m as int == updates@.len(),
                q <= m,
                self.eng.trace@.len() == old(self).eng.trace@.len() + q as int,
                old(self).eng.trace@ == self.eng.trace@.take(old(self).eng.trace@.len() as int),
                forall|t: int|
                    old(self).eng.trace@.len() <= t < self.eng.trace@.len() ==> ((
                    #[trigger] self.eng.trace@[t]) is SetChanged || self.eng.trace@[t]
                        is SetNoChange),
                self.size() == old(self).size(),
                self.table() == old(self).table(),
                self.input_nodes@ == old(self).input_nodes@,
                self.legs@ == old(self).legs@,
                self.w == old(self).w,
                forall|t: int|
                    0 <= t < updates@.len() ==> {
                        let u = #[trigger] updates@[t];
                        (u.0 as int) < self.size() && 0 <= u.1 as int && (u.1 as int) < self.size()
                    },
                self.path() =~= apply_updates(old(self).path(), updates@.take(q as int)),
            decreases m - q,
        {
            let ghost prev = *self;
            let (idx, val) = updates[q];
            self.eng.set(self.input_nodes[idx], val);
            proof {
                Self::lemma_after_set(prev, *self, idx as int, val);
                assert(old(self).eng.trace@ =~= self.eng.trace@.take(
                    old(self).eng.trace@.len() as int,
                ));
                assert forall|t: int|
                    old(self).eng.trace@.len() <= t < self.eng.trace@.len() implies ((
                #[trigger] self.eng.trace@[t]) is SetChanged || self.eng.trace@[t]
                    is SetNoChange) by {
                    if t < prev.eng.trace@.len() {
                        assert(self.eng.trace@[t] == prev.eng.trace@[t]);
                    }
                }
                assert(updates@.take(q as int + 1).drop_last() =~= updates@.take(q as int));
                assert(updates@.take(q as int + 1).last() == updates@[q as int]);
                assert(self.path() =~= apply_updates(
                    old(self).path(),
                    updates@.take(q as int + 1),
                ));
            }
            q += 1;
        }
        proof {
            assert(updates@.take(m as int) =~= updates@);
        }
        Ok(())
    }

    /// A `set` on one position cell updates the tour at that index and
    /// preserves the whole invariant.
    proof fn lemma_after_set(prev: TspComp, cur: TspComp, idx: int, val: i32)
        requires
            prev.inv(),
            0 <= idx < prev.size(),
            0 <= val as int && (val as int) < prev.size(),
            cur.input_nodes@ == prev.input_nodes@,
            cur.legs@ == prev.legs@,
            cur.w == prev.w,
            cur.sealed == prev.sealed,
            cur.res == prev.res,
            cur.eng.wf(),
            cur.eng.bodies@ == prev.eng.bodies@,
            cur.eng.owners@ == prev.eng.owners@,
            cur.eng.vals@ == prev.eng.vals@.update(prev.input_nodes@[idx] as int, Val::I(val))
                || cur.eng.vals@ == prev.eng.vals@,
        ensures
            cur.inv(),
            cur.path() =~= if cur.eng.vals@ == prev.eng.vals@ {
                prev.path()
            } else {
                prev.path().update(idx, val as int)
            },
    {
        let n = prev.size();
        assert forall|k: int| 0 <= k < n implies cur.eng.is_input_cell(
            #[trigger] cur.input_nodes@[k] as int,
        ) by {
            assert(prev.eng.is_input_cell(prev.input_nodes@[k] as int));
        }
        assert forall|k: int| 0 <= k < n implies {
            let v = #[trigger] cur.eng.val_at(cur.input_nodes@[k] as int);
            v is I && 0 <= as_math(v) && as_math(v) < n
        } by {
            assert(prev.eng.is_input_cell(prev.input_nodes@[k] as int));
            assert((prev.input_nodes@[k] as int) < prev.eng.n());
            if cur.eng.vals@ != prev.eng.vals@ {
                if k != idx {
                    assert(cur.input_nodes@[k] != cur.input_nodes@[idx]) by {
                        if k < idx {
                            assert(prev.input_nodes@[k] < prev.input_nodes@[idx]);
                        } else {
                            assert(prev.input_nodes@[idx] < prev.input_nodes@[k]);
                        }
                    }
                    assert(cur.eng.val_at(cur.input_nodes@[k] as int) == prev.eng.val_at(
                        prev.input_nodes@[k] as int,
                    ));
                } else {
                    assert(cur.eng.val_at(cur.input_nodes@[k] as int) == Val::I(val));
                }
            }
        }
        assert forall|k: int| 0 <= k < n implies {
            let lg = #[trigger] cur.legs@[k] as int;
            &&& cur.eng.is_thunk(lg)
            &&& !cur.eng.is_internal_cell(lg)
            &&& (cur.eng.body_at(lg) matches Body::Leg { a, b, w: lw } && a == cur.input_nodes@[k]
                && b == cur.input_nodes@[if k + 1 < n {
                k + 1
            } else {
                0
            }] && lw.deep_view() == cur.table() && lw@.len() == n)
            &&& (cur.input_nodes@[k] as int) < lg
            &&& (cur.input_nodes@[if k + 1 < n {
                k + 1
            } else {
                0
            }] as int) < lg
        } by {
            let lg = prev.legs@[k] as int;
            assert(prev.eng.is_thunk(lg));
            assert(cur.eng.bodies@[lg] == prev.eng.bodies@[lg]);
            assert(cur.eng.owners@[lg] == prev.eng.owners@[lg]);
        }
        Self::lemma_covers_bodies(prev.eng, cur.eng, prev.res as int, prev.legs@);
        assert forall|k: int| 0 <= k < n implies #[trigger] cur.path()[k] == (if cur.eng.vals@
            == prev.eng.vals@ {
            prev.path()[k]
        } else {
            prev.path().update(idx, val as int)[k]
        }) by {
            if cur.eng.vals@ != prev.eng.vals@ && k != idx {
                assert(cur.input_nodes@[k] != cur.input_nodes@[idx]) by {
                    if k < idx {
                        assert(prev.input_nodes@[k] < prev.input_nodes@[idx]);
                    } else {
                        assert(prev.input_nodes@[idx] < prev.input_nodes@[k]);
                    }
                }
            }
        }
    }

    /// Covering depends only on bodies, so it survives value and state
    /// changes.
    pub proof fn lemma_covers_bodies(pre: Engine, post: Engine, id: int, ids: Seq<usize>)
        requires
            covers(pre, id, ids),
            pre.n() <= post.n(),
            forall|j: int| 0 <= j < pre.n() ==> #[trigger] post.bodies@[j] == pre.bodies@[j],
        ensures
            covers(post, id, ids),
        decreases ids.len(),
    {
        if ids.len() > 1 {
            let mid = (ids.len() - 1) as int / 2;
            assert(post.bodies@[id] == pre.bodies@[id]);
            Self::lemma_covers_bodies(
                pre,
                post,
                body_refs(pre.body_at(id))[0] as int,
                ids.take(mid + 1),
            );
            Self::lemma_covers_bodies(
                pre,
                post,
                body_refs(pre.body_at(id))[1] as int,
                ids.skip(mid + 1),
            );
        }
    }

    /// Demand the tour's length: exactly the sum of the weight-table entries
    /// along the current tour.
    pub fn get_result(&mut self) -> (r: i32)
        requires
            old(self).inv(),
        ensures
            final(self).inv(),
            final(self).size() == old(self).size(),
            final(self).table() == old(self).table(),
            final(self).path() == old(self).path(),
            final(self).input_nodes@ == old(self).input_nodes@,
            final(self).sealed == old(self).sealed,
            r as int == tsp_len(old(self).path(), old(self).table()),
            // only thunks with a stale observation may re-run: settled ones
            // keep their record and are never re-executed by this demand
            Engine::settled_nodes_kept(old(self).eng, final(self).eng),
    {
        proof {
            old(self).lemma_root();
        }
        let ghost prev = *self;
        let rr = self.eng.get(self.res);
        proof {
            assert(prev.eng.is_thunk(prev.res as int)) by {
                if prev.legs@.len() == 1 {
                    assert(covers(prev.eng, prev.res as int, prev.legs@));
                    assert(prev.res == prev.legs@[0]);
                    assert(prev.eng.is_thunk(prev.res as int));
                }
            }
            assert(rr is Ok);
            Self::lemma_after_get(prev, *self);
        }
        let v = match rr {
            Ok(v) => v,
            Err(_) => {
                proof {
                    assert(false);
                }
                Val::I(0)
            },
        };
        match v {
            Val::I(x) => {
                proof {
                    assert(as_math(v) == prev.eng.denote(prev.res as int));
                }
                x
            },
            _ => {
                proof {
                    assert(self.eng.clean(self.res as int));
                    assert(self.eng.executed(self.res as int));
                    assert(self.eng.cached_ok(self.res as int));
                    assert(v == self.eng.val_at(self.res as int));
                    if self.legs@.len() > 1 {
                        assert(self.eng.body_at(self.res as int) is Sum);
                        assert(crate::engine::cache_rel(
                            self.eng.body_at(self.res as int),
                            self.eng.edges_at(self.res as int),
                            v,
                        ));
                        assert(false);
                    } else {
                        assert(self.res == self.legs@[0]);
                        assert(self.eng.body_at(self.res as int) is Leg);
                        assert(false);
                    }
                }
                0
            },
        }
    }

    /// A force preserves the whole invariant: it touches no body and no
    /// input cell.
    proof fn lemma_after_get(prev: TspComp, cur: TspComp)
        requires
            prev.inv(),
            cur.input_nodes@ == prev.input_nodes@,
            cur.legs@ == prev.legs@,
            cur.w == prev.w,
            cur.sealed == prev.sealed,
            cur.res == prev.res,
            cur.eng.wf(),
            prev.eng.n() <= cur.eng.n(),
            forall|j: int| 0 <= j < prev.eng.n() ==> #[trigger] cur.eng.bodies@[j] == prev.eng.bodies@[j],
            forall|j: int| 0 <= j < prev.eng.n() ==> #[trigger] cur.eng.owners@[j] == prev.eng.owners@[j],
            forall|j: int| #[trigger] prev.eng.is_input_cell(j) ==> cur.eng.vals@[j] == prev.eng.vals@[j],
        ensures
            cur.inv(),
            cur.path() == prev.path(),
    {
        let n = prev.size();
        assert forall|k: int| 0 <= k < n implies cur.eng.is_input_cell(
            #[trigger] cur.input_nodes@[k] as int,
        ) && cur.eng.val_at(cur.input_nodes@[k] as int) == prev.eng.val_at(
            prev.input_nodes@[k] as int,
        ) by {
            assert(prev.eng.is_input_cell(prev.input_nodes@[k] as int));
            assert(cur.eng.bodies@[prev.input_nodes@[k] as int] == prev.eng.bodies@[
                prev.input_nodes@[k] as int]);
            assert(cur.eng.owners@[prev.input_nodes@[k] as int] == prev.eng.owners@[
                prev.input_nodes@[k] as int]);
        }
        assert forall|k: int| 0 <= k < n implies {
            let lg = #[trigger] cur.legs@[k] as int;
            &&& cur.eng.is_thunk(lg)
            &&& !cur.eng.is_internal_cell(lg)
            &&& (cur.eng.body_at(lg) matches Body::Leg { a, b, w: lw } && a == cur.input_nodes@[k]
                && b == cur.input_nodes@[if k + 1 < n {
                k + 1
            } else {
                0
            }] && lw.deep_view() == cur.table() && lw@.len() == n)
            &&& (cur.input_nodes@[k] as int) < lg
            &&& (cur.input_nodes@[if k + 1 < n {
                k + 1
            } else {
                0
            }] as int) < lg
        } by {
            let lg = prev.legs@[k] as int;
            assert(prev.eng.is_thunk(lg));
            assert(cur.eng.bodies@[lg] == prev.eng.bodies@[lg]);
            assert(cur.eng.owners@[lg] == prev.eng.owners@[lg]);
        }
        Self::lemma_covers_bodies(prev.eng, cur.eng, prev.res as int, prev.legs@);
        assert(cur.path() =~= prev.path());
    }

    /// Seal the graph against further mutation.
    /// Seal the graph against further mutation, close the trace window and
    /// keep its diagnostics.
    pub fn seal(&mut self) -> (r: Result<(), CompError>)
        requires
            old(self).inv(),
        ensures
            final(self).inv(),
            final(self).input_nodes@ == old(self).input_nodes@,
            final(self).path() == old(self).path(),
            final(self).table() == old(self).table(),
            old(self).sealed ==> r == Err::<(), CompError>(CompError::MutateAfterSeal)
                && final(self).sealed && *final(self) == *old(self),
            !old(self).sealed ==> {
                &&& r == Ok::<(), CompError>(())
                &&& final(self).sealed
                &&& final(self).diagnostics is Some
                &&& final(self).diagnostics->Some_0.traces@ == old(self).eng.trace@.subrange(
                    old(self).eng.window_start(),
                    old(self).eng.trace@.len() as int,
                )
                &&& final(self).diagnostics->Some_0.counted()
                &&& final(self).diagnostics->Some_0.cells_count as int == count_upto(
                    final(self).diagnostics->Some_0.traces@,
                    final(self).diagnostics->Some_0.traces@.len() as int,
                    |t: Trace| is_cell_fresh(t),
                )
                &&& final(self).diagnostics->Some_0.thunks_count as int == count_upto(
                    final(self).diagnostics->Some_0.traces@,
                    final(self).diagnostics->Some_0.traces@.len() as int,
                    |t: Trace| is_thunk_fresh(t),
                )
                &&& final(self).eng.trace@ == old(self).eng.trace@
                &&& final(self).eng.window_start() == old(self).eng.trace@.len()
            },
    {
        if self.sealed {
            return Err(CompError::MutateAfterSeal);
        }
        self.sealed = true;
        let ghost pre = *self;
        let traces = self.eng.trace_end();
        let d = Diagnostics::new(traces).analyse();
        self.diagnostics = Some(d);
        proof {
            Self::lemma_after_get(pre, *self);
        }
        Ok(())
    }
}

} // verus!
