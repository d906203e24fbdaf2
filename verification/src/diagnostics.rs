//! Diagnostics over a finished trace window: counts of allocations,
//! re-executions, clean hits, revalidations and sets. A pure fold with no
//! effect on the dependency graph.

use vstd::prelude::*;
use crate::engine::Trace;

verus! {

/// Counts of each kind of runtime action in a trace window.
#[derive(Clone, Copy, Debug, PartialEq, Eq, Structural)]
pub struct TraceCount {
    pub cell_fresh: usize,
    pub cell_reuse: usize,
    pub thunk_fresh: usize,
    pub force_rerun: usize,
    pub force_clean_hit: usize,
    pub clean_revalidate: usize,
    pub set_changed: usize,
    pub set_nochange: usize,
}

/// How many entries of the first `k` satisfy the given selector.
pub open spec fn count_upto(ts: Seq<Trace>, k: int, sel: spec_fn(Trace) -> bool) -> int
    decreases k,
{
    if k <= 0 {
        0
    } else {
        count_upto(ts, k - 1, sel) + if sel(ts[k - 1]) {
            1int
        } else {
            0int
        }
    }
}

pub open spec fn is_cell_fresh(t: Trace) -> bool {
    t matches Trace::AllocCell { id, fresh: true }
}

pub open spec fn is_cell_reuse(t: Trace) -> bool {
    t matches Trace::AllocCell { id, fresh: false }
}

pub open spec fn is_thunk_fresh(t: Trace) -> bool {
    t matches Trace::AllocThunk { id, fresh: true }
}

pub open spec fn is_rerun(t: Trace) -> bool {
    t matches Trace::ForceRerun { id }
}

pub open spec fn is_clean_hit(t: Trace) -> bool {
    t matches Trace::ForceCleanHit { id }
}

pub open spec fn is_revalidate(t: Trace) -> bool {
    t matches Trace::CleanRevalidate { id }
}

pub open spec fn is_set_changed(t: Trace) -> bool {
    t matches Trace::SetChanged { id }
}

pub open spec fn is_set_nochange(t: Trace) -> bool {
    t matches Trace::SetNoChange { id }
}

/// A stretch whose entries all satisfy the selector contributes its length
/// to the count.
pub proof fn lemma_count_all(ts: Seq<Trace>, a: int, b: int, sel: spec_fn(Trace) -> bool)
    requires
        0 <= a <= b <= ts.len(),
        forall|t: int| a <= t < b ==> sel(#[trigger] ts[t]),
    ensures
        count_upto(ts, b, sel) == count_upto(ts, a, sel) + (b - a),
    decreases b - a,
{
    if a < b {
        lemma_count_all(ts, a, b - 1, sel);
    }
}

/// A stretch whose entries all miss the selector contributes nothing.
pub proof fn lemma_count_none(ts: Seq<Trace>, a: int, b: int, sel: spec_fn(Trace) -> bool)
    requires
        0 <= a <= b <= ts.len(),
        forall|t: int| a <= t < b ==> !sel(#[trigger] ts[t]),
    ensures
        count_upto(ts, b, sel) == count_upto(ts, a, sel),
    decreases b - a,
{
    if a < b {
        lemma_count_none(ts, a, b - 1, sel);
    }
}

/// Consumes a finished trace window and reports what happened in it.
pub struct Diagnostics {
    pub traces: Vec<Trace>,
    pub thunks_count: usize,
    pub cells_count: usize,
    pub trace_count: TraceCount,
}

impl Diagnostics {
    pub open spec fn counted(self) -> bool {
        let ts = self.traces@;
        let n = ts.len() as int;
        &&& self.trace_count.cell_fresh as int == count_upto(ts, n, |t: Trace| is_cell_fresh(t))
        &&& self.trace_count.cell_reuse as int == count_upto(ts, n, |t: Trace| is_cell_reuse(t))
        &&& self.trace_count.thunk_fresh as int == count_upto(ts, n, |t: Trace| is_thunk_fresh(t))
        &&& self.trace_count.force_rerun as int == count_upto(ts, n, |t: Trace| is_rerun(t))
        &&& self.trace_count.force_clean_hit as int == count_upto(
            ts,
            n,
            |t: Trace| is_clean_hit(t),
        )
        &&& self.trace_count.clean_revalidate as int == count_upto(
            ts,
            n,
            |t: Trace| is_revalidate(t),
        )
        &&& self.trace_count.set_changed as int == count_upto(ts, n, |t: Trace| is_set_changed(t))
        &&& self.trace_count.set_nochange as int == count_upto(
            ts,
            n,
            |t: Trace| is_set_nochange(t),
        )
    }

    /// Build the per-kind counts from a trace window.
    pub fn new(traces: Vec<Trace>) -> (r: Diagnostics)
        ensures
            r.traces@ == traces@,
            r.counted(),
            r.thunks_count == 0,
            r.cells_count == 0,
    {
        let n = traces.len();
        let mut cf: usize = 0;
        let mut cr: usize = 0;
        let mut tf: usize = 0;
        let mut fr: usize = 0;
        let mut fc: usize = 0;
        let mut rv: usize = 0;
        let mut sc: usize = 0;
        let mut sn: usize = 0;
        let mut k: usize = 0;
        while k < n
            invariant
                k <= n,
                n == traces@.len(),
                cf as int == count_upto(traces@, k as int, |t: Trace| is_cell_fresh(t)),
                cr as int == count_upto(traces@, k as int, |t: Trace| is_cell_reuse(t)),
                tf as int == count_upto(traces@, k as int, |t: Trace| is_thunk_fresh(t)),
                fr as int == count_upto(traces@, k as int, |t: Trace| is_rerun(t)),
                fc as int == count_upto(traces@, k as int, |t: Trace| is_clean_hit(t)),
                rv as int == count_upto(traces@, k as int, |t: Trace| is_revalidate(t)),
                sc as int == count_upto(traces@, k as int, |t: Trace| is_set_changed(t)),
                sn as int == count_upto(traces@, k as int, |t: Trace| is_set_nochange(t)),
                cf <= k && cr <= k && tf <= k && fr <= k && fc <= k && rv <= k && sc <= k && sn
                    <= k,
            decreases n - k,
        {
            match traces[k] {
                Trace::AllocCell { id, fresh } => {
                    if fresh {
                        cf = cf + 1;
                    } else {
                        cr = cr + 1;
                    }
                },
                Trace::AllocThunk { id, fresh } => {
                    if fresh {
                        tf = tf + 1;
                    }
                },
                Trace::ForceRerun { id } => {
                    fr = fr + 1;
                },
                Trace::ForceCleanHit { id } => {
                    fc = fc + 1;
                },
                Trace::CleanRevalidate { id } => {
                    rv = rv + 1;
                },
                Trace::SetChanged { id } => {
                    sc = sc + 1;
                },
                Trace::SetNoChange { id } => {
                    sn = sn + 1;
                },
            }
            k += 1;
        }
        Diagnostics {
            traces,
            thunks_count: 0,
            cells_count: 0,
            trace_count: TraceCount {
                cell_fresh: cf,
                cell_reuse: cr,
                thunk_fresh: tf,
                force_rerun: fr,
                force_clean_hit: fc,
                clean_revalidate: rv,
                set_changed: sc,
                set_nochange: sn,
            },
        }
    }

    /// Derive the fresh-node counts from the window: how many cells and
    /// thunks were allocated at fresh locations.
    pub fn analyse(self) -> (r: Diagnostics)
        ensures
            r.traces@ == self.traces@,
            r.trace_count == self.trace_count,
            r.cells_count as int == count_upto(
                self.traces@,
                self.traces@.len() as int,
                |t: Trace| is_cell_fresh(t),
            ),
            r.thunks_count as int == count_upto(
                self.traces@,
                self.traces@.len() as int,
                |t: Trace| is_thunk_fresh(t),
            ),
    {
        let mut s = self;
        s.trace_nodes_count();
        s
    }

    pub fn get_trace_count(&self) -> (r: &TraceCount)
        ensures
            r == self.trace_count,
    {
        &self.trace_count
    }

    /// Count the fresh cell and thunk allocations in the window.
    fn trace_nodes_count(&mut self)
        ensures
            final(self).traces@ == old(self).traces@,
            final(self).trace_count == old(self).trace_count,
            final(self).cells_count as int == count_upto(
                old(self).traces@,
                old(self).traces@.len() as int,
                |t: Trace| is_cell_fresh(t),
            ),
            final(self).thunks_count as int == count_upto(
                old(self).traces@,
                old(self).traces@.len() as int,
                |t: Trace| is_thunk_fresh(t),
            ),
    {
        let n = self.traces.len();
        let mut cells: usize = 0;
        let mut thunks: usize = 0;
        let mut k: usize = 0;
        while k < n
            invariant
                k <= n,
                n == self.traces@.len(),
                cells as int == count_upto(self.traces@, k as int, |t: Trace| is_cell_fresh(t)),
                thunks as int == count_upto(self.traces@, k as int, |t: Trace| is_thunk_fresh(t)),
                cells <= k && thunks <= k,
                self.traces@ == old(self).traces@,
                self.trace_count == old(self).trace_count,
            decreases n - k,
        {
            match self.traces[k] {
                Trace::AllocCell { id, fresh: true } => {
                    cells = cells + 1;
                },
                Trace::AllocThunk { id, fresh: true } => {
                    thunks = thunks + 1;
                },
                _ => {},
            }
            k += 1;
        }
        self.cells_count = cells;
        self.thunks_count = thunks;
    }
}

} // verus!
