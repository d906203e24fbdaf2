//! The DDG runtime: an arena of cells and thunks, demand-driven forcing with
//! change propagation, dirty propagation on `set`, value-equality cutoff, the
//! firewall pattern (thunks that rebind an output cell), and an append-only
//! trace of runtime actions.
//!
//! Location identity is the arena index: every allocation appends a node, so
//! two runs of the same construction procedure yield the same topology. Thunk
//! bodies are first-order descriptions (`Body`) over the indices of the nodes
//! they read; the engine itself evaluates them, records one observation edge
//! per read, and re-executes a thunk only when an observed value no longer
//! matches. The from-scratch meaning of every node is the specification
//! function `denote`; forcing is proved to agree with it.

use vstd::prelude::*;

verus! {

/// A runtime value: an integer, a boolean (guard results), or the location of
/// another node (what a firewall thunk returns).
#[derive(Clone, Copy, Debug, PartialEq, Eq, Structural)]
pub enum Val {
    I(i32),
    B(bool),
    L(usize),
}

/// The integer a value stands for: booleans count as 0 or 1, locations as 0.
pub open spec fn as_math(v: Val) -> int {
    match v {
        Val::I(x) => x as int,
        Val::B(b) => if b { 1int } else { 0int },
        Val::L(_) => 0int,
    }
}

/// Errors surfaced by the runtime.
#[derive(Clone, Copy, Debug, PartialEq, Eq, Structural)]
pub enum EngineError {
    /// A thunk body demanded its own location.
    CyclicDependency,
    /// A demand on a location that was never allocated.
    UnknownLocation,
    /// A body failed: an index out of range, an arithmetic result outside
    /// `i32`, or a read of the wrong kind of node. The thunk rolls back to
    /// never-evaluated.
    BodyPanic,
}

/// One entry of the runtime trace.
#[derive(Clone, Copy, Debug, PartialEq, Eq, Structural)]
pub enum Trace {
    /// A cell was allocated (`fresh`) or rebound in place.
    AllocCell { id: usize, fresh: bool },
    /// A thunk was allocated.
    AllocThunk { id: usize, fresh: bool },
    /// A force found the thunk clean and returned its cached value.
    ForceCleanHit { id: usize },
    /// A force re-executed the thunk's body.
    ForceRerun { id: usize },
    /// A maybe-dirty thunk was promoted to clean because every observed value
    /// still matched; its body did not run.
    CleanRevalidate { id: usize },
    /// A `set` that changed the cell's value.
    SetChanged { id: usize },
    /// A `set` whose value equalled the stored one: a no-op.
    SetNoChange { id: usize },
}

/// Evaluation state of a thunk.
#[derive(Clone, Copy, Debug, PartialEq, Eq, Structural)]
pub enum St {
    /// Allocated, body never ran (or rolled back after a failure).
    Never,
    /// Cached value consistent with every dependency.
    Clean,
    /// Possibly stale: a transitive input changed since the last run.
    Dirty,
}

/// One observation edge: the node read, and the value seen at the time.
#[derive(Clone, Copy, Debug, PartialEq, Eq, Structural)]
pub struct EdgeRec {
    pub tgt: usize,
    pub obs: Val,
}

/// Largest group size a pairwise-counting body accepts; keeps every
/// intermediate count inside `i32`.
pub const MAX_GROUP: usize = 32768;

/// What a node is. `Input` marks a cell; every other variant is a thunk body,
/// a first-order description of the reads the body makes and the function it
/// computes from them.
#[derive(Debug)]
pub enum Body {
    /// A cell: an input location holding a value, mutable through `set`, or
    /// an internal output cell owned by a firewall thunk.
    Input,
    /// `get(c) == k`, a color guard.
    CellEq { c: usize, k: i32 },
    /// Firewall form of the guard: rebinds an output cell to `get(c) == k`
    /// and returns that cell's location.
    FwCellEq { c: usize, k: i32 },
    /// `get(c) * get(c)`.
    Square { c: usize },
    /// Firewall form of the square.
    FwSquare { c: usize },
    /// Reads one node and returns what it read; with `fw`, the node must be a
    /// firewall thunk and the read goes `force`, then `get` on the returned
    /// cell.
    Read { x: usize, fw: bool },
    /// `w[get(a)][get(b)]`: one leg of a tour, indexing a captured weight
    /// table by two node values.
    Leg { a: usize, b: usize, w: Vec<Vec<i32>> },
    /// The sum of the values of `xs`, booleans counting as 0 or 1.
    Sum { xs: Vec<usize>, fw: bool },
    /// The number of pairs `u < v` whose guards are both true and which are
    /// adjacent in `adj`.
    CountIll { gs: Vec<usize>, fw: bool, adj: Vec<Vec<bool>> },
    /// `2 * get(cnt) * get(ill) - get(cnt)^2`: the score of one color branch.
    BranchScore { cnt: usize, ill: usize },
    /// The whole branch in one body: guards read directly, membership count
    /// and illegal-edge count fused with the score formula.
    Merged { gs: Vec<usize>, fw: bool, adj: Vec<Vec<bool>> },
}

/// The nodes a body reads, in read order.
pub open spec fn body_refs(b: Body) -> Seq<usize> {
    match b {
        Body::Input => seq![],
        Body::CellEq { c, k } => seq![c],
        Body::FwCellEq { c, k } => seq![c],
        Body::Square { c } => seq![c],
        Body::FwSquare { c } => seq![c],
        Body::Read { x, fw } => seq![x],
        Body::Leg { a, b, w } => seq![a, b],
        Body::Sum { xs, fw } => xs@,
        Body::CountIll { gs, fw, adj } => gs@,
        Body::BranchScore { cnt, ill } => seq![cnt, ill],
        Body::Merged { gs, fw, adj } => gs@,
    }
}

/// Whether the body is a firewall thunk: one that rebinds an output cell and
/// returns its location.
pub open spec fn fw_kind(b: Body) -> bool {
    match b {
        Body::FwCellEq { c, k } => true,
        Body::FwSquare { c } => true,
        _ => false,
    }
}

/// Whether the body reads its dependencies through the firewall protocol
/// (force the thunk, then read the returned cell), giving two observation
/// edges per read.
pub open spec fn fw_layout(b: Body) -> bool {
    match b {
        Body::Read { x, fw } => fw,
        Body::Sum { xs, fw } => fw,
        Body::CountIll { gs, fw, adj } => fw,
        Body::Merged { gs, fw, adj } => fw,
        _ => false,
    }
}

/// Sum of the first `k` entries.
pub open spec fn sum_upto(vs: Seq<int>, k: int) -> int
    decreases k,
{
    if k <= 0 {
        0
    } else {
        sum_upto(vs, k - 1) + vs[k - 1]
    }
}

/// How many of the first `k` entries equal 1.
pub open spec fn ones_upto(vs: Seq<int>, k: int) -> int
    decreases k,
{
    if k <= 0 {
        0
    } else {
        ones_upto(vs, k - 1) + if vs[k - 1] == 1 { 1int } else { 0int }
    }
}

/// Pairs `(u, v')` with `u < v' < v`, both entries 1 and adjacent.
pub open spec fn row_upto(vs: Seq<int>, adj: Seq<Seq<bool>>, u: int, v: int) -> int
    decreases v - u,
{
    if v <= u + 1 {
        0
    } else {
        row_upto(vs, adj, u, v - 1) + if vs[u] == 1 && vs[v - 1] == 1 && adj[u][v - 1] {
            1int
        } else {
            0int
        }
    }
}

/// Pairs `(u', v)` with `u' < u` and `u' < v < |vs|`, both entries 1 and
/// adjacent.
pub open spec fn ill_upto(vs: Seq<int>, adj: Seq<Seq<bool>>, u: int) -> int
    decreases u,
{
    if u <= 0 {
        0
    } else {
        ill_upto(vs, adj, u - 1) + row_upto(vs, adj, u - 1, vs.len() as int)
    }
}

/// The number of adjacent pairs both of whose entries are 1.
pub open spec fn ill_pairs(vs: Seq<int>, adj: Seq<Seq<bool>>) -> int {
    ill_upto(vs, adj, vs.len() as int)
}

/// The function a thunk body computes from the integer values it observed,
/// one per read, in read order.
pub open spec fn body_math(b: Body, vs: Seq<int>) -> int {
    match b {
        Body::Input => 0,
        Body::CellEq { c, k } => if vs[0] == k { 1int } else { 0int },
        Body::FwCellEq { c, k } => if vs[0] == k { 1int } else { 0int },
        Body::Square { c } => vs[0] * vs[0],
        Body::FwSquare { c } => vs[0] * vs[0],
        Body::Read { x, fw } => vs[0],
        Body::Leg { a, b, w } => w@[vs[0]]@[vs[1]] as int,
        Body::Sum { xs, fw } => sum_upto(vs, vs.len() as int),
        Body::CountIll { gs, fw, adj } => ill_pairs(vs, adj.deep_view()),
        Body::BranchScore { cnt, ill } => 2 * vs[0] * vs[1] - vs[0] * vs[0],
        Body::Merged { gs, fw, adj } => {
            let c = ones_upto(vs, vs.len() as int);
            let e = ill_pairs(vs, adj.deep_view());
            2 * c * e - c * c
        },
    }
}

pub open spec fn i32_range(x: int) -> bool {
    i32::MIN as int <= x <= i32::MAX as int
}

/// The integers a sequence of runtime values stands for.
pub open spec fn maths_of(vs: Seq<Val>) -> Seq<int> {
    vs.map_values(|v: Val| as_math(v))
}

/// The integers a body observed, extracted from its recorded edges: for a
/// firewall-protocol reader, the value read from each output cell.
pub open spec fn obs_of(b: Body, es: Seq<EdgeRec>) -> Seq<int> {
    if fw_layout(b) {
        Seq::new(body_refs(b).len(), |k: int| as_math(es[2 * k + 1].obs))
    } else {
        Seq::new(body_refs(b).len(), |k: int| as_math(es[k].obs))
    }
}

/// How a non-firewall body's cached value relates to its recorded edges:
/// exactly the value the body computes from what it observed.
pub open spec fn cache_rel(b: Body, es: Seq<EdgeRec>, cv: Val) -> bool {
    let m = body_math(b, obs_of(b, es));
    match b {
        Body::Input => true,
        Body::CellEq { c, k } => cv == Val::B(m == 1),
        Body::FwCellEq { c, k } => false,
        Body::Square { c } => cv is I && as_math(cv) == m,
        Body::FwSquare { c } => false,
        Body::Read { x, fw } => cv == if fw {
            es[1].obs
        } else {
            es[0].obs
        },
        Body::Leg { a, b: bb, w } => {
            &&& cv is I
            &&& 0 <= obs_of(b, es)[0] < w@.len()
            &&& 0 <= obs_of(b, es)[1] < w@[obs_of(b, es)[0]]@.len()
            &&& as_math(cv) == m
        },
        Body::Sum { xs, fw } => cv is I && as_math(cv) == m,
        Body::CountIll { gs, fw, adj } => {
            &&& cv is I
            &&& as_math(cv) == m
            &&& gs@.len() <= MAX_GROUP
            &&& adj@.len() >= gs@.len()
            &&& forall|u: int| 0 <= u < gs@.len() ==> #[trigger] adj@[u]@.len() >= gs@.len()
        },
        Body::BranchScore { cnt, ill } => cv is I && as_math(cv) == m,
        Body::Merged { gs, fw, adj } => {
            &&& cv is I
            &&& as_math(cv) == m
            &&& gs@.len() <= MAX_GROUP
            &&& adj@.len() >= gs@.len()
            &&& forall|u: int| 0 <= u < gs@.len() ==> #[trigger] adj@[u]@.len() >= gs@.len()
        },
    }
}

/// A row count lies between 0 and the number of pairs it ranges over.
pub proof fn lemma_row_bound(vs: Seq<int>, adj: Seq<Seq<bool>>, u: int, v: int)
    ensures
        0 <= row_upto(vs, adj, u, v),
        v > u ==> row_upto(vs, adj, u, v) <= v - u - 1,
        v <= u ==> row_upto(vs, adj, u, v) == 0,
    decreases v - u,
{
    if v > u + 1 {
        lemma_row_bound(vs, adj, u, v - 1);
    }
}

/// The pair count is at most `u` times the sequence length.
pub proof fn lemma_ill_bound(vs: Seq<int>, adj: Seq<Seq<bool>>, u: int)
    ensures
        0 <= ill_upto(vs, adj, u),
        u >= 0 ==> ill_upto(vs, adj, u) <= u * vs.len(),
    decreases u,
{
    if u > 0 {
        lemma_ill_bound(vs, adj, u - 1);
        lemma_row_bound(vs, adj, u - 1, vs.len() as int);
        assert((u - 1) * vs.len() + vs.len() == u * vs.len()) by (nonlinear_arith);
    }
}

/// A count of ones lies between 0 and `k`.
pub proof fn lemma_ones_bound(vs: Seq<int>, k: int)
    ensures
        0 <= ones_upto(vs, k),
        k >= 0 ==> ones_upto(vs, k) <= k,
    decreases k,
{
    if k > 0 {
        lemma_ones_bound(vs, k - 1);
    }
}

/// The integer a value stands for.
fn val_to_i32(v: Val) -> (r: i32)
    ensures
        r as int == as_math(v),
{
    match v {
        Val::I(x) => x,
        Val::B(b) => if b {
            1
        } else {
            0
        },
        Val::L(_) => 0,
    }
}

/// `x * x` when it fits `i32`.
fn square_i32(x: i32) -> (r: Result<i32, EngineError>)
    ensures
        r is Ok <==> i32_range((x as int) * (x as int)),
        r is Ok ==> r->Ok_0 as int == (x as int) * (x as int),
{
    proof {
        assert(0 <= (x as int) * (x as int) <= 0x4000_0000_0000_0000) by (nonlinear_arith)
            requires
                -0x8000_0000 <= x as int <= 0x7FFF_FFFF,
        ;
    }
    let m: i64 = (x as i64) * (x as i64);
    if i32::MIN as i64 <= m && m <= i32::MAX as i64 {
        Ok(m as i32)
    } else {
        Err(EngineError::BodyPanic)
    }
}

/// `2 * c * e - c * c` when it fits `i32`.
fn branch_formula(c: i32, e: i32) -> (r: Result<i32, EngineError>)
    ensures
        r is Ok <==> i32_range(2 * (c as int) * (e as int) - (c as int) * (c as int)),
        r is Ok ==> r->Ok_0 as int == 2 * (c as int) * (e as int) - (c as int) * (c as int),
{
    proof {
        assert(-0x4000_0000_0000_0000 <= (c as int) * (e as int) <= 0x4000_0000_0000_0000
            && 0 <= (c as int) * (c as int) <= 0x4000_0000_0000_0000) by (nonlinear_arith)
            requires
                -0x8000_0000 <= c as int <= 0x7FFF_FFFF,
                -0x8000_0000 <= e as int <= 0x7FFF_FFFF,
        ;
        assert(2 * (c as int) * (e as int) == 2 * ((c as int) * (e as int)))
            by (nonlinear_arith);
    }
    let m: i128 = 2 * (c as i128) * (e as i128) - (c as i128) * (c as i128);
    if i32::MIN as i128 <= m && m <= i32::MAX as i128 {
        Ok(m as i32)
    } else {
        Err(EngineError::BodyPanic)
    }
}

/// The sum of the integers the values stand for, when it fits `i32`.
fn sum_vals(raw: &Vec<Val>) -> (r: Result<i32, EngineError>)
    ensures
        r is Ok <==> i32_range(sum_upto(maths_of(raw@), raw@.len() as int)),
        r is Ok ==> r->Ok_0 as int == sum_upto(maths_of(raw@), raw@.len() as int),
{
    let n = raw.len();
    let mut acc: i128 = 0;
    let mut k: usize = 0;
    while k < n
        invariant
            k <= n,
            n == raw@.len(),
            acc as int == sum_upto(maths_of(raw@), k as int),
            -((k as int) * 0x8000_0000) <= acc as int <= (k as int) * 0x8000_0000,
        decreases n - k,
    {
        let x = val_to_i32(raw[k]);
        proof {
            assert(maths_of(raw@)[k as int] == as_math(raw@[k as int]));
            assert((k as int + 1) * 0x8000_0000 == (k as int) * 0x8000_0000 + 0x8000_0000);
            assert((k as int) * 0x8000_0000 <= 0xFFFF_FFFF_FFFF_FFFFi128 * 0x8000_0000);
        }
        acc = acc + (x as i128);
        k += 1;
    }
    if i32::MIN as i128 <= acc && acc <= i32::MAX as i128 {
        Ok(acc as i32)
    } else {
        Err(EngineError::BodyPanic)
    }
}

/// How many of the values stand for 1.
fn ones_count(raw: &Vec<Val>) -> (r: i32)
    requires
        raw@.len() <= MAX_GROUP,
    ensures
        r as int == ones_upto(maths_of(raw@), raw@.len() as int),
        0 <= r as int <= raw@.len(),
{
    let n = raw.len();
    let mut acc: i32 = 0;
    let mut k: usize = 0;
    while k < n
        invariant
            k <= n,
            n == raw@.len(),
            n <= MAX_GROUP,
            acc as int == ones_upto(maths_of(raw@), k as int),
            0 <= acc as int <= k as int,
        decreases n - k,
    {
        let x = val_to_i32(raw[k]);
        proof {
            assert(maths_of(raw@)[k as int] == as_math(raw@[k as int]));
        }
        if x == 1 {
            acc = acc + 1;
        }
        k += 1;
    }
    acc
}

/// The number of adjacent active pairs, or the reason one run would fail:
/// the group too large or the adjacency matrix too small.
fn count_ill_vals(raw: &Vec<Val>, adj: &Vec<Vec<bool>>) -> (r: Result<i32, EngineError>)
    ensures
        r is Ok <==> (raw@.len() <= MAX_GROUP && adj@.len() >= raw@.len() && (forall|u: int|
            0 <= u < raw@.len() ==> #[trigger] adj@[u]@.len() >= raw@.len())),
        r is Ok ==> r->Ok_0 as int == ill_pairs(maths_of(raw@), adj.deep_view()),
{
    let n = raw.len();
    if n > MAX_GROUP {
        return Err(EngineError::BodyPanic);
    }
    if adj.len() < n {
        return Err(EngineError::BodyPanic);
    }
    let mut u: usize = 0;
    while u < n
        invariant
            u <= n,
            n == raw@.len(),
            adj@.len() >= n,
            forall|q: int| 0 <= q < u as int ==> #[trigger] adj@[q]@.len() >= n,
        decreases n - u,
    {
        if adj[u].len() < n {
            return Err(EngineError::BodyPanic);
        }
        u += 1;
    }
    let ghost vs = maths_of(raw@);
    let ghost aj = adj.deep_view();
    proof {
        assert(vs.len() == n);
        assert forall|q: int| 0 <= q < n as int implies #[trigger] aj[q].len() >= n as int by {
            assert(aj[q] == adj@[q]@);
        }
    }
    let mut count: i32 = 0;
    let mut i: usize = 0;
    while i < n
        invariant
            i <= n,
            n == raw@.len(),
            n <= MAX_GROUP,
            vs == maths_of(raw@),
            aj == adj.deep_view(),
            adj@.len() >= n,
            forall|q: int| 0 <= q < n as int ==> #[trigger] adj@[q]@.len() >= n,
            count as int == ill_upto(vs, aj, i as int),
            0 <= count as int <= (i as int) * (n as int),
            (i as int) * (n as int) <= MAX_GROUP * MAX_GROUP,
        decreases n - i,
    {
        let mut j: usize = i + 1;
        let ghost base = count as int;
        while j < n
            invariant
                i < j || j == i + 1,
                i < n,
                j <= n,
                n == raw@.len(),
                n <= MAX_GROUP,
                vs == maths_of(raw@),
                aj == adj.deep_view(),
                adj@.len() >= n,
                forall|q: int| 0 <= q < n as int ==> #[trigger] adj@[q]@.len() >= n,
                count as int == base + row_upto(vs, aj, i as int, j as int),
                base == ill_upto(vs, aj, i as int),
                0 <= base <= (i as int) * (n as int),
                0 <= count as int <= base + (j as int) - (i as int) - 1 || j == i + 1,
                count as int <= (i as int) * (n as int) + (n as int),
                (i as int) * (n as int) <= MAX_GROUP * MAX_GROUP,
            decreases n - j,
        {
            let xi = val_to_i32(raw[i]);
            let xj = val_to_i32(raw[j]);
            proof {
                assert(vs[i as int] == as_math(raw@[i as int]));
                assert(vs[j as int] == as_math(raw@[j as int]));
                assert(aj[i as int] == adj@[i as int]@);
                lemma_row_bound(vs, aj, i as int, j as int);
                assert((i as int) * (n as int) + (n as int) <= MAX_GROUP * MAX_GROUP + MAX_GROUP);
            }
            if xi == 1 && xj == 1 && adj[i][j] {
                count = count + 1;
            }
            j += 1;
        }
        proof {
            assert(row_upto(vs, aj, i as int, n as int) == count as int - base);
            assert(ill_upto(vs, aj, i as int + 1) == base + row_upto(vs, aj, i as int, n as int));
            lemma_row_bound(vs, aj, i as int, n as int);
            lemma_ill_bound(vs, aj, i as int + 1);
            assert((i as int + 1) * (n as int) == (i as int) * (n as int) + (n as int))
                by (nonlinear_arith);
            assert((i as int + 1) * (n as int) <= MAX_GROUP * MAX_GROUP) by (nonlinear_arith)
                requires
                    0 <= i as int + 1 <= MAX_GROUP,
                    0 <= n as int <= MAX_GROUP,
            ;
        }
        i += 1;
    }
    proof {
        assert(count as int == ill_pairs(vs, aj));
    }
    Ok(count)
}

/// The evaluation context: a contiguous arena of nodes. Parallel vectors hold
/// each node's body, current value (a cell's content or a thunk's cache),
/// state, recorded observation edges, the output cell of a firewall thunk,
/// and, for internal cells, the firewall thunk that owns them. `trace` is the
/// append-only action log; `mark` is where the active trace window begins.
pub struct Engine {
    pub bodies: Vec<Body>,
    pub vals: Vec<Val>,
    pub sts: Vec<St>,
    pub edges: Vec<Vec<EdgeRec>>,
    pub outs: Vec<Option<usize>>,
    pub owners: Vec<Option<usize>>,
    pub trace: Vec<Trace>,
    pub mark: usize,
}

impl Engine {
    /// How many locations have been allocated.
    pub open spec fn n(self) -> int {
        self.bodies@.len() as int
    }

    pub open spec fn body_at(self, i: int) -> Body {
        self.bodies@[i]
    }

    pub open spec fn val_at(self, i: int) -> Val {
        self.vals@[i]
    }

    pub open spec fn st_at(self, i: int) -> St {
        self.sts@[i]
    }

    pub open spec fn edges_at(self, i: int) -> Seq<EdgeRec> {
        self.edges@[i]@
    }

    pub open spec fn out_at(self, i: int) -> Option<usize> {
        self.outs@[i]
    }

    pub open spec fn owner_at(self, i: int) -> Option<usize> {
        self.owners@[i]
    }

    pub open spec fn trace_log(self) -> Seq<Trace> {
        self.trace@
    }

    pub open spec fn window_start(self) -> int {
        self.mark as int
    }

    pub open spec fn is_cell(self, i: int) -> bool {
        0 <= i < self.n() && self.body_at(i) is Input
    }

    pub open spec fn is_thunk(self, i: int) -> bool {
        0 <= i < self.n() && !(self.body_at(i) is Input)
    }

    /// An input cell: allocated by the driver, mutable through `set`.
    pub open spec fn is_input_cell(self, i: int) -> bool {
        self.is_cell(i) && self.owner_at(i) is None
    }

    /// An output cell owned by a firewall thunk; only its owner rebinds it.
    pub open spec fn is_internal_cell(self, i: int) -> bool {
        self.is_cell(i) && self.owner_at(i) is Some
    }

    pub open spec fn executed(self, i: int) -> bool {
        self.is_thunk(i) && self.st_at(i) != St::Never
    }

    pub open spec fn clean(self, i: int) -> bool {
        self.is_thunk(i) && self.st_at(i) == St::Clean
    }

    /// What a body may reference: already-allocated nodes (or, for the sake
    /// of cycle detection, the location about to be allocated), none of them
    /// internal output cells.
    pub open spec fn body_ok(self, b: Body, i: int) -> bool {
        forall|k: int|
            0 <= k < body_refs(b).len() ==> {
                let r = #[trigger] body_refs(b)[k] as int;
                r <= i && r <= self.n() && !self.is_internal_cell(r)
            }
    }

    /// The lengths of the parallel vectors agree.
    pub open spec fn lens_ok(self) -> bool {
        &&& self.vals@.len() == self.bodies@.len()
        &&& self.sts@.len() == self.bodies@.len()
        &&& self.edges@.len() == self.bodies@.len()
        &&& self.outs@.len() == self.bodies@.len()
        &&& self.owners@.len() == self.bodies@.len()
    }

    /// The recorded edges of an executed thunk have the layout its body
    /// dictates: one edge per read in read order, or, for a firewall-protocol
    /// reader, a pair of edges per read (the forced thunk with the location
    /// it returned, then the cell at that location with the value read).
    pub open spec fn edge_layout_ok(self, i: int) -> bool {
        let b = self.body_at(i);
        let es = self.edges_at(i);
        let rs = body_refs(b);
        if fw_layout(b) {
            &&& es.len() == 2 * rs.len()
            &&& forall|k: int|
                0 <= k < rs.len() ==> {
                    &&& (#[trigger] es[2 * k]).tgt == rs[k]
                    &&& self.is_thunk(rs[k] as int)
                    &&& fw_kind(self.body_at(rs[k] as int))
                    &&& es[2 * k].obs == Val::L(es[2 * k + 1].tgt)
                    &&& self.is_internal_cell(es[2 * k + 1].tgt as int)
                    &&& self.owner_at(es[2 * k + 1].tgt as int) == Some(rs[k])
                }
        } else {
            &&& es.len() == rs.len()
            &&& forall|k: int|
                0 <= k < rs.len() ==> {
                    &&& (#[trigger] es[k]).tgt == rs[k]
                    &&& !(self.is_thunk(rs[k] as int) && fw_kind(self.body_at(rs[k] as int)))
                }
        }
    }

    /// The integers an executed thunk observed, one per read: for a
    /// firewall-protocol read, the value read from the output cell.
    pub open spec fn obs_vals(self, i: int) -> Seq<int> {
        obs_of(self.body_at(i), self.edges_at(i))
    }

    /// An executed thunk's cache is the value its body computes from the
    /// recorded observations; a firewall thunk's cache is the location of its
    /// output cell, whose stored value carries the computed result.
    pub open spec fn cached_ok(self, i: int) -> bool {
        let b = self.body_at(i);
        let cv = self.val_at(i);
        let m = body_math(b, self.obs_vals(i));
        match b {
            Body::FwCellEq { c, k } => {
                &&& self.out_at(i) is Some
                &&& cv == Val::L(self.out_at(i)->Some_0)
                &&& self.val_at(self.out_at(i)->Some_0 as int) == Val::B(m == 1)
            },
            Body::FwSquare { c } => {
                &&& self.out_at(i) is Some
                &&& cv == Val::L(self.out_at(i)->Some_0)
                &&& self.val_at(self.out_at(i)->Some_0 as int) is I
                &&& as_math(self.val_at(self.out_at(i)->Some_0 as int)) == m
            },
            _ => cache_rel(b, self.edges_at(i), cv) && self.out_at(i) is None,
        }
    }

    /// The structural core of well-formedness: parallel vectors agree and
    /// every thunk's references are valid. This part survives even in the
    /// middle of dirty propagation.
    pub open spec fn refs_wf(self) -> bool {
        &&& self.lens_ok()
        &&& forall|i: int|
            self.is_thunk(i) ==> {
                &&& #[trigger] self.owner_at(i) is None
                &&& self.body_ok(self.body_at(i), i)
                &&& forall|k: int|
                    0 <= k < body_refs(self.body_at(i)).len()
                        ==> (#[trigger] body_refs(self.body_at(i))[k] as int) < self.n()
            }
    }

    /// The engine's well-formedness invariant: every public operation
    /// preserves it.
    pub open spec fn wf(self) -> bool {
        &&& self.refs_wf()
        &&& self.mark as int <= self.trace@.len()
        // cells carry no thunk state
        &&& forall|i: int|
            self.is_cell(i) ==> {
                &&& #[trigger] self.st_at(i) == St::Clean
                &&& self.edges_at(i).len() == 0
                &&& self.out_at(i) is None
            }
        // an internal cell's owner is a firewall thunk that points back at it
        &&& forall|i: int|
            self.is_internal_cell(i) ==> {
                let g = (#[trigger] self.owner_at(i))->Some_0 as int;
                &&& self.is_thunk(g)
                &&& fw_kind(self.body_at(g))
                &&& self.out_at(g) == Some(i as usize)
            }
        // only firewall thunks have output cells, and those stay theirs
        &&& forall|i: int|
            self.is_thunk(i) && #[trigger] self.out_at(i) is Some ==> {
                let o = self.out_at(i)->Some_0 as int;
                &&& fw_kind(self.body_at(i))
                &&& self.is_internal_cell(o)
                &&& self.owner_at(o) == Some(i as usize)
            }
        // an executed thunk read strictly earlier nodes, and its cache and
        // edges are consistent with one run of its body
        &&& forall|i: int|
            #[trigger] self.executed(i) ==> {
                &&& (forall|k: int|
                    0 <= k < body_refs(self.body_at(i)).len()
                        ==> (#[trigger] body_refs(self.body_at(i))[k] as int) < i)
                &&& self.edge_layout_ok(i)
                &&& self.cached_ok(i)
                &&& (fw_kind(self.body_at(i)) ==> self.out_at(i) is Some)
            }
        // a clean thunk's observations match the current values, and the
        // thunks it reads are clean themselves
        &&& forall|i: int|
            #[trigger] self.clean(i) ==> {
                &&& forall|k: int|
                    0 <= k < self.edges_at(i).len() ==> {
                        let e = #[trigger] self.edges_at(i)[k];
                        0 <= e.tgt < self.n() && e.obs == self.val_at(e.tgt as int)
                    }
                &&& forall|k: int|
                    0 <= k < body_refs(self.body_at(i)).len() && self.is_thunk(
                        #[trigger] body_refs(self.body_at(i))[k] as int,
                    ) ==> self.clean(body_refs(self.body_at(i))[k] as int)
            }
    }

    /// The from-scratch meaning of node `i`: a cell means the value it holds;
    /// a thunk means its body's function applied to the meanings of the nodes
    /// it reads. This is what re-running every body on the current inputs
    /// would produce; forcing is proved to agree with it.
    pub open spec fn denote(self, i: int) -> int
        decreases i, 1int, 0int,
    {
        if 0 <= i < self.n() {
            if self.is_cell(i) {
                as_math(self.val_at(i))
            } else {
                let b = self.body_at(i);
                body_math(b, self.dep_vals(body_refs(b), i))
            }
        } else {
            0
        }
    }

    /// The meanings of a list of nodes, all expected to lie below `i`.
    pub open spec fn dep_vals(self, ids: Seq<usize>, i: int) -> Seq<int>
        decreases i, 0int, ids.len(),
    {
        if ids.len() == 0 {
            Seq::empty()
        } else {
            self.dep_vals(ids.drop_last(), i).push(
                if 0 <= (ids.last() as int) < i {
                    self.denote(ids.last() as int)
                } else {
                    0
                },
            )
        }
    }

    /// Conditions a body's extra data must meet for one run to succeed.
    pub open spec fn body_extra_ok(b: Body, dv: Seq<int>) -> bool {
        match b {
            Body::Leg { a, b: bb, w } => {
                &&& 0 <= dv[0] < w@.len()
                &&& 0 <= dv[1] < w@[dv[0]]@.len()
            },
            Body::CountIll { gs, fw, adj } => {
                &&& gs@.len() <= MAX_GROUP
                &&& adj@.len() >= gs@.len()
                &&& forall|u: int| 0 <= u < gs@.len() ==> #[trigger] adj@[u]@.len() >= gs@.len()
            },
            Body::Merged { gs, fw, adj } => {
                &&& gs@.len() <= MAX_GROUP
                &&& adj@.len() >= gs@.len()
                &&& forall|u: int| 0 <= u < gs@.len() ==> #[trigger] adj@[u]@.len() >= gs@.len()
            },
            _ => true,
        }
    }

    /// When demanding node `i` is owed success: every read reaches an earlier
    /// node of the right kind, every transitive demand succeeds, and every
    /// computed value fits `i32`. Forcing returns `Ok` exactly on these nodes.
    pub open spec fn denote_ok(self, i: int) -> bool
        decreases i, 1int, 0int,
    {
        &&& 0 <= i < self.n()
        &&& (self.is_cell(i) || {
            let b = self.body_at(i);
            let rs = body_refs(b);
            let dv = self.dep_vals(rs, i);
            &&& forall|k: int| 0 <= k < rs.len() ==> 0 <= (#[trigger] rs[k] as int) < i
            &&& self.all_ok(rs, i)
            &&& (if fw_layout(b) {
                forall|k: int|
                    0 <= k < rs.len() ==> self.is_thunk(#[trigger] rs[k] as int) && fw_kind(
                        self.body_at(rs[k] as int),
                    )
            } else {
                forall|k: int|
                    0 <= k < rs.len() ==> !(self.is_thunk(#[trigger] rs[k] as int) && fw_kind(
                        self.body_at(rs[k] as int),
                    ))
            })
            &&& i32_range(body_math(b, dv))
            &&& Self::body_extra_ok(b, dv)
        })
    }

    /// Every node of the list is below `i` and itself owed success.
    pub open spec fn all_ok(self, ids: Seq<usize>, i: int) -> bool
        decreases i, 0int, ids.len(),
    {
        ids.len() == 0 || {
            &&& self.all_ok(ids.drop_last(), i)
            &&& if 0 <= (ids.last() as int) < i {
                self.denote_ok(ids.last() as int)
            } else {
                false
            }
        }
    }

    /// The value a guard's output cell settles to once its owner is brought
    /// up to date.
    pub open spec fn fw_val(self, g: int) -> Val {
        match self.body_at(g) {
            Body::FwCellEq { c, k } => Val::B(self.denote(g) == 1),
            Body::FwSquare { c } => Val::I(self.denote(g) as i32),
            _ => Val::I(0),
        }
    }

    /// The value a thunk's cache settles to once it is brought up to date:
    /// the shape its body produces, carrying its meaning.
    pub open spec fn denote_val(self, i: int) -> Val
        decreases i,
    {
        match self.body_at(i) {
            Body::CellEq { c, k } => Val::B(self.denote(i) == 1),
            Body::FwCellEq { c, k } => Val::L(self.out_at(i)->Some_0),
            Body::FwSquare { c } => Val::L(self.out_at(i)->Some_0),
            Body::Read { x, fw } => if fw {
                self.fw_val(x as int)
            } else if (x as int) < i && self.is_thunk(x as int) && !fw_kind(
                self.body_at(x as int),
            ) {
                self.denote_val(x as int)
            } else if !self.is_thunk(x as int) {
                self.val_at(x as int)
            } else {
                Val::I(0)
            },
            Body::Input => self.val_at(i),
            _ => Val::I(self.denote(i) as i32),
        }
    }

    /// Every observation of an executed thunk still matches what it would
    /// read today: each thunk read matches the value that thunk's cache
    /// settles to, each input-cell read the stored value, each firewall read
    /// the value the guard's output cell settles to. Re-running the body
    /// would reproduce the cache, so change propagation must not re-execute
    /// such a thunk.
    pub open spec fn settled_match(self, j: int) -> bool {
        let b = self.body_at(j);
        let rs = body_refs(b);
        let es = self.edges_at(j);
        &&& self.executed(j)
        &&& forall|k: int|
            0 <= k < rs.len() ==> {
                let d = #[trigger] rs[k] as int;
                if fw_layout(b) {
                    es[2 * k + 1].obs == self.fw_val(d)
                } else if self.is_thunk(d) {
                    es[k].obs == self.denote_val(d)
                } else {
                    es[k].obs == self.val_at(d)
                }
            }
    }

    /// One recorded observation matches what that read settles to.
    pub open spec fn edge_settled(self, j: int, kk: int) -> bool {
        let b = self.body_at(j);
        let rs = body_refs(b);
        let es = self.edges_at(j);
        if fw_layout(b) {
            kk % 2 == 1 ==> es[kk].obs == self.fw_val(rs[kk / 2] as int)
        } else {
            if self.is_thunk(rs[kk] as int) {
                es[kk].obs == self.denote_val(rs[kk] as int)
            } else {
                es[kk].obs == self.val_at(rs[kk] as int)
            }
        }
    }

    /// Per-edge settledness over the whole record is exactly `settled_match`.
    proof fn lemma_edges_settled(self, j: int)
        requires
            self.executed(j),
            self.edge_layout_ok(j),
            forall|kk: int|
                0 <= kk < self.edges_at(j).len() ==> #[trigger] self.edge_settled(j, kk),
        ensures
            self.settled_match(j),
    {
        let b = self.body_at(j);
        let rs = body_refs(b);
        assert forall|k: int| 0 <= k < rs.len() implies {
            let d = #[trigger] rs[k] as int;
            if fw_layout(b) {
                self.edges_at(j)[2 * k + 1].obs == self.fw_val(d)
            } else if self.is_thunk(d) {
                self.edges_at(j)[k].obs == self.denote_val(d)
            } else {
                self.edges_at(j)[k].obs == self.val_at(d)
            }
        } by {
            if fw_layout(b) {
                assert(self.edge_settled(j, 2 * k + 1));
                assert((2 * k + 1) % 2 == 1);
                assert((2 * k + 1) / 2 == k);
            } else {
                assert(self.edge_settled(j, k));
            }
        }
    }

    /// A clean thunk is settled: its observations are the current values,
    /// and the nodes it read are clean in turn.
    pub proof fn lemma_clean_settled(self, i: int)
        requires
            self.wf(),
            self.clean(i),
        ensures
            self.settled_match(i),
        decreases i,
    {
        let b = self.body_at(i);
        let rs = body_refs(b);
        let es = self.edges_at(i);
        assert(self.executed(i));
        assert(self.edge_layout_ok(i));
        assert forall|k: int| 0 <= k < rs.len() implies {
            let d = #[trigger] rs[k] as int;
            if fw_layout(b) {
                es[2 * k + 1].obs == self.fw_val(d)
            } else if self.is_thunk(d) {
                es[k].obs == self.denote_val(d)
            } else {
                es[k].obs == self.val_at(d)
            }
        } by {
            let d = rs[k] as int;
            assert((rs[k] as int) < i);
            if fw_layout(b) {
                assert(self.is_thunk(d) && fw_kind(self.body_at(d)));
                assert(self.clean(d));
                self.lemma_clean_denote(d);
                let e0 = es[2 * k];
                let e1 = es[2 * k + 1];
                assert(e0.obs == self.val_at(d));
                assert(self.val_at(d) == Val::L(self.out_at(d)->Some_0));
                assert(e0.obs == Val::L(e1.tgt));
                assert(e1.tgt as int == self.out_at(d)->Some_0 as int);
                assert(e1.obs == self.val_at(e1.tgt as int));
                assert(self.val_at(self.out_at(d)->Some_0 as int) == self.fw_val(d));
            } else {
                assert(es[k].obs == self.val_at(d));
                if self.is_thunk(d) {
                    assert(self.clean(d));
                    self.lemma_clean_denote(d);
                    assert(self.val_at(d) == self.denote_val(d));
                }
            }
        }
    }

    /// `fw_val` is untouched by anything a force or set of other cells does.
    proof fn lemma_fw_val_frame(pre: Engine, post: Engine, g: int)
        requires
            pre.wf(),
            pre.n() <= post.n(),
            forall|j: int| 0 <= j < pre.n() ==> #[trigger] post.bodies@[j] == pre.bodies@[j],
            forall|j: int| 0 <= j < pre.n() ==> #[trigger] post.owners@[j] == pre.owners@[j],
            forall|j: int| #[trigger] pre.is_input_cell(j) ==> post.vals@[j] == pre.vals@[j],
            0 <= g < pre.n(),
            !pre.is_internal_cell(g),
        ensures
            post.fw_val(g) == pre.fw_val(g),
    {
        Self::lemma_denote_frame(pre, post, g);
        assert(post.bodies@[g] == pre.bodies@[g]);
    }

    /// `denote_val` of a non-firewall thunk is untouched by anything a force
    /// or set of other cells does.
    proof fn lemma_denote_val_frame(pre: Engine, post: Engine, d: int)
        requires
            pre.wf(),
            pre.n() <= post.n(),
            forall|j: int| 0 <= j < pre.n() ==> #[trigger] post.bodies@[j] == pre.bodies@[j],
            forall|j: int| 0 <= j < pre.n() ==> #[trigger] post.owners@[j] == pre.owners@[j],
            forall|j: int| #[trigger] pre.is_input_cell(j) ==> post.vals@[j] == pre.vals@[j],
            0 <= d < pre.n(),
            !pre.is_internal_cell(d),
            pre.is_thunk(d) ==> !fw_kind(pre.body_at(d)),
        ensures
            post.denote_val(d) == pre.denote_val(d),
        decreases d,
    {
        assert(post.bodies@[d] == pre.bodies@[d]);
        assert(post.owners@[d] == pre.owners@[d]);
        if pre.is_thunk(d) {
            Self::lemma_denote_frame(pre, post, d);
            match pre.body_at(d) {
                Body::Read { x, fw } => {
                    assert(pre.owner_at(d) is None);
                    assert(pre.body_ok(pre.body_at(d), d));
                    assert(body_refs(pre.body_at(d))[0] == x);
                    assert((x as int) <= d && !pre.is_internal_cell(x as int));
                    assert((body_refs(pre.body_at(d))[0] as int) < pre.n());
                    if fw {
                        Self::lemma_fw_val_frame(pre, post, x as int);
                    } else {
                        assert(post.bodies@[x as int] == pre.bodies@[x as int]);
                        assert(post.is_thunk(x as int) == pre.is_thunk(x as int));
                        if (x as int) < d && pre.is_thunk(x as int) && !fw_kind(
                            pre.body_at(x as int),
                        ) {
                            Self::lemma_denote_val_frame(pre, post, x as int);
                        } else {
                            assert(pre.is_input_cell(x as int) || pre.is_thunk(x as int));
                            if !pre.is_thunk(x as int) {
                                assert(post.vals@[x as int] == pre.vals@[x as int]);
                            }
                        }
                    }
                },
                _ => {},
            }
        } else {
            assert(pre.is_input_cell(d));
            assert(post.vals@[d] == pre.vals@[d]);
        }
    }

    /// Settledness is a property of bodies, owners, input-cell values and
    /// the thunk's own record: anything a force may do leaves it as it was.
    proof fn lemma_settled_match_frame(pre: Engine, post: Engine, j: int)
        requires
            pre.wf(),
            pre.executed(j),
            post.executed(j),
            pre.n() <= post.n(),
            forall|q: int| 0 <= q < pre.n() ==> #[trigger] post.bodies@[q] == pre.bodies@[q],
            forall|q: int| 0 <= q < pre.n() ==> #[trigger] post.owners@[q] == pre.owners@[q],
            forall|q: int| #[trigger] pre.is_input_cell(q) ==> post.vals@[q] == pre.vals@[q],
            post.edges_at(j) == pre.edges_at(j),
        ensures
            post.settled_match(j) == pre.settled_match(j),
    {
        let b = pre.body_at(j);
        let rs = body_refs(b);
        let es = pre.edges_at(j);
        assert(pre.edge_layout_ok(j));
        assert(pre.owner_at(j) is None);
        assert(pre.body_ok(b, j));
        assert(post.body_at(j) == b);
        assert forall|k: int| 0 <= k < rs.len() implies {
            let d = #[trigger] rs[k] as int;
            if fw_layout(b) {
                post.fw_val(d) == pre.fw_val(d)
            } else if pre.is_thunk(d) {
                post.is_thunk(d) && post.denote_val(d) == pre.denote_val(d)
            } else {
                !post.is_thunk(d) && post.val_at(d) == pre.val_at(d)
            }
        } by {
            let d = rs[k] as int;
            assert(d <= j && d <= pre.n() && !pre.is_internal_cell(d));
            assert((rs[k] as int) < pre.n());
            assert(post.bodies@[d] == pre.bodies@[d]);
            if fw_layout(b) {
                assert((#[trigger] es[2 * k]).tgt == rs[k]);
                assert(pre.is_thunk(d) && fw_kind(pre.body_at(d)));
                Self::lemma_fw_val_frame(pre, post, d);
            } else {
                assert((#[trigger] es[k]).tgt == rs[k]);
                assert(!(pre.is_thunk(d) && fw_kind(pre.body_at(d))));
                if pre.is_thunk(d) {
                    Self::lemma_denote_val_frame(pre, post, d);
                } else {
                    assert(pre.is_input_cell(d));
                }
            }
        }
    }

    /// Every executed thunk whose observations still settle keeps its whole
    /// record, stays settled, and is never re-executed in the window. This
    /// is change-propagation minimality, one thunk at a time.
    #[verifier::opaque]
    pub open spec fn settled_nodes_kept(pre: Engine, post: Engine) -> bool {
        forall|j: int|
            pre.executed(j) && #[trigger] pre.settled_match(j) ==> {
                &&& post.executed(j)
                &&& post.edges_at(j) == pre.edges_at(j)
                &&& post.val_at(j) == pre.val_at(j)
                &&& post.out_at(j) == pre.out_at(j)
                &&& post.settled_match(j)
                &&& Self::no_rerun_of(pre, post, j)
            }
    }

    /// One step that leaves every settled node's record in place and records
    /// none of their re-executions keeps them settled.
    proof fn lemma_settled_kept_step(pre: Engine, post: Engine)
        requires
            pre.wf(),
            pre.n() <= post.n(),
            forall|q: int| 0 <= q < pre.n() ==> #[trigger] post.bodies@[q] == pre.bodies@[q],
            forall|q: int| 0 <= q < pre.n() ==> #[trigger] post.owners@[q] == pre.owners@[q],
            forall|q: int| #[trigger] pre.is_input_cell(q) ==> post.vals@[q] == pre.vals@[q],
            forall|j: int|
                pre.executed(j) && #[trigger] pre.settled_match(j) ==> post.executed(j)
                    && post.edges_at(j) == pre.edges_at(j) && post.val_at(j) == pre.val_at(j)
                    && post.out_at(j) == pre.out_at(j),
            forall|j: int|
                pre.executed(j) && #[trigger] pre.settled_match(j) ==> Self::no_rerun_of(
                    pre,
                    post,
                    j,
                ),
        ensures
            Self::settled_nodes_kept(pre, post),
    {
        reveal(Engine::settled_nodes_kept);
        assert forall|j: int| pre.executed(j) && #[trigger] pre.settled_match(j) implies {
            &&& post.executed(j)
            &&& post.edges_at(j) == pre.edges_at(j)
            &&& post.val_at(j) == pre.val_at(j)
            &&& post.out_at(j) == pre.out_at(j)
            &&& post.settled_match(j)
            &&& Self::no_rerun_of(pre, post, j)
        } by {
            Self::lemma_settled_match_frame(pre, post, j);
        }
    }

    /// An unchanged engine keeps its settled nodes.
    pub proof fn lemma_settled_kept_refl(pre: Engine, post: Engine)
        requires
            post == pre,
        ensures
            Self::settled_nodes_kept(pre, post),
    {
        reveal(Engine::settled_nodes_kept);
    }

    /// What a kept window promises of one node: the public reading of
    /// `settled_nodes_kept`.
    pub proof fn lemma_settled_kept_unfold(pre: Engine, post: Engine, j: int)
        requires
            Self::settled_nodes_kept(pre, post),
            pre.executed(j),
            pre.settled_match(j),
        ensures
            post.executed(j),
            post.edges_at(j) == pre.edges_at(j),
            post.val_at(j) == pre.val_at(j),
            post.out_at(j) == pre.out_at(j),
            post.settled_match(j),
            Self::no_rerun_of(pre, post, j),
    {
        reveal(Engine::settled_nodes_kept);
    }

    /// Kept windows chain.
    proof fn lemma_settled_kept_trans(a: Engine, b: Engine, c: Engine)
        requires
            Self::settled_nodes_kept(a, b),
            Self::settled_nodes_kept(b, c),
            a.trace@.len() <= b.trace@.len(),
            b.trace@.is_prefix_of(c.trace@),
        ensures
            Self::settled_nodes_kept(a, c),
    {
        reveal(Engine::settled_nodes_kept);
        assert forall|j: int| a.executed(j) && #[trigger] a.settled_match(j) implies {
            &&& c.executed(j)
            &&& c.edges_at(j) == a.edges_at(j)
            &&& c.val_at(j) == a.val_at(j)
            &&& c.out_at(j) == a.out_at(j)
            &&& c.settled_match(j)
            &&& Self::no_rerun_of(a, c, j)
        } by {
            assert(b.executed(j) && b.settled_match(j));
            assert forall|t: int|
                a.trace@.len() <= t < c.trace@.len() implies (#[trigger] c.trace@[t])
                != (Trace::ForceRerun { id: j as usize }) by {
                if t < b.trace@.len() {
                    assert(c.trace@[t] == b.trace@.subrange(0, b.trace@.len() as int)[t] || true);
                    assert(b.trace@.is_prefix_of(c.trace@));
                    assert(c.trace@.subrange(0, b.trace@.len() as int) == b.trace@);
                    assert(c.trace@[t] == b.trace@[t]);
                }
            }
        }
    }

    /// Every re-execution the window records names a node at most `m`.
    pub open spec fn reruns_at_most(pre: Engine, post: Engine, m: int) -> bool {
        forall|t: int|
            pre.trace@.len() <= t < post.trace@.len() ==> ((#[trigger] post.trace@[t]) matches
                Trace::ForceRerun { id } ==> id as int <= m)
    }

    /// The window records no re-execution of node `i`.
    pub open spec fn no_rerun_of(pre: Engine, post: Engine, i: int) -> bool {
        forall|t: int|
            pre.trace@.len() <= t < post.trace@.len() ==> (#[trigger] post.trace@[t])
                != (Trace::ForceRerun { id: i as usize })
    }

    /// The window holds only allocation entries: nothing ran and nothing
    /// was written.
    pub open spec fn alloc_only(pre: Engine, post: Engine) -> bool {
        &&& pre.trace@.len() <= post.trace@.len()
        &&& pre.trace@ == post.trace@.take(pre.trace@.len() as int)
        &&& forall|t: int|
            pre.trace@.len() <= t < post.trace@.len() ==> ((#[trigger] post.trace@[t])
                is AllocCell || post.trace@[t] is AllocThunk)
    }

    /// The window records no force activity: no thunk body ran, no cache was
    /// revalidated or returned.
    pub open spec fn no_force_entries(pre: Engine, post: Engine) -> bool {
        forall|t: int|
            pre.trace@.len() <= t < post.trace@.len() ==> !((#[trigger] post.trace@[t])
                is ForceRerun || post.trace@[t] is ForceCleanHit || post.trace@[t]
                is CleanRevalidate)
    }

    /// The window holds exactly `k` fresh thunk allocations and nothing
    /// else: construction allocates, runs nothing, writes nothing.
    pub open spec fn fresh_thunk_allocs(pre: Engine, post: Engine, k: int) -> bool {
        &&& post.trace@.len() == pre.trace@.len() + k
        &&& pre.trace@ == post.trace@.take(pre.trace@.len() as int)
        &&& forall|t: int|
            pre.trace@.len() <= t < post.trace@.len() ==> ((#[trigger] post.trace@[t]) matches
                Trace::AllocThunk { id, fresh } && fresh)
    }

    /// The window holds exactly `k` fresh cell allocations and nothing else.
    pub open spec fn fresh_cell_allocs(pre: Engine, post: Engine, k: int) -> bool {
        &&& post.trace@.len() == pre.trace@.len() + k
        &&& pre.trace@ == post.trace@.take(pre.trace@.len() as int)
        &&& forall|t: int|
            pre.trace@.len() <= t < post.trace@.len() ==> ((#[trigger] post.trace@[t]) matches
                Trace::AllocCell { id, fresh } && fresh)
    }

    /// A single appended fresh cell allocation.
    pub proof fn lemma_fresh_cells_step(pre: Engine, post: Engine, id: usize)
        requires
            post.trace@ == pre.trace@.push(Trace::AllocCell { id, fresh: true }),
        ensures
            Self::fresh_cell_allocs(pre, post, 1),
    {
        assert(pre.trace@ =~= post.trace@.take(pre.trace@.len() as int));
    }

    /// Cell-allocation windows chain.
    pub proof fn lemma_fresh_cells_trans(a: Engine, b: Engine, c: Engine, k1: int, k2: int)
        requires
            Self::fresh_cell_allocs(a, b, k1),
            Self::fresh_cell_allocs(b, c, k2),
            0 <= k1,
            0 <= k2,
        ensures
            Self::fresh_cell_allocs(a, c, k1 + k2),
    {
        assert(a.trace@ =~= c.trace@.take(a.trace@.len() as int)) by {
            assert forall|t: int| 0 <= t < a.trace@.len() implies #[trigger] c.trace@[t]
                == a.trace@[t] by {
                assert(b.trace@.take(a.trace@.len() as int)[t] == b.trace@[t]);
                assert(b.trace@[t] == a.trace@[t]);
                assert(c.trace@.take(b.trace@.len() as int)[t] == c.trace@[t]);
                assert(c.trace@[t] == b.trace@[t]);
            }
        }
        assert forall|t: int| a.trace@.len() <= t < c.trace@.len() implies ((
        #[trigger] c.trace@[t]) matches Trace::AllocCell { id, fresh } && fresh) by {
            if t < b.trace@.len() {
                assert(c.trace@.take(b.trace@.len() as int)[t] == c.trace@[t]);
                assert(c.trace@[t] == b.trace@[t]);
            }
        }
    }

    /// A single appended fresh thunk allocation.
    pub proof fn lemma_fresh_thunks_step(pre: Engine, post: Engine, id: usize)
        requires
            post.trace@ == pre.trace@.push(Trace::AllocThunk { id, fresh: true }),
        ensures
            Self::fresh_thunk_allocs(pre, post, 1),
            Self::alloc_only(pre, post),
    {
        assert(pre.trace@ =~= post.trace@.take(pre.trace@.len() as int));
    }

    /// An unchanged trace is an empty allocation window.
    pub proof fn lemma_fresh_thunks_refl(pre: Engine, post: Engine)
        requires
            post.trace@ == pre.trace@,
        ensures
            Self::fresh_thunk_allocs(pre, post, 0),
    {
        assert(pre.trace@ =~= post.trace@.take(pre.trace@.len() as int));
    }

    /// Allocation windows chain, adding their counts.
    pub proof fn lemma_fresh_thunks_trans(a: Engine, b: Engine, c: Engine, k1: int, k2: int)
        requires
            Self::fresh_thunk_allocs(a, b, k1),
            Self::fresh_thunk_allocs(b, c, k2),
            0 <= k1,
            0 <= k2,
        ensures
            Self::fresh_thunk_allocs(a, c, k1 + k2),
    {
        assert(a.trace@ =~= c.trace@.take(a.trace@.len() as int)) by {
            assert forall|t: int| 0 <= t < a.trace@.len() implies #[trigger] c.trace@[t]
                == a.trace@[t] by {
                assert(b.trace@.take(a.trace@.len() as int)[t] == b.trace@[t]);
                assert(b.trace@[t] == a.trace@[t]);
                assert(c.trace@.take(b.trace@.len() as int)[t] == c.trace@[t]);
                assert(c.trace@[t] == b.trace@[t]);
            }
        }
        assert forall|t: int| a.trace@.len() <= t < c.trace@.len() implies ((
        #[trigger] c.trace@[t]) matches Trace::AllocThunk { id, fresh } && fresh) by {
            if t < b.trace@.len() {
                assert(c.trace@.take(b.trace@.len() as int)[t] == c.trace@[t]);
                assert(c.trace@[t] == b.trace@[t]);
            }
        }
    }

    /// Chaining two trace windows.
    proof fn lemma_reruns_chain(a: Engine, b: Engine, c: Engine, m1: int, m2: int, m: int)
        requires
            a.trace@.len() <= b.trace@.len(),
            b.trace@.is_prefix_of(c.trace@),
            Self::reruns_at_most(a, b, m1),
            Self::reruns_at_most(b, c, m2),
            m1 <= m,
            m2 <= m,
        ensures
            Self::reruns_at_most(a, c, m),
    {
        assert forall|t: int|
            a.trace@.len() <= t < c.trace@.len() implies ((#[trigger] c.trace@[t]) matches
            Trace::ForceRerun { id } ==> id as int <= m) by {
            if t < b.trace@.len() {
                assert(c.trace@[t] == b.trace@[t]);
            }
        }
    }

    /// Firewall dominance: a consumer reading through firewall thunks is
    /// settled as soon as every output value it observed equals what the
    /// guard computes today, whatever happened to the guards' inputs. A
    /// demand on such a consumer revalidates it without running its body.
    pub proof fn lemma_firewall_dominance(s: Engine, j: int)
        requires
            s.wf(),
            s.executed(j),
            fw_layout(s.body_at(j)),
            forall|k: int|
                0 <= k < body_refs(s.body_at(j)).len() ==> s.edges_at(j)[2 * k + 1].obs
                    == s.fw_val(#[trigger] body_refs(s.body_at(j))[k] as int),
        ensures
            s.settled_match(j),
    {
    }

    /// What a force of node `i` may touch, besides appending to the trace:
    /// the states, caches and edges of thunks up to `i`, the output cells of
    /// non-clean firewall thunks up to `i`, and fresh output cells at the end
    /// of the arena. Bodies, input cells, clean thunks and everything above
    /// `i` are untouched.
    /// Node `j` kept its value, state, edges and output cell.
    pub open spec fn node_unchanged(pre: Engine, post: Engine, j: int) -> bool {
        &&& post.vals@[j] == pre.vals@[j]
        &&& post.sts@[j] == pre.sts@[j]
        &&& post.edges@[j] == pre.edges@[j]
        &&& post.outs@[j] == pre.outs@[j]
    }

    pub open spec fn frame(pre: Engine, post: Engine, i: int) -> bool {
        &&& pre.n() <= post.n()
        &&& forall|j: int| 0 <= j < pre.n() ==> #[trigger] post.bodies@[j] == pre.bodies@[j]
        &&& forall|j: int| 0 <= j < pre.n() ==> #[trigger] post.owners@[j] == pre.owners@[j]
        &&& forall|j: int| pre.n() <= j < post.n() ==> #[trigger] post.is_internal_cell(j)
        &&& forall|j: int| #[trigger] pre.is_input_cell(j) ==> post.vals@[j] == pre.vals@[j]
        &&& forall|j: int|
            pre.is_thunk(j) && j > i ==> #[trigger] Self::node_unchanged(pre, post, j)
        &&& forall|j: int|
            pre.is_thunk(j) && #[trigger] pre.out_at(j) is Some ==> post.outs@[j] == pre.outs@[j]
        &&& forall|j: int|
            #[trigger] pre.is_internal_cell(j) && ((pre.owner_at(j)->Some_0 as int) > i
                || pre.clean(pre.owner_at(j)->Some_0 as int)) ==> post.vals@[j] == pre.vals@[j]
        &&& forall|j: int|
            #[trigger] pre.clean(j) ==> Self::node_unchanged(pre, post, j)
        &&& pre.trace@.is_prefix_of(post.trace@)
        &&& post.mark == pre.mark
    }

    /// The frame relation is reflexive.
    pub proof fn lemma_frame_refl(a: Engine, i: int)
        ensures
            Self::frame(a, a, i),
    {
        assert(a.trace@.is_prefix_of(a.trace@)) by {
            assert(a.trace@ =~= a.trace@.subrange(0, a.trace@.len() as int));
        }
    }

    /// The frame relation weakens as its level rises.
    pub proof fn lemma_frame_mono(pre: Engine, post: Engine, d: int, i: int)
        requires
            Self::frame(pre, post, d),
            d <= i,
        ensures
            Self::frame(pre, post, i),
    {
        assert forall|j: int| pre.is_thunk(j) && j > i implies #[trigger] Self::node_unchanged(
            pre,
            post,
            j,
        ) by {
            assert(j > d);
        }
        assert forall|j: int|
            #[trigger] pre.is_internal_cell(j) && ((pre.owner_at(j)->Some_0 as int) > i
                || pre.clean(pre.owner_at(j)->Some_0 as int)) implies post.vals@[j]
            == pre.vals@[j] by {
            let g = pre.owner_at(j)->Some_0 as int;
            assert(g > d || pre.clean(g));
        }
    }

    /// Two frames at one level compose.
    pub proof fn lemma_frame_trans(a: Engine, b: Engine, c: Engine, i: int)
        requires
            a.lens_ok(),
            b.lens_ok(),
            Self::frame(a, b, i),
            Self::frame(b, c, i),
        ensures
            Self::frame(a, c, i),
    {
        assert forall|j: int| a.is_thunk(j) && j > i implies #[trigger] Self::node_unchanged(
            a,
            c,
            j,
        ) by {
            assert(Self::node_unchanged(a, b, j));
            assert(b.bodies@[j] == a.bodies@[j]);
            assert(b.is_thunk(j));
            assert(Self::node_unchanged(b, c, j));
        }
        assert forall|j: int| a.is_thunk(j) && #[trigger] a.out_at(j) is Some implies c.outs@[j]
            == a.outs@[j] by {
            assert(b.is_thunk(j) && b.out_at(j) is Some);
        }
        assert forall|j: int|
            #[trigger] a.is_internal_cell(j) && ((a.owner_at(j)->Some_0 as int) > i || a.clean(
                a.owner_at(j)->Some_0 as int,
            )) implies c.vals@[j] == a.vals@[j] by {
            let g = a.owner_at(j)->Some_0 as int;
            assert(b.is_internal_cell(j));
            if g > i {
                assert(b.vals@[j] == a.vals@[j]);
            } else {
                assert(a.clean(g));
                assert(b.sts@[g] == a.sts@[g] && b.vals@[g] == a.vals@[g]);
                assert(b.clean(g));
                assert(b.vals@[j] == a.vals@[j]);
            }
        }
        assert forall|j: int| #[trigger] a.clean(j) implies Self::node_unchanged(a, c, j) by {
            assert(Self::node_unchanged(a, b, j));
            assert(b.bodies@[j] == a.bodies@[j]);
            assert(b.clean(j));
            assert(Self::node_unchanged(b, c, j));
        }
        assert forall|j: int| #[trigger] a.is_input_cell(j) implies c.vals@[j] == a.vals@[j] by {
            assert(b.is_input_cell(j));
        }
        assert forall|j: int| a.n() <= j < c.n() implies #[trigger] c.is_internal_cell(j) by {
            if j < b.n() {
                assert(b.is_internal_cell(j));
                assert(c.bodies@[j] == b.bodies@[j] && c.owners@[j] == b.owners@[j]);
            }
        }
        assert(a.trace@.is_prefix_of(c.trace@)) by {
            assert(a.trace@ =~= c.trace@.subrange(0, a.trace@.len() as int));
        }
    }

    /// Meanings are untouched by anything the frame allows: they depend only
    /// on bodies and input-cell values.
    pub proof fn lemma_denote_frame(pre: Engine, post: Engine, i: int)
        requires
            pre.wf(),
            pre.n() <= post.n(),
            forall|j: int| 0 <= j < pre.n() ==> #[trigger] post.bodies@[j] == pre.bodies@[j],
            forall|j: int| 0 <= j < pre.n() ==> #[trigger] post.owners@[j] == pre.owners@[j],
            forall|j: int| #[trigger] pre.is_input_cell(j) ==> post.vals@[j] == pre.vals@[j],
            0 <= i < pre.n(),
            !pre.is_internal_cell(i),
        ensures
            post.denote(i) == pre.denote(i),
            post.denote_ok(i) == pre.denote_ok(i),
        decreases i, 1int, 0int,
    {
        if pre.is_cell(i) {
            assert(post.is_cell(i));
            assert(pre.is_input_cell(i));
            assert(post.vals@[i] == pre.vals@[i]);
        } else {
            assert(pre.is_thunk(i));
            assert(post.is_thunk(i));
            let b = pre.body_at(i);
            let rs = body_refs(b);
            assert(pre.body_ok(b, i));
            Self::lemma_dep_vals_frame(pre, post, rs, i);
            assert(post.dep_vals(rs, i) =~= pre.dep_vals(rs, i));
            assert forall|k: int| 0 <= k < rs.len() implies {
                &&& post.is_thunk(#[trigger] rs[k] as int) == pre.is_thunk(rs[k] as int)
                &&& (0 <= (rs[k] as int) && (rs[k] as int) < pre.n() ==> post.body_at(
                    rs[k] as int,
                ) == pre.body_at(rs[k] as int))
            } by {
                let r = rs[k] as int;
                assert(r <= i && r <= pre.n() && !pre.is_internal_cell(r));
            }
        }
    }

    /// Companion to `lemma_denote_frame` for lists of reads.
    proof fn lemma_dep_vals_frame(pre: Engine, post: Engine, ids: Seq<usize>, i: int)
        requires
            pre.wf(),
            pre.n() <= post.n(),
            forall|j: int| 0 <= j < pre.n() ==> #[trigger] post.bodies@[j] == pre.bodies@[j],
            forall|j: int| 0 <= j < pre.n() ==> #[trigger] post.owners@[j] == pre.owners@[j],
            forall|j: int| #[trigger] pre.is_input_cell(j) ==> post.vals@[j] == pre.vals@[j],
            0 <= i <= pre.n(),
            forall|k: int|
                0 <= k < ids.len() ==> (#[trigger] ids[k] as int) < pre.n()
                    && !pre.is_internal_cell(ids[k] as int),
        ensures
            post.dep_vals(ids, i) == pre.dep_vals(ids, i),
            post.all_ok(ids, i) == pre.all_ok(ids, i),
        decreases i, 0int, ids.len(),
    {
        if ids.len() > 0 {
            Self::lemma_dep_vals_frame(pre, post, ids.drop_last(), i);
            let d = ids.last() as int;
            if 0 <= d < i {
                Self::lemma_denote_frame(pre, post, d);
            }
            assert(post.dep_vals(ids, i) =~= pre.dep_vals(ids, i));
        } else {
            assert(post.dep_vals(ids, i) =~= pre.dep_vals(ids, i));
        }
    }

    /// Indexing into `dep_vals`.
    pub proof fn lemma_dep_vals_index(self, ids: Seq<usize>, i: int)
        ensures
            self.dep_vals(ids, i).len() == ids.len(),
            forall|k: int|
                0 <= k < ids.len() ==> #[trigger] self.dep_vals(ids, i)[k] == if 0 <= (ids[k]
                    as int) < i {
                    self.denote(ids[k] as int)
                } else {
                    0
                },
        decreases ids.len(),
    {
        if ids.len() > 0 {
            self.lemma_dep_vals_index(ids.drop_last(), i);
        }
    }

    /// `all_ok` from pointwise success, and back.
    pub proof fn lemma_all_ok_pointwise(self, ids: Seq<usize>, i: int)
        ensures
            self.all_ok(ids, i) == (forall|k: int|
                0 <= k < ids.len() ==> 0 <= (#[trigger] ids[k] as int) < i && self.denote_ok(
                    ids[k] as int,
                )),
        decreases ids.len(),
    {
        if ids.len() > 0 {
            self.lemma_all_ok_pointwise(ids.drop_last(), i);
            if self.all_ok(ids, i) {
                assert forall|k: int| 0 <= k < ids.len() implies 0 <= (#[trigger] ids[k] as int)
                    < i && self.denote_ok(ids[k] as int) by {
                    if k < ids.len() - 1 {
                        assert(ids.drop_last()[k] == ids[k]);
                    }
                }
            } else {
                if forall|k: int|
                    0 <= k < ids.len() ==> 0 <= (#[trigger] ids[k] as int) < i && self.denote_ok(
                        ids[k] as int,
                    ) {
                    assert forall|k: int| 0 <= k < ids.drop_last().len() implies 0 <= (
                    #[trigger] ids.drop_last()[k] as int) < i && self.denote_ok(
                        ids.drop_last()[k] as int,
                    ) by {
                        assert(ids.drop_last()[k] == ids[k]);
                    }
                    assert(self.all_ok(ids, i));
                }
            }
        }
    }

    /// A clean thunk is owed success, and its cache (for a firewall thunk:
    /// its output cell) carries exactly its meaning.
    pub proof fn lemma_clean_denote(self, i: int)
        requires
            self.wf(),
            self.clean(i),
        ensures
            self.denote_ok(i),
            !fw_kind(self.body_at(i)) ==> as_math(self.val_at(i)) == self.denote(i),
            fw_kind(self.body_at(i)) ==> self.out_at(i) is Some && self.val_at(i) == Val::L(
                self.out_at(i)->Some_0,
            ) && as_math(self.val_at(self.out_at(i)->Some_0 as int)) == self.denote(i),
            self.val_at(i) == self.denote_val(i),
            fw_kind(self.body_at(i)) ==> self.val_at(self.out_at(i)->Some_0 as int)
                == self.fw_val(i),
        decreases i,
    {
        assert(self.executed(i));
        let b = self.body_at(i);
        let rs = body_refs(b);
        let es = self.edges_at(i);
        assert(self.edge_layout_ok(i));
        assert(self.cached_ok(i));
        self.lemma_dep_vals_index(rs, i);
        assert forall|k: int| #![trigger rs[k]] 0 <= k < rs.len() implies {
            &&& self.obs_vals(i)[k] == self.dep_vals(rs, i)[k]
            &&& 0 <= (rs[k] as int) < i
            &&& self.denote_ok(rs[k] as int)
            &&& (fw_layout(b) ==> self.is_thunk(rs[k] as int) && fw_kind(
                self.body_at(rs[k] as int),
            ))
            &&& (!fw_layout(b) ==> !(self.is_thunk(rs[k] as int) && fw_kind(
                self.body_at(rs[k] as int),
            )))
        } by {
            let r = rs[k] as int;
            assert(0 <= r < i);
            if fw_layout(b) {
                let e0 = es[2 * k];
                let e1 = es[2 * k + 1];
                assert(self.is_thunk(r) && fw_kind(self.body_at(r)));
                assert(self.clean(r));
                self.lemma_clean_denote(r);
                let o = self.out_at(r)->Some_0 as int;
                assert(e0.obs == self.val_at(r));
                assert(self.val_at(r) == Val::L(self.out_at(r)->Some_0));
                assert(e0.obs == Val::L(e1.tgt));
                assert(e1.tgt as int == o);
                assert(e1.obs == self.val_at(o));
                assert(self.obs_vals(i)[k] == as_math(e1.obs));
                assert(as_math(self.val_at(o)) == self.denote(r));
            } else {
                let e = es[k];
                assert(e.obs == self.val_at(r));
                assert(self.obs_vals(i)[k] == as_math(e.obs));
                if self.is_cell(r) {
                    assert(self.denote(r) == as_math(self.val_at(r)));
                } else {
                    assert(self.is_thunk(r));
                    assert(self.clean(r));
                    self.lemma_clean_denote(r);
                    assert(!fw_kind(self.body_at(r)));
                    assert(as_math(self.val_at(r)) == self.denote(r));
                }
            }
        }
        assert(self.obs_vals(i) =~= self.dep_vals(rs, i)) by {
            assert forall|k: int| 0 <= k < rs.len() implies #[trigger] self.obs_vals(i)[k]
                == self.dep_vals(rs, i)[k] by {
                assert(rs[k] == rs[k]);
            }
        }
        self.lemma_all_ok_pointwise(rs, i);
        assert(self.all_ok(rs, i));
        assert(body_math(b, self.dep_vals(rs, i)) == body_math(b, self.obs_vals(i)));
        assert(self.denote(i) == body_math(b, self.dep_vals(rs, i)));
        assert(self.val_at(i) == self.denote_val(i) && (fw_kind(b) ==> self.val_at(
            self.out_at(i)->Some_0 as int,
        ) == self.fw_val(i))) by {
            match b {
                Body::Read { x, fw } => {
                    let d = x as int;
                    assert(rs[0] == x);
                    assert(0 <= d < i);
                    if fw {
                        assert(self.is_thunk(d) && fw_kind(self.body_at(d)));
                        assert(self.clean(d));
                        self.lemma_clean_denote(d);
                        assert(es[0].obs == self.val_at(d));
                        assert(es[1].tgt as int == self.out_at(d)->Some_0 as int);
                        assert(es[1].obs == self.val_at(es[1].tgt as int));
                        assert(self.val_at(i) == es[1].obs);
                    } else {
                        if self.is_thunk(d) {
                            assert(self.clean(d));
                            self.lemma_clean_denote(d);
                            assert(es[0].obs == self.val_at(d));
                        } else {
                            assert(es[0].obs == self.val_at(d));
                        }
                    }
                },
                _ => {},
            }
        }
        assert(i32_range(body_math(b, self.obs_vals(i)))) by {
            match b {
                Body::CellEq { c, k } => {},
                Body::FwCellEq { c, k } => {},
                _ => {
                    assert(self.cached_ok(i));
                },
            }
        }
        assert(Self::body_extra_ok(b, self.dep_vals(rs, i)));
        assert(self.denote_ok(i));
    }

    /// Appending one node preserves well-formedness: every clause about the
    /// existing nodes transfers unchanged, and the new node starts with no
    /// state worth constraining.
    proof fn lemma_append_node(pre: Engine, post: Engine, b: Body)
        requires
            pre.wf(),
            post.bodies@ == pre.bodies@.push(b),
            post.vals@.len() == pre.vals@.len() + 1,
            forall|i: int| 0 <= i < pre.n() ==> post.vals@[i] == pre.vals@[i],
            post.sts@.len() == pre.sts@.len() + 1,
            forall|i: int| 0 <= i < pre.n() ==> post.sts@[i] == pre.sts@[i],
            post.st_at(pre.n()) == if b is Input {
                St::Clean
            } else {
                St::Never
            },
            post.edges@.len() == pre.edges@.len() + 1,
            forall|i: int| 0 <= i < pre.n() ==> post.edges@[i] == pre.edges@[i],
            post.edges_at(pre.n()).len() == 0,
            post.outs@ == pre.outs@.push(None::<usize>),
            post.owners@ == pre.owners@.push(None::<usize>),
            post.mark as int <= post.trace@.len(),
            !(b is Input) ==> pre.body_ok(b, pre.n()),
        ensures
            post.wf(),
    {
        let m = pre.n();
        assert forall|i: int| post.is_cell(i) implies {
            &&& post.st_at(i) == St::Clean
            &&& post.edges_at(i).len() == 0
            &&& post.out_at(i) is None
        } by {
            if i < m {
                assert(pre.is_cell(i));
                assert(pre.st_at(i) == St::Clean);
                assert(post.edges_at(i) == pre.edges_at(i));
            } else {
                assert(i == m);
            }
        }
        assert forall|i: int| post.is_internal_cell(i) implies {
            let g = post.owner_at(i)->Some_0 as int;
            &&& post.is_thunk(g)
            &&& fw_kind(post.body_at(g))
            &&& post.out_at(g) == Some(i as usize)
        } by {
            assert(i < m);
            assert(pre.is_internal_cell(i));
            let g = pre.owner_at(i)->Some_0 as int;
            assert(pre.is_thunk(g));
        }
        assert forall|i: int| post.is_thunk(i) implies {
            &&& post.owner_at(i) is None
            &&& post.body_ok(post.body_at(i), i)
            &&& forall|k: int|
                0 <= k < body_refs(post.body_at(i)).len()
                    ==> (#[trigger] body_refs(post.body_at(i))[k] as int) < post.n()
        } by {
            if i < m {
                assert(pre.is_thunk(i));
                assert(pre.owner_at(i) is None);
                assert(pre.body_ok(pre.body_at(i), i));
                assert forall|k: int| 0 <= k < body_refs(post.body_at(i)).len() implies {
                    let r = #[trigger] body_refs(post.body_at(i))[k] as int;
                    r <= i && r <= post.n() && !post.is_internal_cell(r)
                } by {
                    let r = body_refs(pre.body_at(i))[k] as int;
                    assert(r <= i && r <= pre.n() && !pre.is_internal_cell(r));
                    if r < m {
                        assert(post.owner_at(r) == pre.owner_at(r));
                    }
                }
            } else {
                assert(i == m);
                assert(post.body_at(i) == b);
                assert forall|k: int| 0 <= k < body_refs(b).len() implies {
                    let r = #[trigger] body_refs(b)[k] as int;
                    r <= i && r <= post.n() && !post.is_internal_cell(r)
                } by {
                    let r = body_refs(b)[k] as int;
                    assert(r <= m && r <= pre.n() && !pre.is_internal_cell(r));
                    if r < m {
                        assert(post.owner_at(r) == pre.owner_at(r));
                    } else {
                        assert(post.owner_at(r) is None);
                    }
                }
            }
        }
        assert forall|i: int| post.is_thunk(i) && #[trigger] post.out_at(i) is Some implies {
            let o = post.out_at(i)->Some_0 as int;
            &&& fw_kind(post.body_at(i))
            &&& post.is_internal_cell(o)
            &&& post.owner_at(o) == Some(i as usize)
        } by {
            assert(i < m);
            assert(pre.is_thunk(i) && pre.out_at(i) is Some);
            let o = pre.out_at(i)->Some_0 as int;
            assert(pre.is_internal_cell(o));
        }
        assert forall|i: int| #[trigger] post.executed(i) implies {
            &&& (forall|k: int|
                0 <= k < body_refs(post.body_at(i)).len()
                    ==> (#[trigger] body_refs(post.body_at(i))[k] as int) < i)
            &&& post.edge_layout_ok(i)
            &&& post.cached_ok(i)
            &&& (fw_kind(post.body_at(i)) ==> post.out_at(i) is Some)
        } by {
            assert(i < m);
            assert(pre.executed(i));
            assert(pre.edge_layout_ok(i));
            assert(pre.cached_ok(i));
            assert(post.edges_at(i) == pre.edges_at(i));
            assert(post.obs_vals(i) =~= pre.obs_vals(i));
            Self::lemma_kind_transfer(pre, post, i);
        }
        assert forall|i: int| #[trigger] post.clean(i) implies {
            &&& forall|k: int|
                0 <= k < post.edges_at(i).len() ==> {
                    let e = #[trigger] post.edges_at(i)[k];
                    0 <= e.tgt < post.n() && e.obs == post.val_at(e.tgt as int)
                }
            &&& forall|k: int|
                0 <= k < body_refs(post.body_at(i)).len() && post.is_thunk(
                    #[trigger] body_refs(post.body_at(i))[k] as int,
                ) ==> post.clean(body_refs(post.body_at(i))[k] as int)
        } by {
            assert(i < m);
            assert(pre.clean(i));
            assert(pre.executed(i));
            assert(post.edges_at(i) == pre.edges_at(i));
            assert forall|k: int| 0 <= k < post.edges_at(i).len() implies {
                let e = #[trigger] post.edges_at(i)[k];
                0 <= e.tgt < post.n() && e.obs == post.val_at(e.tgt as int)
            } by {
                let e = pre.edges_at(i)[k];
                assert(0 <= e.tgt < pre.n() && e.obs == pre.val_at(e.tgt as int));
            }
            assert forall|k: int|
                0 <= k < body_refs(post.body_at(i)).len() && post.is_thunk(
                    #[trigger] body_refs(post.body_at(i))[k] as int,
                ) implies post.clean(body_refs(post.body_at(i))[k] as int) by {
                let r = body_refs(pre.body_at(i))[k] as int;
                assert(r < i);
                assert(pre.is_thunk(r));
                assert(pre.clean(r));
            }
        }
    }

    /// Transfers `cached_ok` from `pre` to `post` for one executed thunk whose
    /// node data, edges and read targets are unchanged.
    proof fn lemma_kind_transfer(pre: Engine, post: Engine, i: int)
        requires
            pre.wf(),
            pre.executed(i),
            i < pre.n(),
            pre.n() <= post.n(),
            post.body_at(i) == pre.body_at(i),
            post.val_at(i) == pre.val_at(i),
            post.out_at(i) == pre.out_at(i),
            post.edges_at(i) == pre.edges_at(i),
            forall|j: int| 0 <= j < pre.n() ==> post.vals@[j] == pre.vals@[j],
        ensures
            post.cached_ok(i),
    {
        assert(pre.cached_ok(i));
        assert(post.obs_vals(i) =~= pre.obs_vals(i));
        match pre.body_at(i) {
            Body::FwCellEq { c, k } => {
                let o = pre.out_at(i)->Some_0 as int;
                assert(pre.is_internal_cell(o));
                assert(post.val_at(o) == pre.val_at(o));
            },
            Body::FwSquare { c } => {
                let o = pre.out_at(i)->Some_0 as int;
                assert(pre.is_internal_cell(o));
                assert(post.val_at(o) == pre.val_at(o));
            },
            _ => {},
        }
    }

    /// How many nodes a thunk's body reads.
    fn ref_count(&self, j: usize) -> (r: usize)
        requires
            self.refs_wf(),
            self.is_thunk(j as int),
        ensures
            r as int == body_refs(self.body_at(j as int)).len(),
    {
        match &self.bodies[j] {
            Body::Input => 0,
            Body::CellEq { c, k } => 1,
            Body::FwCellEq { c, k } => 1,
            Body::Square { c } => 1,
            Body::FwSquare { c } => 1,
            Body::Read { x, fw } => 1,
            Body::Leg { a, b, w } => 2,
            Body::Sum { xs, fw } => xs.len(),
            Body::CountIll { gs, fw, adj } => gs.len(),
            Body::BranchScore { cnt, ill } => 2,
            Body::Merged { gs, fw, adj } => gs.len(),
        }
    }

    /// The `k`-th node a thunk's body reads.
    fn ref_at(&self, j: usize, k: usize) -> (r: usize)
        requires
            self.refs_wf(),
            self.is_thunk(j as int),
            (k as int) < body_refs(self.body_at(j as int)).len(),
        ensures
            r == body_refs(self.body_at(j as int))[k as int],
            r as int <= j as int,
            (r as int) < self.n(),
            !self.is_internal_cell(r as int),
    {
        proof {
            assert(self.owner_at(j as int) is None);
            assert(self.body_ok(self.body_at(j as int), j as int));
        }
        match &self.bodies[j] {
            Body::Input => 0,
            Body::CellEq { c, k: _ } => *c,
            Body::FwCellEq { c, k: _ } => *c,
            Body::Square { c } => *c,
            Body::FwSquare { c } => *c,
            Body::Read { x, fw } => *x,
            Body::Leg { a, b, w } => if k == 0 {
                *a
            } else {
                *b
            },
            Body::Sum { xs, fw } => xs[k],
            Body::CountIll { gs, fw, adj } => gs[k],
            Body::BranchScore { cnt, ill } => if k == 0 {
                *cnt
            } else {
                *ill
            },
            Body::Merged { gs, fw, adj } => gs[k],
        }
    }

    /// Spec twin of the cell test, for proofs that branch on node kind.
    pub open spec fn kind_is_cell_spec(self, t: int) -> bool {
        self.is_cell(t)
    }

    /// Whether node `t` is a cell.
    fn kind_is_cell(&self, t: usize) -> (r: bool)
        requires
            self.refs_wf(),
            (t as int) < self.n(),
        ensures
            r == self.is_cell(t as int),
    {
        match &self.bodies[t] {
            Body::Input => true,
            _ => false,
        }
    }

    /// Whether node `t` is a firewall thunk.
    fn kind_is_fw(&self, t: usize) -> (r: bool)
        requires
            self.refs_wf(),
            (t as int) < self.n(),
        ensures
            r == (self.is_thunk(t as int) && fw_kind(self.body_at(t as int))),
    {
        match &self.bodies[t] {
            Body::FwCellEq { c, k } => true,
            Body::FwSquare { c } => true,
            _ => false,
        }
    }

    /// Whether the thunk's body reads through the firewall protocol.
    fn layout_is_fw(&self, j: usize) -> (r: bool)
        requires
            self.refs_wf(),
            self.is_thunk(j as int),
        ensures
            r == fw_layout(self.body_at(j as int)),
    {
        match &self.bodies[j] {
            Body::Read { x, fw } => *fw,
            Body::Sum { xs, fw } => *fw,
            Body::CountIll { gs, fw, adj } => *fw,
            Body::Merged { gs, fw, adj } => *fw,
            _ => false,
        }
    }

    /// Whether thunk `j` directly reads a marked node: the changed cell `c`
    /// itself or a thunk already marked dirty.
    fn hits(&self, j: usize, c: usize) -> (r: bool)
        requires
            self.refs_wf(),
            self.is_thunk(j as int),
        ensures
            r == exists|k: int|
                0 <= k < body_refs(self.body_at(j as int)).len() && {
                    let d = #[trigger] body_refs(self.body_at(j as int))[k] as int;
                    d == c as int || (self.is_thunk(d) && self.st_at(d) == St::Dirty)
                },
    {
        let m = self.ref_count(j);
        let mut k: usize = 0;
        while k < m
            invariant
                self.refs_wf(),
                self.is_thunk(j as int),
                m as int == body_refs(self.body_at(j as int)).len(),
                k <= m,
                forall|q: int|
                    0 <= q < k as int ==> {
                        let d = #[trigger] body_refs(self.body_at(j as int))[q] as int;
                        d != c as int && !(self.is_thunk(d) && self.st_at(d) == St::Dirty)
                    },
            decreases m - k,
        {
            let d = self.ref_at(j, k);
            if d == c {
                return true;
            }
            if d < self.bodies.len() && !self.kind_is_cell(d) {
                let is_dirty = match self.sts[d] {
                    St::Dirty => true,
                    _ => false,
                };
                if is_dirty {
                    return true;
                }
            }
            k += 1;
        }
        false
    }

    /// Mutate an input cell. When the value equals the stored one, nothing
    /// changes but the trace: no thunk is dirtied and no body will re-run for
    /// this write. Otherwise the cell takes the new value and every executed
    /// thunk that transitively reads it is marked maybe-dirty; caches are
    /// kept, so revalidation can still prove them clean.
    pub fn set(&mut self, id: usize, v: i32)
        requires
            old(self).wf(),
            old(self).is_input_cell(id as int),
        ensures
            final(self).wf(),
            final(self).bodies@ == old(self).bodies@,
            final(self).edges@ == old(self).edges@,
            final(self).outs@ == old(self).outs@,
            final(self).owners@ == old(self).owners@,
            final(self).mark == old(self).mark,
            old(self).val_at(id as int) == Val::I(v) ==> {
                &&& final(self).vals@ == old(self).vals@
                &&& final(self).sts@ == old(self).sts@
                &&& final(self).trace@ == old(self).trace@.push(Trace::SetNoChange { id })
            },
            old(self).val_at(id as int) != Val::I(v) ==> {
                &&& final(self).vals@ == old(self).vals@.update(id as int, Val::I(v))
                &&& final(self).trace@ == old(self).trace@.push(Trace::SetChanged { id })
                &&& forall|t: int|
                    0 <= t < old(self).n() ==> #[trigger] final(self).sts@[t] == old(self).sts@[t]
                        || (old(self).sts@[t] == St::Clean && final(self).sts@[t] == St::Dirty
                        && old(self).is_thunk(t) && t > id as int)
            },
    {
        if self.vals[id] == Val::I(v) {
            self.trace.push(Trace::SetNoChange { id });
            proof {
                Self::lemma_wf_core_transfer(*old(self), *self);
                assert(self.vals@ =~= old(self).vals@);
            }
            return ;
        }
        self.vals[id] = Val::I(v);
        self.trace.push(Trace::SetChanged { id });
        let n = self.bodies.len();
        let ghost pre = *old(self);
        let mut j: usize = id + 1;
        proof {
            Self::lemma_refs_wf_transfer(pre, *self);
            assert forall|t: int|
                pre.is_thunk(t) && t < j as int && #[trigger] self.sts@[t] == St::Clean implies
                forall|k: int|
                0 <= k < body_refs(pre.body_at(t)).len() && pre.clean(t) ==> {
                    let d = #[trigger] body_refs(pre.body_at(t))[k] as int;
                    d != id as int && (pre.is_thunk(d) ==> self.sts@[d] == St::Clean)
                } by {
                assert(pre.sts@[t] == self.sts@[t]);
                assert(pre.clean(t));
                assert(pre.executed(t));
                assert forall|k: int|
                    0 <= k < body_refs(pre.body_at(t)).len() && pre.clean(t) implies {
                        let d = #[trigger] body_refs(pre.body_at(t))[k] as int;
                        d != id as int && (pre.is_thunk(d) ==> self.sts@[d] == St::Clean)
                    } by {
                    let d = body_refs(pre.body_at(t))[k] as int;
                    assert(d < t);
                    assert(t != id as int);
                    if pre.is_thunk(d) {
                        assert(pre.clean(d));
                    }
                }
            }
        }
        while j < n
            invariant
                pre.wf(),
                pre.is_input_cell(id as int),
                n as int == pre.n(),
                id < j,
                j <= n,
                self.refs_wf(),
                self.bodies@ == pre.bodies@,
                self.edges@ == pre.edges@,
                self.outs@ == pre.outs@,
                self.owners@ == pre.owners@,
                self.mark == pre.mark,
                self.vals@ == pre.vals@.update(id as int, Val::I(v)),
                self.trace@ == pre.trace@.push(Trace::SetChanged { id }),
                self.sts@.len() == pre.sts@.len(),
                // marking only in (id, j), and only clean thunks become dirty
                forall|t: int|
                    0 <= t < pre.n() ==> #[trigger] self.sts@[t] == pre.sts@[t] || (pre.sts@[t]
                        == St::Clean && self.sts@[t] == St::Dirty && pre.is_thunk(t) && id < t
                        < j as int),
                // processed clean thunks read neither the cell nor a dirty thunk
                forall|t: int|
                    pre.is_thunk(t) && t < j as int && #[trigger] self.sts@[t] == St::Clean
                        ==> forall|k: int|
                        0 <= k < body_refs(pre.body_at(t)).len() && pre.clean(t) ==> {
                            let d = #[trigger] body_refs(pre.body_at(t))[k] as int;
                            d != id as int && (pre.is_thunk(d) ==> self.sts@[d] == St::Clean)
                        },
            decreases n - j,
        {
            let ghost prev = *self;
            let executed_here = match self.sts[j] {
                St::Never => false,
                _ => true,
            };
            let is_thunk_here = !self.kind_is_cell(j);
            let mut hit = false;
            if is_thunk_here && executed_here {
                if self.hits(j, id) {
                    self.sts[j] = St::Dirty;
                    hit = true;
                }
            }
            proof {
                let cur = *self;
                Self::lemma_refs_wf_transfer(pre, cur);
                assert(cur.sts@.len() == prev.sts@.len());
                assert forall|t: int|
                    pre.is_thunk(t) && t < (j + 1) as int && #[trigger] cur.sts@[t]
                        == St::Clean implies forall|k: int|
                    0 <= k < body_refs(pre.body_at(t)).len() && pre.clean(t) ==> {
                        let d = #[trigger] body_refs(pre.body_at(t))[k] as int;
                        d != id as int && (pre.is_thunk(d) ==> cur.sts@[d] == St::Clean)
                    } by {
                    if t < j as int {
                        assert(cur.sts@[t] == prev.sts@[t]);
                        assert forall|k: int|
                            0 <= k < body_refs(pre.body_at(t)).len() && pre.clean(t) implies {
                                let d = #[trigger] body_refs(pre.body_at(t))[k] as int;
                                d != id as int && (pre.is_thunk(d) ==> cur.sts@[d] == St::Clean)
                            } by {
                            let d = body_refs(pre.body_at(t))[k] as int;
                            assert(pre.executed(t));
                            assert(d < t);
                            assert(d != id as int && (pre.is_thunk(d) ==> prev.sts@[d]
                                == St::Clean));
                            assert(cur.sts@[d] == prev.sts@[d]);
                        }
                    } else {
                        assert(t == j as int);
                        assert(!hit);
                        assert(cur.sts@ == prev.sts@);
                        assert(prev.sts@[t] == pre.sts@[t]);
                        assert(pre.clean(t));
                        assert(pre.executed(t));
                        assert forall|k: int|
                            0 <= k < body_refs(pre.body_at(t)).len() && pre.clean(t) implies {
                                let d = #[trigger] body_refs(pre.body_at(t))[k] as int;
                                d != id as int && (pre.is_thunk(d) ==> cur.sts@[d] == St::Clean)
                            } by {
                            let d = body_refs(pre.body_at(t))[k] as int;
                            assert(d < t);
                            assert(!(d == id as int || (prev.is_thunk(d) && prev.st_at(d)
                                == St::Dirty)));
                            assert(prev.is_thunk(d) == pre.is_thunk(d));
                            if pre.is_thunk(d) {
                                assert(pre.clean(d));
                                assert(prev.sts@[d] == pre.sts@[d] || prev.sts@[d] == St::Dirty);
                                assert(prev.sts@[d] == St::Clean);
                            }
                        }
                    }
                }
            }
            j += 1;
        }
        proof {
            Self::lemma_set_done(pre, *self, id as int, v);
        }
    }

    /// The structural core transfers to any engine with the same bodies and
    /// owners and vectors of the same lengths.
    proof fn lemma_refs_wf_transfer(pre: Engine, cur: Engine)
        requires
            pre.refs_wf(),
            cur.bodies@ == pre.bodies@,
            cur.owners@ == pre.owners@,
            cur.vals@.len() == pre.vals@.len(),
            cur.sts@.len() == pre.sts@.len(),
            cur.edges@.len() == pre.edges@.len(),
            cur.outs@.len() == pre.outs@.len(),
        ensures
            cur.refs_wf(),
    {
        assert forall|i: int| cur.is_thunk(i) implies {
            &&& cur.owner_at(i) is None
            &&& cur.body_ok(cur.body_at(i), i)
            &&& forall|k: int|
                0 <= k < body_refs(cur.body_at(i)).len()
                    ==> (#[trigger] body_refs(cur.body_at(i))[k] as int) < cur.n()
        } by {
            assert(pre.is_thunk(i));
            assert(pre.owner_at(i) is None);
            assert(pre.body_ok(pre.body_at(i), i));
            assert forall|k: int| 0 <= k < body_refs(cur.body_at(i)).len() implies {
                let r = #[trigger] body_refs(cur.body_at(i))[k] as int;
                r <= i && r <= cur.n() && !cur.is_internal_cell(r) && r < cur.n()
            } by {
                let r = body_refs(pre.body_at(i))[k] as int;
                assert(r <= i && r <= pre.n() && !pre.is_internal_cell(r));
                assert((body_refs(pre.body_at(i))[k] as int) < pre.n());
                assert(cur.owner_at(r) == pre.owner_at(r));
            }
        }
    }

    /// An engine equal in every node-level field is as well-formed as the
    /// one it came from; only the trace may have grown.
    proof fn lemma_wf_core_transfer(pre: Engine, post: Engine)
        requires
            pre.wf(),
            post.bodies@ == pre.bodies@,
            post.vals@ =~= pre.vals@,
            post.sts@ == pre.sts@,
            post.edges@ == pre.edges@,
            post.outs@ == pre.outs@,
            post.owners@ == pre.owners@,
            post.mark as int <= post.trace@.len(),
        ensures
            post.wf(),
    {
        assert forall|i: int| post.is_cell(i) implies {
            &&& post.st_at(i) == St::Clean
            &&& post.edges_at(i).len() == 0
            &&& post.out_at(i) is None
        } by {
            assert(pre.is_cell(i));
            assert(pre.st_at(i) == St::Clean);
        }
        assert forall|i: int| post.is_internal_cell(i) implies {
            let g = (post.owner_at(i))->Some_0 as int;
            &&& post.is_thunk(g)
            &&& fw_kind(post.body_at(g))
            &&& post.out_at(g) == Some(i as usize)
        } by {
            assert(pre.is_internal_cell(i));
            let g = pre.owner_at(i)->Some_0 as int;
            assert(pre.is_thunk(g));
        }
        assert forall|i: int| post.is_thunk(i) implies {
            &&& post.owner_at(i) is None
            &&& post.body_ok(post.body_at(i), i)
            &&& forall|k: int|
                0 <= k < body_refs(post.body_at(i)).len()
                    ==> (#[trigger] body_refs(post.body_at(i))[k] as int) < post.n()
        } by {
            assert(pre.is_thunk(i));
            assert(pre.owner_at(i) is None);
            assert(pre.body_ok(pre.body_at(i), i));
            assert forall|k: int| 0 <= k < body_refs(post.body_at(i)).len() implies {
                let r = #[trigger] body_refs(post.body_at(i))[k] as int;
                r <= i && r <= post.n() && !post.is_internal_cell(r) && r < post.n()
            } by {
                let r = body_refs(pre.body_at(i))[k] as int;
                assert(r <= i && r <= pre.n() && !pre.is_internal_cell(r));
                assert((body_refs(pre.body_at(i))[k] as int) < pre.n());
                assert(post.owner_at(r) == pre.owner_at(r));
            }
        }
        assert forall|i: int| post.is_thunk(i) && #[trigger] post.out_at(i) is Some implies {
            let o = post.out_at(i)->Some_0 as int;
            &&& fw_kind(post.body_at(i))
            &&& post.is_internal_cell(o)
            &&& post.owner_at(o) == Some(i as usize)
        } by {
            assert(pre.is_thunk(i) && pre.out_at(i) is Some);
            let o = pre.out_at(i)->Some_0 as int;
            assert(pre.is_internal_cell(o));
        }
        assert forall|i: int| #[trigger] post.executed(i) implies {
            &&& (forall|k: int|
                0 <= k < body_refs(post.body_at(i)).len()
                    ==> (#[trigger] body_refs(post.body_at(i))[k] as int) < i)
            &&& post.edge_layout_ok(i)
            &&& post.cached_ok(i)
            &&& (fw_kind(post.body_at(i)) ==> post.out_at(i) is Some)
        } by {
            assert(pre.executed(i));
            assert(pre.edge_layout_ok(i));
            assert forall|k: int| 0 <= k < body_refs(post.body_at(i)).len() implies (
            #[trigger] body_refs(post.body_at(i))[k] as int) < i by {
                assert((body_refs(pre.body_at(i))[k] as int) < i);
            }
            Self::lemma_layout_transfer(pre, post, i);
            Self::lemma_kind_transfer(pre, post, i);
        }
        assert forall|i: int| #[trigger] post.clean(i) implies {
            &&& forall|k: int|
                0 <= k < post.edges_at(i).len() ==> {
                    let e = #[trigger] post.edges_at(i)[k];
                    0 <= e.tgt < post.n() && e.obs == post.val_at(e.tgt as int)
                }
            &&& forall|k: int|
                0 <= k < body_refs(post.body_at(i)).len() && post.is_thunk(
                    #[trigger] body_refs(post.body_at(i))[k] as int,
                ) ==> post.clean(body_refs(post.body_at(i))[k] as int)
        } by {
            assert(pre.clean(i));
            assert forall|k: int| 0 <= k < post.edges_at(i).len() implies {
                let e = #[trigger] post.edges_at(i)[k];
                0 <= e.tgt < post.n() && e.obs == post.val_at(e.tgt as int)
            } by {
                let e = pre.edges_at(i)[k];
                assert(0 <= e.tgt < pre.n() && e.obs == pre.val_at(e.tgt as int));
            }
            assert forall|k: int|
                0 <= k < body_refs(post.body_at(i)).len() && post.is_thunk(
                    #[trigger] body_refs(post.body_at(i))[k] as int,
                ) implies post.clean(body_refs(post.body_at(i))[k] as int) by {
                let d = body_refs(pre.body_at(i))[k] as int;
                assert(pre.is_thunk(d));
                assert(pre.clean(d));
            }
        }
    }

    /// Transfers `edge_layout_ok` to an engine whose node-identifying fields
    /// agree on the existing prefix.
    proof fn lemma_layout_transfer(pre: Engine, post: Engine, i: int)
        requires
            pre.wf(),
            pre.executed(i),
            i < pre.n(),
            pre.n() <= post.n(),
            forall|j: int| 0 <= j < pre.n() ==> #[trigger] post.bodies@[j] == pre.bodies@[j],
            forall|j: int| 0 <= j < pre.n() ==> #[trigger] post.owners@[j] == pre.owners@[j],
            post.edges_at(i) == pre.edges_at(i),
        ensures
            post.edge_layout_ok(i),
    {
        assert(pre.edge_layout_ok(i));
        if fw_layout(pre.body_at(i)) {
            assert forall|k: int| 0 <= k < body_refs(post.body_at(i)).len() implies {
                &&& (#[trigger] post.edges_at(i)[2 * k]).tgt == body_refs(post.body_at(i))[k]
                &&& post.is_thunk(body_refs(post.body_at(i))[k] as int)
                &&& fw_kind(post.body_at(body_refs(post.body_at(i))[k] as int))
                &&& post.edges_at(i)[2 * k].obs == Val::L(post.edges_at(i)[2 * k + 1].tgt)
                &&& post.is_internal_cell(post.edges_at(i)[2 * k + 1].tgt as int)
                &&& post.owner_at(post.edges_at(i)[2 * k + 1].tgt as int) == Some(
                    body_refs(post.body_at(i))[k],
                )
            } by {
                assert((#[trigger] pre.edges_at(i)[2 * k]).tgt == body_refs(pre.body_at(i))[k]);
                assert(pre.is_thunk(body_refs(pre.body_at(i))[k] as int));
                assert(pre.is_internal_cell(pre.edges_at(i)[2 * k + 1].tgt as int));
                assert(post.owner_at(pre.edges_at(i)[2 * k + 1].tgt as int) == pre.owner_at(
                    pre.edges_at(i)[2 * k + 1].tgt as int,
                ));
            }
        } else {
            assert forall|k: int| 0 <= k < body_refs(post.body_at(i)).len() implies {
                &&& (#[trigger] post.edges_at(i)[k]).tgt == body_refs(post.body_at(i))[k]
                &&& !(post.is_thunk(body_refs(post.body_at(i))[k] as int) && fw_kind(
                    post.body_at(body_refs(post.body_at(i))[k] as int),
                ))
            } by {
                assert((#[trigger] pre.edges_at(i)[k]).tgt == body_refs(pre.body_at(i))[k]);
                assert((body_refs(pre.body_at(i))[k] as int) < pre.n());
            }
        }
    }

    /// After the pass, the engine is well-formed again: every clean thunk's
    /// reads avoid the changed cell and every thunk it reads is still clean.
    proof fn lemma_set_done(pre: Engine, cur: Engine, id: int, v: i32)
        requires
            pre.wf(),
            pre.is_input_cell(id),
            cur.bodies@ == pre.bodies@,
            cur.edges@ == pre.edges@,
            cur.outs@ == pre.outs@,
            cur.owners@ == pre.owners@,
            cur.mark == pre.mark,
            cur.mark as int <= cur.trace@.len(),
            cur.vals@ == pre.vals@.update(id, Val::I(v)),
            cur.sts@.len() == pre.sts@.len(),
            forall|t: int|
                0 <= t < pre.n() ==> #[trigger] cur.sts@[t] == pre.sts@[t] || (pre.sts@[t]
                    == St::Clean && cur.sts@[t] == St::Dirty && pre.is_thunk(t) && id < t),
            forall|t: int|
                pre.is_thunk(t) && t < pre.n() && #[trigger] cur.sts@[t] == St::Clean
                    ==> forall|k: int|
                    0 <= k < body_refs(pre.body_at(t)).len() && pre.clean(t) ==> {
                        let d = #[trigger] body_refs(pre.body_at(t))[k] as int;
                        d != id && (pre.is_thunk(d) ==> cur.sts@[d] == St::Clean)
                    },
        ensures
            cur.wf(),
    {
        assert(cur.n() == pre.n());
        assert forall|i: int| cur.is_cell(i) implies {
            &&& cur.st_at(i) == St::Clean
            &&& cur.edges_at(i).len() == 0
            &&& cur.out_at(i) is None
        } by {
            assert(pre.is_cell(i) && pre.st_at(i) == St::Clean);
            assert(cur.sts@[i] == pre.sts@[i] || pre.is_thunk(i));
        }
        assert forall|i: int| cur.is_internal_cell(i) implies {
            let g = (cur.owner_at(i))->Some_0 as int;
            &&& cur.is_thunk(g)
            &&& fw_kind(cur.body_at(g))
            &&& cur.out_at(g) == Some(i as usize)
        } by {
            assert(pre.is_internal_cell(i));
            let g = pre.owner_at(i)->Some_0 as int;
            assert(pre.is_thunk(g));
        }
        assert forall|i: int| cur.is_thunk(i) implies {
            &&& cur.owner_at(i) is None
            &&& cur.body_ok(cur.body_at(i), i)
            &&& forall|k: int|
                0 <= k < body_refs(cur.body_at(i)).len()
                    ==> (#[trigger] body_refs(cur.body_at(i))[k] as int) < cur.n()
        } by {
            assert(pre.is_thunk(i));
            assert(pre.owner_at(i) is None);
            assert(pre.body_ok(pre.body_at(i), i));
            assert forall|k: int| 0 <= k < body_refs(cur.body_at(i)).len() implies {
                let r = #[trigger] body_refs(cur.body_at(i))[k] as int;
                r <= i && r <= cur.n() && !cur.is_internal_cell(r) && r < cur.n()
            } by {
                let r = body_refs(pre.body_at(i))[k] as int;
                assert(r <= i && r <= pre.n() && !pre.is_internal_cell(r));
                assert(r < pre.n());
                assert(cur.owner_at(r) == pre.owner_at(r));
            }
        }
        assert forall|i: int| cur.is_thunk(i) && #[trigger] cur.out_at(i) is Some implies {
            let o = cur.out_at(i)->Some_0 as int;
            &&& fw_kind(cur.body_at(i))
            &&& cur.is_internal_cell(o)
            &&& cur.owner_at(o) == Some(i as usize)
        } by {
            assert(pre.is_thunk(i) && pre.out_at(i) is Some);
            let o = pre.out_at(i)->Some_0 as int;
            assert(pre.is_internal_cell(o));
        }
        assert forall|i: int| #[trigger] cur.executed(i) implies {
            &&& (forall|k: int|
                0 <= k < body_refs(cur.body_at(i)).len()
                    ==> (#[trigger] body_refs(cur.body_at(i))[k] as int) < i)
            &&& cur.edge_layout_ok(i)
            &&& cur.cached_ok(i)
            &&& (fw_kind(cur.body_at(i)) ==> cur.out_at(i) is Some)
        } by {
            assert(pre.is_thunk(i));
            assert(cur.sts@[i] != St::Never);
            assert(pre.sts@[i] != St::Never);
            assert(pre.executed(i));
            assert(pre.edge_layout_ok(i));
            assert forall|k: int| 0 <= k < body_refs(cur.body_at(i)).len() implies (
            #[trigger] body_refs(cur.body_at(i))[k] as int) < i by {
                assert((body_refs(pre.body_at(i))[k] as int) < i);
            }
            assert(cur.edge_layout_ok(i)) by {
                if fw_layout(cur.body_at(i)) {
                    assert forall|k: int| 0 <= k < body_refs(cur.body_at(i)).len() implies {
                        &&& (#[trigger] cur.edges_at(i)[2 * k]).tgt == body_refs(
                            cur.body_at(i),
                        )[k]
                        &&& cur.is_thunk(body_refs(cur.body_at(i))[k] as int)
                        &&& fw_kind(cur.body_at(body_refs(cur.body_at(i))[k] as int))
                        &&& cur.edges_at(i)[2 * k].obs == Val::L(cur.edges_at(i)[2 * k + 1].tgt)
                        &&& cur.is_internal_cell(cur.edges_at(i)[2 * k + 1].tgt as int)
                        &&& cur.owner_at(cur.edges_at(i)[2 * k + 1].tgt as int) == Some(
                            body_refs(cur.body_at(i))[k],
                        )
                    } by {
                        assert((#[trigger] pre.edges_at(i)[2 * k]).tgt == body_refs(
                            pre.body_at(i),
                        )[k]);
                        assert(pre.is_internal_cell(pre.edges_at(i)[2 * k + 1].tgt as int));
                        assert(cur.owner_at(pre.edges_at(i)[2 * k + 1].tgt as int)
                            == pre.owner_at(pre.edges_at(i)[2 * k + 1].tgt as int));
                    }
                } else {
                    assert forall|k: int| 0 <= k < body_refs(cur.body_at(i)).len() implies {
                        &&& (#[trigger] cur.edges_at(i)[k]).tgt == body_refs(cur.body_at(i))[k]
                        &&& !(cur.is_thunk(body_refs(cur.body_at(i))[k] as int) && fw_kind(
                            cur.body_at(body_refs(cur.body_at(i))[k] as int),
                        ))
                    } by {
                        assert((#[trigger] pre.edges_at(i)[k]).tgt == body_refs(
                            pre.body_at(i),
                        )[k]);
                    }
                }
            }
            assert(cur.obs_vals(i) =~= pre.obs_vals(i));
            assert(cur.cached_ok(i)) by {
                assert(pre.cached_ok(i));
                match pre.body_at(i) {
                    Body::FwCellEq { c, k } => {
                        let o = pre.out_at(i)->Some_0 as int;
                        assert(pre.is_internal_cell(o));
                        assert(o != id);
                        assert(cur.val_at(o) == pre.val_at(o));
                    },
                    Body::FwSquare { c } => {
                        let o = pre.out_at(i)->Some_0 as int;
                        assert(pre.is_internal_cell(o));
                        assert(o != id);
                        assert(cur.val_at(o) == pre.val_at(o));
                    },
                    _ => {},
                }
                assert(cur.val_at(i) == pre.val_at(i));
            }
        }
        assert forall|i: int| #[trigger] cur.clean(i) implies {
            &&& forall|k: int|
                0 <= k < cur.edges_at(i).len() ==> {
                    let e = #[trigger] cur.edges_at(i)[k];
                    0 <= e.tgt < cur.n() && e.obs == cur.val_at(e.tgt as int)
                }
            &&& forall|k: int|
                0 <= k < body_refs(cur.body_at(i)).len() && cur.is_thunk(
                    #[trigger] body_refs(cur.body_at(i))[k] as int,
                ) ==> cur.clean(body_refs(cur.body_at(i))[k] as int)
        } by {
            assert(pre.is_thunk(i));
            assert(cur.sts@[i] == St::Clean);
            assert(pre.sts@[i] == St::Clean);
            assert(pre.clean(i));
            assert(pre.executed(i));
            assert(pre.edge_layout_ok(i));
            assert forall|k: int| 0 <= k < cur.edges_at(i).len() implies {
                let e = #[trigger] cur.edges_at(i)[k];
                0 <= e.tgt < cur.n() && e.obs == cur.val_at(e.tgt as int)
            } by {
                let e = pre.edges_at(i)[k];
                assert(0 <= e.tgt < pre.n() && e.obs == pre.val_at(e.tgt as int));
                assert(e.tgt as int != id) by {
                    let rs = body_refs(pre.body_at(i));
                    if fw_layout(pre.body_at(i)) {
                        let q = k / 2;
                        assert(0 <= q < rs.len());
                        if k % 2 == 0 {
                            assert(k == 2 * q);
                            assert(e.tgt == rs[q]);
                            assert(rs[q] as int != id);
                        } else {
                            assert(k == 2 * q + 1);
                            assert((pre.edges_at(i)[2 * q]).tgt == body_refs(pre.body_at(i))[q]);
                            assert(pre.is_internal_cell(pre.edges_at(i)[2 * q + 1].tgt as int));
                            assert(!pre.is_internal_cell(id));
                        }
                    } else {
                        assert(e.tgt == rs[k]);
                        assert(rs[k] as int != id);
                    }
                }
                assert(cur.val_at(e.tgt as int) == pre.val_at(e.tgt as int));
            }
            assert forall|k: int|
                0 <= k < body_refs(cur.body_at(i)).len() && cur.is_thunk(
                    #[trigger] body_refs(cur.body_at(i))[k] as int,
                ) implies cur.clean(body_refs(cur.body_at(i))[k] as int) by {
                let d = body_refs(pre.body_at(i))[k] as int;
                assert(pre.is_thunk(d));
                assert(cur.sts@[d] == St::Clean);
            }
        }
    }

    /// Rolling a non-clean thunk back to never-evaluated (clearing its edges)
    /// keeps the engine well-formed: nothing clean reads it.
    proof fn lemma_rollback_wf(pre: Engine, cur: Engine, i: int)
        requires
            pre.wf(),
            pre.is_thunk(i),
            !pre.clean(i),
            cur.bodies@ == pre.bodies@,
            cur.vals@ == pre.vals@,
            cur.outs@ == pre.outs@,
            cur.owners@ == pre.owners@,
            cur.sts@ == pre.sts@.update(i, St::Never),
            cur.edges@.len() == pre.edges@.len(),
            forall|j: int| 0 <= j < pre.n() && j != i ==> cur.edges@[j] == pre.edges@[j],
            cur.edges_at(i).len() == 0,
            cur.mark == pre.mark,
            cur.mark as int <= cur.trace@.len(),
            pre.trace@.is_prefix_of(cur.trace@),
        ensures
            cur.wf(),
            Self::frame(pre, cur, i),
    {
        Self::lemma_refs_wf_transfer(pre, cur);
        assert forall|j: int| cur.is_cell(j) implies {
            &&& cur.st_at(j) == St::Clean
            &&& cur.edges_at(j).len() == 0
            &&& cur.out_at(j) is None
        } by {
            assert(pre.is_cell(j));
            assert(pre.st_at(j) == St::Clean);
        }
        assert forall|j: int| cur.is_internal_cell(j) implies {
            let g = (cur.owner_at(j))->Some_0 as int;
            &&& cur.is_thunk(g)
            &&& fw_kind(cur.body_at(g))
            &&& cur.out_at(g) == Some(j as usize)
        } by {
            assert(pre.is_internal_cell(j));
            let g = pre.owner_at(j)->Some_0 as int;
            assert(pre.is_thunk(g));
        }
        assert forall|j: int| cur.is_thunk(j) && #[trigger] cur.out_at(j) is Some implies {
            let o = cur.out_at(j)->Some_0 as int;
            &&& fw_kind(cur.body_at(j))
            &&& cur.is_internal_cell(o)
            &&& cur.owner_at(o) == Some(j as usize)
        } by {
            assert(pre.is_thunk(j) && pre.out_at(j) is Some);
            let o = pre.out_at(j)->Some_0 as int;
            assert(pre.is_internal_cell(o));
        }
        assert forall|j: int| #[trigger] cur.executed(j) implies {
            &&& (forall|k: int|
                0 <= k < body_refs(cur.body_at(j)).len()
                    ==> (#[trigger] body_refs(cur.body_at(j))[k] as int) < j)
            &&& cur.edge_layout_ok(j)
            &&& cur.cached_ok(j)
            &&& (fw_kind(cur.body_at(j)) ==> cur.out_at(j) is Some)
        } by {
            assert(j != i);
            assert(pre.executed(j));
            assert(pre.edge_layout_ok(j));
            assert forall|k: int| 0 <= k < body_refs(cur.body_at(j)).len() implies (
            #[trigger] body_refs(cur.body_at(j))[k] as int) < j by {
                assert((body_refs(pre.body_at(j))[k] as int) < j);
            }
            Self::lemma_layout_transfer(pre, cur, j);
            Self::lemma_kind_transfer(pre, cur, j);
        }
        assert forall|j: int| #[trigger] cur.clean(j) implies {
            &&& forall|k: int|
                0 <= k < cur.edges_at(j).len() ==> {
                    let e = #[trigger] cur.edges_at(j)[k];
                    0 <= e.tgt < cur.n() && e.obs == cur.val_at(e.tgt as int)
                }
            &&& forall|k: int|
                0 <= k < body_refs(cur.body_at(j)).len() && cur.is_thunk(
                    #[trigger] body_refs(cur.body_at(j))[k] as int,
                ) ==> cur.clean(body_refs(cur.body_at(j))[k] as int)
        } by {
            assert(j != i);
            assert(pre.clean(j));
            assert forall|k: int| 0 <= k < cur.edges_at(j).len() implies {
                let e = #[trigger] cur.edges_at(j)[k];
                0 <= e.tgt < cur.n() && e.obs == cur.val_at(e.tgt as int)
            } by {
                let e = pre.edges_at(j)[k];
                assert(0 <= e.tgt < pre.n() && e.obs == pre.val_at(e.tgt as int));
            }
            assert forall|k: int|
                0 <= k < body_refs(cur.body_at(j)).len() && cur.is_thunk(
                    #[trigger] body_refs(cur.body_at(j))[k] as int,
                ) implies cur.clean(body_refs(cur.body_at(j))[k] as int) by {
                let d = body_refs(pre.body_at(j))[k] as int;
                assert(pre.is_thunk(d));
                assert(pre.clean(d));
                assert(d != i);
            }
        }
        assert forall|j: int| #[trigger] pre.clean(j) implies Self::node_unchanged(
            pre,
            cur,
            j,
        ) by {
            assert(j != i);
        }
    }

    /// Promoting a maybe-dirty thunk whose every observation still matches:
    /// its body does not run and the engine stays well-formed.
    proof fn lemma_promote_wf(pre: Engine, cur: Engine, i: int)
        requires
            pre.wf(),
            pre.is_thunk(i),
            pre.st_at(i) == St::Dirty,
            forall|k: int|
                0 <= k < pre.edges_at(i).len() ==> {
                    let e = #[trigger] pre.edges_at(i)[k];
                    0 <= e.tgt < pre.n() && e.obs == pre.val_at(e.tgt as int) && (pre.is_thunk(
                        e.tgt as int,
                    ) ==> pre.clean(e.tgt as int))
                },
            cur.bodies@ == pre.bodies@,
            cur.vals@ == pre.vals@,
            cur.outs@ == pre.outs@,
            cur.owners@ == pre.owners@,
            cur.edges@ == pre.edges@,
            cur.sts@ == pre.sts@.update(i, St::Clean),
            cur.mark == pre.mark,
            cur.mark as int <= cur.trace@.len(),
        ensures
            cur.wf(),
            cur.clean(i),
    {
        Self::lemma_refs_wf_transfer(pre, cur);
        assert forall|j: int| cur.is_cell(j) implies {
            &&& cur.st_at(j) == St::Clean
            &&& cur.edges_at(j).len() == 0
            &&& cur.out_at(j) is None
        } by {
            assert(pre.is_cell(j));
            assert(pre.st_at(j) == St::Clean);
        }
        assert forall|j: int| cur.is_internal_cell(j) implies {
            let g = (cur.owner_at(j))->Some_0 as int;
            &&& cur.is_thunk(g)
            &&& fw_kind(cur.body_at(g))
            &&& cur.out_at(g) == Some(j as usize)
        } by {
            assert(pre.is_internal_cell(j));
            let g = pre.owner_at(j)->Some_0 as int;
            assert(pre.is_thunk(g));
        }
        assert forall|j: int| cur.is_thunk(j) && #[trigger] cur.out_at(j) is Some implies {
            let o = cur.out_at(j)->Some_0 as int;
            &&& fw_kind(cur.body_at(j))
            &&& cur.is_internal_cell(o)
            &&& cur.owner_at(o) == Some(j as usize)
        } by {
            assert(pre.is_thunk(j) && pre.out_at(j) is Some);
            let o = pre.out_at(j)->Some_0 as int;
            assert(pre.is_internal_cell(o));
        }
        assert forall|j: int| #[trigger] cur.executed(j) implies {
            &&& (forall|k: int|
                0 <= k < body_refs(cur.body_at(j)).len()
                    ==> (#[trigger] body_refs(cur.body_at(j))[k] as int) < j)
            &&& cur.edge_layout_ok(j)
            &&& cur.cached_ok(j)
            &&& (fw_kind(cur.body_at(j)) ==> cur.out_at(j) is Some)
        } by {
            assert(pre.executed(j));
            assert(pre.edge_layout_ok(j));
            assert forall|k: int| 0 <= k < body_refs(cur.body_at(j)).len() implies (
            #[trigger] body_refs(cur.body_at(j))[k] as int) < j by {
                assert((body_refs(pre.body_at(j))[k] as int) < j);
            }
            Self::lemma_layout_transfer(pre, cur, j);
            Self::lemma_kind_transfer(pre, cur, j);
        }
        assert forall|j: int| #[trigger] cur.clean(j) implies {
            &&& forall|k: int|
                0 <= k < cur.edges_at(j).len() ==> {
                    let e = #[trigger] cur.edges_at(j)[k];
                    0 <= e.tgt < cur.n() && e.obs == cur.val_at(e.tgt as int)
                }
            &&& forall|k: int|
                0 <= k < body_refs(cur.body_at(j)).len() && cur.is_thunk(
                    #[trigger] body_refs(cur.body_at(j))[k] as int,
                ) ==> cur.clean(body_refs(cur.body_at(j))[k] as int)
        } by {
            if j != i {
                assert(pre.clean(j));
                assert forall|k: int| 0 <= k < cur.edges_at(j).len() implies {
                    let e = #[trigger] cur.edges_at(j)[k];
                    0 <= e.tgt < cur.n() && e.obs == cur.val_at(e.tgt as int)
                } by {
                    let e = pre.edges_at(j)[k];
                    assert(0 <= e.tgt < pre.n() && e.obs == pre.val_at(e.tgt as int));
                }
                assert forall|k: int|
                    0 <= k < body_refs(cur.body_at(j)).len() && cur.is_thunk(
                        #[trigger] body_refs(cur.body_at(j))[k] as int,
                    ) implies cur.clean(body_refs(cur.body_at(j))[k] as int) by {
                    let d = body_refs(pre.body_at(j))[k] as int;
                    assert(pre.is_thunk(d));
                    assert(pre.clean(d));
                }
            } else {
                assert(pre.executed(i));
                assert(pre.edge_layout_ok(i));
                assert forall|k: int| 0 <= k < cur.edges_at(j).len() implies {
                    let e = #[trigger] cur.edges_at(j)[k];
                    0 <= e.tgt < cur.n() && e.obs == cur.val_at(e.tgt as int)
                } by {
                    let e = pre.edges_at(i)[k];
                    assert(0 <= e.tgt < pre.n() && e.obs == pre.val_at(e.tgt as int));
                }
                assert forall|k: int|
                    0 <= k < body_refs(cur.body_at(j)).len() && cur.is_thunk(
                        #[trigger] body_refs(cur.body_at(j))[k] as int,
                    ) implies cur.clean(body_refs(cur.body_at(j))[k] as int) by {
                    let d = body_refs(pre.body_at(i))[k] as int;
                    assert(d < i);
                    if fw_layout(pre.body_at(i)) {
                        assert((pre.edges_at(i)[2 * k]).tgt == body_refs(pre.body_at(i))[k]);
                        assert(pre.clean(d));
                    } else {
                        assert((pre.edges_at(i)[k]).tgt == body_refs(pre.body_at(i))[k]);
                        assert(pre.clean(d));
                    }
                }
            }
        }
    }

    /// What one completed read of an executing thunk establishes, in the
    /// state `s` it left behind: the edge targets the read node, observes its
    /// current value, and leaves every thunk it touched clean.
    pub open spec fn read_fact(s: Engine, i: int, es: Seq<EdgeRec>, raw: Seq<Val>, q: int) -> bool {
        let b = s.body_at(i);
        let rs = body_refs(b);
        let d = rs[q] as int;
        if fw_layout(b) {
            &&& es[2 * q].tgt == rs[q]
            &&& s.is_thunk(d)
            &&& fw_kind(s.body_at(d))
            &&& s.clean(d)
            &&& es[2 * q].obs == Val::L(es[2 * q + 1].tgt)
            &&& s.is_internal_cell(es[2 * q + 1].tgt as int)
            &&& es[2 * q].obs == s.val_at(d)
            &&& es[2 * q + 1].obs == s.val_at(es[2 * q + 1].tgt as int)
            &&& raw[q] == es[2 * q + 1].obs
        } else {
            &&& es[q].tgt == rs[q]
            &&& !(s.is_thunk(d) && fw_kind(s.body_at(d)))
            &&& (s.is_thunk(d) ==> s.clean(d))
            &&& es[q].obs == s.val_at(d)
            &&& raw[q] == es[q].obs
        }
    }

    /// The facts phase A of an execution establishes about the recorded
    /// edges, relative to the state `s` in which the body's result is then
    /// computed: targets as the layout dictates, observations current, every
    /// thunk read left clean.
    pub open spec fn reads_ok(s: Engine, i: int, es: Seq<EdgeRec>, raw: Seq<Val>) -> bool {
        let b = s.body_at(i);
        let rs = body_refs(b);
        &&& raw.len() == rs.len()
        &&& es.len() == if fw_layout(b) {
            2 * rs.len()
        } else {
            rs.len()
        }
        &&& forall|q: int| 0 <= q < rs.len() ==> #[trigger] Self::read_fact(s, i, es, raw, q)
    }

    /// One read's facts survive anything a later read may do: everything
    /// they mention is clean, an input cell, or the output cell of a clean
    /// firewall thunk.
    proof fn lemma_read_fact_stable(
        a: Engine,
        b: Engine,
        i: int,
        es: Seq<EdgeRec>,
        raw: Seq<Val>,
        q: int,
        lvl: int,
    )
        requires
            a.wf(),
            a.is_thunk(i),
            0 <= q < body_refs(a.body_at(i)).len(),
            Self::read_fact(a, i, es, raw, q),
            Self::frame(a, b, lvl),
        ensures
            Self::read_fact(b, i, es, raw, q),
    {
        Self::lemma_n_bound(a);
        let bd = a.body_at(i);
        let rs = body_refs(bd);
        let d = rs[q] as int;
        assert(a.owner_at(i) is None);
        assert(a.body_ok(bd, i));
        assert(rs[q] == rs[q]);
        assert(0 <= d < a.n());
        assert(b.bodies@[d] == a.bodies@[d]);
        assert(b.bodies@[i] == a.bodies@[i]);
        if fw_layout(bd) {
            assert(a.clean(d));
            assert(Self::node_unchanged(a, b, d));
            assert(b.clean(d));
            let o = es[2 * q + 1].tgt as int;
            assert(a.is_internal_cell(o));
            let g = a.owner_at(o)->Some_0 as int;
            assert(a.is_thunk(g));
            assert(a.executed(d));
            assert(a.cached_ok(d));
            assert(a.val_at(d) == Val::L(a.out_at(d)->Some_0));
            assert(a.out_at(d)->Some_0 as int == o);
            assert(a.is_thunk(d) && a.out_at(d) is Some);
            assert(a.owner_at(o) == Some(d as usize));
            assert(g == d);
            assert(b.vals@[o] == a.vals@[o]);
            assert(b.owners@[o] == a.owners@[o]);
        } else {
            if a.is_thunk(d) {
                assert(a.clean(d));
                assert(Self::node_unchanged(a, b, d));
            } else {
                assert(a.is_cell(d));
                assert(a.is_input_cell(d) || a.is_internal_cell(d));
                assert(!a.is_internal_cell(d));
                assert(b.vals@[d] == a.vals@[d]);
            }
        }
    }

    /// Committing an execution result: the thunk takes its new edges, cache
    /// and clean state; for a firewall thunk the computed value goes to its
    /// output cell and the cache holds that cell's location.
    proof fn lemma_commit_wf(s: Engine, fin: Engine, i: int, es: Seq<EdgeRec>, raw: Seq<Val>)
        requires
            s.wf(),
            s.is_thunk(i),
            s.st_at(i) == St::Never,
            Self::reads_ok(s, i, es, raw),
            fin.bodies@ == s.bodies@,
            fin.outs@ == s.outs@,
            fin.owners@ == s.owners@,
            fin.sts@ == s.sts@.update(i, St::Clean),
            fin.edges@.len() == s.edges@.len(),
            forall|j: int| 0 <= j < s.n() && j != i ==> fin.edges@[j] == s.edges@[j],
            fin.edges_at(i) == es,
            fin.vals@ == s.vals@.update(i, fin.val_at(i)),
            !fw_kind(s.body_at(i)),
            cache_rel(s.body_at(i), es, fin.val_at(i)),
            fin.mark == s.mark,
            fin.mark as int <= fin.trace@.len(),
        ensures
            fin.wf(),
            fin.clean(i),
    {
        Self::lemma_n_bound(s);
        Self::lemma_refs_wf_transfer(s, fin);
        let b = s.body_at(i);
        let rs = body_refs(b);
        assert forall|j: int| fin.is_cell(j) implies {
            &&& fin.st_at(j) == St::Clean
            &&& fin.edges_at(j).len() == 0
            &&& fin.out_at(j) is None
        } by {
            assert(s.is_cell(j));
            assert(s.st_at(j) == St::Clean);
            assert(j != i);
        }
        assert forall|j: int| fin.is_internal_cell(j) implies {
            let g = (fin.owner_at(j))->Some_0 as int;
            &&& fin.is_thunk(g)
            &&& fw_kind(fin.body_at(g))
            &&& fin.out_at(g) == Some(j as usize)
        } by {
            assert(s.is_internal_cell(j));
            let g = s.owner_at(j)->Some_0 as int;
            assert(s.is_thunk(g));
        }
        assert forall|j: int| fin.is_thunk(j) && #[trigger] fin.out_at(j) is Some implies {
            let o = fin.out_at(j)->Some_0 as int;
            &&& fw_kind(fin.body_at(j))
            &&& fin.is_internal_cell(o)
            &&& fin.owner_at(o) == Some(j as usize)
        } by {
            assert(s.is_thunk(j) && s.out_at(j) is Some);
            let o = s.out_at(j)->Some_0 as int;
            assert(s.is_internal_cell(o));
        }
        // no clean thunk reads `i`: its references lie below it and `i` was
        // never evaluated in `s`
        assert forall|j: int| s.clean(j) implies !Self::edge_hits(s, j, i) by {
            Self::lemma_clean_misses(s, j, i);
        }
        assert forall|j: int| #[trigger] fin.executed(j) implies {
            &&& (forall|k: int|
                0 <= k < body_refs(fin.body_at(j)).len()
                    ==> (#[trigger] body_refs(fin.body_at(j))[k] as int) < j)
            &&& fin.edge_layout_ok(j)
            &&& fin.cached_ok(j)
            &&& (fw_kind(fin.body_at(j)) ==> fin.out_at(j) is Some)
        } by {
            if j != i {
                assert(s.executed(j));
                assert(s.edge_layout_ok(j));
                assert forall|k: int| 0 <= k < body_refs(fin.body_at(j)).len() implies (
                #[trigger] body_refs(fin.body_at(j))[k] as int) < j by {
                    assert((body_refs(s.body_at(j))[k] as int) < j);
                }
                Self::lemma_layout_transfer(s, fin, j);
                assert(fin.cached_ok(j)) by {
                    assert(s.cached_ok(j));
                    assert(fin.obs_vals(j) =~= s.obs_vals(j));
                    match s.body_at(j) {
                        Body::FwCellEq { c, k } => {
                            let o = s.out_at(j)->Some_0 as int;
                            assert(s.is_internal_cell(o));
                            assert(o != i);
                            assert(fin.val_at(o) == s.val_at(o));
                        },
                        Body::FwSquare { c } => {
                            let o = s.out_at(j)->Some_0 as int;
                            assert(s.is_internal_cell(o));
                            assert(o != i);
                            assert(fin.val_at(o) == s.val_at(o));
                        },
                        _ => {
                            assert(fin.val_at(j) == s.val_at(j));
                        },
                    }
                }
            } else {
                assert forall|k: int| 0 <= k < rs.len() implies (#[trigger] rs[k] as int)
                    < j by {
                    assert(s.owner_at(i) is None);
                    assert(s.body_ok(b, i));
                    assert((rs[k] as int) <= i);
                    assert(Self::read_fact(s, i, es, raw, k));
                    if rs[k] as int == i {
                        if fw_layout(b) {
                            assert(s.clean(i));
                            assert(false);
                        } else {
                            assert(s.is_thunk(i) ==> s.clean(i));
                            assert(false);
                        }
                    }
                }
                assert(fin.edge_layout_ok(i)) by {
                    if fw_layout(b) {
                        assert forall|k: int| 0 <= k < rs.len() implies {
                            &&& (#[trigger] fin.edges_at(i)[2 * k]).tgt == rs[k]
                            &&& fin.is_thunk(rs[k] as int)
                            &&& fw_kind(fin.body_at(rs[k] as int))
                            &&& fin.edges_at(i)[2 * k].obs == Val::L(fin.edges_at(i)[2 * k
                                + 1].tgt)
                            &&& fin.is_internal_cell(fin.edges_at(i)[2 * k + 1].tgt as int)
                            &&& fin.owner_at(fin.edges_at(i)[2 * k + 1].tgt as int) == Some(
                                rs[k],
                            )
                        } by {
                            assert(Self::read_fact(s, i, es, raw, k));
                            assert(s.is_internal_cell(es[2 * k + 1].tgt as int));
                            assert(fin.owner_at(es[2 * k + 1].tgt as int) == s.owner_at(
                                es[2 * k + 1].tgt as int,
                            ));
                            // the forced guard is the cell's owner: its cache
                            // names its own output cell
                            let g = rs[k] as int;
                            assert(s.clean(g));
                            assert(s.executed(g));
                            assert(s.cached_ok(g));
                            assert(es[2 * k].obs == s.val_at(g));
                            assert(s.val_at(g) == Val::L(s.out_at(g)->Some_0));
                            assert(s.out_at(g) == Some(es[2 * k + 1].tgt));
                            assert(s.is_thunk(g) && s.out_at(g) is Some);
                            assert(s.owner_at(es[2 * k + 1].tgt as int) == Some(g as usize));
                            Self::lemma_n_bound(s);
                        }
                    } else {
                        assert forall|k: int| 0 <= k < rs.len() implies {
                            &&& (#[trigger] fin.edges_at(i)[k]).tgt == rs[k]
                            &&& !(fin.is_thunk(rs[k] as int) && fw_kind(fin.body_at(
                                rs[k] as int,
                            )))
                        } by {
                            assert(Self::read_fact(s, i, es, raw, k));
                        }
                    }
                }
                assert(fin.cached_ok(i)) by {
                    assert(fin.edges_at(i) == es);
                    assert(cache_rel(b, es, fin.val_at(i)));
                }
            }
        }
        assert forall|j: int| #[trigger] fin.clean(j) implies {
            &&& forall|k: int|
                0 <= k < fin.edges_at(j).len() ==> {
                    let e = #[trigger] fin.edges_at(j)[k];
                    0 <= e.tgt < fin.n() && e.obs == fin.val_at(e.tgt as int)
                }
            &&& forall|k: int|
                0 <= k < body_refs(fin.body_at(j)).len() && fin.is_thunk(
                    #[trigger] body_refs(fin.body_at(j))[k] as int,
                ) ==> fin.clean(body_refs(fin.body_at(j))[k] as int)
        } by {
            if j != i {
                assert(s.clean(j));
                assert(!Self::edge_hits(s, j, i));
                assert forall|k: int| 0 <= k < fin.edges_at(j).len() implies {
                    let e = #[trigger] fin.edges_at(j)[k];
                    0 <= e.tgt < fin.n() && e.obs == fin.val_at(e.tgt as int)
                } by {
                    let e = s.edges_at(j)[k];
                    assert(0 <= e.tgt < s.n() && e.obs == s.val_at(e.tgt as int));
                    assert(e.tgt as int != i);
                    assert(fin.val_at(e.tgt as int) == s.val_at(e.tgt as int));
                }
                assert forall|k: int|
                    0 <= k < body_refs(fin.body_at(j)).len() && fin.is_thunk(
                        #[trigger] body_refs(fin.body_at(j))[k] as int,
                    ) implies fin.clean(body_refs(fin.body_at(j))[k] as int) by {
                    let d = body_refs(s.body_at(j))[k] as int;
                    assert(s.is_thunk(d));
                    assert(s.clean(d));
                    assert(d != i);
                }
            } else {
                assert forall|k: int| 0 <= k < fin.edges_at(j).len() implies {
                    let e = #[trigger] fin.edges_at(j)[k];
                    0 <= e.tgt < fin.n() && e.obs == fin.val_at(e.tgt as int)
                } by {
                    let e = es[k];
                    let q = if fw_layout(b) {
                        k / 2
                    } else {
                        k
                    };
                    assert(0 <= q < rs.len());
                    assert(Self::read_fact(s, i, es, raw, q));
                    if fw_layout(b) {
                        if k % 2 == 0 {
                            assert(k == 2 * q);
                            assert(e.tgt == rs[q] && e.obs == s.val_at(rs[q] as int));
                            assert((rs[q] as int) < i);
                        } else {
                            assert(k == 2 * q + 1);
                            assert(s.is_internal_cell(e.tgt as int));
                            assert(e.obs == s.val_at(e.tgt as int));
                            assert(e.tgt as int != i);
                        }
                    } else {
                        assert(e.tgt == rs[q] && e.obs == s.val_at(rs[q] as int));
                        assert((rs[q] as int) < i);
                    }
                    assert(fin.val_at(e.tgt as int) == s.val_at(e.tgt as int));
                }
                assert forall|k: int|
                    0 <= k < body_refs(fin.body_at(j)).len() && fin.is_thunk(
                        #[trigger] body_refs(fin.body_at(j))[k] as int,
                    ) implies fin.clean(body_refs(fin.body_at(j))[k] as int) by {
                    assert(Self::read_fact(s, i, es, raw, k));
                    let d = rs[k] as int;
                    assert(s.is_thunk(d));
                    assert(s.clean(d));
                    assert(d != i);
                }
            }
        }
    }

    /// Committing a firewall thunk's execution: the computed value is bound
    /// to its output cell (fresh on the first run, rebound in place after)
    /// and the cache holds the cell's location.
    proof fn lemma_commit_fw_wf(
        s: Engine,
        fin: Engine,
        i: int,
        es: Seq<EdgeRec>,
        raw: Seq<Val>,
        ov: Val,
        o: int,
    )
        requires
            s.wf(),
            s.is_thunk(i),
            s.st_at(i) == St::Never,
            Self::reads_ok(s, i, es, raw),
            fw_kind(s.body_at(i)),
            match s.body_at(i) {
                Body::FwCellEq { c, k } => ov == Val::B(
                    body_math(s.body_at(i), obs_of(s.body_at(i), es)) == 1,
                ),
                Body::FwSquare { c } => ov is I && as_math(ov) == body_math(
                    s.body_at(i),
                    obs_of(s.body_at(i), es),
                ),
                _ => false,
            },
            // the two allocation cases
            if s.out_at(i) is None {
                &&& o == s.n()
                &&& fin.bodies@ == s.bodies@.push(Body::Input)
                &&& fin.vals@ == s.vals@.push(ov).update(i, Val::L(o as usize))
                &&& fin.sts@ == s.sts@.push(St::Clean).update(i, St::Clean)
                &&& fin.outs@ == s.outs@.push(None::<usize>).update(i, Some(o as usize))
                &&& fin.owners@ == s.owners@.push(Some(i as usize))
                &&& fin.edges@.len() == s.edges@.len() + 1
                &&& fin.edges_at(o).len() == 0
            } else {
                &&& o == s.out_at(i)->Some_0 as int
                &&& fin.bodies@ == s.bodies@
                &&& fin.vals@ == s.vals@.update(o, ov).update(i, Val::L(o as usize))
                &&& fin.sts@ == s.sts@.update(i, St::Clean)
                &&& fin.outs@ == s.outs@
                &&& fin.owners@ == s.owners@
                &&& fin.edges@.len() == s.edges@.len()
            },
            forall|j: int| 0 <= j < s.n() && j != i ==> fin.edges@[j] == s.edges@[j],
            fin.edges_at(i) == es,
            fin.mark == s.mark,
            fin.mark as int <= fin.trace@.len(),
        ensures
            fin.wf(),
            fin.clean(i),
            fin.out_at(i) == Some(o as usize),
            fin.val_at(i) == Val::L(o as usize),
            fin.val_at(o) == ov,
            o < fin.n(),
    {
        Self::lemma_n_bound(s);
        let b = s.body_at(i);
        let rs = body_refs(b);
        let fresh = s.out_at(i) is None;
        assert(!fw_layout(b));
        if !fresh {
            assert(s.is_internal_cell(o));
            assert(s.owner_at(o) == Some(i as usize));
        }
        assert(fin.out_at(i) == Some(o as usize));
        assert(fin.val_at(o) == ov);
        // structural core
        assert forall|j: int| fin.is_thunk(j) implies {
            &&& fin.owner_at(j) is None
            &&& fin.body_ok(fin.body_at(j), j)
            &&& forall|k: int|
                0 <= k < body_refs(fin.body_at(j)).len()
                    ==> (#[trigger] body_refs(fin.body_at(j))[k] as int) < fin.n()
        } by {
            assert(j < s.n());
            assert(s.is_thunk(j));
            assert(s.owner_at(j) is None);
            assert(s.body_ok(s.body_at(j), j));
            assert forall|k: int| 0 <= k < body_refs(fin.body_at(j)).len() implies {
                let r = #[trigger] body_refs(fin.body_at(j))[k] as int;
                r <= j && r <= fin.n() && !fin.is_internal_cell(r) && r < fin.n()
            } by {
                let r = body_refs(s.body_at(j))[k] as int;
                assert(r <= j && r <= s.n() && !s.is_internal_cell(r));
                assert((body_refs(s.body_at(j))[k] as int) < s.n());
                assert(fin.owner_at(r) == s.owner_at(r));
            }
        }
        assert forall|j: int| fin.is_cell(j) implies {
            &&& fin.st_at(j) == St::Clean
            &&& fin.edges_at(j).len() == 0
            &&& fin.out_at(j) is None
        } by {
            assert(j != i);
            if j < s.n() {
                assert(s.is_cell(j));
                assert(s.st_at(j) == St::Clean);
            } else {
                assert(j == o && fresh);
            }
        }
        assert forall|j: int| fin.is_internal_cell(j) implies {
            let g = (fin.owner_at(j))->Some_0 as int;
            &&& fin.is_thunk(g)
            &&& fw_kind(fin.body_at(g))
            &&& fin.out_at(g) == Some(j as usize)
        } by {
            if j < s.n() {
                assert(s.is_internal_cell(j));
                let g = s.owner_at(j)->Some_0 as int;
                assert(s.is_thunk(g));
                if g == i {
                    assert(s.out_at(g) == Some(j as usize));
                    assert(!fresh);
                    assert(s.out_at(i)->Some_0 == j as usize);
                    assert(o == j);
                }
            } else {
                assert(j == o && fresh);
                assert(fin.owner_at(j) == Some(i as usize));
            }
        }
        assert forall|j: int| fin.is_thunk(j) && #[trigger] fin.out_at(j) is Some implies {
            let oo = fin.out_at(j)->Some_0 as int;
            &&& fw_kind(fin.body_at(j))
            &&& fin.is_internal_cell(oo)
            &&& fin.owner_at(oo) == Some(j as usize)
        } by {
            if j != i {
                assert(s.is_thunk(j) && s.out_at(j) is Some);
                let oo = s.out_at(j)->Some_0 as int;
                assert(s.is_internal_cell(oo));
            } else {
                if fresh {
                    assert(fin.owner_at(o) == Some(i as usize));
                } else {
                    assert(s.is_internal_cell(o));
                    assert(fin.owner_at(o) == s.owner_at(o));
                }
            }
        }
        // no clean thunk reads `i` or its output cell
        assert forall|j: int| s.clean(j) implies !Self::edge_hits(s, j, i) && !Self::edge_hits(
            s,
            j,
            o,
        ) by {
            Self::lemma_clean_misses(s, j, i);
            if fresh {
                if s.clean(j) && Self::edge_hits(s, j, o) {
                    let k = choose|k: int|
                        0 <= k < s.edges_at(j).len() && (#[trigger] s.edges_at(j)[k]).tgt as int
                            == o;
                    assert(0 <= s.edges_at(j)[k].tgt < s.n());
                    assert(false);
                }
            } else {
                Self::lemma_clean_misses_out(s, j, i, o);
            }
        }
        assert forall|j: int| #[trigger] fin.executed(j) implies {
            &&& (forall|k: int|
                0 <= k < body_refs(fin.body_at(j)).len()
                    ==> (#[trigger] body_refs(fin.body_at(j))[k] as int) < j)
            &&& fin.edge_layout_ok(j)
            &&& fin.cached_ok(j)
            &&& (fw_kind(fin.body_at(j)) ==> fin.out_at(j) is Some)
        } by {
            if j != i {
                assert(j < s.n());
                assert(s.executed(j));
                assert(s.edge_layout_ok(j));
                assert forall|k: int| 0 <= k < body_refs(fin.body_at(j)).len() implies (
                #[trigger] body_refs(fin.body_at(j))[k] as int) < j by {
                    assert((body_refs(s.body_at(j))[k] as int) < j);
                }
                Self::lemma_layout_transfer(s, fin, j);
                assert(fin.cached_ok(j)) by {
                    assert(s.cached_ok(j));
                    assert(fin.obs_vals(j) =~= s.obs_vals(j));
                    match s.body_at(j) {
                        Body::FwCellEq { c, k } => {
                            let oo = s.out_at(j)->Some_0 as int;
                            assert(s.is_thunk(j) && s.out_at(j) is Some);
                            assert(s.is_internal_cell(oo));
                            assert(s.owner_at(oo) == Some(j as usize));
                            assert(oo != i);
                            assert(oo != o) by {
                                if fresh {
                                    assert(oo < s.n());
                                } else {
                                    assert(s.is_thunk(i) && s.out_at(i) is Some);
                                    assert(s.owner_at(o) == Some(i as usize));
                                }
                            }
                            assert(fin.val_at(oo) == s.val_at(oo));
                            assert(fin.val_at(j) == s.val_at(j));
                        },
                        Body::FwSquare { c } => {
                            let oo = s.out_at(j)->Some_0 as int;
                            assert(s.is_thunk(j) && s.out_at(j) is Some);
                            assert(s.is_internal_cell(oo));
                            assert(s.owner_at(oo) == Some(j as usize));
                            assert(oo != i);
                            assert(oo != o) by {
                                if fresh {
                                    assert(oo < s.n());
                                } else {
                                    assert(s.is_thunk(i) && s.out_at(i) is Some);
                                    assert(s.owner_at(o) == Some(i as usize));
                                }
                            }
                            assert(fin.val_at(oo) == s.val_at(oo));
                            assert(fin.val_at(j) == s.val_at(j));
                        },
                        _ => {
                            assert(fin.val_at(j) == s.val_at(j));
                        },
                    }
                }
            } else {
                assert forall|k: int| 0 <= k < rs.len() implies (#[trigger] rs[k] as int)
                    < j by {
                    assert(s.owner_at(i) is None);
                    assert(s.body_ok(b, i));
                    assert((rs[k] as int) <= i);
                    assert(Self::read_fact(s, i, es, raw, k));
                    if rs[k] as int == i {
                        assert(s.is_thunk(i) ==> s.clean(i));
                        assert(false);
                    }
                }
                assert(fin.edge_layout_ok(i)) by {
                    assert forall|k: int| 0 <= k < rs.len() implies {
                        &&& (#[trigger] fin.edges_at(i)[k]).tgt == rs[k]
                        &&& !(fin.is_thunk(rs[k] as int) && fw_kind(fin.body_at(rs[k] as int)))
                    } by {
                        assert(Self::read_fact(s, i, es, raw, k));
                        assert((rs[k] as int) < s.n());
                    }
                }
                assert(fin.cached_ok(i)) by {
                    assert(fin.edges_at(i) == es);
                    assert(obs_of(b, es) =~= fin.obs_vals(i));
                }
            }
        }
        assert forall|j: int| #[trigger] fin.clean(j) implies {
            &&& forall|k: int|
                0 <= k < fin.edges_at(j).len() ==> {
                    let e = #[trigger] fin.edges_at(j)[k];
                    0 <= e.tgt < fin.n() && e.obs == fin.val_at(e.tgt as int)
                }
            &&& forall|k: int|
                0 <= k < body_refs(fin.body_at(j)).len() && fin.is_thunk(
                    #[trigger] body_refs(fin.body_at(j))[k] as int,
                ) ==> fin.clean(body_refs(fin.body_at(j))[k] as int)
        } by {
            if j != i && j < s.n() && s.is_thunk(j) && fin.st_at(j) == St::Clean {
                assert(s.clean(j));
                assert(!Self::edge_hits(s, j, i) && !Self::edge_hits(s, j, o));
                assert forall|k: int| 0 <= k < fin.edges_at(j).len() implies {
                    let e = #[trigger] fin.edges_at(j)[k];
                    0 <= e.tgt < fin.n() && e.obs == fin.val_at(e.tgt as int)
                } by {
                    let e = s.edges_at(j)[k];
                    assert(0 <= e.tgt < s.n() && e.obs == s.val_at(e.tgt as int));
                    assert(e.tgt as int != i && e.tgt as int != o);
                    assert(fin.val_at(e.tgt as int) == s.val_at(e.tgt as int));
                }
                assert forall|k: int|
                    0 <= k < body_refs(fin.body_at(j)).len() && fin.is_thunk(
                        #[trigger] body_refs(fin.body_at(j))[k] as int,
                    ) implies fin.clean(body_refs(fin.body_at(j))[k] as int) by {
                    let d = body_refs(s.body_at(j))[k] as int;
                    assert(s.is_thunk(d));
                    assert(s.clean(d));
                    assert(d != i);
                }
            } else if j == i {
                assert forall|k: int| 0 <= k < fin.edges_at(j).len() implies {
                    let e = #[trigger] fin.edges_at(j)[k];
                    0 <= e.tgt < fin.n() && e.obs == fin.val_at(e.tgt as int)
                } by {
                    let e = es[k];
                    assert(Self::read_fact(s, i, es, raw, k));
                    assert(e.tgt == rs[k] && e.obs == s.val_at(rs[k] as int));
                    assert((rs[k] as int) < i || !(s.is_thunk(rs[k] as int) ==> s.clean(
                        rs[k] as int,
                    )) || rs[k] as int != i);
                    assert(e.tgt as int != i) by {
                        if rs[k] as int == i {
                            assert(s.is_thunk(i) ==> s.clean(i));
                            assert(false);
                        }
                    }
                    assert(e.tgt as int != o) by {
                        assert(s.owner_at(i) is None);
                        assert(s.body_ok(b, i));
                        assert(!s.is_internal_cell(rs[k] as int));
                        if fresh {
                            assert((rs[k] as int) < s.n());
                        } else {
                            assert(s.is_internal_cell(o));
                        }
                    }
                    assert(fin.val_at(e.tgt as int) == s.val_at(e.tgt as int));
                }
                assert forall|k: int|
                    0 <= k < body_refs(fin.body_at(j)).len() && fin.is_thunk(
                        #[trigger] body_refs(fin.body_at(j))[k] as int,
                    ) implies fin.clean(body_refs(fin.body_at(j))[k] as int) by {
                    assert(Self::read_fact(s, i, es, raw, k));
                    let d = rs[k] as int;
                    assert(s.is_thunk(d));
                    assert(s.clean(d));
                    assert(d != i);
                }
            } else {
                assert(fin.is_thunk(j) && j >= s.n());
                assert(false);
            }
        }
    }

    /// A clean thunk records no edge to the output cell of a never-evaluated
    /// firewall thunk: whoever reads that cell forced its owner first.
    proof fn lemma_clean_misses_out(s: Engine, j: int, i: int, o: int)
        requires
            s.wf(),
            s.is_thunk(i),
            s.st_at(i) == St::Never,
            s.out_at(i) == Some(o as usize),
            0 <= o < s.n(),
        ensures
            s.clean(j) ==> !Self::edge_hits(s, j, o),
    {
        Self::lemma_n_bound(s);
        assert(s.is_thunk(i) && s.out_at(i) is Some);
        let op = s.out_at(i)->Some_0 as int;
        assert(s.is_internal_cell(op));
        assert(s.owner_at(op) == Some(i as usize));
        assert(s.out_at(i)->Some_0 == o as usize);
        assert(op == o);
        assert(s.is_internal_cell(o));
        assert(s.owner_at(o) == Some(i as usize));
        if s.clean(j) && Self::edge_hits(s, j, o) {
            let k = choose|k: int|
                0 <= k < s.edges_at(j).len() && (#[trigger] s.edges_at(j)[k]).tgt as int == o;
            assert(s.executed(j));
            assert(s.edge_layout_ok(j));
            let b = s.body_at(j);
            let rs = body_refs(b);
            if fw_layout(b) {
                let q = k / 2;
                assert(0 <= q < rs.len());
                assert((s.edges_at(j)[2 * q]).tgt == rs[q]);
                if k % 2 == 0 {
                    assert(k == 2 * q);
                    assert(rs[q] as int == o);
                    assert(s.is_thunk(o));
                    assert(false);
                } else {
                    assert(k == 2 * q + 1);
                    // the guard read is clean, so the even edge observes the
                    // guard's cache, which names the guard's own output cell
                    let g = rs[q] as int;
                    assert(s.is_thunk(g) && fw_kind(s.body_at(g)));
                    assert(s.clean(g));
                    assert(s.edges_at(j)[2 * q].obs == s.val_at(g));
                    assert(s.edges_at(j)[2 * q].obs == Val::L(s.edges_at(j)[2 * q + 1].tgt));
                    assert(s.executed(g));
                    assert(s.cached_ok(g));
                    assert(s.val_at(g) == Val::L(s.out_at(g)->Some_0));
                    assert(s.edges_at(j)[2 * q + 1].tgt == s.out_at(g)->Some_0);
                    assert(s.out_at(g) == Some(o as usize));
                    assert(s.is_thunk(g) && s.out_at(g) is Some);
                    assert(s.owner_at(o) == Some(g as usize));
                    assert(Some(g as usize) == Some(i as usize));
                    assert(g == i);
                    assert(s.clean(i));
                    assert(false);
                }
            } else {
                assert((s.edges_at(j)[k]).tgt == rs[k]);
                assert(s.owner_at(j) is None);
                assert(s.body_ok(b, j));
                assert(!s.is_internal_cell(rs[k] as int));
                assert(false);
            }
        }
    }

    /// The arena's size fits the machine word; indices below it cast to
    /// `usize` and back without loss.
    proof fn lemma_n_bound(s: Engine)
        ensures
            s.n() <= usize::MAX as int,
    {
        assert(s.bodies.len() == s.bodies@.len());
    }

    /// Whether any recorded edge of `j` targets node `i`.
    pub open spec fn edge_hits(s: Engine, j: int, i: int) -> bool {
        exists|k: int| 0 <= k < s.edges_at(j).len() && (#[trigger] s.edges_at(j)[k]).tgt as int == i
    }

    /// A clean thunk records no edge to a never-evaluated thunk: its edge
    /// targets are its own references (all clean) and their output cells.
    proof fn lemma_clean_misses(s: Engine, j: int, i: int)
        requires
            s.wf(),
            s.is_thunk(i),
            s.st_at(i) == St::Never,
        ensures
            s.clean(j) ==> !Self::edge_hits(s, j, i),
    {
        if s.clean(j) && Self::edge_hits(s, j, i) {
            let k = choose|k: int|
                0 <= k < s.edges_at(j).len() && (#[trigger] s.edges_at(j)[k]).tgt as int == i;
            assert(s.executed(j));
            assert(s.edge_layout_ok(j));
            let b = s.body_at(j);
            let rs = body_refs(b);
            if fw_layout(b) {
                let q = k / 2;
                assert(0 <= q < rs.len());
                assert((s.edges_at(j)[2 * q]).tgt == rs[q]);
                if k % 2 == 0 {
                    assert(k == 2 * q);
                    assert(rs[q] as int == i);
                    assert(s.clean(i));
                    assert(false);
                } else {
                    assert(k == 2 * q + 1);
                    assert(s.is_internal_cell(s.edges_at(j)[2 * q + 1].tgt as int));
                    assert(false);
                }
            } else {
                assert((s.edges_at(j)[k]).tgt == rs[k]);
                assert(rs[k] as int == i);
                assert(s.clean(i));
                assert(false);
            }
        }
    }

    /// One plain read during an execution of thunk `i`: a cell's value, or a
    /// force of an earlier thunk. Reading one's own location is the cycle
    /// error; reading a firewall thunk without the protocol is a body fault.
    fn read_plain(&mut self, i: usize, d: usize) -> (r: Result<Val, EngineError>)
        requires
            old(self).wf(),
            old(self).is_thunk(i as int),
            d as int <= i as int,
            (d as int) < old(self).n(),
            !old(self).is_internal_cell(d as int),
        ensures
            final(self).wf(),
            Self::frame(*old(self), *final(self), d as int),
            r is Ok <==> ((d as int) < i as int && old(self).denote_ok(d as int) && !(old(
                self,
            ).is_thunk(d as int) && fw_kind(old(self).body_at(d as int)))),
            r is Ok ==> {
                &&& r->Ok_0 == final(self).val_at(d as int)
                &&& as_math(r->Ok_0) == old(self).denote(d as int)
                &&& (old(self).is_thunk(d as int) ==> final(self).clean(d as int))
            },
            d as int >= i as int ==> *final(self) == *old(self) && r == Err::<Val, EngineError>(
                EngineError::CyclicDependency,
            ),
            Self::reruns_at_most(*old(self), *final(self), d as int),
            Self::settled_nodes_kept(*old(self), *final(self)),
        decreases i as int, 1int,
    {
        if d >= i {
            proof {
                assert(d as int == i as int);
                Self::lemma_settled_kept_refl(*old(self), *self);
            }
            return Err(EngineError::CyclicDependency);
        }
        if self.kind_is_fw(d) {
            proof {
                Self::lemma_settled_kept_refl(*old(self), *self);
            }
            return Err(EngineError::BodyPanic);
        }
        if self.kind_is_cell(d) {
            let v = self.vals[d];
            proof {
                assert(*self == *old(self));
                Self::lemma_settled_kept_refl(*old(self), *self);
                assert(old(self).denote(d as int) == as_math(old(self).val_at(d as int)));
            }
            Ok(v)
        } else {
            let r = self.force_at(d);
            r
        }
    }

    /// One firewall-protocol read during an execution of thunk `i`: force the
    /// firewall thunk `d`, then read the output cell it returned. Yields the
    /// forced value, the cell's location and the cell's value.
    fn read_fw(&mut self, i: usize, d: usize) -> (r: Result<(Val, usize, Val), EngineError>)
        requires
            old(self).wf(),
            old(self).is_thunk(i as int),
            d as int <= i as int,
            (d as int) < old(self).n(),
            !old(self).is_internal_cell(d as int),
        ensures
            final(self).wf(),
            Self::frame(*old(self), *final(self), d as int),
            r is Ok <==> ((d as int) < i as int && old(self).is_thunk(d as int) && fw_kind(
                old(self).body_at(d as int),
            ) && old(self).denote_ok(d as int)),
            r is Ok ==> {
                &&& r->Ok_0.0 == Val::L(r->Ok_0.1)
                &&& r->Ok_0.0 == final(self).val_at(d as int)
                &&& final(self).clean(d as int)
                &&& final(self).out_at(d as int) == Some(r->Ok_0.1)
                &&& (r->Ok_0.1 as int) < final(self).n()
                &&& final(self).is_internal_cell(r->Ok_0.1 as int)
                &&& r->Ok_0.2 == final(self).val_at(r->Ok_0.1 as int)
                &&& as_math(r->Ok_0.2) == old(self).denote(d as int)
            },
            d as int >= i as int ==> *final(self) == *old(self) && r == Err::<
                (Val, usize, Val),
                EngineError,
            >(EngineError::CyclicDependency),
            Self::reruns_at_most(*old(self), *final(self), d as int),
            Self::settled_nodes_kept(*old(self), *final(self)),
        decreases i as int, 1int,
    {
        if d >= i {
            proof {
                Self::lemma_settled_kept_refl(*old(self), *self);
            }
            return Err(EngineError::CyclicDependency);
        }
        if !self.kind_is_fw(d) {
            proof {
                Self::lemma_settled_kept_refl(*old(self), *self);
            }
            return Err(EngineError::BodyPanic);
        }
        let rv = match self.force_at(d) {
            Ok(v) => v,
            Err(e) => {
                return Err(e);
            },
        };
        match rv {
            Val::L(o) => {
                proof {
                    assert(self.out_at(d as int) == Some(o));
                    assert(self.is_thunk(d as int) && self.out_at(d as int) is Some);
                    assert(self.is_internal_cell(o as int));
                }
                let ov = self.vals[o];
                Ok((rv, o, ov))
            },
            _ => {
                proof {
                    assert(false);
                }
                Err(EngineError::BodyPanic)
            },
        }
    }

    /// `denote` and `denote_ok` are stable across anything a force does.
    proof fn lemma_denote_frame_ok(self, post: Engine, d: int)
        requires
            self.wf(),
            post.n() >= self.n(),
            forall|j: int| 0 <= j < self.n() ==> #[trigger] post.bodies@[j] == self.bodies@[j],
            forall|j: int| 0 <= j < self.n() ==> #[trigger] post.owners@[j] == self.owners@[j],
            forall|j: int| #[trigger] self.is_input_cell(j) ==> post.vals@[j] == self.vals@[j],
            0 <= d < self.n(),
            !self.is_internal_cell(d),
        ensures
            post.denote(d) == self.denote(d),
            post.denote_ok(d) == self.denote_ok(d),
    {
        Self::lemma_denote_frame(self, post, d);
    }

    /// Check a maybe-dirty thunk's recorded observations against the current
    /// values, resolving each dependency first. `Ok(true)` means all matched
    /// and the thunk can be promoted without running its body.
    fn revalidate(&mut self, i: usize) -> (r: Result<bool, EngineError>)
        requires
            old(self).wf(),
            old(self).is_thunk(i as int),
            old(self).st_at(i as int) == St::Dirty,
        ensures
            final(self).wf(),
            Self::frame(*old(self), *final(self), i as int),
            Self::node_unchanged(*old(self), *final(self), i as int),
            r == Ok::<bool, EngineError>(true) ==> forall|k: int|
                0 <= k < final(self).edges_at(i as int).len() ==> {
                    let e = #[trigger] final(self).edges_at(i as int)[k];
                    0 <= e.tgt < final(self).n() && e.obs == final(self).val_at(e.tgt as int)
                        && (final(self).is_thunk(e.tgt as int) ==> final(self).clean(
                        e.tgt as int,
                    ))
                },
            r is Err ==> !old(self).denote_ok(i as int),
            r == Ok::<bool, EngineError>(false) ==> !old(self).settled_match(i as int),
            r == Ok::<bool, EngineError>(true) ==> old(self).settled_match(i as int),
            Self::reruns_at_most(*old(self), *final(self), i as int - 1),
            Self::settled_nodes_kept(*old(self), *final(self)),
        decreases i as int, 2int,
    {
        let ghost s0 = *old(self);
        let m = self.edges[i].len();
        proof {
            assert(s0.executed(i as int));
            assert(s0.edge_layout_ok(i as int));
        }
        let mut k: usize = 0;
        proof {
            Self::lemma_settled_kept_refl(s0, *self);
        }
        while k < m
            invariant
                s0 == *old(self),
                s0.wf(),
                s0.is_thunk(i as int),
                s0.st_at(i as int) == St::Dirty,
                self.wf(),
                Self::frame(s0, *self, i as int - 1),
                m as int == s0.edges_at(i as int).len(),
                k <= m,
                self.edges_at(i as int) == s0.edges_at(i as int),
                Self::reruns_at_most(s0, *self, i as int - 1),
                Self::settled_nodes_kept(s0, *self),
                forall|q: int|
                    0 <= q < k as int ==> {
                        let e = #[trigger] self.edges_at(i as int)[q];
                        0 <= e.tgt < self.n() && e.obs == self.val_at(e.tgt as int) && (
                        self.is_thunk(e.tgt as int) ==> self.clean(e.tgt as int))
                    },
                forall|q: int| 0 <= q < k as int ==> #[trigger] s0.edge_settled(i as int, q),
            decreases m - k,
        {
            let ghost sk = *self;
            let e = self.edges[i][k];
            let ghost q = if fw_layout(s0.body_at(i as int)) {
                (k as int) / 2
            } else {
                k as int
            };
            proof {
                assert(s0.executed(i as int));
                assert(s0.edge_layout_ok(i as int));
                assert(s0.edges_at(i as int)[k as int] == e);
                assert(0 <= q < body_refs(s0.body_at(i as int)).len());
                assert(body_refs(s0.body_at(i as int))[q] == body_refs(s0.body_at(i as int))[q]);
                if fw_layout(s0.body_at(i as int)) {
                    assert((s0.edges_at(i as int)[2 * q]).tgt == body_refs(
                        s0.body_at(i as int),
                    )[q]);
                }
                assert((body_refs(s0.body_at(i as int))[q] as int) < i as int);
                if fw_layout(s0.body_at(i as int)) && k as int == 2 * q + 1 {
                    assert(s0.is_internal_cell(e.tgt as int));
                } else {
                    assert(e.tgt == body_refs(s0.body_at(i as int))[q]);
                }
                assert(0 <= e.tgt < s0.n());
                assert(self.bodies@[e.tgt as int] == s0.bodies@[e.tgt as int]);
            }
            let cur: Val;
            if self.kind_is_cell(e.tgt) {
                cur = self.vals[e.tgt];
                proof {
                    Self::lemma_frame_refl(sk, i as int - 1);
                }
            } else {
                proof {
                    assert(self.is_thunk(e.tgt as int));
                    assert(s0.is_thunk(e.tgt as int));
                    assert((e.tgt as int) < i as int);
                }
                match self.force_at(e.tgt) {
                    Ok(v) => {
                        cur = v;
                        proof {
                            Self::lemma_frame_mono(sk, *self, e.tgt as int, i as int - 1);
                            Self::lemma_reruns_chain(
                                s0,
                                sk,
                                *self,
                                i as int - 1,
                                e.tgt as int,
                                i as int - 1,
                            );
                            Self::lemma_settled_kept_trans(s0, sk, *self);
                        }
                    },
                    Err(er) => {
                        proof {
                            // the failed dependency is one of the thunk's own
                            // reads, so the thunk is not owed success
                            let d = body_refs(s0.body_at(i as int))[q] as int;
                            assert(e.tgt as int == d);
                            assert(0 <= d < s0.n()) by {
                                assert(s0.owner_at(i as int) is None);
                                assert(s0.body_ok(s0.body_at(i as int), i as int));
                                assert((body_refs(s0.body_at(i as int))[q] as int) < s0.n());
                            }
                            assert(!s0.is_internal_cell(d));
                            assert(!sk.is_internal_cell(d));
                            sk.lemma_denote_frame_ok(*self, d);
                            Self::lemma_denote_frame(s0, sk, d);
                            assert(!s0.denote_ok(d));
                            s0.lemma_all_ok_pointwise(body_refs(s0.body_at(i as int)), i as int);
                            assert(!s0.all_ok(body_refs(s0.body_at(i as int)), i as int));
                            Self::lemma_frame_mono(sk, *self, e.tgt as int, i as int - 1);
                            Self::lemma_frame_trans(s0, sk, *self, i as int - 1);
                            Self::lemma_reruns_chain(
                                s0,
                                sk,
                                *self,
                                i as int - 1,
                                e.tgt as int,
                                i as int - 1,
                            );
                            Self::lemma_settled_kept_trans(s0, sk, *self);
                            assert(s0.is_thunk(i as int));
                            assert(Self::node_unchanged(s0, *self, i as int));
                            Self::lemma_frame_mono(s0, *self, i as int - 1, i as int);
                            assert(!s0.denote_ok(i as int));
                        }
                        return Err(er);
                    },
                }
            }
            proof {
                let now = *self;
                Self::lemma_frame_trans(s0, sk, now, i as int - 1);
                assert(s0.is_thunk(i as int));
                assert(Self::node_unchanged(s0, now, i as int));
                assert(now.edges_at(i as int) == s0.edges_at(i as int));
                // earlier matches survive: everything they mention is clean
                // or an input, which later forces leave alone
                assert forall|q2: int| 0 <= q2 < k as int implies {
                    let e2 = #[trigger] now.edges_at(i as int)[q2];
                    0 <= e2.tgt < now.n() && e2.obs == now.val_at(e2.tgt as int) && (
                    now.is_thunk(e2.tgt as int) ==> now.clean(e2.tgt as int))
                } by {
                    let e2 = sk.edges_at(i as int)[q2];
                    assert(0 <= e2.tgt < sk.n() && e2.obs == sk.val_at(e2.tgt as int) && (
                    sk.is_thunk(e2.tgt as int) ==> sk.clean(e2.tgt as int)));
                    if sk.is_thunk(e2.tgt as int) {
                        assert(sk.clean(e2.tgt as int));
                        assert(Self::node_unchanged(sk, now, e2.tgt as int));
                    } else {
                        assert(sk.is_cell(e2.tgt as int));
                        if sk.is_input_cell(e2.tgt as int) {
                            assert(now.vals@[e2.tgt as int] == sk.vals@[e2.tgt as int]);
                        } else {
                            assert(sk.is_internal_cell(e2.tgt as int));
                            let g = sk.owner_at(e2.tgt as int)->Some_0 as int;
                            assert(sk.is_thunk(g));
                            // the cell was read through its owner, which was
                            // left clean by the earlier resolution
                            let qq = q2 / 2;
                            assert(0 <= qq < body_refs(s0.body_at(i as int)).len());
                            assert(body_refs(s0.body_at(i as int))[qq] == body_refs(
                                s0.body_at(i as int),
                            )[qq]);
                            assert((s0.edges_at(i as int)[2 * qq]).tgt == body_refs(
                                s0.body_at(i as int),
                            )[qq]);
                            assert(q2 == 2 * qq + 1);
                            let e0 = sk.edges_at(i as int)[2 * qq];
                            assert(sk.is_thunk(e0.tgt as int) ==> sk.clean(e0.tgt as int));
                            assert(sk.clean(e0.tgt as int));
                            assert(e0.obs == sk.val_at(e0.tgt as int));
                            assert(sk.executed(e0.tgt as int));
                            assert(sk.cached_ok(e0.tgt as int));
                            assert(sk.val_at(e0.tgt as int) == Val::L(
                                sk.out_at(e0.tgt as int)->Some_0,
                            ));
                            assert(s0.edges_at(i as int)[2 * qq].obs == Val::L(
                                s0.edges_at(i as int)[2 * qq + 1].tgt,
                            ));
                            assert(sk.out_at(e0.tgt as int)->Some_0 == e2.tgt);
                            assert(sk.owner_at(e2.tgt as int) == Some(e0.tgt));
                            assert(g == e0.tgt as int);
                            assert(sk.clean(g));
                            assert(now.vals@[e2.tgt as int] == sk.vals@[e2.tgt as int]);
                        }
                    }
                }
            }
            if cur != e.obs {
                proof {
                    assert(Self::node_unchanged(s0, *self, i as int));
                    Self::lemma_frame_mono(s0, *self, i as int - 1, i as int);
                    // a mismatch refutes settledness: each read's current
                    // value is exactly what it settles to
                    if s0.settled_match(i as int) {
                        let b = s0.body_at(i as int);
                        let rs = body_refs(b);
                        assert(rs[q] == rs[q]);
                        let g = rs[q] as int;
                        if fw_layout(b) {
                            let o = s0.edges_at(i as int)[2 * q + 1].tgt as int;
                            assert(s0.is_internal_cell(o));
                            assert(s0.owner_at(o) == Some(rs[q]));
                            assert(self.owners@[o] == s0.owners@[o]);
                            assert(self.bodies@[o] == s0.bodies@[o]);
                            assert(self.is_internal_cell(o));
                            if k as int == 2 * q {
                                // the guard's cache still names its own cell
                                assert(self.clean(g) && cur == self.val_at(g));
                                assert(self.executed(g));
                                assert(self.cached_ok(g));
                                assert(self.owner_at(o) == Some(rs[q]));
                                assert(self.out_at(g) == Some(o as usize)) by {
                                    Self::lemma_n_bound(s0);
                                }
                                assert(cur == Val::L(o as usize));
                                assert(e.obs == Val::L(s0.edges_at(i as int)[2 * q + 1].tgt));
                                assert(false);
                            } else {
                                assert(k as int == 2 * q + 1);
                                assert(e.tgt as int == o);
                                // the guard was brought up to date by the
                                // previous read, so its cell carries fw_val
                                let e0 = self.edges_at(i as int)[2 * q];
                                assert(0 <= 2 * q < k as int);
                                assert(e0.tgt as int == g);
                                assert(self.is_thunk(g) ==> self.clean(g));
                                assert(self.is_thunk(g)) by {
                                    assert(s0.is_thunk(g));
                                    assert(self.bodies@[g] == s0.bodies@[g]);
                                }
                                assert(self.clean(g));
                                self.lemma_clean_denote(g);
                                assert(self.out_at(g) == Some(o as usize)) by {
                                    assert(self.executed(g));
                                    assert(self.cached_ok(g));
                                    assert(self.owner_at(o) == Some(rs[q]));
                                    Self::lemma_n_bound(s0);
                                }
                                assert(self.val_at(o) == self.fw_val(g));
                                assert(cur == self.val_at(o));
                                Self::lemma_fw_val_frame(s0, *self, g);
                                assert(e.obs == s0.fw_val(g));
                                assert(false);
                            }
                        } else {
                            let d = rs[k as int] as int;
                            assert(e.tgt as int == d);
                            if self.kind_is_cell_spec(d) {
                                assert(s0.is_cell(d));
                                assert(s0.owner_at(i as int) is None);
                                assert(s0.body_ok(b, i as int));
                                assert(!s0.is_internal_cell(d));
                                assert(s0.is_input_cell(d));
                                assert(cur == self.val_at(d));
                                assert(self.vals@[d] == s0.vals@[d]);
                                assert(e.obs == s0.val_at(d));
                                assert(false);
                            } else {
                                assert(s0.is_thunk(d));
                                assert(self.clean(d) && cur == self.val_at(d));
                                self.lemma_clean_denote(d);
                                assert(!(s0.is_thunk(d) && fw_kind(s0.body_at(d))));
                                assert(self.bodies@[d] == s0.bodies@[d]);
                                assert(cur == self.denote_val(d));
                                assert(s0.owner_at(i as int) is None);
                                assert(s0.body_ok(b, i as int));
                                assert(!s0.is_internal_cell(d));
                                Self::lemma_denote_val_frame(s0, *self, d);
                                assert(e.obs == s0.denote_val(d));
                                assert(false);
                            }
                        }
                    }
                }
                return Ok(false);
            }
            proof {
                assert(cur == self.val_at(e.tgt as int));
                if self.is_thunk(e.tgt as int) {
                    assert(self.clean(e.tgt as int));
                }
                // the matched observation is the value this read settles to
                assert(s0.edge_settled(i as int, k as int)) by {
                    let b = s0.body_at(i as int);
                    let rs = body_refs(b);
                    assert(rs[q] == rs[q]);
                    let g = rs[q] as int;
                    if fw_layout(b) {
                        if k as int == 2 * q + 1 {
                            let o = s0.edges_at(i as int)[2 * q + 1].tgt as int;
                            assert(s0.is_internal_cell(o));
                            assert(s0.owner_at(o) == Some(rs[q]));
                            assert(self.owners@[o] == s0.owners@[o]);
                            assert(self.bodies@[o] == s0.bodies@[o]);
                            assert(self.is_internal_cell(o));
                            let e0 = self.edges_at(i as int)[2 * q];
                            assert(0 <= 2 * q < k as int);
                            assert(e0.tgt as int == g);
                            assert(self.is_thunk(g)) by {
                                assert(s0.is_thunk(g));
                                assert(self.bodies@[g] == s0.bodies@[g]);
                            }
                            assert(self.clean(g));
                            self.lemma_clean_denote(g);
                            assert(self.out_at(g) == Some(o as usize)) by {
                                assert(self.executed(g));
                                assert(self.cached_ok(g));
                                assert(self.owner_at(o) == Some(rs[q]));
                                Self::lemma_n_bound(s0);
                            }
                            assert(self.val_at(o) == self.fw_val(g));
                            assert(cur == self.val_at(o));
                            Self::lemma_fw_val_frame(s0, *self, g);
                        }
                    } else {
                        let d = rs[k as int] as int;
                        assert(e.tgt as int == d);
                        assert(s0.owner_at(i as int) is None);
                        assert(s0.body_ok(b, i as int));
                        assert(!s0.is_internal_cell(d));
                        if self.kind_is_cell_spec(d) {
                            assert(s0.is_cell(d));
                            assert(s0.is_input_cell(d));
                            assert(self.vals@[d] == s0.vals@[d]);
                        } else {
                            assert(s0.is_thunk(d));
                            assert(self.clean(d) && cur == self.val_at(d));
                            self.lemma_clean_denote(d);
                            assert(!(s0.is_thunk(d) && fw_kind(s0.body_at(d))));
                            assert(self.bodies@[d] == s0.bodies@[d]);
                            assert(cur == self.denote_val(d));
                            Self::lemma_denote_val_frame(s0, *self, d);
                        }
                    }
                }
            }
            k += 1;
        }
        proof {
            assert(s0.is_thunk(i as int));
            assert(Self::node_unchanged(s0, *self, i as int));
            Self::lemma_frame_mono(s0, *self, i as int - 1, i as int);
            assert(s0.executed(i as int));
            assert(s0.edge_layout_ok(i as int));
            s0.lemma_edges_settled(i as int);
        }
        Ok(true)
    }

    /// Run a thunk's body: roll back to never-evaluated, read every
    /// dependency in order recording one observation per read, compute the
    /// result, and commit it with a clean state. A failure anywhere leaves
    /// the thunk never-evaluated with no cached value.
    #[verifier::rlimit(100)]
    fn execute(&mut self, i: usize) -> (r: Result<Val, EngineError>)
        requires
            old(self).wf(),
            old(self).is_thunk(i as int),
            !old(self).clean(i as int),
            !(old(self).executed(i as int) && old(self).settled_match(i as int)),
        ensures
            final(self).wf(),
            Self::frame(*old(self), *final(self), i as int),
            r is Ok <==> old(self).denote_ok(i as int),
            r is Ok ==> final(self).clean(i as int) && r->Ok_0 == final(self).val_at(i as int),
            r is Ok && !fw_kind(old(self).body_at(i as int)) ==> as_math(r->Ok_0) == old(
                self,
            ).denote(i as int),
            r is Ok && fw_kind(old(self).body_at(i as int)) ==> {
                &&& final(self).out_at(i as int) is Some
                &&& r->Ok_0 == Val::L(final(self).out_at(i as int)->Some_0)
                &&& as_math(
                    final(self).val_at(final(self).out_at(i as int)->Some_0 as int),
                ) == old(self).denote(i as int)
            },
            r is Err ==> final(self).st_at(i as int) == St::Never && final(self).edges_at(
                i as int,
            ).len() == 0,
            body_refs(old(self).body_at(i as int)).len() > 0 && body_refs(
                old(self).body_at(i as int),
            )[0] == i ==> r == Err::<Val, EngineError>(EngineError::CyclicDependency),
            Self::reruns_at_most(*old(self), *final(self), i as int),
            final(self).trace@.len() > old(self).trace@.len()
                && final(self).trace@[old(self).trace@.len() as int] == (Trace::ForceRerun {
                id: i,
            }),
            Self::settled_nodes_kept(*old(self), *final(self)),
        decreases i as int, 2int,
    {
        self.trace.push(Trace::ForceRerun { id: i });
        self.sts[i] = St::Never;
        self.edges[i] = Vec::new();
        proof {
            assert(self.edges@[i as int]@.len() == 0);
            Self::lemma_rollback_wf(*old(self), *self, i as int);
            // settled nodes are untouched by the rollback: the rolled-back
            // thunk itself is not settled
            Self::lemma_n_bound(*old(self));
            assert forall|j: int|
                old(self).executed(j) && #[trigger] old(self).settled_match(j) implies old(
                self,
            ).is_thunk(j) && j != i as int && Self::no_rerun_of(*old(self), *self, j) by {
                assert(j != i as int);
            }
            Self::lemma_settled_kept_step(*old(self), *self);
        }
        let ghost s0 = *self;
        let m = self.ref_count(i);
        let fw = self.layout_is_fw(i);
        let mut raw: Vec<Val> = Vec::new();
        let mut es: Vec<EdgeRec> = Vec::new();
        let mut k: usize = 0;
        while k < m
            invariant
                old(self).wf(),
                old(self).is_thunk(i as int),
                !old(self).clean(i as int),
                Self::frame(*old(self), s0, i as int),
                s0.wf(),
                s0.is_thunk(i as int),
                s0.st_at(i as int) == St::Never,
                s0.edges_at(i as int).len() == 0,
                self.wf(),
                Self::frame(s0, *self, i as int - 1),
                Self::reruns_at_most(*old(self), *self, i as int),
                Self::settled_nodes_kept(*old(self), *self),
                self.trace@.len() > old(self).trace@.len(),
                self.trace@[old(self).trace@.len() as int] == (Trace::ForceRerun { id: i }),
                m as int == body_refs(s0.body_at(i as int)).len(),
                fw == fw_layout(s0.body_at(i as int)),
                k <= m,
                raw@.len() == k as int,
                es@.len() == if fw {
                    2 * (k as int)
                } else {
                    k as int
                },
                forall|q: int|
                    0 <= q < k as int ==> #[trigger] Self::read_fact(
                        *self,
                        i as int,
                        es@,
                        raw@,
                        q,
                    ),
                forall|q: int|
                    0 <= q < k as int ==> {
                        let d = #[trigger] body_refs(s0.body_at(i as int))[q] as int;
                        0 <= d < i as int && s0.denote_ok(d) && as_math(raw@[q]) == s0.denote(d)
                    },
            decreases m - k,
        {
            let ghost sk = *self;
            let ghost es0 = es@;
            let ghost raw0 = raw@;
            let d = self.ref_at(i, k);
            proof {
                assert(self.body_at(i as int) == s0.body_at(i as int));
            }
            if fw {
                match self.read_fw(i, d) {
                    Ok(t) => {
                        let (lv, o, ov) = t;
                        es.push(EdgeRec { tgt: d, obs: lv });
                        es.push(EdgeRec { tgt: o, obs: ov });
                        raw.push(ov);
                        proof {
                            Self::lemma_step_facts(s0, sk, *self, i as int, es@, raw@, es0, raw0, k as int, d as int);
                            Self::lemma_reruns_chain(
                                *old(self),
                                sk,
                                *self,
                                i as int,
                                d as int,
                                i as int,
                            );
                            Self::lemma_settled_kept_trans(*old(self), sk, *self);
                        }
                    },
                    Err(e) => {
                        proof {
                            Self::lemma_step_err(s0, sk, *self, i as int, k as int, d as int);
                            if d as int >= i as int {
                                assert(*self == sk);
                                Self::lemma_frame_refl(sk, i as int - 1);
                            } else {
                                Self::lemma_frame_mono(sk, *self, d as int, i as int - 1);
                            }
                            Self::lemma_frame_trans(s0, sk, *self, i as int - 1);
                            assert(Self::node_unchanged(s0, *self, i as int));
                            Self::lemma_frame_mono(s0, *self, i as int - 1, i as int);
                            assert(old(self).lens_ok() && s0.lens_ok());
                            Self::lemma_frame_trans(*old(self), s0, *self, i as int);
                            if k == 0 && body_refs(s0.body_at(i as int))[0] == i {
                                assert(e == EngineError::CyclicDependency);
                            }
                            Self::lemma_denote_frame(*old(self), s0, i as int);
                            Self::lemma_reruns_chain(
                                *old(self),
                                sk,
                                *self,
                                i as int,
                                d as int,
                                i as int,
                            );
                            Self::lemma_settled_kept_trans(*old(self), sk, *self);
                        }
                        return Err(e);
                    },
                }
            } else {
                match self.read_plain(i, d) {
                    Ok(v) => {
                        es.push(EdgeRec { tgt: d, obs: v });
                        raw.push(v);
                        proof {
                            Self::lemma_step_facts(s0, sk, *self, i as int, es@, raw@, es0, raw0, k as int, d as int);
                            Self::lemma_reruns_chain(
                                *old(self),
                                sk,
                                *self,
                                i as int,
                                d as int,
                                i as int,
                            );
                            Self::lemma_settled_kept_trans(*old(self), sk, *self);
                        }
                    },
                    Err(e) => {
                        proof {
                            Self::lemma_step_err(s0, sk, *self, i as int, k as int, d as int);
                            if d as int >= i as int {
                                assert(*self == sk);
                                Self::lemma_frame_refl(sk, i as int - 1);
                            } else {
                                Self::lemma_frame_mono(sk, *self, d as int, i as int - 1);
                            }
                            Self::lemma_frame_trans(s0, sk, *self, i as int - 1);
                            assert(Self::node_unchanged(s0, *self, i as int));
                            Self::lemma_frame_mono(s0, *self, i as int - 1, i as int);
                            assert(old(self).lens_ok() && s0.lens_ok());
                            Self::lemma_frame_trans(*old(self), s0, *self, i as int);
                            if k == 0 && body_refs(s0.body_at(i as int))[0] == i {
                                assert(e == EngineError::CyclicDependency);
                            }
                            Self::lemma_denote_frame(*old(self), s0, i as int);
                            Self::lemma_reruns_chain(
                                *old(self),
                                sk,
                                *self,
                                i as int,
                                d as int,
                                i as int,
                            );
                            Self::lemma_settled_kept_trans(*old(self), sk, *self);
                        }
                        return Err(e);
                    },
                }
            }
            k += 1;
        }
        let ghost sc = *self;
        proof {
            assert(Self::node_unchanged(s0, sc, i as int));
            assert(sc.st_at(i as int) == St::Never);
            assert(sc.edges_at(i as int).len() == 0);
        }
        let ghost bsp = s0.body_at(i as int);
        let ghost rs = body_refs(bsp);
        let ghost dvs = s0.dep_vals(rs, i as int);
        proof {
            assert(Self::reads_ok(sc, i as int, es@, raw@));
            s0.lemma_dep_vals_index(rs, i as int);
            assert(maths_of(raw@) =~= dvs) by {
                assert forall|q: int| 0 <= q < rs.len() implies #[trigger] maths_of(raw@)[q]
                    == dvs[q] by {
                    assert(as_math(raw@[q]) == s0.denote(rs[q] as int));
                }
            }
            assert(obs_of(bsp, es@) =~= maths_of(raw@)) by {
                assert forall|q: int| 0 <= q < rs.len() implies #[trigger] obs_of(bsp, es@)[q]
                    == maths_of(raw@)[q] by {
                    assert(Self::read_fact(sc, i as int, es@, raw@, q));
                }
            }
        }
        // compute the body's result from what was read
        let res_r: Result<Val, EngineError> = match &self.bodies[i] {
            Body::Input => Ok(Val::I(0)),
            Body::CellEq { c, k: kk } => {
                let x = val_to_i32(raw[0]);
                Ok(Val::B(x == *kk))
            },
            Body::FwCellEq { c, k: kk } => {
                let x = val_to_i32(raw[0]);
                Ok(Val::B(x == *kk))
            },
            Body::Square { c } => {
                match square_i32(val_to_i32(raw[0])) {
                    Ok(v) => Ok(Val::I(v)),
                    Err(e) => Err(e),
                }
            },
            Body::FwSquare { c } => {
                match square_i32(val_to_i32(raw[0])) {
                    Ok(v) => Ok(Val::I(v)),
                    Err(e) => Err(e),
                }
            },
            Body::Read { x, fw: _ } => Ok(raw[0]),
            Body::Leg { a, b: bb, w } => {
                let ia = val_to_i32(raw[0]);
                let ib = val_to_i32(raw[1]);
                if ia < 0 || (ia as usize) >= w.len() {
                    Err(EngineError::BodyPanic)
                } else if ib < 0 || (ib as usize) >= w[ia as usize].len() {
                    Err(EngineError::BodyPanic)
                } else {
                    Ok(Val::I(w[ia as usize][ib as usize]))
                }
            },
            Body::Sum { xs, fw: _ } => {
                match sum_vals(&raw) {
                    Ok(v) => Ok(Val::I(v)),
                    Err(e) => Err(e),
                }
            },
            Body::CountIll { gs, fw: _, adj } => {
                match count_ill_vals(&raw, adj) {
                    Ok(v) => Ok(Val::I(v)),
                    Err(e) => Err(e),
                }
            },
            Body::BranchScore { cnt, ill } => {
                match branch_formula(val_to_i32(raw[0]), val_to_i32(raw[1])) {
                    Ok(v) => Ok(Val::I(v)),
                    Err(e) => Err(e),
                }
            },
            Body::Merged { gs, fw: _, adj } => {
                match count_ill_vals(&raw, adj) {
                    Ok(e) => {
                        let c = ones_count(&raw);
                        match branch_formula(c, e) {
                            Ok(v) => Ok(Val::I(v)),
                            Err(er) => Err(er),
                        }
                    },
                    Err(er) => Err(er),
                }
            },
        };
        proof {
            // success of the computation is exactly the body's own conditions
            assert(maths_of(raw@).len() == rs.len());
            assert(res_r is Ok <==> (i32_range(body_math(bsp, maths_of(raw@)))
                && Self::body_extra_ok(bsp, maths_of(raw@)))) by {
                match bsp {
                    Body::Leg { a, b: bb, w } => {
                        assert(as_math(raw@[0]) == maths_of(raw@)[0]);
                        assert(as_math(raw@[1]) == maths_of(raw@)[1]);
                        if res_r is Ok {
                            assert(i32_range(w@[maths_of(raw@)[0]]@[maths_of(raw@)[1]] as int));
                        }
                    },
                    Body::Merged { gs, fw: _, adj } => {
                        lemma_ones_bound(maths_of(raw@), maths_of(raw@).len() as int);
                    },
                    Body::CountIll { gs, fw: _, adj } => {
                        if res_r is Ok {
                            lemma_ill_bound(maths_of(raw@), adj.deep_view(),
                                maths_of(raw@).len() as int);
                            assert((maths_of(raw@).len() as int) * (maths_of(raw@).len() as int)
                                <= MAX_GROUP * MAX_GROUP) by (nonlinear_arith)
                                requires
                                    0 <= maths_of(raw@).len() <= MAX_GROUP,
                            ;
                        }
                    },
                    _ => {},
                }
            }
            if res_r is Err {
                assert(!s0.denote_ok(i as int)) by {
                    assert(body_math(bsp, dvs) == body_math(bsp, maths_of(raw@)));
                    assert(Self::body_extra_ok(bsp, dvs) == Self::body_extra_ok(
                        bsp,
                        maths_of(raw@),
                    ));
                }
                Self::lemma_frame_mono(s0, sc, i as int - 1, i as int);
                assert(old(self).lens_ok() && s0.lens_ok() && sc.lens_ok());
                Self::lemma_frame_trans(*old(self), s0, sc, i as int);
                Self::lemma_denote_frame(*old(self), s0, i as int);
            }
        }
        let res = match res_r {
            Ok(v) => v,
            Err(e) => {
                return Err(e);
            },
        };
        // commit: a firewall thunk binds its output cell and caches the
        // location; any other thunk caches the value itself
        if self.kind_is_fw(i) {
            let ov = res;
            let o: usize;
            match self.outs[i] {
                Some(oo) => {
                    proof {
                        assert(sc.is_thunk(i as int) && sc.out_at(i as int) is Some);
                        assert(sc.is_internal_cell(oo as int));
                    }
                    self.trace.push(Trace::AllocCell { id: oo, fresh: false });
                    self.vals[oo] = ov;
                    o = oo;
                },
                None => {
                    let oo = self.bodies.len();
                    self.bodies.push(Body::Input);
                    self.vals.push(ov);
                    self.sts.push(St::Clean);
                    self.edges.push(Vec::new());
                    self.outs.push(None);
                    self.owners.push(Some(i));
                    self.outs[i] = Some(oo);
                    self.trace.push(Trace::AllocCell { id: oo, fresh: true });
                    o = oo;
                },
            }
            let ghost esv = es@;
            self.edges[i] = es;
            self.vals[i] = Val::L(o);
            self.sts[i] = St::Clean;
            proof {
                Self::lemma_commit_fw_wf(sc, *self, i as int, esv, raw@, ov, o as int);
                assert forall|j: int|
                    sc.executed(j) && #[trigger] sc.settled_match(j) implies sc.is_thunk(j) && j
                    != i as int && self.executed(j) && self.edges_at(j) == sc.edges_at(j)
                    && self.val_at(j) == sc.val_at(j) && self.out_at(j) == sc.out_at(j)
                    && Self::no_rerun_of(sc, *self, j) by {
                    assert(sc.st_at(i as int) == St::Never);
                    assert(j != i as int);
                }
                Self::lemma_settled_kept_step(sc, *self);
                Self::lemma_settled_kept_trans(*old(self), sc, *self);
                self.lemma_clean_denote(i as int);
                assert(Self::frame(sc, *self, i as int)) by {
                    Self::lemma_commit_frame(sc, *self, i as int);
                }
                Self::lemma_frame_mono(s0, sc, i as int - 1, i as int);
                assert(old(self).lens_ok() && s0.lens_ok() && sc.lens_ok());
                Self::lemma_frame_trans(*old(self), s0, sc, i as int);
                Self::lemma_frame_trans(*old(self), sc, *self, i as int);
                Self::lemma_denote_frame(*old(self), *self, i as int);
            }
            Ok(Val::L(o))
        } else {
            let ghost esv = es@;
            self.edges[i] = es;
            self.vals[i] = res;
            self.sts[i] = St::Clean;
            proof {
                assert(cache_rel(bsp, esv, res)) by {
                    assert(body_math(bsp, obs_of(bsp, esv)) == body_math(bsp, maths_of(raw@)));
                    match bsp {
                        Body::Read { x, fw: ff } => {
                            assert(Self::read_fact(sc, i as int, esv, raw@, 0));
                        },
                        Body::Leg { a, b: bb, w } => {
                            assert(obs_of(bsp, esv)[0] == maths_of(raw@)[0]);
                            assert(obs_of(bsp, esv)[1] == maths_of(raw@)[1]);
                        },
                        _ => {},
                    }
                }
                Self::lemma_commit_wf(sc, *self, i as int, esv, raw@);
                assert forall|j: int|
                    sc.executed(j) && #[trigger] sc.settled_match(j) implies sc.is_thunk(j) && j
                    != i as int && self.executed(j) && self.edges_at(j) == sc.edges_at(j)
                    && self.val_at(j) == sc.val_at(j) && self.out_at(j) == sc.out_at(j)
                    && Self::no_rerun_of(sc, *self, j) by {
                    assert(sc.st_at(i as int) == St::Never);
                    assert(j != i as int);
                }
                Self::lemma_settled_kept_step(sc, *self);
                Self::lemma_settled_kept_trans(*old(self), sc, *self);
                self.lemma_clean_denote(i as int);
                assert(Self::frame(sc, *self, i as int)) by {
                    Self::lemma_commit_frame(sc, *self, i as int);
                }
                Self::lemma_frame_mono(s0, sc, i as int - 1, i as int);
                assert(old(self).lens_ok() && s0.lens_ok() && sc.lens_ok());
                Self::lemma_frame_trans(*old(self), s0, sc, i as int);
                Self::lemma_frame_trans(*old(self), sc, *self, i as int);
                Self::lemma_denote_frame(*old(self), *self, i as int);
            }
            Ok(res)
        }
    }

    /// A read's outcome, translated back to the fixed reference state `s0`,
    /// and the survival of all earlier read facts.
    proof fn lemma_step_facts(
        s0: Engine,
        sk: Engine,
        now: Engine,
        i: int,
        es: Seq<EdgeRec>,
        raw: Seq<Val>,
        es0: Seq<EdgeRec>,
        raw0: Seq<Val>,
        k: int,
        d: int,
    )
        requires
            s0.wf(),
            sk.wf(),
            now.wf(),
            s0.is_thunk(i),
            0 <= k < body_refs(s0.body_at(i)).len(),
            body_refs(s0.body_at(i))[k] as int == d,
            Self::frame(s0, sk, i - 1),
            Self::frame(sk, now, d),
            d <= i,
            raw.len() == k + 1,
            es.len() == if fw_layout(s0.body_at(i)) {
                2 * (k + 1)
            } else {
                (k + 1)
            },
            es0.len() == if fw_layout(s0.body_at(i)) {
                2 * k
            } else {
                k
            },
            raw0.len() == k,
            forall|j: int| 0 <= j < es0.len() ==> #[trigger] es[j] == es0[j],
            forall|j: int| 0 <= j < raw0.len() ==> #[trigger] raw[j] == raw0[j],
            forall|q: int| 0 <= q < k ==> #[trigger] Self::read_fact(sk, i, es0, raw0, q),
            forall|q: int|
                0 <= q < k ==> {
                    let dd = #[trigger] body_refs(s0.body_at(i))[q] as int;
                    0 <= dd < i && s0.denote_ok(dd) && as_math(raw[q]) == s0.denote(dd)
                },
            Self::read_fact(now, i, es, raw, k),
            0 <= d < i,
            sk.denote_ok(d),
            as_math(raw[k]) == sk.denote(d),
        ensures
            Self::frame(s0, now, i - 1),
            forall|q: int| 0 <= q <= k ==> #[trigger] Self::read_fact(now, i, es, raw, q),
            forall|q: int|
                0 <= q <= k ==> {
                    let dd = #[trigger] body_refs(s0.body_at(i))[q] as int;
                    0 <= dd < i && s0.denote_ok(dd) && as_math(raw[q]) == s0.denote(dd)
                },
    {
        Self::lemma_frame_mono(sk, now, d, i - 1);
        Self::lemma_frame_trans(s0, sk, now, i - 1);
        assert(now.body_at(i) == s0.body_at(i));
        assert(sk.body_at(i) == s0.body_at(i));
        let b = s0.body_at(i);
        assert forall|q: int| 0 <= q <= k implies #[trigger] Self::read_fact(
            now,
            i,
            es,
            raw,
            q,
        ) by {
            if q < k {
                assert(Self::read_fact(sk, i, es0, raw0, q));
                assert(Self::read_fact(sk, i, es, raw, q)) by {
                    if fw_layout(b) {
                        assert(es[2 * q] == es0[2 * q]);
                        assert(es[2 * q + 1] == es0[2 * q + 1]);
                    } else {
                        assert(es[q] == es0[q]);
                    }
                    assert(raw[q] == raw0[q]);
                }
                Self::lemma_read_fact_stable(sk, now, i, es, raw, q, d);
            }
        }
        assert forall|q: int| 0 <= q <= k implies {
            let dd = #[trigger] body_refs(s0.body_at(i))[q] as int;
            0 <= dd < i && s0.denote_ok(dd) && as_math(raw[q]) == s0.denote(dd)
        } by {
            if q == k {
                assert(s0.owner_at(i) is None);
                assert(s0.body_ok(s0.body_at(i), i));
                assert(!s0.is_internal_cell(d));
                assert((body_refs(s0.body_at(i))[k] as int) < s0.n());
                Self::lemma_denote_frame(s0, sk, d);
            }
        }
    }

    /// A failed read means the thunk it served is not owed success.
    proof fn lemma_step_err(s0: Engine, sk: Engine, now: Engine, i: int, k: int, d: int)
        requires
            s0.wf(),
            sk.wf(),
            s0.is_thunk(i),
            0 <= k < body_refs(s0.body_at(i)).len(),
            body_refs(s0.body_at(i))[k] as int == d,
            Self::frame(s0, sk, i - 1),
            d <= i,
            // the read refused: target out of order, of the wrong kind, or
            // itself not owed success
            !(d < i && (if fw_layout(s0.body_at(i)) {
                sk.is_thunk(d) && fw_kind(sk.body_at(d)) && sk.denote_ok(d)
            } else {
                sk.denote_ok(d) && !(sk.is_thunk(d) && fw_kind(sk.body_at(d)))
            })),
        ensures
            !s0.denote_ok(i),
    {
        let b = s0.body_at(i);
        let rs = body_refs(b);
        assert(s0.owner_at(i) is None);
        assert(s0.body_ok(b, i));
        assert(rs[k] == rs[k]);
        if d >= i {
            assert(d == i);
            assert(!s0.denote_ok(i));
        } else {
            assert(!s0.is_internal_cell(d));
            assert((body_refs(b)[k] as int) < s0.n());
            assert(0 <= d < s0.n());
            Self::lemma_denote_frame(s0, sk, d);
            assert(sk.bodies@[d] == s0.bodies@[d]);
            assert(sk.is_thunk(d) == s0.is_thunk(d));
            if s0.denote_ok(i) {
                s0.lemma_all_ok_pointwise(rs, i);
                assert(s0.denote_ok(d));
                assert(sk.denote_ok(d));
                if fw_layout(b) {
                    assert(s0.is_thunk(d) && fw_kind(s0.body_at(d)));
                    assert(false);
                } else {
                    assert(!(s0.is_thunk(d) && fw_kind(s0.body_at(d))));
                    assert(false);
                }
            }
        }
    }

    /// The commit step touches only node `i`, its output cell and the trace.
    proof fn lemma_commit_frame(sc: Engine, fin: Engine, i: int)
        requires
            sc.lens_ok(),
            sc.is_thunk(i),
            sc.st_at(i) == St::Never,
            sc.n() <= fin.n(),
            forall|j: int| 0 <= j < sc.n() ==> #[trigger] fin.bodies@[j] == sc.bodies@[j],
            forall|j: int|
                sc.n() <= j < fin.n() ==> #[trigger] fin.is_internal_cell(j),
            forall|j: int| 0 <= j < sc.n() && j != i ==> #[trigger] fin.owners@[j] == sc.owners@[j],
            fin.owners@.len() >= sc.owners@.len(),
            forall|j: int| 0 <= j < sc.n() ==> fin.owners@[j] == sc.owners@[j],
            forall|j: int|
                0 <= j < sc.n() && j != i && !(sc.is_internal_cell(j) && sc.owner_at(j) == Some(
                    i as usize,
                )) ==> #[trigger] Self::node_unchanged(sc, fin, j),
            forall|j: int|
                sc.is_thunk(j) && #[trigger] sc.out_at(j) is Some ==> fin.outs@[j] == sc.outs@[j],
            sc.trace@.is_prefix_of(fin.trace@),
            fin.mark == sc.mark,
        ensures
            Self::frame(sc, fin, i),
    {
        assert forall|j: int| #[trigger] sc.is_input_cell(j) implies fin.vals@[j]
            == sc.vals@[j] by {
            assert(j != i);
            assert(!(sc.is_internal_cell(j) && sc.owner_at(j) == Some(i as usize)));
            assert(Self::node_unchanged(sc, fin, j));
        }
        assert forall|j: int| sc.is_thunk(j) && j > i implies #[trigger] Self::node_unchanged(
            sc,
            fin,
            j,
        ) by {
            assert(!(sc.is_internal_cell(j)));
        }
        assert forall|j: int|
            #[trigger] sc.is_internal_cell(j) && ((sc.owner_at(j)->Some_0 as int) > i
                || sc.clean(sc.owner_at(j)->Some_0 as int)) implies fin.vals@[j]
            == sc.vals@[j] by {
            let g = sc.owner_at(j)->Some_0 as int;
            assert(g != i);
            assert(sc.owner_at(j) != Some(i as usize)) by {
                Self::lemma_n_bound(sc);
            }
            assert(Self::node_unchanged(sc, fin, j));
        }
        assert forall|j: int| #[trigger] sc.clean(j) implies Self::node_unchanged(
            sc,
            fin,
            j,
        ) by {
            assert(j != i);
            assert(!sc.is_internal_cell(j));
        }
    }

    /// Demand a thunk's value: a clean hit returns the cache; a maybe-dirty
    /// thunk is revalidated against its recorded observations and re-executed
    /// only if one of them no longer matches.
    fn force_at(&mut self, i: usize) -> (r: Result<Val, EngineError>)
        requires
            old(self).wf(),
            old(self).is_thunk(i as int),
        ensures
            final(self).wf(),
            Self::frame(*old(self), *final(self), i as int),
            r is Ok <==> old(self).denote_ok(i as int),
            r is Ok ==> final(self).clean(i as int) && r->Ok_0 == final(self).val_at(i as int),
            r is Ok && !fw_kind(old(self).body_at(i as int)) ==> as_math(r->Ok_0) == old(
                self,
            ).denote(i as int),
            r is Ok && fw_kind(old(self).body_at(i as int)) ==> {
                &&& final(self).out_at(i as int) is Some
                &&& r->Ok_0 == Val::L(final(self).out_at(i as int)->Some_0)
                &&& as_math(
                    final(self).val_at(final(self).out_at(i as int)->Some_0 as int),
                ) == old(self).denote(i as int)
            },
            old(self).clean(i as int) ==> {
                &&& final(self).bodies@ == old(self).bodies@
                &&& final(self).vals@ == old(self).vals@
                &&& final(self).sts@ == old(self).sts@
                &&& final(self).edges@ == old(self).edges@
                &&& final(self).outs@ == old(self).outs@
                &&& final(self).owners@ == old(self).owners@
                &&& final(self).trace@ == old(self).trace@.push(Trace::ForceCleanHit { id: i })
            },
            body_refs(old(self).body_at(i as int)).len() > 0 && body_refs(
                old(self).body_at(i as int),
            )[0] == i ==> (r == Err::<Val, EngineError>(EngineError::CyclicDependency)
                && final(self).st_at(i as int) == St::Never),
            Self::reruns_at_most(*old(self), *final(self), i as int),
            Self::settled_nodes_kept(*old(self), *final(self)),
            old(self).denote_ok(i as int) && old(self).settled_match(i as int)
                ==> Self::no_rerun_of(*old(self), *final(self), i as int),
            old(self).st_at(i as int) == St::Dirty && old(self).denote_ok(i as int) && !old(
                self,
            ).settled_match(i as int) ==> exists|t: int|
                old(self).trace@.len() <= t < final(self).trace@.len() && final(self).trace@[t]
                    == (Trace::ForceRerun { id: i }),
        decreases i as int, 3int,
    {
        let st = self.sts[i];
        proof {
            if body_refs(old(self).body_at(i as int)).len() > 0 && body_refs(
                old(self).body_at(i as int),
            )[0] == i && st != St::Never {
                assert(old(self).executed(i as int));
                assert((body_refs(old(self).body_at(i as int))[0] as int) < i as int);
                assert(false);
            }
        }
        match st {
            St::Clean => {
                self.trace.push(Trace::ForceCleanHit { id: i });
                let v = self.vals[i];
                proof {
                    Self::lemma_wf_core_transfer(*old(self), *self);
                    old(self).lemma_clean_denote(i as int);
                    assert(old(self).trace@.is_prefix_of(self.trace@)) by {
                        assert(old(self).trace@ =~= self.trace@.subrange(
                            0,
                            old(self).trace@.len() as int,
                        ));
                    }
                    assert(self.denote(i as int) == old(self).denote(i as int)) by {
                        Self::lemma_denote_frame(*old(self), *self, i as int);
                    }
                    Self::lemma_settled_kept_step(*old(self), *self);
                }
                Ok(v)
            },
            St::Never => {
                proof {
                    assert(!old(self).executed(i as int));
                }
                self.execute(i)
            },
            St::Dirty => {
                match self.revalidate(i) {
                    Err(e) => {
                        proof {
                            if old(self).denote_ok(i as int) {
                                assert(false);
                            }
                        }
                        Err(e)
                    },
                    Ok(true) => {
                        let ghost sv = *self;
                        self.sts[i] = St::Clean;
                        self.trace.push(Trace::CleanRevalidate { id: i });
                        let v = self.vals[i];
                        proof {
                            assert(sv.st_at(i as int) == St::Dirty);
                            Self::lemma_promote_wf(sv, *self, i as int);
                            Self::lemma_settled_kept_step(sv, *self);
                            Self::lemma_settled_kept_trans(*old(self), sv, *self);
                            self.lemma_clean_denote(i as int);
                            assert(Self::frame(sv, *self, i as int)) by {
                                assert forall|j: int| #[trigger] sv.clean(j) implies
                                    Self::node_unchanged(sv, *self, j) by {
                                    assert(j != i);
                                }
                                assert forall|j: int| sv.is_thunk(j) && j > i as int implies
                                    #[trigger] Self::node_unchanged(sv, *self, j) by {
                                    assert(j != i);
                                }
                                assert(sv.trace@.is_prefix_of(self.trace@)) by {
                                    assert(sv.trace@ =~= self.trace@.subrange(
                                        0,
                                        sv.trace@.len() as int,
                                    ));
                                }
                            }
                            assert(old(self).lens_ok() && sv.lens_ok());
                            Self::lemma_frame_trans(*old(self), sv, *self, i as int);
                            Self::lemma_denote_frame(*old(self), *self, i as int);
                        }
                        Ok(v)
                    },
                    Ok(false) => {
                        let ghost s1 = *self;
                        proof {
                            // a failed revalidation refutes settledness, in
                            // the state the body will re-run from too
                            assert(s1.executed(i as int));
                            assert(!(s1.executed(i as int) && s1.settled_match(i as int))) by {
                                if s1.settled_match(i as int) {
                                    Self::lemma_settled_match_frame(
                                        *old(self),
                                        s1,
                                        i as int,
                                    );
                                    assert(old(self).settled_match(i as int));
                                    assert(false);
                                }
                            }
                        }
                        let r = self.execute(i);
                        proof {
                            assert(old(self).lens_ok() && s1.lens_ok());
                            Self::lemma_frame_trans(*old(self), s1, *self, i as int);
                            Self::lemma_denote_frame(*old(self), s1, i as int);
                            Self::lemma_reruns_chain(
                                *old(self),
                                s1,
                                *self,
                                i as int - 1,
                                i as int,
                                i as int,
                            );
                            Self::lemma_settled_kept_trans(*old(self), s1, *self);
                        }
                        r
                    },
                }
            },
        }
    }

    /// Demand the current value of a location: a cell's stored value, or a
    /// thunk forced through change propagation. The result equals what
    /// re-running every body from scratch on the current inputs would give.
    pub fn get(&mut self, id: usize) -> (r: Result<Val, EngineError>)
        requires
            old(self).wf(),
        ensures
            final(self).wf(),
            (id as int) >= old(self).n() ==> r == Err::<Val, EngineError>(
                EngineError::UnknownLocation,
            ) && *final(self) == *old(self),
            old(self).is_cell(id as int) ==> r == Ok::<Val, EngineError>(
                old(self).val_at(id as int),
            ) && *final(self) == *old(self),
            old(self).is_thunk(id as int) ==> {
                &&& Self::frame(*old(self), *final(self), id as int)
                &&& (r is Ok <==> old(self).denote_ok(id as int))
                &&& (r is Ok ==> final(self).clean(id as int) && r->Ok_0 == final(self).val_at(
                    id as int,
                ))
                &&& (r is Ok && !fw_kind(old(self).body_at(id as int)) ==> as_math(r->Ok_0)
                    == old(self).denote(id as int))
                &&& (r is Ok && fw_kind(old(self).body_at(id as int)) ==> {
                    &&& final(self).out_at(id as int) is Some
                    &&& r->Ok_0 == Val::L(final(self).out_at(id as int)->Some_0)
                    &&& as_math(
                        final(self).val_at(final(self).out_at(id as int)->Some_0 as int),
                    ) == old(self).denote(id as int)
                })
                &&& (old(self).clean(id as int) ==> final(self).trace@ == old(self).trace@.push(
                    Trace::ForceCleanHit { id },
                ) && final(self).vals@ == old(self).vals@ && final(self).sts@ == old(self).sts@)
                &&& (body_refs(old(self).body_at(id as int)).len() > 0 && body_refs(
                    old(self).body_at(id as int),
                )[0] == id ==> r == Err::<Val, EngineError>(EngineError::CyclicDependency)
                    && final(self).st_at(id as int) == St::Never)
                &&& Self::reruns_at_most(*old(self), *final(self), id as int)
                &&& (old(self).denote_ok(id as int) && old(self).settled_match(id as int)
                    ==> Self::no_rerun_of(*old(self), *final(self), id as int))
                &&& (old(self).st_at(id as int) == St::Dirty && old(self).denote_ok(id as int)
                    && !old(self).settled_match(id as int) ==> exists|t: int|
                    old(self).trace@.len() <= t < final(self).trace@.len()
                        && final(self).trace@[t] == (Trace::ForceRerun { id }))
            },
            // change-propagation minimality, one thunk at a time: every
            // executed thunk whose observations still settle keeps its whole
            // record and is not re-executed by this demand
            Self::settled_nodes_kept(*old(self), *final(self)),
    {
        if id >= self.bodies.len() {
            proof {
                Self::lemma_settled_kept_refl(*old(self), *self);
            }
            return Err(EngineError::UnknownLocation);
        }
        if self.kind_is_cell(id) {
            proof {
                Self::lemma_settled_kept_refl(*old(self), *self);
            }
            return Ok(self.vals[id]);
        }
        self.force_at(id)
    }

    /// Force a thunk and return its value; for a firewall thunk this is the
    /// location of the output cell it produced, to be read with `get`.
    pub fn force(&mut self, id: usize) -> (r: Result<Val, EngineError>)
        requires
            old(self).wf(),
        ensures
            final(self).wf(),
            (id as int) >= old(self).n() ==> r == Err::<Val, EngineError>(
                EngineError::UnknownLocation,
            ) && *final(self) == *old(self),
            old(self).is_cell(id as int) ==> r == Ok::<Val, EngineError>(
                old(self).val_at(id as int),
            ) && *final(self) == *old(self),
            old(self).is_thunk(id as int) ==> {
                &&& Self::frame(*old(self), *final(self), id as int)
                &&& (r is Ok <==> old(self).denote_ok(id as int))
                &&& (r is Ok ==> final(self).clean(id as int) && r->Ok_0 == final(self).val_at(
                    id as int,
                ))
                &&& (r is Ok && !fw_kind(old(self).body_at(id as int)) ==> as_math(r->Ok_0)
                    == old(self).denote(id as int))
                &&& (r is Ok && fw_kind(old(self).body_at(id as int)) ==> {
                    &&& final(self).out_at(id as int) is Some
                    &&& r->Ok_0 == Val::L(final(self).out_at(id as int)->Some_0)
                    &&& as_math(
                        final(self).val_at(final(self).out_at(id as int)->Some_0 as int),
                    ) == old(self).denote(id as int)
                })
            },
            Self::settled_nodes_kept(*old(self), *final(self)),
    {
        self.get(id)
    }

    /// Open a trace window: entries recorded from now on are what
    /// `trace_end` returns.
    pub fn trace_begin(&mut self)
        requires
            old(self).wf(),
        ensures
            final(self).wf(),
            final(self).bodies@ == old(self).bodies@,
            final(self).vals@ == old(self).vals@,
            final(self).sts@ == old(self).sts@,
            final(self).edges@ == old(self).edges@,
            final(self).outs@ == old(self).outs@,
            final(self).owners@ == old(self).owners@,
            final(self).trace@ == old(self).trace@,
            final(self).window_start() == old(self).trace@.len(),
    {
        self.mark = self.trace.len();
        proof {
            Self::lemma_wf_core_transfer(*old(self), *self);
        }
    }

    /// Close the trace window: returns every entry recorded since
    /// `trace_begin`, and starts the next window here.
    pub fn trace_end(&mut self) -> (r: Vec<Trace>)
        requires
            old(self).wf(),
        ensures
            final(self).wf(),
            final(self).bodies@ == old(self).bodies@,
            final(self).vals@ == old(self).vals@,
            final(self).sts@ == old(self).sts@,
            final(self).edges@ == old(self).edges@,
            final(self).outs@ == old(self).outs@,
            final(self).owners@ == old(self).owners@,
            final(self).trace@ == old(self).trace@,
            r@ == old(self).trace@.subrange(old(self).window_start(), old(self).trace@.len() as int),
            final(self).window_start() == old(self).trace@.len(),
    {
        let mut out: Vec<Trace> = Vec::new();
        let mut k = self.mark;
        let n = self.trace.len();
        while k < n
            invariant
                self.mark <= k <= n,
                n == self.trace@.len(),
                out@ == self.trace@.subrange(self.mark as int, k as int),
                self == old(self),
            decreases n - k,
        {
            let t = self.trace[k];
            out.push(t);
            proof {
                assert(out@ =~= self.trace@.subrange(self.mark as int, k as int + 1));
            }
            k += 1;
        }
        self.mark = n;
        proof {
            Self::lemma_wf_core_transfer(*old(self), *self);
        }
        out
    }

    /// A fresh evaluation context with no locations and an empty trace.
    pub fn new() -> (e: Engine)
        ensures
            e.wf(),
            e.n() == 0,
            e.trace_log().len() == 0,
            e.window_start() == 0,
    {
        Engine {
            bodies: Vec::new(),
            vals: Vec::new(),
            sts: Vec::new(),
            edges: Vec::new(),
            outs: Vec::new(),
            owners: Vec::new(),
            trace: Vec::new(),
            mark: 0,
        }
    }

    /// How many locations exist; the next allocation gets this index.
    pub fn node_count(&self) -> (r: usize)
        ensures
            r as int == self.n(),
    {
        self.bodies.len()
    }

    /// Allocate a fresh input cell holding `v`.
    pub fn cell(&mut self, v: i32) -> (id: usize)
        requires
            old(self).wf(),
        ensures
            final(self).wf(),
            id as int == old(self).n(),
            final(self).n() == old(self).n() + 1,
            final(self).bodies@ == old(self).bodies@.push(Body::Input),
            final(self).vals@ == old(self).vals@.push(Val::I(v)),
            final(self).sts@ == old(self).sts@.push(St::Clean),
            final(self).edges@ =~= old(self).edges@.push(final(self).edges@[id as int]),
            final(self).edges_at(id as int).len() == 0,
            final(self).outs@ == old(self).outs@.push(None::<usize>),
            final(self).owners@ == old(self).owners@.push(None::<usize>),
            final(self).is_input_cell(id as int),
            final(self).trace@ == old(self).trace@.push(Trace::AllocCell { id, fresh: true }),
            final(self).mark == old(self).mark,
    {
        let id = self.bodies.len();
        self.bodies.push(Body::Input);
        self.vals.push(Val::I(v));
        self.sts.push(St::Clean);
        self.edges.push(Vec::new());
        self.outs.push(None);
        self.owners.push(None);
        self.trace.push(Trace::AllocCell { id, fresh: true });
        proof {
            Self::lemma_append_node(*old(self), *self, Body::Input);
        }
        id
    }

    /// Allocate a fresh thunk with the given body; the body does not run.
    pub fn thunk(&mut self, b: Body) -> (id: usize)
        requires
            old(self).wf(),
            old(self).body_ok(b, old(self).n()),
            !(b is Input),
        ensures
            final(self).wf(),
            id as int == old(self).n(),
            final(self).n() == old(self).n() + 1,
            final(self).bodies@ =~= old(self).bodies@.push(final(self).body_at(id as int)),
            final(self).body_at(id as int) == b,
            final(self).vals@ == old(self).vals@.push(Val::I(0)),
            final(self).sts@ == old(self).sts@.push(St::Never),
            final(self).edges@ =~= old(self).edges@.push(final(self).edges@[id as int]),
            final(self).edges_at(id as int).len() == 0,
            final(self).outs@ == old(self).outs@.push(None::<usize>),
            final(self).owners@ == old(self).owners@.push(None::<usize>),
            final(self).is_thunk(id as int),
            !final(self).executed(id as int),
            final(self).trace@ == old(self).trace@.push(Trace::AllocThunk { id, fresh: true }),
            final(self).mark == old(self).mark,
    {
        let id = self.bodies.len();
        self.bodies.push(b);
        self.vals.push(Val::I(0));
        self.sts.push(St::Never);
        self.edges.push(Vec::new());
        self.outs.push(None);
        self.owners.push(None);
        self.trace.push(Trace::AllocThunk { id, fresh: true });
        proof {
            Self::lemma_append_node(*old(self), *self, self.bodies@[id as int]);
        }
        id
    }
}

} // verus!
