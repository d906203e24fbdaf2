//! Input-cell allocation and the balanced pairwise summation tree: a
//! divide-and-conquer reduction over a list of nodes, so that one changed
//! leaf dirties only a logarithmic path instead of a whole left spine.

use vstd::prelude::*;
use crate::engine::{Engine, Body, Val, body_refs, fw_kind};

verus! {

/// The second engine is the first with nodes appended: everything already
/// allocated is untouched.
pub open spec fn extends(pre: Engine, post: Engine) -> bool {
    &&& pre.n() <= post.n()
    &&& forall|j: int| 0 <= j < pre.n() ==> #[trigger] post.bodies@[j] == pre.bodies@[j]
    &&& forall|j: int| 0 <= j < pre.n() ==> #[trigger] post.owners@[j] == pre.owners@[j]
    &&& forall|j: int| 0 <= j < pre.n() ==> #[trigger] post.vals@[j] == pre.vals@[j]
    &&& forall|j: int| 0 <= j < pre.n() ==> #[trigger] post.sts@[j] == pre.sts@[j]
    &&& forall|j: int| 0 <= j < pre.n() ==> #[trigger] post.edges@[j] == pre.edges@[j]
    &&& forall|j: int| 0 <= j < pre.n() ==> #[trigger] post.outs@[j] == pre.outs@[j]
}

pub proof fn lemma_extends_trans(a: Engine, b: Engine, c: Engine)
    requires
        extends(a, b),
        extends(b, c),
    ensures
        extends(a, c),
{
}

/// Node `id` is the root of a balanced summation tree whose leaves are
/// exactly `ids`, in order: a single node for one leaf, otherwise a plain
/// two-reference sum whose children cover the two halves.
pub open spec fn covers(s: Engine, id: int, ids: Seq<usize>) -> bool
    decreases ids.len(),
{
    if ids.len() == 0 {
        false
    } else if ids.len() == 1 {
        id == ids[0] as int && 0 <= id < s.n()
    } else {
        let mid = (ids.len() - 1) as int / 2;
        &&& s.is_thunk(id)
        &&& (s.body_at(id) matches Body::Sum { xs, fw } && !fw && xs@.len() == 2)
        &&& 0 <= (body_refs(s.body_at(id))[0] as int) < id
        &&& 0 <= (body_refs(s.body_at(id))[1] as int) < id
        &&& covers(s, body_refs(s.body_at(id))[0] as int, ids.take(mid + 1))
        &&& covers(s, body_refs(s.body_at(id))[1] as int, ids.skip(mid + 1))
    }
}

/// Covering survives appending nodes: it mentions only existing bodies.
pub proof fn lemma_covers_extends(pre: Engine, post: Engine, id: int, ids: Seq<usize>)
    requires
        covers(pre, id, ids),
        extends(pre, post),
    ensures
        covers(post, id, ids),
    decreases ids.len(),
{
    if ids.len() > 1 {
        let mid = (ids.len() - 1) as int / 2;
        assert(post.bodies@[id] == pre.bodies@[id]);
        lemma_covers_extends(pre, post, body_refs(pre.body_at(id))[0] as int, ids.take(mid + 1));
        lemma_covers_extends(pre, post, body_refs(pre.body_at(id))[1] as int, ids.skip(mid + 1));
    }
}

/// The sum of the meanings of a list of nodes.
pub open spec fn denote_sum(s: Engine, ids: Seq<usize>) -> int
    decreases ids.len(),
{
    if ids.len() == 0 {
        0
    } else {
        denote_sum(s, ids.drop_last()) + s.denote(ids.last() as int)
    }
}

proof fn lemma_denote_sum_split(s: Engine, ids: Seq<usize>, m: int)
    requires
        0 <= m <= ids.len(),
    ensures
        denote_sum(s, ids) == denote_sum(s, ids.take(m)) + denote_sum(s, ids.skip(m)),
    decreases ids.len(),
{
    if m == ids.len() {
        assert(ids.take(m) =~= ids);
        assert(ids.skip(m) =~= Seq::empty());
    } else {
        lemma_denote_sum_split(s, ids.drop_last(), m);
        assert(ids.drop_last().take(m) =~= ids.take(m));
        assert(ids.drop_last().skip(m) =~= ids.skip(m).drop_last());
        assert(ids.skip(m).last() == ids.last());
    }
}

/// The root of a covering tree means the sum of its leaves, is owed success
/// whenever the leaves are, and the sum stays within the leaves' bound.
pub proof fn lemma_covers_sum(s: Engine, id: int, ids: Seq<usize>, bound: int)
    requires
        s.wf(),
        covers(s, id, ids),
        forall|k: int|
            0 <= k < ids.len() ==> {
                let d = #[trigger] ids[k] as int;
                &&& 0 <= d < s.n()
                &&& !s.is_internal_cell(d)
                &&& !(s.is_thunk(d) && fw_kind(s.body_at(d)))
                &&& s.denote_ok(d)
                &&& 0 <= s.denote(d) <= bound
            },
        ids.len() * bound <= i32::MAX as int,
        0 <= bound,
    ensures
        s.denote_ok(id),
        s.denote(id) == denote_sum(s, ids),
        0 <= s.denote(id) <= ids.len() * bound,
        0 <= id < s.n(),
        !s.is_internal_cell(id),
        !(s.is_thunk(id) && fw_kind(s.body_at(id))),
    decreases ids.len(),
{
    if ids.len() == 1 {
        assert(ids[0] == ids[0]);
        assert(s.denote(id) == denote_sum(s, ids)) by {
            assert(denote_sum(s, ids) == denote_sum(s, ids.drop_last()) + s.denote(
                ids.last() as int,
            ));
            assert(ids.drop_last().len() == 0);
            assert(denote_sum(s, ids.drop_last()) == 0);
        }
        assert(ids.len() * bound == bound) by (nonlinear_arith)
            requires
                ids.len() == 1,
        ;
    } else {
        let mid = (ids.len() - 1) as int / 2;
        let b = s.body_at(id);
        let l = body_refs(b)[0] as int;
        let r = body_refs(b)[1] as int;
        let left = ids.take(mid + 1);
        let rightp = ids.skip(mid + 1);
        assert forall|k: int| 0 <= k < left.len() implies {
            let d = #[trigger] left[k] as int;
            &&& 0 <= d < s.n()
            &&& !s.is_internal_cell(d)
            &&& !(s.is_thunk(d) && fw_kind(s.body_at(d)))
            &&& s.denote_ok(d)
            &&& 0 <= s.denote(d) <= bound
        } by {
            assert(left[k] == ids[k]);
        }
        assert forall|k: int| 0 <= k < rightp.len() implies {
            let d = #[trigger] rightp[k] as int;
            &&& 0 <= d < s.n()
            &&& !s.is_internal_cell(d)
            &&& !(s.is_thunk(d) && fw_kind(s.body_at(d)))
            &&& s.denote_ok(d)
            &&& 0 <= s.denote(d) <= bound
        } by {
            assert(rightp[k] == ids[k + mid + 1]);
        }
        assert(left.len() * bound <= i32::MAX as int && rightp.len() * bound <= i32::MAX as int)
            by (nonlinear_arith)
            requires
                0 <= bound,
                0 < left.len() <= ids.len(),
                0 < rightp.len() <= ids.len(),
                ids.len() * bound <= i32::MAX as int,
        ;
        lemma_covers_sum(s, l, left, bound);
        lemma_covers_sum(s, r, rightp, bound);
        let rs = body_refs(b);
        let dv = s.dep_vals(rs, id);
        s.lemma_dep_vals_index(rs, id);
        assert(dv.len() == 2);
        assert(dv[0] == s.denote(l));
        assert(dv[1] == s.denote(r));
        assert(crate::engine::sum_upto(dv, 2) == s.denote(l) + s.denote(r)) by {
            assert(crate::engine::sum_upto(dv, 2) == crate::engine::sum_upto(dv, 1) + dv[1]);
            assert(crate::engine::sum_upto(dv, 1) == crate::engine::sum_upto(dv, 0) + dv[0]);
            assert(crate::engine::sum_upto(dv, 0) == 0);
        }
        assert(s.denote(id) == s.denote(l) + s.denote(r));
        lemma_denote_sum_split(s, ids, mid + 1);
        assert(s.denote(id) == denote_sum(s, ids));
        assert(left.len() * bound + rightp.len() * bound == ids.len() * bound)
            by (nonlinear_arith)
            requires
                left.len() + rightp.len() == ids.len(),
        ;
        assert(s.denote_ok(id)) by {
            s.lemma_all_ok_pointwise(rs, id);
            assert(rs[0] == rs[0] && rs[1] == rs[1]);
        }
    }
}

/// Allocate `n` fresh input cells holding zero.
pub fn create_input_nodes(eng: &mut Engine, n: usize) -> (ids: Vec<usize>)
    requires
        old(eng).wf(),
    ensures
        final(eng).wf(),
        extends(*old(eng), *final(eng)),
        Engine::fresh_cell_allocs(*old(eng), *final(eng), n as int),
        final(eng).mark == old(eng).mark,
        ids@.len() == n as int,
        forall|k: int|
            0 <= k < n as int ==> #[trigger] ids@[k] as int == old(eng).n() + k,
        forall|k: int|
            0 <= k < n as int ==> final(eng).is_input_cell(#[trigger] ids@[k] as int)
                && final(eng).val_at(ids@[k] as int) == Val::I(0),
        final(eng).n() == old(eng).n() + n,
    {
    let mut ids: Vec<usize> = Vec::new();
    let mut k: usize = 0;
    proof {
        assert(old(eng).trace@ =~= eng.trace@.take(old(eng).trace@.len() as int));
    }
    while k < n
        invariant
            eng.wf(),
            extends(*old(eng), *eng),
            Engine::fresh_cell_allocs(*old(eng), *eng, k as int),
            eng.mark == old(eng).mark,
            k <= n,
            ids@.len() == k as int,
            eng.n() == old(eng).n() + k,
            forall|q: int| 0 <= q < k as int ==> #[trigger] ids@[q] as int == old(eng).n() + q,
            forall|q: int|
                0 <= q < k as int ==> eng.is_input_cell(#[trigger] ids@[q] as int)
                    && eng.val_at(ids@[q] as int) == Val::I(0),
        decreases n - k,
    {
        let ghost pre = *eng;
        let id = eng.cell(0);
        ids.push(id);
        proof {
            assert(extends(pre, *eng));
            lemma_extends_trans(*old(eng), pre, *eng);
            Engine::lemma_fresh_cells_step(pre, *eng, id);
            Engine::lemma_fresh_cells_trans(*old(eng), pre, *eng, k as int, 1);
        }
        k += 1;
    }
    ids
}

/// Build the balanced summation tree over `nodes[left ..= right]` and return
/// its root.
pub fn devide_and_conquer(eng: &mut Engine, nodes: &Vec<usize>, left: usize, right: usize) -> (res:
    usize)
    requires
        old(eng).wf(),
        left <= right,
        (right as int) < nodes@.len(),
        forall|k: int|
            left as int <= k <= right as int ==> (#[trigger] nodes@[k] as int) < old(eng).n()
                && !old(eng).is_internal_cell(nodes@[k] as int),
    ensures
        final(eng).wf(),
        extends(*old(eng), *final(eng)),
        covers(*final(eng), res as int, nodes@.subrange(left as int, right as int + 1)),
        (res as int) < final(eng).n(),
        !final(eng).is_internal_cell(res as int),
    decreases right - left,
{
    if left == right {
        let r = nodes[left];
        proof {
            assert(nodes@.subrange(left as int, right as int + 1) =~= seq![nodes@[left as int]]);
        }
        return r;
    }
    let mid = left + (right - left) / 2;
    let l = devide_and_conquer(eng, nodes, left, mid);
    let ghost s1 = *eng;
    let r = devide_and_conquer(eng, nodes, mid + 1, right);
    let ghost s2 = *eng;
    let mut xs: Vec<usize> = Vec::new();
    xs.push(l);
    xs.push(r);
    let t = eng.thunk(Body::Sum { xs, fw: false });
    proof {
        let full = nodes@.subrange(left as int, right as int + 1);
        let m = (full.len() - 1) as int / 2;
        assert(full.take(m + 1) =~= nodes@.subrange(left as int, mid as int + 1));
        assert(full.skip(m + 1) =~= nodes@.subrange(mid as int + 1, right as int + 1));
        lemma_covers_extends(s1, s2, l as int, nodes@.subrange(left as int, mid as int + 1));
        assert(extends(s2, *eng));
        lemma_covers_extends(s2, *eng, l as int, nodes@.subrange(left as int, mid as int + 1));
        lemma_covers_extends(
            s2,
            *eng,
            r as int,
            nodes@.subrange(mid as int + 1, right as int + 1),
        );
        lemma_extends_trans(*old(eng), s1, s2);
        lemma_extends_trans(*old(eng), s2, *eng);
        assert(body_refs(eng.body_at(t as int))[0] == l);
        assert(body_refs(eng.body_at(t as int))[1] == r);
        assert(covers(*eng, t as int, full));
    }
    t
}

/// Drive every input cell to its own index and demand it back.
pub fn update_input_nodes(eng: &mut Engine, nodes: &Vec<usize>, n: usize)
    requires
        old(eng).wf(),
        n as int <= nodes@.len(),
        n <= i32::MAX as usize,
        forall|k: int|
            0 <= k < n as int ==> old(eng).is_input_cell(#[trigger] nodes@[k] as int),
        forall|k1: int, k2: int| 0 <= k1 < k2 < n as int ==> nodes@[k1] != nodes@[k2],
    ensures
        final(eng).wf(),
        forall|k: int|
            0 <= k < n as int ==> final(eng).val_at(#[trigger] nodes@[k] as int) == Val::I(
                k as i32,
            ),
{
    let mut i: usize = 0;
    while i < n
        invariant
            eng.wf(),
            n as int <= nodes@.len(),
            n <= i32::MAX as usize,
            i <= n,
            forall|k: int|
                0 <= k < n as int ==> eng.is_input_cell(#[trigger] nodes@[k] as int),
            forall|k1: int, k2: int| 0 <= k1 < k2 < n as int ==> nodes@[k1] != nodes@[k2],
            forall|k: int|
                0 <= k < i as int ==> eng.val_at(#[trigger] nodes@[k] as int) == Val::I(k as i32),
        decreases n - i,
    {
        let ghost pre = *eng;
        eng.set(nodes[i], i as i32);
        proof {
            assert forall|k: int| 0 <= k < n as int implies eng.is_input_cell(
                #[trigger] nodes@[k] as int,
            ) by {
                assert(pre.is_input_cell(nodes@[k] as int));
            }
            assert forall|k: int| 0 <= k < i as int + 1 implies eng.val_at(
                #[trigger] nodes@[k] as int,
            ) == Val::I(k as i32) by {
                if k < i as int {
                    assert(nodes@[k] != nodes@[i as int]);
                    assert(pre.val_at(nodes@[k] as int) == Val::I(k as i32));
                }
            }
        }
        let ghost pre2 = *eng;
        let _ = eng.get(nodes[i]);
        proof {
            assert forall|k: int| 0 <= k < n as int implies eng.is_input_cell(
                #[trigger] nodes@[k] as int,
            ) by {
                assert(pre2.is_input_cell(nodes@[k] as int));
            }
            assert forall|k: int| 0 <= k < i as int + 1 implies eng.val_at(
                #[trigger] nodes@[k] as int,
            ) == Val::I(k as i32) by {
                assert(pre2.val_at(nodes@[k] as int) == Val::I(k as i32));
                assert(pre2.is_input_cell(nodes@[k] as int));
            }
        }
        i += 1;
    }
}

} // verus!
