//! An undirected weighted graph over a fixed set of vertices, modeled as a
//! symmetric adjacency matrix of optional edge weights. Vertex coordinates
//! and randomized construction belong to the rendering side; the scoring
//! logic reads only vertex count, adjacency and weights.

use vstd::prelude::*;

verus! {

pub type PointId = i32;
pub type EdgeId = i32;

/// An undirected edge between two distinct vertices, with a weight.
#[derive(Clone, Copy, Debug, PartialEq, Eq, Structural)]
pub struct Edge {
    pub p1: PointId,
    pub p2: PointId,
    pub weight: i32,
}

/// The graph: `adjw[u][v]` holds the weight of the edge between `u` and `v`,
/// or nothing when they are not adjacent.
pub struct Graph {
    pub n: usize,
    pub adjw: Vec<Vec<Option<i32>>>,
}

impl Graph {
    /// The number of vertices.
    pub open spec fn size(self) -> int {
        self.n as int
    }

    /// The weight between `u` and `v`, if the edge exists.
    pub open spec fn edge_weight(self, u: int, v: int) -> Option<i32> {
        self.adjw@[u]@[v]
    }

    /// Whether `u` and `v` are adjacent.
    pub open spec fn has_edge(self, u: int, v: int) -> bool {
        0 <= u < self.size() && 0 <= v < self.size() && self.edge_weight(u, v) is Some
    }

    /// A square, symmetric matrix with an empty diagonal.
    pub open spec fn wf(self) -> bool {
        &&& self.n <= i32::MAX as usize
        &&& self.adjw@.len() == self.size()
        &&& forall|u: int| 0 <= u < self.size() ==> (#[trigger] self.adjw@[u])@.len() == self.size()
        &&& forall|u: int, v: int|
            0 <= u < self.size() && 0 <= v < self.size() ==> #[trigger] self.edge_weight(u, v)
                == self.edge_weight(v, u)
        &&& forall|u: int| 0 <= u < self.size() ==> #[trigger] self.edge_weight(u, u) is None
    }

    /// Every pair of distinct vertices is adjacent.
    pub open spec fn complete(self) -> bool {
        forall|u: int, v: int|
            0 <= u < self.size() && 0 <= v < self.size() && u != v ==> #[trigger] self.has_edge(
                u,
                v,
            )
    }

    /// An empty graph.
    pub fn new() -> (g: Graph)
        ensures
            g.wf(),
            g.size() == 0,
    {
        Graph { n: 0, adjw: Vec::new() }
    }

    /// Append `count` isolated vertices.
    pub fn add_nodes(&mut self, count: usize)
        requires
            old(self).wf(),
            old(self).n + count <= i32::MAX as usize,
        ensures
            final(self).wf(),
            final(self).size() == old(self).size() + count,
            forall|u: int, v: int|
                0 <= u < old(self).size() && 0 <= v < old(self).size() ==> #[trigger] final(self).edge_weight(u, v) == old(self).edge_weight(u, v),
            forall|u: int, v: int|
                0 <= u < final(self).size() && 0 <= v < final(self).size() && (u >= old(self).size()
                    || v >= old(self).size()) ==> #[trigger] final(self).edge_weight(u, v) is None,
    {
        let newn = self.n + count;
        // widen the existing rows
        let mut u: usize = 0;
        while u < self.n
            invariant
                u <= self.n,
                self.n == old(self).n,
                newn == self.n + count,
                self.adjw@.len() == self.n as int,
                forall|q: int|
                    0 <= q < u as int ==> (#[trigger] self.adjw@[q])@.len() == newn as int,
                forall|q: int|
                    u as int <= q < self.n as int ==> (#[trigger] self.adjw@[q])@.len()
                        == self.n as int,
                forall|q: int, v: int|
                    0 <= q < self.n as int && 0 <= v < self.n as int
                        ==> #[trigger] self.adjw@[q]@[v] == old(self).edge_weight(q, v),
                forall|q: int, v: int|
                    0 <= q < u as int && self.n as int <= v < newn as int
                        ==> #[trigger] self.adjw@[q]@[v] is None,
            decreases self.n - u,
        {
            let mut row = Vec::new();
            let mut v: usize = 0;
            let oldrow_len = self.adjw[u].len();
            while v < oldrow_len
                invariant
                    v <= oldrow_len,
                    u < self.adjw@.len(),
                    oldrow_len == self.adjw@[u as int]@.len(),
                    row@.len() == v as int,
                    forall|q: int|
                        0 <= q < v as int ==> #[trigger] row@[q] == self.adjw@[u as int]@[q],
                decreases oldrow_len - v,
            {
                row.push(self.adjw[u][v]);
                v += 1;
            }
            let mut w: usize = oldrow_len;
            while w < newn
                invariant
                    oldrow_len <= w <= newn || w == oldrow_len,
                    row@.len() == w as int,
                    u < self.adjw@.len(),
                    oldrow_len == self.adjw@[u as int]@.len(),
                    forall|q: int|
                        0 <= q < oldrow_len as int ==> #[trigger] row@[q] == self.adjw@[u
                            as int]@[q],
                    forall|q: int|
                        oldrow_len as int <= q < w as int ==> #[trigger] row@[q] is None,
                decreases newn - w,
            {
                row.push(None);
                w += 1;
            }
            self.adjw[u] = row;
            u += 1;
        }
        // append empty rows for the new vertices
        let mut t: usize = self.n;
        while t < newn
            invariant
                self.n as int <= t as int <= newn as int,
                self.n == old(self).n,
                newn == self.n + count,
                self.adjw@.len() == t as int,
                forall|q: int| 0 <= q < t as int ==> (#[trigger] self.adjw@[q])@.len() == newn as int,
                forall|q: int, v: int|
                    0 <= q < self.n as int && 0 <= v < self.n as int
                        ==> #[trigger] self.adjw@[q]@[v] == old(self).edge_weight(q, v),
                forall|q: int, v: int|
                    0 <= q < t as int && 0 <= v < newn as int && (q >= self.n as int || v
                        >= self.n as int) ==> #[trigger] self.adjw@[q]@[v] is None,
            decreases newn - t,
        {
            let mut row: Vec<Option<i32>> = Vec::new();
            let mut w: usize = 0;
            while w < newn
                invariant
                    w <= newn,
                    row@.len() == w as int,
                    forall|q: int| 0 <= q < w as int ==> #[trigger] row@[q] is None,
                decreases newn - w,
            {
                row.push(None);
                w += 1;
            }
            self.adjw.push(row);
            t += 1;
        }
        self.n = newn;
        proof {
            assert forall|u2: int, v2: int|
                0 <= u2 < self.size() && 0 <= v2 < self.size() implies #[trigger] self.edge_weight(
                u2,
                v2,
            ) == self.edge_weight(v2, u2) by {
                if u2 < old(self).size() && v2 < old(self).size() {
                    assert(old(self).edge_weight(u2, v2) == old(self).edge_weight(v2, u2));
                }
            }
        }
    }

    /// Connect two distinct vertices with the given weight.
    pub fn add_edge(&mut self, u: i32, v: i32, weight: i32)
        requires
            old(self).wf(),
            0 <= u as int && (u as int) < old(self).size(),
            0 <= v as int && (v as int) < old(self).size(),
            u != v,
        ensures
            final(self).wf(),
            final(self).size() == old(self).size(),
            final(self).edge_weight(u as int, v as int) == Some(weight),
            final(self).edge_weight(v as int, u as int) == Some(weight),
            forall|a: int, b: int|
                0 <= a < old(self).size() && 0 <= b < old(self).size() && !(a == u as int && b == v
                    as int) && !(a == v as int && b == u as int) ==> #[trigger] final(self).edge_weight(a, b)
                    == old(self).edge_weight(a, b),
    {
        let ui = u as usize;
        let vi = v as usize;
        self.adjw[ui][vi] = Some(weight);
        self.adjw[vi][ui] = Some(weight);
        proof {
            assert forall|a: int| 0 <= a < self.size() implies (#[trigger] self.adjw@[a])@.len()
                == self.size() by {
                assert(old(self).adjw@[a]@.len() == old(self).size());
            }
            assert forall|a: int, b: int|
                0 <= a < self.size() && 0 <= b < self.size() implies #[trigger] self.edge_weight(
                a,
                b,
            ) == self.edge_weight(b, a) by {
                if !(a == u as int && b == v as int) && !(a == v as int && b == u as int) {
                    assert(old(self).edge_weight(a, b) == old(self).edge_weight(b, a));
                }
            }
            assert forall|a: int| 0 <= a < self.size() implies #[trigger] self.edge_weight(
                a,
                a,
            ) is None by {
                assert(old(self).edge_weight(a, a) is None);
            }
        }
    }

    /// Connect two vertices with a unit weight, the form the coloring search
    /// uses: only adjacency matters there.
    pub fn add_2d_edge(&mut self, u: i32, v: i32)
        requires
            old(self).wf(),
            0 <= u as int && (u as int) < old(self).size(),
            0 <= v as int && (v as int) < old(self).size(),
            u != v,
        ensures
            final(self).wf(),
            final(self).size() == old(self).size(),
            final(self).has_edge(u as int, v as int),
            final(self).has_edge(v as int, u as int),
            forall|a: int, b: int|
                0 <= a < old(self).size() && 0 <= b < old(self).size() && !(a == u as int && b == v
                    as int) && !(a == v as int && b == u as int) ==> #[trigger] final(self).edge_weight(a, b)
                    == old(self).edge_weight(a, b),
    {
        self.add_edge(u, v, 1);
    }

    /// The edge between two vertices, if any; identifiers out of range give
    /// nothing.
    pub fn get_edge_from_lookup(&self, u: PointId, v: PointId) -> (r: Option<Edge>)
        requires
            self.wf(),
        ensures
            (0 <= u as int && (u as int) < self.size() && 0 <= v as int && (v as int) < self.size() && self.edge_weight(
                u as int,
                v as int,
            ) is Some) ==> r == Some(
                Edge { p1: u, p2: v, weight: self.edge_weight(u as int, v as int)->Some_0 },
            ),
            !(0 <= u as int && (u as int) < self.size() && 0 <= v as int && (v as int) < self.size() && self.edge_weight(
                u as int,
                v as int,
            ) is Some) ==> r is None,
    {
        if u < 0 || v < 0 {
            return None;
        }
        let ui = u as usize;
        let vi = v as usize;
        if ui >= self.n || vi >= self.n {
            return None;
        }
        match self.adjw[ui][vi] {
            Some(w) => Some(Edge { p1: u, p2: v, weight: w }),
            None => None,
        }
    }

    pub fn get_number_of_nodes(&self) -> (r: usize)
        ensures
            r as int == self.size(),
    {
        self.n
    }

    /// The neighbors of `u`, in ascending order.
    pub fn get_adjacent_nodes(&self, u: PointId) -> (r: Vec<i32>)
        requires
            self.wf(),
            0 <= u as int && (u as int) < self.size(),
        ensures
            forall|k: int|
                0 <= k < r@.len() ==> self.has_edge(u as int, #[trigger] r@[k] as int),
            forall|v: int|
                0 <= v < self.size() && self.has_edge(u as int, v) ==> r@.contains(v as i32),
            forall|k1: int, k2: int| 0 <= k1 < k2 < r@.len() ==> r@[k1] < r@[k2],
    {
        let mut out: Vec<i32> = Vec::new();
        let mut v: usize = 0;
        proof {
            assert(self.n <= i32::MAX as usize || self.n as int <= self.size());
        }
        while v < self.n
            invariant
                self.wf(),
                0 <= u as int && (u as int) < self.size(),
                v <= self.n,
                forall|k: int|
                    0 <= k < out@.len() ==> self.has_edge(u as int, #[trigger] out@[k] as int)
                        && 0 <= out@[k] as int && (out@[k] as int) < v as int,
                forall|w: int|
                    0 <= w < v as int && self.has_edge(u as int, w) ==> out@.contains(w as i32),
                forall|k1: int, k2: int| 0 <= k1 < k2 < out@.len() ==> out@[k1] < out@[k2],
                self.n as int == self.size(),
            decreases self.n - v,
        {
            let present = match self.adjw[u as usize][v] {
                Some(_) => true,
                None => false,
            };
            let ghost out0 = out@;
            if present {
                proof {
                    assert(self.edge_weight(u as int, v as int) is Some);
                    assert(self.edge_weight(u as int, u as int) is None);
                    assert(v as int != u as int);
                    assert(v <= i32::MAX as usize);
                }
                out.push(v as i32);
                proof {
                    assert forall|w: int|
                        0 <= w < v as int + 1 && self.has_edge(u as int, w) implies out@.contains(
                        w as i32,
                    ) by {
                        if w < v as int {
                            assert(out0.contains(w as i32));
                            let kk = choose|kk: int|
                                0 <= kk < out0.len() && out0[kk] == w as i32;
                            assert(out@[kk] == w as i32);
                        } else {
                            assert(out@[out@.len() - 1] == w as i32);
                        }
                    }
                }
            } else {
                proof {
                    assert forall|w: int|
                        0 <= w < v as int + 1 && self.has_edge(u as int, w) implies out@.contains(
                        w as i32,
                    ) by {
                        assert(w != v as int);
                    }
                }
            }
            v += 1;
        }
        out
    }

    /// The weight table: a square matrix with zero on the diagonal and for
    /// missing edges, the edge weight elsewhere.
    pub fn get_raw_adjacency_list(&self) -> (r: Vec<Vec<i32>>)
        requires
            self.wf(),
        ensures
            r@.len() == self.size(),
            forall|u: int| 0 <= u < self.size() ==> (#[trigger] r@[u])@.len() == self.size(),
            forall|u: int, v: int|
                0 <= u < self.size() && 0 <= v < self.size() ==> #[trigger] r@[u]@[v] as int
                    == (if self.edge_weight(u, v) is Some {
                    self.edge_weight(u, v)->Some_0 as int
                } else {
                    0
                }),
    {
        let mut out: Vec<Vec<i32>> = Vec::new();
        let mut u: usize = 0;
        while u < self.n
            invariant
                self.wf(),
                u <= self.n,
                out@.len() == u as int,
                forall|q: int| 0 <= q < u as int ==> (#[trigger] out@[q])@.len() == self.size(),
                forall|q: int, v: int|
                    0 <= q < u as int && 0 <= v < self.size() ==> #[trigger] out@[q]@[v] as int
                        == (if self.edge_weight(q, v) is Some {
                        self.edge_weight(q, v)->Some_0 as int
                    } else {
                        0
                    }),
            decreases self.n - u,
        {
            let mut row: Vec<i32> = Vec::new();
            let mut v: usize = 0;
            while v < self.n
                invariant
                    self.wf(),
                    u < self.n,
                    v <= self.n,
                    row@.len() == v as int,
                    forall|q: int|
                        0 <= q < v as int ==> #[trigger] row@[q] as int == (if self.edge_weight(
                            u as int,
                            q,
                        ) is Some {
                            self.edge_weight(u as int, q)->Some_0 as int
                        } else {
                            0
                        }),
                decreases self.n - v,
            {
                match self.adjw[u][v] {
                    Some(w) => row.push(w),
                    None => row.push(0),
                }
                v += 1;
            }
            out.push(row);
            u += 1;
        }
        out
    }

    /// Build a graph from its size and a weight matrix: every pair of
    /// distinct vertices becomes an edge weighted by the upper-triangle
    /// entry, yielding a complete graph.
    pub fn from_adjacency(size: usize, al: Vec<Vec<i32>>) -> (g: Graph)
        requires
            size >= 1,
            size <= i32::MAX as usize,
            al@.len() == size as int,
            forall|u: int| 0 <= u < size as int ==> (#[trigger] al@[u])@.len() == size as int,
        ensures
            g.wf(),
            g.size() == size as int,
            g.complete(),
            forall|u: int, v: int|
                0 <= u < size as int && 0 <= v < size as int && u != v
                    ==> #[trigger] g.edge_weight(u, v) == Some(
                    al@[if u < v {
                        u
                    } else {
                        v
                    }]@[if u < v {
                        v
                    } else {
                        u
                    }],
                ),
    {
        let mut g = Graph::new();
        g.add_nodes(size);
        let mut u: usize = 0;
        while u < size
            invariant
                g.wf(),
                g.size() == size as int,
                size <= i32::MAX as usize,
                u <= size,
                al@.len() == size as int,
                forall|q: int| 0 <= q < size as int ==> (#[trigger] al@[q])@.len() == size as int,
                forall|a: int, b: int|
                    0 <= a < size as int && 0 <= b < size as int && a != b && (if a < b {
                        a
                    } else {
                        b
                    }) < u as int ==> #[trigger] g.edge_weight(a, b) == Some(
                        al@[if a < b {
                            a
                        } else {
                            b
                        }]@[if a < b {
                            b
                        } else {
                            a
                        }],
                    ),
            decreases size - u,
        {
            let mut v: usize = u + 1;
            while v < size
                invariant
                    g.wf(),
                    g.size() == size as int,
                    size <= i32::MAX as usize,
                    u < size,
                    u < v || v == u + 1,
                    v <= size,
                    al@.len() == size as int,
                    forall|q: int|
                        0 <= q < size as int ==> (#[trigger] al@[q])@.len() == size as int,
                    forall|a: int, b: int|
                        0 <= a < size as int && 0 <= b < size as int && a != b && ((if a < b {
                            a
                        } else {
                            b
                        }) < u as int || ((if a < b {
                            a
                        } else {
                            b
                        }) == u as int && (if a < b {
                            b
                        } else {
                            a
                        }) < v as int)) ==> #[trigger] g.edge_weight(a, b) == Some(
                            al@[if a < b {
                                a
                            } else {
                                b
                            }]@[if a < b {
                                b
                            } else {
                                a
                            }],
                        ),
                decreases size - v,
            {
                let w = al[u][v];
                g.add_edge(u as i32, v as i32, w);
                v += 1;
            }
            u += 1;
        }
        g
    }
}

} // verus!
