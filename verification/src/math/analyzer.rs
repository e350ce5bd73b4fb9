//! Conflict analysis over the graph of accounts shared between transactions.
use vstd::prelude::*;

use std::collections::HashMap;

use crate::math::dag::lemma_index_of_unique;

verus! {

broadcast use vstd::std_specs::hash::group_hash_axioms;

/// `v` and `w` are joined by an edge, in either direction.
pub open spec fn adjacent(edges: Seq<(u64, u64)>, v: u64, w: u64) -> bool {
    exists|e: int| 0 <= e < edges.len() && (#[trigger] edges[e] == (v, w) || edges[e] == (w, v))
}

/// `v` and `w` have a common neighbour.
pub open spec fn share_neighbor(edges: Seq<(u64, u64)>, v: u64, w: u64) -> bool {
    exists|x: u64| adjacent(edges, v, x) && adjacent(edges, w, x)
}

/// `x` is an endpoint of some edge.
pub open spec fn is_endpoint(edges: Seq<(u64, u64)>, x: u64) -> bool {
    exists|e: int| #![trigger edges[e]] 0 <= e < edges.len() && (edges[e].0 == x || edges[e].1 == x)
}

proof fn endpoint_witness(edges: Seq<(u64, u64)>, x: u64) -> (e: int)
    requires
        is_endpoint(edges, x),
    ensures
        0 <= e < edges.len(),
        edges[e].0 == x || edges[e].1 == x,
{
    choose|e: int| #![trigger edges[e]] 0 <= e < edges.len() && (edges[e].0 == x || edges[e].1 == x)
}

/// The parts written one after the other.
pub open spec fn concat(parts: Seq<Seq<u64>>) -> Seq<u64>
    decreases parts.len(),
{
    if parts.len() == 0 {
        Seq::empty()
    } else {
        concat(parts.drop_last()) + parts.last()
    }
}

/// The graph of transactions that share accounts: an edge joins two
/// transactions, and the vertices are the endpoints of the edges, each
/// listed once in the order of first appearance.
#[derive(Debug)]
pub struct AccountSetAnalyzer {
    edges: Vec<(u64, u64)>,
    vertices: Vec<u64>,
    index: HashMap<u64, usize>,
}

proof fn lemma_adjacent_push(edges: Seq<(u64, u64)>, e: (u64, u64), v: u64, x: u64)
    ensures
        adjacent(edges.push(e), v, x) <==> (adjacent(edges, v, x) || e == (v, x) || e == (x, v)),
{
    let t = edges.push(e);
    if adjacent(edges, v, x) {
        let k = choose|k: int| 0 <= k < edges.len() && (#[trigger] edges[k] == (v, x) || edges[k] == (x, v));
        assert(t[k] == edges[k]);
    }
    if e == (v, x) || e == (x, v) {
        assert(t[edges.len() as int] == e);
    }
    if adjacent(t, v, x) && !(e == (v, x) || e == (x, v)) {
        let k = choose|k: int| 0 <= k < t.len() && (#[trigger] t[k] == (v, x) || t[k] == (x, v));
        assert(k < edges.len());
        assert(edges[k] == t[k]);
    }
}

proof fn lemma_adjacent_is_vertex(a: &AccountSetAnalyzer, v: u64, w: u64)
    requires
        a.wf(),
        adjacent(a.edge_seq(), v, w),
    ensures
        a.vertex_seq().contains(v),
        a.vertex_seq().contains(w),
{
    let edges = a.edge_seq();
    let k = choose|k: int| 0 <= k < edges.len() && (#[trigger] edges[k] == (v, w) || edges[k] == (w, v));
    assert(edges[k].0 == v || edges[k].1 == v);
    assert(edges[k].0 == w || edges[k].1 == w);
    assert(is_endpoint(edges, v));
    assert(is_endpoint(edges, w));
}

/// Adds `x` to `s` unless it is there already.
fn add_unique(s: &mut Vec<u64>, x: u64)
    requires
        old(s)@.no_duplicates(),
    ensures
        final(s)@.no_duplicates(),
        forall|y: u64| #[trigger] final(s)@.contains(y) <==> (old(s)@.contains(y) || y == x),
{
    let ghost before = s@;
    let mut i: usize = 0;
    while i < s.len()
        invariant
            s@ == before,
            before.no_duplicates(),
            i <= s@.len(),
            forall|k: int| 0 <= k < i ==> s@[k] != x,
        decreases s@.len() - i,
    {
        if s[i] == x {
            proof {
                assert forall|y: u64| #[trigger] s@.contains(y) <==> (before.contains(y) || y == x) by {
                    if y == x {
                        assert(s@[i as int] == x);
                    }
                }
            }
            return;
        }
        i = i + 1;
    }
    s.push(x);
    proof {
        assert forall|y: u64| #[trigger] s@.contains(y) <==> (before.contains(y) || y == x) by {
            crate::math::dag::lemma_contains_push(before, x, y);
        }
    }
}

/// Whether the two lists share an element.
fn intersects(a: &Vec<u64>, b: &Vec<u64>) -> (r: bool)
    ensures
        r == exists|x: u64| a@.contains(x) && b@.contains(x),
{
    let mut i: usize = 0;
    while i < a.len()
        invariant
            i <= a@.len(),
            forall|k: int| 0 <= k < i ==> !b@.contains(a@[k]),
        decreases a@.len() - i,
    {
        let mut j: usize = 0;
        while j < b.len()
            invariant
                i < a@.len(),
                j <= b@.len(),
                forall|k: int| 0 <= k < j ==> b@[k] != a@[i as int],
            decreases b@.len() - j,
        {
            if b[j] == a[i] {
                proof {
                    assert(a@.contains(a@[i as int]));
                    assert(b@.contains(a@[i as int]));
                }
                return true;
            }
            j = j + 1;
        }
        i = i + 1;
    }
    proof {
        assert forall|x: u64| !(a@.contains(x) && b@.contains(x)) by {
            if a@.contains(x) {
                let k = choose|k: int| 0 <= k < a@.len() && a@[k] == x;
            }
        }
    }
    false
}

impl AccountSetAnalyzer {
    pub closed spec fn edge_seq(&self) -> Seq<(u64, u64)> {
        self.edges@
    }

    /// The vertices in the order in which they first appeared.
    pub closed spec fn vertex_seq(&self) -> Seq<u64> {
        self.vertices@
    }

    pub closed spec fn wf(&self) -> bool {
        &&& self.vertices@.no_duplicates()
        &&& forall|v: u64| #[trigger] self.index@.contains_key(v) <==> self.vertices@.contains(v)
        &&& forall|v: u64| #[trigger] self.index@.contains_key(v) ==> {
            &&& self.index@[v] < self.vertices@.len()
            &&& self.vertices@[self.index@[v] as int] == v
        }
        &&& forall|v: u64| #[trigger] self.vertices@.contains(v) <==> is_endpoint(self.edges@, v)
    }

    pub fn new() -> (a: Self)
        ensures
            a.wf(),
            a.edge_seq() == Seq::<(u64, u64)>::empty(),
            a.vertex_seq() == Seq::<u64>::empty(),
    {
        AccountSetAnalyzer { edges: Vec::new(), vertices: Vec::new(), index: HashMap::new() }
    }

    /// Adds `x` to the vertices unless it is one already.
    fn add_vertex(&mut self, x: u64)
        requires
            old(self).vertices@.no_duplicates(),
            forall|v: u64| #[trigger] old(self).index@.contains_key(v) <==> old(self).vertices@.contains(v),
            forall|v: u64| #[trigger] old(self).index@.contains_key(v) ==> {
                &&& old(self).index@[v] < old(self).vertices@.len()
                &&& old(self).vertices@[old(self).index@[v] as int] == v
            },
        ensures
            final(self).edges@ == old(self).edges@,
            final(self).vertices@.no_duplicates(),
            forall|v: u64| #[trigger] final(self).index@.contains_key(v) <==> final(self).vertices@.contains(v),
            forall|v: u64| #[trigger] final(self).index@.contains_key(v) ==> {
                &&& final(self).index@[v] < final(self).vertices@.len()
                &&& final(self).vertices@[final(self).index@[v] as int] == v
            },
            old(self).vertices@.contains(x) ==> final(self).vertices@ == old(self).vertices@,
            !old(self).vertices@.contains(x) ==> final(self).vertices@ == old(self).vertices@.push(x),
    {
        if !self.index.contains_key(&x) {
            let p = self.vertices.len();
            let ghost before = self.vertices@;
            self.vertices.push(x);
            self.index.insert(x, p);
            proof {
                assert forall|v: u64| #[trigger] self.index@.contains_key(v) <==> self.vertices@.contains(v) by {
                    crate::math::dag::lemma_contains_push(before, x, v);
                }
                assert forall|v: u64| #[trigger] self.index@.contains_key(v) implies {
                    &&& self.index@[v] < self.vertices@.len()
                    &&& self.vertices@[self.index@[v] as int] == v
                } by {
                    if v != x {
                        assert(old(self).index@.contains_key(v));
                    }
                }
            }
        }
    }

    /// Records an edge between two transactions.
    pub fn add_edge(&mut self, from: u64, to: u64)
        requires
            old(self).wf(),
        ensures
            final(self).wf(),
            final(self).edge_seq() == old(self).edge_seq().push((from, to)),
            final(self).vertex_seq() == {
                let s1 = if old(self).vertex_seq().contains(from) {
                    old(self).vertex_seq()
                } else {
                    old(self).vertex_seq().push(from)
                };
                if s1.contains(to) {
                    s1
                } else {
                    s1.push(to)
                }
            },
    {
        let ghost old_edges = self.edges@;
        self.edges.push((from, to));
        self.add_vertex(from);
        let ghost s1 = self.vertices@;
        self.add_vertex(to);
        proof {
            let edges = self.edges@;
            assert(edges == old_edges.push((from, to)));
            let last = edges.len() - 1;
            assert(edges[last] == (from, to));
            assert forall|v: u64| #[trigger] self.vertices@.contains(v) <==> is_endpoint(edges, v) by {
                crate::math::dag::lemma_contains_push(old(self).vertices@, from, v);
                crate::math::dag::lemma_contains_push(s1, to, v);
                crate::math::dag::lemma_contains_push(old(self).vertices@, from, from);
                crate::math::dag::lemma_contains_push(s1, to, to);
                assert(old(self).vertices@.contains(v) <==> is_endpoint(old_edges, v));
                assert(s1.contains(from));
                assert(self.vertices@.contains(to));
                assert(self.vertices@.contains(v) <==> (old(self).vertices@.contains(v) || v == from || v == to));
                if v == from || v == to {
                    assert(0 <= last < edges.len());
                    assert(edges[last].0 == v || edges[last].1 == v);
                    assert(is_endpoint(edges, v));
                }
                if is_endpoint(old_edges, v) {
                    let e = endpoint_witness(old_edges, v);
                    assert(edges[e] == old_edges.push((from, to))[e]);
                    assert(edges[e] == old_edges[e]);
                    assert(edges[e].0 == v || edges[e].1 == v);
                    assert(is_endpoint(edges, v));
                }
                if is_endpoint(edges, v) && v != from && v != to {
                    let e = endpoint_witness(edges, v);
                    assert(e != last);
                    assert(old_edges[e] == edges[e]);
                }
            }
        }
    }

    /// Splits the vertices, in order, into consecutive parts of
    /// `ceil(n / num_parts)` vertices each, the last part taking the rest.
    pub fn partition(&self, num_parts: usize) -> (parts: Vec<Vec<u64>>)
        requires
            self.wf(),
            num_parts > 0,
            self.vertex_seq().len() > 0,
            self.vertex_seq().len() + num_parts - 1 <= usize::MAX,
        ensures
            ({
                let n = self.vertex_seq().len();
                let chunk = (n + num_parts - 1) / (num_parts as int);
                let ps = parts@.map_values(|p: Vec<u64>| p@);
                &&& concat(ps) == self.vertex_seq()
                &&& ps.len() >= 1
                &&& forall|k: int| 0 <= k < ps.len() - 1 ==> (#[trigger] ps[k]).len() == chunk
                &&& 1 <= ps.last().len() <= chunk
                &&& forall|k: int, j: int|
                    0 <= k < ps.len() && 0 <= j < ps[k].len() ==> #[trigger] ps[k][j]
                        == self.vertex_seq()[k * chunk + j]
            }),
    {
        let n = self.vertices.len();
        let chunk_size = (n - 1 + num_parts) / num_parts;
        assert(chunk_size >= 1) by (nonlinear_arith)
            requires
                n >= 1,
                num_parts >= 1,
                chunk_size as int == (n + num_parts - 1) / (num_parts as int),
        ;
        let ghost vs = self.vertices@;
        let mut parts: Vec<Vec<u64>> = Vec::new();
        let mut start: usize = 0;
        while start < n
            invariant
                n == vs.len(),
                vs == self.vertices@,
                chunk_size >= 1,
                start <= n,
                concat(parts@.map_values(|p: Vec<u64>| p@)) == vs.take(start as int),
                forall|k: int| 0 <= k < parts@.len() - 1 ==> (#[trigger] parts@[k])@.len() == chunk_size,
                parts@.len() >= 1 ==> 1 <= parts@.last()@.len() <= chunk_size,
                parts@.len() >= 1 && start < n ==> parts@.last()@.len() == chunk_size,
                parts@.len() == 0 <==> start == 0,
                start < n ==> start as int == parts@.len() * chunk_size,
                forall|k: int, j: int|
                    0 <= k < parts@.len() && 0 <= j < parts@[k]@.len() ==> #[trigger] parts@[k]@[j]
                        == vs[k * chunk_size + j],
            decreases n - start,
        {
            let end = if n - start > chunk_size {
                start + chunk_size
            } else {
                n
            };
            let mut part: Vec<u64> = Vec::new();
            let mut q: usize = start;
            while q < end
                invariant
                    start <= q <= end <= n,
                    n == vs.len(),
                    vs == self.vertices@,
                    part@ == vs.subrange(start as int, q as int),
                decreases end - q,
            {
                part.push(self.vertices[q]);
                assert(vs.subrange(start as int, q + 1) == vs.subrange(start as int, q as int).push(vs[q as int]));
                q = q + 1;
            }
            let ghost before = parts@;
            let ghost k0 = parts@.len() as int;
            parts.push(part);
            proof {
                assert(start as int == k0 * chunk_size);
                assert((k0 + 1) * chunk_size == k0 * chunk_size + chunk_size) by (nonlinear_arith);
                assert forall|k: int, j: int|
                    0 <= k < parts@.len() && 0 <= j < parts@[k]@.len() implies #[trigger] parts@[k]@[j]
                        == vs[k * chunk_size + j] by {
                    if k < k0 {
                        assert(parts@[k] == before[k]);
                    }
                }
                let ps = parts@.map_values(|p: Vec<u64>| p@);
                assert(ps.drop_last() == before.map_values(|p: Vec<u64>| p@));
                assert(vs.take(end as int) == vs.take(start as int) + vs.subrange(start as int, end as int));
            }
            start = end;
        }
        proof {
            assert(vs.take(n as int) == vs);
        }
        parts
    }

    /// `(v, w)` is a conflict: `v` and `w` are joined by an edge, have a
    /// common neighbour, and `w` does not come before `v` among the vertices.
    pub open spec fn is_conflict(&self, v: u64, w: u64) -> bool {
        &&& self.vertex_seq().contains(v)
        &&& self.vertex_seq().contains(w)
        &&& self.vertex_seq().index_of(v) <= self.vertex_seq().index_of(w)
        &&& adjacent(self.edge_seq(), v, w)
        &&& share_neighbor(self.edge_seq(), v, w)
    }

    /// The neighbours of every vertex, by position, each listed once.
    fn neighbor_lists(&self) -> (nb: Vec<Vec<u64>>)
        requires
            self.wf(),
        ensures
            nb@.len() == self.vertex_seq().len(),
            forall|i: int| 0 <= i < nb@.len() ==> (#[trigger] nb@[i])@.no_duplicates(),
            forall|i: int, x: u64|
                0 <= i < nb@.len() ==> (#[trigger] nb@[i]@.contains(x) <==> adjacent(
                    self.edge_seq(),
                    self.vertex_seq()[i],
                    x,
                )),
    {
        let n = self.vertices.len();
        let ghost vs = self.vertices@;
        let ghost edges = self.edges@;
        let mut nb: Vec<Vec<u64>> = Vec::new();
        let mut i: usize = 0;
        while i < n
            invariant
                i <= n,
                nb@.len() == i,
                forall|j: int| 0 <= j < i ==> (#[trigger] nb@[j])@.len() == 0,
            decreases n - i,
        {
            nb.push(Vec::new());
            i = i + 1;
        }
        let mut k: usize = 0;
        while k < self.edges.len()
            invariant
                self.wf(),
                vs == self.vertices@,
                edges == self.edges@,
                n == vs.len(),
                k <= edges.len(),
                nb@.len() == n,
                forall|j: int| 0 <= j < n ==> (#[trigger] nb@[j])@.no_duplicates(),
                forall|j: int, x: u64|
                    0 <= j < n ==> (#[trigger] nb@[j]@.contains(x) <==> adjacent(
                        edges.take(k as int),
                        vs[j],
                        x,
                    )),
            decreases edges.len() - k,
        {
            let (a, b) = self.edges[k];
            proof {
                assert(edges[k as int] == (a, b));
                assert(is_endpoint(edges, a));
                assert(is_endpoint(edges, b));
            }
            let ia = *self.index.get(&a).unwrap();
            let ib = *self.index.get(&b).unwrap();
            let ghost before = nb@;
            add_unique(&mut nb[ia], b);
            let ghost mid = nb@;
            add_unique(&mut nb[ib], a);
            proof {
                let t = edges.take(k as int);
                let t1 = edges.take(k + 1);
                assert(t1 == t.push((a, b)));
                assert forall|j: int, x: u64| 0 <= j < n implies (#[trigger] nb@[j]@.contains(x) <==> adjacent(t1, vs[j], x)) by {
                    lemma_adjacent_push(t, (a, b), vs[j], x);
                    if j != ia {
                        assert(vs[j] != a);
                    }
                    if j != ib {
                        assert(vs[j] != b);
                    }
                }
            }
            k = k + 1;
        }
        proof {
            assert(edges.take(edges.len() as int) == edges);
        }
        nb
    }

    /// The pairs `(v, w)` of vertices joined by an edge that have a common
    /// neighbour, each pair once, with `w` not before `v` among the vertices;
    /// listed by first vertex in vertex order.
    pub fn find_conflicts(&self) -> (r: Vec<(u64, u64)>)
        requires
            self.wf(),
        ensures
            r@.no_duplicates(),
            forall|v: u64, w: u64| #[trigger] r@.contains((v, w)) <==> self.is_conflict(v, w),
            forall|a: int, b: int|
                0 <= a <= b < r@.len() ==> self.vertex_seq().index_of(r@[a].0) <= self.vertex_seq().index_of(
                    r@[b].0,
                ),
    {
        let n = self.vertices.len();
        let ghost vs = self.vertices@;
        let ghost edges = self.edges@;
        let nb = self.neighbor_lists();
        let mut conflicts: Vec<(u64, u64)> = Vec::new();
        let mut i: usize = 0;
        while i < n
            invariant
                self.wf(),
                vs == self.vertices@,
                edges == self.edges@,
                n == vs.len(),
                i <= n,
                nb@.len() == n,
                forall|j: int| 0 <= j < n ==> (#[trigger] nb@[j])@.no_duplicates(),
                forall|j: int, x: u64|
                    0 <= j < n ==> (#[trigger] nb@[j]@.contains(x) <==> adjacent(edges, vs[j], x)),
                conflicts@.no_duplicates(),
                forall|v: u64, w: u64| #[trigger] conflicts@.contains((v, w)) <==> (self.is_conflict(v, w)
                    && vs.index_of(v) < i),
                forall|a: int, b: int|
                    0 <= a <= b < conflicts@.len() ==> vs.index_of(conflicts@[a].0) <= vs.index_of(
                        conflicts@[b].0,
                    ),
                forall|a: int| 0 <= a < conflicts@.len() ==> vs.index_of(#[trigger] conflicts@[a].0) < i,
            decreases n - i,
        {
            let v = self.vertices[i];
            proof {
                crate::math::dag::lemma_index_of_unique(vs, i as int);
            }
            let mut m: usize = 0;
            while m < nb[i].len()
                invariant
                    self.wf(),
                    vs == self.vertices@,
                    edges == self.edges@,
                    n == vs.len(),
                    i < n,
                    v == vs[i as int],
                    vs.index_of(v) == i,
                    m <= nb@[i as int]@.len(),
                    nb@.len() == n,
                    forall|j: int| 0 <= j < n ==> (#[trigger] nb@[j])@.no_duplicates(),
                    forall|j: int, x: u64|
                        0 <= j < n ==> (#[trigger] nb@[j]@.contains(x) <==> adjacent(edges, vs[j], x)),
                    conflicts@.no_duplicates(),
                    forall|v2: u64, w: u64| #[trigger] conflicts@.contains((v2, w)) <==> (self.is_conflict(v2, w)
                        && (vs.index_of(v2) < i || (v2 == v && nb@[i as int]@.take(m as int).contains(w)))),
                    forall|a: int, b: int|
                        0 <= a <= b < conflicts@.len() ==> vs.index_of(conflicts@[a].0) <= vs.index_of(
                            conflicts@[b].0,
                        ),
                    forall|a: int| 0 <= a < conflicts@.len() ==> vs.index_of(#[trigger] conflicts@[a].0) <= i,
                decreases nb@[i as int]@.len() - m,
            {
                let w = nb[i][m];
                let ghost row = nb@[i as int]@;
                proof {
                    assert(row.contains(w));
                    assert(adjacent(edges, v, w));
                    lemma_adjacent_is_vertex(self, v, w);
                }
                let j = *self.index.get(&w).unwrap();
                proof {
                    crate::math::dag::lemma_index_of_unique(vs, j as int);
                    assert(row.take(m + 1) == row.take(m as int).push(w));
                }
                let ghost before = conflicts@;
                if j >= i && intersects(&nb[i], &nb[j]) {
                    conflicts.push((v, w));
                    proof {
                        assert(!before.contains((v, w))) by {
                            if before.contains((v, w)) {
                                assert(row.take(m as int).contains(w));
                                let q = choose|q: int| 0 <= q < m && row.take(m as int)[q] == w;
                                assert(row[q] == row[m as int]);
                            }
                        }
                        assert(share_neighbor(edges, v, w)) by {
                            let x = choose|x: u64| nb@[i as int]@.contains(x) && nb@[j as int]@.contains(x);
                            assert(adjacent(edges, v, x));
                            assert(adjacent(edges, w, x));
                        }
                    }
                } else {
                    proof {
                        if self.is_conflict(v, w) {
                            let x = choose|x: u64| adjacent(edges, v, x) && adjacent(edges, w, x);
                            assert(nb@[i as int]@.contains(x));
                            assert(nb@[j as int]@.contains(x));
                        }
                    }
                }
                proof {
                    assert forall|v2: u64, w2: u64| #[trigger] conflicts@.contains((v2, w2)) <==> (self.is_conflict(v2, w2)
                        && (vs.index_of(v2) < i || (v2 == v && row.take(m + 1).contains(w2)))) by {
                        crate::math::dag::lemma_contains_push(before, (v, w), (v2, w2));
                        crate::math::dag::lemma_contains_push(row.take(m as int), w, w2);
                        if v2 == v && w2 == w && self.is_conflict(v2, w2) {
                            assert(vs.index_of(w) == j);
                        }
                    }
                }
                m = m + 1;
            }
            proof {
                let row = nb@[i as int]@;
                assert(row.take(m as int) == row);
                assert forall|v2: u64, w: u64| #[trigger] conflicts@.contains((v2, w)) <==> (self.is_conflict(v2, w)
                    && vs.index_of(v2) < i + 1) by {
                    if self.is_conflict(v2, w) && vs.index_of(v2) == i {
                        let q = vs.index_of(v2);
                        assert(vs[q] == v2);
                        assert(row.contains(w));
                    }
                }
            }
            i = i + 1;
        }
        conflicts
    }

    pub fn vertex_count(&self) -> (n: usize)
        ensures
            n == self.vertex_seq().len(),
    {
        self.vertices.len()
    }

    pub fn edge_count(&self) -> (n: usize)
        ensures
            n == self.edge_seq().len(),
    {
        self.edges.len()
    }
}

impl Default for AccountSetAnalyzer {
    /// An analyzer without accounts or edges.
    fn default() -> (a: Self)
        ensures
            a.wf(),
            a.edge_seq() == Seq::<(u64, u64)>::empty(),
            a.vertex_seq() == Seq::<u64>::empty(),
    {
        Self::new()
    }
}

proof fn lemma_adjacent_contains(edges: Seq<(u64, u64)>, v: u64, w: u64)
    ensures
        adjacent(edges, v, w) <==> (edges.contains((v, w)) || edges.contains((w, v))),
{
    if edges.contains((v, w)) {
        let k = choose|k: int| 0 <= k < edges.len() && edges[k] == (v, w);
        assert(edges[k] == (v, w));
    }
    if edges.contains((w, v)) {
        let k = choose|k: int| 0 <= k < edges.len() && edges[k] == (w, v);
        assert(edges[k] == (w, v));
    }
    if adjacent(edges, v, w) {
        let k = choose|k: int| 0 <= k < edges.len() && (#[trigger] edges[k] == (v, w) || edges[k] == (w, v));
        assert(edges.contains(edges[k]));
    }
}

/// A pair is a conflict exactly when both are vertices, the first does not
/// come after the second, an edge joins them (either way), and some vertex
/// is joined by an edge to each of them.
pub proof fn lemma_conflict_edges(a: &AccountSetAnalyzer, v: u64, w: u64)
    ensures
        a.is_conflict(v, w) <==> {
            let edges = a.edge_seq();
            &&& a.vertex_seq().contains(v)
            &&& a.vertex_seq().contains(w)
            &&& a.vertex_seq().index_of(v) <= a.vertex_seq().index_of(w)
            &&& (edges.contains((v, w)) || edges.contains((w, v)))
            &&& exists|x: u64|
                (#[trigger] edges.contains((v, x)) || edges.contains((x, v))) && (edges.contains((w, x))
                    || edges.contains((x, w)))
        },
{
    let edges = a.edge_seq();
    lemma_adjacent_contains(edges, v, w);
    if share_neighbor(edges, v, w) {
        let x = choose|x: u64| adjacent(edges, v, x) && adjacent(edges, w, x);
        lemma_adjacent_contains(edges, v, x);
        lemma_adjacent_contains(edges, w, x);
        assert(edges.contains((v, x)) || edges.contains((x, v)));
    }
    if exists|x: u64|
        (#[trigger] edges.contains((v, x)) || edges.contains((x, v))) && (edges.contains((w, x))
            || edges.contains((x, w))) {
        let x = choose|x: u64|
            (#[trigger] edges.contains((v, x)) || edges.contains((x, v))) && (edges.contains((w, x))
                || edges.contains((x, w)));
        lemma_adjacent_contains(edges, v, x);
        lemma_adjacent_contains(edges, w, x);
        assert(adjacent(edges, v, x) && adjacent(edges, w, x));
    }
}

} // verus!
