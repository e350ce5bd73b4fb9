use vstd::prelude::*;

use std::collections::HashMap;

use crate::program::utils::{accounts_overlap, check_account_overlap};

verus! {

broadcast use vstd::std_specs::hash::group_hash_axioms;

/// One transaction of a CPE bundle, as a vertex of the dependency graph.
#[derive(Debug, Clone)]
pub struct DagNode {
    pub id: u64,
    pub tx_hash: [u8; 32],
    pub dependencies: Vec<u64>,
    pub account_keys: Vec<[u8; 32]>,
    pub weight: u32,
}

/// Errors of the dependency-graph scheduler.
#[derive(Debug, PartialEq, Eq)]
pub enum SchedulerError {
    CycleDetected,
    NodeNotFound(u64),
}

/// The transaction dependency graph.
///
/// `nodes` holds each transaction once (a node added again with the same id
/// replaces the earlier one in place), `index` maps an id to its position in
/// `nodes`, and `adjacency` records one edge `(dependency, dependent)` for
/// every dependency ever declared, in the order of declaration. Edges are
/// never removed, also when a node is replaced.
#[derive(Debug)]
pub struct DagScheduler {
    nodes: Vec<DagNode>,
    index: HashMap<u64, usize>,
    adjacency: Vec<(u64, u64)>,
}

/// The ids of a sequence of nodes, in order.
pub open spec fn ids_of(nodes: Seq<DagNode>) -> Seq<u64> {
    nodes.map_values(|n: DagNode| n.id)
}

/// In a sequence without duplicates, `index_of` finds the one position of
/// an element.
pub proof fn lemma_index_of_unique<A>(s: Seq<A>, p: int)
    requires
        s.no_duplicates(),
        0 <= p < s.len(),
    ensures
        s.index_of(s[p]) == p,
{
    let q = s.index_of(s[p]);
    assert(s.contains(s[p]));
}

/// Appending edges keeps every edge that was recorded.
proof fn lemma_edges_grow(old_edges: Seq<(u64, u64)>, new_edges: Seq<(u64, u64)>)
    requires
        old_edges.is_prefix_of(new_edges),
    ensures
        forall|e: (u64, u64)| old_edges.contains(e) ==> new_edges.contains(e),
{
    assert forall|e: (u64, u64)| old_edges.contains(e) implies new_edges.contains(e) by {
        let j = choose|j: int| 0 <= j < old_edges.len() && old_edges[j] == e;
        assert(new_edges[j] == e);
    }
}


/// The number of edges into `t` whose source is not in `done`.
pub open spec fn pending_in(edges: Seq<(u64, u64)>, t: u64, done: Set<u64>) -> nat
    decreases edges.len(),
{
    if edges.len() == 0 {
        0
    } else {
        pending_in(edges.drop_last(), t, done) + if edges.last().1 == t && !done.contains(
            edges.last().0,
        ) {
            1nat
        } else {
            0nat
        }
    }
}

/// The number of edges equal to `(s, t)`.
pub open spec fn pair_count(edges: Seq<(u64, u64)>, s: u64, t: u64) -> nat
    decreases edges.len(),
{
    if edges.len() == 0 {
        0
    } else {
        pair_count(edges.drop_last(), s, t) + if edges.last() == (s, t) {
            1nat
        } else {
            0nat
        }
    }
}

/// The number of occurrences of `x` in `s`.
pub open spec fn occurrences(s: Seq<usize>, x: usize) -> nat
    decreases s.len(),
{
    if s.len() == 0 {
        0
    } else {
        occurrences(s.drop_last(), x) + if s.last() == x {
            1nat
        } else {
            0nat
        }
    }
}

/// `order` lists every node of `ids` exactly once, and the source of every
/// edge into a node is listed before that node. In particular the source of
/// such an edge must itself be a node.
pub open spec fn is_topological_order_of(
    ids: Seq<u64>,
    edges: Seq<(u64, u64)>,
    order: Seq<u64>,
) -> bool {
    &&& order.no_duplicates()
    &&& forall|x: u64| #[trigger] order.contains(x) <==> ids.contains(x)
    &&& forall|e: int, j: int|
        0 <= e < edges.len() && 0 <= j < order.len() && #[trigger] order[j] == #[trigger] edges[e].1
        ==> exists|i: int| 0 <= i < j && #[trigger] order[i] == edges[e].0
}

/// Every edge into the node at queue position `q` comes from a node at an
/// earlier queue position.
pub open spec fn sources_before(ids: Seq<u64>, edges: Seq<(u64, u64)>, queue: Seq<usize>, q: int) -> bool {
    forall|e: int| 0 <= e < edges.len() && #[trigger] edges[e].1 == ids[queue[q] as int]
        ==> exists|m: int| 0 <= m < q && #[trigger] ids[queue[m] as int] == edges[e].0
}

proof fn lemma_pending_split(edges: Seq<(u64, u64)>, t: u64, done: Set<u64>, s: u64)
    requires
        !done.contains(s),
    ensures
        pending_in(edges, t, done) == pending_in(edges, t, done.insert(s)) + pair_count(
            edges,
            s,
            t,
        ),
    decreases edges.len(),
{
    if edges.len() > 0 {
        lemma_pending_split(edges.drop_last(), t, done, s);
    }
}

proof fn lemma_pending_zero(edges: Seq<(u64, u64)>, t: u64, done: Set<u64>)
    requires
        pending_in(edges, t, done) == 0,
    ensures
        forall|e: int| 0 <= e < edges.len() && #[trigger] edges[e].1 == t ==> done.contains(edges[e].0),
    decreases edges.len(),
{
    if edges.len() > 0 {
        lemma_pending_zero(edges.drop_last(), t, done);
        assert forall|e: int| 0 <= e < edges.len() && #[trigger] edges[e].1 == t implies done.contains(edges[e].0) by {
            if e < edges.len() - 1 {
                assert(edges.drop_last()[e] == edges[e]);
            }
        }
    }
}

proof fn lemma_pending_positive(edges: Seq<(u64, u64)>, t: u64, done: Set<u64>) -> (e: int)
    requires
        pending_in(edges, t, done) > 0,
    ensures
        0 <= e < edges.len(),
        edges[e].1 == t,
        !done.contains(edges[e].0),
    decreases edges.len(),
{
    if edges.last().1 == t && !done.contains(edges.last().0) {
        edges.len() - 1
    } else {
        let e = lemma_pending_positive(edges.drop_last(), t, done);
        assert(edges.drop_last()[e] == edges[e]);
        e
    }
}

proof fn lemma_pending_bounded(edges: Seq<(u64, u64)>, t: u64, done: Set<u64>)
    ensures
        pending_in(edges, t, done) <= edges.len(),
    decreases edges.len(),
{
    if edges.len() > 0 {
        lemma_pending_bounded(edges.drop_last(), t, done);
    }
}

proof fn lemma_occurrences_prefix(s: Seq<usize>, x: usize, m: int)
    requires
        0 <= m <= s.len(),
    ensures
        occurrences(s.take(m), x) <= occurrences(s, x),
    decreases s.len() - m,
{
    if m < s.len() {
        lemma_occurrences_prefix(s, x, m + 1);
        assert(s.take(m + 1).drop_last() == s.take(m));
    } else {
        assert(s.take(m) == s);
    }
}

/// A sequence of distinct values below `n` has at most `n` elements, and
/// has exactly `n` of them if and only if it holds every value below `n`.
proof fn lemma_distinct_below(s: Seq<usize>, n: usize)
    requires
        s.no_duplicates(),
        forall|m: int| 0 <= m < s.len() ==> s[m] < n,
    ensures
        s.len() <= n,
        s.len() == n <==> forall|j: usize| j < n ==> s.contains(j),
{
    let below = Set::new(|j: usize| j < n);
    lemma_below_set_len(n);
    s.unique_seq_to_set();
    assert(s.to_set().subset_of(below));
    vstd::set_lib::lemma_len_subset(s.to_set(), below);
    if s.len() == n {
        vstd::set_lib::lemma_subset_equality(s.to_set(), below);
        assert forall|j: usize| j < n implies s.contains(j) by {
            assert(below.contains(j));
        }
    }
    if forall|j: usize| j < n ==> s.contains(j) {
        assert(below.subset_of(s.to_set()));
        vstd::set_lib::lemma_len_subset(below, s.to_set());
    }
}

proof fn lemma_below_set_len(n: usize)
    ensures
        Set::new(|j: usize| j < n).finite(),
        Set::new(|j: usize| j < n).len() == n,
    decreases n,
{
    if n == 0 {
        assert(Set::new(|j: usize| j < n) =~= Set::<usize>::empty());
    } else {
        lemma_below_set_len((n - 1) as usize);
        assert(Set::new(|j: usize| j < n) =~= Set::new(|j: usize| j < (n - 1) as usize).insert(
            (n - 1) as usize,
        ));
    }
}

/// If every node outside `done` still waits for an edge from outside
/// `done`, then a topological order lists only nodes of `done`.
proof fn lemma_order_inside_done(
    ids: Seq<u64>,
    edges: Seq<(u64, u64)>,
    order: Seq<u64>,
    done: Set<u64>,
    p: int,
)
    requires
        is_topological_order_of(ids, edges, order),
        forall|x: u64| ids.contains(x) && !done.contains(x) ==> pending_in(edges, x, done) > 0,
        0 <= p < order.len(),
    ensures
        forall|q: int| 0 <= q <= p ==> done.contains(#[trigger] order[q]),
    decreases p,
{
    if p > 0 {
        lemma_order_inside_done(ids, edges, order, done, p - 1);
    }
    let v = order[p];
    assert(order.contains(v));
    if !done.contains(v) {
        let e = lemma_pending_positive(edges, v, done);
        let i = choose|i: int| 0 <= i < p && #[trigger] order[i] == edges[e].0;
        assert(done.contains(order[i]));
    }
}

/// The positions whose count is zero, in increasing order.
fn ready_positions(in_degree: &Vec<usize>) -> (queue: Vec<usize>)
    ensures
        queue@.no_duplicates(),
        forall|m: int| 0 <= m < queue@.len() ==> #[trigger] queue@[m] < in_degree.len(),
        forall|x: usize| x < in_degree.len() ==> (queue@.contains(x) <==> in_degree[x as int] == 0),
{
    let mut queue: Vec<usize> = Vec::new();
    let mut j: usize = 0;
    while j < in_degree.len()
        invariant
            j <= in_degree.len(),
            queue@.no_duplicates(),
            forall|m: int| 0 <= m < queue@.len() ==> #[trigger] queue@[m] < j,
            forall|x: usize| x < j ==> (queue@.contains(x) <==> in_degree[x as int] == 0),
        decreases in_degree.len() - j,
    {
        let ghost before = queue@;
        if in_degree[j] == 0 {
            queue.push(j);
        }
        proof {
            assert forall|x: usize| x < j + 1 implies (queue@.contains(x) <==> in_degree[x as int] == 0) by {
                lemma_contains_push(before, j, x);
            }
        }
        j = j + 1;
    }
    queue
}

pub proof fn lemma_contains_push<A>(s: Seq<A>, v: A, x: A)
    ensures
        s.push(v).contains(x) <==> (s.contains(x) || x == v),
{
    if s.contains(x) {
        let m = choose|m: int| 0 <= m < s.len() && s[m] == x;
        assert(s.push(v)[m] == x);
    }
    if x == v {
        assert(s.push(v)[s.len() as int] == x);
    }
    if s.push(v).contains(x) && x != v {
        let m = choose|m: int| 0 <= m < s.len() + 1 && s.push(v)[m] == x;
        assert(s[m] == x);
    }
}

/// Takes away the edges of a node that was just taken from the queue, and
/// queues each node whose count drops to zero.
fn release_dependents(
    in_degree: &mut Vec<usize>,
    queue: &mut Vec<usize>,
    row: &Vec<usize>,
    Ghost(ids): Ghost<Seq<u64>>,
    Ghost(edges): Ghost<Seq<(u64, u64)>>,
    Ghost(done_before): Ghost<Set<u64>>,
    Ghost(done): Ghost<Set<u64>>,
    Ghost(head): Ghost<usize>,
)
    requires
        ids.no_duplicates(),
        old(in_degree).len() == ids.len(),
        forall|m: int| 0 <= m < row@.len() ==> #[trigger] row@[m] < ids.len(),
        head <= old(queue)@.len(),
        old(queue)@.no_duplicates(),
        forall|q: int| 0 <= q < old(queue)@.len() ==> #[trigger] old(queue)@[q] < ids.len(),
        forall|x: usize| x < ids.len() ==> (old(queue)@.contains(x) <==> old(in_degree)[x as int] == 0),
        forall|x: int| 0 <= x < ids.len() ==> old(in_degree)[x] == pending_in(edges, #[trigger] ids[x], done_before),
        forall|x: int| 0 <= x < ids.len() ==> pending_in(edges, #[trigger] ids[x], done_before)
            == pending_in(edges, ids[x], done) + occurrences(row@, x as usize),
        forall|x: u64| done.contains(x) ==> exists|m: int| 0 <= m < head && #[trigger] ids[old(queue)@[m] as int] == x,
        forall|q: int| 0 <= q < old(queue)@.len() ==> sources_before(ids, edges, old(queue)@, q),
    ensures
        final(in_degree).len() == ids.len(),
        old(queue)@.is_prefix_of(final(queue)@),
        final(queue)@.no_duplicates(),
        forall|q: int| 0 <= q < final(queue)@.len() ==> #[trigger] final(queue)@[q] < ids.len(),
        forall|x: usize| x < ids.len() ==> (final(queue)@.contains(x) <==> final(in_degree)[x as int] == 0),
        forall|x: int| 0 <= x < ids.len() ==> final(in_degree)[x] == pending_in(edges, #[trigger] ids[x], done),
        forall|q: int| 0 <= q < final(queue)@.len() ==> sources_before(ids, edges, final(queue)@, q),
{
    let ghost queue0 = queue@;
    let ghost n = ids.len();
    let mut m: usize = 0;
    while m < row.len()
        invariant
            m <= row@.len(),
            in_degree.len() == n,
            forall|q: int| 0 <= q < row@.len() ==> #[trigger] row@[q] < n,
            head <= queue0.len(),
            queue0.is_prefix_of(queue@),
            queue@.no_duplicates(),
            forall|q: int| 0 <= q < queue@.len() ==> #[trigger] queue@[q] < n,
            forall|x: usize| x < n ==> (queue@.contains(x) <==> in_degree[x as int] == 0),
            forall|x: int| 0 <= x < n ==> in_degree[x] + occurrences(row@.take(m as int), x as usize)
                == pending_in(edges, #[trigger] ids[x], done_before),
            forall|x: int| 0 <= x < n ==> pending_in(edges, #[trigger] ids[x], done_before)
                == pending_in(edges, ids[x], done) + occurrences(row@, x as usize),
            forall|x: u64| done.contains(x) ==> exists|m2: int| 0 <= m2 < head && #[trigger] ids[queue0[m2] as int] == x,
            forall|q: int| 0 <= q < queue@.len() ==> sources_before(ids, edges, queue@, q),
        decreases row@.len() - m,
    {
        let t = row[m];
        proof {
            assert(row@.take(m + 1).drop_last() == row@.take(m as int));
            assert(row@.take(m + 1).last() == t);
            lemma_occurrences_prefix(row@, t, m + 1);
            assert(pending_in(edges, ids[t as int], done_before) == pending_in(edges, ids[t as int], done)
                + occurrences(row@, t));
        }
        let d = in_degree[t] - 1;
        let ghost before_push = queue@;
        let ghost deg_before = in_degree@;
        in_degree.set(t, d);
        if d == 0 {
            proof {
                lemma_pending_zero(edges, ids[t as int], done);
                assert(!queue@.contains(t));
            }
            queue.push(t);
            proof {
                assert forall|q: int| 0 <= q < queue@.len() implies sources_before(ids, edges, queue@, q) by {
                    if q < before_push.len() {
                        assert(sources_before(ids, edges, before_push, q));
                        assert forall|e: int| 0 <= e < edges.len() && #[trigger] edges[e].1 == ids[queue@[q] as int]
                            implies exists|m2: int| 0 <= m2 < q && #[trigger] ids[queue@[m2] as int] == edges[e].0 by {
                            let m2 = choose|m2: int| 0 <= m2 < q && #[trigger] ids[before_push[m2] as int] == edges[e].0;
                            assert(queue@[m2] == before_push[m2]);
                        }
                    } else {
                        assert forall|e: int| 0 <= e < edges.len() && #[trigger] edges[e].1 == ids[queue@[q] as int]
                            implies exists|m2: int| 0 <= m2 < q && #[trigger] ids[queue@[m2] as int] == edges[e].0 by {
                            assert(done.contains(edges[e].0));
                            let m2 = choose|m2: int| 0 <= m2 < head && #[trigger] ids[queue0[m2] as int] == edges[e].0;
                            assert(queue@[m2] == queue0[m2]);
                        }
                    }
                }
            }
        }
        proof {
            assert forall|x: usize| x < n implies (queue@.contains(x) <==> in_degree[x as int] == 0) by {
                lemma_contains_push(before_push, t, x);
            }
            assert forall|x: int| 0 <= x < n implies in_degree[x] + occurrences(row@.take(m + 1), x as usize)
                == pending_in(edges, #[trigger] ids[x], done_before) by {
                if x != t as int {
                    assert(deg_before[x] == in_degree[x]);
                }
            }
        }
        m = m + 1;
    }
    proof {
        assert(row@.take(m as int) == row@);
    }
}

/// The highest level among those dependencies that already have one (0 if
/// none has), taking the dependencies from first to last.
pub open spec fn max_known_level(deps: Seq<u64>, lvl: Map<u64, nat>) -> nat
    decreases deps.len(),
{
    if deps.len() == 0 {
        0
    } else {
        let rest = max_known_level(deps.drop_last(), lvl);
        let d = deps.last();
        if lvl.contains_key(d) && lvl[d] > rest {
            lvl[d]
        } else {
            rest
        }
    }
}

/// The level of a node from the levels of its dependencies: 0 for a node
/// without dependencies, else one above the highest level among them.
pub open spec fn level_from(deps: Seq<u64>, lvl: Map<u64, nat>) -> nat {
    if deps.len() == 0 {
        0
    } else {
        max_known_level(deps, lvl) + 1
    }
}

/// `groups` holds, at each index `g`, exactly the nodes of level `g`, each
/// once, and has one group more than the highest level (a single empty
/// group when there are no nodes).
pub open spec fn groups_by_level(groups: Seq<Seq<u64>>, lvl: Map<u64, nat>) -> bool {
    &&& groups.len() >= 1
    &&& forall|x: u64| lvl.contains_key(x) ==> lvl[x] < groups.len()
    &&& (groups.len() == 1 || exists|x: u64| lvl.contains_key(x) && lvl[x] == groups.len() - 1)
    &&& forall|g: int, x: u64|
        0 <= g < groups.len() ==> (#[trigger] groups[g].contains(x) <==> (lvl.contains_key(x) && lvl[x]
            == g))
    &&& forall|g: int| 0 <= g < groups.len() ==> (#[trigger] groups[g]).no_duplicates()
}

/// The levels held in an executable map, as a map to naturals.
pub open spec fn levels_view(m: Map<u64, usize>) -> Map<u64, nat> {
    Map::new(|k: u64| m.contains_key(k), |k: u64| m[k] as nat)
}

proof fn lemma_max_known_level_frame(deps: Seq<u64>, lvl: Map<u64, nat>, k: u64, v: nat)
    requires
        !deps.contains(k),
    ensures
        max_known_level(deps, lvl.insert(k, v)) == max_known_level(deps, lvl),
    decreases deps.len(),
{
    if deps.len() > 0 {
        assert(deps.drop_last().contains(k) ==> deps.contains(k)) by {
            if deps.drop_last().contains(k) {
                let i = choose|i: int| 0 <= i < deps.len() - 1 && deps.drop_last()[i] == k;
                assert(deps[i] == k);
            }
        }
        lemma_max_known_level_frame(deps.drop_last(), lvl, k, v);
        assert(deps[deps.len() - 1] != k);
    }
}

proof fn lemma_max_known_level_bound(deps: Seq<u64>, lvl: Map<u64, nat>, b: nat)
    requires
        forall|i: int| 0 <= i < deps.len() && lvl.contains_key(deps[i]) ==> lvl[deps[i]] <= b,
    ensures
        max_known_level(deps, lvl) <= b,
    decreases deps.len(),
{
    if deps.len() > 0 {
        lemma_max_known_level_bound(deps.drop_last(), lvl, b);
        assert(deps.last() == deps[deps.len() - 1]);
    }
}

proof fn lemma_max_known_level_ge(deps: Seq<u64>, lvl: Map<u64, nat>, i: int)
    requires
        0 <= i < deps.len(),
        lvl.contains_key(deps[i]),
    ensures
        lvl[deps[i]] <= max_known_level(deps, lvl),
    decreases deps.len(),
{
    if i < deps.len() - 1 {
        lemma_max_known_level_ge(deps.drop_last(), lvl, i);
        assert(deps.drop_last()[i] == deps[i]);
    }
}

impl DagScheduler {
    /// The nodes, in the order in which their ids were first added.
    pub closed spec fn node_seq(&self) -> Seq<DagNode> {
        self.nodes@
    }

    /// Every declared dependency edge `(dependency, dependent)`, in order.
    pub closed spec fn edges(&self) -> Seq<(u64, u64)> {
        self.adjacency@
    }

    pub open spec fn node_ids(&self) -> Seq<u64> {
        ids_of(self.node_seq())
    }

    /// The graph's nodes keyed by id.
    pub open spec fn node_map(&self) -> Map<u64, DagNode> {
        Map::new(
            |id: u64| self.node_ids().contains(id),
            |id: u64| self.node_seq()[self.node_ids().index_of(id)],
        )
    }

    pub open spec fn has_node(&self, id: u64) -> bool {
        self.node_ids().contains(id)
    }

    /// Well-formedness: ids are unique, the index finds each node, and every
    /// dependency of a node is recorded as an edge.
    pub closed spec fn wf(&self) -> bool {
        &&& self.node_ids().no_duplicates()
        &&& forall|id: u64| #[trigger] self.index@.contains_key(id) <==> self.node_ids().contains(id)
        &&& forall|id: u64| #[trigger] self.index@.contains_key(id) ==> {
            &&& self.index@[id] < self.nodes@.len()
            &&& self.nodes@[self.index@[id] as int].id == id
        }
        &&& forall|i: int, k: int|
            0 <= i < self.nodes@.len() && 0 <= k < self.nodes@[i].dependencies@.len()
            ==> self.adjacency@.contains(
                (#[trigger] self.nodes@[i].dependencies@[k], self.nodes@[i].id),
            )
    }

    pub fn new() -> (s: Self)
        ensures
            s.wf(),
            s.node_seq() == Seq::<DagNode>::empty(),
            s.edges() == Seq::<(u64, u64)>::empty(),
    {
        DagScheduler { nodes: Vec::new(), index: HashMap::new(), adjacency: Vec::new() }
    }

    /// Adds `node`, replacing a node with the same id, and records an edge
    /// from each of its dependencies to it.
    pub fn add_node(&mut self, node: DagNode)
        requires
            old(self).wf(),
        ensures
            final(self).wf(),
            final(self).edges() == old(self).edges() + node.dependencies@.map_values(
                |d: u64| (d, node.id),
            ),
            old(self).has_node(node.id) ==> final(self).node_seq() == old(self).node_seq().update(
                old(self).node_ids().index_of(node.id),
                node,
            ),
            !old(self).has_node(node.id) ==> final(self).node_seq() == old(self).node_seq().push(
                node,
            ),
            final(self).node_map() == old(self).node_map().insert(node.id, node),
    {
        let id = node.id;
        let ghost old_edges = self.adjacency@;
        let ghost old_nodes = self.nodes@;
        let mut k: usize = 0;
        while k < node.dependencies.len()
            invariant
                k <= node.dependencies.len(),
                self.adjacency@ == old_edges + node.dependencies@.take(k as int).map_values(
                    |d: u64| (d, id),
                ),
                self.nodes@ == old_nodes,
                self.index@ == old(self).index@,
            decreases node.dependencies.len() - k,
        {
            let dep = node.dependencies[k];
            self.adjacency.push((dep, id));
            assert(node.dependencies@.take(k + 1) == node.dependencies@.take(k as int).push(dep));
            k = k + 1;
        }
        assert(node.dependencies@.take(k as int) == node.dependencies@);
        let ghost new_edges = self.adjacency@;
        let ghost ids0 = ids_of(old_nodes);
        proof {
            lemma_edges_grow(old_edges, new_edges);
        }
        match self.index.get(&id) {
            Some(pos) => {
                let p = *pos;
                proof {
                    assert(ids0[p as int] == id);
                    lemma_index_of_unique(ids0, p as int);
                }
                self.nodes.set(p, node);
                proof {
                    assert(ids_of(self.nodes@) =~= ids0);
                    assert(self.nodes@ == old_nodes.update(p as int, node));
                    assert forall|i: int, k: int|
                        0 <= i < self.nodes@.len() && 0 <= k < self.nodes@[i].dependencies@.len()
                        implies self.adjacency@.contains(
                        (#[trigger] self.nodes@[i].dependencies@[k], self.nodes@[i].id),
                    ) by {
                        if i == p {
                            assert(new_edges[old_edges.len() + k] == (node.dependencies@[k], id));
                        }
                    }
                    assert(self.node_map() =~= old(self).node_map().insert(id, node)) by {
                        assert forall|x: u64| #[trigger] self.node_ids().contains(x) implies
                            self.node_seq()[self.node_ids().index_of(x)] == old(self).node_map().insert(id, node)[x] by {
                            let j = choose|j: int| 0 <= j < ids0.len() && ids0[j] == x;
                            lemma_index_of_unique(ids0, j);
                        }
                    }
                }
            }
            None => {
                let p = self.nodes.len();
                self.nodes.push(node);
                self.index.insert(id, p);
                proof {
                    assert(ids_of(self.nodes@) =~= ids0.push(id));
                    assert(!ids0.contains(id));
                    assert(ids_of(self.nodes@).no_duplicates());
                    assert forall|i: int, k: int|
                        0 <= i < self.nodes@.len() && 0 <= k < self.nodes@[i].dependencies@.len()
                        implies self.adjacency@.contains(
                        (#[trigger] self.nodes@[i].dependencies@[k], self.nodes@[i].id),
                    ) by {
                        if i == p {
                            assert(new_edges[old_edges.len() + k] == (node.dependencies@[k], id));
                        } else {
                            assert(self.nodes@[i] == old_nodes[i]);
                        }
                    }
                    assert forall|x: u64| #[trigger] self.index@.contains_key(x) implies {
                        &&& self.index@[x] < self.nodes@.len()
                        &&& self.nodes@[self.index@[x] as int].id == x
                    } by {
                        if x != id {
                            assert(old(self).index@.contains_key(x));
                        }
                    }
                    assert forall|x: u64| #[trigger] self.index@.contains_key(x) <==> self.node_ids().contains(x) by {
                        if x != id && ids0.contains(x) {
                            let j = choose|j: int| 0 <= j < ids0.len() && ids0[j] == x;
                            assert(self.node_ids()[j] == x);
                        }
                        if x == id {
                            assert(self.node_ids()[p as int] == x);
                        }
                        if self.node_ids().contains(x) && x != id {
                            let j = choose|j: int| 0 <= j < self.node_ids().len() && self.node_ids()[j] == x;
                            assert(ids0[j] == x);
                        }
                    }
                    assert(self.node_map() =~= old(self).node_map().insert(id, node)) by {
                        assert forall|x: u64| #[trigger] self.node_ids().contains(x) <==> (ids0.contains(x) || x == id) by {
                            if ids0.contains(x) {
                                let j = choose|j: int| 0 <= j < ids0.len() && ids0[j] == x;
                                assert(self.node_ids()[j] == x);
                            }
                            if x == id {
                                assert(self.node_ids()[p as int] == x);
                            }
                            if self.node_ids().contains(x) && x != id {
                                let j = choose|j: int| 0 <= j < self.node_ids().len() && self.node_ids()[j] == x;
                                assert(ids0[j] == x);
                            }
                        }
                        assert forall|x: u64| #[trigger] self.node_ids().contains(x) implies
                            self.node_seq()[self.node_ids().index_of(x)] == old(self).node_map().insert(id, node)[x] by {
                            let j = choose|j: int| 0 <= j < self.node_ids().len() && self.node_ids()[j] == x;
                            lemma_index_of_unique(self.node_ids(), j);
                            if x != id {
                                assert(ids0[j] == x);
                                lemma_index_of_unique(ids0, j);
                            }
                        }
                    }
                }
            }
        }
    }


    /// `order` is a valid execution order of the whole graph.
    pub open spec fn is_topological_order(&self, order: Seq<u64>) -> bool {
        is_topological_order_of(self.node_ids(), self.edges(), order)
    }

    /// Some valid execution order of the whole graph exists: the graph has
    /// no cycle and no node depends on an id that is not in the graph.
    pub open spec fn has_topological_order(&self) -> bool {
        exists|order: Seq<u64>| self.is_topological_order(order)
    }

    /// For every node, the number of edges into it, and the positions of the
    /// nodes that its outgoing edges lead to.
    fn edge_counts(&self) -> (res: (Vec<usize>, Vec<Vec<usize>>))
        requires
            self.wf(),
        ensures
            res.0.len() == self.node_seq().len(),
            res.1.len() == self.node_seq().len(),
            forall|j: int|
                0 <= j < self.node_seq().len() ==> res.0[j] == pending_in(
                    self.edges(),
                    #[trigger] self.node_ids()[j],
                    Set::empty(),
                ),
            forall|a: int, b: int|
                0 <= a < self.node_seq().len() && 0 <= b < self.node_seq().len() ==> occurrences(
                    #[trigger] res.1[a]@,
                    b as usize,
                ) == pair_count(self.edges(), self.node_ids()[a], #[trigger] self.node_ids()[b]),
            forall|a: int, m: int|
                0 <= a < self.node_seq().len() && 0 <= m < res.1[a]@.len() ==> #[trigger] res.1[a]@[m]
                    < self.node_seq().len(),
    {
        let n = self.nodes.len();
        let ghost ids = self.node_ids();
        let ghost edges = self.adjacency@;
        let mut in_degree: Vec<usize> = Vec::new();
        let mut out: Vec<Vec<usize>> = Vec::new();
        let mut i: usize = 0;
        while i < n
            invariant
                i <= n,
                in_degree.len() == i,
                out.len() == i,
                forall|j: int| 0 <= j < i ==> in_degree[j] == 0,
                forall|j: int| 0 <= j < i ==> out[j]@.len() == 0,
            decreases n - i,
        {
            in_degree.push(0);
            out.push(Vec::new());
            i = i + 1;
        }
        let mut k: usize = 0;
        while k < self.adjacency.len()
            invariant
                self.wf(),
                n == self.nodes@.len(),
                ids == self.node_ids(),
                edges == self.adjacency@,
                k <= edges.len(),
                in_degree.len() == n,
                out.len() == n,
                forall|j: int| 0 <= j < n ==> in_degree[j] == pending_in(
                    edges.take(k as int),
                    #[trigger] ids[j],
                    Set::empty(),
                ),
                forall|a: int, b: int|
                    0 <= a < n && 0 <= b < n ==> occurrences(#[trigger] out[a]@, b as usize)
                        == pair_count(edges.take(k as int), ids[a], #[trigger] ids[b]),
                forall|a: int, m: int| 0 <= a < n && 0 <= m < out[a]@.len() ==> #[trigger] out[a]@[m] < n,
            decreases edges.len() - k,
        {
            let (from, to) = self.adjacency[k];
            let ghost prev_out = out@;
            assert(edges.take(k + 1).drop_last() == edges.take(k as int));
            match self.index.get(&to) {
                Some(tj) => {
                    let j = *tj;
                    proof {
                        lemma_pending_bounded(edges.take(k as int), ids[j as int], Set::empty());
                    }
                    let d = in_degree[j] + 1;
                    in_degree.set(j, d);
                    match self.index.get(&from) {
                        Some(fi) => {
                            let a = *fi;
                            out[a].push(j);
                            proof {
                                assert forall|a2: int, b: int|
                                    0 <= a2 < n && 0 <= b < n implies occurrences(#[trigger] out[a2]@, b as usize)
                                        == pair_count(edges.take(k + 1), ids[a2], #[trigger] ids[b]) by {
                                    if a2 == a {
                                        assert(out[a2]@.drop_last() == prev_out[a2]@);
                                    } else {
                                        assert(ids[a2] != ids[a as int]);
                                    }
                                    if b != j {
                                        assert(ids[b] != ids[j as int]);
                                    }
                                }
                            }
                        }
                        None => {
                            proof {
                                assert forall|a2: int, b: int|
                                    0 <= a2 < n && 0 <= b < n implies occurrences(#[trigger] out[a2]@, b as usize)
                                        == pair_count(edges.take(k + 1), ids[a2], #[trigger] ids[b]) by {
                                    assert(ids.contains(ids[a2]));
                                }
                            }
                        }
                    }
                    proof {
                        assert forall|j2: int| 0 <= j2 < n implies in_degree[j2] == pending_in(
                            edges.take(k + 1),
                            #[trigger] ids[j2],
                            Set::empty(),
                        ) by {
                            if j2 != j {
                                assert(ids[j2] != ids[j as int]);
                            }
                        }
                    }
                }
                None => {
                    proof {
                        assert forall|j2: int| 0 <= j2 < n implies in_degree[j2] == pending_in(
                            edges.take(k + 1),
                            #[trigger] ids[j2],
                            Set::empty(),
                        ) by {
                            assert(ids.contains(ids[j2]));
                        }
                        assert forall|a2: int, b: int|
                            0 <= a2 < n && 0 <= b < n implies occurrences(#[trigger] out[a2]@, b as usize)
                                == pair_count(edges.take(k + 1), ids[a2], #[trigger] ids[b]) by {
                            assert(ids.contains(ids[b]));
                        }
                    }
                }
            }
            k = k + 1;
        }
        proof {
            assert(edges.take(edges.len() as int) == edges);
        }
        (in_degree, out)
    }

    /// Orders all transactions so that each comes after its dependencies
    /// (Kahn's algorithm). Fails with `CycleDetected` exactly when no such
    /// order exists.
    pub fn topological_sort(&self) -> (r: Result<Vec<u64>, SchedulerError>)
        requires
            self.wf(),
        ensures
            match r {
                Ok(order) => self.is_topological_order(order@),
                Err(e) => e == SchedulerError::CycleDetected && !self.has_topological_order(),
            },
    {
        let n = self.nodes.len();
        let ghost ids = self.node_ids();
        let ghost edges = self.adjacency@;
        let (mut in_degree, out) = self.edge_counts();
        let mut queue = ready_positions(&in_degree);
        let mut result: Vec<u64> = Vec::new();
        let mut head: usize = 0;
        let ghost mut done: Set<u64> = Set::empty();
        proof {
            assert forall|q: int| 0 <= q < queue@.len() implies sources_before(ids, edges, queue@, q) by {
                lemma_pending_zero(edges, ids[queue@[q] as int], Set::empty());
            }
        }
        while head < queue.len()
            invariant
                self.wf(),
                n == self.nodes@.len(),
                ids == self.node_ids(),
                edges == self.adjacency@,
                out.len() == n,
                forall|a: int, b: int|
                    0 <= a < n && 0 <= b < n ==> occurrences(#[trigger] out[a]@, b as usize)
                        == pair_count(edges, ids[a], #[trigger] ids[b]),
                forall|a: int, m: int| 0 <= a < n && 0 <= m < out[a]@.len() ==> #[trigger] out[a]@[m] < n,
                head <= queue@.len(),
                in_degree.len() == n,
                queue@.no_duplicates(),
                forall|m: int| 0 <= m < queue@.len() ==> #[trigger] queue@[m] < n,
                forall|x: usize| x < n ==> (queue@.contains(x) <==> in_degree[x as int] == 0),
                forall|x: int| 0 <= x < n ==> in_degree[x] == pending_in(edges, #[trigger] ids[x], done),
                forall|x: u64| done.contains(x) <==> exists|m: int| 0 <= m < head && #[trigger] ids[queue@[m] as int] == x,
                result@ == queue@.take(head as int).map_values(|q: usize| ids[q as int]),
                forall|q: int| 0 <= q < queue@.len() ==> sources_before(ids, edges, queue@, q),
            decreases n - head,
        {
            proof { lemma_distinct_below(queue@, n); }
            let u = queue[head];
            let ghost done_before = done;
            proof {
                assert(!done.contains(ids[u as int])) by {
                    if done.contains(ids[u as int]) {
                        let m = choose|m: int| 0 <= m < head && #[trigger] ids[queue@[m] as int] == ids[u as int];
                        assert(queue@[m] == u);
                    }
                }
                assert forall|x: int| 0 <= x < n implies pending_in(edges, #[trigger] ids[x], done_before)
                    == pending_in(edges, ids[x], done_before.insert(ids[u as int])) + occurrences(out[u as int]@, x as usize) by {
                    lemma_pending_split(edges, ids[x], done_before, ids[u as int]);
                }
                done = done.insert(ids[u as int]);
                assert forall|x: u64| done.contains(x) implies exists|m: int| 0 <= m < head + 1 && #[trigger] ids[queue@[m] as int] == x by {
                    if x == ids[u as int] {
                        assert(ids[queue@[head as int] as int] == x);
                    } else {
                        let m = choose|m: int| 0 <= m < head && #[trigger] ids[queue@[m] as int] == x;
                    }
                }
            }
            head = head + 1;
            result.push(self.nodes[u].id);
            let ghost queue_at_pop = queue@;
            release_dependents(
                &mut in_degree,
                &mut queue,
                &out[u],
                Ghost(ids),
                Ghost(edges),
                Ghost(done_before),
                Ghost(done),
                Ghost(head),
            );
            proof {
                assert(queue@.take(head as int) == queue_at_pop.take(head as int));
                assert(result@ == queue@.take(head as int).map_values(|q: usize| ids[q as int]));
                assert forall|x: u64| done.contains(x) <==> exists|m2: int| 0 <= m2 < head && #[trigger] ids[queue@[m2] as int] == x by {
                    if exists|m2: int| 0 <= m2 < head && #[trigger] ids[queue@[m2] as int] == x {
                        let m2 = choose|m2: int| 0 <= m2 < head && #[trigger] ids[queue@[m2] as int] == x;
                        assert(queue@[m2] == queue_at_pop[m2]);
                        if m2 < head - 1 {
                            assert(ids[queue_at_pop[m2] as int] == x);
                        }
                    }
                    if done.contains(x) {
                        let m2 = choose|m2: int| 0 <= m2 < head && #[trigger] ids[queue_at_pop[m2] as int] == x;
                        assert(queue@[m2] == queue_at_pop[m2]);
                    }
                }
            }
        }
        proof {
            lemma_distinct_below(queue@, n);
        }
        if result.len() != n {
            proof {
                self.lemma_stalled_has_no_order(n, queue@, in_degree@, done, head as int);
            }
            return Err(SchedulerError::CycleDetected);
        }
        proof {
            assert(queue@.take(head as int) == queue@);
            self.lemma_complete_queue_is_order(n, queue@, result@);
        }
        Ok(result)
    }

    /// When Kahn's algorithm stops before taking every node, no topological
    /// order exists.
    proof fn lemma_stalled_has_no_order(&self, n: usize, queue: Seq<usize>, in_degree: Seq<usize>, done: Set<u64>, head: int)
        requires
            self.wf(),
            n == self.node_seq().len(),
            head == queue.len(),
            queue.len() < self.node_seq().len(),
            in_degree.len() == self.node_seq().len(),
            queue.no_duplicates(),
            forall|m: int| 0 <= m < queue.len() ==> #[trigger] queue[m] < self.node_seq().len(),
            forall|x: usize| x < self.node_seq().len() ==> (queue.contains(x) <==> in_degree[x as int] == 0),
            forall|x: int| 0 <= x < self.node_seq().len() ==> in_degree[x] == pending_in(
                self.edges(),
                #[trigger] self.node_ids()[x],
                done,
            ),
            forall|x: u64| done.contains(x) <==> exists|m: int| 0 <= m < head && #[trigger] self.node_ids()[queue[m] as int] == x,
        ensures
            !self.has_topological_order(),
    {
        let ids = self.node_ids();
        let edges = self.edges();
        lemma_distinct_below(queue, n);
        let j = choose|j: usize| j < n && !queue.contains(j);
        assert forall|x: u64| ids.contains(x) && !done.contains(x) implies pending_in(edges, x, done) > 0 by {
            let jx = choose|jx: int| 0 <= jx < n && ids[jx] == x;
            if queue.contains(jx as usize) {
                let m = choose|m: int| 0 <= m < queue.len() && queue[m] == jx as usize;
                assert(ids[queue[m] as int] == x);
            }
        }
        assert forall|o: Seq<u64>| !self.is_topological_order(o) by {
            if self.is_topological_order(o) {
                assert(ids.contains(ids[j as int]));
                assert(o.contains(ids[j as int]));
                let p = choose|p: int| 0 <= p < o.len() && o[p] == ids[j as int];
                lemma_order_inside_done(ids, edges, o, done, p);
                let m = choose|m: int| 0 <= m < head && #[trigger] ids[queue[m] as int] == ids[j as int];
                assert(queue[m] == j);
            }
        }
    }

    /// When Kahn's algorithm takes every node, the ids in the order taken
    /// form a topological order.
    proof fn lemma_complete_queue_is_order(&self, n: usize, queue: Seq<usize>, order: Seq<u64>)
        requires
            self.wf(),
            n == self.node_seq().len(),
            queue.len() == self.node_seq().len(),
            queue.no_duplicates(),
            forall|m: int| 0 <= m < queue.len() ==> #[trigger] queue[m] < self.node_seq().len(),
            forall|q: int| 0 <= q < queue.len() ==> sources_before(self.node_ids(), self.edges(), queue, q),
            order == queue.map_values(|q: usize| self.node_ids()[q as int]),
        ensures
            self.is_topological_order(order),
    {
        let ids = self.node_ids();
        let edges = self.edges();
        lemma_distinct_below(queue, n);
        assert forall|a: int, b: int| 0 <= a < order.len() && 0 <= b < order.len() && a != b
            implies order[a] != order[b] by {
            assert(queue[a] != queue[b]);
        }
        assert forall|x: u64| #[trigger] order.contains(x) <==> ids.contains(x) by {
            if order.contains(x) {
                let a = choose|a: int| 0 <= a < order.len() && order[a] == x;
                assert(ids[queue[a] as int] == x);
            }
            if ids.contains(x) {
                let jx = choose|jx: int| 0 <= jx < n && ids[jx] == x;
                assert(queue.contains(jx as usize));
                let a = choose|a: int| 0 <= a < queue.len() && queue[a] == jx as usize;
                assert(order[a] == x);
            }
        }
        assert forall|e: int, jj: int|
            0 <= e < edges.len() && 0 <= jj < order.len() && #[trigger] order[jj] == #[trigger] edges[e].1
            implies exists|i: int| 0 <= i < jj && #[trigger] order[i] == edges[e].0 by {
            assert(sources_before(ids, edges, queue, jj));
            let i = choose|i: int| 0 <= i < jj && #[trigger] ids[queue[i] as int] == edges[e].0;
            assert(order[i] == edges[e].0);
        }
    }

    /// `lvl` gives every node its level: 0 without dependencies, else one
    /// above the highest level among its dependencies.
    pub open spec fn levels_consistent(&self, lvl: Map<u64, nat>) -> bool {
        &&& forall|id: u64| #[trigger] lvl.contains_key(id) <==> self.has_node(id)
        &&& forall|id: u64|
            #[trigger] self.has_node(id) ==> lvl[id] == level_from(
                self.node_map()[id].dependencies@,
                lvl,
            )
    }

    /// Levels of the nodes, computed along a topological order.
    fn compute_levels(&self, sorted: &Vec<u64>) -> (levels: HashMap<u64, usize>)
        requires
            self.wf(),
            self.is_topological_order(sorted@),
        ensures
            self.levels_consistent(levels_view(levels@)),
            forall|id: u64| #[trigger] levels@.contains_key(id) ==> levels@[id] < sorted@.len(),
    {
        let ghost ids = self.node_ids();
        let ghost order = sorted@;
        let mut levels: HashMap<u64, usize> = HashMap::new();
        let mut p: usize = 0;
        while p < sorted.len()
            invariant
                self.wf(),
                self.is_topological_order(order),
                order == sorted@,
                ids == self.node_ids(),
                p <= order.len(),
                forall|k: u64| #[trigger] levels@.contains_key(k) <==> order.take(p as int).contains(k),
                forall|q: int| 0 <= q < p ==> levels@[#[trigger] order[q]] <= q,
                forall|q: int|
                    0 <= q < p ==> levels_view(levels@)[#[trigger] order[q]] == level_from(
                        self.node_map()[order[q]].dependencies@,
                        levels_view(levels@),
                    ),
            decreases order.len() - p,
        {
            let id = sorted[p];
            proof {
                assert(order.contains(id));
            }
            let pos = *self.index.get(&id).unwrap();
            let node = &self.nodes[pos];
            let ghost lvl = levels_view(levels@);
            let ghost deps = node.dependencies@;
            proof {
                lemma_index_of_unique(ids, pos as int);
                assert(node == self.node_map()[id]);
                // every dependency comes earlier in the order
                assert forall|i: int| 0 <= i < deps.len() implies order.take(p as int).contains(#[trigger] deps[i]) by {
                    assert(self.adjacency@.contains((deps[i], id)));
                    let e = choose|e: int| 0 <= e < self.adjacency@.len() && self.adjacency@[e] == (deps[i], id);
                    assert(order[p as int] == self.edges()[e].1);
                    let q = choose|q: int| 0 <= q < p && #[trigger] order[q] == self.edges()[e].0;
                    assert(order.take(p as int)[q] == deps[i]);
                }
                assert forall|i: int| 0 <= i < deps.len() && lvl.contains_key(deps[i]) implies lvl[deps[i]] + 1 <= p by {
                    let q = choose|q: int| 0 <= q < p && order.take(p as int)[q] == deps[i];
                    assert(order[q] == deps[i]);
                }
                if p > 0 {
                    lemma_max_known_level_bound(deps, lvl, (p - 1) as nat);
                }
            }
            let mut max_dep: usize = 0;
            let mut m: usize = 0;
            while m < node.dependencies.len()
                invariant
                    m <= deps.len(),
                    deps == node.dependencies@,
                    lvl == levels_view(levels@),
                    max_dep == max_known_level(deps.take(m as int), lvl),
                    forall|i: int| 0 <= i < deps.len() && lvl.contains_key(deps[i]) ==> lvl[deps[i]] + 1 <= p,
                decreases deps.len() - m,
            {
                let d = node.dependencies[m];
                proof {
                    assert(deps.take(m + 1).drop_last() == deps.take(m as int));
                    assert(deps.take(m + 1).last() == d);
                }
                match levels.get(&d) {
                    Some(l) => {
                        if *l > max_dep {
                            max_dep = *l;
                        }
                    }
                    None => {}
                }
                m = m + 1;
            }
            proof {
                assert(deps.take(m as int) == deps);
            }
            let level: usize = if node.dependencies.len() == 0 {
                0
            } else {
                max_dep + 1
            };
            proof {
                assert(level == level_from(deps, lvl));
                assert(!order.take(p as int).contains(id)) by {
                    if order.take(p as int).contains(id) {
                        let q = choose|q: int| 0 <= q < p && order.take(p as int)[q] == id;
                        assert(order[q] == order[p as int]);
                    }
                }
                assert(!deps.contains(id)) by {
                    if deps.contains(id) {
                        let i = choose|i: int| 0 <= i < deps.len() && deps[i] == id;
                        assert(order.take(p as int).contains(deps[i]));
                    }
                }
            }
            let ghost prev = levels@;
            levels.insert(id, level);
            proof {
                assert(levels_view(levels@) == lvl.insert(id, level as nat));
                assert forall|k: u64| #[trigger] levels@.contains_key(k) <==> order.take(p + 1).contains(k) by {
                    assert(order.take(p + 1) == order.take(p as int).push(id));
                    lemma_contains_push(order.take(p as int), id, k);
                }
                assert forall|q: int| 0 <= q < p + 1 implies levels@[#[trigger] order[q]] <= q by {
                    if q < p {
                        assert(order.take(p as int)[q] == order[q]);
                        assert(order.take(p as int).contains(order[q]));
                        assert(order[q] != id);
                    }
                }
                assert forall|q: int|
                    0 <= q < p + 1 implies levels_view(levels@)[#[trigger] order[q]] == level_from(
                        self.node_map()[order[q]].dependencies@,
                        levels_view(levels@),
                    ) by {
                    let dq = self.node_map()[order[q]].dependencies@;
                    if q < p {
                        assert(order.take(p as int)[q] == order[q]);
                        assert(order.take(p as int).contains(order[q]));
                        assert(order[q] != id);
                        // the dependencies of an earlier node are all earlier still
                        assert(!dq.contains(id)) by {
                            if dq.contains(id) {
                                let i = choose|i: int| 0 <= i < dq.len() && dq[i] == id;
                                let oq = order[q];
                                assert(order.contains(oq));
                                assert(self.has_node(oq));
                                let jq = choose|jq: int| 0 <= jq < ids.len() && ids[jq] == oq;
                                lemma_index_of_unique(ids, jq);
                                assert(self.nodes@[jq].dependencies@[i] == id);
                                assert(self.adjacency@.contains((id, oq)));
                                let e = choose|e: int| 0 <= e < self.adjacency@.len() && self.adjacency@[e] == (id, oq);
                                assert(order[q] == self.edges()[e].1);
                                let r = choose|r: int| 0 <= r < q && #[trigger] order[r] == self.edges()[e].0;
                                assert(order[r] == order[p as int]);
                            }
                        }
                        lemma_max_known_level_frame(dq, lvl, id, level as nat);
                    } else {
                        lemma_max_known_level_frame(deps, lvl, id, level as nat);
                    }
                }
            }
            p = p + 1;
        }
        proof {
            assert(order.take(order.len() as int) == order);
            assert forall|id: u64| #[trigger] self.has_node(id) implies levels_view(levels@)[id] == level_from(
                self.node_map()[id].dependencies@,
                levels_view(levels@),
            ) by {
                assert(order.contains(id));
                let q = choose|q: int| 0 <= q < order.len() && order[q] == id;
            }
            assert forall|id: u64| #[trigger] levels@.contains_key(id) implies levels@[id] < sorted@.len() by {
                let q = choose|q: int| 0 <= q < order.len() && order[q] == id;
            }
        }
        levels
    }

    /// Groups the transactions into parallel batches by level: group `g`
    /// holds the transactions whose longest dependency chain below them has
    /// `g` edges. Fails with `CycleDetected` exactly when no topological
    /// order exists.
    pub fn find_parallel_groups(&self) -> (r: Result<Vec<Vec<u64>>, SchedulerError>)
        requires
            self.wf(),
        ensures
            match r {
                Ok(groups) => self.has_topological_order() && exists|lvl: Map<u64, nat>|
                    self.levels_consistent(lvl) && groups_by_level(
                        groups@.map_values(|g: Vec<u64>| g@),
                        lvl,
                    ),
                Err(e) => e == SchedulerError::CycleDetected && !self.has_topological_order(),
            },
    {
        let sorted = match self.topological_sort() {
            Ok(s) => s,
            Err(e) => return Err(e),
        };
        let levels = self.compute_levels(&sorted);
        let ghost order = sorted@;
        let ghost lvl = levels_view(levels@);
        proof {
            assert forall|x: u64| #[trigger] levels@.contains_key(x) <==> order.contains(x) by {
                assert(lvl.contains_key(x) <==> self.has_node(x));
            }
        }
        let mut max_level: usize = 0;
        let mut q: usize = 0;
        while q < sorted.len()
            invariant
                q <= order.len(),
                order == sorted@,
                forall|x: u64| #[trigger] levels@.contains_key(x) <==> order.contains(x),
                forall|x: u64| #[trigger] levels@.contains_key(x) ==> levels@[x] < order.len(),
                forall|r: int| 0 <= r < q ==> levels@[#[trigger] order[r]] <= max_level,
                max_level == 0 || exists|r: int| 0 <= r < q && levels@[#[trigger] order[r]] == max_level,
                max_level == 0 || max_level < order.len(),
            decreases order.len() - q,
        {
            proof {
                assert(order.contains(order[q as int]));
            }
            let l = *levels.get(&sorted[q]).unwrap();
            if l > max_level {
                max_level = l;
            }
            q = q + 1;
        }
        proof {
            if order.len() > 0 {
                assert(order.contains(order[0]));
            }
        }
        assert(max_level < usize::MAX);
        let mut groups: Vec<Vec<u64>> = Vec::new();
        while groups.len() < max_level + 1
            invariant
                max_level < usize::MAX,
                groups.len() <= max_level + 1,
                forall|g: int| 0 <= g < groups.len() ==> (#[trigger] groups[g])@.len() == 0,
            decreases max_level + 1 - groups.len(),
        {
            groups.push(Vec::new());
        }
        let mut q: usize = 0;
        while q < sorted.len()
            invariant
                q <= order.len(),
                order == sorted@,
                order.no_duplicates(),
                groups.len() == max_level + 1,
                forall|x: u64| #[trigger] levels@.contains_key(x) <==> order.contains(x),
                forall|r: int| 0 <= r < order.len() ==> levels@[#[trigger] order[r]] <= max_level,
                forall|g: int, x: u64|
                    0 <= g < groups.len() ==> (#[trigger] groups[g]@.contains(x) <==> exists|r: int|
                        0 <= r < q && #[trigger] order[r] == x && levels@[x] == g),
                forall|g: int| 0 <= g < groups.len() ==> (#[trigger] groups[g])@.no_duplicates(),
            decreases order.len() - q,
        {
            let id = sorted[q];
            proof {
                assert(order.contains(id));
            }
            let l = *levels.get(&id).unwrap();
            let ghost before = groups@;
            groups[l].push(id);
            proof {
                assert forall|g: int, x: u64|
                    0 <= g < groups.len() implies (#[trigger] groups[g]@.contains(x) <==> exists|r: int|
                        0 <= r < q + 1 && #[trigger] order[r] == x && levels@[x] == g) by {
                    if g == l {
                        assert(groups[g]@ == before[g]@.push(id));
                        lemma_contains_push(before[g]@, id, x);
                        if x == id {
                            assert(order[q as int] == x);
                        }
                        if exists|r: int| 0 <= r < q + 1 && #[trigger] order[r] == x && levels@[x] == g {
                            let r = choose|r: int| 0 <= r < q + 1 && #[trigger] order[r] == x && levels@[x] == g;
                            if r < q {
                                assert(before[g]@.contains(x));
                            }
                        }
                    } else {
                        assert(groups[g] == before[g]);
                        if exists|r: int| 0 <= r < q + 1 && #[trigger] order[r] == x && levels@[x] == g {
                            let r = choose|r: int| 0 <= r < q + 1 && #[trigger] order[r] == x && levels@[x] == g;
                            assert(r != q);
                        }
                    }
                }
                assert forall|g: int| 0 <= g < groups.len() implies (#[trigger] groups[g])@.no_duplicates() by {
                    if g == l {
                        assert(!before[g]@.contains(id)) by {
                            if before[g]@.contains(id) {
                                let r = choose|r: int| 0 <= r < q && #[trigger] order[r] == id && levels@[id] == g;
                                assert(order[r] == order[q as int]);
                            }
                        }
                        assert(groups[g]@ == before[g]@.push(id));
                    } else {
                        assert(groups[g] == before[g]);
                    }
                }
            }
            q = q + 1;
        }
        proof {
            let gs = groups@.map_values(|g: Vec<u64>| g@);
            assert forall|g: int, x: u64|
                0 <= g < gs.len() implies (#[trigger] gs[g].contains(x) <==> (lvl.contains_key(x) && lvl[x] == g)) by {
                if lvl.contains_key(x) && lvl[x] == g {
                    assert(order.contains(x));
                    let r = choose|r: int| 0 <= r < order.len() && order[r] == x;
                    assert(groups[g]@.contains(x));
                }
            }
            assert(groups_by_level(gs, lvl)) by {
                assert forall|x: u64| lvl.contains_key(x) implies lvl[x] < gs.len() by {
                    let r = choose|r: int| 0 <= r < order.len() && order[r] == x;
                }
                if gs.len() != 1 {
                    let r = choose|r: int| 0 <= r < order.len() && levels@[#[trigger] order[r]] == max_level;
                    assert(lvl.contains_key(order[r]));
                }
            }
            assert(self.is_topological_order(order));
        }
        Ok(groups)
    }

    /// Both transactions are in the graph and share no account.
    pub open spec fn accounts_independent(&self, a: u64, b: u64) -> bool {
        &&& self.has_node(a)
        &&& self.has_node(b)
        &&& !accounts_overlap(self.node_map()[a].account_keys@, self.node_map()[b].account_keys@)
    }

    /// Whether transactions `a` and `b` touch disjoint account sets; false
    /// when either is not in the graph.
    pub fn check_account_independence(&self, a: u64, b: u64) -> (r: bool)
        requires
            self.wf(),
        ensures
            r == self.accounts_independent(a, b),
    {
        let pa = match self.index.get(&a) {
            Some(p) => *p,
            None => return false,
        };
        let pb = match self.index.get(&b) {
            Some(p) => *p,
            None => return false,
        };
        proof {
            let ids = self.node_ids();
            assert(ids[pa as int] == a);
            assert(ids[pb as int] == b);
            lemma_index_of_unique(ids, pa as int);
            lemma_index_of_unique(ids, pb as int);
        }
        let node_a = &self.nodes[pa];
        let node_b = &self.nodes[pb];
        !check_account_overlap(node_a.account_keys.as_slice(), node_b.account_keys.as_slice())
    }

    /// The number of distinct transaction ids in the graph.
    pub fn node_count(&self) -> (n: usize)
        requires
            self.wf(),
        ensures
            n == self.node_seq().len(),
            n == self.node_map().dom().len(),
    {
        proof {
            self.node_ids().unique_seq_to_set();
            assert(self.node_map().dom() =~= self.node_ids().to_set());
        }
        self.nodes.len()
    }
}


/// Two transactions are independent of each other exactly when they are
/// independent the other way round.
pub proof fn lemma_independence_symmetric(s: &DagScheduler, a: u64, b: u64)
    ensures
        s.accounts_independent(a, b) == s.accounts_independent(b, a),
{
    let ka = s.node_map()[a].account_keys@;
    let kb = s.node_map()[b].account_keys@;
    if accounts_overlap(ka, kb) {
        let (i, j) = choose|i: int, j: int| 0 <= i < ka.len() && 0 <= j < kb.len() && #[trigger] ka[i] == #[trigger] kb[j];
        assert(kb[j] == ka[i]);
    }
    if accounts_overlap(kb, ka) {
        let (i, j) = choose|i: int, j: int| 0 <= i < kb.len() && 0 <= j < ka.len() && #[trigger] kb[i] == #[trigger] ka[j];
        assert(ka[j] == kb[i]);
    }
}

proof fn lemma_max_known_level_agree(deps: Seq<u64>, l1: Map<u64, nat>, l2: Map<u64, nat>)
    requires
        forall|i: int| 0 <= i < deps.len() ==> (l1.contains_key(#[trigger] deps[i]) <==> l2.contains_key(deps[i])),
        forall|i: int| 0 <= i < deps.len() && l1.contains_key(#[trigger] deps[i]) ==> l1[deps[i]] == l2[deps[i]],
    ensures
        max_known_level(deps, l1) == max_known_level(deps, l2),
    decreases deps.len(),
{
    if deps.len() > 0 {
        lemma_max_known_level_agree(deps.drop_last(), l1, l2);
        assert(deps.last() == deps[deps.len() - 1]);
    }
}

/// Every dependency of a node is a node that comes earlier in any
/// topological order.
proof fn lemma_dependency_earlier(s: &DagScheduler, o: Seq<u64>, v: u64, i: int) -> (q: int)
    requires
        s.wf(),
        s.is_topological_order(o),
        s.has_node(v),
        0 <= i < s.node_map()[v].dependencies@.len(),
    ensures
        0 <= q < o.index_of(v) <= o.len(),
        o[q] == s.node_map()[v].dependencies@[i],
        o[o.index_of(v)] == v,
        s.has_node(o[q]),
{
    let ids = s.node_ids();
    let d = s.node_map()[v].dependencies@[i];
    let jv = ids.index_of(v);
    assert(ids.contains(v));
    assert(0 <= jv < ids.len() && ids[jv] == v);
    assert(s.edges().contains((d, v)));
    let e = choose|e: int| 0 <= e < s.edges().len() && s.edges()[e] == (d, v);
    assert(o.contains(v));
    let p = o.index_of(v);
    assert(0 <= p < o.len() && o[p] == v);
    assert(o[p] == s.edges()[e].1);
    let q = choose|q: int| 0 <= q < p && #[trigger] o[q] == s.edges()[e].0;
    assert(o.contains(o[q]));
    q
}

/// On a graph with a topological order the levels are determined: two
/// level assignments that both satisfy the level equations are equal.
pub proof fn lemma_levels_unique(s: &DagScheduler, l1: Map<u64, nat>, l2: Map<u64, nat>)
    requires
        s.wf(),
        s.has_topological_order(),
        s.levels_consistent(l1),
        s.levels_consistent(l2),
    ensures
        l1 == l2,
{
    let o = choose|o: Seq<u64>| s.is_topological_order(o);
    lemma_levels_agree_prefix(s, o, l1, l2, o.len() as int);
    assert forall|x: u64| #[trigger] l1.contains_key(x) implies l1[x] == l2[x] by {
        assert(o.contains(x));
        let p = choose|p: int| 0 <= p < o.len() && o[p] == x;
    }
    assert(l1 =~= l2);
}

proof fn lemma_levels_agree_prefix(s: &DagScheduler, o: Seq<u64>, l1: Map<u64, nat>, l2: Map<u64, nat>, p: int)
    requires
        s.wf(),
        s.is_topological_order(o),
        s.levels_consistent(l1),
        s.levels_consistent(l2),
        0 <= p <= o.len(),
    ensures
        forall|q: int| 0 <= q < p ==> l1[#[trigger] o[q]] == l2[o[q]],
    decreases p,
{
    if p > 0 {
        lemma_levels_agree_prefix(s, o, l1, l2, p - 1);
        let v = o[p - 1];
        assert(o.contains(v));
        assert(o.index_of(v) == p - 1) by {
            let k = o.index_of(v);
            assert(0 <= k < o.len() && o[k] == v);
        }
        let deps = s.node_map()[v].dependencies@;
        assert forall|i: int| 0 <= i < deps.len() implies (l1.contains_key(#[trigger] deps[i]) <==> l2.contains_key(deps[i]))
            && (l1.contains_key(deps[i]) ==> l1[deps[i]] == l2[deps[i]]) by {
            let q = lemma_dependency_earlier(s, o, v, i);
            assert(l1.contains_key(o[q]));
            assert(l2.contains_key(o[q]));
            assert(l1[o[q]] == l2[o[q]]);
        }
        lemma_max_known_level_agree(deps, l1, l2);
        assert(s.has_node(v));
        assert(l1[v] == level_from(deps, l1));
        assert(l2[v] == level_from(deps, l2));
    }
}

/// Transactions in one parallel group never depend on each other: every
/// dependency of a transaction is a transaction of a lower level.
pub proof fn lemma_dependencies_in_lower_levels(s: &DagScheduler, lvl: Map<u64, nat>, v: u64, i: int)
    requires
        s.wf(),
        s.has_topological_order(),
        s.levels_consistent(lvl),
        s.has_node(v),
        0 <= i < s.node_map()[v].dependencies@.len(),
    ensures
        s.has_node(s.node_map()[v].dependencies@[i]),
        lvl[s.node_map()[v].dependencies@[i]] < lvl[v],
{
    let o = choose|o: Seq<u64>| s.is_topological_order(o);
    let q = lemma_dependency_earlier(s, o, v, i);
    let deps = s.node_map()[v].dependencies@;
    lemma_max_known_level_ge(deps, lvl, i);
}

proof fn lemma_max_known_level_attained(deps: Seq<u64>, lvl: Map<u64, nat>) -> (i: int)
    requires
        deps.len() > 0,
        forall|k: int| 0 <= k < deps.len() ==> lvl.contains_key(#[trigger] deps[k]),
    ensures
        0 <= i < deps.len(),
        lvl[deps[i]] == max_known_level(deps, lvl),
    decreases deps.len(),
{
    let last = deps.len() - 1;
    assert(deps.last() == deps[last]);
    if deps.len() == 1 {
        assert(deps.drop_last().len() == 0);
        assert(max_known_level(deps.drop_last(), lvl) == 0);
        last
    } else {
        let init = deps.drop_last();
        assert forall|k: int| 0 <= k < init.len() implies lvl.contains_key(#[trigger] init[k]) by {
            assert(init[k] == deps[k]);
        }
        let j = lemma_max_known_level_attained(init, lvl);
        assert(init[j] == deps[j]);
        if lvl[deps[last]] > max_known_level(init, lvl) {
            last
        } else {
            j
        }
    }
}

/// A transaction without dependencies is at level 0; one with
/// dependencies is one level above the highest of them: every dependency
/// is lower, and some dependency is exactly one level lower.
pub proof fn lemma_level_is_one_above_highest_dependency(s: &DagScheduler, lvl: Map<u64, nat>, v: u64)
    requires
        s.wf(),
        s.has_topological_order(),
        s.levels_consistent(lvl),
        s.has_node(v),
    ensures
        s.node_map()[v].dependencies@.len() == 0 ==> lvl[v] == 0,
        s.node_map()[v].dependencies@.len() > 0 ==> exists|i: int|
            0 <= i < s.node_map()[v].dependencies@.len() && #[trigger] lvl[s.node_map()[v].dependencies@[i]] + 1
                == lvl[v],
{
    let deps = s.node_map()[v].dependencies@;
    if deps.len() > 0 {
        assert forall|k: int| 0 <= k < deps.len() implies lvl.contains_key(#[trigger] deps[k]) by {
            lemma_dependencies_in_lower_levels(s, lvl, v, k);
        }
        let i = lemma_max_known_level_attained(deps, lvl);
        assert(lvl[deps[i]] + 1 == lvl[v]);
    }
}

/// An execution order lists every transaction of the graph once and
/// nothing else, and lists every dependency of a transaction before it.
pub proof fn lemma_order_puts_dependencies_first(s: &DagScheduler, o: Seq<u64>, v: u64, i: int)
    requires
        s.wf(),
        s.is_topological_order(o),
    ensures
        o.no_duplicates(),
        forall|x: u64| #[trigger] o.contains(x) <==> s.has_node(x),
        s.has_node(v) && 0 <= i < s.node_map()[v].dependencies@.len() ==> {
            let d = s.node_map()[v].dependencies@[i];
            &&& o.contains(d)
            &&& o.index_of(d) < o.index_of(v)
        },
{
    if s.has_node(v) && 0 <= i < s.node_map()[v].dependencies@.len() {
        let q = lemma_dependency_earlier(s, o, v, i);
        lemma_index_of_unique(o, q);
    }
}

impl Default for DagScheduler {
    /// An empty graph.
    fn default() -> (s: Self)
        ensures
            s.wf(),
            s.node_seq() == Seq::<DagNode>::empty(),
            s.edges() == Seq::<(u64, u64)>::empty(),
    {
        Self::new()
    }
}

} // verus!
