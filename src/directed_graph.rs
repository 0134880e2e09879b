//! The graph store: vertices and the edges between them.
use vstd::prelude::*;
use std::collections::HashMap;
use crate::graph::{Edge, VertexId};

verus! {

broadcast use vstd::std_specs::hash::group_hash_axioms;

/// The edges of `s` that leave `v`, in stored order.
pub open spec fn leaving(s: Seq<Edge>, v: u64) -> Seq<Edge>
    decreases s.len(),
{
    if s.len() == 0 {
        seq![]
    } else {
        let rest = leaving(s.drop_last(), v);
        if s.last().src() == v {
            rest.push(s.last())
        } else {
            rest
        }
    }
}

/// The edges of `s` that enter `v`, in stored order.
pub open spec fn entering(s: Seq<Edge>, v: u64) -> Seq<Edge>
    decreases s.len(),
{
    if s.len() == 0 {
        seq![]
    } else {
        let rest = entering(s.drop_last(), v);
        if s.last().dst() == v {
            rest.push(s.last())
        } else {
            rest
        }
    }
}

/// `s` without the occurrences of `e`.
pub open spec fn without(s: Seq<Edge>, e: Edge) -> Seq<Edge>
    decreases s.len(),
{
    if s.len() == 0 {
        seq![]
    } else {
        let rest = without(s.drop_last(), e);
        if s.last() != e {
            rest.push(s.last())
        } else {
            rest
        }
    }
}

/// What `push` does to membership.
pub proof fn lemma_push_contains<A>(s: Seq<A>, x: A)
    ensures
        forall|e: A| #[trigger] s.push(x).contains(e) <==> (s.contains(e) || e == x),
        s.no_duplicates() && !s.contains(x) ==> s.push(x).no_duplicates(),
{
    assert forall|e: A| #[trigger] s.push(x).contains(e) <==> (s.contains(e) || e == x) by {
        if s.push(x).contains(e) {
            let i = choose|i: int| 0 <= i < s.push(x).len() && s.push(x)[i] == e;
            if i < s.len() {
                assert(s[i] == e);
            }
        }
        if s.contains(e) {
            let i = choose|i: int| 0 <= i < s.len() && s[i] == e;
            assert(s.push(x)[i] == e);
        }
        if e == x {
            assert(s.push(x)[s.len() as int] == e);
        }
    }
    if s.no_duplicates() && !s.contains(x) {
        assert forall|i: int, j: int| 0 <= i < s.push(x).len() && 0 <= j < s.push(x).len() && i != j
            implies s.push(x)[i] != s.push(x)[j] by {
            if i == s.len() {
                assert(s[j] == s.push(x)[j]);
            } else if j == s.len() {
                assert(s[i] == s.push(x)[i]);
            }
        }
    }
}

/// A non-empty sequence is its prefix followed by its last element.
pub proof fn lemma_drop_last<A>(s: Seq<A>)
    requires
        s.len() > 0,
    ensures
        s == s.drop_last().push(s.last()),
        forall|e: A| #[trigger] s.contains(e) <==> (s.drop_last().contains(e) || e == s.last()),
        s.no_duplicates() ==> s.drop_last().no_duplicates() && !s.drop_last().contains(s.last()),
{
    assert(s =~= s.drop_last().push(s.last()));
    lemma_push_contains(s.drop_last(), s.last());
    if s.no_duplicates() {
        if s.drop_last().contains(s.last()) {
            let i = choose|i: int| 0 <= i < s.drop_last().len() && s.drop_last()[i] == s.last();
            assert(s[i] == s[s.len() - 1]);
        }
    }
}

pub proof fn lemma_leaving(s: Seq<Edge>, v: u64)
    ensures
        forall|e: Edge| #[trigger] leaving(s, v).contains(e) <==> (s.contains(e) && e.src() == v),
        leaving(s, v).len() <= s.len(),
        s.no_duplicates() ==> leaving(s, v).no_duplicates(),
    decreases s.len(),
{
    if s.len() > 0 {
        lemma_leaving(s.drop_last(), v);
        lemma_drop_last(s);
        lemma_push_contains(leaving(s.drop_last(), v), s.last());
    }
}

pub proof fn lemma_entering(s: Seq<Edge>, v: u64)
    ensures
        forall|e: Edge| #[trigger] entering(s, v).contains(e) <==> (s.contains(e) && e.dst() == v),
        entering(s, v).len() <= s.len(),
        s.no_duplicates() ==> entering(s, v).no_duplicates(),
    decreases s.len(),
{
    if s.len() > 0 {
        lemma_entering(s.drop_last(), v);
        lemma_drop_last(s);
        lemma_push_contains(entering(s.drop_last(), v), s.last());
    }
}

pub proof fn lemma_without(s: Seq<Edge>, e: Edge)
    ensures
        forall|x: Edge| #[trigger] without(s, e).contains(x) <==> (s.contains(x) && x != e),
        s.no_duplicates() ==> without(s, e).no_duplicates(),
    decreases s.len(),
{
    if s.len() > 0 {
        lemma_without(s.drop_last(), e);
        lemma_drop_last(s);
        lemma_push_contains(without(s.drop_last(), e), s.last());
    }
}

/// A list of distinct vertices drawn from `vs` is no longer than `vs`.
pub proof fn lemma_nodup_subset_len(s: Seq<VertexId>, vs: Set<u64>)
    requires
        s.no_duplicates(),
        vs.finite(),
        forall|k: int| 0 <= k < s.len() ==> vs.contains(#[trigger] s[k].0),
    ensures
        s.len() <= vs.len(),
{
    let ids = s.map_values(|v: VertexId| v.0);
    assert forall|a: int, b: int| 0 <= a < ids.len() && 0 <= b < ids.len() && a != b implies ids[a] != ids[b] by {
        assert(s[a] != s[b]);
    }
    ids.unique_seq_to_set();
    assert forall|x: u64| ids.to_set().contains(x) implies vs.contains(x) by {
        let k = choose|k: int| 0 <= k < ids.len() && ids[k] == x;
        assert(vs.contains(s[k].0));
    }
    vstd::set_lib::lemma_len_subset(ids.to_set(), vs);
}

/// Every two consecutive vertices of `p` are joined by an edge of `g`.
pub open spec fn is_walk(g: DirectedGraph, p: Seq<VertexId>) -> bool {
    forall|i: int| 0 <= i && i + 1 < p.len() ==> #[trigger] g.edge_set().contains(Edge(p[i], p[i + 1]))
}

/// `p` is a non-empty walk of `g` from the vertex `s`.
pub open spec fn walk_from(g: DirectedGraph, s: u64, p: Seq<VertexId>) -> bool {
    p.len() > 0 && p[0].0 == s && is_walk(g, p)
}

/// Some walk of `g` from `s` ends at `v`.
pub open spec fn reachable(g: DirectedGraph, s: u64, v: VertexId) -> bool {
    exists|p: Seq<VertexId>| #[trigger] walk_from(g, s, p) && p.last() == v
}

/// A list that holds `s` and, with each of its vertices, the destination
/// of every edge leaving it, holds the end of every walk from `s`.
pub proof fn lemma_closed_list_holds_walk_ends(g: DirectedGraph, s: u64, ys: Seq<VertexId>, p: Seq<VertexId>)
    requires
        ys.contains(VertexId(s)),
        forall|e: Edge| #[trigger] g.edge_set().contains(e) && ys.contains(e.0) ==> ys.contains(e.1),
        walk_from(g, s, p),
    ensures
        ys.contains(p.last()),
    decreases p.len(),
{
    if p.len() == 1 {
        assert(p[0] == VertexId(s));
    } else {
        let q = p.drop_last();
        let x = q.len() - 1;
        assert(g.edge_set().contains(Edge(p[x], p[x + 1])));
        assert forall|i: int| 0 <= i && i + 1 < q.len() implies #[trigger] g.edge_set().contains(Edge(q[i], q[i + 1])) by {
            assert(q[i] == p[i] && q[i + 1] == p[i + 1]);
        }
        lemma_closed_list_holds_walk_ends(g, s, ys, q);
        assert(q.last() == p[x]);
    }
}

/// A walk followed by an edge from its last vertex is a walk.
pub proof fn lemma_walk_push(g: DirectedGraph, s: u64, p: Seq<VertexId>, v: VertexId)
    requires
        walk_from(g, s, p),
        g.edge_set().contains(Edge(p.last(), v)),
    ensures
        walk_from(g, s, p.push(v)),
{
    let q = p.push(v);
    assert forall|x: int| 0 <= x && x + 1 < q.len() implies #[trigger] g.edge_set().contains(Edge(q[x], q[x + 1])) by {
        if x + 1 < p.len() {
            assert(q[x] == p[x] && q[x + 1] == p[x + 1]);
        } else {
            assert(q[x] == p.last() && q[x + 1] == v);
        }
    }
}

/// A directed graph without vertex or edge attributes.
///
/// Each vertex owns the list of the edges that touch it, in both
/// directions; an edge between two distinct vertices is listed under both,
/// a self-loop once.
pub struct DirectedGraph {
    edge_map: HashMap<u64, Vec<Edge>>,
    order: Vec<VertexId>,
    n_edges: usize,
    edge_set: Ghost<Set<Edge>>,
}

/// What `add_vertex(v)` does: `r` tells whether `v` was new; the vertex is
/// then present, the edges stay, and nothing changes when it was there.
pub open spec fn vertex_added(g0: DirectedGraph, g1: DirectedGraph, v: u64, r: bool) -> bool {
    &&& r == !g0.vertex_set().contains(v)
    &&& g1.vertex_set() == g0.vertex_set().insert(v)
    &&& g1.edge_set() == g0.edge_set()
    &&& !r ==> g1 == g0
}

/// What `add_edge(e)` does: `r` tells whether `e` was new; the edge is then
/// present (its reverse only if it was), and nothing changes when it was
/// there.
pub open spec fn edge_added(g0: DirectedGraph, g1: DirectedGraph, e: Edge, r: bool) -> bool {
    &&& r == !g0.edge_set().contains(e)
    &&& g1.edge_set() == g0.edge_set().insert(e)
    &&& r ==> g1.vertex_set() == g0.vertex_set().insert(e.src()).insert(e.dst())
    &&& !r ==> g1 == g0
}

/// What `remove_edge(e)` does: `r` tells whether `e` was present; it is
/// then absent, the vertices stay, and nothing changes when it was absent.
pub open spec fn edge_removed(g0: DirectedGraph, g1: DirectedGraph, e: Edge, r: bool) -> bool {
    &&& r == g0.edge_set().contains(e)
    &&& g1.edge_set() == g0.edge_set().remove(e)
    &&& g1.vertex_set() == g0.vertex_set()
    &&& !r ==> g1 == g0
}

/// What `remove_vertex(v)` does: `r` tells whether `v` was present; it is
/// then absent together with exactly the edges touching it, and nothing
/// changes when it was absent.
pub open spec fn vertex_removed(g0: DirectedGraph, g1: DirectedGraph, v: u64, r: bool) -> bool {
    &&& r == g0.vertex_set().contains(v)
    &&& g1.vertex_set() == g0.vertex_set().remove(v)
    &&& g1.edge_set() == g0.edge_set().filter(|e: Edge| !e.touches(v))
    &&& !r ==> g1 == g0
}

/// Doing a mutation twice in a row is doing it once: the second call
/// reports no change and leaves the graph (hence its vertex and edge
/// counts) as the first call left it.
pub proof fn law_mutations_are_idempotent(
    g0: DirectedGraph,
    g1: DirectedGraph,
    g2: DirectedGraph,
    v: u64,
    e: Edge,
    r1: bool,
    r2: bool,
)
    ensures
        vertex_added(g0, g1, v, r1) && vertex_added(g1, g2, v, r2) ==> !r2 && g2 == g1,
        edge_added(g0, g1, e, r1) && edge_added(g1, g2, e, r2) ==> !r2 && g2 == g1,
        edge_removed(g0, g1, e, r1) && edge_removed(g1, g2, e, r2) ==> !r2 && g2 == g1,
        vertex_removed(g0, g1, v, r1) && vertex_removed(g1, g2, v, r2) ==> !r2 && g2 == g1,
{
}

/// An added edge is present, and its reverse is present only if it was
/// before (or is the edge itself, a self-loop).
pub proof fn law_edges_keep_their_direction(g0: DirectedGraph, g1: DirectedGraph, e: Edge, r: bool)
    requires
        edge_added(g0, g1, e, r),
    ensures
        g1.edge_set().contains(e),
        g1.edge_set().contains(Edge(e.1, e.0)) <==> (g0.edge_set().contains(Edge(e.1, e.0)) || e.0 == e.1),
{
}

/// Removing a vertex removes every edge that touches it and no other.
pub proof fn law_removal_cascades_to_incident_edges_only(g0: DirectedGraph, g1: DirectedGraph, v: u64, r: bool, e: Edge)
    requires
        vertex_removed(g0, g1, v, r),
    ensures
        e.touches(v) ==> !g1.edge_set().contains(e),
        !e.touches(v) ==> (g1.edge_set().contains(e) <==> g0.edge_set().contains(e)),
{
}

impl DirectedGraph {
    /// The identifiers of the vertices.
    pub closed spec fn vertex_set(&self) -> Set<u64> {
        self.edge_map@.dom()
    }

    /// The edges.
    pub closed spec fn edge_set(&self) -> Set<Edge> {
        self.edge_set@
    }

    /// The edges stored under `v`, both directions, in insertion order.
    pub closed spec fn incident(&self, v: u64) -> Seq<Edge> {
        if self.edge_map@.contains_key(v) {
            self.edge_map@[v]@
        } else {
            seq![]
        }
    }

    /// The vertices in the order in which they are listed.
    pub closed spec fn vertex_list(&self) -> Seq<VertexId> {
        self.order@
    }

    /// The edges leaving `v`, in insertion order.
    pub open spec fn out_seq(&self, v: u64) -> Seq<Edge> {
        leaving(self.incident(v), v)
    }

    /// The edges entering `v`, in insertion order.
    pub open spec fn in_seq(&self, v: u64) -> Seq<Edge> {
        entering(self.incident(v), v)
    }

    pub closed spec fn wf(&self) -> bool {
        &&& self.order@.no_duplicates()
        &&& forall|i: int| 0 <= i < self.order@.len() ==> #[trigger] self.edge_map@.contains_key(self.order@[i].0)
        &&& forall|x: u64| #[trigger] self.edge_map@.contains_key(x) ==> self.order@.contains(VertexId(x))
        &&& forall|v: u64, i: int|
            self.edge_map@.contains_key(v) && 0 <= i < self.edge_map@[v]@.len() ==> {
                &&& (#[trigger] self.edge_map@[v]@[i]).touches(v)
                &&& self.edge_set@.contains(self.edge_map@[v]@[i])
            }
        &&& forall|e: Edge| #[trigger] self.edge_set@.contains(e) ==> {
                &&& self.edge_map@.contains_key(e.src())
                &&& self.edge_map@.contains_key(e.dst())
                &&& self.edge_map@[e.src()]@.contains(e)
                &&& self.edge_map@[e.dst()]@.contains(e)
            }
        &&& forall|v: u64| #[trigger] self.edge_map@.contains_key(v) ==> self.edge_map@[v]@.no_duplicates()
        &&& self.edge_set@.finite()
        &&& self.n_edges == self.edge_set@.len()
    }

    /// Every edge joins two vertices of the graph, and the listed vertices
    /// are exactly the graph's vertices, each once.
    pub proof fn lemma_wf_facts(&self)
        requires
            self.wf(),
        ensures
            forall|e: Edge| #[trigger] self.edge_set().contains(e) ==>
                self.vertex_set().contains(e.src()) && self.vertex_set().contains(e.dst()),
            forall|x: u64| #[trigger] self.vertex_set().contains(x) <==> self.vertex_list().contains(VertexId(x)),
            self.vertex_list().no_duplicates(),
            self.vertex_set().finite(),
            self.edge_set().finite(),
    {
        assert forall|x: u64| #[trigger] self.vertex_set().contains(x) <==> self.vertex_list().contains(VertexId(x)) by {
            if self.vertex_list().contains(VertexId(x)) {
                let i = choose|i: int| 0 <= i < self.order@.len() && self.order@[i] == VertexId(x);
                assert(self.edge_map@.contains_key(self.order@[i].0));
            }
        }
    }

    /// The edges leaving `v` are the graph's edges whose source is `v`.
    pub proof fn lemma_out_seq(&self, v: u64)
        requires
            self.wf(),
        ensures
            forall|e: Edge| #[trigger] self.out_seq(v).contains(e) <==> (self.edge_set().contains(e) && e.src() == v),
            self.out_seq(v).no_duplicates(),
            !self.vertex_set().contains(v) ==> self.out_seq(v).len() == 0,
    {
        lemma_leaving(self.incident(v), v);
        assert forall|e: Edge| #[trigger] self.out_seq(v).contains(e) <==> (self.edge_set().contains(e) && e.src() == v) by {
            if self.out_seq(v).contains(e) {
                let i = choose|i: int| 0 <= i < self.incident(v).len() && self.incident(v)[i] == e;
                assert(self.edge_map@[v]@[i] == e);
            }
        }
    }

    /// The edges entering `v` are the graph's edges whose destination is `v`.
    pub proof fn lemma_in_seq(&self, v: u64)
        requires
            self.wf(),
        ensures
            forall|e: Edge| #[trigger] self.in_seq(v).contains(e) <==> (self.edge_set().contains(e) && e.dst() == v),
            self.in_seq(v).no_duplicates(),
    {
        lemma_entering(self.incident(v), v);
        assert forall|e: Edge| #[trigger] self.in_seq(v).contains(e) <==> (self.edge_set().contains(e) && e.dst() == v) by {
            if self.in_seq(v).contains(e) {
                let i = choose|i: int| 0 <= i < self.incident(v).len() && self.incident(v)[i] == e;
                assert(self.edge_map@[v]@[i] == e);
            }
        }
    }

    /// An empty graph.
    pub fn new() -> (r: DirectedGraph)
        ensures
            r.wf(),
            r.vertex_set() == Set::<u64>::empty(),
            r.edge_set() == Set::<Edge>::empty(),
    {
        let r = DirectedGraph {
            edge_map: HashMap::new(),
            order: Vec::new(),
            n_edges: 0,
            edge_set: Ghost(Set::empty()),
        };
        assert(r.edge_map@ == Map::<u64, Vec<Edge>>::empty());
        assert(r.vertex_set() =~= Set::<u64>::empty());
        r
    }

    /// Number of vertices.
    pub fn vertex_count(&self) -> (r: usize)
        requires
            self.wf(),
        ensures
            r == self.vertex_set().len(),
    {
        self.edge_map.len()
    }

    /// Whether the graph has no vertex.
    pub fn is_empty(&self) -> (r: bool)
        requires
            self.wf(),
        ensures
            r == (self.vertex_set() == Set::<u64>::empty()),
    {
        let n = self.vertex_count();
        proof {
            if n == 0 {
                self.vertex_set().lemma_len0_is_empty();
            } else {
                assert(self.vertex_set().len() != 0);
            }
        }
        n == 0
    }

    /// Number of distinct edges.
    pub fn edge_count(&self) -> (r: usize)
        requires
            self.wf(),
        ensures
            r == self.edge_set().len(),
    {
        self.n_edges
    }

    /// The first listed vertex, if any.
    pub fn head_option(&self) -> (r: Option<VertexId>)
        requires
            self.wf(),
        ensures
            r is Some <==> self.vertex_set() != Set::<u64>::empty(),
            r matches Some(v) ==> self.vertex_set().contains(v.0) && v == self.vertex_list()[0],
    {
        proof {
            self.lemma_wf_facts();
        }
        if self.order.len() == 0 {
            proof {
                assert(self.vertex_set() =~= Set::<u64>::empty());
            }
            None
        } else {
            proof {
                assert(self.edge_map@.contains_key(self.order@[0].0));
            }
            Some(self.order[0])
        }
    }

    /// Whether `vertex_id` is a vertex of the graph.
    pub fn contains_vertex(&self, vertex_id: VertexId) -> (r: bool)
        ensures
            r == self.vertex_set().contains(vertex_id.0),
    {
        self.edge_map.contains_key(&vertex_id.0)
    }

    /// The vertices, each once.
    pub fn vertices(&self) -> (r: Vec<VertexId>)
        requires
            self.wf(),
        ensures
            r@ == self.vertex_list(),
            r@.no_duplicates(),
            forall|x: u64| #[trigger] r@.contains(VertexId(x)) <==> self.vertex_set().contains(x),
    {
        proof {
            self.lemma_wf_facts();
        }
        let mut r: Vec<VertexId> = Vec::new();
        let mut i: usize = 0;
        while i < self.order.len()
            invariant
                i <= self.order@.len(),
                r@ == self.order@.subrange(0, i as int),
            decreases self.order@.len() - i,
        {
            r.push(self.order[i]);
            i += 1;
            proof {
                assert(r@ =~= self.order@.subrange(0, i as int));
            }
        }
        proof {
            assert(r@ =~= self.order@);
        }
        r
    }

    /// A copy of the edges stored under `v`.
    fn incident_copy(&self, v: u64) -> (r: Vec<Edge>)
        ensures
            r@ == self.incident(v),
    {
        let mut r: Vec<Edge> = Vec::new();
        match self.edge_map.get(&v) {
            None => {},
            Some(list) => {
                let mut i: usize = 0;
                while i < list.len()
                    invariant
                        i <= list@.len(),
                        r@ == list@.subrange(0, i as int),
                    decreases list@.len() - i,
                {
                    r.push(list[i]);
                    i += 1;
                    proof {
                        assert(r@ =~= list@.subrange(0, i as int));
                    }
                }
                proof {
                    assert(r@ =~= list@);
                }
            },
        }
        r
    }

    /// Whether `edge` is an edge of the graph.
    pub fn contains_edge(&self, edge: Edge) -> (r: bool)
        requires
            self.wf(),
        ensures
            r == self.edge_set().contains(edge),
    {
        let v1 = edge.0.0;
        let v2 = edge.1.0;
        if self.edge_map.contains_key(&v1) && self.edge_map.contains_key(&v2) {
            match self.edge_map.get(&v1) {
                None => false,
                Some(list) => {
                    let mut i: usize = 0;
                    while i < list.len()
                        invariant
                            i <= list@.len(),
                            self.wf(),
                            self.edge_map@.contains_key(v1),
                            list@ == self.edge_map@[v1]@,
                            forall|j: int| 0 <= j < i ==> list@[j] != edge,
                        decreases list@.len() - i,
                    {
                        if list[i] == edge {
                            proof {
                                assert(self.edge_map@.contains_key(v1));
                                assert(self.edge_map@[v1]@[i as int] == edge);
                                assert(self.edge_set@.contains(self.edge_map@[v1]@[i as int]));
                            }
                            return true;
                        }
                        i += 1;
                    }
                    proof {
                        if self.edge_set().contains(edge) {
                            assert(self.edge_map@[edge.src()]@.contains(edge));
                        }
                    }
                    false
                },
            }
        } else {
            false
        }
    }

    /// The edges leaving `vertex_id`, in insertion order.
    pub fn outbound_edges(&self, vertex_id: VertexId) -> (r: Vec<Edge>)
        requires
            self.wf(),
        ensures
            r@ == self.out_seq(vertex_id.0),
            r@.no_duplicates(),
            forall|e: Edge| #[trigger] r@.contains(e) <==> (self.edge_set().contains(e) && e.src() == vertex_id.0),
    {
        let v = vertex_id.0;
        let list = self.incident_copy(v);
        let mut r: Vec<Edge> = Vec::new();
        let mut i: usize = 0;
        while i < list.len()
            invariant
                i <= list@.len(),
                list@ == self.incident(v),
                r@ == leaving(list@.subrange(0, i as int), v),
            decreases list@.len() - i,
        {
            let e = list[i];
            proof {
                assert(list@.subrange(0, i as int + 1).drop_last() =~= list@.subrange(0, i as int));
            }
            if e.0.0 == v {
                r.push(e);
            }
            i += 1;
        }
        proof {
            assert(list@.subrange(0, list@.len() as int) =~= list@);
            self.lemma_out_seq(v);
        }
        r
    }

    /// The edges entering `vertex_id`, in insertion order.
    pub fn inbound_edges(&self, vertex_id: VertexId) -> (r: Vec<Edge>)
        requires
            self.wf(),
        ensures
            r@ == self.in_seq(vertex_id.0),
            forall|e: Edge| #[trigger] r@.contains(e) <==> (self.edge_set().contains(e) && e.dst() == vertex_id.0),
    {
        let v = vertex_id.0;
        let list = self.incident_copy(v);
        let mut r: Vec<Edge> = Vec::new();
        let mut i: usize = 0;
        while i < list.len()
            invariant
                i <= list@.len(),
                list@ == self.incident(v),
                r@ == entering(list@.subrange(0, i as int), v),
            decreases list@.len() - i,
        {
            let e = list[i];
            proof {
                assert(list@.subrange(0, i as int + 1).drop_last() =~= list@.subrange(0, i as int));
            }
            if e.1.0 == v {
                r.push(e);
            }
            i += 1;
        }
        proof {
            assert(list@.subrange(0, list@.len() as int) =~= list@);
            self.lemma_in_seq(v);
            assert(r@ == self.in_seq(v));
            assert forall|e: Edge| #[trigger] r@.contains(e) <==> (self.edge_set().contains(e) && e.dst() == v) by {
                assert(self.in_seq(v).contains(e) <==> (self.edge_set().contains(e) && e.dst() == v));
            }
        }
        r
    }

    /// Number of edges leaving `vertex_id`.
    pub fn degree_out(&self, vertex_id: VertexId) -> (r: usize)
        requires
            self.wf(),
        ensures
            r == self.out_seq(vertex_id.0).len(),
    {
        self.outbound_edges(vertex_id).len()
    }

    /// Number of edges entering `vertex_id`.
    pub fn degree_in(&self, vertex_id: VertexId) -> (r: usize)
        requires
            self.wf(),
        ensures
            r == self.in_seq(vertex_id.0).len(),
    {
        self.inbound_edges(vertex_id).len()
    }

    /// Adds `vertex_id`; returns whether it was new. Adding a present
    /// vertex changes nothing.
    pub fn add_vertex(&mut self, vertex_id: VertexId) -> (r: bool)
        requires
            old(self).wf(),
        ensures
            final(self).wf(),
            r == !old(self).vertex_set().contains(vertex_id.0),
            final(self).vertex_set() == old(self).vertex_set().insert(vertex_id.0),
            final(self).edge_set() == old(self).edge_set(),
            forall|u: u64| #[trigger] final(self).incident(u) == old(self).incident(u),
            !r ==> *final(self) == *old(self),
            vertex_added(*old(self), *final(self), vertex_id.0, r),
    {
        if self.edge_map.contains_key(&vertex_id.0) {
            return false;
        }
        let ghost before = *self;
        self.edge_map.insert(vertex_id.0, Vec::new());
        self.order.push(vertex_id);
        proof {
            lemma_push_contains(before.order@, vertex_id);
            assert(!before.order@.contains(vertex_id)) by {
                if before.order@.contains(vertex_id) {
                    let i = choose|i: int| 0 <= i < before.order@.len() && before.order@[i] == vertex_id;
                    assert(before.edge_map@.contains_key(before.order@[i].0));
                }
            }
            assert(self.vertex_set() =~= before.vertex_set().insert(vertex_id.0));
            assert forall|i: int| 0 <= i < self.order@.len() implies #[trigger] self.edge_map@.contains_key(self.order@[i].0) by {
                if i < before.order@.len() {
                    assert(self.order@[i] == before.order@[i]);
                    assert(before.edge_map@.contains_key(before.order@[i].0));
                }
            }
            assert forall|x: u64| #[trigger] self.edge_map@.contains_key(x) implies self.order@.contains(VertexId(x)) by {
                if x != vertex_id.0 {
                    assert(before.edge_map@.contains_key(x));
                }
            }
            assert forall|u: u64| #[trigger] self.incident(u) == before.incident(u) by {
                if u == vertex_id.0 {
                    assert(self.edge_map@[u]@ =~= Seq::<Edge>::empty());
                }
            }
            assert forall|v: u64, i: int|
                self.edge_map@.contains_key(v) && 0 <= i < self.edge_map@[v]@.len() implies {
                    &&& (#[trigger] self.edge_map@[v]@[i]).touches(v)
                    &&& self.edge_set@.contains(self.edge_map@[v]@[i])
                } by {
                assert(v != vertex_id.0);
                assert(before.edge_map@.contains_key(v));
            }
        }
        true
    }

    /// Appends `e` to the list stored under `v`.
    fn push_incident(&mut self, v: u64, e: Edge)
        requires
            old(self).edge_map@.contains_key(v),
        ensures
            final(self).edge_map@ == old(self).edge_map@.insert(v, final(self).edge_map@[v]),
            final(self).edge_map@[v]@ == old(self).edge_map@[v]@.push(e),
            final(self).order == old(self).order,
            final(self).n_edges == old(self).n_edges,
            final(self).edge_set == old(self).edge_set,
    {
        let list = self.edge_map.remove(&v);
        match list {
            Some(l) => {
                let mut l = l;
                l.push(e);
                self.edge_map.insert(v, l);
            },
            None => {},
        }
        proof {
            assert(self.edge_map@ =~= old(self).edge_map@.insert(v, self.edge_map@[v]));
        }
    }

    /// Adds `edge`, and its endpoints where missing; returns whether the
    /// edge was new. Adding a present edge changes nothing.
    pub fn add_edge(&mut self, edge: Edge) -> (r: bool)
        requires
            old(self).wf(),
            old(self).edge_set().len() < usize::MAX || old(self).edge_set().contains(edge),
        ensures
            final(self).wf(),
            r == !old(self).edge_set().contains(edge),
            final(self).edge_set() == old(self).edge_set().insert(edge),
            r ==> final(self).vertex_set() == old(self).vertex_set().insert(edge.src()).insert(edge.dst()),
            !r ==> *final(self) == *old(self),
            edge_added(*old(self), *final(self), edge, r),
    {
        if self.contains_edge(edge) {
            return false;
        }
        let v1 = edge.0.0;
        let v2 = edge.1.0;
        self.add_vertex(edge.0);
        self.add_vertex(edge.1);
        let ghost mid = *self;
        self.push_incident(v1, edge);
        if v1 != v2 {
            self.push_incident(v2, edge);
        }
        self.n_edges = self.n_edges + 1;
        self.edge_set = Ghost(self.edge_set@.insert(edge));
        proof {
            assert(self.vertex_set() =~= mid.vertex_set());
            lemma_push_contains(mid.edge_map@[v1]@, edge);
            lemma_push_contains(mid.edge_map@[v2]@, edge);
            assert(!mid.edge_map@[v1]@.contains(edge)) by {
                if mid.edge_map@[v1]@.contains(edge) {
                    let i = choose|i: int| 0 <= i < mid.edge_map@[v1]@.len() && mid.edge_map@[v1]@[i] == edge;
                    assert(mid.edge_set@.contains(mid.edge_map@[v1]@[i]));
                }
            }
            assert(!mid.edge_map@[v2]@.contains(edge)) by {
                if mid.edge_map@[v2]@.contains(edge) {
                    let i = choose|i: int| 0 <= i < mid.edge_map@[v2]@.len() && mid.edge_map@[v2]@[i] == edge;
                    assert(mid.edge_set@.contains(mid.edge_map@[v2]@[i]));
                }
            }
            assert(self.edge_map@[v1]@ == mid.edge_map@[v1]@.push(edge));
            assert(self.edge_map@[v2]@ == mid.edge_map@[v2]@.push(edge));
            assert forall|u: u64| u != v1 && u != v2 && #[trigger] self.edge_map@.contains_key(u) implies
                self.edge_map@[u] == mid.edge_map@[u] by {}
            assert forall|i: int| 0 <= i < self.order@.len() implies #[trigger] self.edge_map@.contains_key(self.order@[i].0) by {
                assert(mid.edge_map@.contains_key(mid.order@[i].0));
            }
            assert forall|x: u64| #[trigger] self.edge_map@.contains_key(x) implies self.order@.contains(VertexId(x)) by {
                assert(mid.edge_map@.contains_key(x));
            }
            assert forall|v: u64, i: int|
                self.edge_map@.contains_key(v) && 0 <= i < self.edge_map@[v]@.len() implies {
                    &&& (#[trigger] self.edge_map@[v]@[i]).touches(v)
                    &&& self.edge_set@.contains(self.edge_map@[v]@[i])
                } by {
                assert(mid.edge_map@.contains_key(v));
                if (v == v1 || v == v2) && i == mid.edge_map@[v]@.len() {
                    assert(self.edge_map@[v]@[i] == edge);
                } else {
                    assert(self.edge_map@[v]@[i] == mid.edge_map@[v]@[i]);
                }
            }
            assert forall|e: Edge| #[trigger] self.edge_set@.contains(e) implies {
                &&& self.edge_map@.contains_key(e.src())
                &&& self.edge_map@.contains_key(e.dst())
                &&& self.edge_map@[e.src()]@.contains(e)
                &&& self.edge_map@[e.dst()]@.contains(e)
            } by {
                if e != edge {
                    assert(mid.edge_set@.contains(e));
                }
            }
            assert forall|v: u64| #[trigger] self.edge_map@.contains_key(v) implies self.edge_map@[v]@.no_duplicates() by {
                assert(mid.edge_map@.contains_key(v));
            }
            assert(self.vertex_set() =~= old(self).vertex_set().insert(edge.src()).insert(edge.dst()));
        }
        true
    }

    /// Removes the occurrences of `e` from the list stored under `v`.
    fn drop_incident(&mut self, v: u64, e: Edge)
        requires
            old(self).edge_map@.contains_key(v),
        ensures
            final(self).edge_map@ == old(self).edge_map@.insert(v, final(self).edge_map@[v]),
            final(self).edge_map@[v]@ == without(old(self).edge_map@[v]@, e),
            final(self).order == old(self).order,
            final(self).n_edges == old(self).n_edges,
            final(self).edge_set == old(self).edge_set,
    {
        let list = self.edge_map.remove(&v);
        match list {
            Some(l) => {
                let mut kept: Vec<Edge> = Vec::new();
                let mut i: usize = 0;
                while i < l.len()
                    invariant
                        i <= l@.len(),
                        kept@ == without(l@.subrange(0, i as int), e),
                    decreases l@.len() - i,
                {
                    proof {
                        assert(l@.subrange(0, i as int + 1).drop_last() =~= l@.subrange(0, i as int));
                    }
                    if l[i] != e {
                        kept.push(l[i]);
                    }
                    i += 1;
                }
                proof {
                    assert(l@.subrange(0, l@.len() as int) =~= l@);
                }
                self.edge_map.insert(v, kept);
            },
            None => {},
        }
        proof {
            assert(self.edge_map@ =~= old(self).edge_map@.insert(v, self.edge_map@[v]));
        }
    }

    /// Removes `edge`; returns whether it was present. Its endpoints stay.
    /// Removing an absent edge changes nothing.
    pub fn remove_edge(&mut self, edge: Edge) -> (r: bool)
        requires
            old(self).wf(),
        ensures
            final(self).wf(),
            r == old(self).edge_set().contains(edge),
            final(self).edge_set() == old(self).edge_set().remove(edge),
            final(self).vertex_set() == old(self).vertex_set(),
            final(self).vertex_list() == old(self).vertex_list(),
            !r ==> *final(self) == *old(self),
            edge_removed(*old(self), *final(self), edge, r),
    {
        if !self.contains_edge(edge) {
            return false;
        }
        let ghost before = *self;
        let v1 = edge.0.0;
        let v2 = edge.1.0;
        proof {
            assert(before.edge_set@.contains(edge));
        }
        self.drop_incident(v1, edge);
        if v1 != v2 {
            self.drop_incident(v2, edge);
        }
        self.n_edges = self.n_edges - 1;
        self.edge_set = Ghost(self.edge_set@.remove(edge));
        proof {
            lemma_without(before.edge_map@[v1]@, edge);
            lemma_without(before.edge_map@[v2]@, edge);
            assert(self.edge_map@[v1]@ == without(before.edge_map@[v1]@, edge));
            assert(self.edge_map@[v2]@ == without(before.edge_map@[v2]@, edge));
            assert(self.vertex_set() =~= before.vertex_set());
            assert forall|u: u64| u != v1 && u != v2 && #[trigger] self.edge_map@.contains_key(u) implies
                self.edge_map@[u] == before.edge_map@[u] by {}
            assert forall|i: int| 0 <= i < self.order@.len() implies #[trigger] self.edge_map@.contains_key(self.order@[i].0) by {
                assert(before.edge_map@.contains_key(before.order@[i].0));
            }
            assert forall|x: u64| #[trigger] self.edge_map@.contains_key(x) implies self.order@.contains(VertexId(x)) by {
                assert(before.edge_map@.contains_key(x));
            }
            assert forall|v: u64, i: int|
                self.edge_map@.contains_key(v) && 0 <= i < self.edge_map@[v]@.len() implies {
                    &&& (#[trigger] self.edge_map@[v]@[i]).touches(v)
                    &&& self.edge_set@.contains(self.edge_map@[v]@[i])
                } by {
                assert(before.edge_map@.contains_key(v));
                let x = self.edge_map@[v]@[i];
                assert(self.edge_map@[v]@.contains(x));
                assert(before.edge_map@[v]@.contains(x));
                let j = choose|j: int| 0 <= j < before.edge_map@[v]@.len() && before.edge_map@[v]@[j] == x;
                assert(before.edge_map@[v]@[j].touches(v));
                assert(before.edge_set@.contains(before.edge_map@[v]@[j]));
            }
            assert forall|e: Edge| #[trigger] self.edge_set@.contains(e) implies {
                &&& self.edge_map@.contains_key(e.src())
                &&& self.edge_map@.contains_key(e.dst())
                &&& self.edge_map@[e.src()]@.contains(e)
                &&& self.edge_map@[e.dst()]@.contains(e)
            } by {
                assert(before.edge_set@.contains(e));
            }
            assert forall|v: u64| #[trigger] self.edge_map@.contains_key(v) implies self.edge_map@[v]@.no_duplicates() by {
                assert(before.edge_map@.contains_key(v));
            }
        }
        true
    }

    /// Removes `vertex_id` and every edge that touches it; returns whether
    /// the vertex was present. No other edge is removed. Removing an absent
    /// vertex changes nothing.
    pub fn remove_vertex(&mut self, vertex_id: VertexId) -> (r: bool)
        requires
            old(self).wf(),
        ensures
            final(self).wf(),
            r == old(self).vertex_set().contains(vertex_id.0),
            final(self).vertex_set() == old(self).vertex_set().remove(vertex_id.0),
            final(self).edge_set() == old(self).edge_set().filter(|e: Edge| !e.touches(vertex_id.0)),
            !r ==> *final(self) == *old(self),
            vertex_removed(*old(self), *final(self), vertex_id.0, r),
    {
        let v = vertex_id.0;
        if !self.edge_map.contains_key(&v) {
            proof {
                self.lemma_wf_facts();
                assert(self.edge_set().filter(|e: Edge| !e.touches(v)) =~= self.edge_set());
            }
            return false;
        }
        let ghost before = *self;
        let list = self.incident_copy(v);
        let mut i: usize = 0;
        while i < list.len()
            invariant
                self.wf(),
                i <= list@.len(),
                list@ == before.incident(v),
                before.wf(),
                before.edge_map@.contains_key(v),
                self.vertex_set() == before.vertex_set(),
                self.vertex_list() == before.vertex_list(),
                forall|e: Edge| #[trigger] self.edge_set().contains(e) <==>
                    (before.edge_set().contains(e) && !list@.subrange(0, i as int).contains(e)),
            decreases list@.len() - i,
        {
            let ghost prev = *self;
            self.remove_edge(list[i]);
            proof {
                let sub = list@.subrange(0, i as int + 1);
                lemma_drop_last(sub);
                assert(sub.drop_last() =~= list@.subrange(0, i as int));
            }
            i += 1;
        }
        proof {
            assert(list@.subrange(0, list@.len() as int) =~= list@);
            // nothing stored under `v` is left
            if self.edge_map@[v]@.len() > 0 {
                let x = self.edge_map@[v]@[0];
                assert(self.edge_set@.contains(x));
                assert(x.touches(v));
                assert(self.edge_set().contains(x));
                assert(before.edge_set@.contains(x));
                if x.src() == v {
                    assert(before.edge_map@[x.src()]@.contains(x));
                } else {
                    assert(before.edge_map@[x.dst()]@.contains(x));
                }
                assert(list@.contains(x));
            }
        }
        let ghost mid = *self;
        self.edge_map.remove(&v);
        let mut k: usize = 0;
        while k < self.order.len() && self.order[k] != vertex_id
            invariant
                k <= self.order@.len(),
                self.order@ == mid.order@,
                forall|j: int| 0 <= j < k ==> self.order@[j] != vertex_id,
            decreases self.order@.len() - k,
        {
            k += 1;
        }
        proof {
            mid.lemma_wf_facts();
            assert(mid.order@.contains(vertex_id));
            if k >= self.order@.len() {
                let j = choose|j: int| 0 <= j < mid.order@.len() && mid.order@[j] == vertex_id;
                assert(false);
            }
        }
        self.order.remove(k);
        proof {
            assert(self.vertex_set() =~= before.vertex_set().remove(v));
            let kept = before.edge_set().filter(|e: Edge| !e.touches(v));
            assert(self.edge_set() =~= kept) by {
                assert forall|e: Edge| self.edge_set().contains(e) <==> kept.contains(e) by {
                    assert(self.edge_set() == mid.edge_set());
                    assert(mid.edge_set().contains(e) <==> before.edge_set().contains(e) && !list@.contains(e));
                    if before.edge_set().contains(e) && e.touches(v) {
                        assert(before.edge_map@[v]@.contains(e));
                    }
                    if list@.contains(e) {
                        let j = choose|j: int| 0 <= j < list@.len() && list@[j] == e;
                        assert(before.edge_map@[v]@[j].touches(v));
                    }
                }
            }
            assert(self.order@ == mid.order@.remove(k as int));
            assert forall|a: int, b: int| 0 <= a < self.order@.len() && 0 <= b < self.order@.len() && a != b
                implies self.order@[a] != self.order@[b] by {
                let a2 = if a < k { a } else { a + 1 };
                let b2 = if b < k { b } else { b + 1 };
                assert(self.order@[a] == mid.order@[a2]);
                assert(self.order@[b] == mid.order@[b2]);
            }
            assert forall|j: int| 0 <= j < self.order@.len() implies #[trigger] self.edge_map@.contains_key(self.order@[j].0) by {
                let j2 = if j < k { j } else { j + 1 };
                assert(self.order@[j] == mid.order@[j2]);
                assert(mid.edge_map@.contains_key(mid.order@[j2].0));
                assert(mid.order@[j2] != vertex_id);
            }
            assert forall|x: u64| #[trigger] self.edge_map@.contains_key(x) implies self.order@.contains(VertexId(x)) by {
                assert(mid.edge_map@.contains_key(x));
                assert(mid.order@.contains(VertexId(x)));
                let j = choose|j: int| 0 <= j < mid.order@.len() && mid.order@[j] == VertexId(x);
                assert(j != k);
                let j2 = if j < k { j } else { j - 1 };
                assert(self.order@[j2] == VertexId(x));
            }
            assert forall|w: u64, j: int|
                self.edge_map@.contains_key(w) && 0 <= j < self.edge_map@[w]@.len() implies {
                    &&& (#[trigger] self.edge_map@[w]@[j]).touches(w)
                    &&& self.edge_set@.contains(self.edge_map@[w]@[j])
                } by {
                assert(mid.edge_map@.contains_key(w));
            }
            assert forall|e: Edge| #[trigger] self.edge_set@.contains(e) implies {
                &&& self.edge_map@.contains_key(e.src())
                &&& self.edge_map@.contains_key(e.dst())
                &&& self.edge_map@[e.src()]@.contains(e)
                &&& self.edge_map@[e.dst()]@.contains(e)
            } by {
                assert(mid.edge_set@.contains(e));
                if e.touches(v) {
                    if e.src() == v {
                        assert(mid.edge_map@[v]@.contains(e));
                    } else {
                        assert(mid.edge_map@[v]@.contains(e));
                    }
                }
            }
            assert forall|w: u64| #[trigger] self.edge_map@.contains_key(w) implies self.edge_map@[w]@.no_duplicates() by {
                assert(mid.edge_map@.contains_key(w));
            }
        }
        true
    }

    /// All the edges, grouped by source vertex in vertex-list order.
    pub fn edges(&self) -> (r: Vec<Edge>)
        requires
            self.wf(),
        ensures
            forall|e: Edge| #[trigger] r@.contains(e) <==> self.edge_set().contains(e),
            r@.no_duplicates(),
            r@.len() == self.edge_set().len(),
    {
        proof {
            self.lemma_wf_facts();
        }
        let mut r: Vec<Edge> = Vec::new();
        let mut i: usize = 0;
        while i < self.order.len()
            invariant
                self.wf(),
                i <= self.order@.len(),
                forall|e: Edge| #[trigger] r@.contains(e) <==>
                    (self.edge_set().contains(e) && self.order@.subrange(0, i as int).contains(VertexId(e.src()))),
                r@.no_duplicates(),
            decreases self.order@.len() - i,
        {
            let out = self.outbound_edges(self.order[i]);
            proof {
                assert(!self.order@.subrange(0, i as int).contains(self.order@[i as int])) by {
                    if self.order@.subrange(0, i as int).contains(self.order@[i as int]) {
                        let k = choose|k: int| 0 <= k < i && self.order@.subrange(0, i as int)[k] == self.order@[i as int];
                        assert(self.order@[k] == self.order@[i as int]);
                    }
                }
                assert forall|a: int, b: int| 0 <= a < r@.len() && 0 <= b < out@.len() implies r@[a] != out@[b] by {
                    assert(r@.contains(r@[a]));
                    assert(out@.contains(out@[b]));
                    if r@[a] == out@[b] {
                        assert(self.order@.subrange(0, i as int).contains(VertexId(r@[a].src())));
                        assert(VertexId(out@[b].src()) == self.order@[i as int]);
                    }
                }
                vstd::seq_lib::lemma_no_dup_in_concat(r@, out@);
            }
            let ghost r0 = r@;
            let mut j: usize = 0;
            while j < out.len()
                invariant
                    j <= out@.len(),
                    r@ == r0 + out@.subrange(0, j as int),
                decreases out@.len() - j,
            {
                r.push(out[j]);
                j += 1;
                proof {
                    assert(r@ =~= r0 + out@.subrange(0, j as int));
                }
            }
            proof {
                assert(out@.subrange(0, out@.len() as int) =~= out@);
                assert(r@ == r0 + out@);
                let sub = self.order@.subrange(0, i as int + 1);
                lemma_drop_last(sub);
                assert(sub.drop_last() =~= self.order@.subrange(0, i as int));
                assert forall|e: Edge| #[trigger] r@.contains(e) <==>
                    (self.edge_set().contains(e) && sub.contains(VertexId(e.src()))) by {
                    if r@.contains(e) {
                        let k = choose|k: int| 0 <= k < r@.len() && r@[k] == e;
                        if k < r0.len() {
                            assert(r0[k] == e);
                        } else {
                            assert(out@[k - r0.len()] == e);
                        }
                    }
                    if r0.contains(e) {
                        let k = choose|k: int| 0 <= k < r0.len() && r0[k] == e;
                        assert(r@[k] == e);
                    }
                    if out@.contains(e) {
                        let k = choose|k: int| 0 <= k < out@.len() && out@[k] == e;
                        assert(r@[r0.len() + k] == e);
                    }
                }
            }
            i += 1;
        }
        proof {
            assert(self.order@.subrange(0, self.order@.len() as int) =~= self.order@);
            r@.unique_seq_to_set();
            assert(r@.to_set() =~= self.edge_set()) by {
                assert forall|e: Edge| r@.to_set().contains(e) <==> self.edge_set().contains(e) by {
                    if self.edge_set().contains(e) {
                        assert(self.vertex_set().contains(e.src()));
                        assert(self.vertex_list().contains(VertexId(e.src())));
                    }
                }
            }
        }
        r
    }
}

} // verus!
