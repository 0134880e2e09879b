//! Breadth-first traversals: of vertices, and of simple paths.
use vstd::prelude::*;
use std::collections::HashSet;
use crate::graph::{Edge, VertexId};
use crate::directed_graph::{DirectedGraph, reachable, walk_from};
use crate::path::Path;
use crate::search_queue::Queue;

verus! {

broadcast use vstd::std_specs::hash::group_hash_axioms;

/// Yields vertices reachable from the start, each once, in breadth-first
/// order.
pub struct BreadthFirstIter<'a> {
    queue: Queue<VertexId>,
    visited: HashSet<u64>,
    graph: &'a DirectedGraph,
    pushed: Ghost<Seq<VertexId>>,
    served: Ghost<nat>,
    start: Ghost<u64>,
}

impl<'a> BreadthFirstIter<'a> {
    /// The vertices waiting to be yielded, next first.
    pub closed spec fn frontier(&self) -> Seq<VertexId> {
        self.queue@
    }

    /// The vertices already queued once.
    pub closed spec fn seen(&self) -> Set<u64> {
        self.visited@
    }

    /// The vertices yielded so far, in order.
    pub closed spec fn yielded(&self) -> Seq<VertexId> {
        self.pushed@.subrange(0, self.served@ as int)
    }

    pub closed spec fn graph_of(&self) -> DirectedGraph {
        *self.graph
    }

    /// The vertex the traversal starts from.
    pub closed spec fn start_of(&self) -> u64 {
        self.start@
    }

    pub closed spec fn wf(&self) -> bool {
        &&& self.graph.wf()
        &&& self.served@ <= self.pushed@.len()
        &&& self.queue@ == self.pushed@.subrange(self.served@ as int, self.pushed@.len() as int)
        &&& self.pushed@.no_duplicates()
        &&& forall|x: u64| #[trigger] self.visited@.contains(x) <==> self.pushed@.contains(VertexId(x))
        &&& forall|k: int| 0 <= k < self.pushed@.len() ==> reachable(*self.graph, self.start@, #[trigger] self.pushed@[k])
        &&& forall|k: int, e: Edge| 0 <= k < self.served@ && #[trigger] self.graph.edge_set().contains(e) && e.0 == #[trigger] self.pushed@[k]
                ==> self.visited@.contains(e.1.0)
        &&& self.pushed@.len() > 0 ==> self.pushed@[0] == VertexId(self.start@)
    }

    /// Yields the next vertex, and queues its successors not seen yet.
    pub fn next(&mut self) -> (r: Option<VertexId>)
        requires
            old(self).wf(),
        ensures
            final(self).wf(),
            final(self).graph_of() == old(self).graph_of(),
            final(self).start_of() == old(self).start_of(),
            old(self).frontier().len() == 0 ==> r is None && final(self).frontier() == old(self).frontier()
                && final(self).seen() == old(self).seen() && final(self).yielded() == old(self).yielded(),
            old(self).frontier().len() > 0 ==> {
                &&& r == Some(old(self).frontier()[0])
                &&& forall|x: u64| #[trigger] final(self).seen().contains(x) <==>
                        (old(self).seen().contains(x) || old(self).graph_of().edge_set().contains(Edge(old(self).frontier()[0], VertexId(x))))
                &&& exists|added: Seq<VertexId>| {
                        &&& final(self).frontier() == old(self).frontier().drop_first() + added
                        &&& added.no_duplicates()
                        &&& forall|v: VertexId| #[trigger] added.contains(v) <==>
                                (old(self).graph_of().edge_set().contains(Edge(old(self).frontier()[0], v)) && !old(self).seen().contains(v.0))
                    }
            },
            r matches Some(v) ==> {
                &&& reachable(old(self).graph_of(), old(self).start_of(), v)
                &&& !old(self).yielded().contains(v)
                &&& final(self).yielded() == old(self).yielded().push(v)
            },
            r is None && old(self).yielded().len() > 0 ==> forall|p: Seq<VertexId>|
                #[trigger] walk_from(old(self).graph_of(), old(self).start_of(), p) ==> old(self).yielded().contains(p.last()),
    {
        let ghost p0 = self.pushed@;
        let ghost s0 = self.served@;
        match self.queue.pop() {
            None => {
                proof {
                    if s0 > 0 {
                        let ys = p0.subrange(0, s0 as int);
                        assert(p0.subrange(s0 as int, p0.len() as int).len() == 0);
                        assert(ys =~= p0);
                        assert(ys[0] == VertexId(self.start@));
                        assert forall|e: Edge| #[trigger] self.graph.edge_set().contains(e) && ys.contains(e.0) implies ys.contains(e.1) by {
                            let k = choose|k: int| 0 <= k < ys.len() && ys[k] == e.0;
                            assert(p0[k] == e.0);
                            assert(self.visited@.contains(e.1.0));
                            assert(p0.contains(VertexId(e.1.0)));
                        }
                        assert forall|p: Seq<VertexId>| #[trigger] walk_from(*self.graph, self.start@, p) implies ys.contains(p.last()) by {
                            crate::directed_graph::lemma_closed_list_holds_walk_ends(*self.graph, self.start@, ys, p);
                        }
                    }
                }
                None
            },
            Some(vid) => {
                proof {
                    assert(p0.subrange(s0 as int, p0.len() as int)[0] == p0[s0 as int]);
                    assert(vid == p0[s0 as int]);
                }
                self.served = Ghost(s0 + 1);
                proof {
                    assert(self.queue@ =~= p0.subrange(s0 as int + 1, p0.len() as int));
                    assert(reachable(*self.graph, self.start@, p0[s0 as int]));
                    assert(!p0.subrange(0, s0 as int).contains(vid)) by {
                        if p0.subrange(0, s0 as int).contains(vid) {
                            let k = choose|k: int| 0 <= k < s0 && p0.subrange(0, s0 as int)[k] == vid;
                            assert(p0[k] == p0[s0 as int]);
                        }
                    }
                    assert(p0.subrange(0, s0 as int + 1) =~= p0.subrange(0, s0 as int).push(vid));
                }
                let out = self.graph.outbound_edges(vid);
                let ghost seen0 = self.visited@;
                let ghost g0 = *self.graph;
                let mut j: usize = 0;
                while j < out.len()
                    invariant
                        self.graph.wf(),
                        *self.graph == g0,
                        self.start == old(self).start,
                        self.served@ == s0 + 1,
                        self.served@ <= self.pushed@.len(),
                        self.pushed@.len() >= p0.len(),
                        self.pushed@.subrange(0, p0.len() as int) == p0,
                        vid == p0[s0 as int],
                        reachable(*self.graph, self.start@, vid),
                        j <= out@.len(),
                        forall|e: Edge| #[trigger] out@.contains(e) <==> (self.graph.edge_set().contains(e) && e.src() == vid.0),
                        self.queue@ == self.pushed@.subrange(self.served@ as int, self.pushed@.len() as int),
                        self.pushed@.no_duplicates(),
                        forall|x: u64| #[trigger] self.visited@.contains(x) <==> self.pushed@.contains(VertexId(x)),
                        forall|k: int| 0 <= k < self.pushed@.len() ==> reachable(*self.graph, self.start@, #[trigger] self.pushed@[k]),
                        forall|x: u64| #[trigger] self.visited@.contains(x) <==>
                            (seen0.contains(x) || exists|k: int| 0 <= k < j && #[trigger] out@[k].dst() == x),
                        forall|k: int, e: Edge| 0 <= k < s0 && #[trigger] self.graph.edge_set().contains(e) && e.0 == #[trigger] p0[k]
                            ==> seen0.contains(e.1.0),
                        self.pushed@.len() > 0 && self.pushed@[0] == p0[0],
                        p0.len() > 0 ==> p0[0] == VertexId(self.start@),
                    decreases out@.len() - j,
                {
                    let v = out[j].1;
                    if !self.visited.contains(&v.0) {
                        let ghost pb = self.pushed@;
                        self.visited.insert(v.0);
                        self.queue.push(v);
                        self.pushed = Ghost(pb.push(v));
                        proof {
                            assert(out@.contains(out@[j as int]));
                            assert(out@[j as int] == Edge(vid, v));
                            crate::directed_graph::lemma_push_contains(pb, v);
                            assert(!pb.contains(v));
                            let w = choose|w: Seq<VertexId>| #[trigger] walk_from(*self.graph, self.start@, w) && w.last() == vid;
                            crate::directed_graph::lemma_walk_push(*self.graph, self.start@, w, v);
                            assert(walk_from(*self.graph, self.start@, w.push(v)) && w.push(v).last() == v);
                            assert forall|k: int| 0 <= k < self.pushed@.len() implies reachable(*self.graph, self.start@, #[trigger] self.pushed@[k]) by {
                                if k < pb.len() {
                                    assert(self.pushed@[k] == pb[k]);
                                } else {
                                    assert(self.pushed@[k] == v);
                                }
                            }
                            assert(self.queue@ =~= self.pushed@.subrange(self.served@ as int, self.pushed@.len() as int));
                            assert(self.pushed@.subrange(0, p0.len() as int) =~= pb.subrange(0, p0.len() as int));
                            assert forall|x: u64| #[trigger] self.visited@.contains(x) <==> self.pushed@.contains(VertexId(x)) by {}
                        }
                    }
                    proof {
                        assert(out@[j as int].dst() == v.0);
                    }
                    j += 1;
                }
                proof {
                    assert forall|x: u64| #[trigger] self.visited@.contains(x) <==>
                        (seen0.contains(x) || self.graph.edge_set().contains(Edge(vid, VertexId(x)))) by {
                        if self.graph.edge_set().contains(Edge(vid, VertexId(x))) {
                            assert(out@.contains(Edge(vid, VertexId(x))));
                            let k = choose|k: int| 0 <= k < out@.len() && out@[k] == Edge(vid, VertexId(x));
                            assert(out@[k].dst() == x);
                        }
                        if exists|k: int| 0 <= k < out@.len() && #[trigger] out@[k].dst() == x {
                            let k = choose|k: int| 0 <= k < out@.len() && #[trigger] out@[k].dst() == x;
                            assert(out@.contains(out@[k]));
                            assert(out@[k] == Edge(vid, VertexId(x)));
                        }
                    }
                    assert(self.pushed@.subrange(0, s0 as int + 1) =~= p0.subrange(0, s0 as int + 1));
                    assert forall|k: int, e: Edge| 0 <= k < self.served@ && #[trigger] self.graph.edge_set().contains(e) && e.0 == #[trigger] self.pushed@[k]
                        implies self.visited@.contains(e.1.0) by {
                        assert(self.pushed@[k] == p0[k]);
                        if k == s0 {
                            assert(e == Edge(vid, VertexId(e.1.0)));
                        }
                    }
                    let pf = self.pushed@;
                    let added = pf.subrange(p0.len() as int, pf.len() as int);
                    assert(self.queue@ =~= p0.subrange(s0 as int, p0.len() as int).drop_first() + added) by {
                        assert forall|k: int| 0 <= k < self.queue@.len() implies self.queue@[k]
                            == (p0.subrange(s0 as int, p0.len() as int).drop_first() + added)[k] by {
                            if s0 + 1 + k < p0.len() {
                                assert(pf.subrange(0, p0.len() as int)[s0 + 1 + k] == p0[s0 + 1 + k]);
                            }
                        }
                    }
                    assert(added.no_duplicates()) by {
                        assert forall|a: int, b: int| 0 <= a < added.len() && 0 <= b < added.len() && a != b implies added[a] != added[b] by {
                            assert(added[a] == pf[p0.len() + a] && added[b] == pf[p0.len() + b]);
                        }
                    }
                    assert forall|v: VertexId| #[trigger] added.contains(v) <==>
                        (self.graph.edge_set().contains(Edge(vid, v)) && !seen0.contains(v.0)) by {
                        assert(VertexId(v.0) == v);
                        if added.contains(v) {
                            let k = choose|k: int| 0 <= k < added.len() && added[k] == v;
                            assert(pf[p0.len() + k] == v);
                            assert(self.visited@.contains(v.0));
                            if seen0.contains(v.0) {
                                assert(p0.contains(v));
                                let m = choose|m: int| 0 <= m < p0.len() && p0[m] == v;
                                assert(pf.subrange(0, p0.len() as int)[m] == pf[m]);
                                assert(pf[m] == v);
                            }
                        }
                        if self.graph.edge_set().contains(Edge(vid, v)) && !seen0.contains(v.0) {
                            assert(self.visited@.contains(v.0));
                            assert(pf.contains(v));
                            let k = choose|k: int| 0 <= k < pf.len() && pf[k] == v;
                            if k < p0.len() {
                                assert(pf.subrange(0, p0.len() as int)[k] == pf[k]);
                                assert(p0.contains(v));
                            }
                            assert(added[k - p0.len()] == v);
                        }
                    }
                }
                Some(vid)
            },
        }
    }
}

/// Breadth-first traversal from the first listed vertex (empty for an
/// empty graph).
pub fn bfs_iter(graph: &DirectedGraph) -> (r: BreadthFirstIter)
    requires
        graph.wf(),
    ensures
        r.wf(),
        r.graph_of() == *graph,
        r.yielded().len() == 0,
        graph.vertex_set() == Set::<u64>::empty() ==> r.frontier().len() == 0,
        graph.vertex_set() != Set::<u64>::empty() ==> r.frontier() == seq![graph.vertex_list()[0]]
            && r.start_of() == graph.vertex_list()[0].0,
{
    match graph.head_option() {
        None => empty_bfs_iter(graph, Ghost(0)),
        Some(head) => bfs_iter_from(graph, head),
    }
}

/// Breadth-first traversal from `start_vertex`.
pub fn bfs_iter_from(graph: &DirectedGraph, start_vertex: VertexId) -> (r: BreadthFirstIter)
    requires
        graph.wf(),
    ensures
        r.wf(),
        r.graph_of() == *graph,
        r.start_of() == start_vertex.0,
        r.yielded().len() == 0,
        r.frontier() == seq![start_vertex],
        r.seen() == set![start_vertex.0],
{
    let mut iter = empty_bfs_iter(graph, Ghost(start_vertex.0));
    iter.queue.push(start_vertex);
    iter.visited.insert(start_vertex.0);
    iter.pushed = Ghost(Seq::empty().push(start_vertex));
    proof {
        assert(iter.queue@ =~= seq![start_vertex]);
        assert(iter.visited@ =~= set![start_vertex.0]);
        assert(iter.pushed@ =~= seq![start_vertex]);
        assert(iter.pushed@.subrange(0, 1) =~= iter.pushed@);
        assert(walk_from(*graph, start_vertex.0, seq![start_vertex]));
        assert(reachable(*graph, start_vertex.0, start_vertex));
        assert forall|x: u64| #[trigger] iter.visited@.contains(x) <==> iter.pushed@.contains(VertexId(x)) by {
            if iter.pushed@.contains(VertexId(x)) {
                let k = choose|k: int| 0 <= k < 1 && iter.pushed@[k] == VertexId(x);
            }
            if x == start_vertex.0 {
                assert(iter.pushed@[0] == VertexId(x));
            }
        }
    }
    iter
}

fn empty_bfs_iter(graph: &DirectedGraph, start: Ghost<u64>) -> (r: BreadthFirstIter)
    requires
        graph.wf(),
    ensures
        r.wf(),
        r.graph_of() == *graph,
        r.start_of() == start@,
        r.frontier().len() == 0,
        r.yielded().len() == 0,
        r.seen() == Set::<u64>::empty(),
        r.pushed@ == Seq::<VertexId>::empty(),
        r.served@ == 0,
{
    let r = BreadthFirstIter {
        queue: Queue::new(),
        visited: HashSet::new(),
        graph: graph,
        pushed: Ghost(Seq::empty()),
        served: Ghost(0),
        start: start,
    };
    proof {
        assert(r.queue@ =~= Seq::<VertexId>::empty().subrange(0, 0));
    }
    r
}

/// `q` is `p` followed by one more vertex, reached along an edge of `g`
/// and not already on `p`.
pub open spec fn extends_by_edge(g: DirectedGraph, p: Seq<VertexId>, q: Seq<VertexId>) -> bool {
    &&& p.len() > 0
    &&& q.len() == p.len() + 1
    &&& q.drop_last() == p
    &&& !p.contains(q.last())
    &&& g.edge_set().contains(Edge(p.last(), q.last()))
}

/// Yields every simple path from the start vertex, shortest first.
pub struct BreadthFirstPathIter<'a> {
    queue: Queue<Path>,
    graph: &'a DirectedGraph,
}

impl<'a> BreadthFirstPathIter<'a> {
    /// The paths waiting to be yielded, next first.
    pub closed spec fn frontier(&self) -> Seq<Path> {
        self.queue@
    }

    pub closed spec fn graph_of(&self) -> DirectedGraph {
        *self.graph
    }

    pub closed spec fn wf(&self) -> bool {
        &&& self.graph.wf()
        &&& forall|i: int| 0 <= i < self.queue@.len() ==> (#[trigger] self.queue@[i])@.len() > 0
    }

    /// Yields the next path, and queues its one-edge extensions to vertices
    /// not on it.
    pub fn next(&mut self) -> (r: Option<Path>)
        requires
            old(self).wf(),
        ensures
            final(self).wf(),
            final(self).graph_of() == old(self).graph_of(),
            old(self).frontier().len() == 0 ==> r is None,
            old(self).frontier().len() > 0 ==> {
                &&& r == Some(old(self).frontier()[0])
                &&& final(self).frontier().len() >= old(self).frontier().len() - 1
                &&& forall|k: int| 0 <= k < old(self).frontier().len() - 1 ==>
                        #[trigger] final(self).frontier()[k] == old(self).frontier()[k + 1]
                &&& forall|k: int| old(self).frontier().len() - 1 <= k < final(self).frontier().len() ==>
                        extends_by_edge(old(self).graph_of(), old(self).frontier()[0]@, (#[trigger] final(self).frontier()[k])@)
                &&& forall|v: VertexId| #[trigger] old(self).graph_of().edge_set().contains(Edge(old(self).frontier()[0]@.last(), v))
                        && !old(self).frontier()[0]@.contains(v) ==> exists|k: int|
                        old(self).frontier().len() - 1 <= k < final(self).frontier().len()
                        && (#[trigger] final(self).frontier()[k])@ == old(self).frontier()[0]@.push(v)
            },
    {
        let ghost q0 = self.queue@;
        match self.queue.pop() {
            None => None,
            Some(path) => {
                let vid = match path.last() {
                    Some(v) => *v,
                    None => VertexId(0),
                };
                let out = self.graph.outbound_edges(vid);
                let ghost q1 = self.queue@;
                let ghost g0 = *self.graph;
                let mut j: usize = 0;
                while j < out.len()
                    invariant
                        self.graph.wf(),
                        *self.graph == g0,
                        j <= out@.len(),
                        path@.len() > 0,
                        vid == path@.last(),
                        forall|e: Edge| #[trigger] out@.contains(e) <==> (self.graph.edge_set().contains(e) && e.src() == vid.0),
                        self.queue@.len() >= q1.len(),
                        forall|k: int| 0 <= k < q1.len() ==> #[trigger] self.queue@[k] == q1[k],
                        forall|i: int| 0 <= i < self.queue@.len() ==> (#[trigger] self.queue@[i])@.len() > 0,
                        forall|k: int| q1.len() <= k < self.queue@.len() ==>
                            extends_by_edge(*self.graph, path@, (#[trigger] self.queue@[k])@),
                        forall|m: int| 0 <= m < j && !path@.contains((#[trigger] out@[m]).1) ==> exists|k: int|
                            q1.len() <= k < self.queue@.len() && (#[trigger] self.queue@[k])@ == path@.push(out@[m].1),
                    decreases out@.len() - j,
                {
                    let v = out[j].1;
                    proof {
                        assert(out@.contains(out@[j as int]));
                        assert(out@[j as int] == Edge(vid, v));
                    }
                    if !path.contains_vertex(&v) {
                        let ext = path.append(v);
                        let ghost qb = self.queue@;
                        self.queue.push(ext);
                        proof {
                            assert(ext@.drop_last() =~= path@);
                            assert forall|k: int| q1.len() <= k < self.queue@.len() implies
                                extends_by_edge(*self.graph, path@, (#[trigger] self.queue@[k])@) by {
                                if k < qb.len() {
                                    assert(self.queue@[k] == qb[k]);
                                } else {
                                    assert(self.queue@[k] == ext);
                                }
                            }
                            assert forall|m: int| 0 <= m < j + 1 && !path@.contains((#[trigger] out@[m]).1) implies exists|k: int|
                                q1.len() <= k < self.queue@.len() && (#[trigger] self.queue@[k])@ == path@.push(out@[m].1) by {
                                if m < j {
                                    let k = choose|k: int| q1.len() <= k < qb.len() && (#[trigger] qb[k])@ == path@.push(out@[m].1);
                                    assert(self.queue@[k] == qb[k]);
                                } else {
                                    assert(self.queue@[qb.len() as int] == ext);
                                }
                            }
                        }
                    }
                    j += 1;
                }
                proof {
                    assert forall|k: int| 0 <= k < q0.len() - 1 implies #[trigger] self.queue@[k] == q0[k + 1] by {
                        assert(q1[k] == q0[k + 1]);
                    }
                    assert forall|v: VertexId| #[trigger] self.graph.edge_set().contains(Edge(path@.last(), v)) && !path@.contains(v)
                        implies exists|k: int| q1.len() <= k < self.queue@.len() && (#[trigger] self.queue@[k])@ == path@.push(v) by {
                        assert(out@.contains(Edge(vid, v)));
                        let m = choose|m: int| 0 <= m < out@.len() && out@[m] == Edge(vid, v);
                        assert(out@[m].1 == v);
                    }
                }
                Some(path)
            },
        }
    }
}

/// Breadth-first traversal of the simple paths from `start_vertex`.
pub fn bfs_path_iter_from(graph: &DirectedGraph, start_vertex: VertexId) -> (r: BreadthFirstPathIter)
    requires
        graph.wf(),
    ensures
        r.wf(),
        r.graph_of() == *graph,
        r.frontier().len() == 1,
        r.frontier()[0]@ == seq![start_vertex],
{
    let mut iter = empty_bfs_path_iter(graph);
    let mut start: Vec<VertexId> = Vec::new();
    start.push(start_vertex);
    let p = Path::from(&start);
    iter.queue.push(p);
    proof {
        assert(iter.queue@[0]@ =~= seq![start_vertex]);
    }
    iter
}

fn empty_bfs_path_iter(graph: &DirectedGraph) -> (r: BreadthFirstPathIter)
    requires
        graph.wf(),
    ensures
        r.wf(),
        r.graph_of() == *graph,
        r.frontier().len() == 0,
{
    BreadthFirstPathIter { queue: Queue::new(), graph: graph }
}

} // verus!
