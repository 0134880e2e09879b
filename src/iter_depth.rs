//! Depth-first traversals: of vertices, and of simple paths.
use vstd::prelude::*;
use std::collections::HashSet;
use crate::graph::{Edge, VertexId};
use crate::directed_graph::{DirectedGraph, is_walk, reachable, walk_from};
use crate::path::Path;
use crate::search_queue::Stack;
use crate::iter_breadth::extends_by_edge;
use crate::cycle::{potential, power, lemma_power_positive, max_degree_out};

verus! {

broadcast use vstd::std_specs::hash::group_hash_axioms;

/// Yields vertices reachable from the start, each once, in depth-first
/// order.
pub struct DepthFirstIter<'a> {
    stack: Stack<VertexId>,
    visited: HashSet<u64>,
    graph: &'a DirectedGraph,
    done: Ghost<Seq<VertexId>>,
    start: Ghost<u64>,
}

impl<'a> DepthFirstIter<'a> {
    /// The vertices waiting to be yielded, next last.
    pub closed spec fn frontier(&self) -> Seq<VertexId> {
        self.stack@
    }

    /// The vertices already pushed once.
    pub closed spec fn seen(&self) -> Set<u64> {
        self.visited@
    }

    /// The vertices yielded so far, in order.
    pub closed spec fn yielded(&self) -> Seq<VertexId> {
        self.done@
    }

    pub closed spec fn graph_of(&self) -> DirectedGraph {
        *self.graph
    }

    /// The vertex the traversal starts from.
    pub closed spec fn start_of(&self) -> u64 {
        self.start@
    }

    pub closed spec fn wf(&self) -> bool {
        &&& self.graph.wf()
        &&& self.stack@.no_duplicates()
        &&& self.done@.no_duplicates()
        &&& forall|i: int| 0 <= i < self.stack@.len() ==> !self.done@.contains(#[trigger] self.stack@[i])
        &&& forall|x: u64| #[trigger] self.visited@.contains(x) <==>
                (self.stack@.contains(VertexId(x)) || self.done@.contains(VertexId(x)))
        &&& forall|i: int| 0 <= i < self.stack@.len() ==> reachable(*self.graph, self.start@, #[trigger] self.stack@[i])
        &&& forall|k: int, e: Edge| 0 <= k < self.done@.len() && #[trigger] self.graph.edge_set().contains(e) && e.0 == #[trigger] self.done@[k]
                ==> self.visited@.contains(e.1.0)
        &&& self.done@.len() > 0 ==> self.done@[0] == VertexId(self.start@)
        &&& self.done@.len() == 0 ==> self.stack@.len() <= 1 && (self.stack@.len() == 1 ==> self.stack@[0] == VertexId(self.start@))
    }

    /// Yields the next vertex, and pushes its successors not seen yet.
    pub fn next(&mut self) -> (r: Option<VertexId>)
        requires
            old(self).wf(),
        ensures
            final(self).wf(),
            final(self).graph_of() == old(self).graph_of(),
            final(self).start_of() == old(self).start_of(),
            old(self).frontier().len() == 0 ==> r is None && final(self).frontier() == old(self).frontier()
                && final(self).seen() == old(self).seen() && final(self).yielded() == old(self).yielded(),
            old(self).frontier().len() > 0 ==> {
                &&& r == Some(old(self).frontier().last())
                &&& forall|x: u64| #[trigger] final(self).seen().contains(x) <==>
                        (old(self).seen().contains(x) || old(self).graph_of().edge_set().contains(Edge(old(self).frontier().last(), VertexId(x))))
            },
            r matches Some(v) ==> {
                &&& reachable(old(self).graph_of(), old(self).start_of(), v)
                &&& !old(self).yielded().contains(v)
                &&& final(self).yielded() == old(self).yielded().push(v)
            },
            r is None && old(self).yielded().len() > 0 ==> forall|p: Seq<VertexId>|
                #[trigger] walk_from(old(self).graph_of(), old(self).start_of(), p) ==> old(self).yielded().contains(p.last()),
    {
        let ghost s0 = self.stack@;
        let ghost d0 = self.done@;
        match self.stack.pop() {
            None => {
                proof {
                    if d0.len() > 0 {
                        assert(d0[0] == VertexId(self.start@));
                        assert(d0.contains(VertexId(self.start@)));
                        assert forall|e: Edge| #[trigger] self.graph.edge_set().contains(e) && d0.contains(e.0) implies d0.contains(e.1) by {
                            let k = choose|k: int| 0 <= k < d0.len() && d0[k] == e.0;
                            assert(self.visited@.contains(e.1.0));
                            assert(e.1 == VertexId(e.1.0));
                        }
                        assert forall|p: Seq<VertexId>| #[trigger] walk_from(*self.graph, self.start@, p) implies d0.contains(p.last()) by {
                            crate::directed_graph::lemma_closed_list_holds_walk_ends(*self.graph, self.start@, d0, p);
                        }
                    }
                }
                None
            },
            Some(vid) => {
                proof {
                    assert(vid == s0.last());
                    assert(s0[s0.len() - 1] == vid);
                    assert(!d0.contains(vid));
                    assert(reachable(*self.graph, self.start@, vid));
                    crate::directed_graph::lemma_drop_last(s0);
                    crate::directed_graph::lemma_push_contains(d0, vid);
                }
                self.done = Ghost(d0.push(vid));
                proof {
                    assert forall|i: int| 0 <= i < self.stack@.len() implies !self.done@.contains(#[trigger] self.stack@[i]) by {
                        assert(self.stack@[i] == s0[i]);
                        assert(s0[i] != s0[s0.len() - 1]);
                    }
                    assert forall|i: int| 0 <= i < self.stack@.len() implies reachable(*self.graph, self.start@, #[trigger] self.stack@[i]) by {
                        assert(self.stack@[i] == s0[i]);
                    }
                }
                let out = self.graph.outbound_edges(vid);
                let ghost seen0 = self.visited@;
                proof {
                    if d0.len() == 0 {
                        assert(s0.len() == 1);
                        assert(vid == s0[0]);
                    }
                }
                let ghost g0 = *self.graph;
                let mut j: usize = 0;
                while j < out.len()
                    invariant
                        self.graph.wf(),
                        *self.graph == g0,
                        self.start == old(self).start,
                        self.done@ == d0.push(vid),
                        reachable(*self.graph, self.start@, vid),
                        j <= out@.len(),
                        forall|e: Edge| #[trigger] out@.contains(e) <==> (self.graph.edge_set().contains(e) && e.src() == vid.0),
                        self.stack@.no_duplicates(),
                        self.done@.no_duplicates(),
                        forall|i: int| 0 <= i < self.stack@.len() ==> !self.done@.contains(#[trigger] self.stack@[i]),
                        forall|x: u64| #[trigger] self.visited@.contains(x) <==>
                            (self.stack@.contains(VertexId(x)) || self.done@.contains(VertexId(x))),
                        forall|i: int| 0 <= i < self.stack@.len() ==> reachable(*self.graph, self.start@, #[trigger] self.stack@[i]),
                        forall|x: u64| #[trigger] self.visited@.contains(x) <==>
                            (seen0.contains(x) || exists|k: int| 0 <= k < j && #[trigger] out@[k].dst() == x),
                        forall|k: int, e: Edge| 0 <= k < d0.len() && #[trigger] self.graph.edge_set().contains(e) && e.0 == #[trigger] d0[k]
                            ==> seen0.contains(e.1.0),
                        d0.len() > 0 ==> d0[0] == VertexId(self.start@),
                        d0.len() == 0 ==> vid == VertexId(self.start@),
                    decreases out@.len() - j,
                {
                    let v = out[j].1;
                    if !self.visited.contains(&v.0) {
                        let ghost sb = self.stack@;
                        self.visited.insert(v.0);
                        self.stack.push(v);
                        proof {
                            assert(out@.contains(out@[j as int]));
                            assert(out@[j as int] == Edge(vid, v));
                            crate::directed_graph::lemma_push_contains(sb, v);
                            let w = choose|w: Seq<VertexId>| #[trigger] walk_from(*self.graph, self.start@, w) && w.last() == vid;
                            crate::directed_graph::lemma_walk_push(*self.graph, self.start@, w, v);
                            assert(walk_from(*self.graph, self.start@, w.push(v)) && w.push(v).last() == v);
                            assert forall|i: int| 0 <= i < self.stack@.len() implies reachable(*self.graph, self.start@, #[trigger] self.stack@[i]) by {
                                if i < sb.len() {
                                    assert(self.stack@[i] == sb[i]);
                                }
                            }
                            assert forall|i: int| 0 <= i < self.stack@.len() implies !self.done@.contains(#[trigger] self.stack@[i]) by {
                                if i < sb.len() {
                                    assert(self.stack@[i] == sb[i]);
                                } else {
                                    assert(!self.done@.contains(VertexId(v.0)));
                                }
                            }
                        }
                    }
                    proof {
                        assert(out@[j as int].dst() == v.0);
                    }
                    j += 1;
                }
                proof {
                    assert forall|x: u64| #[trigger] self.visited@.contains(x) <==>
                        (seen0.contains(x) || self.graph.edge_set().contains(Edge(vid, VertexId(x)))) by {
                        if self.graph.edge_set().contains(Edge(vid, VertexId(x))) {
                            assert(out@.contains(Edge(vid, VertexId(x))));
                            let k = choose|k: int| 0 <= k < out@.len() && out@[k] == Edge(vid, VertexId(x));
                            assert(out@[k].dst() == x);
                        }
                        if exists|k: int| 0 <= k < out@.len() && #[trigger] out@[k].dst() == x {
                            let k = choose|k: int| 0 <= k < out@.len() && #[trigger] out@[k].dst() == x;
                            assert(out@.contains(out@[k]));
                            assert(out@[k] == Edge(vid, VertexId(x)));
                        }
                    }
                    assert forall|k: int, e: Edge| 0 <= k < self.done@.len() && #[trigger] self.graph.edge_set().contains(e) && e.0 == #[trigger] self.done@[k]
                        implies self.visited@.contains(e.1.0) by {
                        if k < d0.len() {
                            assert(self.done@[k] == d0[k]);
                        } else {
                            assert(self.done@[k] == vid);
                            assert(e == Edge(vid, VertexId(e.1.0)));
                        }
                    }
                    if d0.len() == 0 {
                        assert(self.done@[0] == vid);
                    } else {
                        assert(self.done@[0] == d0[0]);
                    }
                }
                Some(vid)
            },
        }
    }
}

/// Depth-first traversal from the first listed vertex (empty for an
/// empty graph).
pub fn dfs_iter(graph: &DirectedGraph) -> (r: DepthFirstIter)
    requires
        graph.wf(),
    ensures
        r.wf(),
        r.graph_of() == *graph,
        r.yielded().len() == 0,
        graph.vertex_set() == Set::<u64>::empty() ==> r.frontier().len() == 0,
        graph.vertex_set() != Set::<u64>::empty() ==> r.frontier() == seq![graph.vertex_list()[0]]
            && r.start_of() == graph.vertex_list()[0].0,
{
    match graph.head_option() {
        None => empty_dfs_iter(graph, Ghost(0)),
        Some(head) => dfs_iter_from(graph, head),
    }
}

/// Depth-first traversal from `start_vertex`.
pub fn dfs_iter_from(graph: &DirectedGraph, start_vertex: VertexId) -> (r: DepthFirstIter)
    requires
        graph.wf(),
    ensures
        r.wf(),
        r.graph_of() == *graph,
        r.start_of() == start_vertex.0,
        r.yielded().len() == 0,
        r.frontier() == seq![start_vertex],
        r.seen() == set![start_vertex.0],
{
    let mut iter = empty_dfs_iter(graph, Ghost(start_vertex.0));
    iter.stack.push(start_vertex);
    iter.visited.insert(start_vertex.0);
    proof {
        assert(iter.stack@ =~= seq![start_vertex]);
        assert(iter.visited@ =~= set![start_vertex.0]);
        assert(walk_from(*graph, start_vertex.0, seq![start_vertex]));
        assert(reachable(*graph, start_vertex.0, start_vertex));
        assert forall|x: u64| #[trigger] iter.visited@.contains(x) <==>
            (iter.stack@.contains(VertexId(x)) || iter.done@.contains(VertexId(x))) by {
            if x == start_vertex.0 {
                assert(iter.stack@[0] == VertexId(x));
            }
        }
    }
    iter
}

fn empty_dfs_iter(graph: &DirectedGraph, start: Ghost<u64>) -> (r: DepthFirstIter)
    requires
        graph.wf(),
    ensures
        r.wf(),
        r.graph_of() == *graph,
        r.start_of() == start@,
        r.frontier().len() == 0,
        r.yielded().len() == 0,
        r.seen() == Set::<u64>::empty(),
        r.done@ == Seq::<VertexId>::empty(),
{
    DepthFirstIter { stack: Stack::new(), visited: HashSet::new(), graph: graph, done: Ghost(Seq::empty()), start: start }
}

/// `p` is a walk of `g` from `s` that meets no vertex twice.
pub open spec fn simple_walk_from(g: DirectedGraph, s: u64, p: Seq<VertexId>) -> bool {
    walk_from(g, s, p) && p.no_duplicates()
}

/// Some path of `stack` is a prefix of `p`.
pub open spec fn stacked_prefix(stack: Seq<Path>, p: Seq<VertexId>) -> bool {
    exists|i: int| 0 <= i < stack.len() && 1 <= stack[i]@.len() <= p.len()
        && #[trigger] stack[i]@ == p.subrange(0, stack[i]@.len() as int)
}

/// `a` is a non-empty prefix of `b` (possibly `b` itself).
pub open spec fn is_prefix(a: Seq<VertexId>, b: Seq<VertexId>) -> bool {
    1 <= a.len() <= b.len() && a == b.subrange(0, a.len() as int)
}

/// A prefix of a one-vertex extension of `p` is the extension itself or a
/// prefix of `p`; the extension's prefixes are those of `p` and itself.
proof fn lemma_extension_prefixes(p: Seq<VertexId>, ext: Seq<VertexId>, r: Seq<VertexId>)
    requires
        p.len() >= 1,
        ext.len() == p.len() + 1,
        ext.drop_last() == p,
    ensures
        is_prefix(p, ext),
        is_prefix(r, ext) ==> r == ext || is_prefix(r, p),
        is_prefix(ext, r) ==> is_prefix(p, r),
{
    assert(ext.subrange(0, p.len() as int) =~= p);
    if is_prefix(r, ext) && r != ext {
        assert(r.len() < ext.len()) by {
            if r.len() == ext.len() {
                assert(r =~= ext);
            }
        }
        assert(r =~= p.subrange(0, r.len() as int));
    }
    if is_prefix(ext, r) {
        assert(p =~= r.subrange(0, p.len() as int));
    }
}

/// Yields every simple path from the start vertex, in depth-first order.
pub struct DepthFirstPathIter<'a> {
    stack: Stack<Path>,
    graph: &'a DirectedGraph,
    done: Ghost<Seq<Seq<VertexId>>>,
    bound: Ghost<nat>,
    start: Ghost<u64>,
}

impl<'a> DepthFirstPathIter<'a> {
    /// The paths waiting to be yielded, next first.
    pub closed spec fn frontier(&self) -> Seq<Path> {
        self.stack@
    }

    pub closed spec fn graph_of(&self) -> DirectedGraph {
        *self.graph
    }

    /// Decreases with every path yielded.
    pub closed spec fn remaining(&self) -> nat {
        potential(self.stack@, self.bound@ + 1, self.graph.vertex_set().len() + 1)
    }

    /// The paths yielded so far, in order.
    pub closed spec fn yielded(&self) -> Seq<Seq<VertexId>> {
        self.done@
    }

    /// The vertex every path starts from.
    pub closed spec fn start_of(&self) -> u64 {
        self.start@
    }

    pub closed spec fn wf(&self) -> bool {
        &&& self.graph.wf()
        &&& forall|v: u64| #[trigger] self.graph.out_seq(v).len() <= self.bound@
        &&& forall|i: int| 0 <= i < self.stack@.len() ==> {
                &&& (#[trigger] self.stack@[i])@.len() > 0
                &&& self.stack@[i]@.no_duplicates()
                &&& is_walk(*self.graph, self.stack@[i]@)
                &&& forall|k: int| 0 <= k < self.stack@[i]@.len() ==>
                        self.graph.vertex_set().insert(self.start@).contains(#[trigger] self.stack@[i]@[k].0)
            }
        &&& forall|p: Seq<VertexId>| #[trigger] simple_walk_from(*self.graph, self.start@, p) ==>
                stacked_prefix(self.stack@, p) || self.done@.contains(p)
        &&& forall|i: int, j: int| 0 <= i < self.stack@.len() && 0 <= j < self.stack@.len() && i != j
                ==> !is_prefix(#[trigger] self.stack@[i]@, #[trigger] self.stack@[j]@)
        &&& forall|i: int, k: int| 0 <= i < self.stack@.len() && 0 <= k < self.done@.len()
                ==> !is_prefix(#[trigger] self.stack@[i]@, #[trigger] self.done@[k])
        &&& self.done@.no_duplicates()
        &&& forall|i: int| 0 <= i < self.stack@.len() ==> (#[trigger] self.stack@[i])@[0].0 == self.start@
    }

    /// Yields the next path, and pushes its one-edge extensions to vertices
    /// not on it. No path is yielded twice.
    pub fn next(&mut self) -> (r: Option<Path>)
        requires
            old(self).wf(),
        ensures
            final(self).wf(),
            final(self).graph_of() == old(self).graph_of(),
            final(self).start_of() == old(self).start_of(),
            old(self).frontier().len() == 0 ==> r is None,
            r is None ==> forall|p: Seq<VertexId>| #[trigger] simple_walk_from(old(self).graph_of(), old(self).start_of(), p)
                ==> old(self).yielded().contains(p),
            r is None ==> final(self).yielded() == old(self).yielded(),
            r matches Some(p) ==> final(self).yielded() == old(self).yielded().push(p@),
            r matches Some(p) ==> !old(self).yielded().contains(p@) && p@[0].0 == old(self).start_of(),
            final(self).yielded().no_duplicates(),
            old(self).frontier().len() > 0 ==> {
                &&& r == Some(old(self).frontier().last())
                &&& final(self).frontier().len() >= old(self).frontier().len() - 1
                &&& forall|k: int| 0 <= k < old(self).frontier().len() - 1 ==>
                        #[trigger] final(self).frontier()[k] == old(self).frontier()[k]
                &&& forall|k: int| old(self).frontier().len() - 1 <= k < final(self).frontier().len() ==>
                        extends_by_edge(old(self).graph_of(), old(self).frontier().last()@, (#[trigger] final(self).frontier()[k])@)
                &&& final(self).remaining() < old(self).remaining()
                &&& old(self).frontier().last()@.no_duplicates()
                &&& old(self).frontier().last()@.len() > 0
                &&& is_walk(old(self).graph_of(), old(self).frontier().last()@)
                &&& forall|k: int| 0 <= k < old(self).frontier().last()@.len() ==>
                        old(self).graph_of().vertex_set().insert(old(self).start_of()).contains(#[trigger] old(self).frontier().last()@[k].0)
            },
    {
        let ghost q0 = self.stack@;
        let ghost b = self.bound@ + 1;
        let ghost top = self.graph.vertex_set().len() + 1;
        let ghost vs = self.graph.vertex_set().insert(self.start@);
        proof {
            self.graph.lemma_wf_facts();
        }
        let ghost d0 = self.done@;
        match self.stack.pop() {
            None => {
                proof {
                    assert forall|p: Seq<VertexId>| #[trigger] simple_walk_from(*self.graph, self.start@, p) implies
                        d0.contains(p) by {
                        assert(!stacked_prefix(q0, p));
                    }
                }
                None
            },
            Some(path) => {
                self.done = Ghost(d0.push(path@));
                proof {
                    assert(q0.last() == path);
                    crate::directed_graph::lemma_push_contains(d0, path@);
                    crate::directed_graph::lemma_nodup_subset_len(path@, vs);
                    assert(path@.len() <= top);
                    lemma_power_positive(b, (top - path@.len()) as nat);
                    assert(power(b, (top + 1 - path@.len()) as nat) == b * power(b, (top - path@.len()) as nat));
                    assert(potential(q0, b, top) == potential(q0.drop_last(), b, top) + power(b, (top + 1 - path@.len()) as nat));
                }
                let vid = match path.last() {
                    Some(v) => *v,
                    None => VertexId(0),
                };
                let out = self.graph.outbound_edges(vid);
                let ghost q1 = self.stack@;
                let ghost g0 = *self.graph;
                let ghost w = power(b, (top - path@.len()) as nat);
                proof {
                    let last = q0.len() - 1;
                    assert(path@ =~= path@.subrange(0, path@.len() as int));
                    assert(is_prefix(path@, path@));
                    assert(path@[0].0 == self.start@);
                    assert forall|i: int| 0 <= i < self.stack@.len() implies (#[trigger] self.stack@[i])@[0].0 == self.start@ by {
                        assert(self.stack@[i] == q0[i]);
                    }
                    assert forall|k: int| 0 <= k < d0.len() implies !is_prefix(path@, #[trigger] d0[k]) by {
                        assert(!is_prefix(q0[last]@, d0[k]));
                    }
                    assert(!d0.contains(path@)) by {
                        if d0.contains(path@) {
                            let k = choose|k: int| 0 <= k < d0.len() && d0[k] == path@;
                            assert(!is_prefix(q0[last]@, d0[k]));
                        }
                    }
                    assert forall|i: int, k: int| 0 <= i < self.stack@.len() && 0 <= k < self.stack@.len() && i != k
                        implies !is_prefix(#[trigger] self.stack@[i]@, #[trigger] self.stack@[k]@) by {
                        assert(self.stack@[i] == q0[i] && self.stack@[k] == q0[k]);
                    }
                    assert forall|i: int| 0 <= i < q1.len() implies !is_prefix(#[trigger] q1[i]@, path@) && !is_prefix(path@, q1[i]@) by {
                        assert(q1[i] == q0[i]);
                        assert(!is_prefix(q0[i]@, q0[last]@));
                        assert(!is_prefix(q0[last]@, q0[i]@));
                    }
                    assert forall|i: int, k: int| 0 <= i < self.stack@.len() && 0 <= k < self.done@.len()
                        implies !is_prefix(#[trigger] self.stack@[i]@, #[trigger] self.done@[k]) by {
                        assert(self.stack@[i] == q0[i]);
                        if k < d0.len() {
                            assert(self.done@[k] == d0[k]);
                        } else {
                            assert(self.done@[k] == q0[last]@);
                        }
                    }
                    assert forall|p: Seq<VertexId>| #[trigger] simple_walk_from(*self.graph, self.start@, p) implies
                        stacked_prefix(self.stack@, p) || self.done@.contains(p)
                        || (p.len() > path@.len() && p.subrange(0, path@.len() as int) == path@
                            && forall|m: int| 0 <= m < 0 ==> (#[trigger] out@[m]).1 != p[path@.len() as int]) by {
                        if stacked_prefix(q0, p) {
                            let i = choose|i: int| 0 <= i < q0.len() && 1 <= q0[i]@.len() <= p.len()
                                && #[trigger] q0[i]@ == p.subrange(0, q0[i]@.len() as int);
                            if i < q0.len() - 1 {
                                assert(self.stack@[i] == q0[i]);
                            } else if p.len() == path@.len() {
                                assert(p =~= path@);
                                assert(self.done@[d0.len() as int] == p);
                            }
                        } else {
                            assert(d0.contains(p));
                            let k = choose|k: int| 0 <= k < d0.len() && d0[k] == p;
                            assert(self.done@[k] == p);
                        }
                    }
                }
                let mut j: usize = 0;
                while j < out.len()
                    invariant
                        self.graph.wf(),
                        *self.graph == g0,
                        self.bound == old(self).bound,
                        self.start == old(self).start,
                        b == self.bound@ + 1,
                        top == self.graph.vertex_set().len() + 1,
                        vs == self.graph.vertex_set().insert(self.start@),
                        forall|v: u64| #[trigger] self.graph.out_seq(v).len() <= self.bound@,
                        out@ == self.graph.out_seq(vid.0),
                        path@.no_duplicates(),
                        path@.len() <= top,
                        forall|k: int| 0 <= k < path@.len() ==> vs.contains(#[trigger] path@[k].0),
                        w == power(b, (top - path@.len()) as nat),
                        forall|i: int| 0 <= i < self.stack@.len() ==> {
                            &&& (#[trigger] self.stack@[i])@.no_duplicates()
                            &&& is_walk(*self.graph, self.stack@[i]@)
                            &&& forall|k: int| 0 <= k < self.stack@[i]@.len() ==> vs.contains(#[trigger] self.stack@[i]@[k].0)
                        },
                        is_walk(*self.graph, path@),
                        potential(self.stack@, b, top) <= potential(q1, b, top) + j * w,
                        j <= out@.len(),
                        path@.len() > 0,
                        vid == path@.last(),
                        forall|e: Edge| #[trigger] out@.contains(e) <==> (self.graph.edge_set().contains(e) && e.src() == vid.0),
                        self.stack@.len() >= q1.len(),
                        forall|k: int| 0 <= k < q1.len() ==> #[trigger] self.stack@[k] == q1[k],
                        forall|i: int| 0 <= i < self.stack@.len() ==> (#[trigger] self.stack@[i])@.len() > 0,
                        forall|k: int| q1.len() <= k < self.stack@.len() ==>
                            extends_by_edge(*self.graph, path@, (#[trigger] self.stack@[k])@),
                        self.done@ == d0.push(path@),
                        q1 == q0.drop_last(),
                        path == q0.last(),
                        q0.len() > 0,
                        forall|p: Seq<VertexId>| #[trigger] simple_walk_from(*self.graph, self.start@, p) ==>
                            stacked_prefix(self.stack@, p) || self.done@.contains(p)
                            || (p.len() > path@.len() && p.subrange(0, path@.len() as int) == path@
                                && forall|m: int| 0 <= m < j ==> (#[trigger] out@[m]).1 != p[path@.len() as int]),
                        forall|i: int, k: int| 0 <= i < self.stack@.len() && 0 <= k < self.stack@.len() && i != k
                            ==> !is_prefix(#[trigger] self.stack@[i]@, #[trigger] self.stack@[k]@),
                        forall|i: int, k: int| 0 <= i < self.stack@.len() && 0 <= k < self.done@.len()
                            ==> !is_prefix(#[trigger] self.stack@[i]@, #[trigger] self.done@[k]),
                        forall|i: int| 0 <= i < q1.len() ==> !is_prefix(#[trigger] q1[i]@, path@) && !is_prefix(path@, q1[i]@),
                        forall|k: int| q1.len() <= k < self.stack@.len() ==> exists|m: int| 0 <= m < j
                            && (#[trigger] self.stack@[k])@.last() == (#[trigger] out@[m]).1,
                        out@.no_duplicates(),
                        !d0.contains(path@),
                        d0.no_duplicates(),
                        forall|k: int| 0 <= k < d0.len() ==> !is_prefix(path@, #[trigger] d0[k]),
                        forall|i: int| 0 <= i < self.stack@.len() ==> (#[trigger] self.stack@[i])@[0].0 == self.start@,
                        path@[0].0 == self.start@,
                    decreases out@.len() - j,
                {
                    let v = out[j].1;
                    let ghost sj = self.stack@;
                    proof {
                        assert(out@.contains(out@[j as int]));
                        assert(out@[j as int] == Edge(vid, v));
                    }
                    if !path.contains_vertex(&v) {
                        let ext = path.append(v);
                        let ghost qb = self.stack@;
                        proof {
                            self.graph.lemma_wf_facts();
                            crate::directed_graph::lemma_push_contains(path@, v);
                            assert forall|k: int| 0 <= k < ext@.len() implies vs.contains(#[trigger] ext@[k].0) by {
                                if k < path@.len() {
                                    assert(ext@[k] == path@[k]);
                                }
                            }
                            crate::cycle::lemma_potential_push(qb, ext, b, top);
                            assert((top + 1 - ext@.len()) as nat == (top - path@.len()) as nat);
                            assert(j * w + w == (j + 1) * w) by (nonlinear_arith);
                        }
                        self.stack.push(ext);
                        proof {
                            assert(ext@.drop_last() =~= path@);
                            assert forall|x: int| 0 <= x && x + 1 < ext@.len() implies
                                #[trigger] self.graph.edge_set().contains(Edge(ext@[x], ext@[x + 1])) by {
                                if x + 1 < path@.len() {
                                    assert(ext@[x] == path@[x] && ext@[x + 1] == path@[x + 1]);
                                } else {
                                    assert(ext@[x] == vid && ext@[x + 1] == v);
                                }
                            }
                            assert forall|i: int| 0 <= i < self.stack@.len() implies {
                                &&& (#[trigger] self.stack@[i])@.no_duplicates()
                                &&& is_walk(*self.graph, self.stack@[i]@)
                                &&& forall|k: int| 0 <= k < self.stack@[i]@.len() ==> vs.contains(#[trigger] self.stack@[i]@[k].0)
                            } by {
                                if i < qb.len() {
                                    assert(self.stack@[i] == qb[i]);
                                }
                            }
                            assert forall|k: int| q1.len() <= k < self.stack@.len() implies
                                extends_by_edge(*self.graph, path@, (#[trigger] self.stack@[k])@) by {
                                if k < qb.len() {
                                    assert(self.stack@[k] == qb[k]);
                                } else {
                                    assert(self.stack@[k] == ext);
                                }
                            }
                            let n = qb.len() as int;
                            assert(self.stack@[n] == ext);
                            assert(ext@[0] == path@[0]);
                            assert forall|i: int| 0 <= i < self.stack@.len() implies (#[trigger] self.stack@[i])@[0].0 == self.start@ by {
                                if i < n {
                                    assert(self.stack@[i] == qb[i]);
                                }
                            }
                            assert forall|i: int| 0 <= i < n implies
                                !is_prefix(#[trigger] self.stack@[i]@, ext@) && !is_prefix(ext@, self.stack@[i]@) by {
                                let r = self.stack@[i]@;
                                assert(self.stack@[i] == qb[i]);
                                lemma_extension_prefixes(path@, ext@, r);
                                if i < q1.len() {
                                    assert(qb[i] == q1[i]);
                                    if r == ext@ {
                                        assert(is_prefix(path@, r));
                                    }
                                } else {
                                    let m = choose|m: int| 0 <= m < j && (#[trigger] qb[i])@.last() == (#[trigger] out@[m]).1;
                                    assert(extends_by_edge(*self.graph, path@, r));
                                    assert(out@.contains(out@[m]));
                                    assert(out@[m] == Edge(vid, r.last()));
                                    assert(out@[m] != out@[j as int]);
                                    assert(r.last() != v);
                                    assert(r.len() == ext@.len());
                                    if is_prefix(r, ext@) {
                                        assert(r =~= ext@);
                                    }
                                    if is_prefix(ext@, r) {
                                        assert(r =~= ext@);
                                    }
                                }
                            }
                            assert forall|i: int, k: int| 0 <= i < self.stack@.len() && 0 <= k < self.stack@.len() && i != k
                                implies !is_prefix(#[trigger] self.stack@[i]@, #[trigger] self.stack@[k]@) by {
                                if i < n && k < n {
                                    assert(self.stack@[i] == qb[i] && self.stack@[k] == qb[k]);
                                }
                            }
                            assert forall|i: int, k: int| 0 <= i < self.stack@.len() && 0 <= k < self.done@.len()
                                implies !is_prefix(#[trigger] self.stack@[i]@, #[trigger] self.done@[k]) by {
                                if i < n {
                                    assert(self.stack@[i] == qb[i]);
                                } else {
                                    lemma_extension_prefixes(path@, ext@, self.done@[k]);
                                    if k < d0.len() {
                                        assert(self.done@[k] == d0[k]);
                                        assert(!is_prefix(path@, d0[k]));
                                    } else {
                                        assert(self.done@[k] == path@);
                                    }
                                }
                            }
                            assert forall|k: int| q1.len() <= k < self.stack@.len() implies exists|m: int| 0 <= m < j + 1
                                && (#[trigger] self.stack@[k])@.last() == (#[trigger] out@[m]).1 by {
                                if k < n {
                                    assert(self.stack@[k] == qb[k]);
                                    let m = choose|m: int| 0 <= m < j && (#[trigger] qb[k])@.last() == (#[trigger] out@[m]).1;
                                    assert(self.stack@[k]@.last() == out@[m].1);
                                } else {
                                    assert(ext@.last() == out@[j as int].1);
                                }
                            }
                        }
                    } else {
                        proof {
                            assert(j * w <= (j + 1) * w) by (nonlinear_arith);
                            assert forall|k: int| q1.len() <= k < self.stack@.len() implies exists|m: int| 0 <= m < j + 1
                                && (#[trigger] self.stack@[k])@.last() == (#[trigger] out@[m]).1 by {
                                let m = choose|m: int| 0 <= m < j && (#[trigger] self.stack@[k])@.last() == (#[trigger] out@[m]).1;
                            }
                        }
                    }
                    proof {
                        assert forall|p: Seq<VertexId>| #[trigger] simple_walk_from(*self.graph, self.start@, p) implies
                            stacked_prefix(self.stack@, p) || self.done@.contains(p)
                            || (p.len() > path@.len() && p.subrange(0, path@.len() as int) == path@
                                && forall|m: int| 0 <= m < j + 1 ==> (#[trigger] out@[m]).1 != p[path@.len() as int]) by {
                            if stacked_prefix(sj, p) {
                                let i = choose|i: int| 0 <= i < sj.len() && 1 <= sj[i]@.len() <= p.len()
                                    && #[trigger] sj[i]@ == p.subrange(0, sj[i]@.len() as int);
                                assert(self.stack@[i] == sj[i]);
                            } else if !self.done@.contains(p) && p.len() > path@.len() && p.subrange(0, path@.len() as int) == path@
                                && p[path@.len() as int] == v {
                                let n = path@.len() as int;
                                assert(!path@.contains(v)) by {
                                    if path@.contains(v) {
                                        let m = choose|m: int| 0 <= m < n && path@[m] == v;
                                        assert(p[m] == path@[m]);
                                    }
                                }
                                assert(self.stack@.len() == sj.len() + 1);
                                assert(self.stack@[sj.len() as int]@ =~= p.subrange(0, n + 1));
                            }
                        }
                    }
                    j += 1;
                }
                proof {
                    assert forall|k: int| 0 <= k < q0.len() - 1 implies #[trigger] self.stack@[k] == q0[k] by {
                        assert(q1[k] == q0[k]);
                    }
                    assert(out@.len() <= self.bound@);
                    assert(j * w <= self.bound@ * w) by (nonlinear_arith)
                        requires j <= self.bound@;
                    assert(self.bound@ * w < b * w) by (nonlinear_arith)
                        requires b == self.bound@ + 1, w > 0;
                    assert(q1 == q0.drop_last());
                    assert forall|p: Seq<VertexId>| #[trigger] simple_walk_from(*self.graph, self.start@, p) implies
                        stacked_prefix(self.stack@, p) || self.done@.contains(p) by {
                        if !stacked_prefix(self.stack@, p) && !self.done@.contains(p) {
                            let n = path@.len() as int;
                            assert(p[n - 1] == path@[n - 1]);
                            let x = n - 1;
                            assert(self.graph.edge_set().contains(Edge(p[x], p[x + 1])));
                            assert(out@.contains(Edge(vid, p[n])));
                            let m = choose|m: int| 0 <= m < out@.len() && out@[m] == Edge(vid, p[n]);
                            assert(out@[m].1 == p[n]);
                        }
                    }
                    assert(self.done@.no_duplicates()) by {
                        assert forall|a: int, c: int| 0 <= a < self.done@.len() && 0 <= c < self.done@.len() && a != c
                            implies self.done@[a] != self.done@[c] by {
                            if a < d0.len() && c < d0.len() {
                                assert(self.done@[a] == d0[a] && self.done@[c] == d0[c]);
                            } else if a < d0.len() {
                                assert(self.done@[a] == d0[a]);
                            } else {
                                assert(self.done@[c] == d0[c]);
                            }
                        }
                    }
                }
                Some(path)
            },
        }
    }
}

/// Depth-first traversal of the simple paths from `start_vertex`.
pub fn dfs_iter_path_from(graph: &DirectedGraph, start_vertex: VertexId) -> (r: DepthFirstPathIter)
    requires
        graph.wf(),
    ensures
        r.wf(),
        r.graph_of() == *graph,
        r.start_of() == start_vertex.0,
        r.yielded() == Seq::<Seq<VertexId>>::empty(),
        r.frontier().len() == 1,
        r.frontier()[0]@ == seq![start_vertex],
{
    let mut iter = empty_dfs_path_iter(graph, Ghost(start_vertex.0));
    let mut start: Vec<VertexId> = Vec::new();
    start.push(start_vertex);
    let p = Path::from(&start);
    iter.stack.push(p);
    proof {
        assert(iter.stack@[0]@ =~= seq![start_vertex]);
        assert(p@.no_duplicates());
        assert(iter.graph.vertex_set().insert(iter.start@).contains(p@[0].0));
        assert forall|q: Seq<VertexId>| #[trigger] simple_walk_from(*iter.graph, iter.start@, q) implies
            stacked_prefix(iter.stack@, q) || iter.done@.contains(q) by {
            assert(q[0] == start_vertex);
            assert(iter.stack@[0]@ =~= q.subrange(0, 1));
        }
    }
    iter
}

/// An iterator with nothing pushed yet (not yet well formed: the start
/// path is pushed next).
fn empty_dfs_path_iter(graph: &DirectedGraph, start: Ghost<u64>) -> (r: DepthFirstPathIter)
    requires
        graph.wf(),
    ensures
        r.graph.wf(),
        forall|v: u64| #[trigger] r.graph.out_seq(v).len() <= r.bound@,
        r.graph_of() == *graph,
        r.stack@.len() == 0,
        r.done@ == Seq::<Seq<VertexId>>::empty(),
        r.start == start,
{
    let bound = max_degree_out(graph);
    DepthFirstPathIter { stack: Stack::new(), graph: graph, done: Ghost(Seq::empty()), bound: bound, start: start }
}

} // verus!
