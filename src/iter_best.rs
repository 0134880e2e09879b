//! Best-first traversals: the pending path of least score is expanded
//! first. The constrained variant drops the extensions that can no longer
//! satisfy its constraints.
use vstd::prelude::*;
use std::collections::HashSet;
use crate::graph::{Edge, VertexId};
use crate::directed_graph::{DirectedGraph, walk_from, lemma_walk_push};
use crate::path::{Path, ScoredPath};
use crate::constraint::{Constraint, viable};
use crate::search_queue::{MinPriorityQueue, Ranked};

verus! {

broadcast use vstd::std_specs::hash::group_hash_axioms;

/// `f` can score every path of every graph.
pub open spec fn path_score_fn<F: Fn(&DirectedGraph, &Path) -> i64>(f: F) -> bool {
    forall|g: &DirectedGraph, p: &Path| #[trigger] f.requires((g, p))
}

/// `sp`'s score is what `f` gives its path in `g`.
pub open spec fn scored_by<F: Fn(&DirectedGraph, &Path) -> i64>(f: F, g: DirectedGraph, sp: ScoredPath) -> bool {
    f.ensures((&g, &sp.path), sp.score)
}

/// Some pending path of `q` ends at the vertex `x`.
pub open spec fn ends_in(q: Seq<ScoredPath>, x: u64) -> bool {
    exists|i: int| 0 <= i < q.len() && (#[trigger] q[i]).path@.last().0 == x
}

/// Best-first search that visits each vertex once: a vertex reached again
/// is not expanded again.
pub struct BestFirstIter<'a, F: Fn(&DirectedGraph, &Path) -> i64> {
    queue: MinPriorityQueue<ScoredPath>,
    visited: HashSet<u64>,
    graph: &'a DirectedGraph,
    scorefn: F,
    start: Ghost<u64>,
    expanded: Ghost<Set<u64>>,
}

impl<'a, F: Fn(&DirectedGraph, &Path) -> i64> BestFirstIter<'a, F> {
    /// The scored paths waiting to be yielded.
    pub closed spec fn frontier(&self) -> Seq<ScoredPath> {
        self.queue@
    }

    pub closed spec fn graph_of(&self) -> DirectedGraph {
        *self.graph
    }

    /// The vertex every path starts from.
    pub closed spec fn start_of(&self) -> u64 {
        self.start@
    }

    /// Vertices that may still be reached for the first time.
    pub closed spec fn unvisited(&self) -> nat {
        (self.graph.vertex_set().len() + 1 - self.visited@.len()) as nat
    }

    pub closed spec fn wf(&self) -> bool {
        &&& self.graph.wf()
        &&& path_score_fn(self.scorefn)
        &&& self.visited@.subset_of(self.graph.vertex_set().insert(self.start@))
        &&& forall|i: int| 0 <= i < self.queue@.len() ==> walk_from(*self.graph, self.start@, (#[trigger] self.queue@[i]).path@)
        &&& forall|i: int| 0 <= i < self.queue@.len() ==> (#[trigger] self.queue@[i]).path@.len() == 1 || scored_by(self.scorefn, *self.graph, self.queue@[i])
        &&& forall|i: int| 0 <= i < self.queue@.len() ==> self.visited@.contains((#[trigger] self.queue@[i]).path@.last().0)
        &&& self.expanded@.subset_of(self.visited@)
        &&& forall|x: u64| #[trigger] self.visited@.contains(x) ==> self.expanded@.contains(x) || ends_in(self.queue@, x)
        &&& forall|e: Edge| #[trigger] self.graph.edge_set().contains(e) && self.expanded@.contains(e.src()) ==> self.visited@.contains(e.dst())
    }

    /// The vertices whose outbound edges have been followed.
    pub closed spec fn explored(&self) -> Set<u64> {
        self.expanded@
    }

    /// The scoring function.
    pub closed spec fn scorefn_of(&self) -> F {
        self.scorefn
    }

    /// The vertices reached so far.
    pub closed spec fn seen(&self) -> Set<u64> {
        self.visited@
    }

    /// Yields a pending path of least score (the oldest of them), after
    /// queueing its one-edge extensions to vertices not visited yet.
    pub fn next(&mut self) -> (r: Option<ScoredPath>)
        requires
            old(self).wf(),
        ensures
            final(self).wf(),
            final(self).graph_of() == old(self).graph_of(),
            final(self).start_of() == old(self).start_of(),
            old(self).frontier().len() == 0 ==> r is None && final(self).frontier().len() == 0,
            final(self).scorefn_of() == old(self).scorefn_of(),
            old(self).seen().subset_of(final(self).seen()),
            r is None ==> final(self).explored() == old(self).explored(),
            r matches Some(sp) ==> final(self).explored() == old(self).explored().insert(sp.path@.last().0),
            old(self).frontier().len() == 0 && old(self).seen().contains(old(self).start_of()) ==>
                forall|p: Seq<VertexId>| #[trigger] walk_from(old(self).graph_of(), old(self).start_of(), p)
                    ==> old(self).explored().contains(p.last().0),
            r matches Some(sp) ==> final(self).frontier().len() >= old(self).frontier().len() - 1,
            r matches Some(sp) ==> exists|i: int| 0 <= i < old(self).frontier().len() && old(self).frontier()[i] == sp
                && final(self).frontier().subrange(0, old(self).frontier().len() - 1) == old(self).frontier().remove(i),
            r matches Some(sp) ==> forall|k: int| old(self).frontier().len() - 1 <= k < final(self).frontier().len() ==>
                (#[trigger] final(self).frontier()[k]).path@.drop_last() == sp.path@
                && final(self).frontier()[k].path@.len() == sp.path@.len() + 1
                && !old(self).seen().contains(final(self).frontier()[k].path@.last().0),
            r matches Some(sp) ==> forall|v: VertexId| #[trigger] old(self).graph_of().edge_set().contains(Edge(sp.path@.last(), v))
                && !old(self).seen().contains(v.0) ==> exists|k: int|
                old(self).frontier().len() - 1 <= k < final(self).frontier().len() && (#[trigger] final(self).frontier()[k]).path@ == sp.path@.push(v),
            r matches Some(sp) ==> {
                &&& walk_from(old(self).graph_of(), old(self).start_of(), sp.path@)
                &&& sp.path@.len() == 1 || scored_by(old(self).scorefn_of(), old(self).graph_of(), sp)
                &&& old(self).frontier().contains(sp)
                &&& forall|i: int| 0 <= i < old(self).frontier().len() ==> sp.score <= (#[trigger] old(self).frontier()[i]).score
            },
            old(self).frontier().len() > 0 ==> r is Some,
            final(self).unvisited() < old(self).unvisited()
                || (final(self).unvisited() == old(self).unvisited() && final(self).frontier().len() < old(self).frontier().len())
                || old(self).frontier().len() == 0,
    {
        let ghost q0 = self.queue@;
        let ghost vs = self.graph.vertex_set().insert(self.start@);
        proof {
            self.graph.lemma_wf_facts();
            vstd::set_lib::lemma_len_subset(self.visited@, vs);
        }
        match self.queue.pop() {
            None => {
                proof {
                    assert forall|p: Seq<VertexId>| #[trigger] walk_from(old(self).graph_of(), old(self).start_of(), p)
                        && self.visited@.contains(self.start@) implies old(self).explored().contains(p.last().0) by {
                        assert forall|e: Edge| #[trigger] self.graph.edge_set().contains(e) && self.expanded@.contains(e.src())
                            implies self.expanded@.contains(e.dst()) by {
                            assert(self.visited@.contains(e.dst()));
                            assert(!ends_in(self.queue@, e.dst()));
                        }
                        assert(!ends_in(self.queue@, self.start@));
                        lemma_closed_set_holds_walk_ends(*self.graph, self.start@, self.expanded@, p);
                    }
                }
                None
            },
            Some(weighted_path) => {
                let ghost ipop = choose|i: int| {
                    &&& 0 <= i < q0.len()
                    &&& Some(weighted_path) == Some(q0[i])
                    &&& self.queue@ == q0.remove(i)
                    &&& forall|j: int| 0 <= j < q0.len() ==> q0[j].rank_of() >= q0[i].rank_of()
                    &&& forall|j: int| 0 <= j < i ==> q0[j].rank_of() != q0[i].rank_of()
                };
                proof {
                    let i = ipop;
                    assert(q0[i] == weighted_path);
                    assert(self.visited@.contains(weighted_path.path@.last().0));
                    assert forall|k: int| 0 <= k < self.queue@.len() implies self.visited@.contains((#[trigger] self.queue@[k]).path@.last().0) by {
                        if k < i {
                            assert(self.queue@[k] == q0[k]);
                        } else {
                            assert(self.queue@[k] == q0[k + 1]);
                        }
                    }
                    assert forall|x: u64| #[trigger] self.visited@.contains(x) implies
                        self.expanded@.insert(weighted_path.path@.last().0).contains(x) || ends_in(self.queue@, x) by {
                        if !self.expanded@.contains(x) && x != weighted_path.path@.last().0 {
                            let k = choose|k: int| 0 <= k < q0.len() && (#[trigger] q0[k]).path@.last().0 == x;
                            if k < i {
                                assert(self.queue@[k] == q0[k]);
                            } else {
                                assert(self.queue@[k - 1] == q0[k]);
                            }
                        }
                    }
                    assert(q0.contains(weighted_path));
                    assert(walk_from(*self.graph, self.start@, weighted_path.path@));
                    assert(weighted_path.path@.len() == 1 || scored_by(self.scorefn, *self.graph, weighted_path));
                    assert forall|k: int| 0 <= k < self.queue@.len() implies (#[trigger] self.queue@[k]).path@.len() == 1 || scored_by(self.scorefn, *self.graph, self.queue@[k]) by {
                        if k < i {
                            assert(self.queue@[k] == q0[k]);
                        } else {
                            assert(self.queue@[k] == q0[k + 1]);
                        }
                    }
                    assert forall|k: int| 0 <= k < self.queue@.len() implies walk_from(*self.graph, self.start@, (#[trigger] self.queue@[k]).path@) by {
                        if k < i {
                            assert(self.queue@[k] == q0[k]);
                        } else {
                            assert(self.queue@[k] == q0[k + 1]);
                        }
                    }
                }
                let vid = match weighted_path.path.last() {
                    Some(v) => *v,
                    None => VertexId(0),
                };
                let out = self.graph.outbound_edges(vid);
                let ghost vis0 = self.visited@;
                let ghost q1 = self.queue@;
                self.expanded = Ghost(self.expanded@.insert(vid.0));
                let mut j: usize = 0;
                while j < out.len()
                    invariant
                        self.graph.wf(),
                        *self.graph == *old(self).graph,
                        self.start == old(self).start,
                        path_score_fn(self.scorefn),
                        walk_from(*self.graph, self.start@, weighted_path.path@),
                        vid == weighted_path.path@.last(),
                        vs == self.graph.vertex_set().insert(self.start@),
                        vs.finite(),
                        j <= out@.len(),
                        forall|e: Edge| #[trigger] out@.contains(e) <==> (self.graph.edge_set().contains(e) && e.src() == vid.0),
                        self.visited@.subset_of(vs),
                        vis0.subset_of(self.visited@),
                        self.queue@.len() <= q1.len() + (self.visited@.len() - vis0.len()),
                        forall|i: int| 0 <= i < self.queue@.len() ==> walk_from(*self.graph, self.start@, (#[trigger] self.queue@[i]).path@),
                        forall|i: int| 0 <= i < self.queue@.len() ==> (#[trigger] self.queue@[i]).path@.len() == 1 || scored_by(self.scorefn, *self.graph, self.queue@[i]),
                        self.scorefn == old(self).scorefn,
                        q1.len() <= self.queue@.len(),
                        forall|k: int| 0 <= k < q1.len() ==> #[trigger] self.queue@[k] == q1[k],
                        forall|m: int| 0 <= m < j && !vis0.contains((#[trigger] out@[m]).1.0) ==> exists|k: int|
                            q1.len() <= k < self.queue@.len() && (#[trigger] self.queue@[k]).path@ == weighted_path.path@.push(out@[m].1),
                        forall|m: int| 0 <= m < j ==> self.visited@.contains((#[trigger] out@[m]).1.0),
                        forall|x: u64| #[trigger] self.visited@.contains(x) ==> vis0.contains(x) || exists|m: int| 0 <= m < j && (#[trigger] out@[m]).1.0 == x,
                        out@.no_duplicates(),
                        self.expanded@ == old(self).expanded@.insert(vid.0),
                        old(self).expanded@.subset_of(vis0),
                        vis0.contains(vid.0),
                        forall|i: int| 0 <= i < self.queue@.len() ==> self.visited@.contains((#[trigger] self.queue@[i]).path@.last().0),
                        forall|x: u64| #[trigger] self.visited@.contains(x) ==> self.expanded@.contains(x) || ends_in(self.queue@, x),
                        forall|e: Edge| #[trigger] self.graph.edge_set().contains(e) && old(self).expanded@.contains(e.src()) ==> self.visited@.contains(e.dst()),
                        forall|k: int| q1.len() <= k < self.queue@.len() ==>
                            (#[trigger] self.queue@[k]).path@.drop_last() == weighted_path.path@
                            && self.queue@[k].path@.len() == weighted_path.path@.len() + 1
                            && !vis0.contains(self.queue@[k].path@.last().0),
                    decreases out@.len() - j,
                {
                    let v = out[j].1;
                    proof {
                        assert(out@.contains(out@[j as int]));
                        self.graph.lemma_wf_facts();
                    }
                    let ghost vis_j = self.visited@;
                    let ghost queue_j = self.queue@;
                    if !self.visited.contains(&v.0) {
                        let ghost before = self.visited@;
                        self.visited.insert(v.0);
                        let new_path = weighted_path.path.append(v);
                        proof {
                            assert(out@[j as int] == Edge(vid, v));
                            lemma_walk_push(*self.graph, self.start@, weighted_path.path@, v);
                        }
                        let score = (self.scorefn)(self.graph, &new_path);
                        let ghost qb = self.queue@;
                        self.queue.push(ScoredPath { path: new_path, score: score });
                        proof {
                            assert forall|k: int| 0 <= k < q1.len() implies #[trigger] self.queue@[k] == q1[k] by {
                                assert(self.queue@[k] == qb[k]);
                            }
                            assert forall|m: int| 0 <= m < j + 1 && !vis0.contains((#[trigger] out@[m]).1.0) implies exists|k: int|
                                q1.len() <= k < self.queue@.len() && (#[trigger] self.queue@[k]).path@ == weighted_path.path@.push(out@[m].1) by {
                                if m < j {
                                    let k = choose|k: int| q1.len() <= k < qb.len() && (#[trigger] qb[k]).path@ == weighted_path.path@.push(out@[m].1);
                                    assert(self.queue@[k] == qb[k]);
                                } else {
                                    assert(self.queue@[qb.len() as int].path@ == new_path@);
                                }
                            }
                            assert(self.visited@ == before.insert(v.0));
                            assert(self.visited@.len() == before.len() + 1);
                            assert forall|i: int| 0 <= i < self.queue@.len() implies walk_from(*self.graph, self.start@, (#[trigger] self.queue@[i]).path@) by {
                                if i < qb.len() {
                                    assert(self.queue@[i] == qb[i]);
                                }
                            }
                            assert forall|i: int| 0 <= i < self.queue@.len() implies (#[trigger] self.queue@[i]).path@.len() == 1 || scored_by(self.scorefn, *self.graph, self.queue@[i]) by {
                                if i < qb.len() {
                                    assert(self.queue@[i] == qb[i]);
                                }
                            }
                            assert(new_path@.drop_last() =~= weighted_path.path@);
                            assert forall|i: int| 0 <= i < self.queue@.len() implies self.visited@.contains((#[trigger] self.queue@[i]).path@.last().0) by {
                                if i < qb.len() {
                                    assert(self.queue@[i] == qb[i]);
                                }
                            }
                            assert forall|x: u64| #[trigger] self.visited@.contains(x) implies self.expanded@.contains(x) || ends_in(self.queue@, x) by {
                                if x == v.0 {
                                    assert(self.queue@[qb.len() as int].path@.last() == v);
                                } else if !self.expanded@.contains(x) {
                                    assert(before.contains(x));
                                    let k = choose|k: int| 0 <= k < qb.len() && (#[trigger] qb[k]).path@.last().0 == x;
                                    assert(self.queue@[k] == qb[k]);
                                }
                            }
                            assert forall|k: int| q1.len() <= k < self.queue@.len() implies
                                (#[trigger] self.queue@[k]).path@.drop_last() == weighted_path.path@
                                && self.queue@[k].path@.len() == weighted_path.path@.len() + 1
                                && !vis0.contains(self.queue@[k].path@.last().0) by {
                                if k < qb.len() {
                                    assert(self.queue@[k] == qb[k]);
                                }
                            }
                        }
                    }
                    proof {
                        assert forall|m: int| 0 <= m < j + 1 implies self.visited@.contains((#[trigger] out@[m]).1.0) by {
                            if m < j {
                                assert(vis_j.contains(out@[m].1.0));
                            }
                        }
                        assert forall|x: u64| #[trigger] self.visited@.contains(x) implies vis0.contains(x) || exists|m: int| 0 <= m < j + 1 && (#[trigger] out@[m]).1.0 == x by {
                            if vis_j.contains(x) {
                                if !vis0.contains(x) {
                                    let m = choose|m: int| 0 <= m < j && (#[trigger] out@[m]).1.0 == x;
                                }
                            } else {
                                assert(out@[j as int].1.0 == x);
                            }
                        }
                        if vis_j.contains(v.0) && !vis0.contains(v.0) {
                            let m = choose|m: int| 0 <= m < j && (#[trigger] out@[m]).1.0 == v.0;
                            assert(out@[m].1 == v);
                            assert(out@[m].0 == vid && out@[j as int].0 == vid) by {
                                assert(out@.contains(out@[m]));
                            }
                            assert(out@[m] == out@[j as int]);
                        }
                        assert forall|m: int| 0 <= m < j + 1 && !vis0.contains((#[trigger] out@[m]).1.0) implies exists|k: int|
                            q1.len() <= k < self.queue@.len() && (#[trigger] self.queue@[k]).path@ == weighted_path.path@.push(out@[m].1) by {
                            if m < j && self.queue@ == queue_j {
                                let k = choose|k: int| q1.len() <= k < queue_j.len() && (#[trigger] queue_j[k]).path@ == weighted_path.path@.push(out@[m].1);
                                assert(self.queue@[k] == queue_j[k]);
                            }
                        }
                    }
                    j += 1;
                }
                proof {
                    assert(q1.len() == q0.len() - 1);
                    assert(vis0 == old(self).visited@);
                    assert(weighted_path.path@.last() == vid);
                    assert forall|w: VertexId| #[trigger] self.graph.edge_set().contains(Edge(weighted_path.path@.last(), w))
                        && !vis0.contains(w.0) implies exists|k: int|
                        q1.len() <= k < self.queue@.len() && (#[trigger] self.queue@[k]).path@ == weighted_path.path@.push(w) by {
                        assert(out@.contains(Edge(vid, w)));
                        let m = choose|m: int| 0 <= m < out@.len() && out@[m] == Edge(vid, w);
                        assert(out@[m].1 == w);
                    }
                    assert forall|w: VertexId| #[trigger] old(self).graph_of().edge_set().contains(Edge(weighted_path.path@.last(), w))
                        && !old(self).seen().contains(w.0) implies exists|k: int|
                        old(self).frontier().len() - 1 <= k < self.frontier().len() && (#[trigger] self.frontier()[k]).path@ == weighted_path.path@.push(w) by {
                        assert(self.graph.edge_set().contains(Edge(weighted_path.path@.last(), w)));
                        let k = choose|k: int| q1.len() <= k < self.queue@.len() && (#[trigger] self.queue@[k]).path@ == weighted_path.path@.push(w);
                        assert(self.frontier()[k] == self.queue@[k]);
                    }
                    vstd::set_lib::lemma_len_subset(self.visited@, vs);
                    vstd::set_lib::lemma_len_subset(vis0, self.visited@);
                    assert(vs.len() <= self.graph.vertex_set().len() + 1);
                    assert forall|i: int| 0 <= i < q0.len() implies weighted_path.score <= (#[trigger] q0[i]).score by {
                        let k = choose|k: int| {
                            &&& 0 <= k < q0.len()
                            &&& Some(weighted_path) == Some(q0[k])
                            &&& forall|jj: int| 0 <= jj < q0.len() ==> q0[jj].rank_of() >= q0[k].rank_of()
                        };
                        assert(q0[i].rank_of() >= q0[k].rank_of());
                    }
                    assert(self.queue@.subrange(0, q1.len() as int) =~= q1);
                    assert(q0[ipop] == weighted_path);
                    assert forall|e: Edge| #[trigger] self.graph.edge_set().contains(e) && self.expanded@.contains(e.src())
                        implies self.visited@.contains(e.dst()) by {
                        if e.src() == vid.0 {
                            assert(out@.contains(e));
                            let m = choose|m: int| 0 <= m < out@.len() && out@[m] == e;
                            assert(self.visited@.contains(out@[m].1.0));
                        }
                    }
                    if self.visited@.len() == vis0.len() {
                        assert(self.visited@ =~= vis0) by {
                            if !(self.visited@ =~= vis0) {
                                let x = choose|x: u64| self.visited@.contains(x) != vis0.contains(x);
                                assert(self.visited@.contains(x));
                                vstd::set_lib::lemma_len_subset(vis0, self.visited@.remove(x));
                            }
                        }
                    }
                }
                Some(weighted_path)
            },
        }
    }
}

/// A set that holds `s` and, with each of its vertices, the destination of
/// every edge leaving it, holds the end of every walk from `s`.
proof fn lemma_closed_set_holds_walk_ends(g: DirectedGraph, s: u64, xs: Set<u64>, p: Seq<VertexId>)
    requires
        xs.contains(s),
        forall|e: Edge| #[trigger] g.edge_set().contains(e) && xs.contains(e.src()) ==> xs.contains(e.dst()),
        walk_from(g, s, p),
    ensures
        xs.contains(p.last().0),
    decreases p.len(),
{
    if p.len() > 1 {
        let q = p.drop_last();
        assert forall|i: int| 0 <= i && i + 1 < q.len() implies #[trigger] g.edge_set().contains(Edge(q[i], q[i + 1])) by {
            assert(q[i] == p[i] && q[i + 1] == p[i + 1]);
        }
        lemma_closed_set_holds_walk_ends(g, s, xs, q);
        let x = p.len() - 2;
        assert(g.edge_set().contains(Edge(p[x], p[x + 1])));
    }
}

/// Best-first search from `start_vertex`; the one-vertex path starts with
/// score 1.
pub fn best_iter_from<F: Fn(&DirectedGraph, &Path) -> i64>(graph: &DirectedGraph, scorefn: F, start_vertex: VertexId) -> (r: BestFirstIter<F>)
    requires
        graph.wf(),
        path_score_fn(scorefn),
    ensures
        r.wf(),
        r.graph_of() == *graph,
        r.frontier().len() == 1,
        r.frontier()[0].path@ == seq![start_vertex],
        r.frontier()[0].score == 1,
        r.start_of() == start_vertex.0,
        r.scorefn_of() == scorefn,
        r.seen().contains(start_vertex.0),
        r.explored() == Set::<u64>::empty(),
{
    let mut iter = empty_best_iter(graph, scorefn, Ghost(start_vertex.0));
    let p = Path::empty().append(start_vertex);
    iter.queue.push(ScoredPath { path: p, score: 1 });
    iter.visited.insert(start_vertex.0);
    proof {
        assert(p@ =~= seq![start_vertex]);
        assert(iter.visited@ =~= set![start_vertex.0]);
        assert(iter.queue@[0].path@.last() == start_vertex);
        assert(ends_in(iter.queue@, start_vertex.0));
    }
    iter
}

fn empty_best_iter<F: Fn(&DirectedGraph, &Path) -> i64>(graph: &DirectedGraph, scorefn: F, start: Ghost<u64>) -> (r: BestFirstIter<F>)
    requires
        graph.wf(),
        path_score_fn(scorefn),
    ensures
        r.wf(),
        r.graph_of() == *graph,
        r.frontier().len() == 0,
        r.start == start,
        r.visited@ == Set::<u64>::empty(),
        r.expanded@ == Set::<u64>::empty(),
        r.scorefn == scorefn,
{
    BestFirstIter {
        queue: MinPriorityQueue::new(),
        visited: HashSet::new(),
        graph: graph,
        scorefn: scorefn,
        start: start,
        expanded: Ghost(Set::empty()),
    }
}

/// The one-edge extension of `p` to `v` is queued in `q` from position
/// `from` on, or it was scored by `f` and pruned as no longer viable for
/// `cs`.
pub open spec fn queued_or_pruned<F: Fn(&DirectedGraph, &Path) -> i64>(
    f: F,
    g: DirectedGraph,
    cs: Seq<Constraint>,
    p: Seq<VertexId>,
    v: VertexId,
    q: Seq<ScoredPath>,
    from: int,
) -> bool {
    (exists|k: int| from <= k < q.len() && (#[trigger] q[k]).path@ == p.push(v))
        || (exists|c: ScoredPath| c.path@ == p.push(v) && #[trigger] scored_by(f, g, c) && !all_viable(cs, c))
}

/// Every constraint of `cs` is still viable for `sp`.
pub open spec fn all_viable(cs: Seq<Constraint>, sp: ScoredPath) -> bool {
    forall|i: int| 0 <= i < cs.len() ==> viable(#[trigger] cs[i], sp.path@, sp.score as int)
}

/// Whether every constraint may still be met by completing `sp`.
pub fn check_all_partial_constraints(sp: &ScoredPath, constraints: &Vec<Constraint>) -> (r: bool)
    ensures
        r == all_viable(constraints@, *sp),
{
    let mut i: usize = 0;
    while i < constraints.len()
        invariant
            i <= constraints@.len(),
            forall|k: int| 0 <= k < i ==> viable(#[trigger] constraints@[k], sp.path@, sp.score as int),
        decreases constraints@.len() - i,
    {
        if !constraints[i].check_partial(sp) {
            return false;
        }
        i += 1;
    }
    true
}

/// Best-first search that expands every extension whose constraints are all
/// still viable; it does not track visited vertices.
pub struct ConstrainedBestFirstIter<'a, F: Fn(&DirectedGraph, &Path) -> i64> {
    queue: MinPriorityQueue<ScoredPath>,
    graph: &'a DirectedGraph,
    scorefn: F,
    constraints: Vec<Constraint>,
    start: Ghost<u64>,
}

impl<'a, F: Fn(&DirectedGraph, &Path) -> i64> ConstrainedBestFirstIter<'a, F> {
    /// The scored paths waiting to be yielded.
    pub closed spec fn frontier(&self) -> Seq<ScoredPath> {
        self.queue@
    }

    pub closed spec fn constraints_of(&self) -> Seq<Constraint> {
        self.constraints@
    }

    pub closed spec fn graph_of(&self) -> DirectedGraph {
        *self.graph
    }

    /// The vertex every path starts from.
    pub closed spec fn start_of(&self) -> u64 {
        self.start@
    }

    pub closed spec fn wf(&self) -> bool {
        &&& self.graph.wf()
        &&& path_score_fn(self.scorefn)
        &&& forall|i: int| 0 <= i < self.queue@.len() ==> walk_from(*self.graph, self.start@, (#[trigger] self.queue@[i]).path@)
        &&& forall|i: int| 0 <= i < self.queue@.len() ==> scored_by(self.scorefn, *self.graph, #[trigger] self.queue@[i])
    }

    /// The scoring function.
    pub closed spec fn scorefn_of(&self) -> F {
        self.scorefn
    }

    /// Yields a pending path of least score (the oldest of them), after
    /// queueing those of its one-edge extensions for which every constraint
    /// is still viable.
    pub fn next(&mut self) -> (r: Option<ScoredPath>)
        requires
            old(self).wf(),
        ensures
            final(self).wf(),
            final(self).constraints_of() == old(self).constraints_of(),
            final(self).graph_of() == old(self).graph_of(),
            final(self).start_of() == old(self).start_of(),
            final(self).scorefn_of() == old(self).scorefn_of(),
            old(self).frontier().len() == 0 ==> r is None,
            old(self).frontier().len() > 0 ==> r is Some,
            r matches Some(sp) ==> forall|v: VertexId| #[trigger] old(self).graph_of().edge_set().contains(Edge(sp.path@.last(), v)) ==>
                queued_or_pruned(old(self).scorefn_of(), old(self).graph_of(), old(self).constraints_of(), sp.path@, v,
                    final(self).frontier(), old(self).frontier().len() - 1),
            r matches Some(sp) ==> {
                &&& walk_from(old(self).graph_of(), old(self).start_of(), sp.path@)
                &&& scored_by(old(self).scorefn_of(), old(self).graph_of(), sp)
                &&& old(self).frontier().contains(sp)
                &&& forall|i: int| 0 <= i < old(self).frontier().len() ==> sp.score <= (#[trigger] old(self).frontier()[i]).score
            },
            forall|i: int| 0 <= i < final(self).frontier().len() ==>
                old(self).frontier().contains(#[trigger] final(self).frontier()[i])
                || all_viable(old(self).constraints_of(), final(self).frontier()[i]),
            r is None ==> final(self).frontier() == old(self).frontier(),
            r matches Some(sp) ==> final(self).frontier().len() >= old(self).frontier().len() - 1,
            r matches Some(sp) ==> exists|i: int| 0 <= i < old(self).frontier().len() && old(self).frontier()[i] == sp
                && final(self).frontier().subrange(0, old(self).frontier().len() - 1) == old(self).frontier().remove(i),
            r matches Some(sp) ==> forall|k: int| old(self).frontier().len() - 1 <= k < final(self).frontier().len() ==>
                (#[trigger] final(self).frontier()[k]).path@.drop_last() == sp.path@
                && final(self).frontier()[k].path@.len() == sp.path@.len() + 1,
    {
        let ghost q0 = self.queue@;
        match self.queue.pop() {
            None => None,
            Some(weighted_path) => {
                let ghost q1 = self.queue@;
                let ghost ipop = choose|i: int| {
                    &&& 0 <= i < q0.len()
                    &&& Some(weighted_path) == Some(q0[i])
                    &&& self.queue@ == q0.remove(i)
                    &&& forall|j: int| 0 <= j < q0.len() ==> q0[j].rank_of() >= q0[i].rank_of()
                    &&& forall|j: int| 0 <= j < i ==> q0[j].rank_of() != q0[i].rank_of()
                };
                proof {
                    let i = ipop;
                    assert(q0[i] == weighted_path);
                    assert(q0.contains(weighted_path));
                    assert(walk_from(*self.graph, self.start@, weighted_path.path@));
                    assert(scored_by(self.scorefn, *self.graph, weighted_path));
                    assert forall|k: int| 0 <= k < q1.len() implies walk_from(*self.graph, self.start@, (#[trigger] q1[k]).path@) && q0.contains(q1[k])
                        && scored_by(self.scorefn, *self.graph, q1[k]) by {
                        if k < i {
                            assert(q1[k] == q0[k]);
                        } else {
                            assert(q1[k] == q0[k + 1]);
                        }
                    }
                    assert forall|k: int| 0 <= k < q0.len() implies weighted_path.score <= (#[trigger] q0[k]).score by {
                        assert(q0[k].rank_of() >= q0[i].rank_of());
                    }
                }
                let vid = match weighted_path.path.last() {
                    Some(v) => *v,
                    None => VertexId(0),
                };
                let out = self.graph.outbound_edges(vid);
                let mut j: usize = 0;
                while j < out.len()
                    invariant
                        self.graph.wf(),
                        *self.graph == *old(self).graph,
                        self.start == old(self).start,
                        path_score_fn(self.scorefn),
                        self.constraints@ == old(self).constraints@,
                        walk_from(*self.graph, self.start@, weighted_path.path@),
                        vid == weighted_path.path@.last(),
                        forall|e: Edge| #[trigger] out@.contains(e) <==> (self.graph.edge_set().contains(e) && e.src() == vid.0),
                        j <= out@.len(),
                        self.queue@.len() >= q1.len(),
                        forall|k: int| 0 <= k < q1.len() ==> #[trigger] self.queue@[k] == q1[k],
                        forall|k: int| 0 <= k < q1.len() ==> q0.contains(#[trigger] q1[k]),
                        forall|i: int| 0 <= i < self.queue@.len() ==> walk_from(*self.graph, self.start@, (#[trigger] self.queue@[i]).path@),
                        forall|i: int| 0 <= i < self.queue@.len() ==> scored_by(self.scorefn, *self.graph, #[trigger] self.queue@[i]),
                        self.scorefn == old(self).scorefn,
                        forall|i: int| q1.len() <= i < self.queue@.len() ==> all_viable(self.constraints@, #[trigger] self.queue@[i]),
                        forall|m: int| 0 <= m < j ==> queued_or_pruned(self.scorefn, *self.graph, self.constraints@, weighted_path.path@,
                            (#[trigger] out@[m]).1, self.queue@, q1.len() as int),
                        forall|k: int| q1.len() <= k < self.queue@.len() ==>
                            (#[trigger] self.queue@[k]).path@.drop_last() == weighted_path.path@
                            && self.queue@[k].path@.len() == weighted_path.path@.len() + 1,
                    decreases out@.len() - j,
                {
                    let v = out[j].1;
                    let new_path = weighted_path.path.append(v);
                    proof {
                        assert(out@.contains(out@[j as int]));
                        assert(out@[j as int] == Edge(vid, v));
                        lemma_walk_push(*self.graph, self.start@, weighted_path.path@, v);
                    }
                    let score = (self.scorefn)(self.graph, &new_path);
                    let candidate = ScoredPath { path: new_path, score: score };
                    let ghost qb = self.queue@;
                    if check_all_partial_constraints(&candidate, &self.constraints) {
                        self.queue.push(candidate);
                        proof {
                            assert forall|i: int| 0 <= i < self.queue@.len() implies walk_from(*self.graph, self.start@, (#[trigger] self.queue@[i]).path@) by {
                                if i < qb.len() {
                                    assert(self.queue@[i] == qb[i]);
                                }
                            }
                            assert forall|i: int| 0 <= i < self.queue@.len() implies scored_by(self.scorefn, *self.graph, #[trigger] self.queue@[i]) by {
                                if i < qb.len() {
                                    assert(self.queue@[i] == qb[i]);
                                }
                            }
                            assert forall|k: int| 0 <= k < q1.len() implies #[trigger] self.queue@[k] == q1[k] by {
                                assert(self.queue@[k] == qb[k]);
                            }
                            assert forall|i: int| q1.len() <= i < self.queue@.len() implies all_viable(self.constraints@, #[trigger] self.queue@[i]) by {
                                if i < qb.len() {
                                    assert(self.queue@[i] == qb[i]);
                                }
                            }
                            assert(candidate.path@.drop_last() =~= weighted_path.path@);
                            assert forall|k: int| q1.len() <= k < self.queue@.len() implies
                                (#[trigger] self.queue@[k]).path@.drop_last() == weighted_path.path@
                                && self.queue@[k].path@.len() == weighted_path.path@.len() + 1 by {
                                if k < qb.len() {
                                    assert(self.queue@[k] == qb[k]);
                                }
                            }
                        }
                    }
                    proof {
                        assert forall|m: int| 0 <= m < j + 1 implies queued_or_pruned(self.scorefn, *self.graph, self.constraints@, weighted_path.path@,
                            (#[trigger] out@[m]).1, self.queue@, q1.len() as int) by {
                            if m < j {
                                if exists|k: int| q1.len() <= k < qb.len() && (#[trigger] qb[k]).path@ == weighted_path.path@.push(out@[m].1) {
                                    let k = choose|k: int| q1.len() <= k < qb.len() && (#[trigger] qb[k]).path@ == weighted_path.path@.push(out@[m].1);
                                    assert(self.queue@[k] == qb[k]);
                                }
                            } else {
                                assert(out@[m].1 == v);
                                assert(scored_by(self.scorefn, *self.graph, candidate));
                                if self.queue@.len() > qb.len() {
                                    assert(self.queue@[qb.len() as int] == candidate);
                                }
                            }
                        }
                    }
                    j += 1;
                }
                proof {
                    assert forall|i: int| 0 <= i < self.queue@.len() implies
                        q0.contains(#[trigger] self.queue@[i]) || all_viable(self.constraints@, self.queue@[i]) by {
                        if i < q1.len() {
                            assert(self.queue@[i] == q1[i]);
                        }
                    }
                    assert(self.queue@.subrange(0, q1.len() as int) =~= q1);
                    assert(q0[ipop] == weighted_path);
                    assert forall|w: VertexId| #[trigger] self.graph.edge_set().contains(Edge(weighted_path.path@.last(), w)) implies
                        queued_or_pruned(self.scorefn, *self.graph, self.constraints@, weighted_path.path@, w, self.queue@, q1.len() as int) by {
                        assert(out@.contains(Edge(vid, w)));
                        let m = choose|m: int| 0 <= m < out@.len() && out@[m] == Edge(vid, w);
                        assert(out@[m].1 == w);
                    }
                }
                Some(weighted_path)
            },
        }
    }

    /// Drains the search until a yielded path ends at `end` and satisfies
    /// every constraint; gives up after `budget` paths. The flag tells
    /// whether the search ended within the budget.
    pub(crate) fn find_complete(&mut self, end: VertexId, budget: u64) -> (r: (Option<ScoredPath>, bool))
        requires
            old(self).wf(),
            forall|p: Seq<VertexId>| #[trigger] reaches_by_viable_prefixes(old(self).scorefn_of(), old(self).graph_of(),
                old(self).constraints_of(), old(self).start_of(), end, p) ==> queued_prefix(old(self).frontier(), p),
        ensures
            r.0 matches Some(sp) ==> walk_from(old(self).graph_of(), old(self).start_of(), sp.path@) && sp.path@.last() == end
                && crate::a_star::all_hold(old(self).constraints_of(), sp)
                && scored_by(old(self).scorefn_of(), old(self).graph_of(), sp),
            r.0 is Some ==> r.1,
            r.0 is None && r.1 ==> forall|p: Seq<VertexId>| !#[trigger] reaches_by_viable_prefixes(old(self).scorefn_of(),
                old(self).graph_of(), old(self).constraints_of(), old(self).start_of(), end, p),
    {
        let mut budget = budget;
        while budget > 0
            invariant
                self.wf(),
                self.constraints_of() == old(self).constraints_of(),
                self.graph_of() == old(self).graph_of(),
                self.start_of() == old(self).start_of(),
                self.scorefn_of() == old(self).scorefn_of(),
                forall|p: Seq<VertexId>| #[trigger] reaches_by_viable_prefixes(self.scorefn_of(), self.graph_of(),
                    self.constraints_of(), self.start_of(), end, p) ==> queued_prefix(self.frontier(), p),
            decreases budget,
        {
            budget -= 1;
            let ghost q0 = self.frontier();
            match self.next() {
                None => {
                    proof {
                        assert forall|p: Seq<VertexId>| !#[trigger] reaches_by_viable_prefixes(old(self).scorefn_of(),
                            old(self).graph_of(), old(self).constraints_of(), old(self).start_of(), end, p) by {
                            if reaches_by_viable_prefixes(old(self).scorefn_of(), old(self).graph_of(), old(self).constraints_of(),
                                old(self).start_of(), end, p) {
                                assert(queued_prefix(q0, p));
                            }
                        }
                    }
                    return (None, true);
                },
                Some(sp) => {
                    let reached = match sp.path.last() {
                        Some(v) => *v == end,
                        None => false,
                    };
                    if reached && crate::a_star::check_all_complete_constraints(&sp, &self.constraints) {
                        return (Some(sp), true);
                    }
                    proof {
                        let q = self.frontier();
                        let i = choose|i: int| 0 <= i < q0.len() && q0[i] == sp
                            && q.subrange(0, q0.len() - 1) == q0.remove(i);
                        assert forall|p: Seq<VertexId>| #[trigger] reaches_by_viable_prefixes(self.scorefn_of(), self.graph_of(),
                            self.constraints_of(), self.start_of(), end, p) implies queued_prefix(q, p) by {
                            let k = choose|k: int| 0 <= k < q0.len() && 1 <= q0[k].path@.len() <= p.len()
                                && (#[trigger] q0[k]).path@ == p.subrange(0, q0[k].path@.len() as int);
                            if k < i {
                                assert(q0.remove(i)[k] == q0[k]);
                                assert(q.subrange(0, q0.len() - 1)[k] == q[k]);
                                assert(q[k] == q0[k]);
                            } else if k > i {
                                assert(q0.remove(i)[k - 1] == q0[k]);
                                assert(q.subrange(0, q0.len() - 1)[k - 1] == q[k - 1]);
                                assert(q[k - 1] == q0[k]);
                            } else {
                                let n = sp.path@.len() as int;
                                if n == p.len() {
                                    assert(sp.path@ =~= p);
                                    assert(crate::a_star::all_hold(self.constraints_of(), sp));
                                    assert(false);
                                }
                                let x = n - 1;
                                assert(self.graph_of().edge_set().contains(Edge(p[x], p[x + 1])));
                                assert(sp.path@.last() == p[n - 1]);
                                let ext = p.subrange(0, n + 1);
                                assert(sp.path@.push(p[n]) =~= ext);
                                if exists|c: ScoredPath| c.path@ == sp.path@.push(p[n]) && #[trigger] scored_by(self.scorefn_of(), self.graph_of(), c)
                                    && !all_viable(self.constraints_of(), c) {
                                    let c = choose|c: ScoredPath| c.path@ == sp.path@.push(p[n]) && #[trigger] scored_by(self.scorefn_of(), self.graph_of(), c)
                                        && !all_viable(self.constraints_of(), c);
                                    assert(c.path@ == p.subrange(0, c.path@.len() as int));
                                    assert(false);
                                }
                                let k2 = choose|k2: int| q0.len() - 1 <= k2 < q.len() && (#[trigger] q[k2]).path@ == sp.path@.push(p[n]);
                                assert(q[k2].path@ == p.subrange(0, q[k2].path@.len() as int));
                            }
                        }
                    }
                },
            }
        }
        (None, false)
    }
}

/// Some pending path of `q` is a non-empty prefix of `p`.
pub open spec fn queued_prefix(q: Seq<ScoredPath>, p: Seq<VertexId>) -> bool {
    exists|k: int| 0 <= k < q.len() && 1 <= q[k].path@.len() <= p.len()
        && (#[trigger] q[k]).path@ == p.subrange(0, q[k].path@.len() as int)
}

/// `p` is a walk of `g` from `s` to `end` that meets every constraint of
/// `cs` under each score `f` may give it, and each of whose prefixes of two
/// or more vertices leaves every constraint viable under each score `f`
/// may give that prefix.
pub open spec fn reaches_by_viable_prefixes<F: Fn(&DirectedGraph, &Path) -> i64>(
    f: F,
    g: DirectedGraph,
    cs: Seq<Constraint>,
    s: u64,
    end: VertexId,
    p: Seq<VertexId>,
) -> bool {
    &&& walk_from(g, s, p)
    &&& p.last() == end
    &&& forall|c: ScoredPath| c.path@ == p && #[trigger] scored_by(f, g, c) ==> crate::a_star::all_hold(cs, c)
    &&& forall|c: ScoredPath| 2 <= c.path@.len() <= p.len() && c.path@ == p.subrange(0, c.path@.len() as int)
            && #[trigger] scored_by(f, g, c) ==> all_viable(cs, c)
}

/// Constrained best-first search from `start_vertex`; the one-vertex path is
/// scored by `scorefn`.
pub fn constrained_best_iter_from<F: Fn(&DirectedGraph, &Path) -> i64>(
    graph: &DirectedGraph,
    scorefn: F,
    constraints: Vec<Constraint>,
    start_vertex: VertexId,
) -> (r: ConstrainedBestFirstIter<F>)
    requires
        graph.wf(),
        path_score_fn(scorefn),
    ensures
        r.wf(),
        r.constraints_of() == constraints@,
        r.graph_of() == *graph,
        r.start_of() == start_vertex.0,
        r.scorefn_of() == scorefn,
        r.frontier().len() == 1,
        r.frontier()[0].path@ == seq![start_vertex],
{
    let path = Path::empty().append(start_vertex);
    let score = scorefn(graph, &path);
    let mut iter = empty_constrained_best_iter(graph, scorefn, constraints, Ghost(start_vertex.0));
    iter.queue.push(ScoredPath { path: path, score: score });
    proof {
        assert(path@ =~= seq![start_vertex]);
    }
    iter
}

fn empty_constrained_best_iter<F: Fn(&DirectedGraph, &Path) -> i64>(
    graph: &DirectedGraph,
    scorefn: F,
    constraints: Vec<Constraint>,
    start: Ghost<u64>,
) -> (r: ConstrainedBestFirstIter<F>)
    requires
        graph.wf(),
        path_score_fn(scorefn),
    ensures
        r.wf(),
        r.constraints_of() == constraints@,
        r.graph_of() == *graph,
        r.start_of() == start@,
        r.scorefn == scorefn,
        r.frontier().len() == 0,
{
    ConstrainedBestFirstIter { queue: MinPriorityQueue::new(), graph: graph, scorefn: scorefn, constraints: constraints, start: start }
}

} // verus!
