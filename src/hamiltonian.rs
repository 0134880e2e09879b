//! Hamiltonian paths: simple paths through every vertex.
use vstd::prelude::*;
use crate::graph::{Edge, VertexId};
use crate::directed_graph::{DirectedGraph, is_walk};
use crate::path::{repeats, Path};
use crate::iter_depth::{dfs_iter_path_from, simple_walk_from};

verus! {

/// `p` is a Hamiltonian path of `g`: a walk along edges of `g` that meets
/// every vertex of `g` exactly once.
pub open spec fn is_hamiltonian_path(g: DirectedGraph, p: Seq<VertexId>) -> bool {
    &&& p.len() > 0
    &&& p.len() == g.vertex_set().len()
    &&& p.no_duplicates()
    &&& is_walk(g, p)
    &&& forall|k: int| 0 <= k < p.len() ==> g.vertex_set().contains(#[trigger] p[k].0)
}

/// `ps` lists `p`.
pub open spec fn lists(ps: Seq<Path>, p: Seq<VertexId>) -> bool {
    exists|i: int| 0 <= i < ps.len() && #[trigger] ps[i]@ == p
}

/// Every Hamiltonian path, found by a depth-first search of the simple
/// paths from each vertex in turn (vertex-list order).
pub fn iter_hamiltonian_paths(graph: &DirectedGraph) -> (r: Vec<Path>)
    requires
        graph.wf(),
    ensures
        forall|i: int| 0 <= i < r@.len() ==> is_hamiltonian_path(*graph, (#[trigger] r@[i])@),
        forall|p: Seq<VertexId>| #[trigger] is_hamiltonian_path(*graph, p) ==> lists(r@, p),
        forall|i: int, j: int| 0 <= i < j < r@.len() ==> r@[i]@ != r@[j]@,
{
    proof {
        graph.lemma_wf_facts();
    }
    let count = graph.vertex_count();
    let vertices = graph.vertices();
    let mut res: Vec<Path> = Vec::new();
    let mut k: usize = 0;
    while k < vertices.len()
        invariant
            graph.wf(),
            count == graph.vertex_set().len(),
            k <= vertices@.len(),
            vertices@ == graph.vertex_list(),
            forall|x: u64| #[trigger] vertices@.contains(VertexId(x)) <==> graph.vertex_set().contains(x),
            forall|i: int| 0 <= i < res@.len() ==> is_hamiltonian_path(*graph, (#[trigger] res@[i])@),
            forall|p: Seq<VertexId>| #[trigger] is_hamiltonian_path(*graph, p) && vertices@.subrange(0, k as int).contains(p[0])
                ==> lists(res@, p),
            forall|i: int, j: int| 0 <= i < j < res@.len() ==> res@[i]@ != res@[j]@,
            forall|i: int| 0 <= i < res@.len() ==> vertices@.subrange(0, k as int).contains((#[trigger] res@[i])@[0]),
            vertices@.no_duplicates(),
        decreases vertices@.len() - k,
    {
        let v = vertices[k];
        let mut it = dfs_iter_path_from(graph, v);
        loop
            invariant
                it.wf(),
                it.graph_of() == *graph,
                it.start_of() == v.0,
                count == graph.vertex_set().len(),
                forall|i: int| 0 <= i < res@.len() ==> is_hamiltonian_path(*graph, (#[trigger] res@[i])@),
                forall|p: Seq<VertexId>| #[trigger] is_hamiltonian_path(*graph, p) && vertices@.subrange(0, k as int).contains(p[0])
                    ==> lists(res@, p),
                forall|q: Seq<VertexId>| it.yielded().contains(q) && q.len() == count && #[trigger] is_hamiltonian_path(*graph, q)
                    ==> lists(res@, q),
                graph.wf(),
                k < vertices@.len(),
                v == vertices@[k as int],
                forall|x: u64| #[trigger] vertices@.contains(VertexId(x)) <==> graph.vertex_set().contains(x),
                forall|i: int, j: int| 0 <= i < j < res@.len() ==> res@[i]@ != res@[j]@,
                forall|i: int| 0 <= i < res@.len() ==> vertices@.subrange(0, k as int).contains((#[trigger] res@[i])@[0])
                    || ((#[trigger] res@[i])@[0] == v && it.yielded().contains(res@[i]@)),
                vertices@.no_duplicates(),
            ensures
                forall|i: int, j: int| 0 <= i < j < res@.len() ==> res@[i]@ != res@[j]@,
                forall|i: int| 0 <= i < res@.len() ==> vertices@.subrange(0, k as int + 1).contains((#[trigger] res@[i])@[0]),
                forall|p: Seq<VertexId>| #[trigger] simple_walk_from(*graph, v.0, p) ==> it.yielded().contains(p),
                forall|q: Seq<VertexId>| it.yielded().contains(q) && q.len() == count && #[trigger] is_hamiltonian_path(*graph, q)
                    ==> lists(res@, q),
                forall|i: int| 0 <= i < res@.len() ==> is_hamiltonian_path(*graph, (#[trigger] res@[i])@),
                forall|p: Seq<VertexId>| #[trigger] is_hamiltonian_path(*graph, p) && vertices@.subrange(0, k as int).contains(p[0])
                    ==> lists(res@, p),
            decreases it.remaining(),
        {
            let ghost y0 = it.yielded();
            let ghost r0 = res@;
            match it.next() {
                None => {
                    proof {
                        assert forall|i: int| 0 <= i < res@.len() implies vertices@.subrange(0, k as int + 1).contains((#[trigger] res@[i])@[0]) by {
                            if vertices@.subrange(0, k as int).contains(res@[i]@[0]) {
                                let m = choose|m: int| 0 <= m < k && vertices@.subrange(0, k as int)[m] == res@[i]@[0];
                                assert(vertices@.subrange(0, k as int + 1)[m] == res@[i]@[0]);
                            } else {
                                assert(vertices@.subrange(0, k as int + 1)[k as int] == v);
                            }
                        }
                    }
                    break;
                },
                Some(p) => {
                    proof {
                        assert(p@[0] == v);
                        assert forall|i: int| 0 <= i < r0.len() implies vertices@.subrange(0, k as int).contains((#[trigger] r0[i])@[0])
                            || (r0[i]@[0] == v && it.yielded().contains(r0[i]@)) by {
                            if !vertices@.subrange(0, k as int).contains(r0[i]@[0]) {
                                assert(y0.contains(r0[i]@));
                                let m = choose|m: int| 0 <= m < y0.len() && y0[m] == r0[i]@;
                                assert(it.yielded()[m] == y0[m]);
                            }
                        }
                        crate::directed_graph::lemma_push_contains(y0, p@);
                        assert forall|q: Seq<VertexId>| it.yielded().contains(q) && q.len() == count && #[trigger] is_hamiltonian_path(*graph, q)
                            && q != p@ implies lists(res@, q) by {
                            assert(y0.contains(q));
                        }
                    }
                    if p.size() == count {
                        let ghost pv = p@;
                        res.push(p);
                        proof {
                            assert(!vertices@.subrange(0, k as int).contains(v)) by {
                                if vertices@.subrange(0, k as int).contains(v) {
                                    let m = choose|m: int| 0 <= m < k && vertices@.subrange(0, k as int)[m] == v;
                                    assert(vertices@[m] == vertices@[k as int]);
                                }
                            }
                            assert forall|i: int, j: int| 0 <= i < j < res@.len() implies res@[i]@ != res@[j]@ by {
                                if j == r0.len() {
                                    assert(res@[i] == r0[i]);
                                    assert(res@[j]@ == pv);
                                    if r0[i]@ == pv {
                                        assert(it.yielded().contains(pv));
                                        assert(y0.contains(pv)) by {
                                            let m = choose|m: int| 0 <= m < it.yielded().len() && it.yielded()[m] == pv;
                                            if m < y0.len() {
                                                assert(it.yielded()[m] == y0[m]);
                                            } else {
                                                assert(it.yielded()[m] == pv);
                                                assert(it.yielded().no_duplicates());
                                                let ir = choose|ir: int| 0 <= ir < it.yielded().len() && it.yielded()[ir] == r0[i]@;
                                                assert(ir != m ==> it.yielded()[ir] != it.yielded()[m]);
                                                assert(ir < y0.len());
                                                assert(it.yielded()[ir] == y0[ir]);
                                            }
                                        }
                                    }
                                } else {
                                    assert(res@[i] == r0[i] && res@[j] == r0[j]);
                                }
                            }
                            assert forall|i: int| 0 <= i < res@.len() implies vertices@.subrange(0, k as int).contains((#[trigger] res@[i])@[0])
                                || ((#[trigger] res@[i])@[0] == v && it.yielded().contains(res@[i]@)) by {
                                if i < r0.len() {
                                    assert(res@[i] == r0[i]);
                                } else {
                                    assert(res@[i]@ == pv);
                                    assert(it.yielded()[y0.len() as int] == pv);
                                }
                            }
                            assert(res@[r0.len() as int]@ == p@);
                            assert forall|q: Seq<VertexId>| #[trigger] is_hamiltonian_path(*graph, q) && lists(r0, q) implies lists(res@, q) by {
                                let i = choose|i: int| 0 <= i < r0.len() && #[trigger] r0[i]@ == q;
                                assert(res@[i] == r0[i]);
                            }
                            assert forall|i: int| 0 <= i < res@.len() implies is_hamiltonian_path(*graph, (#[trigger] res@[i])@) by {
                                if i == r0.len() {
                                    graph.lemma_wf_facts();
                                    assert forall|kk: int| 0 <= kk < p@.len() implies graph.vertex_set().contains(#[trigger] p@[kk].0) by {
                                        if kk > 0 {
                                            let x = kk - 1;
                                            assert(graph.edge_set().contains(Edge(p@[x], p@[x + 1])));
                                        } else if p@.len() > 1 {
                                            let x = 0int;
                                            assert(graph.edge_set().contains(Edge(p@[x], p@[x + 1])));
                                        } else {
                                            assert(graph.vertex_set().insert(v.0).contains(p@[0].0));
                                            assert(vertices@.contains(vertices@[k as int]));
                                            assert(graph.vertex_set().contains(v.0));
                                        }
                                    }
                                } else {
                                    assert(res@[i] == r0[i]);
                                }
                            }
                        }
                    }
                },
            }
        }
        proof {
            let sub = vertices@.subrange(0, k as int + 1);
            crate::directed_graph::lemma_drop_last(sub);
            assert(sub.drop_last() =~= vertices@.subrange(0, k as int));
            assert forall|p: Seq<VertexId>| #[trigger] is_hamiltonian_path(*graph, p) && sub.contains(p[0]) implies lists(res@, p) by {
                if p[0] == v {
                    assert(simple_walk_from(*graph, v.0, p));
                    assert(it.yielded().contains(p));
                }
            }
        }
        k += 1;
    }
    proof {
        assert(vertices@.subrange(0, vertices@.len() as int) =~= vertices@);
        assert forall|p: Seq<VertexId>| #[trigger] is_hamiltonian_path(*graph, p) implies lists(res@, p) by {
            assert(vertices@.contains(VertexId(p[0].0)));
        }
    }
    res
}

/// A Hamiltonian path, if the graph has one; none only when it has none.
pub fn first_path(graph: &DirectedGraph) -> (r: Option<Path>)
    requires
        graph.wf(),
    ensures
        r matches Some(p) ==> is_hamiltonian_path(*graph, p@),
        r is None ==> forall|p: Seq<VertexId>| !#[trigger] is_hamiltonian_path(*graph, p),
{
    let all = iter_hamiltonian_paths(graph);
    if all.len() == 0 {
        proof {
            assert forall|p: Seq<VertexId>| !#[trigger] is_hamiltonian_path(*graph, p) by {
                if is_hamiltonian_path(*graph, p) {
                    assert(lists(all@, p));
                }
            }
        }
        None
    } else {
        let mut all = all;
        proof {
            assert(is_hamiltonian_path(*graph, all@[0]@));
        }
        Some(all.swap_remove(0))
    }
}

/// Whether the graph has a Hamiltonian path; an empty graph has, by
/// convention.
pub fn is_hamiltonian(graph: &DirectedGraph) -> (r: bool)
    requires
        graph.wf(),
    ensures
        r == (graph.vertex_set() == Set::<u64>::empty() || exists|p: Seq<VertexId>| #[trigger] is_hamiltonian_path(*graph, p)),
{
    graph.is_empty() || first_path(graph).is_some()
}

/// Whether `path`, taken to be a path of `graph`, goes through every vertex
/// once: no repeated vertex, and as many vertices as the graph.
pub fn is_path_hamiltonian(path: &Path, graph: &DirectedGraph) -> (r: bool)
    requires
        graph.wf(),
    ensures
        r == (!repeats(path@) && path@.len() == graph.vertex_set().len()),
{
    !path.contains_cycle() && path.size() == graph.vertex_count()
}

} // verus!
