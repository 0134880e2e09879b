//! Topological order of a directed graph (Kahn's algorithm).
use vstd::prelude::*;
use std::collections::HashMap;
use crate::graph::{Edge, VertexId};
use crate::directed_graph::DirectedGraph;

verus! {

broadcast use vstd::std_specs::hash::group_hash_axioms;

/// `u` comes before `w` in `order`.
pub open spec fn precedes(order: Seq<VertexId>, u: u64, w: u64) -> bool {
    exists|i: int, j: int| 0 <= i < j < order.len() && #[trigger] order[i].0 == u && #[trigger] order[j].0 == w
}

/// `order` lists every vertex of `g` once, and every edge of `g` goes from
/// an earlier vertex to a later one.
pub open spec fn is_topological_order(g: DirectedGraph, order: Seq<VertexId>) -> bool {
    &&& order.no_duplicates()
    &&& forall|x: u64| #[trigger] g.vertex_set().contains(x) <==> order.contains(VertexId(x))
    &&& forall|e: Edge| #[trigger] g.edge_set().contains(e) ==> precedes(order, e.src(), e.dst())
}

/// `w` is a closed walk of `g`: at least one edge, each step along an edge,
/// ending where it started.
pub open spec fn is_closed_walk(g: DirectedGraph, w: Seq<u64>) -> bool {
    &&& w.len() >= 2
    &&& w[0] == w.last()
    &&& forall|i: int| 0 <= i < w.len() - 1 ==> #[trigger] g.edge_set().contains(Edge(VertexId(w[i]), VertexId(w[i + 1])))
}

/// Along a walk, every vertex after the first comes later in the order.
proof fn lemma_walk_moves_forward(g: DirectedGraph, order: Seq<VertexId>, w: Seq<u64>, k: int, p0: int)
    requires
        is_topological_order(g, order),
        is_closed_walk(g, w),
        1 <= k <= w.len() - 1,
        0 <= p0 < order.len(),
        order[p0].0 == w[0],
    ensures
        exists|pk: int| p0 < pk < order.len() && #[trigger] order[pk].0 == w[k],
    decreases k,
{
    let i = k - 1;
    assert(g.edge_set().contains(Edge(VertexId(w[i]), VertexId(w[i + 1]))));
    assert(w[i + 1] == w[k]);
    let (a, b) = choose|i: int, j: int| 0 <= i < j < order.len() && #[trigger] order[i].0 == w[k - 1] && #[trigger] order[j].0 == w[k];
    if k == 1 {
        assert(order[a] == order[p0]);
    } else {
        lemma_walk_moves_forward(g, order, w, k - 1, p0);
        let pk = choose|pk: int| p0 < pk < order.len() && #[trigger] order[pk].0 == w[k - 1];
        assert(order[a] == order[pk]);
    }
    assert(order[b].0 == w[k]);
}

/// A graph that has a topological order has no cycle.
pub proof fn law_ordered_graph_has_no_cycle(g: DirectedGraph, order: Seq<VertexId>, w: Seq<u64>)
    requires
        is_topological_order(g, order),
    ensures
        !is_closed_walk(g, w),
{
    if is_closed_walk(g, w) {
        let z: int = 0;
        assert(g.edge_set().contains(Edge(VertexId(w[z]), VertexId(w[z + 1]))));
        let (p0, q0) = choose|i: int, j: int| 0 <= i < j < order.len() && #[trigger] order[i].0 == w[0] && #[trigger] order[j].0 == w[1];
        lemma_walk_moves_forward(g, order, w, w.len() - 1, p0);
        let pk = choose|pk: int| p0 < pk < order.len() && #[trigger] order[pk].0 == w[w.len() - 1];
        assert(order[pk] == order[p0]);
    }
}

/// The edges entering `x` whose source is not among `done`, and not among
/// the first `j` edges of `cur` when the source is `u`.
pub open spec fn pending(g: DirectedGraph, x: u64, done: Seq<VertexId>, u: u64, cur: Seq<Edge>) -> Set<Edge> {
    g.edge_set().filter(|e: Edge| e.dst() == x && !done.contains(VertexId(e.src())) && !(e.src() == u && cur.contains(e)))
}

/// Whether the graph has no cycle.
pub fn is_dag(graph: &DirectedGraph) -> (r: bool)
    requires
        graph.wf(),
    ensures
        r <==> forall|w: Seq<u64>| !is_closed_walk(*graph, w),
{
    match topological_sort(graph) {
        Some(order) => {
            proof {
                assert forall|w: Seq<u64>| !is_closed_walk(*graph, w) by {
                    law_ordered_graph_has_no_cycle(*graph, order@, w);
                }
            }
            true
        },
        None => false,
    }
}

/// Walking back from `x0` along edges whose source is not in `done`, `k`
/// steps.
pub open spec fn walk_back(g: DirectedGraph, done: Seq<VertexId>, x0: u64, k: nat) -> u64
    decreases k,
{
    if k == 0 {
        x0
    } else {
        let y = walk_back(g, done, x0, (k - 1) as nat);
        choose|s: u64| g.edge_set().contains(Edge(VertexId(s), VertexId(y))) && !done.contains(VertexId(s))
    }
}

/// Every vertex outside `done` has an inbound edge from outside `done`.
pub open spec fn stuck(g: DirectedGraph, done: Seq<VertexId>) -> bool {
    forall|x: u64| #[trigger] g.vertex_set().contains(x) && !done.contains(VertexId(x)) ==>
        exists|e: Edge| #[trigger] g.edge_set().contains(e) && e.dst() == x && !done.contains(VertexId(e.src()))
}

proof fn lemma_walk_back(g: DirectedGraph, done: Seq<VertexId>, x0: u64, k: nat)
    requires
        g.wf(),
        stuck(g, done),
        g.vertex_set().contains(x0),
        !done.contains(VertexId(x0)),
    ensures
        g.vertex_set().contains(walk_back(g, done, x0, k)),
        !done.contains(VertexId(walk_back(g, done, x0, k))),
        k > 0 ==> g.edge_set().contains(Edge(VertexId(walk_back(g, done, x0, k)), VertexId(walk_back(g, done, x0, (k - 1) as nat)))),
    decreases k,
{
    g.lemma_wf_facts();
    if k > 0 {
        lemma_walk_back(g, done, x0, (k - 1) as nat);
        let y = walk_back(g, done, x0, (k - 1) as nat);
        let e = choose|e: Edge| #[trigger] g.edge_set().contains(e) && e.dst() == y && !done.contains(VertexId(e.src()));
        assert(e == Edge(VertexId(e.src()), VertexId(y)));
        assert(g.edge_set().contains(Edge(VertexId(e.src()), VertexId(y))) && !done.contains(VertexId(e.src())));
    }
}

/// When every vertex outside `done` has an inbound edge from outside it,
/// and some vertex is outside it, the graph has a cycle.
proof fn lemma_stuck_graph_has_cycle(g: DirectedGraph, done: Seq<VertexId>, x0: u64)
    requires
        g.wf(),
        stuck(g, done),
        g.vertex_set().contains(x0),
        !done.contains(VertexId(x0)),
    ensures
        exists|w: Seq<u64>| is_closed_walk(g, w),
{
    g.lemma_wf_facts();
    let n = g.vertex_set().len();
    let s = Seq::new(n + 1, |k: int| walk_back(g, done, x0, k as nat));
    assert forall|k: int| 0 <= k < s.len() implies g.vertex_set().contains(#[trigger] s[k]) by {
        lemma_walk_back(g, done, x0, k as nat);
    }
    if s.no_duplicates() {
        s.unique_seq_to_set();
        assert(s.to_set().subset_of(g.vertex_set())) by {
            assert forall|x: u64| s.to_set().contains(x) implies g.vertex_set().contains(x) by {
                let k = choose|k: int| 0 <= k < s.len() && s[k] == x;
                assert(g.vertex_set().contains(s[k]));
            }
        }
        vstd::set_lib::lemma_len_subset(s.to_set(), g.vertex_set());
        assert(false);
    }
    let (i, j) = choose|i: int, j: int| 0 <= i < s.len() && 0 <= j < s.len() && i != j && s[i] == s[j];
    let lo = if i < j { i } else { j };
    let hi = if i < j { j } else { i };
    let w = Seq::new((hi - lo + 1) as nat, |t: int| walk_back(g, done, x0, (hi - t) as nat));
    assert forall|t: int| 0 <= t < w.len() - 1 implies #[trigger] g.edge_set().contains(Edge(VertexId(w[t]), VertexId(w[t + 1]))) by {
        lemma_walk_back(g, done, x0, (hi - t) as nat);
        assert(((hi - t) - 1) as nat == (hi - (t + 1)) as nat);
    }
    assert(w[0] == s[hi]);
    assert(w.last() == s[lo]);
    assert(is_closed_walk(g, w));
}

/// A topological order of the graph (Kahn's algorithm), or none exactly
/// when the graph has a cycle. Vertices without inbound edges come first, in
/// vertex-list order; then each vertex comes as soon as all its
/// predecessors have.
pub fn topological_sort(graph: &DirectedGraph) -> (r: Option<Vec<VertexId>>)
    requires
        graph.wf(),
    ensures
        r matches Some(order) ==> is_topological_order(*graph, order@),
        r is None ==> exists|w: Seq<u64>| is_closed_walk(*graph, w),
{
    let g = Ghost(*graph);
    proof {
        graph.lemma_wf_facts();
    }
    let vertices = graph.vertices();
    let mut indeg: HashMap<u64, usize> = HashMap::new();
    let mut res: Vec<VertexId> = Vec::new();
    let mut k: usize = 0;
    while k < vertices.len()
        invariant
            graph.wf(),
            g@ == *graph,
            k <= vertices@.len(),
            vertices@ == graph.vertex_list(),
            vertices@.no_duplicates(),
            forall|x: u64| #[trigger] graph.vertex_set().contains(x) <==> vertices@.contains(VertexId(x)),
            forall|x: u64| #[trigger] indeg@.contains_key(x) <==> vertices@.subrange(0, k as int).contains(VertexId(x)),
            forall|x: u64| #[trigger] indeg@.contains_key(x) ==>
                indeg@[x] == pending(g@, x, Seq::empty(), 0, Seq::empty()).len(),
            res@.no_duplicates(),
            forall|i: int| 0 <= i < res@.len() ==> #[trigger] indeg@.contains_key(res@[i].0) && indeg@[res@[i].0] == 0,
            forall|x: u64| #[trigger] indeg@.contains_key(x) && indeg@[x] == 0 ==> res@.contains(VertexId(x)),
        decreases vertices@.len() - k,
    {
        let v = vertices[k];
        let d = graph.degree_in(v);
        proof {
            graph.lemma_in_seq(v.0);
            graph.in_seq(v.0).unique_seq_to_set();
            assert(graph.in_seq(v.0).to_set() =~= pending(g@, v.0, Seq::empty(), 0, Seq::empty()));
            let sub = vertices@.subrange(0, k as int + 1);
            crate::directed_graph::lemma_drop_last(sub);
            assert(sub.drop_last() =~= vertices@.subrange(0, k as int));
            assert(!vertices@.subrange(0, k as int).contains(v)) by {
                if vertices@.subrange(0, k as int).contains(v) {
                    let a = choose|a: int| 0 <= a < k && vertices@.subrange(0, k as int)[a] == v;
                    assert(vertices@[a] == vertices@[k as int]);
                }
            }
        }
        indeg.insert(v.0, d);
        if d == 0 {
            proof {
                crate::directed_graph::lemma_push_contains(res@, v);
                assert(!res@.contains(v)) by {
                    if res@.contains(v) {
                        let a = choose|a: int| 0 <= a < res@.len() && res@[a] == v;
                        assert(vertices@.subrange(0, k as int).contains(VertexId(res@[a].0)));
                    }
                }
            }
            res.push(v);
        }
        k += 1;
    }
    proof {
        assert(vertices@.subrange(0, vertices@.len() as int) =~= vertices@);
        assert forall|k: int| 0 <= k < res@.len() implies #[trigger] graph.vertex_set().contains(res@[k].0) by {
            assert(indeg@.contains_key(res@[k].0));
        }
        crate::directed_graph::lemma_nodup_subset_len(res@, graph.vertex_set());
        assert(res@.subrange(0, 0) =~= Seq::<VertexId>::empty());
        assert forall|x: u64| #[trigger] graph.vertex_set().contains(x) implies
            pending(g@, x, res@.subrange(0, 0), 0, Seq::empty()).finite() by {
            vstd::set_lib::lemma_len_subset(pending(g@, x, res@.subrange(0, 0), 0, Seq::empty()), g@.edge_set());
        }
        assert forall|k: int| 0 <= k < res@.len() implies
            #[trigger] pending(g@, res@[k].0, res@.subrange(0, 0), 0, Seq::empty()) == Set::<Edge>::empty() by {
            let x = res@[k].0;
            assert(indeg@.contains_key(x));
            vstd::set_lib::lemma_len_subset(pending(g@, x, res@.subrange(0, 0), 0, Seq::empty()), g@.edge_set());
            pending(g@, x, res@.subrange(0, 0), 0, Seq::empty()).lemma_len0_is_empty();
        }
        assert forall|k: int, e: Edge| 0 <= k < res@.len() && #[trigger] g@.edge_set().contains(e) && e.dst() == #[trigger] res@[k].0 implies
            exists|a: int| 0 <= a < k && #[trigger] res@[a].0 == e.src() by {
            assert(pending(g@, res@[k].0, res@.subrange(0, 0), 0, Seq::empty()).contains(e));
        }
    }
    let mut i: usize = 0;
    while i < res.len()
        invariant
            graph.wf(),
            g@ == *graph,
            i <= res@.len(),
            res@.len() <= graph.vertex_set().len(),
            graph.vertex_set().finite(),
            res@.no_duplicates(),
            forall|k: int| 0 <= k < res@.len() ==> #[trigger] graph.vertex_set().contains(res@[k].0),
            forall|x: u64| #[trigger] indeg@.contains_key(x) <==> graph.vertex_set().contains(x),
            forall|x: u64| #[trigger] indeg@.contains_key(x) ==>
                indeg@[x] == pending(g@, x, res@.subrange(0, i as int), 0, Seq::empty()).len(),
            forall|x: u64| #[trigger] graph.vertex_set().contains(x) ==>
                pending(g@, x, res@.subrange(0, i as int), 0, Seq::empty()).finite(),
            // a queued vertex has nothing pending
            forall|k: int| 0 <= k < res@.len() ==>
                #[trigger] pending(g@, res@[k].0, res@.subrange(0, i as int), 0, Seq::empty()) == Set::<Edge>::empty(),
            // a vertex with nothing pending is queued
            forall|x: u64| #[trigger] indeg@.contains_key(x) && indeg@[x] == 0 ==> res@.contains(VertexId(x)),
            // every edge into a queued vertex comes from an earlier one
            forall|k: int, e: Edge| 0 <= k < res@.len() && #[trigger] g@.edge_set().contains(e) && e.dst() == #[trigger] res@[k].0 ==>
                exists|a: int| 0 <= a < k && #[trigger] res@[a].0 == e.src(),
        decreases graph.vertex_set().len() - i,
    {
        let u = res[i];
        let out = graph.outbound_edges(u);
        let ghost done = res@.subrange(0, i as int);
        proof {
            assert(!done.contains(u)) by {
                if done.contains(u) {
                    let a = choose|a: int| 0 <= a < done.len() && done[a] == u;
                    assert(res@[a] == res@[i as int]);
                }
            }
        }
        proof {
            assert(out@.subrange(0, 0) =~= Seq::<Edge>::empty());
            assert forall|x: u64| #[trigger] graph.vertex_set().contains(x) implies
                pending(g@, x, done, u.0, out@.subrange(0, 0)) == pending(g@, x, done, 0, Seq::empty()) by {
                assert(pending(g@, x, done, u.0, out@.subrange(0, 0)) =~= pending(g@, x, done, 0, Seq::empty()));
            }
            assert forall|k: int| 0 <= k < res@.len() implies
                #[trigger] pending(g@, res@[k].0, done, u.0, out@.subrange(0, 0)) == Set::<Edge>::empty() by {
                assert(graph.vertex_set().contains(res@[k].0));
                assert(pending(g@, res@[k].0, res@.subrange(0, i as int), 0, Seq::empty()) == Set::<Edge>::empty());
            }
        }
        let mut j: usize = 0;
        while j < out.len()
            invariant
                graph.wf(),
                g@ == *graph,
                i < res@.len(),
                u == res@[i as int],
                done == res@.subrange(0, i as int),
                !done.contains(u),
                res@.subrange(0, i as int) == done,
                j <= out@.len(),
                out@ == graph.out_seq(u.0),
                out@.no_duplicates(),
                forall|e: Edge| #[trigger] out@.contains(e) <==> (graph.edge_set().contains(e) && e.src() == u.0),
                res@.len() <= graph.vertex_set().len(),
                graph.vertex_set().finite(),
                res@.no_duplicates(),
                forall|k: int| 0 <= k < res@.len() ==> #[trigger] graph.vertex_set().contains(res@[k].0),
                forall|x: u64| #[trigger] indeg@.contains_key(x) <==> graph.vertex_set().contains(x),
                forall|x: u64| #[trigger] indeg@.contains_key(x) ==>
                    indeg@[x] == pending(g@, x, done, u.0, out@.subrange(0, j as int)).len(),
                forall|x: u64| #[trigger] graph.vertex_set().contains(x) ==>
                    pending(g@, x, done, u.0, out@.subrange(0, j as int)).finite(),
                forall|k: int| 0 <= k < res@.len() ==>
                    #[trigger] pending(g@, res@[k].0, done, u.0, out@.subrange(0, j as int)) == Set::<Edge>::empty(),
                forall|x: u64| #[trigger] indeg@.contains_key(x) && indeg@[x] == 0 ==> res@.contains(VertexId(x)),
                forall|k: int, e: Edge| 0 <= k < res@.len() && #[trigger] g@.edge_set().contains(e) && e.dst() == #[trigger] res@[k].0 ==>
                    exists|a: int| 0 <= a < k && #[trigger] res@[a].0 == e.src(),
            decreases out@.len() - j,
        {
            let e = out[j];
            let w = e.1.0;
            let ghost cur = out@.subrange(0, j as int);
            let ghost nxt = out@.subrange(0, j as int + 1);
            proof {
                assert(out@.contains(e));
                assert(graph.edge_set().contains(e));
                graph.lemma_wf_facts();
                assert(graph.vertex_set().contains(w));
                assert(!cur.contains(e)) by {
                    if cur.contains(e) {
                        let a = choose|a: int| 0 <= a < cur.len() && cur[a] == e;
                        assert(out@[a] == out@[j as int]);
                    }
                }
                crate::directed_graph::lemma_drop_last(nxt);
                assert(nxt.drop_last() =~= cur);
                assert(pending(g@, w, done, u.0, cur).contains(e));
                assert forall|x: u64| #[trigger] graph.vertex_set().contains(x) implies
                    pending(g@, x, done, u.0, nxt) == if x == w { pending(g@, x, done, u.0, cur).remove(e) } else { pending(g@, x, done, u.0, cur) } by {
                    assert(pending(g@, x, done, u.0, nxt) =~= if x == w { pending(g@, x, done, u.0, cur).remove(e) } else { pending(g@, x, done, u.0, cur) });
                }
            }
            let c = match indeg.get(&w) {
                Some(c) => *c,
                None => 0,
            };
            proof {
                assert(indeg@.contains_key(w));
                assert(c == pending(g@, w, done, u.0, cur).len());
                assert(c > 0);
            }
            let ghost r1 = res@;
            indeg.insert(w, c - 1);
            if c == 1 {
                proof {
                    assert(pending(g@, w, done, u.0, nxt).len() == 0);
                    assert(pending(g@, w, done, u.0, nxt) =~= Set::<Edge>::empty());
                    assert(!res@.contains(VertexId(w))) by {
                        if res@.contains(VertexId(w)) {
                            let a = choose|a: int| 0 <= a < res@.len() && res@[a] == VertexId(w);
                            assert(pending(g@, res@[a].0, done, u.0, cur) == Set::<Edge>::empty());
                        }
                    }
                    crate::directed_graph::lemma_push_contains(res@, VertexId(w));
                    crate::directed_graph::lemma_nodup_subset_len(res@.push(VertexId(w)), graph.vertex_set());
                    // every edge into `w` comes from a processed vertex
                    assert forall|e2: Edge| #[trigger] g@.edge_set().contains(e2) && e2.dst() == w implies
                        exists|a: int| 0 <= a <= i && #[trigger] r1[a].0 == e2.src() by {
                        if !(exists|a: int| 0 <= a <= i && #[trigger] r1[a].0 == e2.src()) {
                            if done.contains(VertexId(e2.src())) {
                                let a = choose|a: int| 0 <= a < done.len() && done[a] == VertexId(e2.src());
                                assert(res@[a].0 == e2.src());
                            }
                            if e2.src() == u.0 {
                                assert(res@[i as int].0 == e2.src());
                            }
                            assert(pending(g@, w, done, u.0, nxt).contains(e2));
                        }
                    }
                }
                res.push(VertexId(w));
            }
            proof {
                let r2 = res@;
                assert forall|x: u64| #[trigger] indeg@.contains_key(x) implies
                    indeg@[x] == pending(g@, x, done, u.0, nxt).len() by {
                    if x == w {
                        assert(pending(g@, x, done, u.0, cur).contains(e));
                    }
                }
                assert forall|k: int| 0 <= k < r2.len() implies
                    #[trigger] pending(g@, r2[k].0, done, u.0, nxt) == Set::<Edge>::empty() by {
                    if k < r2.len() && r2[k].0 != w {
                        assert(graph.vertex_set().contains(r2[k].0));
                    }
                    if r2[k].0 == w && c != 1 {
                        assert(r2[k] == VertexId(w));
                        assert(pending(g@, w, done, u.0, cur) == Set::<Edge>::empty());
                    }
                }
                assert forall|k: int, e2: Edge| 0 <= k < r2.len() && #[trigger] g@.edge_set().contains(e2) && e2.dst() == #[trigger] r2[k].0 implies
                    exists|a: int| 0 <= a < k && #[trigger] r2[a].0 == e2.src() by {
                    if c == 1 && k == r2.len() - 1 {
                        assert(r2[k].0 == w);
                        let a = choose|a: int| 0 <= a <= i && #[trigger] r1[a].0 == e2.src();
                        assert(r2[a].0 == e2.src());
                    } else {
                        assert(r2[k] == r1[k]);
                        let a = choose|a: int| 0 <= a < k && #[trigger] r1[a].0 == e2.src();
                        assert(r2[a].0 == e2.src());
                    }
                }
            }
            j += 1;
        }
        proof {
            assert(out@.subrange(0, out@.len() as int) =~= out@);
            let done2 = res@.subrange(0, i as int + 1);
            crate::directed_graph::lemma_drop_last(done2);
            assert(done2.drop_last() =~= done);
            assert forall|x: u64| #[trigger] graph.vertex_set().contains(x) implies
                pending(g@, x, done2, 0, Seq::empty()) == pending(g@, x, done, u.0, out@) by {
                assert(pending(g@, x, done2, 0, Seq::empty()) =~= pending(g@, x, done, u.0, out@));
            }
            assert forall|k: int| 0 <= k < res@.len() implies
                #[trigger] pending(g@, res@[k].0, done2, 0, Seq::empty()) == Set::<Edge>::empty() by {
                assert(graph.vertex_set().contains(res@[k].0));
                assert(pending(g@, res@[k].0, done, u.0, out@.subrange(0, out@.len() as int)) == Set::<Edge>::empty());
            }
        }
        i += 1;
    }
    let n = graph.vertex_count();
    if res.len() != n {
        proof {
            let done = res@.subrange(0, i as int);
            assert(done =~= res@);
            assert forall|x: u64| #[trigger] g@.vertex_set().contains(x) && !res@.contains(VertexId(x)) implies
                exists|e: Edge| #[trigger] g@.edge_set().contains(e) && e.dst() == x && !res@.contains(VertexId(e.src())) by {
                assert(indeg@.contains_key(x));
                let pend = pending(g@, x, done, 0, Seq::empty());
                if pend.len() == 0 {
                    assert(indeg@[x] == 0);
                    assert(res@.contains(VertexId(x)));
                }
                assert(pend.len() != 0);
                if pend =~= Set::<Edge>::empty() {
                    assert(pend.len() == 0);
                }
                let e = choose|e: Edge| pend.contains(e);
                assert(g@.edge_set().contains(e) && e.dst() == x && !res@.contains(VertexId(e.src())));
            }
            assert(stuck(g@, res@));
            // some vertex is left out
            let vs = graph.vertex_set();
            let ids = res@.map_values(|v: VertexId| v.0);
            if forall|x: u64| #[trigger] vs.contains(x) ==> res@.contains(VertexId(x)) {
                assert(vs.subset_of(ids.to_set())) by {
                    assert forall|x: u64| vs.contains(x) implies ids.to_set().contains(x) by {
                        assert(res@.contains(VertexId(x)));
                        let k = choose|k: int| 0 <= k < res@.len() && res@[k] == VertexId(x);
                        assert(ids[k] == x);
                    }
                }
                ids.lemma_cardinality_of_set();
                vstd::set_lib::lemma_len_subset(vs, ids.to_set());
                assert(false);
            }
            let x0 = choose|x: u64| #[trigger] vs.contains(x) && !res@.contains(VertexId(x));
            lemma_stuck_graph_has_cycle(g@, res@, x0);
        }
        return None;
    }
    proof {
        let vs = graph.vertex_set();
        let ids = res@.map_values(|v: VertexId| v.0);
        assert forall|a: int, b: int| 0 <= a < ids.len() && 0 <= b < ids.len() && a != b implies ids[a] != ids[b] by {
            assert(res@[a] != res@[b]);
        }
        ids.unique_seq_to_set();
        assert forall|x: u64| ids.to_set().contains(x) implies vs.contains(x) by {
            let k = choose|k: int| 0 <= k < ids.len() && ids[k] == x;
            assert(vs.contains(res@[k].0));
        }
        vstd::set_lib::lemma_len_subset(ids.to_set(), vs);
        vstd::set_lib::lemma_subset_equality(ids.to_set(), vs);
        assert forall|x: u64| #[trigger] vs.contains(x) <==> res@.contains(VertexId(x)) by {
            if vs.contains(x) {
                assert(ids.to_set().contains(x));
                let k = choose|k: int| 0 <= k < ids.len() && ids[k] == x;
                assert(res@[k] == VertexId(x));
            }
            if res@.contains(VertexId(x)) {
                let k = choose|k: int| 0 <= k < res@.len() && res@[k] == VertexId(x);
                assert(vs.contains(res@[k].0));
            }
        }
        assert forall|e: Edge| #[trigger] g@.edge_set().contains(e) implies precedes(res@, e.src(), e.dst()) by {
            graph.lemma_wf_facts();
            assert(res@.contains(VertexId(e.dst())));
            let k = choose|k: int| 0 <= k < res@.len() && res@[k] == VertexId(e.dst());
            assert(res@[k].0 == e.dst());
            let a = choose|a: int| 0 <= a < k && #[trigger] res@[a].0 == e.src();
            assert(res@[a].0 == e.src() && res@[k].0 == e.dst());
        }
    }
    Some(res)
}

} // verus!
