//! Single-source shortest and longest paths: one pass in topological order
//! for a DAG, Bellman-Ford, and SPFA.
use vstd::prelude::*;
use std::collections::HashMap;
use crate::graph::{Edge, VertexId};
use crate::directed_graph::{DirectedGraph, is_walk, walk_from, lemma_walk_push};
use crate::path::{Path, ScoredPath};
use crate::search_queue::Queue;
use crate::topo_sort::{topological_sort, is_topological_order};

verus! {

broadcast use vstd::std_specs::hash::group_hash_axioms;

/// A graph together with one of its topological orders.
pub struct DAG<'a> {
    graph: &'a DirectedGraph,
    order: Vec<VertexId>,
}

impl<'a> DAG<'a> {
    pub closed spec fn graph_of(&self) -> DirectedGraph {
        *self.graph
    }

    pub closed spec fn wf(&self) -> bool {
        self.graph.wf() && is_topological_order(*self.graph, self.order@)
    }

    /// The underlying graph.
    pub fn as_graph(&self) -> (r: &DirectedGraph)
        ensures
            *r == self.graph_of(),
    {
        self.graph
    }
}

/// The graph as a DAG, or none when it has a cycle.
pub fn try_dag(graph: &DirectedGraph) -> (r: Option<DAG>)
    requires
        graph.wf(),
    ensures
        r matches Some(d) ==> d.wf() && d.graph_of() == *graph,
        r is None ==> exists|w: Seq<u64>| crate::topo_sort::is_closed_walk(*graph, w),
{
    match topological_sort(graph) {
        Some(order) => Some(DAG { graph: graph, order: order }),
        None => None,
    }
}

/// `e` cannot improve `m`: when its source is scored and the sum fits in an
/// `i64`, its destination is scored no worse than through `e` (no higher
/// when looking for shortest paths, no lower for longest ones).
pub open spec fn edge_settled<F: Fn(&Edge) -> i64>(f: F, m: Map<u64, ScoredPath>, e: Edge, longest: bool) -> bool {
    m.contains_key(e.src()) && i64::MIN <= m[e.src()].score + weight(f, e) <= i64::MAX ==> {
        &&& m.contains_key(e.dst())
        &&& if longest {
                m[e.dst()].score >= m[e.src()].score + weight(f, e)
            } else {
                m[e.dst()].score <= m[e.src()].score + weight(f, e)
            }
    }
}

/// No edge of `g` can improve `m`.
pub open spec fn all_settled<F: Fn(&Edge) -> i64>(g: DirectedGraph, f: F, m: Map<u64, ScoredPath>, longest: bool) -> bool {
    forall|e: Edge| #[trigger] g.edge_set().contains(e) ==> edge_settled(f, m, e, longest)
}

/// `f` can be called on every edge and always gives the same weight for the
/// same edge.
pub open spec fn weight_fn<F: Fn(&Edge) -> i64>(f: F) -> bool {
    &&& forall|e: &Edge| #[trigger] f.requires((e,))
    &&& forall|e: &Edge, a: i64, b: i64| #[trigger] f.ensures((e,), a) && #[trigger] f.ensures((e,), b) ==> a == b
}

/// The weight that `f` gives to `e`.
pub open spec fn weight<F: Fn(&Edge) -> i64>(f: F, e: Edge) -> int {
    (choose|r: i64| f.ensures((&e,), r)) as int
}

/// Sum of the weights of the edges along `p`.
pub open spec fn path_weight<F: Fn(&Edge) -> i64>(f: F, p: Seq<VertexId>) -> int
    decreases p.len(),
{
    if p.len() <= 1 {
        0
    } else {
        path_weight(f, p.drop_last()) + weight(f, Edge(p[p.len() - 2], p.last()))
    }
}

/// `sp` is a walk of `g` from `start` to `v`, scored with its weight.
pub open spec fn scores_walk<F: Fn(&Edge) -> i64>(g: DirectedGraph, f: F, start: VertexId, v: u64, sp: ScoredPath) -> bool {
    &&& sp.path@.len() > 0
    &&& sp.path@[0] == start
    &&& sp.path@.last().0 == v
    &&& is_walk(g, sp.path@)
    &&& sp.score == path_weight(f, sp.path@)
}

/// Every entry of `m` is a scored walk of `g` from `start` to its key.
pub open spec fn all_scored_walks<F: Fn(&Edge) -> i64>(g: DirectedGraph, f: F, start: VertexId, m: Map<u64, ScoredPath>) -> bool {
    forall|v: u64| #[trigger] m.contains_key(v) ==> scores_walk(g, f, start, v, m[v])
}

fn weight_of<F: Fn(&Edge) -> i64>(f: &F, e: &Edge) -> (r: i64)
    requires
        weight_fn(*f),
    ensures
        r == weight(*f, *e),
{
    let r = f(e);
    proof {
        let c = choose|x: i64| f.ensures((e,), x);
        assert(f.ensures((e,), r));
    }
    r
}

proof fn lemma_extend_walk<F: Fn(&Edge) -> i64>(g: DirectedGraph, f: F, start: VertexId, sp: ScoredPath, e: Edge, ext: Path)
    requires
        scores_walk(g, f, start, e.src(), sp),
        g.edge_set().contains(e),
        ext@ == sp.path@.push(e.1),
    ensures
        scores_walk(g, f, start, e.dst(), ScoredPath { path: ext, score: (sp.score + weight(f, e)) as i64 })
            || !(i64::MIN <= sp.score + weight(f, e) <= i64::MAX),
{
    let p = sp.path@;
    assert(ext@.drop_last() =~= p);
    assert(ext@[ext@.len() - 2] == p.last());
    assert(p.last() == e.0);
    assert forall|i: int| 0 <= i && i + 1 < ext@.len() implies #[trigger] g.edge_set().contains(Edge(ext@[i], ext@[i + 1])) by {
        if i + 1 < p.len() {
            assert(ext@[i] == p[i] && ext@[i + 1] == p[i + 1]);
        } else {
            assert(ext@[i] == e.0 && ext@[i + 1] == e.1);
        }
    }
}

/// The best score known for `v`, or none.
fn score_of(scores: &HashMap<u64, ScoredPath>, v: u64) -> (r: Option<i64>)
    ensures
        r is Some <==> scores@.contains_key(v),
        r matches Some(s) ==> s == scores@[v].score,
{
    match scores.get(&v) {
        Some(sp) => Some(sp.score),
        None => None,
    }
}

/// Relaxes `e` from its source: when the source has a score and the path
/// through `e` is better (lower, or higher when `longest`) than the
/// destination's, the destination gets that path. A sum that does not fit
/// in an `i64` is not taken.
fn relax<F: Fn(&Edge) -> i64>(
    graph: &DirectedGraph,
    f: &F,
    start: VertexId,
    scores: &mut HashMap<u64, ScoredPath>,
    e: Edge,
    longest: bool,
) -> (changed: bool)
    requires
        graph.wf(),
        weight_fn(*f),
        graph.edge_set().contains(e),
        all_scored_walks(*graph, *f, start, old(scores)@),
    ensures
        all_scored_walks(*graph, *f, start, final(scores)@),
        final(scores)@.dom() == old(scores)@.dom().union(if changed { set![e.dst()] } else { Set::empty() }),
        !changed ==> final(scores)@ == old(scores)@,
        !longest ==> forall|k: u64| #[trigger] old(scores)@.contains_key(k) ==> final(scores)@[k].score <= old(scores)@[k].score,
        longest ==> forall|k: u64| #[trigger] old(scores)@.contains_key(k) ==> final(scores)@[k].score >= old(scores)@[k].score,
        forall|k: u64| k != e.dst() && #[trigger] old(scores)@.contains_key(k) ==> final(scores)@[k] == old(scores)@[k],
        old(scores)@.contains_key(e.src()) && i64::MIN <= old(scores)@[e.src()].score + weight(*f, e) <= i64::MAX ==> {
            &&& final(scores)@.contains_key(e.dst())
            &&& if longest {
                    final(scores)@[e.dst()].score >= old(scores)@[e.src()].score + weight(*f, e)
                } else {
                    final(scores)@[e.dst()].score <= old(scores)@[e.src()].score + weight(*f, e)
                }
        },
{
    let u = e.0.0;
    let v = e.1.0;
    let w = weight_of(f, &e);
    let (cand_path, cand_score) = match scores.get(&u) {
        None => {
            return false;
        },
        Some(sp) => {
            let s = sp.score as i128 + w as i128;
            if s < i64::MIN as i128 || s > i64::MAX as i128 {
                return false;
            }
            let better = match score_of(scores, v) {
                None => true,
                Some(cur) => if longest { s > cur as i128 } else { s < cur as i128 },
            };
            if !better {
                return false;
            }
            let ext = sp.path.append(e.1);
            proof {
                lemma_extend_walk(*graph, *f, start, *sp, e, ext);
            }
            (ext, s as i64)
        },
    };
    let ghost before = scores@;
    scores.insert(v, ScoredPath { path: cand_path, score: cand_score });
    proof {
        assert(scores@.dom() =~= before.dom().union(set![v]));
    }
    true
}

/// The initial table: `start` reached by the one-vertex path, score 0.
fn initial_scores<F: Fn(&Edge) -> i64>(graph: &DirectedGraph, f: &F, start: VertexId) -> (r: HashMap<u64, ScoredPath>)
    ensures
        all_scored_walks(*graph, *f, start, r@),
        r@.dom() == set![start.0],
        r@[start.0].score == 0,
{
    let mut scores: HashMap<u64, ScoredPath> = HashMap::new();
    let mut one: Vec<VertexId> = Vec::new();
    one.push(start);
    let p = Path::from(&one);
    scores.insert(start.0, ScoredPath { path: p, score: 0 });
    proof {
        assert(scores@.dom() =~= set![start.0]);
        assert(p@.len() == 1);
    }
    scores
}

proof fn lemma_edge_forward(g: DirectedGraph, order: Seq<VertexId>, e: Edge, i: int)
    requires
        is_topological_order(g, order),
        g.edge_set().contains(e),
        0 <= i < order.len(),
        order[i].0 == e.src(),
    ensures
        exists|j: int| i < j < order.len() && #[trigger] order[j].0 == e.dst(),
        forall|j: int| 0 <= j <= i ==> #[trigger] order[j].0 != e.dst(),
{
    let (a, b) = choose|a: int, b: int| 0 <= a < b < order.len() && #[trigger] order[a].0 == e.src() && #[trigger] order[b].0 == e.dst();
    assert(order[a] == order[i]);
    assert forall|j: int| 0 <= j <= i implies #[trigger] order[j].0 != e.dst() by {
        if order[j].0 == e.dst() {
            assert(order[j] == order[b]);
        }
    }
}

fn dag_paths<F: Fn(&Edge) -> i64>(dag: &DAG, scorefn: &F, start: VertexId, longest: bool) -> (r: HashMap<u64, ScoredPath>)
    requires
        dag.wf(),
        weight_fn(*scorefn),
    ensures
        all_scored_walks(dag.graph_of(), *scorefn, start, r@),
        r@.contains_key(start.0),
        r@[start.0].score == 0,
        all_settled(dag.graph_of(), *scorefn, r@, longest),
{
    let graph = dag.graph;
    let mut scores = initial_scores(graph, scorefn, start);
    let order = &dag.order;
    let ghost ord = order@;
    let ghost g = *graph;
    proof {
        graph.lemma_wf_facts();
    }
    let mut k: usize = 0;
    while k < order.len() && order[k] != start
        invariant
            k <= order@.len(),
            forall|i: int| 0 <= i < k ==> order@[i] != start,
        decreases order@.len() - k,
    {
        k += 1;
    }
    let k0 = k;
    proof {
        if k0 < ord.len() {
            assert(ord[k0 as int] == start);
        } else {
            assert(!ord.contains(start));
            assert(!g.vertex_set().contains(start.0));
        }
    }
    while k < order.len()
        invariant
            graph.wf(),
            *graph == dag.graph_of(),
            g == *graph,
            ord == order@,
            is_topological_order(g, ord),
            weight_fn(*scorefn),
            all_scored_walks(*graph, *scorefn, start, scores@),
            scores@.contains_key(start.0),
            scores@[start.0].score == 0,
            k0 <= k <= ord.len(),
            k0 < ord.len() ==> ord[k0 as int] == start,
            k0 == ord.len() ==> !g.vertex_set().contains(start.0),
            forall|x: u64| #[trigger] scores@.contains_key(x) ==>
                x == start.0 || exists|i: int| k0 <= i < ord.len() && #[trigger] ord[i].0 == x,
            forall|i: int, e: Edge| k0 <= i < k && #[trigger] g.edge_set().contains(e) && e.src() == #[trigger] ord[i].0 ==>
                edge_settled(*scorefn, scores@, e, longest),
        decreases ord.len() - k,
    {
        let v = order[k];
        let out = graph.outbound_edges(v);
        let mut j: usize = 0;
        while j < out.len()
            invariant
                graph.wf(),
                g == *graph,
                ord == order@,
                is_topological_order(g, ord),
                weight_fn(*scorefn),
                all_scored_walks(*graph, *scorefn, start, scores@),
                scores@.contains_key(start.0),
                scores@[start.0].score == 0,
                k0 <= k < ord.len(),
                v == ord[k as int],
                k0 < ord.len() ==> ord[k0 as int] == start,
                j <= out@.len(),
                forall|e: Edge| #[trigger] out@.contains(e) <==> (graph.edge_set().contains(e) && e.src() == v.0),
                forall|x: u64| #[trigger] scores@.contains_key(x) ==>
                    x == start.0 || exists|i: int| k0 <= i < ord.len() && #[trigger] ord[i].0 == x,
                forall|i: int, e: Edge| k0 <= i < k && #[trigger] g.edge_set().contains(e) && e.src() == #[trigger] ord[i].0 ==>
                    edge_settled(*scorefn, scores@, e, longest),
                forall|m: int| 0 <= m < j ==> edge_settled(*scorefn, scores@, #[trigger] out@[m], longest),
            decreases out@.len() - j,
        {
            let e = out[j];
            let ghost before = scores@;
            proof {
                assert(out@.contains(e));
                lemma_edge_forward(g, ord, e, k as int);
            }
            relax(graph, scorefn, start, &mut scores, e, longest);
            proof {
                let after = scores@;
                // the destination comes after every processed vertex, and after `start`
                assert(e.dst() != start.0) by {
                    if e.dst() == start.0 {
                        assert(ord[k0 as int].0 == e.dst());
                    }
                }
                assert forall|x: u64| #[trigger] after.contains_key(x) implies
                    x == start.0 || exists|i: int| k0 <= i < ord.len() && #[trigger] ord[i].0 == x by {
                    if x == e.dst() && !before.contains_key(x) {
                        let jj = choose|jj: int| k < jj < ord.len() && #[trigger] ord[jj].0 == e.dst();
                        assert(ord[jj].0 == x);
                    } else {
                        assert(before.contains_key(x));
                    }
                }
                assert forall|i: int, e2: Edge| k0 <= i < k && #[trigger] g.edge_set().contains(e2) && e2.src() == #[trigger] ord[i].0 implies
                    edge_settled(*scorefn, after, e2, longest) by {
                    assert(edge_settled(*scorefn, before, e2, longest));
                    assert(ord[i].0 != e.dst());
                    if before.contains_key(e2.dst()) {
                        assert(after.contains_key(e2.dst()));
                    }
                }
                assert forall|m: int| 0 <= m < j + 1 implies edge_settled(*scorefn, after, #[trigger] out@[m], longest) by {
                    let e2 = out@[m];
                    assert(out@.contains(e2));
                    assert(e2.src() == v.0);
                    assert(v.0 != e.dst());
                    if m < j {
                        assert(edge_settled(*scorefn, before, e2, longest));
                        if before.contains_key(e2.dst()) {
                            assert(after.contains_key(e2.dst()));
                        }
                    } else {
                        assert(e2 == e);
                        if before.contains_key(e.src()) {
                            assert(after[e.src()] == before[e.src()]);
                        } else {
                            assert(!after.contains_key(e.src()));
                        }
                    }
                }
            }
            j += 1;
        }
        proof {
            assert forall|i: int, e2: Edge| k0 <= i < k + 1 && #[trigger] g.edge_set().contains(e2) && e2.src() == #[trigger] ord[i].0 implies
                edge_settled(*scorefn, scores@, e2, longest) by {
                if i == k {
                    assert(out@.contains(e2));
                    let m = choose|m: int| 0 <= m < out@.len() && out@[m] == e2;
                    assert(edge_settled(*scorefn, scores@, out@[m], longest));
                }
            }
        }
        k += 1;
    }
    proof {
        assert forall|e: Edge| #[trigger] g.edge_set().contains(e) implies edge_settled(*scorefn, scores@, e, longest) by {
            if scores@.contains_key(e.src()) {
                assert(g.vertex_set().contains(e.src()));
                if e.src() == start.0 {
                    assert(k0 < ord.len());
                    assert(ord[k0 as int].0 == e.src());
                } else {
                    let i = choose|i: int| k0 <= i < ord.len() && #[trigger] ord[i].0 == e.src();
                    assert(ord[i].0 == e.src());
                }
            }
        }
    }
    scores
}

/// Shortest paths from `start` to every vertex it reaches, in a DAG: one
/// pass over the vertices in topological order, from `start` on, relaxing
/// their outbound edges. Each entry is a walk from `start` to its key,
/// scored with its weight.
pub fn dag_shortest_paths<F: Fn(&Edge) -> i64>(dag: DAG, scorefn: F, start: VertexId) -> (r: HashMap<u64, ScoredPath>)
    requires
        dag.wf(),
        weight_fn(scorefn),
    ensures
        all_scored_walks(dag.graph_of(), scorefn, start, r@),
        r@.contains_key(start.0),
        r@[start.0].score == 0,
        all_settled(dag.graph_of(), scorefn, r@, false),
{
    dag_paths(&dag, &scorefn, start, false)
}

/// The shortest path from `start` to `end` in a DAG, if `end` is reached.
pub fn dag_shortest_path<F: Fn(&Edge) -> i64>(dag: DAG, scorefn: F, start: VertexId, end: VertexId) -> (r: Option<ScoredPath>)
    requires
        dag.wf(),
        weight_fn(scorefn),
    ensures
        r matches Some(sp) ==> scores_walk(dag.graph_of(), scorefn, start, end.0, sp),
        end == start ==> r is Some,
        walks_fit(dag.graph_of(), scorefn, start.0) ==> forall|p: Seq<VertexId>|
            #[trigger] walk_from(dag.graph_of(), start.0, p) && p.last() == end ==> {
                &&& r is Some
                &&& r.unwrap().score <= path_weight(scorefn, p)
            },
{
    let mut all = dag_paths(&dag, &scorefn, start, false);
    proof {
        if walks_fit(dag.graph_of(), scorefn, start.0) {
            lemma_scored_sums_fit(dag.graph_of(), scorefn, start, all@);
            assert forall|p: Seq<VertexId>| #[trigger] walk_from(dag.graph_of(), start.0, p) && p.last() == end implies
                all@.contains_key(end.0) && all@[end.0].score <= path_weight(scorefn, p) by {
                law_settled_table_bounds_every_walk(dag.graph_of(), scorefn, start, all@, false, p);
            }
        }
    }
    all.remove(&end.0)
}

/// Longest paths from `start` to every vertex it reaches, in a DAG (the
/// same pass, keeping the higher score).
pub fn dag_longest_paths<F: Fn(&Edge) -> i64>(dag: DAG, scorefn: F, start: VertexId) -> (r: HashMap<u64, ScoredPath>)
    requires
        dag.wf(),
        weight_fn(scorefn),
    ensures
        all_scored_walks(dag.graph_of(), scorefn, start, r@),
        r@.contains_key(start.0),
        r@[start.0].score == 0,
        all_settled(dag.graph_of(), scorefn, r@, true),
{
    dag_paths(&dag, &scorefn, start, true)
}

/// The longest path from `start` to `end` in a DAG, if `end` is reached.
pub fn dag_longest_path<F: Fn(&Edge) -> i64>(dag: DAG, scorefn: F, start: VertexId, end: VertexId) -> (r: Option<ScoredPath>)
    requires
        dag.wf(),
        weight_fn(scorefn),
    ensures
        r matches Some(sp) ==> scores_walk(dag.graph_of(), scorefn, start, end.0, sp),
        end == start ==> r is Some,
        walks_fit(dag.graph_of(), scorefn, start.0) ==> forall|p: Seq<VertexId>|
            #[trigger] walk_from(dag.graph_of(), start.0, p) && p.last() == end ==> {
                &&& r is Some
                &&& r.unwrap().score >= path_weight(scorefn, p)
            },
{
    let mut all = dag_paths(&dag, &scorefn, start, true);
    proof {
        if walks_fit(dag.graph_of(), scorefn, start.0) {
            lemma_scored_sums_fit(dag.graph_of(), scorefn, start, all@);
            assert forall|p: Seq<VertexId>| #[trigger] walk_from(dag.graph_of(), start.0, p) && p.last() == end implies
                all@.contains_key(end.0) && all@[end.0].score >= path_weight(scorefn, p) by {
                law_settled_table_bounds_every_walk(dag.graph_of(), scorefn, start, all@, true, p);
            }
        }
    }
    all.remove(&end.0)
}

/// One relaxation round over all the edges; returns whether a score
/// changed.
fn relax_all<F: Fn(&Edge) -> i64>(
    graph: &DirectedGraph,
    f: &F,
    start: VertexId,
    edges: &Vec<Edge>,
    scores: &mut HashMap<u64, ScoredPath>,
    len: Ghost<int>,
) -> (changed: bool)
    requires
        graph.wf(),
        weight_fn(*f),
        forall|e: Edge| #[trigger] edges@.contains(e) <==> graph.edge_set().contains(e),
        all_scored_walks(*graph, *f, start, old(scores)@),
        old(scores)@.contains_key(start.0),
    ensures
        all_scored_walks(*graph, *f, start, final(scores)@),
        final(scores)@.contains_key(start.0),
        final(scores)@[start.0].score <= old(scores)@[start.0].score,
        len@ >= 1 && walks_above_min(*graph, *f, start.0) && short_walks_fit(*graph, *f, start.0, len@ + 1)
            && bounded_by_walks(*graph, *f, start.0, old(scores)@, len@)
            ==> bounded_by_walks(*graph, *f, start.0, final(scores)@, len@ + 1),
{
    let ghost hyp = len@ >= 1 && walks_above_min(*graph, *f, start.0) && short_walks_fit(*graph, *f, start.0, len@ + 1)
        && bounded_by_walks(*graph, *f, start.0, old(scores)@, len@);
    let mut changed = false;
    let mut j: usize = 0;
    while j < edges.len()
        invariant
            graph.wf(),
            weight_fn(*f),
            forall|e: Edge| #[trigger] edges@.contains(e) <==> graph.edge_set().contains(e),
            all_scored_walks(*graph, *f, start, scores@),
            scores@.contains_key(start.0),
            scores@[start.0].score <= old(scores)@[start.0].score,
            j <= edges@.len(),
            hyp == (len@ >= 1 && walks_above_min(*graph, *f, start.0) && short_walks_fit(*graph, *f, start.0, len@ + 1)
                && bounded_by_walks(*graph, *f, start.0, old(scores)@, len@)),
            hyp ==> bounded_by_walks(*graph, *f, start.0, scores@, len@),
            hyp ==> forall|p: Seq<VertexId>| #[trigger] walk_from(*graph, start.0, p) && p.len() == len@ + 1
                && edges@.subrange(0, j as int).contains(Edge(p[len@ - 1], p[len@]))
                ==> scores@.contains_key(p.last().0) && scores@[p.last().0].score <= path_weight(*f, p),
        decreases edges@.len() - j,
    {
        let e = edges[j];
        let ghost before = scores@;
        proof {
            assert(edges@.contains(edges@[j as int]));
        }
        if relax(graph, f, start, scores, e, false) {
            changed = true;
        }
        proof {
            if hyp {
                let after = scores@;
                assert forall|p: Seq<VertexId>| #[trigger] walk_from(*graph, start.0, p) && p.len() <= len@ implies
                    after.contains_key(p.last().0) && after[p.last().0].score <= path_weight(*f, p) by {
                    assert(before.contains_key(p.last().0));
                }
                let sub = edges@.subrange(0, j as int + 1);
                crate::directed_graph::lemma_drop_last(sub);
                assert(sub.drop_last() =~= edges@.subrange(0, j as int));
                assert forall|p: Seq<VertexId>| #[trigger] walk_from(*graph, start.0, p) && p.len() == len@ + 1
                    && sub.contains(Edge(p[len@ - 1], p[len@]))
                    implies after.contains_key(p.last().0) && after[p.last().0].score <= path_weight(*f, p) by {
                    if Edge(p[len@ - 1], p[len@]) == e {
                        let q = p.drop_last();
                        assert forall|x: int| 0 <= x && x + 1 < q.len() implies #[trigger] graph.edge_set().contains(Edge(q[x], q[x + 1])) by {
                            assert(q[x] == p[x] && q[x + 1] == p[x + 1]);
                        }
                        assert(walk_from(*graph, start.0, q));
                        assert(q.last() == e.0);
                        assert(before.contains_key(e.src()));
                        let sp = before[e.src()];
                        assert(scores_walk(*graph, *f, start, e.src(), sp));
                        // the sum does not fall below i64::MIN: it is the weight of a walk
                        let w = sp.path@;
                        assert(w.last() == e.0);
                        crate::directed_graph::lemma_walk_push(*graph, start.0, w, e.1);
                        let wv = w.push(e.1);
                        assert(wv.drop_last() =~= w);
                        assert(wv[wv.len() - 2] == e.0);
                        assert(Edge(wv[wv.len() - 2], wv.last()) == e);
                        assert(walk_from(*graph, start.0, wv));
                        assert(path_weight(*f, wv) == sp.score + weight(*f, e));
                        assert(p[p.len() - 2] == e.0 && p.last() == e.1);
                        assert(path_weight(*f, p) == path_weight(*f, q) + weight(*f, e));
                    } else {
                        assert(edges@.subrange(0, j as int).contains(Edge(p[len@ - 1], p[len@])));
                        assert(before.contains_key(p.last().0));
                    }
                }
            }
        }
        j += 1;
    }
    proof {
        if hyp {
            assert(edges@.subrange(0, edges@.len() as int) =~= edges@);
            assert forall|p: Seq<VertexId>| #[trigger] walk_from(*graph, start.0, p) && p.len() <= len@ + 1 implies
                scores@.contains_key(p.last().0) && scores@[p.last().0].score <= path_weight(*f, p) by {
                if p.len() == len@ + 1 {
                    let x = len@ - 1;
                    assert(graph.edge_set().contains(Edge(p[x], p[x + 1])));
                    assert(edges@.contains(Edge(p[len@ - 1], p[len@])));
                }
            }
        }
    }
    changed
}

/// Every edge of `g` from a scored vertex leads to a scored vertex whose
/// score is at most the source's score plus the edge's weight.
pub open spec fn no_edge_improves<F: Fn(&Edge) -> i64>(g: DirectedGraph, f: F, m: Map<u64, ScoredPath>) -> bool {
    forall|e: Edge| #[trigger] g.edge_set().contains(e) && m.contains_key(e.src()) ==>
        m.contains_key(e.dst()) && m[e.dst()].score <= m[e.src()].score + weight(f, e)
}

/// Whether some edge can still lower a score.
fn can_improve<F: Fn(&Edge) -> i64>(f: &F, edges: &Vec<Edge>, scores: &HashMap<u64, ScoredPath>) -> (r: bool)
    requires
        weight_fn(*f),
    ensures
        !r ==> forall|e: Edge| #[trigger] edges@.contains(e) && scores@.contains_key(e.src()) ==>
            scores@.contains_key(e.dst()) && scores@[e.dst()].score <= scores@[e.src()].score + weight(*f, e),
        r ==> exists|e: Edge| #[trigger] edges@.contains(e) && scores@.contains_key(e.src())
            && (!scores@.contains_key(e.dst()) || scores@[e.dst()].score > scores@[e.src()].score + weight(*f, e)),
{
    let mut j: usize = 0;
    while j < edges.len()
        invariant
            weight_fn(*f),
            j <= edges@.len(),
            forall|k: int| 0 <= k < j && #[trigger] scores@.contains_key(edges@[k].src()) ==>
                scores@.contains_key(edges@[k].dst()) && scores@[edges@[k].dst()].score <= scores@[edges@[k].src()].score + weight(*f, edges@[k]),
        decreases edges@.len() - j,
    {
        let e = edges[j];
        let w = weight_of(f, &e);
        match score_of(scores, e.0.0) {
            Some(su) => {
                let s = su as i128 + w as i128;
                match score_of(scores, e.1.0) {
                    None => {
                        proof {
                            assert(edges@.contains(edges@[j as int]));
                        }
                        return true;
                    },
                    Some(sv) => {
                        if s < sv as i128 {
                            proof {
                                assert(edges@.contains(edges@[j as int]));
                            }
                            return true;
                        }
                    },
                }
            },
            None => {},
        }
        j += 1;
    }
    proof {
        assert forall|e: Edge| #[trigger] edges@.contains(e) && scores@.contains_key(e.src()) implies
            scores@.contains_key(e.dst()) && scores@[e.dst()].score <= scores@[e.src()].score + weight(*f, e) by {
            let k = choose|k: int| 0 <= k < edges@.len() && edges@[k] == e;
            assert(scores@.contains_key(edges@[k].src()));
        }
    }
    false
}

/// Bellman-Ford: `|V| - 1` rounds of relaxation over all edges; none when
/// a further round could still lower a score. A table that comes back
/// holds, for every vertex a walk from `start` reaches, a walk of least
/// weight; and then no closed walk of negative weight is reachable. None
/// comes only when such a closed walk is reachable, or when a walk from
/// `start` through at most `|V|` vertices weighs outside the range of `i64`.
pub fn bellman_ford<F: Fn(&Edge) -> i64>(graph: &DirectedGraph, scorefn: F, start: VertexId) -> (r: Option<HashMap<u64, ScoredPath>>)
    requires
        graph.wf(),
        weight_fn(scorefn),
    ensures
        r matches Some(m) ==> {
            &&& all_scored_walks(*graph, scorefn, start, m@)
            &&& m@.contains_key(start.0)
            &&& m@[start.0].score == 0
            &&& no_edge_improves(*graph, scorefn, m@)
            &&& forall|p: Seq<VertexId>| #[trigger] walk_from(*graph, start.0, p) ==>
                    m@.contains_key(p.last().0) && m@[p.last().0].score <= path_weight(scorefn, p)
            &&& forall|p: Seq<VertexId>, c: Seq<VertexId>|
                    #[trigger] walk_from(*graph, start.0, p) && #[trigger] closed_walk_at(*graph, p.last(), c)
                    ==> path_weight(scorefn, c) >= 0
        },
        r is None ==> !no_negative_cycle(*graph, scorefn, start.0)
            || !short_walks_fit(*graph, scorefn, start.0,
                if graph.vertex_set().len() > 1 { graph.vertex_set().len() as int } else { 1 }),
{
    let mut scores = initial_scores(graph, &scorefn, start);
    let edges = graph.edges();
    let n = graph.vertex_count();
    let ghost g = *graph;
    let ghost top: int = if n > 1 { n as int } else { 1 };
    let ghost good = no_negative_cycle(g, scorefn, start.0) && short_walks_fit(g, scorefn, start.0, top);
    proof {
        if good {
            assert forall|p: Seq<VertexId>| #[trigger] walk_from(g, start.0, p) implies i64::MIN <= path_weight(scorefn, p) by {
                lemma_simple_walk_no_heavier(g, scorefn, start.0, p);
                let q = choose|q: Seq<VertexId>| #[trigger] walk_from(g, start.0, q) && q.no_duplicates() && q.last() == p.last()
                    && path_weight(scorefn, q) <= path_weight(scorefn, p);
                lemma_simple_walk_short(g, start.0, q);
            }
        }
        assert forall|p: Seq<VertexId>| #[trigger] walk_from(g, start.0, p) && p.len() <= 1 implies
            scores@.contains_key(p.last().0) && scores@[p.last().0].score <= path_weight(scorefn, p) by {
            assert(p.last() == p[0]);
        }
    }
    let mut round: usize = 1;
    while round < n
        invariant
            graph.wf(),
            g == *graph,
            weight_fn(scorefn),
            n == graph.vertex_set().len(),
            top == (if n > 1 { n as int } else { 1 }),
            1 <= round,
            round as int <= top,
            good == (no_negative_cycle(g, scorefn, start.0) && short_walks_fit(g, scorefn, start.0, top)),
            good ==> walks_above_min(g, scorefn, start.0),
            good ==> bounded_by_walks(g, scorefn, start.0, scores@, round as int),
            forall|e: Edge| #[trigger] edges@.contains(e) <==> graph.edge_set().contains(e),
            all_scored_walks(*graph, scorefn, start, scores@),
            scores@.contains_key(start.0),
            scores@[start.0].score <= 0,
        decreases n - round,
    {
        relax_all(graph, &scorefn, start, &edges, &mut scores, Ghost(round as int));
        round += 1;
    }
    proof {
        assert(round as int == top);
    }
    if can_improve(&scorefn, &edges, &scores) {
        proof {
            if good {
                let e = choose|e: Edge| #[trigger] edges@.contains(e) && scores@.contains_key(e.src())
                    && (!scores@.contains_key(e.dst()) || scores@[e.dst()].score > scores@[e.src()].score + weight(scorefn, e));
                assert(g.edge_set().contains(e));
                let sp = scores@[e.src()];
                assert(scores_walk(g, scorefn, start, e.src(), sp));
                let w = sp.path@;
                assert(w.last() == e.0);
                crate::directed_graph::lemma_walk_push(g, start.0, w, e.1);
                let wv = w.push(e.1);
                assert(wv.drop_last() =~= w);
                assert(Edge(wv[wv.len() - 2], wv.last()) == e);
                assert(path_weight(scorefn, wv) == sp.score + weight(scorefn, e));
                lemma_simple_walk_no_heavier(g, scorefn, start.0, wv);
                let q = choose|q: Seq<VertexId>| #[trigger] walk_from(g, start.0, q) && q.no_duplicates() && q.last() == wv.last()
                    && path_weight(scorefn, q) <= path_weight(scorefn, wv);
                lemma_simple_walk_short(g, start.0, q);
                assert(q.last().0 == e.dst());
                assert(false);
            }
        }
        None
    } else {
        proof {
            assert forall|e: Edge| #[trigger] graph.edge_set().contains(e) && scores@.contains_key(e.src()) implies
                scores@.contains_key(e.dst()) && scores@[e.dst()].score <= scores@[e.src()].score + weight(scorefn, e) by {
                assert(edges@.contains(e));
            }
            let m = scores@;
            assert forall|p: Seq<VertexId>, c: Seq<VertexId>|
                #[trigger] walk_from(*graph, start.0, p) && #[trigger] closed_walk_at(*graph, p.last(), c)
                implies path_weight(scorefn, c) >= 0 by {
                law_settled_scores_bound_every_walk(*graph, scorefn, start, m, p);
                law_settled_scores_bound_every_walk(*graph, scorefn, p.last(), m, c);
            }
            let sp = m[start.0];
            assert(scores_walk(*graph, scorefn, start, start.0, sp));
            let w = sp.path@;
            assert(w.last() == start);
            if w.len() >= 2 {
                let one = seq![start];
                assert(walk_from(*graph, start.0, one));
                assert(one.last() == start);
                assert(closed_walk_at(*graph, start, w));
                assert(path_weight(scorefn, w) >= 0);
            }
            assert forall|p: Seq<VertexId>| #[trigger] walk_from(*graph, start.0, p) implies
                m.contains_key(p.last().0) && m[p.last().0].score <= path_weight(scorefn, p) by {
                law_settled_scores_bound_every_walk(*graph, scorefn, start, m, p);
            }
        }
        Some(scores)
    }
}

/// When no edge can improve a table of scores, no walk from `start` does
/// better: every vertex that a walk from `start` reaches is scored, at most
/// `start`'s score plus the weight of the walk.
pub proof fn law_settled_scores_bound_every_walk<F: Fn(&Edge) -> i64>(
    g: DirectedGraph,
    f: F,
    start: VertexId,
    m: Map<u64, ScoredPath>,
    p: Seq<VertexId>,
)
    requires
        no_edge_improves(g, f, m),
        m.contains_key(start.0),
        walk_from(g, start.0, p),
    ensures
        m.contains_key(p.last().0),
        m[p.last().0].score <= m[start.0].score + path_weight(f, p),
    decreases p.len(),
{
    if p.len() > 1 {
        let q = p.drop_last();
        let x = q.len() - 1;
        assert(g.edge_set().contains(Edge(p[x], p[x + 1])));
        assert forall|i: int| 0 <= i && i + 1 < q.len() implies #[trigger] g.edge_set().contains(Edge(q[i], q[i + 1])) by {
            assert(q[i] == p[i] && q[i + 1] == p[i + 1]);
        }
        law_settled_scores_bound_every_walk(g, f, start, m, q);
        let e = Edge(q.last(), p.last());
        assert(p[x] == q.last() && p[x + 1] == p.last());
        assert(g.edge_set().contains(e));
        assert(p[p.len() - 2] == q.last());
    }
}

/// No sum of a scored vertex's score and one of its edges' weights
/// leaves the range of `i64`.
pub open spec fn sums_fit<F: Fn(&Edge) -> i64>(g: DirectedGraph, f: F, m: Map<u64, ScoredPath>) -> bool {
    forall|e: Edge| #[trigger] g.edge_set().contains(e) && m.contains_key(e.src()) ==>
        i64::MIN <= m[e.src()].score + weight(f, e) <= i64::MAX
}

/// `c` is a closed walk of `g` from `v` back to `v`, along at least one
/// edge.
pub open spec fn closed_walk_at(g: DirectedGraph, v: VertexId, c: Seq<VertexId>) -> bool {
    c.len() >= 2 && walk_from(g, v.0, c) && c[0] == v && c.last() == v
}

/// Every walk of `g` from `s` weighs within the range of `i64`.
pub open spec fn walks_fit<F: Fn(&Edge) -> i64>(g: DirectedGraph, f: F, s: u64) -> bool {
    forall|p: Seq<VertexId>| #[trigger] walk_from(g, s, p) ==> i64::MIN <= path_weight(f, p) <= i64::MAX
}

/// When every walk from `start` fits in an `i64`, so does every sum that
/// a table of scored walks from `start` can form with one more edge.
proof fn lemma_scored_sums_fit<F: Fn(&Edge) -> i64>(g: DirectedGraph, f: F, start: VertexId, m: Map<u64, ScoredPath>)
    requires
        all_scored_walks(g, f, start, m),
        walks_fit(g, f, start.0),
    ensures
        sums_fit(g, f, m),
{
    assert forall|e: Edge| #[trigger] g.edge_set().contains(e) && m.contains_key(e.src()) implies
        i64::MIN <= m[e.src()].score + weight(f, e) <= i64::MAX by {
        let p = m[e.src()].path@;
        assert(scores_walk(g, f, start, e.src(), m[e.src()]));
        assert(p.last() == e.0);
        assert(walk_from(g, start.0, p));
        lemma_walk_push(g, start.0, p, e.1);
        let q = p.push(e.1);
        assert(q.drop_last() =~= p);
        assert(q[q.len() - 2] == e.0);
        assert(Edge(q[q.len() - 2], q.last()) == e);
        assert(walk_from(g, start.0, q));
    }
}

/// A table on which no edge can improve is optimal: every vertex that a
/// walk from `start` reaches is scored, no worse than `start`'s score plus
/// the weight of the walk (at most it for shortest paths, at least it for
/// longest ones), when no sum along the way overflows.
pub proof fn law_settled_table_bounds_every_walk<F: Fn(&Edge) -> i64>(
    g: DirectedGraph,
    f: F,
    start: VertexId,
    m: Map<u64, ScoredPath>,
    longest: bool,
    p: Seq<VertexId>,
)
    requires
        all_settled(g, f, m, longest),
        sums_fit(g, f, m),
        m.contains_key(start.0),
        walk_from(g, start.0, p),
    ensures
        m.contains_key(p.last().0),
        longest ==> m[p.last().0].score >= m[start.0].score + path_weight(f, p),
        !longest ==> m[p.last().0].score <= m[start.0].score + path_weight(f, p),
    decreases p.len(),
{
    if p.len() > 1 {
        let q = p.drop_last();
        let x = q.len() - 1;
        assert(g.edge_set().contains(Edge(p[x], p[x + 1])));
        assert forall|i: int| 0 <= i && i + 1 < q.len() implies #[trigger] g.edge_set().contains(Edge(q[i], q[i + 1])) by {
            assert(q[i] == p[i] && q[i + 1] == p[i + 1]);
        }
        law_settled_table_bounds_every_walk(g, f, start, m, longest, q);
        let e = Edge(q.last(), p.last());
        assert(p[x] == q.last() && p[x + 1] == p.last());
        assert(g.edge_set().contains(e));
        assert(edge_settled(f, m, e, longest));
        assert(p[p.len() - 2] == q.last());
    }
}

/// No closed walk of negative weight starts at a vertex that a walk of `g`
/// from `s` reaches.
pub open spec fn no_negative_cycle<F: Fn(&Edge) -> i64>(g: DirectedGraph, f: F, s: u64) -> bool {
    forall|p: Seq<VertexId>, c: Seq<VertexId>|
        #[trigger] walk_from(g, s, p) && #[trigger] closed_walk_at(g, p.last(), c) ==> path_weight(f, c) >= 0
}

/// Every walk of `g` from `s` with at most `len` vertices weighs within the
/// range of `i64`.
pub open spec fn short_walks_fit<F: Fn(&Edge) -> i64>(g: DirectedGraph, f: F, s: u64, len: int) -> bool {
    forall|p: Seq<VertexId>| #[trigger] walk_from(g, s, p) && p.len() <= len ==> i64::MIN <= path_weight(f, p) <= i64::MAX
}

/// Every walk of `g` from `s` with at most `len` vertices ends at a vertex
/// of `m`, scored at most the walk's weight.
pub open spec fn bounded_by_walks<F: Fn(&Edge) -> i64>(g: DirectedGraph, f: F, s: u64, m: Map<u64, ScoredPath>, len: int) -> bool {
    forall|p: Seq<VertexId>| #[trigger] walk_from(g, s, p) && p.len() <= len ==>
        m.contains_key(p.last().0) && m[p.last().0].score <= path_weight(f, p)
}

/// Every walk of `g` from `s` weighs at least `i64::MIN`.
pub open spec fn walks_above_min<F: Fn(&Edge) -> i64>(g: DirectedGraph, f: F, s: u64) -> bool {
    forall|p: Seq<VertexId>| #[trigger] walk_from(g, s, p) ==> i64::MIN <= path_weight(f, p)
}

/// The weight of two walks joined at a shared vertex is the sum of their
/// weights.
proof fn lemma_weight_concat<F: Fn(&Edge) -> i64>(f: F, a: Seq<VertexId>, b: Seq<VertexId>)
    requires
        a.len() >= 1,
        b.len() >= 1,
        a.last() == b[0],
    ensures
        path_weight(f, a + b.drop_first()) == path_weight(f, a) + path_weight(f, b),
    decreases b.len(),
{
    let j = a + b.drop_first();
    if b.len() == 1 {
        assert(j =~= a);
    } else {
        let b2 = b.drop_last();
        lemma_weight_concat(f, a, b2);
        assert(j.drop_last() =~= a + b2.drop_first());
        assert(j.last() == b.last());
        assert(j[j.len() - 2] == b[b.len() - 2]) by {
            if b.len() == 2 {
                assert(j[j.len() - 2] == a.last());
            } else {
                assert(j[j.len() - 2] == b.drop_first()[b.len() - 3]);
            }
        }
        assert(path_weight(f, b) == path_weight(f, b2) + weight(f, Edge(b[b.len() - 2], b.last())));
    }
}

/// Cutting the closed part out of a walk from `s` that meets a vertex twice
/// leaves a walk from `s` to the same end, no heavier when no closed walk
/// of negative weight is reachable; repeating it gives a walk without
/// repeated vertex.
/// Cutting out the closed part between two visits `lo < hi` of one vertex.
proof fn lemma_cut_closed_part<F: Fn(&Edge) -> i64>(g: DirectedGraph, f: F, s: u64, p: Seq<VertexId>, lo: int, hi: int)
    requires
        walk_from(g, s, p),
        no_negative_cycle(g, f, s),
        0 <= lo < hi < p.len(),
        p[lo] == p[hi],
    ensures
        ({
            let q = p.subrange(0, lo + 1) + p.subrange(hi, p.len() as int).drop_first();
            walk_from(g, s, q) && q.len() < p.len() && q.last() == p.last() && path_weight(f, q) <= path_weight(f, p)
        }),
{
    let a = p.subrange(0, lo + 1);
    let c = p.subrange(lo, hi + 1);
    let b = p.subrange(hi, p.len() as int);
    let q = a + b.drop_first();
    assert(a + c.drop_first() =~= p.subrange(0, hi + 1));
    assert(p.subrange(0, hi + 1) + b.drop_first() =~= p);
    lemma_weight_concat(f, a, c);
    lemma_weight_concat(f, p.subrange(0, hi + 1), b);
    lemma_weight_concat(f, a, b);
    assert forall|x: int| 0 <= x && x + 1 < a.len() implies #[trigger] g.edge_set().contains(Edge(a[x], a[x + 1])) by {
        assert(a[x] == p[x] && a[x + 1] == p[x + 1]);
    }
    assert(walk_from(g, s, a));
    assert forall|x: int| 0 <= x && x + 1 < c.len() implies #[trigger] g.edge_set().contains(Edge(c[x], c[x + 1])) by {
        assert(c[x] == p[lo + x] && c[x + 1] == p[lo + x + 1]);
    }
    assert(closed_walk_at(g, a.last(), c));
    assert(path_weight(f, c) >= 0);
    assert forall|x: int| 0 <= x && x + 1 < q.len() implies #[trigger] g.edge_set().contains(Edge(q[x], q[x + 1])) by {
        if x + 1 < a.len() {
            assert(q[x] == p[x] && q[x + 1] == p[x + 1]);
        } else {
            let y = hi + (x - lo);
            assert(q[x] == p[y] && q[x + 1] == p[y + 1]);
        }
    }
    assert(q.last() == p.last());
}

/// Cutting the closed part out of a walk from `s` that meets a vertex twice
/// leaves a walk from `s` to the same end, no heavier when no closed walk
/// of negative weight is reachable; repeating it gives a walk without
/// repeated vertex.
proof fn lemma_simple_walk_no_heavier<F: Fn(&Edge) -> i64>(g: DirectedGraph, f: F, s: u64, p: Seq<VertexId>)
    requires
        walk_from(g, s, p),
        no_negative_cycle(g, f, s),
    ensures
        exists|q: Seq<VertexId>| #[trigger] walk_from(g, s, q) && q.no_duplicates() && q.last() == p.last()
            && path_weight(f, q) <= path_weight(f, p),
    decreases p.len(),
{
    if p.no_duplicates() {
        assert(walk_from(g, s, p) && p.no_duplicates() && p.last() == p.last() && path_weight(f, p) <= path_weight(f, p));
    } else {
        let (i, j) = choose|i: int, j: int| 0 <= i < p.len() && 0 <= j < p.len() && i != j && p[i] == p[j];
        let lo = if i < j { i } else { j };
        let hi = if i < j { j } else { i };
        lemma_cut_closed_part(g, f, s, p, lo, hi);
        let q = p.subrange(0, lo + 1) + p.subrange(hi, p.len() as int).drop_first();
        lemma_simple_walk_no_heavier(g, f, s, q);
    }
}

/// A walk without repeated vertex has at most as many vertices as the
/// graph, or one.
proof fn lemma_simple_walk_short(g: DirectedGraph, s: u64, q: Seq<VertexId>)
    requires
        g.wf(),
        walk_from(g, s, q),
        q.no_duplicates(),
    ensures
        q.len() <= if g.vertex_set().len() > 1 { g.vertex_set().len() as int } else { 1 },
        q.len() <= g.vertex_set().len() || q.len() == 1,
{
    g.lemma_wf_facts();
    if q.len() > 1 {
        assert forall|k: int| 0 <= k < q.len() implies g.vertex_set().contains(#[trigger] q[k].0) by {
            if k + 1 < q.len() {
                assert(g.edge_set().contains(Edge(q[k], q[k + 1])));
            } else {
                let x = k - 1;
                assert(g.edge_set().contains(Edge(q[x], q[x + 1])));
            }
        }
        crate::directed_graph::lemma_nodup_subset_len(q, g.vertex_set());
    }
}

/// SPFA: relaxation driven by a queue of the vertices whose score changed.
/// It does not detect cycles of negative weight; it gives up after
/// `u64::MAX` steps (see `spfa_within`). Each entry is a walk from `start`
/// to its key, scored with its weight.
pub fn spfa<F: Fn(&Edge) -> i64>(graph: &DirectedGraph, scorefn: F, start: VertexId) -> (r: HashMap<u64, ScoredPath>)
    requires
        graph.wf(),
        weight_fn(scorefn),
    ensures
        all_scored_walks(*graph, scorefn, start, r@),
        r@.contains_key(start.0),
        exists|done: bool| #[trigger] spfa_outcome(*graph, scorefn, start, r@, done),
{
    let (scores, done) = spfa_within(graph, scorefn, start, u64::MAX);
    proof {
        assert(spfa_outcome(*graph, scorefn, start, scores@, done));
    }
    scores
}

/// What a run of SPFA guarantees of its table: when the queue ran empty
/// (`done`), no edge can improve a score, and every vertex that a walk from
/// `start` reaches is scored with at most the walk's weight, provided all
/// walks from `start` weigh within the range of `i64`.
pub open spec fn spfa_outcome<F: Fn(&Edge) -> i64>(g: DirectedGraph, f: F, start: VertexId, m: Map<u64, ScoredPath>, done: bool) -> bool {
    &&& done ==> all_settled(g, f, m, false)
    &&& done && walks_fit(g, f, start.0) ==> forall|p: Seq<VertexId>| #[trigger] walk_from(g, start.0, p) ==>
            m.contains_key(p.last().0) && m[p.last().0].score <= path_weight(f, p)
}

/// SPFA that takes at most `budget` vertices off its queue. The flag tells
/// whether the queue ran empty within that budget; if not, the table holds
/// scored walks but may not be final (a reachable cycle of negative weight
/// keeps the queue from emptying).
pub fn spfa_within<F: Fn(&Edge) -> i64>(graph: &DirectedGraph, scorefn: F, start: VertexId, budget: u64)
    -> (r: (HashMap<u64, ScoredPath>, bool))
    requires
        graph.wf(),
        weight_fn(scorefn),
    ensures
        all_scored_walks(*graph, scorefn, start, r.0@),
        r.0@.contains_key(start.0),
        r.0@[start.0].score <= 0,
        spfa_outcome(*graph, scorefn, start, r.0@, r.1),
        budget == 0 ==> !r.1,
{
    let mut scores = initial_scores(graph, &scorefn, start);
    let mut q: Queue<VertexId> = Queue::new();
    q.push(start);
    let ghost b0 = budget;
    let mut budget = budget;
    let mut done = false;
    proof {
        assert(q@[0] == start);
    }
    while budget > 0
        invariant_except_break
            !done,
            forall|e: Edge| #[trigger] graph.edge_set().contains(e) ==>
                edge_settled(scorefn, scores@, e, false) || q@.contains(e.0),
        invariant
            graph.wf(),
            weight_fn(scorefn),
            all_scored_walks(*graph, scorefn, start, scores@),
            scores@.contains_key(start.0),
            scores@[start.0].score <= 0,
            b0 == 0 ==> budget == 0,
        ensures
            done ==> all_settled(*graph, scorefn, scores@, false),
            b0 == 0 ==> !done,
            all_scored_walks(*graph, scorefn, start, scores@),
            scores@.contains_key(start.0),
            scores@[start.0].score <= 0,
        decreases budget,
    {
        budget -= 1;
        let ghost q0 = q@;
        let vid = match q.pop() {
            Some(v) => v,
            None => {
                done = true;
                proof {
                    assert forall|e: Edge| #[trigger] graph.edge_set().contains(e) implies edge_settled(scorefn, scores@, e, false) by {
                        if !edge_settled(scorefn, scores@, e, false) {
                            assert(q0.contains(e.0));
                        }
                    }
                }
                break;
            },
        };
        proof {
            assert forall|e: Edge| #[trigger] graph.edge_set().contains(e) implies
                edge_settled(scorefn, scores@, e, false) || q@.contains(e.0) || e.0 == vid by {
                if !edge_settled(scorefn, scores@, e, false) && e.0 != vid {
                    let k = choose|k: int| 0 <= k < q0.len() && q0[k] == e.0;
                    assert(q@[k - 1] == e.0);
                }
            }
        }
        let out = graph.outbound_edges(vid);
        let mut j: usize = 0;
        while j < out.len()
            invariant
                graph.wf(),
                weight_fn(scorefn),
                all_scored_walks(*graph, scorefn, start, scores@),
                scores@.contains_key(start.0),
                scores@[start.0].score <= 0,
                !done,
                j <= out@.len(),
                forall|e: Edge| #[trigger] out@.contains(e) <==> (graph.edge_set().contains(e) && e.src() == vid.0),
                forall|e: Edge| #[trigger] graph.edge_set().contains(e) ==>
                    edge_settled(scorefn, scores@, e, false) || q@.contains(e.0)
                    || (e.0 == vid && forall|m: int| 0 <= m < j ==> out@[m] != e),
            decreases out@.len() - j,
        {
            proof {
                assert(out@.contains(out@[j as int]));
            }
            let e = out[j];
            let ghost s0 = scores@;
            let ghost qa = q@;
            let changed = relax(graph, &scorefn, start, &mut scores, e, false);
            if changed {
                q.push(e.1);
            }
            proof {
                assert forall|x: Edge| #[trigger] graph.edge_set().contains(x) implies
                    edge_settled(scorefn, scores@, x, false) || q@.contains(x.0)
                    || (x.0 == vid && forall|m: int| 0 <= m < j + 1 ==> out@[m] != x) by {
                    if changed && x.0 == e.1 {
                        assert(q@[q@.len() - 1] == e.1);
                    } else if x == e {
                        assert(edge_settled(scorefn, scores@, x, false));
                    } else {
                        if qa.contains(x.0) {
                            let k = choose|k: int| 0 <= k < qa.len() && qa[k] == x.0;
                            assert(q@[k] == x.0);
                        } else if edge_settled(scorefn, s0, x, false) {
                            assert(edge_settled(scorefn, scores@, x, false));
                        }
                    }
                }
            }
            j += 1;
        }
        proof {
            assert forall|e: Edge| #[trigger] graph.edge_set().contains(e) implies
                edge_settled(scorefn, scores@, e, false) || q@.contains(e.0) by {
                if e.0 == vid {
                    assert(out@.contains(e));
                }
            }
        }
    }
    proof {
        if done && walks_fit(*graph, scorefn, start.0) {
            lemma_scored_sums_fit(*graph, scorefn, start, scores@);
            assert forall|p: Seq<VertexId>| #[trigger] walk_from(*graph, start.0, p) implies
                scores@.contains_key(p.last().0) && scores@[p.last().0].score <= path_weight(scorefn, p) by {
                law_settled_table_bounds_every_walk(*graph, scorefn, start, scores@, false, p);
            }
        }
    }
    (scores, done)
}

} // verus!
