//! A* search: best-first search ordered by cost so far plus a heuristic.
use vstd::prelude::*;
use crate::graph::VertexId;
use crate::directed_graph::{DirectedGraph, walk_from, reachable};
use crate::path::{Path, ScoredPath};
use crate::constraint::{Constraint, holds};
use crate::iter_best::{best_iter_from, constrained_best_iter_from, path_score_fn, scored_by, all_viable, reaches_by_viable_prefixes, queued_prefix};

verus! {

/// Every constraint of `cs` holds on the finished path `sp`.
pub open spec fn all_hold(cs: Seq<Constraint>, sp: ScoredPath) -> bool {
    forall|i: int| 0 <= i < cs.len() ==> holds(#[trigger] cs[i], sp.path@, sp.score as int)
}

/// Whether every constraint holds on the finished path `sp`.
pub fn check_all_complete_constraints(sp: &ScoredPath, constraints: &Vec<Constraint>) -> (r: bool)
    ensures
        r == all_hold(constraints@, *sp),
{
    let mut i: usize = 0;
    while i < constraints.len()
        invariant
            i <= constraints@.len(),
            forall|k: int| 0 <= k < i ==> holds(#[trigger] constraints@[k], sp.path@, sp.score as int),
        decreases constraints@.len() - i,
    {
        if !constraints[i].check_complete(sp) {
            return false;
        }
        i += 1;
    }
    true
}

/// `r` is what `g` and `h` give `path` in `dg`, added up (when the sum
/// fits in an `i64`).
pub open spec fn costs_sum<G, H>(g: G, h: H, dg: &DirectedGraph, path: &Path, r: i64) -> bool
    where
        G: Fn(&DirectedGraph, &Path) -> i64,
        H: Fn(&DirectedGraph, &Path) -> i64,
{
    exists|a: i64, b: i64| g.ensures((dg, path), a) && h.ensures((dg, path), b) && (i64::MIN <= a + b <= i64::MAX ==> r == a + b)
}

/// `a + b`, held to the range of `i64`.
fn saturating_sum(a: i64, b: i64) -> (r: i64)
    ensures
        i64::MIN <= a + b <= i64::MAX ==> r == a + b,
{
    let s = a as i128 + b as i128;
    if s > i64::MAX as i128 {
        i64::MAX
    } else if s < i64::MIN as i128 {
        i64::MIN
    } else {
        s as i64
    }
}

/// The first path yielded by a best-first search from `start`, ordered by
/// `g + h` (held to the range of `i64`), that ends at `end`: a walk of the
/// graph from `start` to `end`. Each vertex is expanded once.
pub fn shortest_path<G, H>(graph: &DirectedGraph, g: G, h: H, start: VertexId, end: VertexId) -> (r: Option<ScoredPath>)
    where
        G: Fn(&DirectedGraph, &Path) -> i64,
        H: Fn(&DirectedGraph, &Path) -> i64,
    requires
        graph.wf(),
        path_score_fn(g),
        path_score_fn(h),
    ensures
        r matches Some(sp) ==> walk_from(*graph, start.0, sp.path@) && sp.path@.last() == end,
        r matches Some(sp) ==> sp.path@.len() == 1 || costs_sum(&g, &h, graph, &sp.path, sp.score),
        r is None ==> !reachable(*graph, start.0, end),
{
    let gr = &g;
    let hr = &h;
    let f = move |dg: &DirectedGraph, path: &Path| -> (r: i64)
        requires
            gr.requires((dg, path)),
            hr.requires((dg, path)),
        ensures
            costs_sum(gr, hr, dg, path, r),
        {
            let a = gr(dg, path);
            let b = hr(dg, path);
            saturating_sum(a, b)
        };
    let mut it = best_iter_from(graph, f, start);
    loop
        invariant
            it.wf(),
            it.graph_of() == *graph,
            it.start_of() == start.0,
            it.scorefn_of() == f,
            forall|dg: &DirectedGraph, p: &Path, x: i64| #[trigger] f.ensures((dg, p), x) ==> costs_sum(gr, hr, dg, p, x),
            gr == &g,
            hr == &h,
            it.seen().contains(start.0),
            !it.explored().contains(end.0),
        decreases it.unvisited(), it.frontier().len(),
    {
        match it.next() {
            None => {
                proof {
                    if reachable(*graph, start.0, end) {
                        let p = choose|p: Seq<VertexId>| #[trigger] walk_from(*graph, start.0, p) && p.last() == end;
                    }
                }
                return None;
            },
            Some(sp) => {
                let reached = match sp.path.last() {
                    Some(v) => *v == end,
                    None => false,
                };
                if reached {
                    proof {
                        if sp.path@.len() != 1 {
                            assert(scored_by(f, *graph, sp));
                            assert(f.ensures((graph, &sp.path), sp.score));
                            assert(costs_sum(gr, hr, graph, &sp.path, sp.score));
                        }
                    }
                    return Some(sp);
                }
            },
        }
    }
}

/// `p` is a walk of `graph` from `start` to `end` that meets every
/// constraint of `cs` under each score `g + h` may give it, and each of whose
/// prefixes of two or more vertices leaves every constraint viable under
/// each score `g + h` may give that prefix.
pub open spec fn meets_constraints_throughout<G, H>(
    g: G,
    h: H,
    graph: DirectedGraph,
    cs: Seq<Constraint>,
    start: u64,
    end: VertexId,
    p: Seq<VertexId>,
) -> bool
    where
        G: Fn(&DirectedGraph, &Path) -> i64,
        H: Fn(&DirectedGraph, &Path) -> i64,
{
    &&& walk_from(graph, start, p)
    &&& p.last() == end
    &&& forall|c: ScoredPath| c.path@ == p && #[trigger] costs_sum(g, h, &graph, &c.path, c.score) ==> all_hold(cs, c)
    &&& forall|c: ScoredPath| 2 <= c.path@.len() <= p.len() && c.path@ == p.subrange(0, c.path@.len() as int)
            && #[trigger] costs_sum(g, h, &graph, &c.path, c.score) ==> all_viable(cs, c)
}

/// The first path yielded by the constrained best-first search from
/// `start`, ordered by `g + h`, that ends at `end` and satisfies every
/// constraint. The search gives up after `u64::MAX` paths (see
/// `constrained_shortest_path_within`).
pub fn constrained_shortest_path<G, H>(
    graph: &DirectedGraph,
    g: G,
    h: H,
    start: VertexId,
    end: VertexId,
    constraints: Vec<Constraint>,
) -> (r: Option<ScoredPath>)
    where
        G: Fn(&DirectedGraph, &Path) -> i64,
        H: Fn(&DirectedGraph, &Path) -> i64,
    requires
        graph.wf(),
        path_score_fn(g),
        path_score_fn(h),
    ensures
        r matches Some(sp) ==> walk_from(*graph, start.0, sp.path@) && sp.path@.last() == end && all_hold(constraints@, sp),
        r matches Some(sp) ==> costs_sum(&g, &h, graph, &sp.path, sp.score),
        exists|done: bool| #[trigger] search_outcome(&g, &h, *graph, constraints@, start, end, r, done),
{
    let ghost cs = constraints@;
    let ghost gg = g;
    let ghost hh = h;
    let (r, done) = constrained_shortest_path_within(graph, g, h, start, end, constraints, u64::MAX);
    proof {
        assert(search_outcome(&gg, &hh, *graph, cs, start, end, r, done));
    }
    r
}

/// What the constrained search owes when it ran to its end (`done`): a
/// path found, or no walk that meets the constraints with every prefix
/// still viable.
pub open spec fn search_outcome<G, H>(
    g: G,
    h: H,
    graph: DirectedGraph,
    cs: Seq<Constraint>,
    start: VertexId,
    end: VertexId,
    r: Option<ScoredPath>,
    done: bool,
) -> bool
    where
        G: Fn(&DirectedGraph, &Path) -> i64,
        H: Fn(&DirectedGraph, &Path) -> i64,
{
    &&& r is Some ==> done
    &&& r is None && done ==> forall|p: Seq<VertexId>| !#[trigger] meets_constraints_throughout(g, h, graph, cs, start.0, end, p)
}

/// The constrained search of `constrained_shortest_path`, giving up after
/// `budget` paths; the flag tells whether it ended within the budget.
pub fn constrained_shortest_path_within<G, H>(
    graph: &DirectedGraph,
    g: G,
    h: H,
    start: VertexId,
    end: VertexId,
    constraints: Vec<Constraint>,
    budget: u64,
) -> (r: (Option<ScoredPath>, bool))
    where
        G: Fn(&DirectedGraph, &Path) -> i64,
        H: Fn(&DirectedGraph, &Path) -> i64,
    requires
        graph.wf(),
        path_score_fn(g),
        path_score_fn(h),
    ensures
        r.0 matches Some(sp) ==> walk_from(*graph, start.0, sp.path@) && sp.path@.last() == end && all_hold(constraints@, sp),
        r.0 matches Some(sp) ==> costs_sum(&g, &h, graph, &sp.path, sp.score),
        search_outcome(&g, &h, *graph, constraints@, start, end, r.0, r.1),
{
    let gr = &g;
    let hr = &h;
    let f = move |dg: &DirectedGraph, path: &Path| -> (r: i64)
        requires
            gr.requires((dg, path)),
            hr.requires((dg, path)),
        ensures
            costs_sum(gr, hr, dg, path, r),
        {
            let a = gr(dg, path);
            let b = hr(dg, path);
            saturating_sum(a, b)
        };
    let ghost cs = constraints@;
    let mut it = constrained_best_iter_from(graph, f, constraints, start);
    proof {
        assert forall|p: Seq<VertexId>| #[trigger] reaches_by_viable_prefixes(it.scorefn_of(), it.graph_of(),
            it.constraints_of(), it.start_of(), end, p) implies queued_prefix(it.frontier(), p) by {
            assert(p[0] == start);
            assert(it.frontier()[0].path@ =~= p.subrange(0, it.frontier()[0].path@.len() as int));
        }
    }
    let r = it.find_complete(end, budget);
    proof {
        if r.0 is None && r.1 {
            assert forall|p: Seq<VertexId>| !#[trigger] meets_constraints_throughout(&g, &h, *graph, cs, start.0, end, p) by {
                if meets_constraints_throughout(&g, &h, *graph, cs, start.0, end, p) {
                    assert forall|c: ScoredPath| c.path@ == p && #[trigger] scored_by(f, *graph, c) implies all_hold(cs, c) by {
                        assert(costs_sum(gr, hr, graph, &c.path, c.score));
                    }
                    assert forall|c: ScoredPath| 2 <= c.path@.len() <= p.len() && c.path@ == p.subrange(0, c.path@.len() as int)
                        && #[trigger] scored_by(f, *graph, c) implies all_viable(cs, c) by {
                        assert(costs_sum(gr, hr, graph, &c.path, c.score));
                    }
                    assert(reaches_by_viable_prefixes(f, *graph, cs, start.0, end, p));
                }
            }
        }
        if r.0 is Some {
            let sp = r.0.unwrap();
            assert(f.ensures((graph, &sp.path), sp.score));
        }
    }
    r
}

/// The heuristic that knows nothing: always 0.
pub fn zero_heuristic(_graph: &DirectedGraph, _path: &Path) -> (r: i64)
    ensures
        r == 0,
{
    0
}

} // verus!
