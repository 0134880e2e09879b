//! Maximum flow (Ford-Fulkerson, augmenting paths found breadth-first).
use vstd::prelude::*;
use std::collections::HashMap;
use crate::graph::{Edge, VertexId};
use crate::directed_graph::DirectedGraph;
use crate::search_queue::Queue;

verus! {

/// One step of an augmenting path: the vertex reached, and whether it was
/// reached along an edge (forward) or against one (backward).
pub type Step = (VertexId, bool);

/// `b` to the power `e`.
pub open spec fn pow(b: nat, e: nat) -> nat
    decreases e,
{
    if e == 0 {
        1
    } else {
        b * pow(b, (e - 1) as nat)
    }
}

proof fn lemma_pow_positive(b: nat, e: nat)
    requires
        b > 0,
    ensures
        pow(b, e) > 0,
    decreases e,
{
    if e > 0 {
        lemma_pow_positive(b, (e - 1) as nat);
        assert(b * pow(b, (e - 1) as nat) > 0) by (nonlinear_arith)
            requires b > 0, pow(b, (e - 1) as nat) > 0;
    }
}

/// Work left for the paths waiting in a breadth-first queue, where no path
/// grows beyond `top` steps and each vertex has fewer than `b` neighbours.
pub open spec fn backlog(s: Seq<Vec<Step>>, b: nat, top: nat) -> nat
    decreases s.len(),
{
    if s.len() == 0 {
        0
    } else {
        backlog(s.drop_last(), b, top) + pow(b, (top + 1 - s.last()@.len()) as nat)
    }
}

proof fn lemma_backlog_push(s: Seq<Vec<Step>>, x: Vec<Step>, b: nat, top: nat)
    ensures
        backlog(s.push(x), b, top) == backlog(s, b, top) + pow(b, (top + 1 - x@.len()) as nat),
{
    assert(s.push(x).drop_last() =~= s);
}

proof fn lemma_backlog_front(s: Seq<Vec<Step>>, b: nat, top: nat)
    requires
        s.len() > 0,
    ensures
        backlog(s, b, top) == pow(b, (top + 1 - s[0]@.len()) as nat) + backlog(s.drop_first(), b, top),
    decreases s.len(),
{
    if s.len() > 1 {
        lemma_backlog_front(s.drop_last(), b, top);
        assert(s.drop_last().drop_first() =~= s.drop_first().drop_last());
        assert(s.drop_first().last() == s.last());
        assert(s.drop_last()[0] == s[0]);
        assert(backlog(s, b, top) == backlog(s.drop_last(), b, top) + pow(b, (top + 1 - s.last()@.len()) as nat));
        assert(backlog(s.drop_first(), b, top) == backlog(s.drop_first().drop_last(), b, top)
            + pow(b, (top + 1 - s.drop_first().last()@.len()) as nat));
    } else {
        assert(s.drop_first() =~= Seq::<Vec<Step>>::empty());
        assert(s.drop_last() =~= Seq::<Vec<Step>>::empty());
        assert(backlog(s.drop_last(), b, top) == 0);
        assert(backlog(s.drop_first(), b, top) == 0);
        assert(s.last() == s[0]);
    }
}

/// The vertices of `p`, in order.
pub open spec fn step_vertices(p: Seq<Step>) -> Seq<VertexId> {
    p.map_values(|s: Step| s.0)
}

/// `k` is the first position of `e` in `edges`.
pub open spec fn is_first(edges: Seq<Edge>, e: Edge, k: int) -> bool {
    0 <= k < edges.len() && edges[k] == e && forall|j: int| 0 <= j < k ==> edges[j] != e
}

/// The edge that step `i` of `p` goes along (forward) or against
/// (backward).
pub open spec fn step_edge(p: Seq<Step>, i: int) -> Edge {
    oriented(p[i - 1].0, p[i].0, p[i].1)
}

/// The edge from `from` to `to` when walked forward, from `to` to `from`
/// when walked backward.
pub open spec fn oriented(from: VertexId, to: VertexId, forward: bool) -> Edge {
    if forward {
        Edge(from, to)
    } else {
        Edge(to, from)
    }
}

/// What is left for step `i` of `p`: capacity minus flow going forward,
/// the flow going backward, at the first position of the step's edge.
pub open spec fn step_room(edges: Seq<Edge>, flows: Seq<(u64, u64)>, p: Seq<Step>, i: int, k: int) -> int {
    if p[i].1 {
        flows[k].1 - flows[k].0
    } else {
        flows[k].0 as int
    }
}

/// Every step of `p` goes along or against an edge of `edges` with room for
/// at least `c`.
pub open spec fn has_room(edges: Seq<Edge>, flows: Seq<(u64, u64)>, p: Seq<Step>, c: int) -> bool {
    forall|i: int| 1 <= i < p.len() ==> #[trigger] room_at(edges, flows, p, i, c)
}

/// Step `i` of `p` goes along or against an edge of `edges` with room for
/// at least `c`.
pub open spec fn room_at(edges: Seq<Edge>, flows: Seq<(u64, u64)>, p: Seq<Step>, i: int, c: int) -> bool {
    exists|k: int| #[trigger] is_first(edges, step_edge(p, i), k) && step_room(edges, flows, p, i, k) >= c
}

/// Position of `e` in `edges`.
fn index_of(edges: &Vec<Edge>, e: Edge) -> (r: Option<usize>)
    ensures
        r matches Some(i) ==> is_first(edges@, e, i as int),
        r is None ==> !edges@.contains(e),
{
    let mut i: usize = 0;
    while i < edges.len()
        invariant
            i <= edges@.len(),
            forall|j: int| 0 <= j < i ==> edges@[j] != e,
        decreases edges@.len() - i,
    {
        if edges[i] == e {
            return Some(i);
        }
        i += 1;
    }
    None
}

/// Residual capacity of one step from `from` to `to`: what is left of the
/// edge's capacity going forward, or the edge's flow going backward.
fn step_residual(edges: &Vec<Edge>, flows: &Vec<(u64, u64)>, from: VertexId, to: VertexId, forward: bool) -> (r: u64)
    requires
        edges@.len() == flows@.len(),
        forall|i: int| 0 <= i < flows@.len() ==> (#[trigger] flows@[i]).0 <= flows@[i].1,
    ensures
        r > 0 ==> exists|k: int| #[trigger] is_first(edges@, oriented(from, to, forward), k)
            && (if forward { flows@[k].1 - flows@[k].0 } else { flows@[k].0 as int }) == r,
        forall|k: int| #[trigger] is_first(edges@, oriented(from, to, forward), k)
            ==> (if forward { flows@[k].1 - flows@[k].0 } else { flows@[k].0 as int }) == r,
{
    let e = if forward { Edge(from, to) } else { Edge(to, from) };
    match index_of(edges, e) {
        Some(i) => {
            let (flow, cap) = flows[i];
            proof {
                assert(e == oriented(from, to, forward));
                assert(is_first(edges@, oriented(from, to, forward), i as int));
                assert forall|k: int| #[trigger] is_first(edges@, oriented(from, to, forward), k) implies k == i by {
                    if k < i {
                        assert(edges@[k] == e);
                    }
                    if k > i {
                        assert(edges@[i as int] == e);
                    }
                }
            }
            if forward { cap - flow } else { flow }
        },
        None => {
            proof {
                assert forall|k: int| #[trigger] is_first(edges@, oriented(from, to, forward), k) implies false by {
                    assert(edges@[k] == e);
                    assert(edges@.contains(e));
                }
            }
            0
        },
    }
}

/// Least residual capacity along the steps of `p`.
fn path_residual(edges: &Vec<Edge>, flows: &Vec<(u64, u64)>, p: &Vec<Step>) -> (r: u64)
    requires
        edges@.len() == flows@.len(),
        forall|i: int| 0 <= i < flows@.len() ==> (#[trigger] flows@[i]).0 <= flows@[i].1,
    ensures
        r > 0 ==> has_room(edges@, flows@, p@, r as int),
        has_room(edges@, flows@, p@, 1) ==> r > 0,
{
    let mut best: u64 = u64::MAX;
    let mut i: usize = 1;
    while i < p.len()
        invariant
            edges@.len() == flows@.len(),
            forall|k: int| 0 <= k < flows@.len() ==> (#[trigger] flows@[k]).0 <= flows@[k].1,
            1 <= i,
            has_room(edges@, flows@, p@, 1) ==> best > 0,
            best > 0 ==> forall|m: int| 1 <= m < i && m < p@.len() ==> #[trigger] room_at(edges@, flows@, p@, m, best as int),
        decreases p@.len() - i,
    {
        let r = step_residual(edges, flows, p[i - 1].0, p[i].0, p[i].1);
        proof {
            if has_room(edges@, flows@, p@, 1) {
                assert(room_at(edges@, flows@, p@, i as int, 1));
                let k = choose|k: int| #[trigger] is_first(edges@, step_edge(p@, i as int), k) && step_room(edges@, flows@, p@, i as int, k) >= 1;
                assert(is_first(edges@, oriented(p@[i - 1].0, p@[i as int].0, p@[i as int].1), k));
                assert(r > 0);
            }
        }
        let ghost old_best = best;
        if r < best {
            best = r;
        }
        proof {
            if best > 0 {
                assert forall|m: int| 1 <= m < i + 1 && m < p@.len() implies #[trigger] room_at(edges@, flows@, p@, m, best as int) by {
                    if m == i {
                        assert(r > 0);
                        let k = choose|k: int| #[trigger] is_first(edges@, oriented(p@[m - 1].0, p@[m].0, p@[m].1), k)
                            && (if p@[m].1 { flows@[k].1 - flows@[k].0 } else { flows@[k].0 as int }) == r;
                        assert(is_first(edges@, step_edge(p@, m), k));
                    } else {
                        assert(old_best > 0);
                        assert(room_at(edges@, flows@, p@, m, old_best as int));
                        let k = choose|k: int| #[trigger] is_first(edges@, step_edge(p@, m), k) && step_room(edges@, flows@, p@, m, k) >= old_best;
                        assert(is_first(edges@, step_edge(p@, m), k));
                    }
                }
            }
        }
        i += 1;
    }
    best
}

/// Whether `v` is on `p`.
fn on_path(p: &Vec<Step>, v: VertexId) -> (r: bool)
    ensures
        r == step_vertices(p@).contains(v),
{
    let mut i: usize = 0;
    while i < p.len()
        invariant
            i <= p@.len(),
            forall|j: int| 0 <= j < i ==> p@[j].0 != v,
        decreases p@.len() - i,
    {
        if p[i].0 == v {
            proof {
                assert(step_vertices(p@)[i as int] == v);
            }
            return true;
        }
        i += 1;
    }
    proof {
        if step_vertices(p@).contains(v) {
            let j = choose|j: int| 0 <= j < step_vertices(p@).len() && step_vertices(p@)[j] == v;
            assert(p@[j].0 == v);
        }
    }
    false
}

fn extend(p: &Vec<Step>, v: VertexId, forward: bool) -> (r: Vec<Step>)
    ensures
        r@ == p@.push((v, forward)),
{
    let mut r: Vec<Step> = Vec::new();
    let mut i: usize = 0;
    while i < p.len()
        invariant
            i <= p@.len(),
            r@ == p@.subrange(0, i as int),
        decreases p@.len() - i,
    {
        r.push(p[i]);
        i += 1;
        proof {
            assert(r@ =~= p@.subrange(0, i as int));
        }
    }
    r.push((v, forward));
    proof {
        assert(r@ =~= p@.push((v, forward)));
    }
    r
}

/// Largest number of neighbours (successors and predecessors counted per
/// edge) of a vertex.
fn max_neighbours(graph: &DirectedGraph) -> (r: Ghost<nat>)
    requires
        graph.wf(),
    ensures
        forall|v: u64| #[trigger] graph.out_seq(v).len() + graph.in_seq(v).len() <= r@,
{
    proof {
        graph.lemma_wf_facts();
    }
    let vertices = graph.vertices();
    let mut best: u128 = 0;
    let mut k: usize = 0;
    while k < vertices.len()
        invariant
            graph.wf(),
            k <= vertices@.len(),
            forall|x: u64| #[trigger] vertices@.contains(VertexId(x)) <==> graph.vertex_set().contains(x),
            forall|i: int| 0 <= i < k ==> #[trigger] graph.out_seq(vertices@[i].0).len() + graph.in_seq(vertices@[i].0).len() <= best,
        decreases vertices@.len() - k,
    {
        let d = graph.degree_out(vertices[k]) as u128 + graph.degree_in(vertices[k]) as u128;
        if d > best {
            best = d;
        }
        k += 1;
    }
    proof {
        assert forall|v: u64| #[trigger] graph.out_seq(v).len() + graph.in_seq(v).len() <= best by {
            if graph.vertex_set().contains(v) {
                assert(vertices@.contains(VertexId(v)));
                let i = choose|i: int| 0 <= i < vertices@.len() && vertices@[i] == VertexId(v);
                assert(graph.out_seq(vertices@[i].0).len() + graph.in_seq(vertices@[i].0).len() <= best);
            } else {
                graph.lemma_out_seq(v);
                graph.lemma_in_seq(v);
                lemma_in_seq_empty(graph, v);
            }
        }
    }
    Ghost(best as nat)
}

proof fn lemma_in_seq_empty(graph: &DirectedGraph, v: u64)
    requires
        graph.wf(),
        !graph.vertex_set().contains(v),
    ensures
        graph.in_seq(v).len() == 0,
{
    graph.lemma_in_seq(v);
    graph.lemma_wf_facts();
    if graph.in_seq(v).len() > 0 {
        let e = graph.in_seq(v)[0];
        assert(graph.in_seq(v).contains(e));
        assert(graph.edge_set().contains(e));
    }
}

/// The vertices one step away from `vid`: successors (walked forward), then
/// predecessors (walked backward), in edge order.
fn neighbours(graph: &DirectedGraph, vid: VertexId) -> (r: Vec<Step>)
    requires
        graph.wf(),
    ensures
        r@.len() == graph.out_seq(vid.0).len() + graph.in_seq(vid.0).len(),
        forall|i: int| 0 <= i < r@.len() ==> graph.vertex_set().contains(#[trigger] r@[i].0.0),
        forall|v: VertexId, fwd: bool| #[trigger] graph.edge_set().contains(oriented(vid, v, fwd)) ==> r@.contains((v, fwd)),
{
    proof {
        graph.lemma_wf_facts();
    }
    let out = graph.outbound_edges(vid);
    let inb = graph.inbound_edges(vid);
    let mut r: Vec<Step> = Vec::new();
    let mut j: usize = 0;
    while j < out.len()
        invariant
            graph.wf(),
            j <= out@.len(),
            r@.len() == j,
            forall|e: Edge| #[trigger] out@.contains(e) <==> (graph.edge_set().contains(e) && e.src() == vid.0),
            forall|i: int| 0 <= i < r@.len() ==> graph.vertex_set().contains(#[trigger] r@[i].0.0),
            forall|m: int| 0 <= m < j ==> #[trigger] r@[m] == (out@[m].1, true),
        decreases out@.len() - j,
    {
        proof {
            assert(out@.contains(out@[j as int]));
            graph.lemma_wf_facts();
        }
        r.push((out[j].1, true));
        j += 1;
    }
    let mut k: usize = 0;
    while k < inb.len()
        invariant
            graph.wf(),
            k <= inb@.len(),
            r@.len() == out@.len() + k,
            forall|e: Edge| #[trigger] inb@.contains(e) <==> (graph.edge_set().contains(e) && e.dst() == vid.0),
            forall|e: Edge| #[trigger] out@.contains(e) <==> (graph.edge_set().contains(e) && e.src() == vid.0),
            forall|i: int| 0 <= i < r@.len() ==> graph.vertex_set().contains(#[trigger] r@[i].0.0),
            forall|m: int| 0 <= m < out@.len() ==> #[trigger] r@[m] == (out@[m].1, true),
            forall|m: int| 0 <= m < k ==> #[trigger] r@[out@.len() + m] == (inb@[m].0, false),
        decreases inb@.len() - k,
    {
        proof {
            assert(inb@.contains(inb@[k as int]));
            graph.lemma_wf_facts();
        }
        r.push((inb[k].0, false));
        k += 1;
    }
    proof {
        assert forall|v: VertexId, fwd: bool| #[trigger] graph.edge_set().contains(oriented(vid, v, fwd)) implies r@.contains((v, fwd)) by {
            if fwd {
                let e = Edge(vid, v);
                assert(out@.contains(e));
                let m = choose|m: int| 0 <= m < out@.len() && out@[m] == e;
                assert(r@[m] == (v, fwd));
            } else {
                let e = Edge(v, vid);
                assert(inb@.contains(e));
                let m = choose|m: int| 0 <= m < inb@.len() && inb@[m] == e;
                assert(r@[out@.len() + m] == (v, fwd));
            }
        }
    }
    r
}

/// `p` starts at `start`, goes along edges (forward) or against them
/// (backward) of `g`, and meets no vertex twice.
pub open spec fn is_step_path(g: DirectedGraph, start: VertexId, p: Seq<Step>) -> bool {
    &&& p.len() > 0
    &&& p[0] == (start, true)
    &&& step_vertices(p).no_duplicates()
    &&& forall|i: int| 1 <= i < p.len() ==> #[trigger] g.edge_set().contains(step_edge(p, i))
}

/// `p` is an augmenting path from `start` to `target`: a step path with at
/// least one step, ending at `target`, with room on every step.
pub open spec fn is_augmenting(g: DirectedGraph, edges: Seq<Edge>, flows: Seq<(u64, u64)>, start: VertexId, target: VertexId, p: Seq<Step>) -> bool {
    &&& is_step_path(g, start, p)
    &&& p.len() > 1
    &&& p.last().0 == target
    &&& has_room(edges, flows, p, 1)
}

/// Some path of `queue` is a prefix of `p`.
pub open spec fn queued_prefix(queue: Seq<Vec<Step>>, p: Seq<Step>) -> bool {
    exists|i: int| 0 <= i < queue.len() && 1 <= queue[i]@.len() <= p.len()
        && #[trigger] queue[i]@ == p.subrange(0, queue[i]@.len() as int)
}

/// The first augmenting path found by a breadth-first search over the
/// simple paths from `start` that go forward along edges below capacity or
/// backward along edges with flow, whose residual capacity is positive and
/// which ends at `target`; with that residual capacity.
fn find_augmenting_path(
    graph: &DirectedGraph,
    edges: &Vec<Edge>,
    flows: &Vec<(u64, u64)>,
    start: VertexId,
    target: VertexId,
) -> (r: Option<(Vec<Step>, u64)>)
    requires
        graph.wf(),
        edges@.len() == flows@.len(),
        forall|i: int| 0 <= i < flows@.len() ==> (#[trigger] flows@[i]).0 <= flows@[i].1,
    ensures
        r matches Some((p, c)) ==> {
            &&& c > 0
            &&& p@.len() > 1
            &&& p@[0] == (start, true)
            &&& p@.last().0 == target
            &&& step_vertices(p@).no_duplicates()
            &&& has_room(edges@, flows@, p@, c as int)
        },
        r is None ==> forall|p: Seq<Step>| !#[trigger] is_augmenting(*graph, edges@, flows@, start, target, p),
{
    let bound = max_neighbours(graph);
    let ghost b: nat = bound@ + 1;
    let ghost top: nat = graph.vertex_set().len() + 1;
    let mut queue: Queue<Vec<Step>> = Queue::new();
    let mut first: Vec<Step> = Vec::new();
    first.push((start, true));
    queue.push(first);
    proof {
        graph.lemma_wf_facts();
        assert(step_vertices(first@) =~= seq![start]);
        assert forall|p: Seq<Step>| #[trigger] is_step_path(*graph, start, p) implies queued_prefix(queue@, p) by {
            assert(queue@[0]@ =~= p.subrange(0, 1));
            assert(queue@[0]@ == p.subrange(0, queue@[0]@.len() as int));
        }
    }
    while queue.len() > 0
        invariant
            forall|p: Seq<Step>| #[trigger] is_step_path(*graph, start, p) ==>
                queued_prefix(queue@, p) || !is_augmenting(*graph, edges@, flows@, start, target, p),
            graph.wf(),
            edges@.len() == flows@.len(),
            forall|i: int| 0 <= i < flows@.len() ==> (#[trigger] flows@[i]).0 <= flows@[i].1,
            b == bound@ + 1,
            top == graph.vertex_set().len() + 1,
            graph.vertex_set().finite(),
            forall|v: u64| #[trigger] graph.out_seq(v).len() + graph.in_seq(v).len() <= bound@,
            forall|i: int| 0 <= i < queue@.len() ==> {
                &&& (#[trigger] queue@[i])@.len() > 0
                &&& queue@[i]@[0] == (start, true)
                &&& step_vertices(queue@[i]@).no_duplicates()
                &&& forall|k: int| 0 <= k < queue@[i]@.len() ==>
                        graph.vertex_set().insert(start.0).contains(#[trigger] queue@[i]@[k].0.0)
            },
        decreases backlog(queue@, b, top),
    {
        let ghost q0 = queue@;
        let path = match queue.pop() {
            Some(p) => p,
            None => Vec::new(),
        };
        let ghost rest = queue@;
        let ghost vs = graph.vertex_set().insert(start.0);
        proof {
            lemma_backlog_front(q0, b, top);
            assert(path == q0[0]);
            assert(rest == q0.drop_first());
            let sv = step_vertices(path@);
            assert forall|k: int| 0 <= k < sv.len() implies vs.contains(#[trigger] sv[k].0) by {
                assert(sv[k] == path@[k].0);
            }
            crate::directed_graph::lemma_nodup_subset_len(sv, vs);
            assert(vs.len() <= graph.vertex_set().len() + 1);
            assert(path@.len() <= top);
            lemma_pow_positive(b, (top - path@.len()) as nat);
            assert(pow(b, (top + 1 - path@.len()) as nat) == b * pow(b, (top - path@.len()) as nat));
            assert forall|i: int| 0 <= i < rest.len() implies (#[trigger] rest[i]) == q0[i + 1] by {}
        }
        let vid = path[path.len() - 1].0;
        let cands = neighbours(graph, vid);
        let ghost w = pow(b, (top - path@.len()) as nat);
        proof {
            assert(cands@.subrange(0, 0) =~= Seq::<Step>::empty());
            assert forall|p: Seq<Step>| #[trigger] is_step_path(*graph, start, p) implies
                queued_prefix(queue@, p) || !is_augmenting(*graph, edges@, flows@, start, target, p)
                || (p.len() >= path@.len() && p.subrange(0, path@.len() as int) == path@
                    && (p.len() == path@.len() || !cands@.subrange(0, 0).contains(p[path@.len() as int]))) by {
                if queued_prefix(q0, p) {
                    let i = choose|i: int| 0 <= i < q0.len() && 1 <= q0[i]@.len() <= p.len()
                        && #[trigger] q0[i]@ == p.subrange(0, q0[i]@.len() as int);
                    let k = q0[i]@.len() as int;
                    if i > 0 {
                        assert(queue@[i - 1] == q0[i]);
                        assert(queue@[i - 1]@ == p.subrange(0, k));
                    } else {
                        assert(path@ == p.subrange(0, k));
                        assert(path@.len() == k);
                    }
                }
            }
        }
        let mut j: usize = 0;
        while j < cands.len()
            invariant
                graph.wf(),
                b == bound@ + 1,
                top == graph.vertex_set().len() + 1,
                vs == graph.vertex_set().insert(start.0),
                forall|v: u64| #[trigger] graph.out_seq(v).len() + graph.in_seq(v).len() <= bound@,
                cands@.len() <= bound@,
                forall|i: int| 0 <= i < cands@.len() ==> graph.vertex_set().contains(#[trigger] cands@[i].0.0),
                j <= cands@.len(),
                path@.len() > 0,
                path@.len() <= top,
                step_vertices(path@).no_duplicates(),
                forall|k: int| 0 <= k < path@.len() ==> vs.contains(#[trigger] path@[k].0.0),
                w == pow(b, (top - path@.len()) as nat),
                queue@.len() >= rest.len(),
                forall|i: int| 0 <= i < rest.len() ==> #[trigger] queue@[i] == rest[i],
                forall|i: int| 0 <= i < queue@.len() ==> {
                    &&& (#[trigger] queue@[i])@.len() > 0
                    &&& queue@[i]@[0] == (start, true)
                    &&& step_vertices(queue@[i]@).no_duplicates()
                    &&& forall|k: int| 0 <= k < queue@[i]@.len() ==> vs.contains(#[trigger] queue@[i]@[k].0.0)
                },
                path@[0] == (start, true),
                backlog(queue@, b, top) <= backlog(rest, b, top) + j * w,
                vid == path@.last().0,
                forall|v: VertexId, fwd: bool| #[trigger] graph.edge_set().contains(oriented(vid, v, fwd)) ==> cands@.contains((v, fwd)),
                forall|p: Seq<Step>| #[trigger] is_step_path(*graph, start, p) ==>
                    queued_prefix(queue@, p) || !is_augmenting(*graph, edges@, flows@, start, target, p)
                    || (p.len() >= path@.len() && p.subrange(0, path@.len() as int) == path@
                        && (p.len() == path@.len() || !cands@.subrange(0, j as int).contains(p[path@.len() as int]))),
            decreases cands@.len() - j,
        {
            let (v, forward) = cands[j];
            let ghost qj = queue@;
            proof {
                assert(graph.vertex_set().contains(cands@[j as int].0.0));
            }
            if !on_path(&path, v) {
                let ext = extend(&path, v, forward);
                let ghost qb = queue@;
                proof {
                    assert(step_vertices(ext@) =~= step_vertices(path@).push(v));
                    crate::directed_graph::lemma_push_contains(step_vertices(path@), v);
                    assert forall|k: int| 0 <= k < ext@.len() implies vs.contains(#[trigger] ext@[k].0.0) by {
                        if k < path@.len() {
                            assert(ext@[k] == path@[k]);
                        }
                    }
                    lemma_backlog_push(qb, ext, b, top);
                    assert((top + 1 - ext@.len()) as nat == (top - path@.len()) as nat);
                    assert(j * w + w == (j + 1) * w) by (nonlinear_arith);
                }
                queue.push(ext);
                proof {
                    assert forall|i: int| 0 <= i < rest.len() implies #[trigger] queue@[i] == rest[i] by {
                        assert(queue@[i] == qb[i]);
                    }
                }
            } else {
                proof {
                    assert(j * w <= (j + 1) * w) by (nonlinear_arith);
                }
            }
            proof {
                let qn = queue@;
                assert(cands@.subrange(0, j as int + 1) =~= cands@.subrange(0, j as int).push(cands@[j as int]));
                crate::directed_graph::lemma_push_contains(cands@.subrange(0, j as int), cands@[j as int]);
                assert forall|p: Seq<Step>| #[trigger] is_step_path(*graph, start, p) implies
                    queued_prefix(qn, p) || !is_augmenting(*graph, edges@, flows@, start, target, p)
                    || (p.len() >= path@.len() && p.subrange(0, path@.len() as int) == path@
                        && (p.len() == path@.len() || !cands@.subrange(0, j as int + 1).contains(p[path@.len() as int]))) by {
                    if queued_prefix(qj, p) {
                        let i = choose|i: int| 0 <= i < qj.len() && 1 <= qj[i]@.len() <= p.len()
                            && #[trigger] qj[i]@ == p.subrange(0, qj[i]@.len() as int);
                        let k = qj[i]@.len() as int;
                        assert(qn[i] == qj[i]);
                        assert(qn[i]@ == p.subrange(0, k));
                    } else if is_augmenting(*graph, edges@, flows@, start, target, p) && p.len() > path@.len()
                        && p.subrange(0, path@.len() as int) == path@ && p[path@.len() as int] == cands@[j as int] {
                        let n = path@.len() as int;
                        // the next step of `p` is not on `path`: `p` has no repeated vertex
                        assert(!step_vertices(path@).contains(v)) by {
                            if step_vertices(path@).contains(v) {
                                let m = choose|m: int| 0 <= m < n && step_vertices(path@)[m] == v;
                                assert(step_vertices(p)[m] == path@[m].0);
                                assert(step_vertices(p)[n] == v);
                            }
                        }
                        assert(qn.len() == qj.len() + 1);
                        assert(qn[qj.len() as int]@ == path@.push(cands@[j as int]));
                        assert(qn[qj.len() as int]@ =~= p.subrange(0, n + 1));
                    }
                }
            }
            j += 1;
        }
        proof {
            assert(j * w <= bound@ * w) by (nonlinear_arith)
                requires j <= bound@;
            assert(bound@ * w < b * w) by (nonlinear_arith)
                requires b == bound@ + 1, w > 0;
        }
        if vid == target && path.len() > 1 {
            let residual = path_residual(edges, flows, &path);
            if residual > 0 {
                return Some((path, residual));
            }
        }
        proof {
            assert(cands@.subrange(0, cands@.len() as int) =~= cands@);
            assert forall|p: Seq<Step>| #[trigger] is_step_path(*graph, start, p) implies
                queued_prefix(queue@, p) || !is_augmenting(*graph, edges@, flows@, start, target, p) by {
                if !queued_prefix(queue@, p) && is_augmenting(*graph, edges@, flows@, start, target, p) {
                    let n = path@.len() as int;
                    if p.len() > n {
                        let st = p[n];
                        assert(graph.edge_set().contains(step_edge(p, n)));
                        assert(p[n - 1] == path@[n - 1]);
                        assert(step_edge(p, n) == oriented(vid, st.0, st.1));
                        assert(cands@.contains((st.0, st.1)));
                        assert(false);
                    }
                    assert(p =~= path@);
                }
            }
        }
    }
    None
}

/// Flow on the first `n` listed edges that enter `x`.
pub open spec fn flow_in(edges: Seq<Edge>, flows: Seq<(u64, u64)>, x: u64, n: nat) -> int
    decreases n,
{
    if n == 0 {
        0
    } else {
        flow_in(edges, flows, x, (n - 1) as nat) + if edges[n - 1].dst() == x { flows[n - 1].0 as int } else { 0 }
    }
}

/// Flow on the first `n` listed edges that leave `x`.
pub open spec fn flow_out(edges: Seq<Edge>, flows: Seq<(u64, u64)>, x: u64, n: nat) -> int
    decreases n,
{
    if n == 0 {
        0
    } else {
        flow_out(edges, flows, x, (n - 1) as nat) + if edges[n - 1].src() == x { flows[n - 1].0 as int } else { 0 }
    }
}

/// Flow entering `x` minus flow leaving it.
pub open spec fn net_flow(edges: Seq<Edge>, flows: Seq<(u64, u64)>, x: u64) -> int {
    flow_in(edges, flows, x, edges.len()) - flow_out(edges, flows, x, edges.len())
}

proof fn lemma_flow_update(edges: Seq<Edge>, flows: Seq<(u64, u64)>, k: int, f: u64, x: u64, n: nat)
    requires
        0 <= k < flows.len(),
        n <= flows.len(),
        n <= edges.len(),
    ensures
        flow_in(edges, flows.update(k, (f, flows[k].1)), x, n) == flow_in(edges, flows, x, n)
            + if k < n && edges[k].dst() == x { f - flows[k].0 } else { 0 },
        flow_out(edges, flows.update(k, (f, flows[k].1)), x, n) == flow_out(edges, flows, x, n)
            + if k < n && edges[k].src() == x { f - flows[k].0 } else { 0 },
    decreases n,
{
    if n > 0 {
        lemma_flow_update(edges, flows, k, f, x, (n - 1) as nat);
    }
}

proof fn lemma_no_flow(edges: Seq<Edge>, flows: Seq<(u64, u64)>, x: u64, n: nat)
    requires
        n <= flows.len(),
        forall|i: int| 0 <= i < flows.len() ==> (#[trigger] flows[i]).0 == 0,
    ensures
        flow_in(edges, flows, x, n) == 0,
        flow_out(edges, flows, x, n) == 0,
    decreases n,
{
    if n > 0 {
        lemma_no_flow(edges, flows, x, (n - 1) as nat);
    }
}

/// On a path without repeated vertex, two different steps go along or
/// against different edges.
proof fn lemma_steps_differ(p: Seq<Step>, i: int, m: int)
    requires
        step_vertices(p).no_duplicates(),
        1 <= i < p.len(),
        1 <= m < p.len(),
        i != m,
    ensures
        step_edge(p, i) != step_edge(p, m),
{
    let sv = step_vertices(p);
    assert(sv[i - 1] == p[i - 1].0 && sv[i] == p[i].0 && sv[m - 1] == p[m - 1].0 && sv[m] == p[m].0);
}

/// Adds `delta` to the flow of the edges walked forward and takes it from
/// those walked backward. Every vertex of the path but its ends keeps its
/// balance; the end gains `delta`, the start loses it.
fn update_flow(edges: &Vec<Edge>, flows: &mut Vec<(u64, u64)>, p: &Vec<Step>, delta: u64)
    requires
        edges@.len() == old(flows)@.len(),
        forall|i: int| 0 <= i < old(flows)@.len() ==> (#[trigger] old(flows)@[i]).0 <= old(flows)@[i].1,
        p@.len() > 1,
        step_vertices(p@).no_duplicates(),
        has_room(edges@, old(flows)@, p@, delta as int),
    ensures
        edges@.len() == final(flows)@.len(),
        forall|i: int| 0 <= i < final(flows)@.len() ==> (#[trigger] final(flows)@[i]).0 <= final(flows)@[i].1,
        forall|i: int| 0 <= i < final(flows)@.len() ==> (#[trigger] final(flows)@[i]).1 == old(flows)@[i].1,
        forall|x: u64| #[trigger] net_flow(edges@, final(flows)@, x) == net_flow(edges@, old(flows)@, x)
            + (if x == p@.last().0.0 { delta as int } else { 0 }) - (if x == p@[0].0.0 { delta as int } else { 0 }),
{
    let ghost f0 = flows@;
    let mut i: usize = 1;
    while i < p.len()
        invariant
            edges@.len() == flows@.len(),
            flows@.len() == f0.len(),
            f0 == old(flows)@,
            1 <= i <= p@.len(),
            p@.len() > 1,
            step_vertices(p@).no_duplicates(),
            has_room(edges@, f0, p@, delta as int),
            forall|k: int| 0 <= k < flows@.len() ==> (#[trigger] flows@[k]).0 <= flows@[k].1,
            forall|k: int| 0 <= k < flows@.len() ==> (#[trigger] flows@[k]).1 == f0[k].1,
            forall|m: int, k: int| i <= m < p@.len() && #[trigger] is_first(edges@, step_edge(p@, m), k) ==> flows@[k] == f0[k],
            forall|x: u64| #[trigger] net_flow(edges@, flows@, x) == net_flow(edges@, f0, x)
                + (if x == p@[i - 1].0.0 { delta as int } else { 0 }) - (if x == p@[0].0.0 { delta as int } else { 0 }),
        decreases p@.len() - i,
    {
        let from = p[i - 1].0;
        let (to, forward) = p[i];
        let e = if forward { Edge(from, to) } else { Edge(to, from) };
        let ghost before = flows@;
        proof {
            assert(e == step_edge(p@, i as int));
            assert(room_at(edges@, f0, p@, i as int, delta as int));
            let sv = step_vertices(p@);
            assert(sv[i - 1] == from && sv[i as int] == to);
            assert(from.0 != to.0) by {
                if from.0 == to.0 {
                    assert(sv[i - 1] == sv[i as int]);
                }
            }
        }
        match index_of(edges, e) {
            Some(k) => {
                let (flow, cap) = flows[k];
                proof {
                    let kk = choose|kk: int| #[trigger] is_first(edges@, step_edge(p@, i as int), kk) && step_room(edges@, f0, p@, i as int, kk) >= delta;
                    assert(kk == k);
                    assert(before[k as int] == f0[k as int]);
                }
                if forward && delta <= cap - flow {
                    flows.set(k, (flow + delta, cap));
                    proof {
                        assert(flows@ == before.update(k as int, ((flow + delta) as u64, before[k as int].1)));
                        lemma_flow_update(edges@, before, k as int, (flow + delta) as u64, 0, 0);
                        assert forall|x: u64| #[trigger] net_flow(edges@, flows@, x) == net_flow(edges@, before, x)
                            + (if x == to.0 { delta as int } else { 0 }) - (if x == from.0 { delta as int } else { 0 }) by {
                            lemma_flow_update(edges@, before, k as int, (flow + delta) as u64, x, edges@.len());
                        }
                    }
                } else if !forward && delta <= flow {
                    flows.set(k, (flow - delta, cap));
                    proof {
                        assert(flows@ == before.update(k as int, ((flow - delta) as u64, before[k as int].1)));
                        assert forall|x: u64| #[trigger] net_flow(edges@, flows@, x) == net_flow(edges@, before, x)
                            + (if x == to.0 { delta as int } else { 0 }) - (if x == from.0 { delta as int } else { 0 }) by {
                            lemma_flow_update(edges@, before, k as int, (flow - delta) as u64, x, edges@.len());
                        }
                    }
                }
                proof {
                    assert forall|m: int, k2: int| i + 1 <= m < p@.len() && #[trigger] is_first(edges@, step_edge(p@, m), k2) implies
                        flows@[k2] == f0[k2] by {
                        lemma_steps_differ(p@, i as int, m);
                        assert(k2 != k);
                    }
                }
            },
            None => {
                proof {
                    let kk = choose|kk: int| #[trigger] is_first(edges@, step_edge(p@, i as int), kk) && step_room(edges@, f0, p@, i as int, kk) >= delta;
                    assert(edges@.contains(e)) by {
                        assert(edges@[kk] == e);
                    }
                }
            },
        }
        i += 1;
    }
}

/// The capacity of each edge, as `capacity` gives it.
fn initial_flows<CFn: Fn(&Edge) -> u64>(edges: &Vec<Edge>, capacity: &CFn) -> (r: Vec<(u64, u64)>)
    requires
        forall|e: &Edge| #[trigger] capacity.requires((e,)),
    ensures
        r@.len() == edges@.len(),
        forall|i: int| 0 <= i < r@.len() ==> (#[trigger] r@[i]).0 == 0 && capacity.ensures((&edges@[i],), r@[i].1),
{
    let mut r: Vec<(u64, u64)> = Vec::new();
    let mut i: usize = 0;
    while i < edges.len()
        invariant
            forall|e: &Edge| #[trigger] capacity.requires((e,)),
            i <= edges@.len(),
            r@.len() == i,
            forall|k: int| 0 <= k < i ==> (#[trigger] r@[k]).0 == 0 && capacity.ensures((&edges@[k],), r@[k].1),
        decreases edges@.len() - i,
    {
        let c = capacity(&edges[i]);
        r.push((0, c));
        i += 1;
    }
    r
}

/// Maximum flow from `start` to `end`, as the total flow and, for every edge
/// (in `graph.edges()` order), its final flow and its capacity. Each
/// augmentation follows the first augmenting path that a breadth-first
/// search finds; the search stops when none is left, or when the total
/// would no longer fit in a `u64`. No edge carries more than its capacity,
/// every other vertex passes on all the flow it receives, and the total is
/// what `end` receives and `start` sends. The flow is maximal: no
/// augmenting path is left, unless the total stopped short of overflowing a
/// `u64`.
pub fn max_flow_table<CFn: Fn(&Edge) -> u64>(graph: &DirectedGraph, capacity: CFn, start: VertexId, end: VertexId) -> (r: (u64, Vec<Edge>, Vec<(u64, u64)>))
    requires
        graph.wf(),
        forall|e: &Edge| #[trigger] capacity.requires((e,)),
    ensures
        forall|e: Edge| #[trigger] r.1@.contains(e) <==> graph.edge_set().contains(e),
        r.1@.len() == r.2@.len(),
        forall|i: int| 0 <= i < r.2@.len() ==> (#[trigger] r.2@[i]).0 <= r.2@[i].1,
        forall|i: int| 0 <= i < r.2@.len() ==> capacity.ensures((&r.1@[i],), (#[trigger] r.2@[i]).1),
        forall|x: u64| x != start.0 && x != end.0 ==> #[trigger] net_flow(r.1@, r.2@, x) == 0,
        start != end ==> net_flow(r.1@, r.2@, end.0) == r.0 && net_flow(r.1@, r.2@, start.0) == -r.0,
        r.1@.no_duplicates(),
        (forall|p: Seq<Step>| !#[trigger] is_augmenting(*graph, r.1@, r.2@, start, end, p))
            || exists|p: Seq<Step>| #[trigger] is_augmenting(*graph, r.1@, r.2@, start, end, p)
                && has_room(r.1@, r.2@, p, u64::MAX - r.0 + 1),
{
    let edges = graph.edges();
    let mut flows = initial_flows(&edges, &capacity);
    let mut total: u64 = 0;
    proof {
        assert forall|x: u64| #[trigger] net_flow(edges@, flows@, x) == 0 by {
            lemma_no_flow(edges@, flows@, x, edges@.len());
        }
    }
    loop
        invariant
            graph.wf(),
            edges@.len() == flows@.len(),
            forall|e: Edge| #[trigger] edges@.contains(e) <==> graph.edge_set().contains(e),
            forall|i: int| 0 <= i < flows@.len() ==> (#[trigger] flows@[i]).0 <= flows@[i].1,
            forall|i: int| 0 <= i < flows@.len() ==> capacity.ensures((&edges@[i],), (#[trigger] flows@[i]).1),
            forall|x: u64| x != start.0 && x != end.0 ==> #[trigger] net_flow(edges@, flows@, x) == 0,
            start != end ==> net_flow(edges@, flows@, end.0) == total && net_flow(edges@, flows@, start.0) == -total,
        ensures
            (forall|p: Seq<Step>| !#[trigger] is_augmenting(*graph, edges@, flows@, start, end, p))
                || exists|p: Seq<Step>| #[trigger] is_augmenting(*graph, edges@, flows@, start, end, p)
                    && has_room(edges@, flows@, p, u64::MAX - total + 1),
        decreases u64::MAX - total,
    {
        match find_augmenting_path(graph, &edges, &flows, start, end) {
            None => {
                break;
            },
            Some((path, residual)) => {
                if residual > u64::MAX - total {
                    proof {
                        let p = path@;
                        assert forall|i: int| 1 <= i < p.len() implies #[trigger] graph.edge_set().contains(step_edge(p, i)) by {
                            assert(room_at(edges@, flows@, p, i, residual as int));
                            let k = choose|k: int| #[trigger] is_first(edges@, step_edge(p, i), k) && step_room(edges@, flows@, p, i, k) >= residual;
                            assert(edges@.contains(edges@[k]));
                        }
                        assert forall|i: int| 1 <= i < p.len() implies #[trigger] room_at(edges@, flows@, p, i, 1) by {
                            assert(room_at(edges@, flows@, p, i, residual as int));
                            let k = choose|k: int| #[trigger] is_first(edges@, step_edge(p, i), k) && step_room(edges@, flows@, p, i, k) >= residual;
                            assert(is_first(edges@, step_edge(p, i), k));
                        }
                        assert forall|i: int| 1 <= i < p.len() implies #[trigger] room_at(edges@, flows@, p, i, u64::MAX - total + 1) by {
                            assert(room_at(edges@, flows@, p, i, residual as int));
                            let k = choose|k: int| #[trigger] is_first(edges@, step_edge(p, i), k) && step_room(edges@, flows@, p, i, k) >= residual;
                            assert(is_first(edges@, step_edge(p, i), k));
                        }
                        assert(is_augmenting(*graph, edges@, flows@, start, end, p));
                    }
                    break;
                }
                let ghost f0 = flows@;
                update_flow(&edges, &mut flows, &path, residual);
                proof {
                    assert(path@[0].0 == start && path@.last().0 == end);
                    assert(net_flow(edges@, flows@, end.0) == net_flow(edges@, f0, end.0)
                        + (if end.0 == path@.last().0.0 { residual as int } else { 0 }) - (if end.0 == path@[0].0.0 { residual as int } else { 0 }));
                    assert(net_flow(edges@, flows@, start.0) == net_flow(edges@, f0, start.0)
                        + (if start.0 == path@.last().0.0 { residual as int } else { 0 }) - (if start.0 == path@[0].0.0 { residual as int } else { 0 }));
                    if start == end {
                        let sv = step_vertices(path@);
                        assert(sv[0] == sv[sv.len() - 1]);
                        assert(false);
                    }
                    assert forall|i: int| 0 <= i < flows@.len() implies capacity.ensures((&edges@[i],), (#[trigger] flows@[i]).1) by {
                        assert(flows@[i].1 == f0[i].1);
                    }
                }
                total = total + residual;
            },
        }
    }
    (total, edges, flows)
}

/// `es` and `fs` list every edge of `g` once, with its capacity (as
/// `capacity` gives it) and a flow within it; every vertex but `start` and
/// `end` passes on what it receives, `end` receives `total`, and no
/// augmenting path is left unless one has more room than a `u64` total can
/// still take.
pub open spec fn is_flow_table<CFn: Fn(&Edge) -> u64>(
    g: DirectedGraph,
    capacity: CFn,
    start: VertexId,
    end: VertexId,
    total: u64,
    es: Seq<Edge>,
    fs: Seq<(u64, u64)>,
) -> bool {
    &&& es.len() == fs.len()
    &&& es.no_duplicates()
    &&& forall|e: Edge| #[trigger] es.contains(e) <==> g.edge_set().contains(e)
    &&& forall|i: int| 0 <= i < fs.len() ==> (#[trigger] fs[i]).0 <= fs[i].1
    &&& forall|i: int| 0 <= i < fs.len() ==> capacity.ensures((&es[i],), (#[trigger] fs[i]).1)
    &&& forall|x: u64| x != start.0 && x != end.0 ==> #[trigger] net_flow(es, fs, x) == 0
    &&& start != end ==> net_flow(es, fs, end.0) == total && net_flow(es, fs, start.0) == -total
    &&& (forall|p: Seq<Step>| !#[trigger] is_augmenting(g, es, fs, start, end, p))
        || exists|p: Seq<Step>| #[trigger] is_augmenting(g, es, fs, start, end, p) && has_room(es, fs, p, u64::MAX - total + 1)
}

/// `m` maps each edge of `es` to the matching entry of `fs`, and nothing
/// else.
pub open spec fn keyed_by_edge(m: Map<Edge, (u64, u64)>, es: Seq<Edge>, fs: Seq<(u64, u64)>) -> bool {
    &&& forall|e: Edge| #[trigger] m.contains_key(e) <==> es.contains(e)
    &&& forall|i: int| 0 <= i < es.len() ==> m[#[trigger] es[i]] == fs[i]
}

/// Maximum flow from `start` to `end`: the total, and each edge's final flow
/// and capacity (the table of `max_flow_table`, keyed by edge). What the map
/// holds is stated where `Edge` keys follow vstd's hash-table model.
pub fn max_flow<CFn: Fn(&Edge) -> u64>(graph: &DirectedGraph, capacity: CFn, start: VertexId, end: VertexId) -> (r: (u64, HashMap<Edge, (u64, u64)>))
    requires
        graph.wf(),
        forall|e: &Edge| #[trigger] capacity.requires((e,)),
    ensures
        exists|es: Seq<Edge>, fs: Seq<(u64, u64)>| {
            &&& #[trigger] is_flow_table(*graph, capacity, start, end, r.0, es, fs)
            &&& vstd::std_specs::hash::obeys_key_model::<Edge>() ==> keyed_by_edge(r.1@, es, fs)
        },
{
    let ghost cap = capacity;
    let (total, edges, flows) = max_flow_table(graph, capacity, start, end);
    let ghost es = edges@;
    let ghost fs = flows@;
    proof {
        assert(is_flow_table(*graph, cap, start, end, total, es, fs));
    }
    let mut m: HashMap<Edge, (u64, u64)> = HashMap::new();
    let mut i: usize = 0;
    while i < edges.len() && i < flows.len()
        invariant
            es == edges@,
            fs == flows@,
            es.len() == fs.len(),
            es.no_duplicates(),
            i <= es.len(),
            vstd::std_specs::hash::obeys_key_model::<Edge>() ==> {
                &&& forall|e: Edge| #[trigger] m@.contains_key(e) <==> es.subrange(0, i as int).contains(e)
                &&& forall|k: int| 0 <= k < i ==> m@[#[trigger] es[k]] == fs[k]
            },
        decreases edges@.len() - i,
    {
        let ghost m0 = m@;
        m.insert(edges[i], flows[i]);
        proof {
            if vstd::std_specs::hash::obeys_key_model::<Edge>() {
                let sub = es.subrange(0, i as int + 1);
                crate::directed_graph::lemma_drop_last(sub);
                assert(sub.drop_last() =~= es.subrange(0, i as int));
                assert forall|k: int| 0 <= k < i + 1 implies m@[#[trigger] es[k]] == fs[k] by {
                    if k < i {
                        assert(es[k] != es[i as int]);
                    }
                }
            }
        }
        i += 1;
    }
    let result = (total, m);
    proof {
        assert(es.subrange(0, es.len() as int) =~= es);
        assert(result.0 == total);
        assert(is_flow_table(*graph, capacity, start, end, result.0, es, fs));
        if vstd::std_specs::hash::obeys_key_model::<Edge>() {
            assert(keyed_by_edge(result.1@, es, fs));
        }
    }
    result
}

} // verus!
