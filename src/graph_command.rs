//! Commands that build or change a graph step by step.
use vstd::prelude::*;
use crate::graph::{Edge, VertexId};
use crate::directed_graph::DirectedGraph;

verus! {

/// One change to a graph.
#[derive(PartialEq, Eq, Structural, Clone, Copy, Hash, Debug)]
pub enum GraphCommand {
    AddVertex(VertexId),
    RemoveVertex(VertexId),
    AddEdge(VertexId, VertexId),
    RemoveEdge(VertexId, VertexId),
}

/// The command that undoes `c`.
pub open spec fn inverse(c: GraphCommand) -> GraphCommand {
    match c {
        GraphCommand::AddVertex(v) => GraphCommand::RemoveVertex(v),
        GraphCommand::RemoveVertex(v) => GraphCommand::AddVertex(v),
        GraphCommand::AddEdge(a, b) => GraphCommand::RemoveEdge(a, b),
        GraphCommand::RemoveEdge(a, b) => GraphCommand::AddEdge(a, b),
    }
}

/// The vertices after `c` is applied to a graph with vertices `vs`.
pub open spec fn vertices_after(c: GraphCommand, vs: Set<u64>) -> Set<u64> {
    match c {
        GraphCommand::AddVertex(v) => vs.insert(v.0),
        GraphCommand::RemoveVertex(v) => vs.remove(v.0),
        GraphCommand::AddEdge(a, b) => vs.insert(a.0).insert(b.0),
        GraphCommand::RemoveEdge(_, _) => vs,
    }
}

/// The edges after `c` is applied to a graph with edges `es`.
pub open spec fn edges_after(c: GraphCommand, es: Set<Edge>) -> Set<Edge> {
    match c {
        GraphCommand::AddVertex(_) => es,
        GraphCommand::RemoveVertex(v) => es.filter(|e: Edge| !e.touches(v.0)),
        GraphCommand::AddEdge(a, b) => es.insert(Edge(a, b)),
        GraphCommand::RemoveEdge(a, b) => es.remove(Edge(a, b)),
    }
}

/// Reverting twice gives the command back.
pub proof fn law_revert_is_an_involution(c: GraphCommand)
    ensures
        inverse(inverse(c)) == c,
{
}

/// The vertices after a sequence of commands.
pub open spec fn vertices_after_all(cs: Seq<GraphCommand>, vs: Set<u64>, es: Set<Edge>) -> Set<u64>
    decreases cs.len(),
{
    if cs.len() == 0 {
        vs
    } else {
        vertices_after(cs.last(), vertices_after_all(cs.drop_last(), vs, es))
    }
}

/// The edges after a sequence of commands.
pub open spec fn edges_after_all(cs: Seq<GraphCommand>, vs: Set<u64>, es: Set<Edge>) -> Set<Edge>
    decreases cs.len(),
{
    if cs.len() == 0 {
        es
    } else {
        edges_after(cs.last(), edges_after_all(cs.drop_last(), vs, es))
    }
}

/// Only additions.
pub open spec fn only_additions(cs: Seq<GraphCommand>) -> bool {
    forall|i: int| 0 <= i < cs.len() ==> (#[trigger] cs[i] is AddVertex) || cs[i] is AddEdge
}

/// `c` adds the vertex `x`, directly or as an endpoint of an edge.
pub open spec fn adds_vertex(c: GraphCommand, x: u64) -> bool {
    match c {
        GraphCommand::AddVertex(v) => v.0 == x,
        GraphCommand::AddEdge(a, b) => a.0 == x || b.0 == x,
        _ => false,
    }
}

proof fn lemma_additions(cs: Seq<GraphCommand>, vs: Set<u64>, es: Set<Edge>)
    requires
        only_additions(cs),
    ensures
        forall|x: u64| #[trigger] vertices_after_all(cs, vs, es).contains(x) <==>
            (vs.contains(x) || exists|i: int| 0 <= i < cs.len() && #[trigger] adds_vertex(cs[i], x)),
        forall|e: Edge| #[trigger] edges_after_all(cs, vs, es).contains(e) <==>
            (es.contains(e) || cs.contains(GraphCommand::AddEdge(e.0, e.1))),
    decreases cs.len(),
{
    if cs.len() > 0 {
        let init = cs.drop_last();
        assert forall|i: int| 0 <= i < init.len() implies (#[trigger] init[i] is AddVertex) || init[i] is AddEdge by {
            assert(init[i] == cs[i]);
        }
        lemma_additions(init, vs, es);
        crate::directed_graph::lemma_drop_last(cs);
        let c = cs.last();
        assert(c == cs[cs.len() - 1]);
        assert forall|x: u64| #[trigger] vertices_after_all(cs, vs, es).contains(x) <==>
            (vs.contains(x) || exists|i: int| 0 <= i < cs.len() && #[trigger] adds_vertex(cs[i], x)) by {
            let before = vertices_after_all(init, vs, es);
            assert(vertices_after_all(cs, vs, es) == vertices_after(c, before));
            assert(before.contains(x) <==> (vs.contains(x) || exists|i: int| 0 <= i < init.len() && #[trigger] adds_vertex(init[i], x)));
            assert(vertices_after(c, before).contains(x) <==> (before.contains(x) || adds_vertex(c, x)));
            if exists|i: int| 0 <= i < cs.len() && #[trigger] adds_vertex(cs[i], x) {
                let i = choose|i: int| 0 <= i < cs.len() && #[trigger] adds_vertex(cs[i], x);
                if i < cs.len() - 1 {
                    assert(init[i] == cs[i]);
                    assert(adds_vertex(init[i], x));
                }
            }
            if exists|i: int| 0 <= i < init.len() && #[trigger] adds_vertex(init[i], x) {
                let i = choose|i: int| 0 <= i < init.len() && #[trigger] adds_vertex(init[i], x);
                assert(init[i] == cs[i]);
                assert(adds_vertex(cs[i], x));
            }
            if adds_vertex(c, x) {
                assert(adds_vertex(cs[cs.len() - 1], x));
            }
        }
        assert forall|e: Edge| #[trigger] edges_after_all(cs, vs, es).contains(e) <==>
            (es.contains(e) || cs.contains(GraphCommand::AddEdge(e.0, e.1))) by {
            let before = edges_after_all(init, vs, es);
            assert(edges_after_all(cs, vs, es) == edges_after(c, before));
            assert(before.contains(e) <==> (es.contains(e) || init.contains(GraphCommand::AddEdge(e.0, e.1))));
            assert(cs.contains(GraphCommand::AddEdge(e.0, e.1)) <==>
                (init.contains(GraphCommand::AddEdge(e.0, e.1)) || GraphCommand::AddEdge(e.0, e.1) == c));
            match c {
                GraphCommand::AddEdge(a, b) => {
                    assert((GraphCommand::AddEdge(e.0, e.1) == c) <==> (e == Edge(a, b)));
                },
                _ => {},
            }
        }
    }
}

/// Replaying the commands that list a graph's vertices, then its edges,
/// on an empty graph rebuilds the same vertices and edges.
pub proof fn law_commands_rebuild_the_graph(g: DirectedGraph, cs: Seq<GraphCommand>)
    requires
        g.wf(),
        only_additions(cs),
        forall|x: u64| #[trigger] g.vertex_set().contains(x) <==> cs.contains(GraphCommand::AddVertex(VertexId(x))),
        forall|e: Edge| #[trigger] g.edge_set().contains(e) <==> cs.contains(GraphCommand::AddEdge(e.0, e.1)),
    ensures
        vertices_after_all(cs, Set::empty(), Set::empty()) == g.vertex_set(),
        edges_after_all(cs, Set::empty(), Set::empty()) == g.edge_set(),
{
    g.lemma_wf_facts();
    lemma_additions(cs, Set::empty(), Set::empty());
    assert forall|x: u64| #[trigger] vertices_after_all(cs, Set::empty(), Set::empty()).contains(x) <==> g.vertex_set().contains(x) by {
        if exists|i: int| 0 <= i < cs.len() && #[trigger] adds_vertex(cs[i], x) {
            let i = choose|i: int| 0 <= i < cs.len() && #[trigger] adds_vertex(cs[i], x);
            assert(cs.contains(cs[i]));
            match cs[i] {
                GraphCommand::AddVertex(v) => {
                    assert(v == VertexId(x));
                },
                GraphCommand::AddEdge(a, b) => {
                    assert(g.edge_set().contains(Edge(a, b)));
                },
                _ => {},
            }
        }
        if g.vertex_set().contains(x) {
            assert(cs.contains(GraphCommand::AddVertex(VertexId(x))));
            let i = choose|i: int| 0 <= i < cs.len() && cs[i] == GraphCommand::AddVertex(VertexId(x));
            assert(adds_vertex(cs[i], x));
        }
    }
    assert(vertices_after_all(cs, Set::empty(), Set::empty()) =~= g.vertex_set());
    assert forall|e: Edge| #[trigger] edges_after_all(cs, Set::empty(), Set::empty()).contains(e) <==> g.edge_set().contains(e) by {
        assert(e == Edge(e.0, e.1));
    }
    assert(edges_after_all(cs, Set::empty(), Set::empty()) =~= g.edge_set());
}

impl GraphCommand {
    /// The command that undoes `command`.
    pub fn revert(command: GraphCommand) -> (r: GraphCommand)
        ensures
            r == inverse(command),
    {
        match command {
            GraphCommand::AddVertex(v) => GraphCommand::RemoveVertex(v),
            GraphCommand::RemoveVertex(v) => GraphCommand::AddVertex(v),
            GraphCommand::AddEdge(v1, v2) => GraphCommand::RemoveEdge(v1, v2),
            GraphCommand::RemoveEdge(v1, v2) => GraphCommand::AddEdge(v1, v2),
        }
    }

    /// Applies this command to `graph`.
    pub fn apply_to(&self, graph: &mut DirectedGraph)
        requires
            old(graph).wf(),
            old(graph).edge_set().len() < usize::MAX,
        ensures
            final(graph).wf(),
            final(graph).vertex_set() == vertices_after(*self, old(graph).vertex_set()),
            final(graph).edge_set() == edges_after(*self, old(graph).edge_set()),
    {
        match self {
            GraphCommand::AddVertex(v) => {
                graph.add_vertex(*v);
            },
            GraphCommand::RemoveVertex(v) => {
                graph.remove_vertex(*v);
            },
            GraphCommand::AddEdge(v1, v2) => {
                let ghost g0 = *graph;
                let added = graph.add_edge(Edge(*v1, *v2));
                proof {
                    if !added {
                        g0.lemma_wf_facts();
                        assert(g0.vertex_set().insert(v1.0).insert(v2.0) =~= g0.vertex_set());
                        assert(g0.edge_set().insert(Edge(*v1, *v2)) =~= g0.edge_set());
                    }
                }
            },
            GraphCommand::RemoveEdge(v1, v2) => {
                graph.remove_edge(Edge(*v1, *v2));
            },
        }
    }

    /// Applies `commands` to `graph`, in order.
    pub fn apply_commands(commands: Vec<GraphCommand>, graph: &mut DirectedGraph)
        requires
            old(graph).wf(),
            old(graph).edge_set().len() + commands@.len() < usize::MAX,
        ensures
            final(graph).wf(),
            final(graph).vertex_set() == vertices_after_all(commands@, old(graph).vertex_set(), old(graph).edge_set()),
            final(graph).edge_set() == edges_after_all(commands@, old(graph).vertex_set(), old(graph).edge_set()),
    {
        let ghost vs0 = graph.vertex_set();
        let ghost es0 = graph.edge_set();
        let mut i: usize = 0;
        while i < commands.len()
            invariant
                graph.wf(),
                i <= commands@.len(),
                es0.len() + commands@.len() < usize::MAX,
                graph.edge_set().len() <= es0.len() + i,
                graph.vertex_set() == vertices_after_all(commands@.subrange(0, i as int), vs0, es0),
                graph.edge_set() == edges_after_all(commands@.subrange(0, i as int), vs0, es0),
            decreases commands@.len() - i,
        {
            let ghost g0 = *graph;
            commands[i].apply_to(graph);
            proof {
                let sub = commands@.subrange(0, i as int + 1);
                assert(sub.drop_last() =~= commands@.subrange(0, i as int));
                g0.lemma_wf_facts();
                let es = g0.edge_set();
                match commands@[i as int] {
                    GraphCommand::RemoveVertex(v) => {
                        vstd::set_lib::lemma_len_subset(es.filter(|e: Edge| !e.touches(v.0)), es);
                    },
                    GraphCommand::RemoveEdge(a, b) => {
                        vstd::set_lib::lemma_len_subset(es.remove(Edge(a, b)), es);
                    },
                    _ => {},
                }
            }
            i += 1;
        }
        proof {
            assert(commands@.subrange(0, commands@.len() as int) =~= commands@);
        }
    }

    /// Commands that rebuild `graph` from nothing: one `AddVertex` per
    /// vertex, then one `AddEdge` per edge.
    pub fn as_commands(graph: &DirectedGraph) -> (r: Vec<GraphCommand>)
        requires
            graph.wf(),
        ensures
            only_additions(r@),
            forall|x: u64| #[trigger] graph.vertex_set().contains(x) <==> r@.contains(GraphCommand::AddVertex(VertexId(x))),
            forall|e: Edge| #[trigger] graph.edge_set().contains(e) <==> r@.contains(GraphCommand::AddEdge(e.0, e.1)),
            r@.len() == graph.vertex_set().len() + graph.edge_set().len(),
            forall|i: int| 0 <= i < graph.vertex_set().len() ==> #[trigger] r@[i] == GraphCommand::AddVertex(graph.vertex_list()[i]),
            forall|i: int| graph.vertex_set().len() <= i < r@.len() ==> #[trigger] r@[i] is AddEdge,
            r@.no_duplicates(),
    {
        let vertices = graph.vertices();
        let edges = graph.edges();
        let mut res: Vec<GraphCommand> = Vec::new();
        let mut k: usize = 0;
        while k < vertices.len()
            invariant
                k <= vertices@.len(),
                res@.len() == k,
                forall|i: int| 0 <= i < k ==> #[trigger] res@[i] == GraphCommand::AddVertex(vertices@[i]),
            decreases vertices@.len() - k,
        {
            res.push(GraphCommand::AddVertex(vertices[k]));
            k += 1;
        }
        let n = vertices.len();
        let mut j: usize = 0;
        while j < edges.len()
            invariant
                j <= edges@.len(),
                n == vertices@.len(),
                res@.len() == n + j,
                forall|i: int| 0 <= i < n ==> #[trigger] res@[i] == GraphCommand::AddVertex(vertices@[i]),
                forall|i: int| 0 <= i < j ==> #[trigger] res@[n + i] == GraphCommand::AddEdge(edges@[i].0, edges@[i].1),
            decreases edges@.len() - j,
        {
            res.push(GraphCommand::AddEdge(edges[j].0, edges[j].1));
            proof {
                assert(res@[n + j] == GraphCommand::AddEdge(edges@[j as int].0, edges@[j as int].1));
            }
            j += 1;
        }
        proof {
            assert forall|i: int| 0 <= i < res@.len() implies (#[trigger] res@[i] is AddVertex) || res@[i] is AddEdge by {
                if i >= n {
                    assert(res@[n + (i - n)] == GraphCommand::AddEdge(edges@[i - n].0, edges@[i - n].1));
                }
            }
            assert forall|x: u64| #[trigger] graph.vertex_set().contains(x) <==> res@.contains(GraphCommand::AddVertex(VertexId(x))) by {
                if graph.vertex_set().contains(x) {
                    assert(vertices@.contains(VertexId(x)));
                    let i = choose|i: int| 0 <= i < vertices@.len() && vertices@[i] == VertexId(x);
                    assert(res@[i] == GraphCommand::AddVertex(VertexId(x)));
                }
                if res@.contains(GraphCommand::AddVertex(VertexId(x))) {
                    let i = choose|i: int| 0 <= i < res@.len() && res@[i] == GraphCommand::AddVertex(VertexId(x));
                    if i >= n {
                        assert(res@[n + (i - n)] == GraphCommand::AddEdge(edges@[i - n].0, edges@[i - n].1));
                    }
                    assert(vertices@[i] == VertexId(x));
                    assert(vertices@.contains(VertexId(x)));
                }
            }
            assert forall|e: Edge| #[trigger] graph.edge_set().contains(e) <==> res@.contains(GraphCommand::AddEdge(e.0, e.1)) by {
                if graph.edge_set().contains(e) {
                    assert(edges@.contains(e));
                    let i = choose|i: int| 0 <= i < edges@.len() && edges@[i] == e;
                    assert(res@[n + i] == GraphCommand::AddEdge(e.0, e.1));
                }
                if res@.contains(GraphCommand::AddEdge(e.0, e.1)) {
                    let i = choose|i: int| 0 <= i < res@.len() && res@[i] == GraphCommand::AddEdge(e.0, e.1);
                    if i < n {
                        assert(res@[i] == GraphCommand::AddVertex(vertices@[i]));
                    } else {
                        assert(res@[n + (i - n)] == GraphCommand::AddEdge(edges@[i - n].0, edges@[i - n].1));
                        assert(edges@[i - n] == e);
                        assert(edges@.contains(e));
                    }
                }
            }
            // as many vertices as the graph has
            graph.lemma_wf_facts();
            let ids = vertices@.map_values(|v: VertexId| v.0);
            assert forall|a: int, b: int| 0 <= a < ids.len() && 0 <= b < ids.len() && a != b implies ids[a] != ids[b] by {
                assert(vertices@[a] != vertices@[b]);
            }
            ids.unique_seq_to_set();
            assert(ids.to_set() =~= graph.vertex_set()) by {
                assert forall|x: u64| ids.to_set().contains(x) <==> graph.vertex_set().contains(x) by {
                    if graph.vertex_set().contains(x) {
                        assert(vertices@.contains(VertexId(x)));
                        let k = choose|k: int| 0 <= k < vertices@.len() && vertices@[k] == VertexId(x);
                        assert(ids[k] == x);
                    }
                    if ids.to_set().contains(x) {
                        let k = choose|k: int| 0 <= k < ids.len() && ids[k] == x;
                        assert(vertices@.contains(vertices@[k]));
                        assert(vertices@[k] == VertexId(x));
                    }
                }
            }
            assert forall|i: int| n <= i < res@.len() implies #[trigger] res@[i] is AddEdge by {
                assert(res@[n + (i - n)] == GraphCommand::AddEdge(edges@[i - n].0, edges@[i - n].1));
            }
            assert forall|a: int, b: int| 0 <= a < res@.len() && 0 <= b < res@.len() && a != b implies res@[a] != res@[b] by {
                if a < n && b < n {
                    assert(vertices@[a] != vertices@[b]);
                } else if a >= n && b >= n {
                    assert(res@[n + (a - n)] == GraphCommand::AddEdge(edges@[a - n].0, edges@[a - n].1));
                    assert(res@[n + (b - n)] == GraphCommand::AddEdge(edges@[b - n].0, edges@[b - n].1));
                    assert(edges@[a - n] != edges@[b - n]);
                    assert(edges@[a - n] == Edge(edges@[a - n].0, edges@[a - n].1));
                    assert(edges@[b - n] == Edge(edges@[b - n].0, edges@[b - n].1));
                } else if a < n {
                    assert(res@[n + (b - n)] == GraphCommand::AddEdge(edges@[b - n].0, edges@[b - n].1));
                } else {
                    assert(res@[n + (a - n)] == GraphCommand::AddEdge(edges@[a - n].0, edges@[a - n].1));
                }
            }
        }
        res
    }
}

} // verus!
