use graph_core::directed_graph::DirectedGraph;
use graph_core::graph::{Edge, VertexId};
use graph_core::iter_best::{best_iter_from, BestFirstIter};
use graph_core::path::{Path, ScoredPath};


// score returns the node id of the last node of the path
fn score(_graph: &DirectedGraph, path: &Path) -> i64 {
    match path.last() {
        Some(VertexId(x)) => *x as i64,
        None => 0,
    }
}

#[test]
fn best_iterator_from_on_a_one_node_graph_should_return_a_one_node_path() {
    let mut g = DirectedGraph::new();
    g.add_vertex(VertexId(1));
    let mut it = best_iter_from(&g, score, VertexId(1));
    assert_eq![
        it.next(),
        Some(ScoredPath {
            path: Path {
                vertices: vec![VertexId(1)]
            },
            score: 1
        }),
        "Iterator should return the only one-node path"
    ];
    assert![it.next().is_none(), "Iterator should now be empty"]
}

#[test]
fn best_iterator_return_reachable_nodes_in_a_breadth_first_search_order() {
    fn edge_from(src: u64, end: u64) -> Edge {
        Edge(VertexId(src), VertexId(end))
    }

    let mut g = DirectedGraph::new();
    g.add_edge(edge_from(1, 2));
    g.add_edge(edge_from(1, 4));
    g.add_edge(edge_from(2, 3));
    g.add_edge(edge_from(2, 5));
    g.add_edge(edge_from(1, 5));
    g.add_edge(edge_from(4, 5));
    g.add_edge(edge_from(4, 6));
    g.add_edge(edge_from(6, 7));
    g.add_edge(edge_from(7, 2));
    // 8 is NOT reachable from 1
    g.add_edge(edge_from(8, 2));

    // least score first, from vertex 1
    let it = best_iter_from(&g, score, VertexId(1));
    assert_eq![
        drain_scored(it),
        vec![
            ScoredPath {
                path: Path {
                    vertices: vec![VertexId(1)]
                },
                score: 1
            },
            ScoredPath {
                path: Path {
                    vertices: vec![VertexId(1), VertexId(2)]
                },
                score: 2
            },
            ScoredPath {
                path: Path {
                    vertices: vec![VertexId(1), VertexId(2), VertexId(3)]
                },
                score: 3
            },
            ScoredPath {
                path: Path {
                    vertices: vec![VertexId(1), VertexId(4)]
                },
                score: 4
            },
            ScoredPath {
                path: Path {
                    vertices: vec![VertexId(1), VertexId(5)]
                },
                score: 5
            },
            ScoredPath {
                path: Path {
                    vertices: vec![VertexId(1), VertexId(4), VertexId(6)]
                },
                score: 6
            },
            ScoredPath {
                path: Path {
                    vertices: vec![VertexId(1), VertexId(4), VertexId(6), VertexId(7)]
                },
                score: 7
            },
        ],
        "Best order is wrong when starting from Vertex 1"
    ];
}

#[test]
fn best_iterator_does_not_loop_when_encountering_a_cycle() {
    fn edge_from(src: u64, end: u64) -> Edge {
        Edge(VertexId(src), VertexId(end))
    }

    let mut g = DirectedGraph::new();
    // cycle
    g.add_edge(edge_from(1, 2));
    g.add_edge(edge_from(2, 3));
    g.add_edge(edge_from(3, 4));
    g.add_edge(edge_from(4, 5));
    g.add_edge(edge_from(5, 1));

    let it = best_iter_from(&g, score, VertexId(1));
    assert_eq![
        drain_scored(it).len(),
        5,
        "Best returned an invalid length"
    ];
}

fn drain_scored<F: Fn(&DirectedGraph, &Path) -> i64>(mut it: BestFirstIter<F>) -> Vec<ScoredPath> {
    let mut v = Vec::new();
    while let Some(x) = it.next() {
        v.push(x);
    }
    v
}
