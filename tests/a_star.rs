use graph_core::a_star::{constrained_shortest_path, constrained_shortest_path_within, shortest_path, zero_heuristic};
use graph_core::constraint::Constraint::{ContainsVertex, MaxLength};
use graph_core::directed_graph::DirectedGraph;
use graph_core::graph::{Edge, VertexId};
use graph_core::path::{Path, ScoredPath};


// score returns the node id of the last node of the path
fn cost(_graph: &DirectedGraph, path: &Path) -> i64 {
    path.vertices.iter().map(|VertexId(x)| *x as i64).sum()
}

// Shortest path

#[test]
fn shortest_path_should_find_the_shortest_path_when_it_exists() {
    let g = build_test_graph();
    assert_eq![
        shortest_path(&g, &cost, &zero_heuristic, VertexId(1), VertexId(7)),
        Some(ScoredPath {
            path: Path {
                vertices: vec![VertexId(1), VertexId(4), VertexId(6), VertexId(7)]
            },
            score: 18
        })
    ]
}

#[test]
fn shortest_path_should_return_none_when_no_path_exists() {
    let g = build_test_graph();
    assert![shortest_path(&g, &cost, &zero_heuristic, VertexId(1), VertexId(8)).is_none()]
}

// Shortest path with constraint

#[test]
fn shortest_path_should_find_the_shortest_path_satisfying_constraints_when_it_exists() {
    let g = build_test_graph();
    let constraints = vec![ContainsVertex(VertexId(4))];
    assert_eq![
        constrained_shortest_path(&g, &cost, &zero_heuristic, VertexId(1), VertexId(5), constraints),
        Some(ScoredPath {
            path: Path {
                vertices: vec![VertexId(1), VertexId(4), VertexId(5)]
            },
            score: 10
        })
    ]
}

#[test]
fn shortest_path_should_return_none_when_no_shortest_path_satisfying_constraints_exists() {
    let g = build_test_graph();
    let constraints = vec![ContainsVertex(VertexId(4)), MaxLength(2)];
    assert![constrained_shortest_path(&g, &cost, &zero_heuristic, VertexId(1), VertexId(5), constraints).is_none()]
}

#[test]
fn constrained_search_reports_whether_it_ran_to_its_end() {
    let g = build_test_graph();
    let constraints = vec![ContainsVertex(VertexId(4)), MaxLength(2)];
    assert_eq!(
        constrained_shortest_path_within(&g, &cost, &zero_heuristic, VertexId(1), VertexId(5), vec![ContainsVertex(VertexId(4)), MaxLength(2)], 0),
        (None, false)
    );
    assert_eq!(
        constrained_shortest_path_within(&g, &cost, &zero_heuristic, VertexId(1), VertexId(5), constraints, 1000),
        (None, true)
    );
    let (found, done) = constrained_shortest_path_within(
        &g, &cost, &zero_heuristic, VertexId(1), VertexId(5), vec![ContainsVertex(VertexId(4))], 1000);
    assert!(done);
    assert_eq!(found.unwrap().path.vertices, vec![VertexId(1), VertexId(4), VertexId(5)]);
}

// Helpers

fn build_test_graph() -> DirectedGraph {
    let mut g = DirectedGraph::new();
    g.add_edge(edge_from(1, 2));
    g.add_edge(edge_from(1, 4));
    g.add_edge(edge_from(2, 3));
    g.add_edge(edge_from(2, 5));
    g.add_edge(edge_from(1, 5));
    g.add_edge(edge_from(4, 5));
    g.add_edge(edge_from(4, 6));
    g.add_edge(edge_from(6, 7));
    g.add_edge(edge_from(7, 2));
    // 8 is NOT reachable from 1
    g.add_edge(edge_from(8, 2));
    g
}

fn edge_from(src: u64, end: u64) -> Edge {
    Edge(VertexId(src), VertexId(end))
}

