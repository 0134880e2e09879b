use graph_core::directed_graph::DirectedGraph;
use graph_core::graph::{Edge, VertexId};


#[test]
fn test_add_vertex() {
    let mut digraph = DirectedGraph::new();
    digraph.add_vertex(vertex(0));
    assert!(digraph.contains_vertex(vertex(0)));
}

#[test]
fn test_remove_existing_vertex_work() {
    let mut digraph = DirectedGraph::new();
    digraph.add_vertex(vertex(0));
    assert!(digraph.contains_vertex(vertex(0)));
    assert!(digraph.remove_vertex(vertex(0)));
    assert!(!digraph.contains_vertex(vertex(0)));
}

#[test]
fn test_remove_existing_vertex_removes_all_related_edges_too() {
    let mut digraph = DirectedGraph::new();
    digraph.add_vertex(vertex(0));
    digraph.add_vertex(vertex(1));
    digraph.add_vertex(vertex(2));
    digraph.add_vertex(vertex(3));
    digraph.add_edge(edge(1, 2));
    digraph.add_edge(edge(3, 1));
    digraph.add_edge(edge(2, 3));
    // Removing vertex 1 should remove both edges containing it
    assert!(digraph.remove_vertex(vertex(1)));
    assert!(!digraph.contains_edge(edge(1, 2)));
    assert!(!digraph.contains_edge(edge(3, 1)));
    // Still contain unrelated edge
    assert!(digraph.contains_edge(edge(2, 3)));
}

#[test]
fn test_remove_non_existing_vertex_has_no_effect() {
    let mut digraph = DirectedGraph::new();
    digraph.add_vertex(vertex(0));
    assert!(digraph.contains_vertex(vertex(0)));
    assert!(!digraph.remove_vertex(vertex(1)));
    assert!(digraph.contains_vertex(vertex(0)));
}

#[test]
fn test_add_edge_with_existing_vertices_works() {
    let mut digraph = DirectedGraph::new();
    digraph.add_vertex(vertex(0));
    digraph.add_vertex(vertex(1));
    // No edges yet
    assert!(!digraph.contains_edge(edge(0, 1)));
    assert!(!digraph.contains_edge(edge(1, 0)));
    // Adding edge
    digraph.add_edge(edge(1, 0));
    assert!(!digraph.contains_edge(edge(0, 1)));
    assert!(digraph.contains_edge(edge(1, 0)));
}

#[test]
fn test_add_edge_with_non_existing_vertices_works() {
    let mut digraph = DirectedGraph::new();
    assert!(!digraph.contains_vertex(vertex(0)));
    assert!(!digraph.contains_vertex(vertex(1)));
    // Adding edge
    digraph.add_edge(edge(1, 0));
    assert!(digraph.contains_edge(edge(1, 0)));
}

#[test]
fn test_adding_an_edge_does_not_add_the_reverted_edge() {
    let mut digraph = DirectedGraph::new();
    digraph.add_edge(edge(1, 0));
    assert!(!digraph.contains_edge(edge(0, 1)));
}

#[test]
fn test_removing_an_edge_removes_only_that_edge() {
    let mut digraph = DirectedGraph::new();
    digraph.add_edge(edge(1, 0));
    digraph.add_edge(edge(2, 1));
    digraph.add_edge(edge(0, 1));
    // Remove edge 0->1
    digraph.remove_edge(edge(0, 1));
    assert!(!digraph.contains_edge(edge(0, 1)));
    // Unremoved edges are still present
    assert!(digraph.contains_edge(edge(1, 0)));
    assert!(digraph.contains_edge(edge(2, 1)));
}

#[test]
fn test_removing_an_edge_removes_all_occurences_of_this_edge() {
    let mut digraph = DirectedGraph::new();
    // 3 times same edge is added
    digraph.add_edge(edge(0, 1));
    digraph.add_edge(edge(0, 1));
    digraph.add_edge(edge(0, 1));
    // others
    digraph.add_edge(edge(1, 2));
    digraph.add_edge(edge(1, 3));

    assert!(digraph.edge_count() == 3);
    digraph.remove_edge(edge(0, 1));
    // All occurences of edge(0,0) have been removed
    assert!(digraph.edge_count() == 2);
    assert!(!digraph.contains_edge(edge(0, 1)));
}

// Testing Idem-Potent behavior

#[test]
fn test_removing_non_existing_vertex_has_no_effect() {
    let mut digraph = DirectedGraph::new();
    digraph.add_vertex(vertex(100));
    digraph.add_vertex(vertex(200));
    digraph.add_edge(edge(1, 0));
    digraph.add_edge(edge(2, 1));
    digraph.add_edge(edge(0, 1));
    assert!(digraph.vertex_count() == 5);
    assert!(digraph.edge_count() == 3);
    // Remove non-existing vertex 999
    digraph.remove_vertex(vertex(999));
    assert!(digraph.vertex_count() == 5);
    assert!(digraph.edge_count() == 3);
}

#[test]
fn test_remove_non_existing_edge_has_no_effect() {
    let mut digraph = DirectedGraph::new();
    digraph.add_edge(edge(1, 0));
    digraph.add_edge(edge(2, 1));
    digraph.add_edge(edge(0, 1));
    assert!(digraph.edge_count() == 3);
    // Remove non-existing edge 7->8
    digraph.remove_edge(edge(7, 8));
    assert!(digraph.vertex_count() == 3);
    assert!(digraph.edge_count() == 3);
}

#[test]
fn test_adding_a_vertex_several_times_has_no_effect() {
    let mut digraph = DirectedGraph::new();
    digraph.add_vertex(vertex(100));
    digraph.add_edge(edge(0, 1));
    digraph.add_edge(edge(1, 2));
    assert!(digraph.vertex_count() == 4);
    assert!(digraph.edge_count() == 2);
    // Readding a vertex
    digraph.add_vertex(vertex(100));
    assert!(digraph.vertex_count() == 4);
    assert!(digraph.edge_count() == 2);
}

#[test]
fn test_removing_a_vertex_several_times_has_no_effect() {
    let mut digraph = DirectedGraph::new();
    digraph.add_vertex(vertex(100));
    digraph.add_vertex(vertex(200));
    digraph.add_edge(edge(0, 1));
    digraph.add_edge(edge(1, 2));
    assert!(digraph.vertex_count() == 5);
    assert!(digraph.edge_count() == 2);
    // Removing a vertex
    digraph.remove_vertex(vertex(100));
    assert!(digraph.vertex_count() == 4);
    assert!(digraph.edge_count() == 2);
    // Removing again
    digraph.remove_vertex(vertex(100));
    assert!(digraph.vertex_count() == 4);
    assert!(digraph.edge_count() == 2);
}

#[test]
fn test_adding_an_edge_several_times_has_no_effect() {
    let mut digraph = DirectedGraph::new();
    digraph.add_edge(edge(0, 1));
    digraph.add_edge(edge(1, 2));
    digraph.add_edge(edge(1, 3));
    assert!(digraph.vertex_count() == 4);
    assert!(digraph.edge_count() == 3);
    // Addin an edge again
    digraph.add_edge(edge(0, 1));
    assert!(digraph.vertex_count() == 4);
    assert!(digraph.edge_count() == 3);
}

#[test]
fn test_removing_an_edge_several_times_has_no_effect() {
    let mut digraph = DirectedGraph::new();
    // 3 times same edge is added
    digraph.add_edge(edge(0, 1));
    digraph.add_edge(edge(1, 2));
    digraph.add_edge(edge(1, 3));
    assert!(digraph.vertex_count() == 4);
    assert!(digraph.edge_count() == 3);
    // Removing an edge
    digraph.remove_edge(edge(1, 3));
    assert!(digraph.vertex_count() == 4);
    assert!(digraph.edge_count() == 2);
    // Removing the edge again
    digraph.remove_edge(edge(1, 3));
    assert!(digraph.vertex_count() == 4);
    assert!(digraph.edge_count() == 2);
    assert!(!digraph.contains_edge(edge(1, 3)));
}

// Helpers

fn vertex(id: u64) -> VertexId {
    VertexId(id)
}

fn edge(src: u64, dst: u64) -> Edge {
    Edge(VertexId(src), VertexId(dst))
}
