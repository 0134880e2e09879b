use std::collections::HashMap;
use graph_core::directed_graph::DirectedGraph;
use graph_core::graph::{Edge, VertexId};
use graph_core::max_flow::max_flow;

type Flow = u64;
type Capacity = u64;


#[test]
fn max_flow_should_compute_maximum_flow_in_a_simple_graph_1() {
    let (g, capfn) = build_simple_test_flow_1();
    let (max, flows) = max_flow(&g, capfn, VertexId(0), VertexId(5));
    let flow_for =
        move |v1: u64, v2: u64| -> (Flow, Capacity) { *flows.get(&edge(v1, v2)).unwrap() };

    // Max Flow is 23
    assert_eq!(max, 23);
    // Individual flow per edges
    assert_eq!(flow_for(0, 1), (12, 16));
    assert_eq!(flow_for(1, 3), (12, 12));
    assert_eq!(flow_for(3, 5), (19, 20));
    assert_eq!(flow_for(0, 2), (11, 13));
    assert_eq!(flow_for(2, 1), (0, 4));
    assert_eq!(flow_for(2, 4), (11, 14));
    assert_eq!(flow_for(4, 3), (7, 7));
    assert_eq!(flow_for(4, 5), (4, 4));
    assert_eq!(flow_for(1, 2), (0, 10));
    assert_eq!(flow_for(3, 2), (0, 9));
}

#[test]
fn max_flow_should_compute_maximum_flow_in_a_simple_graph_2() {
    let (g, capfn) = build_simple_test_flow_2();
    let (max, flows) = max_flow(&g, capfn, VertexId(0), VertexId(7));
    let flow_for =
        move |v1: u64, v2: u64| -> (Flow, Capacity) { *flows.get(&edge(v1, v2)).unwrap() };

    // Max Flow is 22
    assert_eq!(max, 22);
    assert_eq!(flow_for(0, 1), (8, 8));
    assert_eq!(flow_for(0, 2), (9, 9));
    assert_eq!(flow_for(0, 3), (5, 7));
    assert_eq!(flow_for(1, 4), (2, 2));
    assert_eq!(flow_for(1, 5), (6, 6));
    assert_eq!(flow_for(2, 4), (4, 4));
    assert_eq!(flow_for(2, 5), (1, 6));
    assert_eq!(flow_for(2, 6), (4, 4));
    assert_eq!(flow_for(3, 5), (0, 1));
    assert_eq!(flow_for(3, 6), (5, 5));
    assert_eq!(flow_for(4, 7), (6, 8));
    assert_eq!(flow_for(5, 7), (7, 7));
    assert_eq!(flow_for(6, 7), (9, 9));
}

#[test]
fn max_flow_should_compute_maximum_flow_in_a_simple_graph_3() {
    let (g, capfn) = build_simple_test_flow_3();
    let (max, flows) = max_flow(&g, capfn, VertexId(0), VertexId(7));
    let flow_for =
        move |v1: u64, v2: u64| -> (Flow, Capacity) { *flows.get(&edge(v1, v2)).unwrap() };

    // Max Flow is 28
    assert_eq!(max, 28);
    assert_eq!(flow_for(0, 1), (10, 10));
    assert_eq!(flow_for(0, 2), (5, 5));
    assert_eq!(flow_for(0, 3), (13, 15));
    assert_eq!(flow_for(1, 2), (0, 4));
    assert_eq!(flow_for(1, 4), (9, 9));
    assert_eq!(flow_for(1, 5), (1, 15));
    assert_eq!(flow_for(2, 3), (0, 4));
    assert_eq!(flow_for(2, 5), (8, 8));
    assert_eq!(flow_for(3, 6), (13, 16));
    assert_eq!(flow_for(4, 7), (9, 10));
    assert_eq!(flow_for(4, 5), (0, 15));
    assert_eq!(flow_for(5, 6), (0, 15));
    assert_eq!(flow_for(5, 7), (9, 10));
    assert_eq!(flow_for(6, 2), (3, 6));
    assert_eq!(flow_for(6, 7), (10, 10));
}

// Helpers

// Max flow in this test graph should be 23
// Graph taken from https://www.geeksforgeeks.org/max-flow-problem-introduction/
fn build_simple_test_flow_1() -> (DirectedGraph, impl Fn(&Edge) -> Capacity) {
    let mut g = DirectedGraph::new();
    let mut capacity: HashMap<Edge, Capacity> = HashMap::new();
    cap_edge(&mut g, &mut capacity, 0, 1, 16);
    cap_edge(&mut g, &mut capacity, 0, 2, 13);
    cap_edge(&mut g, &mut capacity, 1, 3, 12);
    cap_edge(&mut g, &mut capacity, 1, 2, 10);
    cap_edge(&mut g, &mut capacity, 2, 1, 4);
    cap_edge(&mut g, &mut capacity, 2, 4, 14);
    cap_edge(&mut g, &mut capacity, 3, 5, 20);
    cap_edge(&mut g, &mut capacity, 3, 2, 9);
    cap_edge(&mut g, &mut capacity, 4, 3, 7);
    cap_edge(&mut g, &mut capacity, 4, 5, 4);

    let capfn = move |e: &Edge| -> Capacity { *capacity.get(e).unwrap_or(&0) };
    (g, capfn)
}

// Max flow in this test graph should be 23
// Graph taken from Graph, Algorithms and Optimisation, p194
fn build_simple_test_flow_2() -> (DirectedGraph, impl Fn(&Edge) -> Capacity) {
    let mut g = DirectedGraph::new();
    let mut capacity: HashMap<Edge, Capacity> = HashMap::new();
    cap_edge(&mut g, &mut capacity, 0, 1, 8);
    cap_edge(&mut g, &mut capacity, 0, 2, 9);
    cap_edge(&mut g, &mut capacity, 0, 3, 7);
    cap_edge(&mut g, &mut capacity, 1, 4, 2);
    cap_edge(&mut g, &mut capacity, 1, 5, 6);
    cap_edge(&mut g, &mut capacity, 2, 4, 4);
    cap_edge(&mut g, &mut capacity, 2, 5, 6);
    cap_edge(&mut g, &mut capacity, 2, 6, 4);
    cap_edge(&mut g, &mut capacity, 3, 5, 1);
    cap_edge(&mut g, &mut capacity, 3, 6, 5);
    cap_edge(&mut g, &mut capacity, 4, 7, 8);
    cap_edge(&mut g, &mut capacity, 5, 7, 7);
    cap_edge(&mut g, &mut capacity, 6, 7, 9);

    let capfn = move |e: &Edge| -> Capacity { *capacity.get(e).unwrap_or(&0) };
    (g, capfn)
}

fn build_simple_test_flow_3() -> (DirectedGraph, impl Fn(&Edge) -> Capacity) {
    let mut g = DirectedGraph::new();
    let mut capacity: HashMap<Edge, Capacity> = HashMap::new();
    cap_edge(&mut g, &mut capacity, 0, 1, 10);
    cap_edge(&mut g, &mut capacity, 0, 2, 5);
    cap_edge(&mut g, &mut capacity, 0, 3, 15);
    cap_edge(&mut g, &mut capacity, 1, 2, 4);
    cap_edge(&mut g, &mut capacity, 1, 4, 9);
    cap_edge(&mut g, &mut capacity, 1, 5, 15);
    cap_edge(&mut g, &mut capacity, 2, 3, 4);
    cap_edge(&mut g, &mut capacity, 2, 5, 8);
    cap_edge(&mut g, &mut capacity, 3, 6, 16);
    cap_edge(&mut g, &mut capacity, 4, 5, 15);
    cap_edge(&mut g, &mut capacity, 4, 7, 10);
    cap_edge(&mut g, &mut capacity, 5, 6, 15);
    cap_edge(&mut g, &mut capacity, 5, 7, 10);
    cap_edge(&mut g, &mut capacity, 6, 2, 6);
    cap_edge(&mut g, &mut capacity, 6, 7, 10);

    let capfn = move |e: &Edge| -> Capacity { *capacity.get(e).unwrap_or(&0) };
    (g, capfn)
}

fn edge(src: u64, dst: u64) -> Edge {
    Edge(VertexId(src), VertexId(dst))
}

fn cap_edge(
    g: &mut DirectedGraph,
    capacity: &mut HashMap<Edge, Capacity>,
    src: u64,
    dst: u64,
    cap: Capacity,
) {
    g.add_edge(edge(src, dst));
    capacity.insert(edge(src, dst), cap);
}
