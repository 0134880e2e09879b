use graph_core::directed_graph::DirectedGraph;
use graph_core::graph::{Edge, VertexId};
use graph_core::iter_depth::{dfs_iter, dfs_iter_from, dfs_iter_path_from, DepthFirstIter, DepthFirstPathIter};
use graph_core::path::Path;



#[test]
fn dfs_iterator_on_an_empty_graph_should_be_empty() {
    let g = DirectedGraph::new();
    let mut it = dfs_iter(&g);
    assert![it.next().is_none(), "Iterator should be empty"]
}

#[test]
fn dfs_iterator_on_a_one_node_graph_should_return_one_node() {
    let mut g = DirectedGraph::new();
    g.add_vertex(VertexId(1));
    let mut it = dfs_iter(&g);
    assert_eq![
        it.next(),
        Some(VertexId(1)),
        "Iterator should return the only node"
    ];
    assert![it.next().is_none(), "Iterator should now be empty"]
}

#[test]
fn dfs_iterator_from_on_a_one_node_graph_should_return_the_only_node() {
    let mut g = DirectedGraph::new();
    g.add_vertex(VertexId(1));
    let mut it = dfs_iter_from(&g, VertexId(1));
    assert_eq![
        it.next(),
        Some(VertexId(1)),
        "Iterator should return the only node"
    ];
    assert![it.next().is_none(), "Iterator should now be empty"]
}

#[test]
fn dfs_iterator_return_reachable_nodes_in_a_depth_first_search_order() {
    fn edge_from(src: u64, end: u64) -> Edge {
        Edge(VertexId(src), VertexId(end))
    }

    let mut g = DirectedGraph::new();
    g.add_edge(edge_from(1, 2));
    g.add_edge(edge_from(1, 4));
    g.add_edge(edge_from(2, 3));
    g.add_edge(edge_from(2, 5));
    g.add_edge(edge_from(1, 5));
    g.add_edge(edge_from(4, 5));
    g.add_edge(edge_from(4, 6));
    g.add_edge(edge_from(6, 7));
    g.add_edge(edge_from(7, 2));
    // 8 is NOT reachable from 1
    g.add_edge(edge_from(8, 2));

    // DFS order from vertex 1
    let it = dfs_iter_from(&g, VertexId(1));
    assert_eq![
        drain_vertices(it),
        vec!(
            VertexId(1),
            // Last child from Vertex 1
            VertexId(5),
            // Middle child
            VertexId(4),
            VertexId(6),
            VertexId(7),
            // First child
            VertexId(2),
            VertexId(3)
        ),
        "DFS order is wrong when starting from Vertex 1"
    ];
}

#[test]
fn dfs_iterator_does_not_loop_when_encountering_a_cycle() {
    fn edge_from(src: u64, end: u64) -> Edge {
        Edge(VertexId(src), VertexId(end))
    }

    let mut g = DirectedGraph::new();
    // cycle
    g.add_edge(edge_from(1, 2));
    g.add_edge(edge_from(2, 3));
    g.add_edge(edge_from(3, 4));
    g.add_edge(edge_from(4, 5));
    g.add_edge(edge_from(5, 1));

    let it = dfs_iter_from(&g, VertexId(1));
    assert_eq![
        drain_vertices(it).len(),
        5,
        "DFS returned an invalid length"
    ];
}

// DFS path

#[test]
fn dfs_path_iterator_return_path_for_all_reachable_nodes_in_a_depth_first_search_order() {
    fn edge_from(src: u64, end: u64) -> Edge {
        Edge(VertexId(src), VertexId(end))
    }

    fn path_of(v: Vec<u64>) -> Path {
        Path::from(&v.iter().map(|id| VertexId(*id)).collect())
    }

    let mut g = DirectedGraph::new();
    g.add_edge(edge_from(1, 2));
    g.add_edge(edge_from(1, 4));
    g.add_edge(edge_from(2, 3));
    g.add_edge(edge_from(2, 5));
    g.add_edge(edge_from(1, 5));
    g.add_edge(edge_from(4, 5));
    g.add_edge(edge_from(4, 6));
    g.add_edge(edge_from(6, 7));
    g.add_edge(edge_from(7, 2));
    // 8 is NOT reachable from 1
    g.add_edge(edge_from(8, 2));

    let it = dfs_iter_path_from(&g, VertexId(1));
    assert_eq![
        drain_paths(it),
        vec!(
            path_of(vec![1]),
            // Last child from Vertex 1
            path_of(vec![1, 5]),
            // Middle child
            path_of(vec![1, 4]),
            path_of(vec![1, 4, 6]),
            path_of(vec![1, 4, 6, 7]),
            path_of(vec![1, 4, 6, 7, 2]),
            path_of(vec![1, 4, 6, 7, 2, 5]),
            path_of(vec![1, 4, 6, 7, 2, 3]),
            path_of(vec![1, 4, 5]),
            // First child
            path_of(vec![1, 2]),
            path_of(vec![1, 2, 5]),
            path_of(vec![1, 2, 3])
        ),
        "DFS order is wrong when starting from Vertex 1"
    ];
}

fn drain_vertices(mut it: DepthFirstIter) -> Vec<VertexId> {
    let mut v = Vec::new();
    while let Some(x) = it.next() {
        v.push(x);
    }
    v
}

fn drain_paths(mut it: DepthFirstPathIter) -> Vec<Path> {
    let mut v = Vec::new();
    while let Some(x) = it.next() {
        v.push(x);
    }
    v
}
