use graph_core::cycle::{cycle_iter, extract_canonical_cycle_from_last, Cycle};
use graph_core::directed_graph::DirectedGraph;
use graph_core::graph::{Edge, VertexId};
use graph_core::path::Path;


#[test]
fn canonical_cycle_should_always_start_with_smallest_vertex() {
    assert_eq!(
        cano_cycle(vec![7, 5, 1, 2, 4]).unwrap(),
        cycle(vec![1, 2, 4, 7, 5]).unwrap()
    );
    assert_eq!(
        cano_cycle(vec![7, 5, 22, 2, 4]).unwrap(),
        cycle(vec![2, 4, 7, 5, 22]).unwrap()
    );
    assert_eq!(
        cano_cycle(vec![1, 5, 7, 2, 4]).unwrap(),
        cycle(vec![1, 5, 7, 2, 4]).unwrap()
    );
}

#[test]
fn extract_canonical_cycle_from_last_should_return_none_if_there_is_no_cycle_at_all() {
    assert!(extract_canonical_cycle_from_last(&path(vec![7, 3, 2, 5, 8, 9, 12])).is_none());
}

#[test]
fn extract_canonical_cycle_from_last_should_return_none_if_there_is_no_cycle_involving_the_last_element()
{
    assert!(extract_canonical_cycle_from_last(&path(vec![7, 3, 2, 5, 8, 9, 5, 12])).is_none());
}

#[test]
fn extract_canonical_cycle_from_last_should_return_a_cycle_involving_the_last_element_if_it_exists() {
    assert_eq!(
        extract_canonical_cycle_from_last(&path(vec![7, 3, 2, 5, 8, 9, 2])),
        cycle(vec![2, 5, 8, 9])
    );
    assert_eq!(
        extract_canonical_cycle_from_last(&path(vec![1, 3, 4, 5, 6, 1])),
        cycle(vec![1, 3, 4, 5, 6])
    );
}

#[test]
fn length_of_cycle_is_number_of_vertices() {
    assert_eq!(cycle(vec![2, 3]).map(|c| c.len()), Some(2));
    assert_eq!(cycle(vec![2, 5, 8, 9]).map(|c| c.len()), Some(4));
    assert_eq!(cycle(vec![2, 5, 8, 1, 3, 4]).map(|c| c.len()), Some(6));
}

#[test]
fn cycle_iterator_should_return_all_cycles_in_graph_1() {
    let mut g = DirectedGraph::new();
    g.add_edge(edge(5, 11));
    g.add_edge(edge(11, 2));
    g.add_edge(edge(7, 11));
    g.add_edge(edge(11, 9));
    g.add_edge(edge(11, 10));
    g.add_edge(edge(7, 8));
    g.add_edge(edge(8, 9));
    g.add_edge(edge(3, 8));
    g.add_edge(edge(3, 10));
    g.add_edge(edge(10, 5)); // cycle here : 5->11->10->5

    assert_eq!(count_cycles(&g), 1);
    assert_eq!(
        cycle_iter(&g).next().map(|x| x.canonical()),
        cycle(vec![5, 11, 10])
    );
}

#[test]
fn cycle_iterator_should_return_all_cycles_in_graph_2() {
    let mut g = DirectedGraph::new();
    g.add_edge(edge(1, 3));
    g.add_edge(edge(3, 4));
    g.add_edge(edge(4, 7));
    g.add_edge(edge(4, 5));
    g.add_edge(edge(5, 7));
    g.add_edge(edge(5, 6));
    g.add_edge(edge(2, 3));
    g.add_edge(edge(6, 1));
    g.add_edge(edge(6, 3));

    assert_eq!(count_cycles(&g), 2);
    let cycles = sorted_canonical_cycles(&g);

    assert_eq!(
        cycles,
        vec![
            cycle(vec![1, 3, 4, 5, 6]).unwrap(),
            cycle(vec![3, 4, 5, 6]).unwrap(),
        ]
    );
}

#[test]
fn cycle_iterator_should_return_all_cycles_in_graph_3() {
    let mut g = DirectedGraph::new();
    g.add_edge(edge(1, 2));
    g.add_edge(edge(2, 3));
    g.add_edge(edge(3, 4));
    g.add_edge(edge(4, 5));
    g.add_edge(edge(5, 1));
    g.add_edge(edge(2, 4));
    g.add_edge(edge(5, 3));

    assert_eq!(count_cycles(&g), 3);
    let cycles = sorted_canonical_cycles(&g);

    assert_eq!(
        cycles,
        vec![
            cycle(vec![1, 2, 3, 4, 5]).unwrap(),
            cycle(vec![1, 2, 4, 5]).unwrap(),
            cycle(vec![3, 4, 5]).unwrap(),
        ]
    );
}

// !!! Documenting behavior !!!
#[test]
fn cycle_iterator_does_not_work_on_a_all_disconnected_graph() {
    let mut g = DirectedGraph::new();
    // First component
    g.add_edge(edge(1, 3));
    g.add_edge(edge(3, 4));
    g.add_edge(edge(4, 7));
    g.add_edge(edge(4, 5));
    g.add_edge(edge(5, 7));
    g.add_edge(edge(5, 6));
    g.add_edge(edge(2, 3));
    g.add_edge(edge(6, 1));
    g.add_edge(edge(6, 3));
    // Second component, no vertex with no inbound edges
    g.add_edge(edge(10, 20));
    g.add_edge(edge(20, 30));
    g.add_edge(edge(30, 40));
    g.add_edge(edge(40, 50));
    g.add_edge(edge(50, 10));
    g.add_edge(edge(20, 40));
    g.add_edge(edge(50, 30));

    // !!! Finds only cycle from the first connected component !!!
    assert_eq!(count_cycles(&g), 2);
    let cycles = sorted_canonical_cycles(&g);
    assert_eq!(
        cycles,
        vec![
            cycle(vec![1, 3, 4, 5, 6]).unwrap(),
            cycle(vec![3, 4, 5, 6]).unwrap(),
        ]
    );
}

// Helpers

fn vertex(id: u64) -> VertexId {
    VertexId(id)
}

fn edge(src: u64, dst: u64) -> Edge {
    Edge(vertex(src), vertex(dst))
}

fn vertices(ids: Vec<u64>) -> Vec<VertexId> {
    ids.iter().map(|id| vertex(*id)).collect()
}

fn cycle(ids: Vec<u64>) -> Option<Cycle> {
    Cycle::from_vertices(&vertices(ids))
}

fn cano_cycle(ids: Vec<u64>) -> Option<Cycle> {
    cycle(ids).map(|c| c.canonical())
}

fn path(ids: Vec<u64>) -> Path {
    Path::from(&vertices(ids))
}

fn count_cycles(g: &DirectedGraph) -> usize {
    let mut it = cycle_iter(g);
    let mut n = 0;
    while let Some(_) = it.next() {
        n += 1;
    }
    n
}

fn sorted_canonical_cycles(g: &DirectedGraph) -> Vec<Cycle> {
    let mut it = cycle_iter(g);
    let mut v: Vec<Cycle> = Vec::new();
    while let Some(c) = it.next() {
        v.push(c.canonical());
    }
    v.sort();
    v
}
