use std::collections::HashMap;
use graph_core::checker::{check_cycle_inclusion_exclusion, check_edge_inclusion_exclusion, validate};
use graph_core::constraint::Constraint;
use graph_core::constraint::Constraint::{And, ContainsCycle, ContainsEdge, ContainsVertex, MaxLength, MaxScore, MinLength, MinScore, Not, OrderedVertices, Or, Xor};
use graph_core::cycle::{extract_canonical_cycle_from_last, Cycle};
use graph_core::cycles::{count, first, girth, hamiltonian, longest, shortest, take, take_all};
use graph_core::directed_graph::DirectedGraph;
use graph_core::graph::{Edge, VertexId};
use graph_core::graph_command::GraphCommand;
use graph_core::max_flow::{max_flow, max_flow_table};
use graph_core::path::{Path, ScoredPath};
use graph_core::shortest_path::{bellman_ford, spfa};
use graph_core::topo_sort::{is_dag, topological_sort};

fn v(id: u64) -> VertexId {
    VertexId(id)
}

fn e(a: u64, b: u64) -> Edge {
    Edge(VertexId(a), VertexId(b))
}

fn path_of(ids: &[u64]) -> Path {
    Path { vertices: ids.iter().map(|x| VertexId(*x)).collect() }
}

fn scored(ids: &[u64], score: i64) -> ScoredPath {
    ScoredPath { path: path_of(ids), score }
}

fn graph_of(edges: &[(u64, u64)]) -> DirectedGraph {
    let mut g = DirectedGraph::new();
    for (a, b) in edges {
        g.add_edge(e(*a, *b));
    }
    g
}

#[test]
fn mutations_report_a_change_only_the_first_time() {
    let mut g = DirectedGraph::new();
    assert!(g.add_vertex(v(1)));
    assert!(!g.add_vertex(v(1)));
    assert!(g.add_edge(e(1, 2)));
    assert!(!g.add_edge(e(1, 2)));
    assert_eq!((g.vertex_count(), g.edge_count()), (2, 1));
    assert!(g.remove_edge(e(1, 2)));
    assert!(!g.remove_edge(e(1, 2)));
    assert_eq!((g.vertex_count(), g.edge_count()), (2, 0));
    assert!(g.remove_vertex(v(2)));
    assert!(!g.remove_vertex(v(2)));
    assert_eq!((g.vertex_count(), g.edge_count()), (1, 0));
}

#[test]
fn an_edge_is_stored_in_its_direction_only() {
    let mut g = DirectedGraph::new();
    g.add_edge(e(3, 4));
    assert!(g.contains_edge(e(3, 4)));
    assert!(!g.contains_edge(e(4, 3)));
    g.add_edge(e(4, 3));
    assert!(g.contains_edge(e(4, 3)));
    assert_eq!(g.edge_count(), 2);
    assert_eq!(g.outbound_edges(v(3)), vec![e(3, 4)]);
    assert_eq!(g.inbound_edges(v(3)), vec![e(4, 3)]);
    assert_eq!(g.degree_out(v(4)), 1);
    assert_eq!(g.degree_in(v(4)), 1);
}

#[test]
fn removing_a_vertex_removes_exactly_its_edges() {
    let mut g = graph_of(&[(1, 2), (2, 3), (3, 1), (2, 2), (3, 4)]);
    assert_eq!(g.edge_count(), 5);
    assert!(g.remove_vertex(v(2)));
    assert!(!g.contains_vertex(v(2)));
    assert!(!g.contains_edge(e(1, 2)));
    assert!(!g.contains_edge(e(2, 3)));
    assert!(!g.contains_edge(e(2, 2)));
    assert!(g.contains_edge(e(3, 1)));
    assert!(g.contains_edge(e(3, 4)));
    assert_eq!((g.vertex_count(), g.edge_count()), (3, 2));
    assert_eq!(g.outbound_edges(v(1)), vec![]);
}

#[test]
fn a_self_loop_counts_as_one_edge() {
    let mut g = DirectedGraph::new();
    g.add_edge(e(7, 7));
    assert_eq!((g.vertex_count(), g.edge_count()), (1, 1));
    assert_eq!(g.outbound_edges(v(7)), vec![e(7, 7)]);
    assert_eq!(g.inbound_edges(v(7)), vec![e(7, 7)]);
    assert!(g.remove_edge(e(7, 7)));
    assert_eq!(g.edge_count(), 0);
}

#[test]
fn vertices_and_edges_are_listed_once() {
    let g = graph_of(&[(1, 2), (2, 3), (1, 3)]);
    assert_eq!(g.vertices(), vec![v(1), v(2), v(3)]);
    let mut edges = g.edges();
    edges.sort();
    assert_eq!(edges, vec![e(1, 2), e(1, 3), e(2, 3)]);
    assert!(!g.is_empty());
    assert_eq!(g.head_option(), Some(v(1)));
    assert_eq!(DirectedGraph::new().head_option(), None);
}

#[test]
fn every_rotation_of_a_cycle_has_the_same_canonical_form() {
    let ids = [9u64, 4, 7, 2, 5];
    let expected = Cycle::from_vertices(&vec![v(2), v(5), v(9), v(4), v(7)]).unwrap();
    for k in 0..ids.len() {
        let rotated: Vec<VertexId> = (0..ids.len()).map(|i| v(ids[(i + k) % ids.len()])).collect();
        let c = Cycle::from_vertices(&rotated).unwrap();
        assert_eq!(c.canonical(), expected);
        assert!(c.canonical().is_canonical());
        assert_eq!(c.is_canonical(), rotated[0] == v(2));
    }
}

#[test]
fn cycles_need_two_distinct_vertices() {
    assert!(Cycle::from_vertices(&vec![v(1)]).is_none());
    assert!(Cycle::from_vertices(&vec![]).is_none());
    assert!(Cycle::from_vertices(&vec![v(1), v(2), v(1)]).is_none());
    assert!(Cycle::from_path(&path_of(&[3, 4])).is_some());
    let c = Cycle::from_vertices(&vec![v(3), v(1), v(2)]).unwrap();
    assert_eq!(c.len(), 3);
    assert_eq!(c.iter(), vec![v(3), v(1), v(2)]);
    assert_eq!(c.as_path(), path_of(&[3, 1, 2]));
}

#[test]
fn a_self_loop_closes_a_one_vertex_cycle() {
    let c = extract_canonical_cycle_from_last(&path_of(&[1, 4, 4])).unwrap();
    assert_eq!(c.iter(), vec![v(4)]);
    assert!(extract_canonical_cycle_from_last(&path_of(&[])).is_none());
    assert!(extract_canonical_cycle_from_last(&path_of(&[4])).is_none());
}

#[test]
fn partial_checks_accept_every_prefix_of_a_satisfying_path() {
    let full = scored(&[1, 2, 3, 4, 5], 10);
    let constraints = vec![
        ContainsVertex(v(4)),
        ContainsEdge(e(3, 4)),
        OrderedVertices(vec![v(1), v(3), v(5)]),
        MinLength(5),
        MaxLength(5),
        MinScore(10),
        MaxScore(10),
        Not(Box::new(ContainsVertex(v(9)))),
        Not(Box::new(ContainsCycle)),
        And(Box::new(MaxLength(6)), Box::new(ContainsVertex(v(1)))),
        Or(Box::new(MaxLength(1)), Box::new(ContainsVertex(v(5)))),
        Xor(Box::new(MaxScore(3)), Box::new(ContainsVertex(v(2)))),
    ];
    for c in &constraints {
        assert!(c.check_complete(&full));
        for n in 1..=5 {
            let prefix = scored(&[1, 2, 3, 4, 5][..n], 2 * n as i64);
            assert!(c.check_partial(&prefix));
        }
    }
}

#[test]
fn partial_checks_reject_hopeless_prefixes() {
    let p = scored(&[1, 3, 1], 12);
    assert!(!Not(Box::new(ContainsVertex(v(3)))).check_partial(&p));
    assert!(!Not(Box::new(ContainsEdge(e(1, 3)))).check_partial(&p));
    assert!(!Not(Box::new(ContainsCycle)).check_partial(&p));
    assert!(!MaxLength(2).check_partial(&p));
    assert!(!MaxScore(11).check_partial(&p));
    assert!(!OrderedVertices(vec![v(3), v(1)]).check_partial(&scored(&[1, 3], 0)));
    assert!(OrderedVertices(vec![v(1), v(3), v(1)]).check_partial(&scored(&[3, 1], 0)));
}

#[test]
fn validate_reports_an_included_and_excluded_vertex() {
    let r = validate(&vec![ContainsVertex(v(3)), Not(Box::new(ContainsVertex(v(3))))]);
    assert_eq!(
        r,
        Err("Incompatible set of constraints leading to vertices [VertexId(3)] to be included and excluded at the same time.".to_string())
    );
}

#[test]
fn validate_reports_a_minimum_length_above_the_maximum() {
    let r = validate(&vec![MinLength(5), MaxLength(3)]);
    assert_eq!(r, Err("Incompatible set of min/max length constraints: min=5, max=3".to_string()));
}

#[test]
fn validate_accepts_compatible_lengths() {
    assert_eq!(validate(&vec![MinLength(3), MaxLength(5)]), Ok(()));
    assert_eq!(validate(&vec![]), Ok(()));
    assert_eq!(validate(&vec![ContainsCycle]), Ok(()));
}

#[test]
fn validate_reports_other_incompatibilities() {
    assert_eq!(
        check_edge_inclusion_exclusion(&vec![ContainsEdge(e(1, 2)), Not(Box::new(ContainsEdge(e(1, 2))))]),
        Err("Incompatible set of constraints leading to edges [Edge(VertexId(1), VertexId(2))] to be included and excluded at the same time.".to_string())
    );
    assert_eq!(check_edge_inclusion_exclusion(&vec![ContainsEdge(e(1, 2)), Not(Box::new(ContainsEdge(e(2, 1))))]), Ok(()));
    assert_eq!(
        check_cycle_inclusion_exclusion(&vec![ContainsCycle, Not(Box::new(ContainsCycle))]),
        Err("Incompatible set of constraints about cycle inclusion and exclusion.".to_string())
    );
    assert!(validate(&vec![ContainsEdge(e(3, 4)), Not(Box::new(ContainsVertex(v(4))))]).is_err());
    assert!(validate(&vec![MaxScore(1), MinScore(2)]).is_err());
    assert!(validate(&vec![MinScore(1), MinScore(2)]).is_err());
    // nested combinators are not looked into
    assert_eq!(validate(&vec![And(Box::new(ContainsCycle), Box::new(Not(Box::new(ContainsCycle))))]), Ok(()));
}

#[test]
fn topological_order_puts_every_edge_forward() {
    let g = graph_of(&[(5, 11), (11, 2), (7, 11), (11, 9), (11, 10), (7, 8), (8, 9), (3, 8), (3, 10)]);
    let order = topological_sort(&g).unwrap();
    assert_eq!(order.len(), g.vertex_count());
    let pos = |x: VertexId| order.iter().position(|y| *y == x).unwrap();
    for edge in g.edges() {
        assert!(pos(edge.0) < pos(edge.1));
    }
    assert!(is_dag(&g));
}

#[test]
fn a_self_loop_prevents_a_topological_order() {
    let g = graph_of(&[(1, 2), (2, 2)]);
    assert!(topological_sort(&g).is_none());
    assert!(!is_dag(&g));
}

#[test]
fn bellman_ford_detects_a_negative_cycle() {
    let g = graph_of(&[(1, 2), (2, 3), (3, 1)]);
    let w = |x: &Edge| -> i64 { if *x == e(3, 1) { -5 } else { 1 } };
    assert!(bellman_ford(&g, w, v(1)).is_none());
}

#[test]
fn bellman_ford_and_spfa_agree_without_negative_cycles() {
    let g = graph_of(&[(1, 2), (2, 3), (1, 3), (3, 4)]);
    let mut weights: HashMap<Edge, i64> = HashMap::new();
    weights.insert(e(1, 2), 1);
    weights.insert(e(2, 3), -3);
    weights.insert(e(1, 3), 1);
    weights.insert(e(3, 4), 2);
    let w = |x: &Edge| -> i64 { *weights.get(x).unwrap() };
    let bf = bellman_ford(&g, w, v(1)).unwrap();
    let sp = spfa(&g, w, v(1));
    assert_eq!(bf.get(&4), Some(&scored(&[1, 2, 3, 4], 0)));
    assert_eq!(sp.get(&4), Some(&scored(&[1, 2, 3, 4], 0)));
    assert_eq!(bf.get(&3), Some(&scored(&[1, 2, 3], -2)));
    assert_eq!(bf.len(), 4);
    assert_eq!(sp.len(), 4);
}

#[test]
fn max_flow_respects_capacities_and_conservation() {
    let g = graph_of(&[(0, 1), (0, 2), (1, 2), (1, 3), (2, 3)]);
    let mut caps: HashMap<Edge, u64> = HashMap::new();
    caps.insert(e(0, 1), 3);
    caps.insert(e(0, 2), 2);
    caps.insert(e(1, 2), 1);
    caps.insert(e(1, 3), 2);
    caps.insert(e(2, 3), 3);
    let (total, edges, flows) = max_flow_table(&g, |x: &Edge| *caps.get(x).unwrap(), v(0), v(3));
    assert_eq!(total, 5);
    for (i, edge) in edges.iter().enumerate() {
        assert!(flows[i].0 <= flows[i].1);
        assert_eq!(flows[i].1, caps[edge]);
    }
    for x in [1u64, 2] {
        let inflow: u64 = edges.iter().zip(flows.iter()).filter(|(ed, _)| ed.1 == v(x)).map(|(_, f)| f.0).sum();
        let outflow: u64 = edges.iter().zip(flows.iter()).filter(|(ed, _)| ed.0 == v(x)).map(|(_, f)| f.0).sum();
        assert_eq!(inflow, outflow);
    }
    let (total2, map) = max_flow(&g, |x: &Edge| *caps.get(x).unwrap(), v(0), v(3));
    assert_eq!(total2, 5);
    assert_eq!(map.len(), 5);
}

#[test]
fn max_flow_cancels_flow_along_a_backward_edge() {
    // the first augmenting path 0->1->2->3 must be partly undone
    let g = graph_of(&[(0, 1), (1, 2), (2, 3), (0, 2), (1, 3)]);
    let mut caps: HashMap<Edge, u64> = HashMap::new();
    caps.insert(e(0, 1), 1);
    caps.insert(e(1, 2), 1);
    caps.insert(e(2, 3), 1);
    caps.insert(e(0, 2), 1);
    caps.insert(e(1, 3), 1);
    let (total, _) = max_flow(&g, |x: &Edge| *caps.get(x).unwrap(), v(0), v(3));
    assert_eq!(total, 2);
}

#[test]
fn cycle_statistics_on_a_small_graph() {
    let g = graph_of(&[(1, 2), (2, 3), (3, 1), (3, 4), (4, 5), (5, 2)]);
    assert_eq!(count(&g), take_all(&g).len());
    assert_eq!(girth(&g), Some(3));
    assert_eq!(shortest(&g).map(|c| c.len()), Some(3));
    assert_eq!(longest(&g).map(|c| c.len()), Some(4));
    assert!(first(&g).is_some());
    assert_eq!(take(&g, 1).len(), 1);
    assert!(hamiltonian(&g).is_none());
    let ring = graph_of(&[(1, 2), (2, 3), (3, 1)]);
    assert_eq!(hamiltonian(&ring).map(|c| c.canonical().iter()), Some(vec![v(1), v(2), v(3)]));
}

#[test]
fn a_graph_without_cycles_has_no_girth() {
    let g = graph_of(&[(1, 2), (2, 3)]);
    assert_eq!(girth(&g), None);
    assert!(first(&g).is_none());
    assert_eq!(count(&g), 0);
    assert!(shortest(&g).is_none());
    assert!(longest(&g).is_none());
}

#[test]
fn reverting_a_command_twice_gives_it_back() {
    for c in [
        GraphCommand::AddVertex(v(1)),
        GraphCommand::RemoveVertex(v(1)),
        GraphCommand::AddEdge(v(1), v(2)),
        GraphCommand::RemoveEdge(v(1), v(2)),
    ] {
        assert_ne!(GraphCommand::revert(c), c);
        assert_eq!(GraphCommand::revert(GraphCommand::revert(c)), c);
    }
}

#[test]
fn replaying_the_commands_of_a_graph_rebuilds_it() {
    let mut g = graph_of(&[(1, 2), (2, 3), (3, 3)]);
    g.add_vertex(v(9));
    let commands = GraphCommand::as_commands(&g);
    assert_eq!(commands.len(), 4 + 3);
    let mut h = DirectedGraph::new();
    GraphCommand::apply_commands(commands, &mut h);
    assert_eq!(h.vertex_count(), 4);
    assert_eq!(h.edge_count(), 3);
    for edge in g.edges() {
        assert!(h.contains_edge(edge));
    }
    let undo: Vec<GraphCommand> = GraphCommand::as_commands(&g).into_iter().rev().map(GraphCommand::revert).collect();
    GraphCommand::apply_commands(undo, &mut h);
    assert!(h.is_empty());
}

#[test]
fn path_operations() {
    let p = path_of(&[1, 2, 3, 2]);
    assert_eq!(p.size(), 4);
    assert!(!p.is_empty());
    assert!(Path::empty().is_empty());
    assert_eq!(p.first(), Some(&v(1)));
    assert_eq!(p.last(), Some(&v(2)));
    assert!(p.contains_vertex(&v(3)));
    assert!(!p.contains_vertex(&v(4)));
    assert!(p.contains_edge(&e(3, 2)));
    assert!(!p.contains_edge(&e(1, 3)));
    assert_eq!(p.to_edge_list(), vec![e(1, 2), e(2, 3), e(3, 2)]);
    assert_eq!(p.to_vertex_list(), vec![v(1), v(2), v(3), v(2)]);
    assert!(p.contains_cycle());
    assert!(!path_of(&[1, 2, 3]).contains_cycle());
    assert_eq!(path_of(&[1]).append(v(5)), path_of(&[1, 5]));
    assert_eq!(Path::from(&vec![v(4)]), path_of(&[4]));
}

#[test]
fn complete_checks_of_each_constraint() {
    let p = scored(&[1, 2, 1], 4);
    let cs: Vec<(Constraint, bool)> = vec![
        (ContainsCycle, true),
        (MinLength(4), false),
        (MaxScore(3), false),
        (Xor(Box::new(ContainsCycle), Box::new(MinScore(4))), false),
        (OrderedVertices(vec![v(1), v(2)]), false),
        (OrderedVertices(vec![v(2), v(1)]), false),
        (OrderedVertices(vec![v(7)]), true),
    ];
    for (c, expected) in cs {
        assert_eq!(c.check_complete(&p), expected);
    }
}
