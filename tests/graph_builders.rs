use graph_core::constraint::Constraint::{ContainsVertex, MaxLength, MinLength};
use graph_core::cycle::Cycle;
use graph_core::graph::VertexId;
use graph_core::graph_builders::{
    chain_from_vertices, clique_from_vertices, cycle_from_vertices, cycle_satisfies, parse_vertex_id_list,
    reverse_if_needed, star_from_vertices,
};

fn vs(ids: &[u64]) -> Vec<VertexId> {
    ids.iter().map(|x| VertexId(*x)).collect()
}

fn pairs(ps: &[(u64, u64)]) -> Vec<(VertexId, VertexId)> {
    ps.iter().map(|(a, b)| (VertexId(*a), VertexId(*b))).collect()
}

#[test]
fn chains_stars_and_cycles() {
    assert_eq!(chain_from_vertices(vs(&[1, 2, 3])), pairs(&[(1, 2), (2, 3)]));
    assert_eq!(chain_from_vertices(vs(&[1])), pairs(&[]));
    assert_eq!(chain_from_vertices(vs(&[])), pairs(&[]));
    assert_eq!(star_from_vertices(vs(&[5, 1, 2])), pairs(&[(5, 1), (5, 2)]));
    assert_eq!(star_from_vertices(vs(&[])), pairs(&[]));
    assert_eq!(cycle_from_vertices(vs(&[1, 2, 3])), Some(pairs(&[(1, 2), (2, 3), (3, 1)])));
    assert_eq!(cycle_from_vertices(vs(&[4])), Some(pairs(&[(4, 4)])));
    assert_eq!(cycle_from_vertices(vs(&[])), None);
}

#[test]
fn cliques_join_every_ordered_pair() {
    assert_eq!(clique_from_vertices(vs(&[1, 2, 3])), pairs(&[(1, 2), (1, 3), (2, 1), (2, 3), (3, 1), (3, 2)]));
    assert_eq!(clique_from_vertices(vs(&[1])), pairs(&[]));
}

#[test]
fn pairs_are_turned_around_on_demand() {
    assert_eq!(reverse_if_needed(true, pairs(&[(1, 2), (3, 4)])), pairs(&[(2, 1), (4, 3)]));
    assert_eq!(reverse_if_needed(false, pairs(&[(1, 2)])), pairs(&[(1, 2)]));
}

#[test]
fn vertex_lists_are_parsed_word_by_word() {
    assert_eq!(parse_vertex_id_list(vec!["1", "22", "+3"]), Some(vs(&[1, 22, 3])));
    assert_eq!(parse_vertex_id_list(vec!["1", "x"]), None);
    assert_eq!(parse_vertex_id_list(vec![]), Some(vs(&[])));
}

#[test]
fn cycles_are_checked_against_constraints() {
    let c = Cycle::from_vertices(&vs(&[1, 2, 3])).unwrap();
    assert!(cycle_satisfies(&c, &vec![ContainsVertex(VertexId(2)), MinLength(3)]));
    assert!(!cycle_satisfies(&c, &vec![ContainsVertex(VertexId(2)), MaxLength(2)]));
    assert!(cycle_satisfies(&c, &vec![]));
}
