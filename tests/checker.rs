use graph_core::checker::{check_min_max_length, check_min_max_score, check_vertex_inclusion_exclusion};
use graph_core::constraint::Constraint::{And, ContainsCycle, ContainsEdge, ContainsVertex, MaxLength, MaxScore, MinLength, MinScore, Not, OrderedVertices, Or, Xor};
use graph_core::graph::{Edge, VertexId};


#[test]
fn check_vertex_inclusion_exclusion_should_accept_when_vertices_inclusion_and_exclusion_are_compatible(
) {
    let constraints = vec![
        ContainsVertex(vertex(4)),
        ContainsVertex(vertex(5)),
        ContainsVertex(vertex(6)),
        ContainsEdge(edge(5, 4)),
        Not(Box::new(ContainsVertex(vertex(3)))),
    ];
    assert_eq!(check_vertex_inclusion_exclusion(&constraints), Ok(()))
}

#[test]
fn check_vertex_inclusion_exclusion_should_reject_when_a_vertex_is_included_and_excluded_at_the_same_time_1(
) {
    let constraints = vec![
        ContainsVertex(vertex(3)),
        Not(Box::new(ContainsVertex(vertex(3)))),
    ];
    assert_eq!(
        check_vertex_inclusion_exclusion(&constraints),
        Err("Incompatible set of constraints leading to vertices [VertexId(3)] to be included and excluded at the same time.".to_string())
    )
}

// Max / Min Length

#[test]
fn check_min_max_length_should_accept_compatible_min_and_max_length_constraint() {
    let constraints = vec![MaxLength(6), MinLength(5)];
    assert_eq!(check_min_max_length(&constraints), Ok(()))
}

#[test]
fn check_min_max_length_should_reject_incompatible_min_length_constraint() {
    let constraints = vec![MinLength(5), MinLength(6)];
    assert_eq!(
        check_min_max_length(&constraints),
        Err("Incompatible set of MinLength constraints: [5, 6] were defined, having only one is possible".to_string())
    )
}

#[test]
fn check_min_max_length_should_reject_incompatible_max_length_constraint() {
    let constraints = vec![MaxLength(5), MaxLength(6)];
    assert_eq!(
        check_min_max_length(&constraints),
        Err("Incompatible set of MaxLength constraints: [5, 6] were defined, having only one is possible".to_string())
    )
}

#[test]
fn check_min_max_length_should_reject_incompatible_min_and_max_length_constraint() {
    let constraints = vec![MaxLength(5), MinLength(6)];
    assert_eq!(
        check_min_max_length(&constraints),
        Err("Incompatible set of min/max length constraints: min=6, max=5".to_string())
    )
}

// Max / Min Score

#[test]
fn check_min_max_length_should_accept_compatible_min_and_max_score_constraint() {
    let constraints = vec![MaxScore(6), MinScore(5)];
    assert_eq!(check_min_max_score(&constraints), Ok(()))
}

#[test]
fn check_min_max_length_should_reject_incompatible_min_score_constraint() {
    let constraints = vec![MinScore(5), MinScore(6)];
    assert_eq!(
        check_min_max_score(&constraints),
        Err("Incompatible set of MinScore constraints: [5, 6] were defined, having only one is possible".to_string())
    )
}

#[test]
fn check_min_max_length_should_reject_incompatible_max_score_constraint() {
    let constraints = vec![MaxScore(5), MaxScore(6)];
    assert_eq!(
        check_min_max_score(&constraints),
        Err("Incompatible set of MaxScore constraints: [5, 6] were defined, having only one is possible".to_string())
    )
}

#[test]
fn check_min_max_length_should_reject_incompatible_min_and_max_score_constraint() {
    let constraints = vec![MaxScore(5), MinScore(6)];
    assert_eq!(
        check_min_max_score(&constraints),
        Err("Incompatible set of min/max score constraints: min=6, max=5".to_string())
    )
}

// Helpers
fn vertex(v: u64) -> VertexId {
    VertexId(v)
}

fn edge(src: u64, end: u64) -> Edge {
    Edge(vertex(src), vertex(end))
}

#[test]
fn check_vertex_inclusion_exclusion_should_name_each_clashing_vertex_once() {
    let constraints = vec![
        ContainsVertex(vertex(3)),
        Not(Box::new(ContainsVertex(vertex(3)))),
        ContainsEdge(edge(3, 5)),
        Not(Box::new(ContainsVertex(vertex(5)))),
        Not(Box::new(ContainsVertex(vertex(3)))),
    ];
    assert_eq!(
        check_vertex_inclusion_exclusion(&constraints),
        Err("Incompatible set of constraints leading to vertices [VertexId(3), VertexId(5)] to be included and excluded at the same time.".to_string())
    )
}

#[test]
fn check_edge_inclusion_exclusion_should_name_each_clashing_edge_once() {
    let constraints = vec![
        Not(Box::new(ContainsEdge(edge(1, 2)))),
        ContainsEdge(edge(1, 2)),
        Not(Box::new(ContainsEdge(edge(1, 2)))),
    ];
    assert_eq!(
        graph_core::checker::check_edge_inclusion_exclusion(&constraints),
        Err("Incompatible set of constraints leading to edges [Edge(VertexId(1), VertexId(2))] to be included and excluded at the same time.".to_string())
    )
}
