use graph_core::arg_utils::{
    as_vertex_tuple, build_all_constraints, build_constraint_exact_length, build_constraint_exact_score,
    build_constraint_exclude, build_constraint_exclude_edges, build_constraint_include, build_constraint_include_cycle,
    build_constraint_include_edges, build_constraint_max_length, build_constraint_max_score, build_constraint_min_length,
    build_constraint_min_score, build_constraint_no_cycle, build_constraint_ordered, option_of, parse_vertex_id,
};
use graph_core::constraint::Constraint::{ContainsCycle, ContainsEdge, ContainsVertex, MaxLength, MaxScore, MinLength, MinScore, Not, OrderedVertices};
use graph_core::graph::{Edge, VertexId};

#[test]
fn parse_vertex_id_reads_decimal_identifiers() {
    assert_eq!(parse_vertex_id("0"), Some(0));
    assert_eq!(parse_vertex_id("42"), Some(42));
    assert_eq!(parse_vertex_id("+7"), Some(7));
    assert_eq!(parse_vertex_id("18446744073709551615"), Some(u64::MAX));
}

#[test]
fn parse_vertex_id_rejects_other_words() {
    assert_eq!(parse_vertex_id(""), None);
    assert_eq!(parse_vertex_id("+"), None);
    assert_eq!(parse_vertex_id("-1"), None);
    assert_eq!(parse_vertex_id("12a"), None);
    assert_eq!(parse_vertex_id(" 12"), None);
    assert_eq!(parse_vertex_id("18446744073709551616"), None);
    assert_eq!(parse_vertex_id("99999999999999999999"), None);
}

#[test]
fn as_vertex_tuple_pairs_vertices_two_by_two() {
    let vs = vec![VertexId(1), VertexId(2), VertexId(3), VertexId(4)];
    assert_eq!(as_vertex_tuple(vs), Some(vec![(VertexId(1), VertexId(2)), (VertexId(3), VertexId(4))]));
    assert_eq!(as_vertex_tuple(vec![VertexId(1), VertexId(2), VertexId(3)]), None);
    assert_eq!(as_vertex_tuple(vec![]), Some(vec![]));
}

#[test]
fn constraint_builders_build_the_named_constraints() {
    assert_eq!(build_constraint_include(vec![VertexId(1), VertexId(2)]), vec![ContainsVertex(VertexId(1)), ContainsVertex(VertexId(2))]);
    assert_eq!(build_constraint_exclude(vec![VertexId(3)]), vec![Not(Box::new(ContainsVertex(VertexId(3))))]);
    let e = Edge(VertexId(1), VertexId(2));
    assert_eq!(build_constraint_include_edges(vec![e]), vec![ContainsEdge(e)]);
    assert_eq!(build_constraint_exclude_edges(vec![e]), vec![Not(Box::new(ContainsEdge(e)))]);
    assert_eq!(build_constraint_ordered(vec![VertexId(2), VertexId(1)]), OrderedVertices(vec![VertexId(2), VertexId(1)]));
    assert_eq!(build_constraint_include_cycle(), ContainsCycle);
    assert_eq!(build_constraint_no_cycle(), Not(Box::new(ContainsCycle)));
    assert_eq!(build_constraint_min_length(2), MinLength(2));
    assert_eq!(build_constraint_max_length(3), MaxLength(3));
    assert_eq!(build_constraint_exact_length(4), vec![MinLength(4), MaxLength(4)]);
    assert_eq!(build_constraint_min_score(-1), MinScore(-1));
    assert_eq!(build_constraint_max_score(9), MaxScore(9));
    assert_eq!(build_constraint_exact_score(5), vec![MinScore(5), MaxScore(5)]);
}

#[test]
fn build_all_constraints_keeps_parameter_order() {
    let all = build_all_constraints(
        Some(vec![ContainsVertex(VertexId(1))]),
        Some(vec![Not(Box::new(ContainsVertex(VertexId(2))))]),
        None,
        Some(ContainsCycle),
        None,
        Some(MinLength(2)),
        None,
        Some(vec![MinLength(3), MaxLength(3)]),
        None,
        Some(MaxScore(10)),
        None,
    );
    assert_eq!(
        all,
        vec![
            ContainsVertex(VertexId(1)),
            Not(Box::new(ContainsVertex(VertexId(2)))),
            ContainsCycle,
            MinLength(2),
            MinLength(3),
            MaxLength(3),
            MaxScore(10),
        ]
    );
    let none = build_all_constraints(None, None, None, None, None, None, None, None, None, None, None);
    assert!(none.is_empty());
}

#[test]
fn option_of_calls_the_thunk_only_when_asked() {
    assert_eq!(option_of(true, || 3), Some(3));
    assert_eq!(option_of(false, || -> i32 { panic!("not called") }), None);
}
