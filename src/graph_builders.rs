//! Edge lists of common shapes over a list of vertices, and a few helpers
//! that turn command-line input into vertices and checks.
use vstd::prelude::*;
use crate::graph::VertexId;
use crate::cycle::Cycle;
use crate::constraint::Constraint;
use crate::path::ScoredPath;
use crate::a_star::check_all_complete_constraints;
use crate::arg_utils::{decimal_u64, parse_vertex_id};

verus! {

/// Each vertex joined to the next one: `(v0, v1), (v1, v2), ...`.
pub fn chain_from_vertices(vertices: Vec<VertexId>) -> (r: Vec<(VertexId, VertexId)>)
    ensures
        r@.len() == if vertices@.len() == 0 { 0 } else { vertices@.len() - 1 },
        forall|i: int| 0 <= i < r@.len() ==> #[trigger] r@[i] == (vertices@[i], vertices@[i + 1]),
{
    let mut result: Vec<(VertexId, VertexId)> = Vec::new();
    if vertices.len() == 0 {
        return result;
    }
    let mut i: usize = 0;
    while i < vertices.len() - 1
        invariant
            vertices@.len() > 0,
            result@.len() == i,
            i <= vertices@.len() - 1,
            forall|k: int| 0 <= k < i ==> #[trigger] result@[k] == (vertices@[k], vertices@[k + 1]),
        decreases vertices@.len() - i,
    {
        result.push((vertices[i], vertices[i + 1]));
        i += 1;
    }
    result
}

/// The chain through the vertices, closed by an edge from the last back to
/// the first; none for no vertex.
pub fn cycle_from_vertices(vertices: Vec<VertexId>) -> (r: Option<Vec<(VertexId, VertexId)>>)
    ensures
        r is None <==> vertices@.len() == 0,
        r matches Some(es) ==> {
            &&& es@.len() == vertices@.len()
            &&& forall|i: int| 0 <= i < es@.len() ==>
                #[trigger] es@[i] == (vertices@[i], if i + 1 < vertices@.len() { vertices@[i + 1] } else { vertices@[0] })
        },
{
    if vertices.len() == 0 {
        return None;
    }
    let first = vertices[0];
    let ghost vs = vertices@;
    let mut closed = vertices;
    closed.push(first);
    let r = chain_from_vertices(closed);
    proof {
        assert forall|i: int| 0 <= i < r@.len() implies
            #[trigger] r@[i] == (vs[i], if i + 1 < vs.len() { vs[i + 1] } else { vs[0] }) by {
            assert(r@[i] == (vs.push(first)[i], vs.push(first)[i + 1]));
        }
    }
    Some(r)
}

/// The first vertex joined to each of the others.
pub fn star_from_vertices(vertices: Vec<VertexId>) -> (r: Vec<(VertexId, VertexId)>)
    ensures
        r@.len() == if vertices@.len() == 0 { 0 } else { vertices@.len() - 1 },
        forall|i: int| 0 <= i < r@.len() ==> #[trigger] r@[i] == (vertices@[0], vertices@[i + 1]),
{
    let mut result: Vec<(VertexId, VertexId)> = Vec::new();
    let mut i: usize = 1;
    while i < vertices.len()
        invariant
            1 <= i,
            vertices@.len() > 0 ==> i <= vertices@.len(),
            vertices@.len() == 0 ==> i == 1,
            result@.len() == i - 1,
            forall|k: int| 0 <= k < result@.len() ==> #[trigger] result@[k] == (vertices@[0], vertices@[k + 1]),
        decreases vertices@.len() - i,
    {
        result.push((vertices[0], vertices[i]));
        i += 1;
    }
    proof {
        if vertices@.len() > 0 {
            assert(i == vertices@.len());
        }
    }
    result
}

/// Every vertex joined to every other one, in both directions: the pairs
/// `(vi, vj)` with `i != j`, by `i` then `j`.
pub fn clique_from_vertices(vertices: Vec<VertexId>) -> (r: Vec<(VertexId, VertexId)>)
    requires
        vertices@.len() * vertices@.len() <= usize::MAX,
    ensures
        r@.len() == vertices@.len() * vertices@.len() - vertices@.len(),
        forall|i: int, j: int| 0 <= i < vertices@.len() && 0 <= j < vertices@.len() && i != j ==>
            r@.contains((vertices@[i], vertices@[j])),
{
    let n = vertices.len();
    let mut result: Vec<(VertexId, VertexId)> = Vec::new();
    let mut i: usize = 0;
    while i < n
        invariant
            n == vertices@.len(),
            n * n <= usize::MAX,
            i <= n,
            result@.len() == i * n - i,
            forall|a: int, b: int| 0 <= a < i && 0 <= b < n && a != b ==> result@.contains((vertices@[a], vertices@[b])),
        decreases n - i,
    {
        let mut j: usize = 0;
        let ghost before = result@;
        while j < n
            invariant
                n == vertices@.len(),
                n * n <= usize::MAX,
                i < n,
                j <= n,
                result@.len() == i * n - i + (if j <= i { j as int } else { j - 1 }),
                before.len() == i * n - i,
                result@.subrange(0, before.len() as int) == before,
                forall|a: int, b: int| 0 <= a < i && 0 <= b < n && a != b ==> before.contains((vertices@[a], vertices@[b])),
                forall|b: int| 0 <= b < j && b != i ==> result@.contains((vertices@[i as int], vertices@[b])),
            decreases n - j,
        {
            proof {
                assert(i * n - i + j <= n * n) by (nonlinear_arith)
                    requires i < n, j <= n;
            }
            if i != j {
                let ghost rb = result@;
                result.push((vertices[i], vertices[j]));
                proof {
                    assert(result@[rb.len() as int] == (vertices@[i as int], vertices@[j as int]));
                    assert forall|b: int| 0 <= b < j + 1 && b != i implies result@.contains((vertices@[i as int], vertices@[b])) by {
                        if b < j {
                            let k = choose|k: int| 0 <= k < rb.len() && rb[k] == (vertices@[i as int], vertices@[b]);
                            assert(result@[k] == rb[k]);
                        }
                    }
                    assert(result@.subrange(0, before.len() as int) =~= rb.subrange(0, before.len() as int));
                }
            }
            j += 1;
        }
        proof {
            assert forall|a: int, b: int| 0 <= a < i + 1 && 0 <= b < n && a != b implies result@.contains((vertices@[a], vertices@[b])) by {
                if a < i {
                    assert(before.contains((vertices@[a], vertices@[b])));
                    let k = choose|k: int| 0 <= k < before.len() && before[k] == (vertices@[a], vertices@[b]);
                    assert(result@.subrange(0, before.len() as int)[k] == before[k]);
                    assert(result@[k] == before[k]);
                }
            }
            assert((i + 1) * n - (i + 1) == i * n - i + n - 1) by (nonlinear_arith);
        }
        i += 1;
    }
    proof {
        assert(n * n - n == i * n - i);
    }
    result
}

/// The pairs turned around when `should_reverse`, as they are otherwise.
pub fn reverse_if_needed(should_reverse: bool, vertices: Vec<(VertexId, VertexId)>) -> (r: Vec<(VertexId, VertexId)>)
    ensures
        r@.len() == vertices@.len(),
        forall|i: int| 0 <= i < r@.len() ==> #[trigger] r@[i] == if should_reverse {
            (vertices@[i].1, vertices@[i].0)
        } else {
            vertices@[i]
        },
{
    if !should_reverse {
        return vertices;
    }
    let mut result: Vec<(VertexId, VertexId)> = Vec::new();
    let mut i: usize = 0;
    while i < vertices.len()
        invariant
            i <= vertices@.len(),
            result@.len() == i,
            forall|k: int| 0 <= k < i ==> #[trigger] result@[k] == (vertices@[k].1, vertices@[k].0),
        decreases vertices@.len() - i,
    {
        result.push((vertices[i].1, vertices[i].0));
        i += 1;
    }
    result
}

/// The vertices that the words write in decimal; none as soon as one of
/// them does not.
pub fn parse_vertex_id_list(ids: Vec<&str>) -> (r: Option<Vec<VertexId>>)
    ensures
        r is Some <==> forall|i: int| 0 <= i < ids@.len() ==> (#[trigger] decimal_u64(ids@[i]@)) is Some,
        r matches Some(vs) ==> vs@.len() == ids@.len()
            && forall|i: int| 0 <= i < vs@.len() ==> Some((#[trigger] vs@[i]).0) == decimal_u64(ids@[i]@),
{
    let mut res: Vec<VertexId> = Vec::new();
    let mut i: usize = 0;
    while i < ids.len()
        invariant
            i <= ids@.len(),
            res@.len() == i,
            forall|k: int| 0 <= k < i ==> Some((#[trigger] res@[k]).0) == decimal_u64(ids@[k]@),
        decreases ids@.len() - i,
    {
        match parse_vertex_id(ids[i]) {
            Some(id) => res.push(VertexId(id)),
            None => {
                return None;
            },
        }
        i += 1;
    }
    proof {
        assert forall|k: int| 0 <= k < ids@.len() implies (#[trigger] decimal_u64(ids@[k]@)) is Some by {
            assert(Some(res@[k].0) == decimal_u64(ids@[k]@));
        }
    }
    Some(res)
}

/// Whether every constraint holds on the cycle, taken as a path of score 0.
pub fn cycle_satisfies(cycle: &Cycle, constraints: &Vec<Constraint>) -> (r: bool)
    ensures
        r ==> forall|i: int| 0 <= i < constraints@.len() ==>
            crate::constraint::holds(#[trigger] constraints@[i], cycle@, 0),
        !r ==> exists|i: int| 0 <= i < constraints@.len() &&
            !crate::constraint::holds(#[trigger] constraints@[i], cycle@, 0),
{
    let scored_path = ScoredPath { path: cycle.as_path(), score: 0 };
    check_all_complete_constraints(&scored_path, constraints)
}

} // verus!
