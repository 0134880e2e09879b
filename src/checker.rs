//! A best-effort static check that a list of constraints is not obviously
//! contradictory. It looks at the top level of the list only: it does not
//! look inside `And`, `Or`, `Xor` or nested `Not`.
use vstd::prelude::*;
use vstd::string::StringExecFns;
use crate::graph::{Edge, VertexId};
use crate::constraint::Constraint;

verus! {

/// Text of `{:?}` on a list of integers.
pub uninterp spec fn usizes_text(s: Seq<usize>) -> Seq<char>;

/// Text of `{:?}` on a list of integers.
pub uninterp spec fn i64s_text(s: Seq<i64>) -> Seq<char>;

/// Text of `{:?}` on a list of vertices.
pub uninterp spec fn vertices_text(s: Seq<VertexId>) -> Seq<char>;

/// Text of `{:?}` on a list of edges.
pub uninterp spec fn edges_text(s: Seq<Edge>) -> Seq<char>;

/// Text of `{}` on an integer.
pub uninterp spec fn usize_text(n: usize) -> Seq<char>;

/// Text of `{}` on an integer.
pub uninterp spec fn i64_text(n: i64) -> Seq<char>;

/// Relies on std's `Debug` for `Vec<usize>`.
#[verifier::external_body]
fn debug_usizes(v: &Vec<usize>) -> (r: String)
    ensures
        r@ == usizes_text(v@),
{
    format!("{:?}", v)
}

/// Relies on std's `Debug` for `Vec<i64>`.
#[verifier::external_body]
fn debug_i64s(v: &Vec<i64>) -> (r: String)
    ensures
        r@ == i64s_text(v@),
{
    format!("{:?}", v)
}

/// Relies on std's `Debug` for a `Vec` of vertices (the derived `Debug`).
#[verifier::external_body]
fn debug_vertices(v: &Vec<VertexId>) -> (r: String)
    ensures
        r@ == vertices_text(v@),
{
    format!("{:?}", v)
}

/// Relies on std's `Debug` for a `Vec` of edges (the derived `Debug`).
#[verifier::external_body]
fn debug_edges(v: &Vec<Edge>) -> (r: String)
    ensures
        r@ == edges_text(v@),
{
    format!("{:?}", v)
}

/// Relies on std's `Display` for `usize`.
#[verifier::external_body]
fn display_usize(n: usize) -> (r: String)
    ensures
        r@ == usize_text(n),
{
    format!("{}", n)
}

/// Relies on std's `Display` for `i64`.
#[verifier::external_body]
fn display_i64(n: i64) -> (r: String)
    ensures
        r@ == i64_text(n),
{
    format!("{}", n)
}

/// `c` asks for the path to contain `v` (directly, or as an endpoint of a
/// required edge).
pub open spec fn requires_vertex(c: Constraint, v: VertexId) -> bool {
    match c {
        Constraint::ContainsVertex(x) => x == v,
        Constraint::ContainsEdge(e) => e.0 == v || e.1 == v,
        _ => false,
    }
}

/// `c` is `Not(ContainsVertex(v))`.
pub open spec fn forbids_vertex(c: Constraint, v: VertexId) -> bool {
    match c {
        Constraint::Not(b) => match *b {
            Constraint::ContainsVertex(x) => x == v,
            _ => false,
        },
        _ => false,
    }
}

/// `c` is `Not(ContainsEdge(e))`.
pub open spec fn forbids_edge(c: Constraint, e: Edge) -> bool {
    match c {
        Constraint::Not(b) => match *b {
            Constraint::ContainsEdge(x) => x == e,
            _ => false,
        },
        _ => false,
    }
}

/// `c` is `Not(ContainsCycle)`.
pub open spec fn forbids_cycle(c: Constraint) -> bool {
    match c {
        Constraint::Not(b) => *b is ContainsCycle,
        _ => false,
    }
}

/// Some vertex is both required and forbidden.
pub open spec fn vertex_clash(cs: Seq<Constraint>) -> bool {
    exists|i: int, j: int, v: VertexId|
        0 <= i < cs.len() && 0 <= j < cs.len() && #[trigger] requires_vertex(cs[i], v) && #[trigger] forbids_vertex(cs[j], v)
}

/// Some edge is both required and forbidden.
pub open spec fn edge_clash(cs: Seq<Constraint>) -> bool {
    exists|i: int, j: int, e: Edge|
        0 <= i < cs.len() && 0 <= j < cs.len() && #[trigger] cs[i] == Constraint::ContainsEdge(e) && #[trigger] forbids_edge(cs[j], e)
}

/// A cycle is both required and forbidden.
pub open spec fn cycle_clash(cs: Seq<Constraint>) -> bool {
    (exists|i: int| 0 <= i < cs.len() && #[trigger] cs[i] is ContainsCycle)
        && (exists|j: int| 0 <= j < cs.len() && #[trigger] forbids_cycle(cs[j]))
}

/// The `MinLength` bounds, in order.
pub open spec fn min_lengths(cs: Seq<Constraint>) -> Seq<usize>
    decreases cs.len(),
{
    if cs.len() == 0 {
        seq![]
    } else {
        match cs.last() {
            Constraint::MinLength(n) => min_lengths(cs.drop_last()).push(n),
            _ => min_lengths(cs.drop_last()),
        }
    }
}

/// The `MaxLength` bounds, in order.
pub open spec fn max_lengths(cs: Seq<Constraint>) -> Seq<usize>
    decreases cs.len(),
{
    if cs.len() == 0 {
        seq![]
    } else {
        match cs.last() {
            Constraint::MaxLength(n) => max_lengths(cs.drop_last()).push(n),
            _ => max_lengths(cs.drop_last()),
        }
    }
}

/// The `MinScore` bounds, in order.
pub open spec fn min_scores(cs: Seq<Constraint>) -> Seq<i64>
    decreases cs.len(),
{
    if cs.len() == 0 {
        seq![]
    } else {
        match cs.last() {
            Constraint::MinScore(n) => min_scores(cs.drop_last()).push(n),
            _ => min_scores(cs.drop_last()),
        }
    }
}

/// The `MaxScore` bounds, in order.
pub open spec fn max_scores(cs: Seq<Constraint>) -> Seq<i64>
    decreases cs.len(),
{
    if cs.len() == 0 {
        seq![]
    } else {
        match cs.last() {
            Constraint::MaxScore(n) => max_scores(cs.drop_last()).push(n),
            _ => max_scores(cs.drop_last()),
        }
    }
}

/// More than one bound of a kind, or a minimum above the maximum.
pub open spec fn bounds_clash<T>(mins: Seq<T>, maxs: Seq<T>, above: spec_fn(T, T) -> bool) -> bool {
    mins.len() > 1 || maxs.len() > 1 || (mins.len() == 1 && maxs.len() == 1 && above(mins[0], maxs[0]))
}

pub open spec fn length_clash(cs: Seq<Constraint>) -> bool {
    bounds_clash(min_lengths(cs), max_lengths(cs), |a: usize, b: usize| a > b)
}

pub open spec fn score_clash(cs: Seq<Constraint>) -> bool {
    bounds_clash(min_scores(cs), max_scores(cs), |a: i64, b: i64| a > b)
}

/// Some contradiction that the check detects.
pub open spec fn some_clash(cs: Seq<Constraint>) -> bool {
    vertex_clash(cs) || edge_clash(cs) || cycle_clash(cs) || length_clash(cs) || score_clash(cs)
}

/// In order of first mention, each once, the vertices forbidden by the
/// first `n` constraints of `all` (by `Not(ContainsVertex)`) that some
/// constraint of `all` requires.
pub open spec fn clashing_vertices(all: Seq<Constraint>, n: nat) -> Seq<VertexId>
    decreases n,
{
    if n == 0 || n > all.len() {
        seq![]
    } else {
        let rest = clashing_vertices(all, (n - 1) as nat);
        match all[n - 1] {
            Constraint::Not(b) => match *b {
                Constraint::ContainsVertex(v) => if exists|i: int| 0 <= i < all.len() && #[trigger] requires_vertex(all[i], v)
                    && !rest.contains(v) {
                    rest.push(v)
                } else {
                    rest
                },
                _ => rest,
            },
            _ => rest,
        }
    }
}

/// In order of first mention, each once, the edges forbidden by the first
/// `n` constraints of `all` (by `Not(ContainsEdge)`) that some constraint
/// of `all` requires.
pub open spec fn clashing_edges(all: Seq<Constraint>, n: nat) -> Seq<Edge>
    decreases n,
{
    if n == 0 || n > all.len() {
        seq![]
    } else {
        let rest = clashing_edges(all, (n - 1) as nat);
        match all[n - 1] {
            Constraint::Not(b) => match *b {
                Constraint::ContainsEdge(e) => if exists|i: int| 0 <= i < all.len() && #[trigger] all[i] == Constraint::ContainsEdge(e)
                    && !rest.contains(e) {
                    rest.push(e)
                } else {
                    rest
                },
                _ => rest,
            },
            _ => rest,
        }
    }
}

/// The report of a vertex both required and forbidden.
pub open spec fn vertex_message(cs: Seq<Constraint>) -> Seq<char> {
    "Incompatible set of constraints leading to vertices "@ + vertices_text(clashing_vertices(cs, cs.len()))
        + " to be included and excluded at the same time."@
}

/// The report of an edge both required and forbidden.
pub open spec fn edge_message(cs: Seq<Constraint>) -> Seq<char> {
    "Incompatible set of constraints leading to edges "@ + edges_text(clashing_edges(cs, cs.len()))
        + " to be included and excluded at the same time."@
}

/// The report of a cycle both required and forbidden.
pub open spec fn cycle_message() -> Seq<char> {
    "Incompatible set of constraints about cycle inclusion and exclusion."@
}

/// The report of clashing length bounds.
pub open spec fn length_message(cs: Seq<Constraint>) -> Seq<char> {
    let mins = min_lengths(cs);
    let maxs = max_lengths(cs);
    if mins.len() > 1 {
        "Incompatible set of MinLength constraints: "@ + usizes_text(mins) + " were defined, having only one is possible"@
    } else if maxs.len() > 1 {
        "Incompatible set of MaxLength constraints: "@ + usizes_text(maxs) + " were defined, having only one is possible"@
    } else {
        "Incompatible set of min/max length constraints: min="@ + usize_text(mins[0]) + ", max="@ + usize_text(maxs[0])
    }
}

/// The report of clashing score bounds.
pub open spec fn score_message(cs: Seq<Constraint>) -> Seq<char> {
    let mins = min_scores(cs);
    let maxs = max_scores(cs);
    if mins.len() > 1 {
        "Incompatible set of MinScore constraints: "@ + i64s_text(mins) + " were defined, having only one is possible"@
    } else if maxs.len() > 1 {
        "Incompatible set of MaxScore constraints: "@ + i64s_text(maxs) + " were defined, having only one is possible"@
    } else {
        "Incompatible set of min/max score constraints: min="@ + i64_text(mins[0]) + ", max="@ + i64_text(maxs[0])
    }
}

/// The report of the first contradiction found, in the order the checks
/// run.
pub open spec fn first_clash_message(cs: Seq<Constraint>) -> Seq<char> {
    if vertex_clash(cs) {
        vertex_message(cs)
    } else if edge_clash(cs) {
        edge_message(cs)
    } else if cycle_clash(cs) {
        cycle_message()
    } else if length_clash(cs) {
        length_message(cs)
    } else {
        score_message(cs)
    }
}

/// Checks a list of constraints for contradictions that make a search
/// pointless, and reports the first one found. This is best effort: an
/// `Ok` does not promise that some path satisfies the list.
pub fn validate(constraints: &Vec<Constraint>) -> (r: Result<(), String>)
    ensures
        r is Ok <==> !some_clash(constraints@),
        r matches Err(m) ==> m@ == first_clash_message(constraints@),
{
    match check_vertex_inclusion_exclusion(constraints) {
        Err(m) => {
            return Err(m);
        },
        Ok(()) => {},
    }
    match check_edge_inclusion_exclusion(constraints) {
        Err(m) => {
            return Err(m);
        },
        Ok(()) => {},
    }
    match check_cycle_inclusion_exclusion(constraints) {
        Err(m) => {
            return Err(m);
        },
        Ok(()) => {},
    }
    match check_min_max_length(constraints) {
        Err(m) => {
            return Err(m);
        },
        Ok(()) => {},
    }
    check_min_max_score(constraints)
}

fn requires_vertex_exec(c: &Constraint, v: VertexId) -> (r: bool)
    ensures
        r == requires_vertex(*c, v),
{
    match c {
        Constraint::ContainsVertex(x) => *x == v,
        Constraint::ContainsEdge(e) => e.0 == v || e.1 == v,
        _ => false,
    }
}

fn any_requires_vertex(cs: &Vec<Constraint>, v: VertexId) -> (r: bool)
    ensures
        r == exists|i: int| 0 <= i < cs@.len() && #[trigger] requires_vertex(cs@[i], v),
{
    let mut i: usize = 0;
    while i < cs.len()
        invariant
            i <= cs@.len(),
            forall|k: int| 0 <= k < i ==> !#[trigger] requires_vertex(cs@[k], v),
        decreases cs@.len() - i,
    {
        if requires_vertex_exec(&cs[i], v) {
            return true;
        }
        i += 1;
    }
    false
}

fn any_requires_edge(cs: &Vec<Constraint>, e: Edge) -> (r: bool)
    ensures
        r == exists|i: int| 0 <= i < cs@.len() && #[trigger] cs@[i] == Constraint::ContainsEdge(e),
{
    let mut i: usize = 0;
    while i < cs.len()
        invariant
            i <= cs@.len(),
            forall|k: int| 0 <= k < i ==> #[trigger] cs@[k] != Constraint::ContainsEdge(e),
        decreases cs@.len() - i,
    {
        match &cs[i] {
            Constraint::ContainsEdge(x) => {
                if *x == e {
                    return true;
                }
            },
            _ => {},
        }
        i += 1;
    }
    false
}

fn lists_vertex(xs: &Vec<VertexId>, v: VertexId) -> (r: bool)
    ensures
        r == xs@.contains(v),
{
    let mut i: usize = 0;
    while i < xs.len()
        invariant
            i <= xs@.len(),
            forall|k: int| 0 <= k < i ==> xs@[k] != v,
        decreases xs@.len() - i,
    {
        if xs[i].0 == v.0 {
            proof {
                assert(xs@[i as int] == v);
            }
            return true;
        }
        i += 1;
    }
    false
}

fn lists_edge(xs: &Vec<Edge>, e: Edge) -> (r: bool)
    ensures
        r == xs@.contains(e),
{
    let mut i: usize = 0;
    while i < xs.len()
        invariant
            i <= xs@.len(),
            forall|k: int| 0 <= k < i ==> xs@[k] != e,
        decreases xs@.len() - i,
    {
        if xs[i].0.0 == e.0.0 && xs[i].1.0 == e.1.0 {
            proof {
                assert(xs@[i as int] == e);
            }
            return true;
        }
        i += 1;
    }
    false
}

/// Fails when some vertex is both required (by `ContainsVertex`, or as an
/// endpoint of a `ContainsEdge`) and forbidden (by `Not(ContainsVertex)`).
pub fn check_vertex_inclusion_exclusion(constraints: &Vec<Constraint>) -> (r: Result<(), String>)
    ensures
        r is Ok <==> !vertex_clash(constraints@),
        r matches Err(m) ==> m@ == vertex_message(constraints@),
{
    let cs = constraints;
    let mut clashing: Vec<VertexId> = Vec::new();
    let mut j: usize = 0;
    while j < cs.len()
        invariant
            j <= cs@.len(),
            (clashing@.len() == 0) <==> !(exists|i: int, jj: int, v: VertexId|
                0 <= i < cs@.len() && 0 <= jj < j && #[trigger] requires_vertex(cs@[i], v) && #[trigger] forbids_vertex(cs@[jj], v)),
            clashing@ == clashing_vertices(cs@, j as nat),
        decreases cs@.len() - j,
    {
        match &cs[j] {
            Constraint::Not(b) => match &**b {
                Constraint::ContainsVertex(v) => {
                    let v = *v;
                    let hit = any_requires_vertex(cs, v);
                    if hit && !lists_vertex(&clashing, v) {
                        clashing.push(v);
                    }
                    proof {
                        assert(forbids_vertex(cs@[j as int], v));
                    }
                },
                _ => {
                    proof {
                        assert forall|vv: VertexId| !forbids_vertex(cs@[j as int], vv) by {}
                    }
                },
            },
            _ => {
                proof {
                    assert forall|vv: VertexId| !forbids_vertex(cs@[j as int], vv) by {}
                }
            },
        }
        j += 1;
    }
    if clashing.len() == 0 {
        Ok(())
    } else {
        let mut msg = String::from_str("Incompatible set of constraints leading to vertices ");
        let list = debug_vertices(&clashing);
        msg.append(list.as_str());
        msg.append(" to be included and excluded at the same time.");
        Err(msg)
    }
}

/// Fails when some edge is both required (by `ContainsEdge`) and
/// forbidden (by `Not(ContainsEdge)`).
pub fn check_edge_inclusion_exclusion(constraints: &Vec<Constraint>) -> (r: Result<(), String>)
    ensures
        r is Ok <==> !edge_clash(constraints@),
        r matches Err(m) ==> m@ == edge_message(constraints@),
{
    let cs = constraints;
    let mut clashing: Vec<Edge> = Vec::new();
    let mut j: usize = 0;
    while j < cs.len()
        invariant
            j <= cs@.len(),
            clashing@ == clashing_edges(cs@, j as nat),
            (clashing@.len() == 0) <==> !(exists|i: int, jj: int, e: Edge|
                0 <= i < cs@.len() && 0 <= jj < j && #[trigger] cs@[i] == Constraint::ContainsEdge(e) && #[trigger] forbids_edge(cs@[jj], e)),
        decreases cs@.len() - j,
    {
        match &cs[j] {
            Constraint::Not(b) => match &**b {
                Constraint::ContainsEdge(e) => {
                    let e = *e;
                    let hit = any_requires_edge(cs, e);
                    if hit && !lists_edge(&clashing, e) {
                        clashing.push(e);
                    }
                    proof {
                        assert(forbids_edge(cs@[j as int], e));
                    }
                },
                _ => {
                    proof {
                        assert forall|ee: Edge| !forbids_edge(cs@[j as int], ee) by {}
                    }
                },
            },
            _ => {
                proof {
                    assert forall|ee: Edge| !forbids_edge(cs@[j as int], ee) by {}
                }
            },
        }
        j += 1;
    }
    if clashing.len() == 0 {
        Ok(())
    } else {
        let mut msg = String::from_str("Incompatible set of constraints leading to edges ");
        let list = debug_edges(&clashing);
        msg.append(list.as_str());
        msg.append(" to be included and excluded at the same time.");
        Err(msg)
    }
}

fn forbids_cycle_exec(c: &Constraint) -> (r: bool)
    ensures
        r == forbids_cycle(*c),
{
    match c {
        Constraint::Not(b) => match &**b {
            Constraint::ContainsCycle => true,
            _ => false,
        },
        _ => false,
    }
}

/// Fails when a cycle is both required (`ContainsCycle`) and forbidden
/// (`Not(ContainsCycle)`).
pub fn check_cycle_inclusion_exclusion(constraints: &Vec<Constraint>) -> (r: Result<(), String>)
    ensures
        r is Ok <==> !cycle_clash(constraints@),
        r matches Err(m) ==> m@ == cycle_message(),
{
    let cs = constraints;
    let mut wanted: bool = false;
    let mut banned: bool = false;
    let mut k: usize = 0;
    while k < cs.len()
        invariant
            k <= cs@.len(),
            wanted <==> exists|i: int| 0 <= i < k && #[trigger] cs@[i] is ContainsCycle,
            banned <==> exists|i: int| 0 <= i < k && #[trigger] forbids_cycle(cs@[i]),
        decreases cs@.len() - k,
    {
        match &cs[k] {
            Constraint::ContainsCycle => {
                wanted = true;
            },
            _ => {},
        }
        if forbids_cycle_exec(&cs[k]) {
            banned = true;
        }
        proof {
            assert(cs@[k as int] is ContainsCycle ==> wanted);
            assert(forbids_cycle(cs@[k as int]) ==> banned);
        }
        k += 1;
    }
    if wanted && banned {
        Err(String::from_str("Incompatible set of constraints about cycle inclusion and exclusion."))
    } else {
        Ok(())
    }
}

/// Fails when more than one `MinLength` or more than one `MaxLength` is
/// given, or when the minimum is above the maximum.
pub fn check_min_max_length(constraints: &Vec<Constraint>) -> (r: Result<(), String>)
    ensures
        r is Ok <==> !length_clash(constraints@),
        r matches Err(m) ==> m@ == length_message(constraints@),
{
    let cs = constraints;
    let mut mins: Vec<usize> = Vec::new();
    let mut maxs: Vec<usize> = Vec::new();
    let mut k: usize = 0;
    while k < cs.len()
        invariant
            k <= cs@.len(),
            mins@ == min_lengths(cs@.subrange(0, k as int)),
            maxs@ == max_lengths(cs@.subrange(0, k as int)),
        decreases cs@.len() - k,
    {
        proof {
            assert(cs@.subrange(0, k as int + 1).drop_last() =~= cs@.subrange(0, k as int));
        }
        match &cs[k] {
            Constraint::MinLength(n) => {
                mins.push(*n);
            },
            Constraint::MaxLength(n) => {
                maxs.push(*n);
            },
            _ => {},
        }
        k += 1;
    }
    proof {
        assert(cs@.subrange(0, cs@.len() as int) =~= cs@);
    }
    if mins.len() > 1 {
        let mut msg = String::from_str("Incompatible set of MinLength constraints: ");
        let list = debug_usizes(&mins);
        msg.append(list.as_str());
        msg.append(" were defined, having only one is possible");
        Err(msg)
    } else if maxs.len() > 1 {
        let mut msg = String::from_str("Incompatible set of MaxLength constraints: ");
        let list = debug_usizes(&maxs);
        msg.append(list.as_str());
        msg.append(" were defined, having only one is possible");
        Err(msg)
    } else if mins.len() == 1 && maxs.len() == 1 && mins[0] > maxs[0] {
        let mut msg = String::from_str("Incompatible set of min/max length constraints: min=");
        let lo = display_usize(mins[0]);
        msg.append(lo.as_str());
        msg.append(", max=");
        let hi = display_usize(maxs[0]);
        msg.append(hi.as_str());
        Err(msg)
    } else {
        Ok(())
    }
}

/// Fails when more than one `MinScore` or more than one `MaxScore` is
/// given, or when the minimum is above the maximum.
pub fn check_min_max_score(constraints: &Vec<Constraint>) -> (r: Result<(), String>)
    ensures
        r is Ok <==> !score_clash(constraints@),
        r matches Err(m) ==> m@ == score_message(constraints@),
{
    let cs = constraints;
    let mut mins: Vec<i64> = Vec::new();
    let mut maxs: Vec<i64> = Vec::new();
    let mut k: usize = 0;
    while k < cs.len()
        invariant
            k <= cs@.len(),
            mins@ == min_scores(cs@.subrange(0, k as int)),
            maxs@ == max_scores(cs@.subrange(0, k as int)),
        decreases cs@.len() - k,
    {
        proof {
            assert(cs@.subrange(0, k as int + 1).drop_last() =~= cs@.subrange(0, k as int));
        }
        match &cs[k] {
            Constraint::MinScore(n) => {
                mins.push(*n);
            },
            Constraint::MaxScore(n) => {
                maxs.push(*n);
            },
            _ => {},
        }
        k += 1;
    }
    proof {
        assert(cs@.subrange(0, cs@.len() as int) =~= cs@);
    }
    if mins.len() > 1 {
        let mut msg = String::from_str("Incompatible set of MinScore constraints: ");
        let list = debug_i64s(&mins);
        msg.append(list.as_str());
        msg.append(" were defined, having only one is possible");
        Err(msg)
    } else if maxs.len() > 1 {
        let mut msg = String::from_str("Incompatible set of MaxScore constraints: ");
        let list = debug_i64s(&maxs);
        msg.append(list.as_str());
        msg.append(" were defined, having only one is possible");
        Err(msg)
    } else if mins.len() == 1 && maxs.len() == 1 && mins[0] > maxs[0] {
        let mut msg = String::from_str("Incompatible set of min/max score constraints: min=");
        let lo = display_i64(mins[0]);
        msg.append(lo.as_str());
        msg.append(", max=");
        let hi = display_i64(maxs[0]);
        msg.append(hi.as_str());
        Err(msg)
    } else {
        Ok(())
    }
}

} // verus!
