//! Constraints over scored paths, evaluated on complete paths exactly and on
//! partial paths conservatively.
use vstd::prelude::*;
use crate::graph::{Edge, VertexId};
use crate::path::{walks_edge, repeats, Path, ScoredPath};

verus! {

/// Constraints that can be applied to a scored path.
#[derive(Debug, PartialEq, Eq)]
pub enum Constraint {
    /// The path contains the vertex.
    ContainsVertex(VertexId),
    /// The path goes along the edge.
    ContainsEdge(Edge),
    /// The listed vertices that occur in the path occur in the listed order;
    /// those that do not occur are irrelevant.
    OrderedVertices(Vec<VertexId>),
    /// Some vertex occurs twice in the path.
    ContainsCycle,
    /// The path has at least this many vertices.
    MinLength(usize),
    /// The path has at most this many vertices.
    MaxLength(usize),
    /// The score is at least this.
    MinScore(i64),
    /// The score is at most this.
    MaxScore(i64),
    /// At least one of the two holds.
    Or(Box<Constraint>, Box<Constraint>),
    /// Exactly one of the two holds.
    Xor(Box<Constraint>, Box<Constraint>),
    /// Both hold.
    And(Box<Constraint>, Box<Constraint>),
    /// The inner constraint does not hold.
    Not(Box<Constraint>),
}

/// Position of the last occurrence of `v` in `o`, or -1.
pub open spec fn rank(o: Seq<VertexId>, v: VertexId) -> int
    decreases o.len(),
{
    if o.len() == 0 {
        -1
    } else if o.last() == v {
        o.len() - 1
    } else {
        rank(o.drop_last(), v)
    }
}

/// The vertices of `s` that occur in `o` come in the order of their last
/// occurrence in `o`.
pub open spec fn respects_order(s: Seq<VertexId>, o: Seq<VertexId>) -> bool {
    forall|i: int, j: int|
        0 <= i < j < s.len() && #[trigger] rank(o, s[i]) >= 0 && #[trigger] rank(o, s[j]) >= 0
            ==> rank(o, s[i]) <= rank(o, s[j])
}

/// Exact meaning of `c` on a finished path `s` with score `score`.
pub open spec fn holds(c: Constraint, s: Seq<VertexId>, score: int) -> bool
    decreases c,
{
    match c {
        Constraint::ContainsVertex(v) => s.contains(v),
        Constraint::ContainsEdge(e) => walks_edge(s, e),
        Constraint::OrderedVertices(o) => respects_order(s, o@),
        Constraint::ContainsCycle => repeats(s),
        Constraint::MinLength(n) => s.len() >= n,
        Constraint::MaxLength(n) => s.len() <= n,
        Constraint::MinScore(m) => score >= m,
        Constraint::MaxScore(m) => score <= m,
        Constraint::Or(a, b) => holds(*a, s, score) || holds(*b, s, score),
        Constraint::Xor(a, b) => holds(*a, s, score) != holds(*b, s, score),
        Constraint::And(a, b) => holds(*a, s, score) && holds(*b, s, score),
        Constraint::Not(a) => !holds(*a, s, score),
    }
}

/// Whether a partial path `s` with score `score` may still be completed into
/// one on which `c` holds.
pub open spec fn viable(c: Constraint, s: Seq<VertexId>, score: int) -> bool
    decreases c,
{
    match c {
        Constraint::ContainsVertex(_) => true,
        Constraint::ContainsEdge(_) => true,
        Constraint::OrderedVertices(o) => respects_order(s, o@),
        Constraint::ContainsCycle => true,
        Constraint::MinLength(_) => true,
        Constraint::MaxLength(n) => s.len() <= n,
        Constraint::MinScore(_) => true,
        Constraint::MaxScore(m) => score <= m,
        Constraint::Not(a) => match *a {
            Constraint::ContainsVertex(v) => !s.contains(v),
            Constraint::ContainsEdge(e) => !walks_edge(s, e),
            Constraint::ContainsCycle => !repeats(s),
            _ => true,
        },
        Constraint::Or(a, b) => viable(*a, s, score) || viable(*b, s, score),
        Constraint::And(a, b) => viable(*a, s, score) && viable(*b, s, score),
        Constraint::Xor(a, b) => viable(*a, s, score) || viable(*b, s, score),
    }
}

/// Partial evaluation never prunes too much: if a path `q` with score `qs`
/// satisfies `c`, then every prefix `p` of `q` whose score `ps` is not
/// above `qs` is still viable for `c`.
pub proof fn law_partial_is_sound(c: Constraint, p: Seq<VertexId>, ps: int, q: Seq<VertexId>, qs: int)
    requires
        p.len() <= q.len(),
        p == q.subrange(0, p.len() as int),
        ps <= qs,
        holds(c, q, qs),
    ensures
        viable(c, p, ps),
    decreases c,
{
    match c {
        Constraint::OrderedVertices(o) => {
            assert forall|i: int, j: int|
                0 <= i < j < p.len() && #[trigger] rank(o@, p[i]) >= 0 && #[trigger] rank(o@, p[j]) >= 0
                implies rank(o@, p[i]) <= rank(o@, p[j]) by {
                assert(p[i] == q[i] && p[j] == q[j]);
                assert(rank(o@, q[i]) >= 0 && rank(o@, q[j]) >= 0);
            }
            assert(respects_order(p, o@));
            assert(viable(Constraint::OrderedVertices(o), p, ps));
        },
        Constraint::Not(a) => {
            assert(!holds(*a, q, qs));
            match *a {
                Constraint::ContainsVertex(v) => {
                    assert(holds(*a, q, qs) == q.contains(v));
                    if p.contains(v) {
                        let i = choose|i: int| 0 <= i < p.len() && p[i] == v;
                        assert(q[i] == v);
                        assert(q.contains(v));
                    }
                    assert(!p.contains(v));
                },
                Constraint::ContainsEdge(e) => {
                    assert(holds(*a, q, qs) == walks_edge(q, e));
                    if walks_edge(p, e) {
                        let i = choose|i: int| 0 <= i && i + 1 < p.len() && p[i] == e.0 && #[trigger] p[i + 1] == e.1;
                        assert(q[i] == e.0 && q[i + 1] == e.1);
                        assert(walks_edge(q, e));
                    }
                    assert(!walks_edge(p, e));
                },
                Constraint::ContainsCycle => {
                    if repeats(p) {
                        let (i, j) = choose|i: int, j: int| 0 <= i < j < p.len() && #[trigger] p[i] == #[trigger] p[j];
                        assert(q[i] == q[j]);
                        assert(repeats(q));
                    }
                    assert(!repeats(p));
                },
                _ => {},
            }
            assert(viable(c, p, ps));
        },
        Constraint::Or(a, b) => {
            if holds(*a, q, qs) {
                law_partial_is_sound(*a, p, ps, q, qs);
            } else {
                law_partial_is_sound(*b, p, ps, q, qs);
            }
        },
        Constraint::Xor(a, b) => {
            if holds(*a, q, qs) {
                law_partial_is_sound(*a, p, ps, q, qs);
            } else {
                law_partial_is_sound(*b, p, ps, q, qs);
            }
        },
        Constraint::And(a, b) => {
            law_partial_is_sound(*a, p, ps, q, qs);
            law_partial_is_sound(*b, p, ps, q, qs);
        },
        _ => {
            assert(viable(c, p, ps));
        },
    }
}

/// Position of the last occurrence of `v` in `o`, if any.
fn rank_of(o: &Vec<VertexId>, v: VertexId) -> (r: Option<usize>)
    ensures
        match r {
            Some(i) => rank(o@, v) == i as int,
            None => rank(o@, v) == -1,
        },
{
    let mut k: usize = o.len();
    proof {
        assert(o@.subrange(0, k as int) =~= o@);
    }
    while k > 0
        invariant
            k <= o@.len(),
            rank(o@, v) == rank(o@.subrange(0, k as int), v),
        decreases k,
    {
        proof {
            assert(o@.subrange(0, k as int).drop_last() =~= o@.subrange(0, k as int - 1));
        }
        if o[k - 1] == v {
            return Some(k - 1);
        }
        k -= 1;
    }
    None
}

impl Constraint {
    /// Whether the vertices of `path` that occur in `ordered` come in the
    /// order of their last occurrence in `ordered`.
    fn check_vertices_order(path: &Path, ordered: &Vec<VertexId>) -> (r: bool)
        ensures
            r == respects_order(path@, ordered@),
    {
        let s = Ghost(path@);
        let o = Ghost(ordered@);
        let mut start_from: usize = 0;
        let mut seen: bool = false;
        let mut k: usize = 0;
        while k < path.vertices.len()
            invariant
                s@ == path@,
                o@ == ordered@,
                k <= s@.len(),
                respects_order(s@.subrange(0, k as int), o@),
                forall|i: int| 0 <= i < k && #[trigger] rank(o@, s@[i]) >= 0 ==> rank(o@, s@[i]) <= start_from,
                seen ==> exists|i: int| 0 <= i < k && #[trigger] rank(o@, s@[i]) == start_from,
                !seen ==> start_from == 0 && forall|i: int| 0 <= i < k ==> #[trigger] rank(o@, s@[i]) < 0,
            decreases s@.len() - k,
        {
            let v = path.vertices[k];
            match rank_of(ordered, v) {
                Some(ri) => {
                    if ri < start_from {
                        proof {
                            let i = choose|i: int| 0 <= i < k && #[trigger] rank(o@, s@[i]) == start_from;
                            assert(rank(o@, s@[k as int]) == ri);
                            assert(!respects_order(s@, o@));
                        }
                        return false;
                    }
                    proof {
                        let t = s@.subrange(0, k as int + 1);
                        assert forall|i: int, j: int|
                            0 <= i < j < t.len() && #[trigger] rank(o@, t[i]) >= 0 && #[trigger] rank(o@, t[j]) >= 0
                            implies rank(o@, t[i]) <= rank(o@, t[j]) by {
                            if j < k {
                                assert(t[i] == s@.subrange(0, k as int)[i]);
                                assert(t[j] == s@.subrange(0, k as int)[j]);
                            } else {
                                assert(t[i] == s@[i]);
                            }
                        }
                        assert(rank(o@, s@[k as int]) == ri);
                    }
                    start_from = ri;
                    seen = true;
                },
                None => {
                    proof {
                        let t = s@.subrange(0, k as int + 1);
                        assert forall|i: int, j: int|
                            0 <= i < j < t.len() && #[trigger] rank(o@, t[i]) >= 0 && #[trigger] rank(o@, t[j]) >= 0
                            implies rank(o@, t[i]) <= rank(o@, t[j]) by {
                            assert(t[i] == s@.subrange(0, k as int)[i]);
                            assert(t[j] == s@.subrange(0, k as int)[j]);
                        }
                    }
                },
            }
            k += 1;
        }
        proof {
            assert(s@.subrange(0, s@.len() as int) =~= s@);
        }
        true
    }

    /// Whether a partial path may still be completed into one that
    /// satisfies this constraint; false only when no completion can.
    pub fn check_partial(&self, partial: &ScoredPath) -> (r: bool)
        ensures
            r == viable(*self, partial.path@, partial.score as int),
        decreases *self,
    {
        match self {
            Constraint::ContainsVertex(_) => true,
            Constraint::ContainsEdge(_) => true,
            Constraint::OrderedVertices(ordered) => Constraint::check_vertices_order(&partial.path, ordered),
            Constraint::ContainsCycle => true,
            Constraint::MinLength(_) => true,
            Constraint::MinScore(_) => true,
            Constraint::MaxLength(len) => partial.path.size() <= *len,
            Constraint::MaxScore(score) => partial.score <= *score,
            Constraint::Not(x) => match &**x {
                Constraint::ContainsVertex(vid) => !partial.path.contains_vertex(vid),
                Constraint::ContainsEdge(edge) => !partial.path.contains_edge(edge),
                Constraint::ContainsCycle => !partial.path.contains_cycle(),
                _ => true,
            },
            Constraint::Or(c1, c2) => c1.check_partial(partial) || c2.check_partial(partial),
            Constraint::And(c1, c2) => c1.check_partial(partial) && c2.check_partial(partial),
            Constraint::Xor(c1, c2) => c1.check_partial(partial) || c2.check_partial(partial),
        }
    }

    /// Whether a finished path satisfies this constraint.
    pub fn check_complete(&self, full: &ScoredPath) -> (r: bool)
        ensures
            r == holds(*self, full.path@, full.score as int),
        decreases *self,
    {
        match self {
            Constraint::ContainsVertex(vid) => full.path.contains_vertex(vid),
            Constraint::ContainsEdge(edge) => full.path.contains_edge(edge),
            Constraint::OrderedVertices(ordered) => Constraint::check_vertices_order(&full.path, ordered),
            Constraint::ContainsCycle => full.path.contains_cycle(),
            Constraint::MinLength(len) => full.path.size() >= *len,
            Constraint::MaxLength(len) => full.path.size() <= *len,
            Constraint::MinScore(score) => full.score >= *score,
            Constraint::MaxScore(score) => full.score <= *score,
            Constraint::Or(c1, c2) => c1.check_complete(full) || c2.check_complete(full),
            Constraint::Xor(c1, c2) => c1.check_complete(full) != c2.check_complete(full),
            Constraint::And(c1, c2) => c1.check_complete(full) && c2.check_complete(full),
            Constraint::Not(c1) => !c1.check_complete(full),
        }
    }
}

} // verus!
