//! Helpers that turn command-line words into vertices, edges and
//! constraints.
use vstd::prelude::*;
use vstd::string::StrSliceExecFns;
use crate::graph::{Edge, VertexId};
use crate::constraint::Constraint;

verus! {

/// Whether every character of `s` is an ASCII digit.
pub open spec fn all_digits(s: Seq<char>) -> bool {
    forall|i: int| 0 <= i < s.len() ==> '0' <= #[trigger] s[i] && s[i] <= '9'
}

/// The number that the decimal digits `s` write.
pub open spec fn digits_value(s: Seq<char>) -> nat
    decreases s.len(),
{
    if s.len() == 0 {
        0
    } else {
        digits_value(s.drop_last()) * 10 + (s.last() as nat - '0' as nat) as nat
    }
}

/// The digits of `s` after an optional leading `+`.
pub open spec fn unsigned_digits(s: Seq<char>) -> Seq<char> {
    if s.len() > 0 && s[0] == '+' {
        s.drop_first()
    } else {
        s
    }
}

/// The `u64` that `s` writes in decimal (an optional `+`, then at least one
/// digit), if it fits.
pub open spec fn decimal_u64(s: Seq<char>) -> Option<u64> {
    let d = unsigned_digits(s);
    if d.len() > 0 && all_digits(d) && digits_value(d) <= u64::MAX {
        Some(digits_value(d) as u64)
    } else {
        None
    }
}

proof fn lemma_digits_grow(s: Seq<char>, j: int)
    requires
        0 <= j <= s.len(),
        all_digits(s),
    ensures
        digits_value(s.subrange(0, j)) <= digits_value(s),
    decreases s.len() - j,
{
    if j < s.len() {
        let t = s.subrange(0, j + 1);
        lemma_digits_grow(s, j + 1);
        assert(t.drop_last() =~= s.subrange(0, j));
        assert(digits_value(t) == digits_value(t.drop_last()) * 10 + (t.last() as nat - '0' as nat) as nat);
    } else {
        assert(s.subrange(0, j) =~= s);
    }
}

/// The vertex identifier that `v` writes in decimal, if any: an optional
/// `+`, then digits, with a value that fits in a `u64`.
pub fn parse_vertex_id(v: &str) -> (r: Option<u64>)
    ensures
        r == decimal_u64(v@),
{
    let n = v.unicode_len();
    let mut i: usize = 0;
    if n > 0 && v.get_char(0) == '+' {
        i = 1;
    }
    let ghost d = unsigned_digits(v@);
    proof {
        if i == 1 {
            assert(d =~= v@.subrange(1, n as int));
        } else {
            assert(d =~= v@.subrange(0, n as int));
        }
    }
    if i >= n {
        return None;
    }
    let start = i;
    let mut value: u64 = 0;
    while i < n
        invariant
            n == v@.len(),
            start <= i <= n,
            start < n,
            d == v@.subrange(start as int, n as int),
            d == unsigned_digits(v@),
            all_digits(v@.subrange(start as int, i as int)),
            value as nat == digits_value(v@.subrange(start as int, i as int)),
        decreases n - i,
    {
        let c = v.get_char(i);
        let ghost t = v@.subrange(start as int, i as int + 1);
        proof {
            assert(t.drop_last() =~= v@.subrange(start as int, i as int));
            assert(t.last() == c);
            assert(d[i - start] == c);
        }
        if c < '0' || c > '9' {
            proof {
                if all_digits(d) {
                    assert('0' <= d[i - start] && d[i - start] <= '9');
                }
                assert(!all_digits(d));
                assert(decimal_u64(v@) is None);
            }
            return None;
        }
        let digit = (c as u32 - '0' as u32) as u64;
        proof {
            assert(digits_value(t) == value * 10 + digit);
        }
        if value > (u64::MAX - digit) / 10 {
            proof {
                assert(digits_value(t) == value * 10 + digit);
                assert(value * 10 + digit > u64::MAX) by (nonlinear_arith)
                    requires value > (u64::MAX - digit) / 10, digit <= 9;
                assert(v@.subrange(start as int, n as int).subrange(0, i - start + 1) =~= t);
                assert(d.subrange(0, i - start + 1) == t);
                if all_digits(d) {
                    lemma_digits_grow(d, i - start + 1);
                    assert(digits_value(d) > u64::MAX);
                }
                assert(decimal_u64(v@) is None);
            }
            return None;
        }
        proof {
            assert(value * 10 + digit <= u64::MAX) by (nonlinear_arith)
                requires value <= (u64::MAX - digit) / 10, digit <= 9;
        }
        value = value * 10 + digit;
        i += 1;
    }
    Some(value)
}

/// The vertices taken two by two, as (source, destination) pairs; none for
/// an odd number of vertices.
pub fn as_vertex_tuple(vids: Vec<VertexId>) -> (r: Option<Vec<(VertexId, VertexId)>>)
    ensures
        vids@.len() % 2 == 1 <==> r is None,
        r matches Some(pairs) ==> pairs@.len() * 2 == vids@.len()
            && forall|k: int| 0 <= k < pairs@.len() ==> #[trigger] pairs@[k] == (vids@[2 * k], vids@[2 * k + 1]),
{
    if vids.len() % 2 != 0 {
        return None;
    }
    let mut res: Vec<(VertexId, VertexId)> = Vec::new();
    let mut i: usize = 0;
    while i < vids.len()
        invariant
            vids@.len() % 2 == 0,
            i % 2 == 0,
            i <= vids@.len(),
            res@.len() * 2 == i,
            forall|k: int| 0 <= k < res@.len() ==> #[trigger] res@[k] == (vids@[2 * k], vids@[2 * k + 1]),
        decreases vids@.len() - i,
    {
        res.push((vids[i], vids[i + 1]));
        i += 2;
    }
    Some(res)
}

/// `ContainsVertex` for each vertex, in order.
pub fn build_constraint_include(ids: Vec<VertexId>) -> (r: Vec<Constraint>)
    ensures
        r@.len() == ids@.len(),
        forall|i: int| 0 <= i < r@.len() ==> #[trigger] r@[i] == Constraint::ContainsVertex(ids@[i]),
{
    let mut r: Vec<Constraint> = Vec::new();
    let mut i: usize = 0;
    while i < ids.len()
        invariant
            i <= ids@.len(),
            r@.len() == i,
            forall|k: int| 0 <= k < i ==> #[trigger] r@[k] == Constraint::ContainsVertex(ids@[k]),
        decreases ids@.len() - i,
    {
        r.push(Constraint::ContainsVertex(ids[i]));
        i += 1;
    }
    r
}

/// `Not(ContainsVertex)` for each vertex, in order.
pub fn build_constraint_exclude(ids: Vec<VertexId>) -> (r: Vec<Constraint>)
    ensures
        r@.len() == ids@.len(),
        forall|i: int| 0 <= i < r@.len() ==> #[trigger] r@[i] == Constraint::Not(Box::new(Constraint::ContainsVertex(ids@[i]))),
{
    let mut r: Vec<Constraint> = Vec::new();
    let mut i: usize = 0;
    while i < ids.len()
        invariant
            i <= ids@.len(),
            r@.len() == i,
            forall|k: int| 0 <= k < i ==> #[trigger] r@[k] == Constraint::Not(Box::new(Constraint::ContainsVertex(ids@[k]))),
        decreases ids@.len() - i,
    {
        r.push(Constraint::Not(Box::new(Constraint::ContainsVertex(ids[i]))));
        i += 1;
    }
    r
}

/// `ContainsEdge` for each edge, in order.
pub fn build_constraint_include_edges(edges: Vec<Edge>) -> (r: Vec<Constraint>)
    ensures
        r@.len() == edges@.len(),
        forall|i: int| 0 <= i < r@.len() ==> #[trigger] r@[i] == Constraint::ContainsEdge(edges@[i]),
{
    let mut r: Vec<Constraint> = Vec::new();
    let mut i: usize = 0;
    while i < edges.len()
        invariant
            i <= edges@.len(),
            r@.len() == i,
            forall|k: int| 0 <= k < i ==> #[trigger] r@[k] == Constraint::ContainsEdge(edges@[k]),
        decreases edges@.len() - i,
    {
        r.push(Constraint::ContainsEdge(edges[i]));
        i += 1;
    }
    r
}

/// `Not(ContainsEdge)` for each edge, in order.
pub fn build_constraint_exclude_edges(edges: Vec<Edge>) -> (r: Vec<Constraint>)
    ensures
        r@.len() == edges@.len(),
        forall|i: int| 0 <= i < r@.len() ==> #[trigger] r@[i] == Constraint::Not(Box::new(Constraint::ContainsEdge(edges@[i]))),
{
    let mut r: Vec<Constraint> = Vec::new();
    let mut i: usize = 0;
    while i < edges.len()
        invariant
            i <= edges@.len(),
            r@.len() == i,
            forall|k: int| 0 <= k < i ==> #[trigger] r@[k] == Constraint::Not(Box::new(Constraint::ContainsEdge(edges@[k]))),
        decreases edges@.len() - i,
    {
        r.push(Constraint::Not(Box::new(Constraint::ContainsEdge(edges[i]))));
        i += 1;
    }
    r
}

/// The vertices, to be met in this order.
pub fn build_constraint_ordered(ids: Vec<VertexId>) -> (r: Constraint)
    ensures
        r == Constraint::OrderedVertices(ids),
{
    Constraint::OrderedVertices(ids)
}

pub fn build_constraint_include_cycle() -> (r: Constraint)
    ensures
        r == Constraint::ContainsCycle,
{
    Constraint::ContainsCycle
}

pub fn build_constraint_no_cycle() -> (r: Constraint)
    ensures
        r == Constraint::Not(Box::new(Constraint::ContainsCycle)),
{
    Constraint::Not(Box::new(Constraint::ContainsCycle))
}

pub fn build_constraint_min_length(len: usize) -> (r: Constraint)
    ensures
        r == Constraint::MinLength(len),
{
    Constraint::MinLength(len)
}

pub fn build_constraint_max_length(len: usize) -> (r: Constraint)
    ensures
        r == Constraint::MaxLength(len),
{
    Constraint::MaxLength(len)
}

/// A length of exactly `len`: at least and at most `len`.
pub fn build_constraint_exact_length(len: usize) -> (r: Vec<Constraint>)
    ensures
        r@ == seq![Constraint::MinLength(len), Constraint::MaxLength(len)],
{
    let mut r: Vec<Constraint> = Vec::new();
    r.push(Constraint::MinLength(len));
    r.push(Constraint::MaxLength(len));
    proof {
        assert(r@ =~= seq![Constraint::MinLength(len), Constraint::MaxLength(len)]);
    }
    r
}

pub fn build_constraint_min_score(score: i64) -> (r: Constraint)
    ensures
        r == Constraint::MinScore(score),
{
    Constraint::MinScore(score)
}

pub fn build_constraint_max_score(score: i64) -> (r: Constraint)
    ensures
        r == Constraint::MaxScore(score),
{
    Constraint::MaxScore(score)
}

/// A score of exactly `score`: at least and at most `score`.
pub fn build_constraint_exact_score(score: i64) -> (r: Vec<Constraint>)
    ensures
        r@ == seq![Constraint::MinScore(score), Constraint::MaxScore(score)],
{
    let mut r: Vec<Constraint> = Vec::new();
    r.push(Constraint::MinScore(score));
    r.push(Constraint::MaxScore(score));
    proof {
        assert(r@ =~= seq![Constraint::MinScore(score), Constraint::MaxScore(score)]);
    }
    r
}

/// The value that `thunk` gives when `flag` is set, none otherwise.
pub fn option_of<T, Thunk: FnOnce() -> T>(flag: bool, thunk: Thunk) -> (r: Option<T>)
    requires
        flag ==> thunk.requires(()),
    ensures
        r is Some <==> flag,
        r matches Some(x) ==> thunk.ensures((), x),
{
    if flag {
        Some(thunk())
    } else {
        None
    }
}

/// The items of `part`, if any.
pub open spec fn items_of(part: Option<Seq<Constraint>>) -> Seq<Constraint> {
    match part {
        Some(s) => s,
        None => Seq::empty(),
    }
}

/// The item of `part` as a sequence of at most one.
pub open spec fn item_of(part: Option<Constraint>) -> Seq<Constraint> {
    match part {
        Some(c) => seq![c],
        None => Seq::empty(),
    }
}

fn append_all(dst: &mut Vec<Constraint>, src: Option<Vec<Constraint>>)
    ensures
        final(dst)@ == old(dst)@ + items_of(match src { Some(v) => Some(v@), None => None }),
{
    match src {
        Some(v) => {
            let mut v = v;
            dst.append(&mut v);
        },
        None => {
            proof {
                assert(dst@ =~= old(dst)@ + Seq::<Constraint>::empty());
            }
        },
    }
}

fn append_one(dst: &mut Vec<Constraint>, src: Option<Constraint>)
    ensures
        final(dst)@ == old(dst)@ + item_of(src),
{
    match src {
        Some(c) => {
            dst.push(c);
            proof {
                assert(dst@ =~= old(dst)@ + seq![c]);
            }
        },
        None => {
            proof {
                assert(dst@ =~= old(dst)@ + Seq::<Constraint>::empty());
            }
        },
    }
}

/// The view of an optional list.
pub open spec fn view_of(part: Option<Vec<Constraint>>) -> Option<Seq<Constraint>> {
    match part {
        Some(v) => Some(v@),
        None => None,
    }
}

/// All the given constraints in one list, in parameter order.
pub fn build_all_constraints(
    constraint_include: Option<Vec<Constraint>>,
    constraint_exclude: Option<Vec<Constraint>>,
    constraint_ordered: Option<Constraint>,
    constraint_include_cycle: Option<Constraint>,
    constraint_no_cycle: Option<Constraint>,
    constraint_min_length: Option<Constraint>,
    constraint_max_length: Option<Constraint>,
    constraint_exact_length: Option<Vec<Constraint>>,
    constraint_min_score: Option<Constraint>,
    constraint_max_score: Option<Constraint>,
    constraint_exact_score: Option<Vec<Constraint>>,
) -> (r: Vec<Constraint>)
    ensures
        r@ == items_of(view_of(constraint_include)) + items_of(view_of(constraint_exclude))
            + item_of(constraint_ordered) + item_of(constraint_include_cycle) + item_of(constraint_no_cycle)
            + item_of(constraint_min_length) + item_of(constraint_max_length) + items_of(view_of(constraint_exact_length))
            + item_of(constraint_min_score) + item_of(constraint_max_score) + items_of(view_of(constraint_exact_score)),
{
    let ghost first = view_of(constraint_include);
    let mut constraints: Vec<Constraint> = Vec::new();
    append_all(&mut constraints, constraint_include);
    append_all(&mut constraints, constraint_exclude);
    append_one(&mut constraints, constraint_ordered);
    append_one(&mut constraints, constraint_include_cycle);
    append_one(&mut constraints, constraint_no_cycle);
    append_one(&mut constraints, constraint_min_length);
    append_one(&mut constraints, constraint_max_length);
    append_all(&mut constraints, constraint_exact_length);
    append_one(&mut constraints, constraint_min_score);
    append_one(&mut constraints, constraint_max_score);
    append_all(&mut constraints, constraint_exact_score);
    proof {
        assert(Seq::<Constraint>::empty() + items_of(first) =~= items_of(first));
    }
    constraints
}

} // verus!
