//! Cycles: simple closed walks, compared up to rotation.
use vstd::prelude::*;
use itertools::Itertools;
use crate::graph::{Edge, VertexId};
use crate::path::Path;
use crate::directed_graph::{DirectedGraph, is_walk, walk_from};
use crate::iter_depth::stacked_prefix;
use crate::search_queue::Stack;

verus! {

/// `s` rotated left by `k` places.
pub open spec fn rotate(s: Seq<VertexId>, k: int) -> Seq<VertexId> {
    Seq::new(s.len(), |i: int| s[(i + k) % (s.len() as int)])
}

/// `s[i]` has the least identifier of `s`.
pub open spec fn is_least(s: Seq<VertexId>, i: int) -> bool {
    0 <= i < s.len() && forall|j: int| 0 <= j < s.len() ==> s[i].0 <= #[trigger] s[j].0
}

/// The position of the least identifier of `s`.
pub open spec fn least_index(s: Seq<VertexId>) -> int {
    choose|i: int| is_least(s, i)
}

/// The rotation of `s` that starts with its least vertex.
pub open spec fn canonical_form(s: Seq<VertexId>) -> Seq<VertexId> {
    rotate(s, least_index(s))
}

proof fn lemma_least_exists(s: Seq<VertexId>)
    requires
        s.len() > 0,
    ensures
        exists|i: int| is_least(s, i),
    decreases s.len(),
{
    if s.len() == 1 {
        assert(is_least(s, 0));
    } else {
        let t = s.drop_last();
        lemma_least_exists(t);
        let i = choose|i: int| is_least(t, i);
        if s[i].0 <= s.last().0 {
            assert forall|j: int| 0 <= j < s.len() implies s[i].0 <= #[trigger] s[j].0 by {
                if j < t.len() {
                    assert(t[j] == s[j]);
                }
            }
            assert(is_least(s, i));
        } else {
            assert forall|j: int| 0 <= j < s.len() implies s[s.len() - 1].0 <= #[trigger] s[j].0 by {
                if j < t.len() {
                    assert(t[j] == s[j]);
                }
            }
            assert(is_least(s, s.len() - 1));
        }
    }
}

proof fn lemma_least_unique(s: Seq<VertexId>, i: int, j: int)
    requires
        s.no_duplicates(),
        is_least(s, i),
        is_least(s, j),
    ensures
        i == j,
{
    assert(s[i].0 <= s[j].0 && s[j].0 <= s[i].0);
    assert(s[i] == s[j]);
}

proof fn lemma_mod_small(x: int, n: int)
    requires
        n > 0,
        0 <= x < 2 * n,
    ensures
        x % n == if x < n { x } else { x - n },
{
    if x < n {
        vstd::arithmetic::div_mod::lemma_small_mod(x as nat, n as nat);
    } else {
        vstd::arithmetic::div_mod::lemma_small_mod((x - n) as nat, n as nat);
        vstd::arithmetic::div_mod::lemma_mod_sub_multiples_vanish(x, n);
    }
}

/// Every rotation of a simple cycle has the same canonical form, and the
/// canonical form starts with the least vertex.
pub proof fn law_rotations_share_canonical_form(s: Seq<VertexId>, k: int)
    requires
        s.len() > 0,
        s.no_duplicates(),
        0 <= k < s.len(),
    ensures
        canonical_form(rotate(s, k)) == canonical_form(s),
        is_least(canonical_form(s), 0),
{
    let n = s.len() as int;
    let r = rotate(s, k);
    lemma_least_exists(s);
    let m = least_index(s);
    // `r` is a permutation of `s` without repetitions
    assert forall|a: int, b: int| 0 <= a < n && 0 <= b < n && a != b implies r[a] != r[b] by {
        lemma_mod_small(a + k, n);
        lemma_mod_small(b + k, n);
    }
    assert(r.no_duplicates());
    let mr = if m >= k { m - k } else { m - k + n };
    lemma_mod_small(mr + k, n);
    assert(r[mr] == s[m]);
    assert forall|j: int| 0 <= j < n implies r[mr].0 <= #[trigger] r[j].0 by {
        lemma_mod_small(j + k, n);
    }
    assert(is_least(r, mr));
    let mr2 = least_index(r);
    lemma_least_unique(r, mr, mr2);
    assert forall|i: int| 0 <= i < n implies #[trigger] canonical_form(r)[i] == canonical_form(s)[i] by {
        lemma_mod_small(i + mr, n);
        lemma_mod_small(i + m, n);
        let x = (i + mr) % n;
        lemma_mod_small(x + k, n);
    }
    assert(canonical_form(r) =~= canonical_form(s));
    let c = canonical_form(s);
    assert forall|j: int| 0 <= j < n implies c[0].0 <= #[trigger] c[j].0 by {
        lemma_mod_small(m, n);
        lemma_mod_small(j + m, n);
    }
}

/// A cycle: a sequence of vertices, each once, whose last vertex leads back
/// to the first.
#[derive(PartialEq, Eq, Hash, Clone, Debug, PartialOrd, Ord)]
pub struct Cycle {
    vertices: Vec<VertexId>,
}

impl View for Cycle {
    type V = Seq<VertexId>;

    closed spec fn view(&self) -> Seq<VertexId> {
        self.vertices@
    }
}

/// Relies on itertools' `unique`, which yields each distinct item once:
/// the count is the number of distinct vertices.
#[verifier::external_body]
fn count_distinct(vertices: &Vec<VertexId>) -> (r: usize)
    ensures
        r == vertices@.to_set().len(),
{
    vertices.iter().unique().count()
}

impl Cycle {
    /// The cycle through `path`'s vertices, if it makes one.
    pub fn from_path(path: &Path) -> (r: Option<Cycle>)
        ensures
            r is Some <==> path@.len() >= 2 && path@.no_duplicates(),
            r matches Some(c) ==> c@ == path@,
    {
        Cycle::from_vertices(&path.vertices)
    }

    /// The cycle through `vertices`; none for fewer than two vertices or for
    /// a repeated vertex.
    pub fn from_vertices(vertices: &Vec<VertexId>) -> (r: Option<Cycle>)
        ensures
            r is Some <==> vertices@.len() >= 2 && vertices@.no_duplicates(),
            r matches Some(c) ==> c@ == vertices@,
    {
        if vertices.len() < 2 {
            return None;
        }
        let distinct = count_distinct(vertices);
        proof {
            if vertices@.no_duplicates() {
                vertices@.unique_seq_to_set();
            }
            if distinct == vertices@.len() {
                vertices@.lemma_no_dup_set_cardinality();
            }
        }
        if vertices.len() != distinct {
            None
        } else {
            Some(Cycle { vertices: crate::path::copy_vertices(vertices) })
        }
    }

    /// The vertices as a path, from the first to the last (the way back to
    /// the first is not repeated).
    pub fn as_path(&self) -> (r: Path)
        ensures
            r@ == self@,
    {
        Path::from(&self.vertices)
    }

    /// Number of vertices.
    pub fn len(&self) -> (r: usize)
        ensures
            r == self@.len(),
    {
        self.vertices.len()
    }

    /// The vertices, in order.
    pub fn iter(&self) -> (r: Vec<VertexId>)
        ensures
            r@ == self@,
    {
        crate::path::copy_vertices(&self.vertices)
    }

    /// Position of the least vertex.
    fn least_position(&self) -> (r: usize)
        requires
            self@.len() > 0,
        ensures
            is_least(self@, r as int),
    {
        let mut best: usize = 0;
        let mut i: usize = 1;
        while i < self.vertices.len()
            invariant
                0 <= best < self@.len(),
                1 <= i <= self@.len(),
                forall|j: int| 0 <= j < i ==> self@[best as int].0 <= #[trigger] self@[j].0,
            decreases self@.len() - i,
        {
            if self.vertices[i].0 < self.vertices[best].0 {
                best = i;
            }
            i += 1;
        }
        best
    }

    /// The same cycle rotated to start with its least vertex.
    pub fn canonical(&self) -> (r: Cycle)
        requires
            self@.len() > 0,
        ensures
            exists|m: int| #[trigger] is_least(self@, m) && r@ == rotate(self@, m),
            self@.no_duplicates() ==> r@ == canonical_form(self@),
    {
        let n = self.vertices.len();
        let m = self.least_position();
        proof {
            lemma_least_exists(self@);
            if self@.no_duplicates() {
                lemma_least_unique(self@, m as int, least_index(self@));
            }
        }
        let mut v: Vec<VertexId> = Vec::new();
        let mut i: usize = 0;
        while i < n
            invariant
                n == self@.len(),
                m < n,
                i <= n,
                v@.len() == i,
                forall|j: int| 0 <= j < i ==> #[trigger] v@[j] == self@[(j + m) % (n as int)],
            decreases n - i,
        {
            proof {
                lemma_mod_small(i + m, n as int);
            }
            if i < n - m {
                v.push(self.vertices[i + m]);
            } else {
                v.push(self.vertices[i - (n - m)]);
            }
            i += 1;
        }
        proof {
            assert(v@ =~= rotate(self@, m as int));
        }
        Cycle { vertices: v }
    }

    /// Whether the least vertex comes first.
    pub fn is_canonical(&self) -> (r: bool)
        requires
            self@.len() > 0,
        ensures
            r == is_least(self@, 0),
    {
        let m = self.least_position();
        self.vertices[m].0 == self.vertices[0].0
    }
}

/// The cycle closed by the last vertex of `path`: the vertices from the
/// latest earlier occurrence of the last vertex up to (not including) the
/// last one, in canonical form. None if the last vertex does not occur
/// earlier, or the path is empty.
pub fn extract_canonical_cycle_from_last(path: &Path) -> (r: Option<Cycle>)
    ensures
        r is Some <==> path@.len() > 0 && path@.drop_last().contains(path@.last()),
        r matches Some(c) ==> exists|start: int| {
            &&& 0 <= start < path@.len() - 1
            &&& path@[start] == path@.last()
            &&& forall|j: int| start < j < path@.len() - 1 ==> path@[j] != path@.last()
            &&& (path@.subrange(start, path@.len() - 1).no_duplicates() ==>
                    c@ == canonical_form(path@.subrange(start, path@.len() - 1)))
            &&& exists|m: int| #[trigger] is_least(path@.subrange(start, path@.len() - 1), m)
                    && c@ == rotate(path@.subrange(start, path@.len() - 1), m)
        },
{
    let n = path.vertices.len();
    if n == 0 {
        return None;
    }
    let last = path.vertices[n - 1];
    let mut k: usize = n - 1;
    while k > 0 && path.vertices[k - 1] != last
        invariant
            n == path@.len(),
            k <= n - 1,
            last == path@.last(),
            forall|j: int| k <= j < n - 1 ==> path@[j] != last,
        decreases k,
    {
        k -= 1;
    }
    if k == 0 {
        proof {
            if path@.drop_last().contains(path@.last()) {
                let j = choose|j: int| 0 <= j < path@.drop_last().len() && path@.drop_last()[j] == path@.last();
                assert(path@[j] == last);
            }
        }
        return None;
    }
    let start = k - 1;
    let mut v: Vec<VertexId> = Vec::new();
    let mut i: usize = start;
    while i < n - 1
        invariant
            n == path@.len(),
            start <= i <= n - 1,
            v@ == path@.subrange(start as int, i as int),
        decreases n - 1 - i,
    {
        v.push(path.vertices[i]);
        i += 1;
        proof {
            assert(v@ =~= path@.subrange(start as int, i as int));
        }
    }
    let cycle = Cycle { vertices: v };
    proof {
        assert(path@.drop_last()[start as int] == path@.last());
    }
    Some(cycle.canonical())
}

/// `b` to the power `e`.
pub open spec fn power(b: nat, e: nat) -> nat
    decreases e,
{
    if e == 0 {
        1
    } else {
        b * power(b, (e - 1) as nat)
    }
}

pub proof fn lemma_power_positive(b: nat, e: nat)
    requires
        b > 0,
    ensures
        power(b, e) > 0,
    decreases e,
{
    if e > 0 {
        lemma_power_positive(b, (e - 1) as nat);
        assert(b * power(b, (e - 1) as nat) > 0) by (nonlinear_arith)
            requires b > 0, power(b, (e - 1) as nat) > 0;
    }
}

/// Work left for the paths on a depth-first stack, where no path grows
/// beyond `top + 1` vertices and each vertex has fewer than `b`
/// successors.
pub open spec fn potential(s: Seq<Path>, b: nat, top: nat) -> nat
    decreases s.len(),
{
    if s.len() == 0 {
        0
    } else {
        potential(s.drop_last(), b, top) + power(b, (top + 1 - s.last()@.len()) as nat)
    }
}

pub proof fn lemma_potential_push(s: Seq<Path>, x: Path, b: nat, top: nat)
    ensures
        potential(s.push(x), b, top) == potential(s, b, top) + power(b, (top + 1 - x@.len()) as nat),
{
    assert(s.push(x).drop_last() =~= s);
}

/// Whether two cycles list the same vertices in the same order.
fn same_cycle(a: &Cycle, b: &Cycle) -> (r: bool)
    ensures
        r == (a@ == b@),
{
    if a.vertices.len() != b.vertices.len() {
        return false;
    }
    let mut i: usize = 0;
    while i < a.vertices.len()
        invariant
            a@.len() == b@.len(),
            i <= a@.len(),
            forall|j: int| 0 <= j < i ==> a@[j] == b@[j],
        decreases a@.len() - i,
    {
        if a.vertices[i] != b.vertices[i] {
            return false;
        }
        i += 1;
    }
    proof {
        assert(a@ =~= b@);
    }
    true
}

/// `c` is a cycle of `g`: each vertex has an edge to the next one, and the
/// last to the first.
pub open spec fn is_cycle_of(g: DirectedGraph, c: Seq<VertexId>) -> bool {
    &&& c.len() > 0
    &&& forall|j: int| 0 <= j < c.len() ==> #[trigger] g.edge_set().contains(Edge(c[j], c[(j + 1) % (c.len() as int)]))
}

/// A rotation of a sequence without repetition has none.
pub proof fn lemma_rotate_no_dup(s: Seq<VertexId>, k: int)
    requires
        s.no_duplicates(),
        0 <= k < s.len(),
    ensures
        rotate(s, k).no_duplicates(),
{
    let n = s.len() as int;
    let r = rotate(s, k);
    assert forall|a: int, b: int| 0 <= a < n && 0 <= b < n && a != b implies r[a] != r[b] by {
        lemma_mod_small(a + k, n);
        lemma_mod_small(b + k, n);
    }
}

/// A rotation of a cycle of `g` is a cycle of `g`.
pub proof fn lemma_rotated_cycle(g: DirectedGraph, s: Seq<VertexId>, m: int)
    requires
        is_cycle_of(g, s),
        0 <= m < s.len(),
    ensures
        is_cycle_of(g, rotate(s, m)),
{
    let n = s.len() as int;
    let r = rotate(s, m);
    assert forall|j: int| 0 <= j < n implies #[trigger] g.edge_set().contains(Edge(r[j], r[(j + 1) % n])) by {
        lemma_mod_small(j + m, n);
        lemma_mod_small(j + 1, n);
        let x = (j + m) % n;
        let y = (j + 1) % n;
        lemma_mod_small(x + 1, n);
        lemma_mod_small(y + m, n);
        assert(g.edge_set().contains(Edge(s[x], s[(x + 1) % n])));
        assert((x + 1) % n == (y + m) % n);
    }
}

/// The part of a walk between two occurrences of a vertex is a cycle.
pub proof fn lemma_closed_walk_part(g: DirectedGraph, p: Seq<VertexId>, start: int)
    requires
        is_walk(g, p),
        0 <= start < p.len() - 1,
        p[start] == p.last(),
    ensures
        is_cycle_of(g, p.subrange(start, p.len() - 1)),
{
    let c = p.subrange(start, p.len() - 1);
    let n = c.len() as int;
    assert forall|j: int| 0 <= j < n implies #[trigger] g.edge_set().contains(Edge(c[j], c[(j + 1) % n])) by {
        lemma_mod_small(j + 1, n);
        let i = start + j;
        assert(g.edge_set().contains(Edge(p[i], p[i + 1])));
        if j + 1 < n {
            assert(c[(j + 1) % n] == p[i + 1]);
        } else {
            assert(c[(j + 1) % n] == c[0]);
            assert(p[i + 1] == p.last());
        }
    }
}

/// `p` is a walk of `g` from `s` without repeated vertex, followed by one
/// more edge back to one of its vertices.
pub open spec fn closes_from(g: DirectedGraph, s: u64, p: Seq<VertexId>) -> bool {
    &&& p.len() >= 2
    &&& walk_from(g, s, p.drop_last())
    &&& p.drop_last().no_duplicates()
    &&& p.drop_last().contains(p.last())
    &&& g.edge_set().contains(Edge(p[p.len() - 2], p.last()))
}

/// The cycle that such a walk closes, in canonical form.
pub open spec fn closed_cycle(p: Seq<VertexId>) -> Seq<VertexId> {
    let i = choose|i: int| 0 <= i < p.len() - 1 && p[i] == p.last();
    canonical_form(p.subrange(i, p.len() - 1))
}

/// The vertices a cycle search starts from: those without inbound edges,
/// or, when there is none, the first listed vertex.
pub open spec fn start_vertices(g: DirectedGraph) -> Set<u64> {
    if exists|v: u64| g.vertex_set().contains(v) && #[trigger] g.in_seq(v).len() == 0 {
        Set::new(|v: u64| g.vertex_set().contains(v) && g.in_seq(v).len() == 0)
    } else if g.vertex_list().len() > 0 {
        set![g.vertex_list()[0].0]
    } else {
        Set::empty()
    }
}

/// A prefix `q` of a closing walk `p`: `q` is `p` itself, or `q` repeats no
/// vertex and an edge leads from its last vertex to the next one of `p`.
proof fn lemma_closing_prefix(g: DirectedGraph, s: u64, p: Seq<VertexId>, q: Seq<VertexId>)
    requires
        closes_from(g, s, p),
        1 <= q.len() <= p.len(),
        q == p.subrange(0, q.len() as int),
    ensures
        q.len() == p.len() ==> q == p,
        q.len() < p.len() ==> !q.drop_last().contains(q.last()),
        q.len() < p.len() ==> g.edge_set().contains(Edge(q.last(), p[q.len() as int])),
{
    let w = p.drop_last();
    let m = q.len() as int;
    if m == p.len() {
        assert(q =~= p);
    } else {
        if q.drop_last().contains(q.last()) {
            let i = choose|i: int| 0 <= i < q.drop_last().len() && q.drop_last()[i] == q.last();
            assert(w[i] == w[m - 1]);
        }
        if m < p.len() - 1 {
            let x = m - 1;
            assert(g.edge_set().contains(Edge(w[x], w[x + 1])));
        } else {
            assert(p[p.len() - 2] == q.last());
        }
    }
}

/// The canonical cycle closed by `p` is the one found from any position of
/// its last vertex before the end.
proof fn lemma_closed_cycle_at(g: DirectedGraph, s: u64, p: Seq<VertexId>, ex: int)
    requires
        closes_from(g, s, p),
        0 <= ex < p.len() - 1,
        p[ex] == p.last(),
    ensures
        closed_cycle(p) == canonical_form(p.subrange(ex, p.len() - 1)),
        p.subrange(ex, p.len() - 1).no_duplicates(),
{
    let i = choose|i: int| 0 <= i < p.len() - 1 && p[i] == p.last();
    let w = p.drop_last();
    assert(w[i] == w[ex]);
    let sub = p.subrange(ex, p.len() - 1);
    assert forall|a: int, b: int| 0 <= a < sub.len() && 0 <= b < sub.len() && a != b implies sub[a] != sub[b] by {
        assert(sub[a] == w[ex + a] && sub[b] == w[ex + b]);
    }
}

/// Enumerates the distinct cycles reachable from the start vertices, each
/// once, in canonical form. A branch of the depth-first search stops at the
/// first cycle it closes.
pub struct CycleIter<'a> {
    stack: Stack<Path>,
    returned: Vec<Cycle>,
    graph: &'a DirectedGraph,
    bound: Ghost<nat>,
    starts: Ghost<Set<u64>>,
}

impl<'a> CycleIter<'a> {
    /// The vertices the search starts from.
    pub closed spec fn starts_of(&self) -> Set<u64> {
        self.starts@
    }

    pub closed spec fn graph_of(&self) -> DirectedGraph {
        *self.graph
    }

    /// The cycles yielded so far.
    pub closed spec fn yielded(&self) -> Seq<Seq<VertexId>> {
        self.returned@.map_values(|c: Cycle| c@)
    }

    /// Decreases with every cycle yielded.
    pub closed spec fn remaining(&self) -> nat {
        potential(self.stack@, self.bound@ + 1, self.graph.vertex_set().len())
    }

    pub closed spec fn wf(&self) -> bool {
        &&& self.graph.wf()
        &&& forall|v: u64| #[trigger] self.graph.out_seq(v).len() <= self.bound@
        &&& forall|i: int| 0 <= i < self.stack@.len() ==> {
                &&& (#[trigger] self.stack@[i])@.len() > 0
                &&& self.stack@[i]@.drop_last().no_duplicates()
                &&& is_walk(*self.graph, self.stack@[i]@)
                &&& forall|k: int| 0 <= k < self.stack@[i]@.len() ==> self.graph.vertex_set().contains(#[trigger] self.stack@[i]@[k].0)
            }
        &&& forall|s: u64, p: Seq<VertexId>| self.starts@.contains(s) && #[trigger] closes_from(*self.graph, s, p) ==>
                stacked_prefix(self.stack@, p) || self.yielded().contains(closed_cycle(p))
        &&& forall|i: int| 0 <= i < self.stack@.len() ==> self.starts@.contains((#[trigger] self.stack@[i])@[0].0)
    }

    /// The next cycle not yielded before, if any.
    pub fn next(&mut self) -> (r: Option<Cycle>)
        requires
            old(self).wf(),
        ensures
            final(self).wf(),
            final(self).graph_of() == old(self).graph_of(),
            final(self).starts_of() == old(self).starts_of(),
            r is None ==> forall|s: u64, p: Seq<VertexId>| old(self).starts_of().contains(s) && #[trigger] closes_from(old(self).graph_of(), s, p)
                ==> old(self).yielded().contains(closed_cycle(p)),
            r matches Some(c) ==> {
                &&& final(self).remaining() < old(self).remaining()
                &&& !old(self).yielded().contains(c@)
                &&& final(self).yielded() == old(self).yielded().push(c@)
                &&& c@.len() > 0
                &&& is_cycle_of(old(self).graph_of(), c@)
                &&& c@.no_duplicates()
                &&& is_least(c@, 0)
                &&& exists|s: u64, p: Seq<VertexId>| old(self).starts_of().contains(s) && #[trigger] closes_from(old(self).graph_of(), s, p)
                        && closed_cycle(p) == c@
            },
            r is None ==> final(self).remaining() == 0 && final(self).yielded() == old(self).yielded(),
    {
        let ghost b = self.bound@ + 1;
        let ghost top = self.graph.vertex_set().len();
        let ghost start = self.remaining();
        proof {
            self.graph.lemma_wf_facts();
        }
        while self.stack.len() > 0
            invariant
                self.wf(),
                *self.graph == *old(self).graph,
                self.bound == old(self).bound,
                self.starts == old(self).starts,
                self.returned == old(self).returned,
                b == self.bound@ + 1,
                top == self.graph.vertex_set().len(),
                self.graph.vertex_set().finite(),
                self.remaining() <= start,
                start == old(self).remaining(),
            decreases self.remaining(),
        {
            let ghost s0 = self.stack@;
            let path = match self.stack.pop() {
                Some(p) => p,
                None => Path::empty(),
            };
            let ghost rest = self.stack@;
            proof {
                assert(s0.last() == path);
                assert(rest == s0.drop_last());
                assert(path@.len() > 0);
                crate::directed_graph::lemma_nodup_subset_len(path@.drop_last(), self.graph.vertex_set());
                lemma_power_positive(b, (top + 1 - path@.len()) as nat);
                assert forall|i: int| 0 <= i < rest.len() implies (#[trigger] rest[i]) == s0[i] by {}
            }
            match extract_canonical_cycle_from_last(&path) {
                Some(cycle) => {
                    proof {
                        assert forall|st: u64, p: Seq<VertexId>| self.starts@.contains(st) && #[trigger] closes_from(*self.graph, st, p) implies
                            stacked_prefix(self.stack@, p) || self.yielded().contains(closed_cycle(p)) || closed_cycle(p) == cycle@ by {
                            if stacked_prefix(s0, p) && !self.yielded().contains(closed_cycle(p)) {
                                let i = choose|i: int| 0 <= i < s0.len() && 1 <= s0[i]@.len() <= p.len()
                                    && #[trigger] s0[i]@ == p.subrange(0, s0[i]@.len() as int);
                                if i < s0.len() - 1 {
                                    assert(self.stack@[i] == s0[i]);
                                } else {
                                    lemma_closing_prefix(*self.graph, st, p, path@);
                                    let ex = choose|start: int| {
                                        &&& 0 <= start < path@.len() - 1
                                        &&& path@[start] == path@.last()
                                        &&& forall|j: int| start < j < path@.len() - 1 ==> path@[j] != path@.last()
                                        &&& (path@.subrange(start, path@.len() - 1).no_duplicates() ==>
                                                cycle@ == canonical_form(path@.subrange(start, path@.len() - 1)))
                                        &&& exists|m: int| #[trigger] is_least(path@.subrange(start, path@.len() - 1), m)
                                                && cycle@ == rotate(path@.subrange(start, path@.len() - 1), m)
                                    };
                                    if path@.len() < p.len() {
                                        assert(path@.drop_last()[ex] == path@.last());
                                    }
                                    lemma_closed_cycle_at(*self.graph, st, p, ex);
                                }
                            }
                        }
                    }
                    let mut seen = false;
                    let mut k: usize = 0;
                    while k < self.returned.len()
                        invariant
                            k <= self.returned@.len(),
                            seen ==> exists|j: int| 0 <= j < self.returned@.len() && self.returned@[j]@ == cycle@,
                            !seen ==> forall|j: int| 0 <= j < k ==> self.returned@[j]@ != cycle@,
                        decreases self.returned@.len() - k,
                    {
                        if same_cycle(&self.returned[k], &cycle) {
                            seen = true;
                        }
                        k += 1;
                    }
                    if !seen {
                        let ghost y0 = self.yielded();
                        let copy = Cycle { vertices: cycle.iter() };
                        self.returned.push(copy);
                        proof {
                            assert(self.yielded() =~= y0.push(cycle@));
                            assert(!y0.contains(cycle@)) by {
                                if y0.contains(cycle@) {
                                    let j = choose|j: int| 0 <= j < y0.len() && y0[j] == cycle@;
                                    assert(old(self).returned@[j]@ == cycle@);
                                }
                            }
                            let ex = choose|start: int| {
                                &&& 0 <= start < path@.len() - 1
                                &&& path@[start] == path@.last()
                                &&& forall|j: int| start < j < path@.len() - 1 ==> path@[j] != path@.last()
                                &&& (path@.subrange(start, path@.len() - 1).no_duplicates() ==>
                                        cycle@ == canonical_form(path@.subrange(start, path@.len() - 1)))
                                &&& exists|m: int| #[trigger] is_least(path@.subrange(start, path@.len() - 1), m)
                                        && cycle@ == rotate(path@.subrange(start, path@.len() - 1), m)
                            };
                            let sub = path@.subrange(ex, path@.len() - 1);
                            lemma_closed_walk_part(*self.graph, path@, ex);
                            let m = choose|m: int| #[trigger] is_least(sub, m) && cycle@ == rotate(sub, m);
                            lemma_rotated_cycle(*self.graph, sub, m);
                            assert(cycle@.len() == path@.len() - 1 - ex);
                            // the part of the path is simple, so the cycle is its canonical form
                            assert forall|a: int, b: int| 0 <= a < sub.len() && 0 <= b < sub.len() && a != b implies sub[a] != sub[b] by {
                                assert(sub[a] == path@.drop_last()[ex + a] && sub[b] == path@.drop_last()[ex + b]);
                            }
                            assert(sub.no_duplicates());
                            law_rotations_share_canonical_form(sub, 0);
                            lemma_rotate_no_dup(sub, m);
                            assert forall|st: u64, p: Seq<VertexId>| self.starts@.contains(st) && #[trigger] closes_from(*self.graph, st, p) implies
                                stacked_prefix(self.stack@, p) || self.yielded().contains(closed_cycle(p)) by {
                                if y0.contains(closed_cycle(p)) {
                                    let j = choose|j: int| 0 <= j < y0.len() && y0[j] == closed_cycle(p);
                                    assert(self.yielded()[j] == y0[j]);
                                }
                                if closed_cycle(p) == cycle@ {
                                    assert(self.yielded()[y0.len() as int] == cycle@);
                                }
                            }
                            // the popped path closes the cycle from its first vertex
                            let pv = path@;
                            let st = pv[0].0;
                            assert(self.starts@.contains(st)) by {
                                assert(s0[s0.len() - 1] == path);
                            }
                            let d = pv.drop_last();
                            assert forall|x: int| 0 <= x && x + 1 < d.len() implies
                                #[trigger] self.graph.edge_set().contains(Edge(d[x], d[x + 1])) by {
                                assert(d[x] == pv[x] && d[x + 1] == pv[x + 1]);
                            }
                            let y = pv.len() - 2;
                            assert(self.graph.edge_set().contains(Edge(pv[y], pv[y + 1])));
                            assert(closes_from(*self.graph, st, pv));
                            let ci = choose|i: int| 0 <= i < pv.len() - 1 && pv[i] == pv.last();
                            assert(ci == ex) by {
                                if ci != ex {
                                    assert(d[ci] == d[ex]);
                                }
                            }
                            assert(closed_cycle(pv) == cycle@);
                        }
                        return Some(cycle);
                    }
                    proof {
                        assert forall|st: u64, p: Seq<VertexId>| self.starts@.contains(st) && #[trigger] closes_from(*self.graph, st, p) implies
                            stacked_prefix(self.stack@, p) || self.yielded().contains(closed_cycle(p)) by {
                            if closed_cycle(p) == cycle@ {
                                let j = choose|j: int| 0 <= j < self.returned@.len() && self.returned@[j]@ == cycle@;
                                assert(self.yielded()[j] == cycle@);
                            }
                        }
                    }
                },
                None => {
                    let last = match path.last() {
                        Some(v) => *v,
                        None => VertexId(0),
                    };
                    proof {
                        // the popped path has no repeated vertex
                        crate::directed_graph::lemma_drop_last(path@);
                        crate::directed_graph::lemma_nodup_subset_len(path@, self.graph.vertex_set());
                        assert(path@.len() <= top);
                        lemma_power_positive(b, (top - path@.len()) as nat);
                        assert(power(b, (top + 1 - path@.len()) as nat) == b * power(b, (top - path@.len()) as nat));
                    }
                    let out = self.graph.outbound_edges(last);
                    let ghost w = power(b, (top - path@.len()) as nat);
                    proof {
                        assert forall|st: u64, p: Seq<VertexId>| self.starts@.contains(st) && #[trigger] closes_from(*self.graph, st, p) implies
                            stacked_prefix(self.stack@, p) || self.yielded().contains(closed_cycle(p))
                            || (p.len() > path@.len() && p.subrange(0, path@.len() as int) == path@
                                && forall|m: int| 0 <= m < 0 ==> (#[trigger] out@[m]).1 != p[path@.len() as int]) by {
                            if stacked_prefix(s0, p) && !self.yielded().contains(closed_cycle(p)) {
                                let i = choose|i: int| 0 <= i < s0.len() && 1 <= s0[i]@.len() <= p.len()
                                    && #[trigger] s0[i]@ == p.subrange(0, s0[i]@.len() as int);
                                if i < s0.len() - 1 {
                                    assert(self.stack@[i] == s0[i]);
                                } else {
                                    lemma_closing_prefix(*self.graph, st, p, path@);
                                }
                            }
                        }
                    }
                    let mut j: usize = 0;
                    while j < out.len()
                        invariant
                            self.graph.wf(),
                            *self.graph == *old(self).graph,
                            self.bound == old(self).bound,
                            self.returned == old(self).returned,
                            b == self.bound@ + 1,
                            top == self.graph.vertex_set().len(),
                            self.graph.vertex_set().finite(),
                            forall|v: u64| #[trigger] self.graph.out_seq(v).len() <= self.bound@,
                            j <= out@.len(),
                            out@ == self.graph.out_seq(last.0),
                            forall|e: Edge| #[trigger] out@.contains(e) <==> (self.graph.edge_set().contains(e) && e.src() == last.0),
                            path@.len() > 0,
                            path@.len() <= top,
                            path@.no_duplicates(),
                            last == path@.last(),
                            forall|k: int| 0 <= k < path@.len() ==> self.graph.vertex_set().contains(#[trigger] path@[k].0),
                            w == power(b, (top - path@.len()) as nat),
                            self.stack@.len() >= rest.len(),
                            forall|i: int| 0 <= i < rest.len() ==> #[trigger] self.stack@[i] == rest[i],
                            forall|i: int| 0 <= i < self.stack@.len() ==> {
                                &&& (#[trigger] self.stack@[i])@.len() > 0
                                &&& self.stack@[i]@.drop_last().no_duplicates()
                                &&& is_walk(*self.graph, self.stack@[i]@)
                                &&& forall|k: int| 0 <= k < self.stack@[i]@.len() ==> self.graph.vertex_set().contains(#[trigger] self.stack@[i]@[k].0)
                            },
                            is_walk(*self.graph, path@),
                            self.remaining() <= potential(rest, b, top) + j * w,
                            self.starts == old(self).starts,
                            self.starts@.contains(path@[0].0),
                            forall|i: int| 0 <= i < self.stack@.len() ==> self.starts@.contains((#[trigger] self.stack@[i])@[0].0),
                            forall|st: u64, p: Seq<VertexId>| self.starts@.contains(st) && #[trigger] closes_from(*self.graph, st, p) ==>
                                stacked_prefix(self.stack@, p) || self.yielded().contains(closed_cycle(p))
                                || (p.len() > path@.len() && p.subrange(0, path@.len() as int) == path@
                                    && forall|m: int| 0 <= m < j ==> (#[trigger] out@[m]).1 != p[path@.len() as int]),
                        decreases out@.len() - j,
                    {
                        let v = out[j].1;
                        let ext = path.append(v);
                        let ghost sb = self.stack@;
                        proof {
                            assert(out@.contains(out@[j as int]));
                            self.graph.lemma_wf_facts();
                            assert(ext@.drop_last() =~= path@);
                            assert forall|k: int| 0 <= k < ext@.len() implies self.graph.vertex_set().contains(#[trigger] ext@[k].0) by {
                                if k < path@.len() {
                                    assert(ext@[k] == path@[k]);
                                }
                            }
                            assert(out@[j as int] == Edge(last, v));
                            assert forall|x: int| 0 <= x && x + 1 < ext@.len() implies
                                #[trigger] self.graph.edge_set().contains(Edge(ext@[x], ext@[x + 1])) by {
                                if x + 1 < path@.len() {
                                    assert(ext@[x] == path@[x] && ext@[x + 1] == path@[x + 1]);
                                } else {
                                    assert(ext@[x] == last && ext@[x + 1] == v);
                                }
                            }
                            lemma_potential_push(sb, ext, b, top);
                            assert((top + 1 - ext@.len()) as nat == (top - path@.len()) as nat);
                            assert(j * w + w == (j + 1) * w) by (nonlinear_arith);
                        }
                        self.stack.push(ext);
                        proof {
                            assert forall|i: int| 0 <= i < rest.len() implies #[trigger] self.stack@[i] == rest[i] by {
                                assert(self.stack@[i] == sb[i]);
                            }
                            assert forall|st: u64, p: Seq<VertexId>| self.starts@.contains(st) && #[trigger] closes_from(*self.graph, st, p) implies
                                stacked_prefix(self.stack@, p) || self.yielded().contains(closed_cycle(p))
                                || (p.len() > path@.len() && p.subrange(0, path@.len() as int) == path@
                                    && forall|m: int| 0 <= m < j + 1 ==> (#[trigger] out@[m]).1 != p[path@.len() as int]) by {
                                if stacked_prefix(sb, p) {
                                    let i = choose|i: int| 0 <= i < sb.len() && 1 <= sb[i]@.len() <= p.len()
                                        && #[trigger] sb[i]@ == p.subrange(0, sb[i]@.len() as int);
                                    assert(self.stack@[i] == sb[i]);
                                } else if !self.yielded().contains(closed_cycle(p)) && p.len() > path@.len()
                                    && p.subrange(0, path@.len() as int) == path@ && p[path@.len() as int] == v {
                                    assert(self.stack@[sb.len() as int]@ =~= p.subrange(0, path@.len() as int + 1));
                                }
                            }
                        }
                        j += 1;
                    }
                    proof {
                        assert(out@.len() <= self.bound@);
                        assert(j * w <= self.bound@ * w) by (nonlinear_arith)
                            requires j <= self.bound@;
                        assert(self.bound@ * w < b * w) by (nonlinear_arith)
                            requires b == self.bound@ + 1, w > 0;
                        assert forall|i: int| 0 <= i < rest.len() implies (#[trigger] self.stack@[i]) == rest[i] by {}
                        assert forall|st: u64, p: Seq<VertexId>| self.starts@.contains(st) && #[trigger] closes_from(*self.graph, st, p) implies
                            stacked_prefix(self.stack@, p) || self.yielded().contains(closed_cycle(p)) by {
                            if !stacked_prefix(self.stack@, p) && !self.yielded().contains(closed_cycle(p)) {
                                lemma_closing_prefix(*self.graph, st, p, path@);
                                let n = path@.len() as int;
                                assert(out@.contains(Edge(last, p[n])));
                                let m = choose|m: int| 0 <= m < out@.len() && out@[m] == Edge(last, p[n]);
                                assert(out@[m].1 == p[n]);
                            }
                        }
                    }
                },
            }
        }
        proof {
            assert forall|st: u64, p: Seq<VertexId>| old(self).starts_of().contains(st) && #[trigger] closes_from(old(self).graph_of(), st, p)
                implies old(self).yielded().contains(closed_cycle(p)) by {
                assert(self.yielded() =~= old(self).yielded());
                assert(closes_from(*self.graph, st, p));
                assert(!stacked_prefix(self.stack@, p));
            }
        }
        None
    }
}

/// The vertices without inbound edges, in vertex-list order; when there is
/// none, the first listed vertex (if any).
fn find_starting_vertices(graph: &DirectedGraph) -> (r: Vec<VertexId>)
    requires
        graph.wf(),
    ensures
        forall|i: int| 0 <= i < r@.len() ==> graph.vertex_set().contains(#[trigger] r@[i].0),
        forall|x: u64| #[trigger] has_id(r@, x) <==> start_vertices(*graph).contains(x),
{
    proof {
        graph.lemma_wf_facts();
    }
    let vertices = graph.vertices();
    let mut res: Vec<VertexId> = Vec::new();
    let mut k: usize = 0;
    while k < vertices.len()
        invariant
            graph.wf(),
            k <= vertices@.len(),
            vertices@ == graph.vertex_list(),
            forall|x: u64| #[trigger] vertices@.contains(VertexId(x)) <==> graph.vertex_set().contains(x),
            forall|i: int| 0 <= i < res@.len() ==> graph.vertex_set().contains(#[trigger] res@[i].0),
            forall|x: u64| #[trigger] has_id(res@, x) <==> (has_id(vertices@.subrange(0, k as int), x) && graph.in_seq(x).len() == 0),
        decreases vertices@.len() - k,
    {
        let v = vertices[k];
        let ghost r0 = res@;
        proof {
            assert(vertices@.contains(VertexId(v.0)));
            assert(vertices@.subrange(0, k as int + 1) =~= vertices@.subrange(0, k as int).push(v));
            lemma_has_id_push(vertices@.subrange(0, k as int), v);
        }
        if graph.degree_in(v) == 0 {
            res.push(v);
            proof {
                lemma_has_id_push(r0, v);
            }
        }
        k += 1;
    }
    proof {
        assert(vertices@.subrange(0, vertices@.len() as int) =~= vertices@);
        assert forall|x: u64| #[trigger] has_id(vertices@, x) <==> graph.vertex_set().contains(x) by {
            if has_id(vertices@, x) {
                let i = choose|i: int| 0 <= i < vertices@.len() && #[trigger] vertices@[i].0 == x;
                assert(vertices@.contains(vertices@[i]));
                assert(vertices@[i] == VertexId(x));
            }
            if graph.vertex_set().contains(x) {
                assert(vertices@.contains(VertexId(x)));
                let i = choose|i: int| 0 <= i < vertices@.len() && vertices@[i] == VertexId(x);
                assert(vertices@[i].0 == x);
            }
        }
        if exists|v: u64| graph.vertex_set().contains(v) && #[trigger] graph.in_seq(v).len() == 0 {
            let v = choose|v: u64| graph.vertex_set().contains(v) && #[trigger] graph.in_seq(v).len() == 0;
            assert(has_id(res@, v));
        }
    }
    if res.len() == 0 {
        match graph.head_option() {
            Some(h) => {
                res.push(h);
                proof {
                    lemma_has_id_push(Seq::<VertexId>::empty(), h);
                    assert(res@ =~= Seq::<VertexId>::empty().push(h));
                    assert forall|x: u64| #[trigger] has_id(Seq::<VertexId>::empty(), x) implies false by {}
                    assert(start_vertices(*graph) =~= set![h.0]);
                }
            },
            None => {
                proof {
                    assert(start_vertices(*graph) =~= Set::<u64>::empty());
                }
            },
        }
    } else {
        proof {
            let r0v = res@[0].0;
            assert(has_id(res@, r0v));
            assert(start_vertices(*graph) =~= Set::new(|v: u64| graph.vertex_set().contains(v) && graph.in_seq(v).len() == 0));
        }
    }
    res
}

proof fn lemma_has_id_push(s: Seq<VertexId>, v: VertexId)
    ensures
        forall|x: u64| #[trigger] has_id(s.push(v), x) <==> (has_id(s, x) || v.0 == x),
{
    assert forall|x: u64| #[trigger] has_id(s.push(v), x) <==> (has_id(s, x) || v.0 == x) by {
        if has_id(s.push(v), x) {
            let i = choose|i: int| 0 <= i < s.push(v).len() && #[trigger] s.push(v)[i].0 == x;
            if i < s.len() {
                assert(s[i].0 == x);
            }
        }
        if has_id(s, x) {
            let i = choose|i: int| 0 <= i < s.len() && #[trigger] s[i].0 == x;
            assert(s.push(v)[i].0 == x);
        }
        if v.0 == x {
            assert(s.push(v)[s.len() as int].0 == x);
        }
    }
}

/// Some vertex of `s` has the identifier `x`.
pub open spec fn has_id(s: Seq<VertexId>, x: u64) -> bool {
    exists|i: int| 0 <= i < s.len() && #[trigger] s[i].0 == x
}

/// Maximum number of outbound edges of a vertex.
pub(crate) fn max_degree_out(graph: &DirectedGraph) -> (r: Ghost<nat>)
    requires
        graph.wf(),
    ensures
        forall|v: u64| #[trigger] graph.out_seq(v).len() <= r@,
{
    proof {
        graph.lemma_wf_facts();
    }
    let vertices = graph.vertices();
    let mut best: usize = 0;
    let mut k: usize = 0;
    while k < vertices.len()
        invariant
            graph.wf(),
            k <= vertices@.len(),
            forall|x: u64| #[trigger] vertices@.contains(VertexId(x)) <==> graph.vertex_set().contains(x),
            forall|i: int| 0 <= i < k ==> #[trigger] graph.out_seq(vertices@[i].0).len() <= best,
        decreases vertices@.len() - k,
    {
        let d = graph.degree_out(vertices[k]);
        if d > best {
            best = d;
        }
        k += 1;
    }
    proof {
        assert forall|v: u64| #[trigger] graph.out_seq(v).len() <= best by {
            if graph.vertex_set().contains(v) {
                assert(vertices@.contains(VertexId(v)));
                let i = choose|i: int| 0 <= i < vertices@.len() && vertices@[i] == VertexId(v);
                assert(graph.out_seq(vertices@[i].0).len() <= best);
            } else {
                graph.lemma_out_seq(v);
            }
        }
    }
    Ghost(best as nat)
}

/// Enumerates the cycles of `graph` by a depth-first search from every
/// vertex without inbound edges, or from the first listed vertex when
/// there is none. Cycles that no such start reaches are not found.
pub fn cycle_iter(graph: &DirectedGraph) -> (r: CycleIter)
    requires
        graph.wf(),
    ensures
        r.wf(),
        r.graph_of() == *graph,
        r.yielded() == Seq::<Seq<VertexId>>::empty(),
        r.starts_of() == start_vertices(*graph),
{
    let starting = find_starting_vertices(graph);
    let mut iter = empty_cycle_iter(graph);
    let mut k: usize = 0;
    while k < starting.len()
        invariant
            iter.wf(),
            iter.graph_of() == *graph,
            iter.graph == graph,
            iter.yielded() == Seq::<Seq<VertexId>>::empty(),
            k <= starting@.len(),
            forall|i: int| 0 <= i < starting@.len() ==> graph.vertex_set().contains(#[trigger] starting@[i].0),
            iter.stack@.len() == k,
            forall|i: int| 0 <= i < k ==> (#[trigger] iter.stack@[i])@ == seq![starting@[i]],
            forall|x: u64| #[trigger] iter.starts@.contains(x) <==> has_id(starting@.subrange(0, k as int), x),
        decreases starting@.len() - k,
    {
        let mut one: Vec<VertexId> = Vec::new();
        one.push(starting[k]);
        let p = Path::from(&one);
        let ghost sb = iter.stack@;
        let ghost st0 = iter.starts@;
        iter.stack.push(p);
        iter.starts = Ghost(st0.insert(starting@[k as int].0));
        proof {
            assert(p@.drop_last() =~= Seq::<VertexId>::empty());
            assert(p@[0] == starting@[k as int]);
            assert(p@ =~= seq![starting@[k as int]]);
            assert forall|i: int| 0 <= i < iter.stack@.len() implies {
                &&& (#[trigger] iter.stack@[i])@.len() > 0
                &&& iter.stack@[i]@.drop_last().no_duplicates()
                &&& is_walk(*iter.graph, iter.stack@[i]@)
                &&& forall|kk: int| 0 <= kk < iter.stack@[i]@.len() ==> iter.graph.vertex_set().contains(#[trigger] iter.stack@[i]@[kk].0)
            } by {
                if i < sb.len() {
                    assert(iter.stack@[i] == sb[i]);
                }
            }
            assert forall|i: int| 0 <= i < k + 1 implies (#[trigger] iter.stack@[i])@ == seq![starting@[i]] by {
                if i < k {
                    assert(iter.stack@[i] == sb[i]);
                }
            }
            assert(starting@.subrange(0, k as int + 1) =~= starting@.subrange(0, k as int).push(starting@[k as int]));
            lemma_has_id_push(starting@.subrange(0, k as int), starting@[k as int]);
            assert forall|st: u64, q: Seq<VertexId>| iter.starts@.contains(st) && #[trigger] closes_from(*iter.graph, st, q) implies
                stacked_prefix(iter.stack@, q) || iter.yielded().contains(closed_cycle(q)) by {
                let sub = starting@.subrange(0, k as int + 1);
                if st != starting@[k as int].0 {
                    assert(st0.contains(st));
                    assert(has_id(starting@.subrange(0, k as int), st));
                }
                assert(has_id(sub, st));
                let i = choose|i: int| 0 <= i < sub.len() && #[trigger] sub[i].0 == st;
                assert(sub[i] == starting@[i]);
                assert(q.drop_last()[0] == q[0]);
                assert(q[0] == starting@[i]);
                assert(iter.stack@[i]@ == seq![starting@[i]]);
                assert(iter.stack@[i]@ =~= q.subrange(0, 1));
            }
        }
        k += 1;
    }
    proof {
        assert(starting@.subrange(0, starting@.len() as int) =~= starting@);
        assert(iter.starts@ =~= start_vertices(*graph));
    }
    iter
}

fn empty_cycle_iter(graph: &DirectedGraph) -> (r: CycleIter)
    requires
        graph.wf(),
    ensures
        r.wf(),
        r.graph_of() == *graph,
        r.graph == graph,
        r.yielded() == Seq::<Seq<VertexId>>::empty(),
        r.stack@.len() == 0,
        r.starts@ == Set::<u64>::empty(),
{
    let bound = max_degree_out(graph);
    let r = CycleIter { stack: Stack::new(), returned: Vec::new(), graph: graph, bound: bound, starts: Ghost(Set::empty()) };
    proof {
        assert(r.yielded() =~= Seq::<Seq<VertexId>>::empty());
    }
    r
}

} // verus!
