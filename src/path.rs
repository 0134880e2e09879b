//! Paths (walks through a graph) and scored paths.
use vstd::prelude::*;
use crate::graph::{Edge, VertexId};

verus! {

/// The consecutive pairs of `s`, as edges.
pub open spec fn edges_of(s: Seq<VertexId>) -> Seq<Edge> {
    if s.len() == 0 {
        seq![]
    } else {
        Seq::new((s.len() - 1) as nat, |i: int| Edge(s[i], s[i + 1]))
    }
}

/// Whether `e` joins two consecutive vertices of `s`.
pub open spec fn walks_edge(s: Seq<VertexId>, e: Edge) -> bool {
    exists|i: int| 0 <= i && i + 1 < s.len() && s[i] == e.0 && #[trigger] s[i + 1] == e.1
}

/// Whether some vertex occurs twice in `s`.
pub open spec fn repeats(s: Seq<VertexId>) -> bool {
    exists|i: int, j: int| 0 <= i < j < s.len() && #[trigger] s[i] == #[trigger] s[j]
}

/// An ordered sequence of vertices, possibly with repetitions.
#[derive(PartialEq, Eq, Clone, Hash, Debug)]
pub struct Path {
    pub vertices: Vec<VertexId>,
}

impl View for Path {
    type V = Seq<VertexId>;

    open spec fn view(&self) -> Seq<VertexId> {
        self.vertices@
    }
}

/// A copy of `v`.
pub fn copy_vertices(v: &Vec<VertexId>) -> (r: Vec<VertexId>)
    ensures
        r@ == v@,
{
    let mut r: Vec<VertexId> = Vec::new();
    let mut i: usize = 0;
    while i < v.len()
        invariant
            i <= v@.len(),
            r@ == v@.subrange(0, i as int),
        decreases v@.len() - i,
    {
        r.push(v[i]);
        i += 1;
        proof {
            assert(r@ =~= v@.subrange(0, i as int));
        }
    }
    proof {
        assert(r@ =~= v@);
    }
    r
}

impl Path {
    /// The path with no vertex.
    pub fn empty() -> (r: Path)
        ensures
            r@ == Seq::<VertexId>::empty(),
    {
        let r = Path { vertices: Vec::new() };
        proof {
            assert(r@ =~= Seq::<VertexId>::empty());
        }
        r
    }

    /// The path through `vertices`, in order.
    pub fn from(vertices: &Vec<VertexId>) -> (r: Path)
        ensures
            r@ == vertices@,
    {
        Path { vertices: copy_vertices(vertices) }
    }

    /// Whether the path has no vertex.
    pub fn is_empty(&self) -> (r: bool)
        ensures
            r == (self@.len() == 0),
    {
        self.vertices.len() == 0
    }

    /// Number of vertices, repetitions included.
    pub fn size(&self) -> (r: usize)
        ensures
            r == self@.len(),
    {
        self.vertices.len()
    }

    /// The first vertex, if any.
    pub fn first(&self) -> (r: Option<&VertexId>)
        ensures
            r is Some <==> self@.len() > 0,
            r matches Some(x) ==> *x == self@[0],
    {
        if self.vertices.len() == 0 {
            None
        } else {
            Some(&self.vertices[0])
        }
    }

    /// The last vertex, if any.
    pub fn last(&self) -> (r: Option<&VertexId>)
        ensures
            r is Some <==> self@.len() > 0,
            r matches Some(x) ==> *x == self@.last(),
    {
        if self.vertices.len() == 0 {
            None
        } else {
            Some(&self.vertices[self.vertices.len() - 1])
        }
    }

    /// Whether `vertex` occurs in the path.
    pub fn contains_vertex(&self, vertex: &VertexId) -> (r: bool)
        ensures
            r == self@.contains(*vertex),
    {
        let mut i: usize = 0;
        while i < self.vertices.len()
            invariant
                i <= self@.len(),
                forall|j: int| 0 <= j < i ==> self@[j] != *vertex,
            decreases self@.len() - i,
        {
            if self.vertices[i] == *vertex {
                return true;
            }
            i += 1;
        }
        false
    }

    /// Whether the path goes along `edge`.
    pub fn contains_edge(&self, edge: &Edge) -> (r: bool)
        ensures
            r == walks_edge(self@, *edge),
    {
        let n = self.vertices.len();
        if n < 2 {
            return false;
        }
        let mut i: usize = 0;
        while i + 1 < n
            invariant
                n == self@.len(),
                i + 1 <= n,
                forall|j: int| 0 <= j < i ==> !(self@[j] == edge.0 && #[trigger] self@[j + 1] == edge.1),
            decreases n - i,
        {
            if self.vertices[i] == edge.0 && self.vertices[i + 1] == edge.1 {
                return true;
            }
            i += 1;
        }
        proof {
            assert forall|j: int| 0 <= j && j + 1 < self@.len() implies !(self@[j] == edge.0 && #[trigger] self@[j + 1] == edge.1) by {}
        }
        false
    }

    /// The vertices, in order.
    pub fn to_vertex_list(&self) -> (r: Vec<VertexId>)
        ensures
            r@ == self@,
    {
        copy_vertices(&self.vertices)
    }

    /// The edges between consecutive vertices, in order.
    pub fn to_edge_list(&self) -> (r: Vec<Edge>)
        ensures
            r@ == edges_of(self@),
    {
        let mut r: Vec<Edge> = Vec::new();
        let n = self.vertices.len();
        if n == 0 {
            return r;
        }
        let mut i: usize = 0;
        while i + 1 < n
            invariant
                n == self@.len(),
                n > 0,
                i + 1 <= n,
                r@.len() == i,
                forall|j: int| 0 <= j < i ==> r@[j] == Edge(self@[j], self@[j + 1]),
            decreases n - i,
        {
            r.push(Edge(self.vertices[i], self.vertices[i + 1]));
            i += 1;
        }
        proof {
            assert(r@ =~= edges_of(self@));
        }
        r
    }

    /// Whether some vertex occurs twice.
    pub fn contains_cycle(&self) -> (r: bool)
        ensures
            r == repeats(self@),
    {
        let n = self.vertices.len();
        let mut j: usize = 0;
        while j < n
            invariant
                n == self@.len(),
                j <= n,
                forall|a: int, b: int| 0 <= a < b < j ==> self@[a] != self@[b],
            decreases n - j,
        {
            let mut i: usize = 0;
            while i < j
                invariant
                    n == self@.len(),
                    i <= j < n,
                    forall|a: int| 0 <= a < i ==> self@[a] != self@[j as int],
                decreases j - i,
            {
                if self.vertices[i] == self.vertices[j] {
                    return true;
                }
                i += 1;
            }
            j += 1;
        }
        false
    }

    /// A new path: this one followed by `vertex`.
    pub fn append(&self, vertex: VertexId) -> (r: Path)
        ensures
            r@ == self@.push(vertex),
    {
        let mut v = copy_vertices(&self.vertices);
        v.push(vertex);
        Path { vertices: v }
    }
}

/// A path with an accumulated score.
#[derive(PartialEq, Eq, Clone, Hash, Debug)]
pub struct ScoredPath {
    pub path: Path,
    pub score: i64,
}

} // verus!
