//! Statistics over the cycles that the cycle iterator enumerates.
use vstd::prelude::*;
use crate::directed_graph::DirectedGraph;
use crate::graph::VertexId;
use crate::cycle::{cycle_iter, is_cycle_of, is_least, closes_from, closed_cycle, start_vertices, Cycle};

verus! {

/// `p` is a walk from a start vertex of the cycle search, closing a cycle.
pub open spec fn closable(g: DirectedGraph, p: Seq<VertexId>) -> bool {
    exists|s: u64| start_vertices(g).contains(s) && #[trigger] closes_from(g, s, p)
}

/// `c` is the cycle closed by some walk from a start vertex.
pub open spec fn found(g: DirectedGraph, c: Seq<VertexId>) -> bool {
    exists|s: u64, p: Seq<VertexId>| start_vertices(g).contains(s) && #[trigger] closes_from(g, s, p) && closed_cycle(p) == c
}

/// `cs` lists the cycle `c`.
pub open spec fn lists_cycle(cs: Seq<Cycle>, c: Seq<VertexId>) -> bool {
    exists|i: int| 0 <= i < cs.len() && #[trigger] cs[i]@ == c
}

/// The lengths in `cs` are all at least `n`.
pub open spec fn all_at_least(cs: Seq<Cycle>, n: int) -> bool {
    forall|i: int| 0 <= i < cs.len() ==> (#[trigger] cs[i])@.len() >= n
}

/// The lengths in `cs` are all at most `n`.
pub open spec fn all_at_most(cs: Seq<Cycle>, n: int) -> bool {
    forall|i: int| 0 <= i < cs.len() ==> (#[trigger] cs[i])@.len() <= n
}

/// Up to `n` cycles, in enumeration order, pairwise distinct; fewer only
/// when every cycle that a walk from a start vertex closes is among them.
pub fn take(graph: &DirectedGraph, n: usize) -> (r: Vec<Cycle>)
    requires
        graph.wf(),
    ensures
        r@.len() <= n,
        forall|i: int, j: int| 0 <= i < j < r@.len() ==> r@[i]@ != r@[j]@,
        forall|i: int| 0 <= i < r@.len() ==> is_cycle_of(*graph, (#[trigger] r@[i])@),
        forall|i: int| 0 <= i < r@.len() ==> found(*graph, (#[trigger] r@[i])@),
        r@.len() < n ==> forall|p: Seq<VertexId>| #[trigger] closable(*graph, p) ==> lists_cycle(r@, closed_cycle(p)),
{
    let mut it = cycle_iter(graph);
    let mut r: Vec<Cycle> = Vec::new();
    proof {
        assert(r@.map_values(|c: Cycle| c@) =~= Seq::<Seq<crate::graph::VertexId>>::empty());
    }
    while r.len() < n
        invariant
            it.wf(),
            r@.len() <= n,
            it.yielded() == r@.map_values(|c: Cycle| c@),
            it.yielded().no_duplicates(),
            forall|i: int| 0 <= i < r@.len() ==> is_cycle_of(*graph, (#[trigger] r@[i])@),
            forall|i: int| 0 <= i < r@.len() ==> found(*graph, (#[trigger] r@[i])@),
            it.graph_of() == *graph,
            it.starts_of() == start_vertices(*graph),
        ensures
            r@.len() <= n,
            it.yielded() == r@.map_values(|c: Cycle| c@),
            it.yielded().no_duplicates(),
            forall|i: int| 0 <= i < r@.len() ==> is_cycle_of(*graph, (#[trigger] r@[i])@),
            forall|i: int| 0 <= i < r@.len() ==> found(*graph, (#[trigger] r@[i])@),
            r@.len() < n ==> forall|s: u64, p: Seq<VertexId>| start_vertices(*graph).contains(s) && #[trigger] closes_from(*graph, s, p)
                ==> it.yielded().contains(closed_cycle(p)),
        decreases it.remaining(),
    {
        let ghost y0 = it.yielded();
        match it.next() {
            Some(c) => {
                let ghost r0 = r@;
                r.push(c);
                proof {
                    crate::directed_graph::lemma_push_contains(y0, c@);
                    assert(it.yielded() =~= r@.map_values(|c: Cycle| c@));
                    assert forall|i: int| 0 <= i < r@.len() implies found(*graph, (#[trigger] r@[i])@) by {
                        if i < r0.len() {
                            assert(r@[i] == r0[i]);
                        }
                    }
                }
            },
            None => {
                break;
            },
        }
    }
    proof {
        assert forall|i: int, j: int| 0 <= i < j < r@.len() implies r@[i]@ != r@[j]@ by {
            assert(it.yielded()[i] == r@[i]@);
            assert(it.yielded()[j] == r@[j]@);
        }
        if r@.len() < n {
            assert forall|p: Seq<VertexId>| #[trigger] closable(*graph, p) implies lists_cycle(r@, closed_cycle(p)) by {
                let s = choose|s: u64| start_vertices(*graph).contains(s) && #[trigger] closes_from(*graph, s, p);
                assert(it.yielded().contains(closed_cycle(p)));
                let i = choose|i: int| 0 <= i < it.yielded().len() && it.yielded()[i] == closed_cycle(p);
                assert(r@[i]@ == it.yielded()[i]);
            }
        }
    }
    r
}

/// Every cycle found, in enumeration order, pairwise distinct, each in
/// canonical form: the cycle closed by every walk from a start vertex that
/// comes back onto itself.
pub fn take_all(graph: &DirectedGraph) -> (r: Vec<Cycle>)
    requires
        graph.wf(),
    ensures
        forall|i: int, j: int| 0 <= i < j < r@.len() ==> r@[i]@ != r@[j]@,
        forall|i: int| 0 <= i < r@.len() ==> is_cycle_of(*graph, (#[trigger] r@[i])@),
        forall|i: int| 0 <= i < r@.len() ==> (#[trigger] r@[i])@.no_duplicates() && is_least(r@[i]@, 0),
        forall|i: int| 0 <= i < r@.len() ==> found(*graph, (#[trigger] r@[i])@),
        forall|p: Seq<VertexId>| #[trigger] closable(*graph, p) ==> lists_cycle(r@, closed_cycle(p)),
{
    let mut it = cycle_iter(graph);
    let mut r: Vec<Cycle> = Vec::new();
    proof {
        assert(r@.map_values(|c: Cycle| c@) =~= Seq::<Seq<crate::graph::VertexId>>::empty());
    }
    loop
        invariant
            it.wf(),
            it.yielded() == r@.map_values(|c: Cycle| c@),
            it.yielded().no_duplicates(),
            forall|i: int| 0 <= i < r@.len() ==> is_cycle_of(*graph, (#[trigger] r@[i])@),
            forall|i: int| 0 <= i < r@.len() ==> (#[trigger] r@[i])@.no_duplicates() && is_least(r@[i]@, 0),
            forall|i: int| 0 <= i < r@.len() ==> found(*graph, (#[trigger] r@[i])@),
            it.graph_of() == *graph,
            it.starts_of() == start_vertices(*graph),
        ensures
            it.yielded() == r@.map_values(|c: Cycle| c@),
            forall|i: int| 0 <= i < r@.len() ==> is_cycle_of(*graph, (#[trigger] r@[i])@),
            forall|i: int| 0 <= i < r@.len() ==> found(*graph, (#[trigger] r@[i])@),
            forall|i: int| 0 <= i < r@.len() ==> (#[trigger] r@[i])@.no_duplicates() && is_least(r@[i]@, 0),
            it.yielded().no_duplicates(),
            forall|s: u64, p: Seq<VertexId>| start_vertices(*graph).contains(s) && #[trigger] closes_from(*graph, s, p)
                ==> it.yielded().contains(closed_cycle(p)),
        decreases it.remaining(),
    {
        let ghost y0 = it.yielded();
        match it.next() {
            Some(c) => {
                let ghost r0 = r@;
                r.push(c);
                proof {
                    crate::directed_graph::lemma_push_contains(y0, c@);
                    assert(it.yielded() =~= r@.map_values(|c: Cycle| c@));
                    assert forall|i: int| 0 <= i < r@.len() implies found(*graph, (#[trigger] r@[i])@) by {
                        if i < r0.len() {
                            assert(r@[i] == r0[i]);
                        }
                    }
                }
            },
            None => {
                break;
            },
        }
    }
    proof {
        assert forall|i: int, j: int| 0 <= i < j < r@.len() implies r@[i]@ != r@[j]@ by {
            assert(it.yielded()[i] == r@[i]@);
            assert(it.yielded()[j] == r@[j]@);
        }
        assert forall|p: Seq<VertexId>| #[trigger] closable(*graph, p) implies lists_cycle(r@, closed_cycle(p)) by {
            let s = choose|s: u64| start_vertices(*graph).contains(s) && #[trigger] closes_from(*graph, s, p);
            assert(it.yielded().contains(closed_cycle(p)));
            let i = choose|i: int| 0 <= i < it.yielded().len() && it.yielded()[i] == closed_cycle(p);
            assert(r@[i]@ == it.yielded()[i]);
        }
    }
    r
}

/// The first cycle found, if any; none only when no walk from a start
/// vertex closes a cycle.
pub fn first(graph: &DirectedGraph) -> (r: Option<Cycle>)
    requires
        graph.wf(),
    ensures
        r matches Some(c) ==> is_cycle_of(*graph, c@) && c@.no_duplicates() && is_least(c@, 0) && found(*graph, c@),
        r is None ==> forall|p: Seq<VertexId>| !#[trigger] closable(*graph, p),
{
    let mut it = cycle_iter(graph);
    let r = it.next();
    proof {
        if r is None {
            assert forall|p: Seq<VertexId>| !#[trigger] closable(*graph, p) by {
                if closable(*graph, p) {
                    let s = choose|s: u64| start_vertices(*graph).contains(s) && #[trigger] closes_from(*graph, s, p);
                    assert(Seq::<Seq<VertexId>>::empty().contains(closed_cycle(p)));
                }
            }
        }
    }
    r
}

/// Number of distinct cycles found (each once, in canonical form): at least
/// one as soon as a walk from a start vertex closes a cycle.
pub fn count(graph: &DirectedGraph) -> (r: usize)
    requires
        graph.wf(),
    ensures
        exists|cs: Seq<Cycle>| {
            &&& cs.len() == r
            &&& forall|i: int, j: int| 0 <= i < j < cs.len() ==> cs[i]@ != cs[j]@
            &&& forall|i: int| 0 <= i < cs.len() ==> is_cycle_of(*graph, (#[trigger] cs[i])@)
            &&& forall|i: int| 0 <= i < cs.len() ==> (#[trigger] cs[i])@.no_duplicates() && is_least(cs[i]@, 0)
            &&& forall|i: int| 0 <= i < cs.len() ==> found(*graph, (#[trigger] cs[i])@)
            &&& forall|p: Seq<VertexId>| #[trigger] closable(*graph, p) ==> lists_cycle(cs, closed_cycle(p))
        },
{
    let all = take_all(graph);
    all.len()
}

/// Index of a shortest cycle of `cs` (the first of them).
pub fn shortest_index(cs: &Vec<Cycle>) -> (r: Option<usize>)
    ensures
        r is None <==> cs@.len() == 0,
        r matches Some(i) ==> i < cs@.len() && all_at_least(cs@, cs@[i as int]@.len() as int)
            && forall|j: int| 0 <= j < i ==> (#[trigger] cs@[j])@.len() > cs@[i as int]@.len(),
{
    if cs.len() == 0 {
        return None;
    }
    let mut best: usize = 0;
    let mut k: usize = 1;
    while k < cs.len()
        invariant
            0 <= best < k <= cs@.len(),
            forall|j: int| 0 <= j < k ==> (#[trigger] cs@[j])@.len() >= cs@[best as int]@.len(),
            forall|j: int| 0 <= j < best ==> (#[trigger] cs@[j])@.len() > cs@[best as int]@.len(),
        decreases cs@.len() - k,
    {
        if cs[k].len() < cs[best].len() {
            best = k;
        }
        k += 1;
    }
    Some(best)
}

/// Index of a longest cycle of `cs` (the last of them).
pub fn longest_index(cs: &Vec<Cycle>) -> (r: Option<usize>)
    ensures
        r is None <==> cs@.len() == 0,
        r matches Some(i) ==> i < cs@.len() && all_at_most(cs@, cs@[i as int]@.len() as int)
            && forall|j: int| i < j < cs@.len() ==> (#[trigger] cs@[j])@.len() < cs@[i as int]@.len(),
{
    if cs.len() == 0 {
        return None;
    }
    let mut best: usize = 0;
    let mut k: usize = 1;
    while k < cs.len()
        invariant
            0 <= best < k <= cs@.len(),
            forall|j: int| 0 <= j < k ==> (#[trigger] cs@[j])@.len() <= cs@[best as int]@.len(),
            forall|j: int| best < j < k ==> (#[trigger] cs@[j])@.len() < cs@[best as int]@.len(),
        decreases cs@.len() - k,
    {
        if cs[k].len() >= cs[best].len() {
            best = k;
        }
        k += 1;
    }
    Some(best)
}

/// Length of the shortest cycle found; none exactly when no walk from a
/// start vertex closes a cycle.
pub fn girth(graph: &DirectedGraph) -> (r: Option<usize>)
    requires
        graph.wf(),
    ensures
        r matches Some(n) ==> exists|c: Seq<VertexId>| c.len() == n && is_cycle_of(*graph, c),
        r matches Some(n) ==> exists|p: Seq<VertexId>| #[trigger] closable(*graph, p) && closed_cycle(p).len() == n,
        r matches Some(n) ==> forall|p: Seq<VertexId>| #[trigger] closable(*graph, p) ==> n <= closed_cycle(p).len(),
        r is None ==> forall|p: Seq<VertexId>| !#[trigger] closable(*graph, p),
{
    let cs = take_all(graph);
    match shortest_index(&cs) {
        Some(i) => {
            proof {
                assert(is_cycle_of(*graph, cs@[i as int]@));
                assert(found(*graph, cs@[i as int]@));
                let (s, p) = choose|s: u64, p: Seq<VertexId>| start_vertices(*graph).contains(s) && #[trigger] closes_from(*graph, s, p)
                    && closed_cycle(p) == cs@[i as int]@;
                assert(closable(*graph, p));
                assert forall|p: Seq<VertexId>| #[trigger] closable(*graph, p) implies cs@[i as int]@.len() <= closed_cycle(p).len() by {
                    let j = choose|j: int| 0 <= j < cs@.len() && #[trigger] cs@[j]@ == closed_cycle(p);
                    assert(cs@[j]@.len() >= cs@[i as int]@.len());
                }
            }
            Some(cs[i].len())
        },
        None => {
            proof {
                assert forall|p: Seq<VertexId>| !#[trigger] closable(*graph, p) by {
                    if closable(*graph, p) {
                        assert(lists_cycle(cs@, closed_cycle(p)));
                    }
                }
            }
            None
        },
    }
}

/// A shortest cycle found (the first of them); none exactly when no walk
/// from a start vertex closes a cycle.
pub fn shortest(graph: &DirectedGraph) -> (r: Option<Cycle>)
    requires
        graph.wf(),
    ensures
        r matches Some(c) ==> is_cycle_of(*graph, c@) && c@.no_duplicates() && is_least(c@, 0),
        r matches Some(c) ==> forall|p: Seq<VertexId>| #[trigger] closable(*graph, p) ==> c@.len() <= closed_cycle(p).len(),
        r matches Some(c) ==> found(*graph, c@),
        r is None ==> forall|p: Seq<VertexId>| !#[trigger] closable(*graph, p),
{
    let mut cs = take_all(graph);
    match shortest_index(&cs) {
        Some(i) => {
            proof {
                assert forall|p: Seq<VertexId>| #[trigger] closable(*graph, p) implies cs@[i as int]@.len() <= closed_cycle(p).len() by {
                    let j = choose|j: int| 0 <= j < cs@.len() && #[trigger] cs@[j]@ == closed_cycle(p);
                    assert(cs@[j]@.len() >= cs@[i as int]@.len());
                }
                assert(is_cycle_of(*graph, cs@[i as int]@));
                assert(cs@[i as int]@.no_duplicates() && is_least(cs@[i as int]@, 0));
                assert(found(*graph, cs@[i as int]@));
            }
            Some(cs.swap_remove(i))
        },
        None => {
            proof {
                assert forall|p: Seq<VertexId>| !#[trigger] closable(*graph, p) by {
                    if closable(*graph, p) {
                        assert(lists_cycle(cs@, closed_cycle(p)));
                    }
                }
            }
            None
        },
    }
}

/// A longest cycle found (the last of them); none exactly when no walk from
/// a start vertex closes a cycle.
pub fn longest(graph: &DirectedGraph) -> (r: Option<Cycle>)
    requires
        graph.wf(),
    ensures
        r matches Some(c) ==> is_cycle_of(*graph, c@) && c@.no_duplicates() && is_least(c@, 0),
        r matches Some(c) ==> forall|p: Seq<VertexId>| #[trigger] closable(*graph, p) ==> closed_cycle(p).len() <= c@.len(),
        r matches Some(c) ==> found(*graph, c@),
        r is None ==> forall|p: Seq<VertexId>| !#[trigger] closable(*graph, p),
{
    let mut cs = take_all(graph);
    match longest_index(&cs) {
        Some(i) => {
            proof {
                assert forall|p: Seq<VertexId>| #[trigger] closable(*graph, p) implies closed_cycle(p).len() <= cs@[i as int]@.len() by {
                    let j = choose|j: int| 0 <= j < cs@.len() && #[trigger] cs@[j]@ == closed_cycle(p);
                    assert(cs@[j]@.len() <= cs@[i as int]@.len());
                }
                assert(is_cycle_of(*graph, cs@[i as int]@));
                assert(cs@[i as int]@.no_duplicates() && is_least(cs@[i as int]@, 0));
                assert(found(*graph, cs@[i as int]@));
            }
            Some(cs.swap_remove(i))
        },
        None => {
            proof {
                assert forall|p: Seq<VertexId>| !#[trigger] closable(*graph, p) by {
                    if closable(*graph, p) {
                        assert(lists_cycle(cs@, closed_cycle(p)));
                    }
                }
            }
            None
        },
    }
}

/// The first cycle found that goes through every vertex; none only when no
/// walk from a start vertex closes such a cycle.
pub fn hamiltonian(graph: &DirectedGraph) -> (r: Option<Cycle>)
    requires
        graph.wf(),
    ensures
        r matches Some(c) ==> c@.len() == graph.vertex_set().len() && is_cycle_of(*graph, c@) && c@.no_duplicates(),
        r matches Some(c) ==> found(*graph, c@) && is_least(c@, 0),
        r is None ==> forall|p: Seq<VertexId>| #[trigger] closable(*graph, p) ==> closed_cycle(p).len() != graph.vertex_set().len(),
{
    let n = graph.vertex_count();
    let cs = take_all(graph);
    let mut k: usize = 0;
    while k < cs.len()
        invariant
            n == graph.vertex_set().len(),
            k <= cs@.len(),
            forall|j: int| 0 <= j < k ==> (#[trigger] cs@[j])@.len() != n,
            forall|i: int| 0 <= i < cs@.len() ==> is_cycle_of(*graph, (#[trigger] cs@[i])@),
            forall|i: int| 0 <= i < cs@.len() ==> (#[trigger] cs@[i])@.no_duplicates() && is_least(cs@[i]@, 0),
            forall|i: int| 0 <= i < cs@.len() ==> found(*graph, (#[trigger] cs@[i])@),
            forall|p: Seq<VertexId>| #[trigger] closable(*graph, p) ==> lists_cycle(cs@, closed_cycle(p)),
        decreases cs@.len() - k,
    {
        if cs[k].len() == n {
            let mut cs = cs;
            proof {
                assert(is_cycle_of(*graph, cs@[k as int]@));
                assert(cs@[k as int]@.no_duplicates());
                assert(found(*graph, cs@[k as int]@) && is_least(cs@[k as int]@, 0));
            }
            return Some(cs.swap_remove(k));
        }
        k += 1;
    }
    proof {
        assert forall|p: Seq<VertexId>| #[trigger] closable(*graph, p) implies closed_cycle(p).len() != graph.vertex_set().len() by {
            let j = choose|j: int| 0 <= j < cs@.len() && #[trigger] cs@[j]@ == closed_cycle(p);
            assert(cs@[j]@.len() != n);
        }
    }
    None
}

} // verus!
