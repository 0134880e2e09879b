//! The frontiers used by the traversals: a stack, a queue and two
//! priority queues.
use vstd::prelude::*;
use std::collections::VecDeque;
use crate::path::ScoredPath;

verus! {

/// A frontier of pending items.
pub trait SearchQueue<T> {
    fn push(&mut self, elt: T);

    fn pop(&mut self) -> Option<T>;
}

/// Last in, first out.
pub struct Stack<T> {
    stack: Vec<T>,
}

impl<T> View for Stack<T> {
    type V = Seq<T>;

    /// The items, oldest first.
    closed spec fn view(&self) -> Seq<T> {
        self.stack@
    }
}

impl<T> Stack<T> {
    pub fn new() -> (r: Stack<T>)
        ensures
            r@ == Seq::<T>::empty(),
    {
        Stack { stack: Vec::new() }
    }

    pub fn len(&self) -> (r: usize)
        ensures
            r == self@.len(),
    {
        self.stack.len()
    }

    pub fn is_empty(&self) -> (r: bool)
        ensures
            r == (self@.len() == 0),
    {
        self.stack.len() == 0
    }

    pub fn push(&mut self, elt: T)
        ensures
            final(self)@ == old(self)@.push(elt),
    {
        self.stack.push(elt);
    }

    /// Removes and returns the newest item.
    pub fn pop(&mut self) -> (r: Option<T>)
        ensures
            old(self)@.len() == 0 ==> r is None && final(self)@ == old(self)@,
            old(self)@.len() > 0 ==> r == Some(old(self)@.last()) && final(self)@ == old(self)@.drop_last(),
    {
        self.stack.pop()
    }
}

impl<T> SearchQueue<T> for Stack<T> {
    fn push(&mut self, elt: T) {
        Stack::push(self, elt)
    }

    fn pop(&mut self) -> Option<T> {
        Stack::pop(self)
    }
}

/// First in, first out.
pub struct Queue<T> {
    queue: VecDeque<T>,
}

impl<T> View for Queue<T> {
    type V = Seq<T>;

    /// The items, oldest first.
    closed spec fn view(&self) -> Seq<T> {
        self.queue@
    }
}

impl<T> Queue<T> {
    pub fn new() -> (r: Queue<T>)
        ensures
            r@ == Seq::<T>::empty(),
    {
        Queue { queue: VecDeque::new() }
    }

    pub fn len(&self) -> (r: usize)
        ensures
            r == self@.len(),
    {
        self.queue.len()
    }

    pub fn is_empty(&self) -> (r: bool)
        ensures
            r == (self@.len() == 0),
    {
        self.queue.len() == 0
    }

    pub fn push(&mut self, elt: T)
        ensures
            final(self)@ == old(self)@.push(elt),
    {
        self.queue.push_back(elt);
    }

    /// Removes and returns the oldest item.
    pub fn pop(&mut self) -> (r: Option<T>)
        ensures
            old(self)@.len() == 0 ==> r is None && final(self)@ == old(self)@,
            old(self)@.len() > 0 ==> r == Some(old(self)@[0]) && final(self)@ == old(self)@.drop_first(),
    {
        self.queue.pop_front()
    }
}

impl<T> SearchQueue<T> for Queue<T> {
    fn push(&mut self, elt: T) {
        Queue::push(self, elt)
    }

    fn pop(&mut self) -> Option<T> {
        Queue::pop(self)
    }
}

/// A value by which items are ranked in a priority queue.
pub trait Ranked {
    spec fn rank_of(&self) -> int;

    fn rank(&self) -> (r: i128)
        ensures
            r == self.rank_of();
}

impl Ranked for usize {
    open spec fn rank_of(&self) -> int {
        *self as int
    }

    fn rank(&self) -> (r: i128) {
        *self as i128
    }
}

impl Ranked for u64 {
    open spec fn rank_of(&self) -> int {
        *self as int
    }

    fn rank(&self) -> (r: i128) {
        *self as i128
    }
}

impl Ranked for i64 {
    open spec fn rank_of(&self) -> int {
        *self as int
    }

    fn rank(&self) -> (r: i128) {
        *self as i128
    }
}

impl Ranked for ScoredPath {
    /// A scored path is ranked by its score alone.
    open spec fn rank_of(&self) -> int {
        self.score as int
    }

    fn rank(&self) -> (r: i128) {
        self.score as i128
    }
}

/// Index of the first item of greatest rank (`high`) or of least rank.
fn best_index<T: Ranked>(items: &Vec<T>, high: bool) -> (r: usize)
    requires
        items@.len() > 0,
    ensures
        r < items@.len(),
        forall|j: int| 0 <= j < items@.len() ==>
            if high { items@[j].rank_of() <= items@[r as int].rank_of() } else { items@[j].rank_of() >= items@[r as int].rank_of() },
        forall|j: int| 0 <= j < r ==> items@[j].rank_of() != items@[r as int].rank_of(),
{
    let mut best: usize = 0;
    let mut best_rank = items[0].rank();
    let mut i: usize = 1;
    while i < items.len()
        invariant
            0 <= best < i <= items@.len(),
            best_rank == items@[best as int].rank_of(),
            forall|j: int| 0 <= j < i ==>
                if high { items@[j].rank_of() <= best_rank } else { items@[j].rank_of() >= best_rank },
            forall|j: int| 0 <= j < best ==> items@[j].rank_of() != best_rank,
        decreases items@.len() - i,
    {
        let k = items[i].rank();
        if (high && k > best_rank) || (!high && k < best_rank) {
            best = i;
            best_rank = k;
        }
        i += 1;
    }
    best
}

/// Pops the item of greatest rank first; among equals, the oldest.
pub struct MaxPriorityQueue<T: Ranked> {
    items: Vec<T>,
}

impl<T: Ranked> View for MaxPriorityQueue<T> {
    type V = Seq<T>;

    /// The items, oldest first.
    closed spec fn view(&self) -> Seq<T> {
        self.items@
    }
}

impl<T: Ranked> MaxPriorityQueue<T> {
    pub fn new() -> (r: MaxPriorityQueue<T>)
        ensures
            r@ == Seq::<T>::empty(),
    {
        MaxPriorityQueue { items: Vec::new() }
    }

    pub fn len(&self) -> (r: usize)
        ensures
            r == self@.len(),
    {
        self.items.len()
    }

    pub fn is_empty(&self) -> (r: bool)
        ensures
            r == (self@.len() == 0),
    {
        self.items.len() == 0
    }

    pub fn push(&mut self, elt: T)
        ensures
            final(self)@ == old(self)@.push(elt),
    {
        self.items.push(elt);
    }

    /// Removes and returns the oldest of the items of greatest rank.
    pub fn pop(&mut self) -> (r: Option<T>)
        ensures
            old(self)@.len() == 0 ==> r is None && final(self)@ == old(self)@,
            old(self)@.len() > 0 ==> exists|i: int| {
                &&& 0 <= i < old(self)@.len()
                &&& r == Some(old(self)@[i])
                &&& final(self)@ == old(self)@.remove(i)
                &&& forall|j: int| 0 <= j < old(self)@.len() ==> old(self)@[j].rank_of() <= old(self)@[i].rank_of()
                &&& forall|j: int| 0 <= j < i ==> old(self)@[j].rank_of() != old(self)@[i].rank_of()
            },
    {
        if self.items.len() == 0 {
            return None;
        }
        let i = best_index(&self.items, true);
        Some(self.items.remove(i))
    }
}

impl<T: Ranked> SearchQueue<T> for MaxPriorityQueue<T> {
    fn push(&mut self, elt: T) {
        MaxPriorityQueue::push(self, elt)
    }

    fn pop(&mut self) -> Option<T> {
        MaxPriorityQueue::pop(self)
    }
}

/// Pops the item of least rank first; among equals, the oldest.
pub struct MinPriorityQueue<T: Ranked> {
    items: Vec<T>,
}

impl<T: Ranked> View for MinPriorityQueue<T> {
    type V = Seq<T>;

    /// The items, oldest first.
    closed spec fn view(&self) -> Seq<T> {
        self.items@
    }
}

impl<T: Ranked> MinPriorityQueue<T> {
    pub fn new() -> (r: MinPriorityQueue<T>)
        ensures
            r@ == Seq::<T>::empty(),
    {
        MinPriorityQueue { items: Vec::new() }
    }

    pub fn len(&self) -> (r: usize)
        ensures
            r == self@.len(),
    {
        self.items.len()
    }

    pub fn is_empty(&self) -> (r: bool)
        ensures
            r == (self@.len() == 0),
    {
        self.items.len() == 0
    }

    pub fn push(&mut self, elt: T)
        ensures
            final(self)@ == old(self)@.push(elt),
    {
        self.items.push(elt);
    }

    /// Removes and returns the oldest of the items of least rank.
    pub fn pop(&mut self) -> (r: Option<T>)
        ensures
            old(self)@.len() == 0 ==> r is None && final(self)@ == old(self)@,
            old(self)@.len() > 0 ==> exists|i: int| {
                &&& 0 <= i < old(self)@.len()
                &&& r == Some(old(self)@[i])
                &&& final(self)@ == old(self)@.remove(i)
                &&& forall|j: int| 0 <= j < old(self)@.len() ==> old(self)@[j].rank_of() >= old(self)@[i].rank_of()
                &&& forall|j: int| 0 <= j < i ==> old(self)@[j].rank_of() != old(self)@[i].rank_of()
            },
    {
        if self.items.len() == 0 {
            return None;
        }
        let i = best_index(&self.items, false);
        Some(self.items.remove(i))
    }
}

impl<T: Ranked> SearchQueue<T> for MinPriorityQueue<T> {
    fn push(&mut self, elt: T) {
        MinPriorityQueue::push(self, elt)
    }

    fn pop(&mut self) -> Option<T> {
        MinPriorityQueue::pop(self)
    }
}

} // verus!
