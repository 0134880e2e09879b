use graph_core::search_queue::{MaxPriorityQueue, MinPriorityQueue, Queue, Stack};


// Stack

#[test]
fn stack_should_have_len_zero_when_empty() {
    let stack: Stack<usize> = Stack::<usize>::new();
    assert![stack.is_empty(), "Stack should be empty"];
}

#[test]
fn stack_should_store_all_pushed_entries() {
    let mut stack: Stack<usize> = Stack::<usize>::new();
    stack.push(1);
    stack.push(1);
    stack.push(2);
    stack.push(3);
    assert![!stack.is_empty(), "Stack should NOT be empty"];
    assert_eq![stack.len(), 4, "Stack size should be 4"];
}

#[test]
fn stack_should_pop_entries_in_lifo_order() {
    let mut stack: Stack<usize> = Stack::<usize>::new();
    stack.push(1);
    stack.push(1);
    stack.push(2);
    stack.push(3);
    assert_eq![stack.pop().unwrap(), 3];
    assert_eq![stack.pop().unwrap(), 2];
    assert_eq![stack.pop().unwrap(), 1];
    assert_eq![stack.pop().unwrap(), 1];
    assert![stack.is_empty(), "Stack should be empty"];
}

#[test]
fn stack_pop_should_return_none_when_empty() {
    let mut stack: Stack<usize> = Stack::<usize>::new();
    assert![stack.pop().is_none()];
}

// Queue

#[test]
fn queue_should_have_len_zero_when_empty() {
    let queue: Queue<usize> = Queue::<usize>::new();
    assert![queue.is_empty(), "Queue should be empty"];
}

#[test]
fn queue_should_store_all_enqueued_entries() {
    let mut queue: Queue<usize> = Queue::<usize>::new();
    queue.push(1);
    queue.push(1);
    queue.push(2);
    queue.push(3);
    assert![!queue.is_empty(), "Queue should NOT be empty"];
    assert_eq![queue.len(), 4, "Queue size should be 4"];
}

#[test]
fn queue_should_pop_entries_in_fifo_order() {
    let mut queue: Queue<usize> = Queue::<usize>::new();
    queue.push(1);
    queue.push(1);
    queue.push(2);
    queue.push(3);
    assert_eq![queue.pop().unwrap(), 1];
    assert_eq![queue.pop().unwrap(), 1];
    assert_eq![queue.pop().unwrap(), 2];
    assert_eq![queue.pop().unwrap(), 3];
    assert![queue.is_empty(), "Queue should be empty"];
}

#[test]
fn queue_pop_should_return_none_when_empty() {
    let mut queue: Queue<usize> = Queue::<usize>::new();
    assert![queue.pop().is_none()];
}

// MaxPriorityQueue

#[test]
fn max_priority_queue_should_have_len_zero_when_empty() {
    let queue: MaxPriorityQueue<usize> = MaxPriorityQueue::<usize>::new();
    assert![
        queue.is_empty(),
        "Priority queue should be empty"
    ];
}

#[test]
fn max_priority_queue_should_store_all_enqueued_entries() {
    let mut queue: MaxPriorityQueue<usize> = MaxPriorityQueue::<usize>::new();
    queue.push(1);
    queue.push(1);
    queue.push(2);
    queue.push(3);
    assert![
        !queue.is_empty(),
        "Priority queue should NOT be empty"
    ];
    assert_eq![
        queue.len(),
        4,
        "Priority queue size should be 4"
    ];
}

#[test]
fn max_priority_queue_should_pop_entries_in_decreasing_order() {
    let mut queue: MaxPriorityQueue<usize> = MaxPriorityQueue::<usize>::new();
    queue.push(2);
    queue.push(1);
    queue.push(3);
    queue.push(1);
    assert_eq![queue.pop().unwrap(), 3];
    assert_eq![queue.pop().unwrap(), 2];
    assert_eq![queue.pop().unwrap(), 1];
    assert_eq![queue.pop().unwrap(), 1];
    assert![
        queue.is_empty(),
        "Priority queue should be empty"
    ];
}

#[test]
fn max_priority_queue_pop_should_return_none_when_empty() {
    let mut queue: MaxPriorityQueue<usize> = MaxPriorityQueue::<usize>::new();
    assert![queue.pop().is_none()];
}

// MinPriorityQueue

#[test]
fn min_priority_queue_should_have_len_zero_when_empty() {
    let queue: MinPriorityQueue<usize> = MinPriorityQueue::<usize>::new();
    assert![
        queue.is_empty(),
        "Priority queue should be empty"
    ];
}

#[test]
fn min_priority_queue_should_store_all_enqueued_entries() {
    let mut queue: MinPriorityQueue<usize> = MinPriorityQueue::<usize>::new();
    queue.push(1);
    queue.push(1);
    queue.push(2);
    queue.push(3);
    assert![
        !queue.is_empty(),
        "Priority queue should NOT be empty"
    ];
    assert_eq![
        queue.len(),
        4,
        "Priority queue size should be 4"
    ];
}

#[test]
fn min_priority_queue_should_pop_entries_in_increasing_order() {
    let mut queue: MinPriorityQueue<usize> = MinPriorityQueue::<usize>::new();
    queue.push(2);
    queue.push(1);
    queue.push(3);
    queue.push(1);
    assert_eq![queue.pop().unwrap(), 1];
    assert_eq![queue.pop().unwrap(), 1];
    assert_eq![queue.pop().unwrap(), 2];
    assert_eq![queue.pop().unwrap(), 3];
    assert![
        queue.is_empty(),
        "Priority queue should be empty"
    ];
}

#[test]
fn min_priority_queue_pop_should_return_none_when_empty() {
    let mut queue: MinPriorityQueue<usize> = MinPriorityQueue::<usize>::new();
    assert![queue.pop().is_none()];
}
