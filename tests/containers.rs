use graph_search::containers::{Container, Queue, Stack};

fn drain<C: Container<i32>>(c: &mut C) -> Vec<i32> {
    let mut out = Vec::new();
    while let Some(v) = c.get() {
        out.push(v);
    }
    out
}

#[test]
fn stack_is_last_in_first_out() {
    let mut s = Stack::new();
    s.push(1);
    s.push(2);
    s.push(3);
    assert_eq!(s.pop(), Some(3));
    assert_eq!(s.pop(), Some(2));
    assert_eq!(s.pop(), Some(1));
    assert_eq!(s.pop(), None);
}

#[test]
fn queue_is_first_in_first_out() {
    let mut q = Queue::new();
    q.enqueue(1);
    q.enqueue(2);
    q.enqueue(3);
    assert_eq!(q.dequeue(), Some(1));
    assert_eq!(q.dequeue(), Some(2));
    assert_eq!(q.dequeue(), Some(3));
    assert_eq!(q.dequeue(), None);
}

#[test]
fn container_interface_on_both() {
    let mut s: Stack<i32> = Stack::new();
    let mut q: Queue<i32> = Queue::new();
    assert!(s.is_empty() && q.is_empty());
    assert_eq!(s.peek(), None);
    assert_eq!(q.peek(), None);
    for v in [4, 5, 6] {
        s.add(v);
        q.add(v);
    }
    assert_eq!(s.size(), 3);
    assert_eq!(q.size(), 3);
    assert!(!s.is_empty() && !q.is_empty());
    assert_eq!(s.peek(), Some(6));
    assert_eq!(q.peek(), Some(4));
    assert_eq!(s.size(), 3);
    assert_eq!(drain(&mut s), vec![6, 5, 4]);
    assert_eq!(drain(&mut q), vec![4, 5, 6]);
    assert_eq!(s.get(), None);
    assert_eq!(q.get(), None);
}

#[test]
fn iter_walks_in_removal_order() {
    let mut s: Stack<i32> = Stack::new();
    let mut q: Queue<i32> = Queue::new();
    for v in [1, 2, 3] {
        s.add(v);
        q.add(v);
    }
    let mut it = s.iter();
    assert_eq!(it.next(), Some(3));
    assert_eq!(it.next(), Some(2));
    assert_eq!(it.next(), Some(1));
    assert_eq!(it.next(), None);
    let mut it = q.iter();
    assert_eq!(it.next(), Some(1));
    assert_eq!(it.next(), Some(2));
    assert_eq!(it.next(), Some(3));
    assert_eq!(it.next(), None);
    assert_eq!(s.size(), 3);
    assert_eq!(q.size(), 3);
}
