//! List nodes and their builder. Nodes are kept in an arena and link to one
//! another by index.
use std::marker::PhantomData;
use vstd::prelude::*;

verus! {

/// A node of a doubly linked list: a value and the indices of its neighbours.
pub struct Node<T> {
    pub value: T,
    pub next: Option<usize>,
    pub prev: Option<usize>,
}

/// Builder state: no value has been given yet.
pub struct NoValue;

/// Builder state: the value has been given.
pub struct Value<T>(pub T);

/// Builds a node; `build` becomes available once a value has been given.
pub struct NodeBuilder<T, V> {
    _p: PhantomData<T>,
    pub value: V,
    pub next: Option<usize>,
    pub prev: Option<usize>,
}

impl<T, V> NodeBuilder<T, V> {
    /// The state of the value: `NoValue` or `Value`.
    pub closed spec fn state(&self) -> V {
        self.value
    }

    /// The forward link.
    pub closed spec fn next_link(&self) -> Option<usize> {
        self.next
    }

    /// The backward link.
    pub closed spec fn prev_link(&self) -> Option<usize> {
        self.prev
    }
}

impl<T> NodeBuilder<T, NoValue> {
    /// A builder with no value and no links.
    pub fn new() -> (r: NodeBuilder<T, NoValue>)
        ensures
            r.next_link() is None,
            r.prev_link() is None,
    {
        NodeBuilder { _p: PhantomData, value: NoValue, next: None, prev: None }
    }
}

impl<T> NodeBuilder<T, Value<T>> {
    /// The node with the given value and links.
    pub fn build(self) -> (r: Node<T>)
        ensures
            Value(r.value) == self.state(),
            r.next == self.next_link(),
            r.prev == self.prev_link(),
    {
        Node { value: self.value.0, next: self.next, prev: self.prev }
    }
}

impl<T, V> NodeBuilder<T, V> {
    /// Gives the node its value, keeping the links.
    pub fn value(self, value: T) -> (r: NodeBuilder<T, Value<T>>)
        ensures
            r.state() == Value(value),
            r.next_link() == self.next_link(),
            r.prev_link() == self.prev_link(),
    {
        NodeBuilder { _p: PhantomData, value: Value(value), next: self.next, prev: self.prev }
    }

    /// Links the node to the node at index `next`, keeping the rest.
    pub fn next(self, next: usize) -> (r: NodeBuilder<T, V>)
        ensures
            r.state() == self.state(),
            r.next_link() == Some(next),
            r.prev_link() == self.prev_link(),
    {
        NodeBuilder { _p: PhantomData, value: self.value, next: Some(next), prev: self.prev }
    }

    /// Links the node back to the node at index `prev`, keeping the rest.
    pub fn prev(self, prev: usize) -> (r: NodeBuilder<T, V>)
        ensures
            r.state() == self.state(),
            r.next_link() == self.next_link(),
            r.prev_link() == Some(prev),
    {
        NodeBuilder { _p: PhantomData, value: self.value, next: self.next, prev: Some(prev) }
    }
}

/// Builds three nodes: the second linked forward to the first, the third
/// linked back to the second. The links are one-way; nothing keeps them
/// consistent in both directions.
pub fn example_usage() -> (r: (Node<u32>, Node<u32>, Node<u32>))
    ensures
        r.0.value == 1 && r.0.next is None && r.0.prev is None,
        r.1.value == 2 && r.1.next == Some(0usize) && r.1.prev is None,
        r.2.value == 3 && r.2.next is None && r.2.prev == Some(1usize),
{
    let node = NodeBuilder::new().value(1u32).build();
    let node2 = NodeBuilder::new().value(2u32).next(0).build();
    let node3 = NodeBuilder::new().value(3u32).prev(1).build();
    (node, node2, node3)
}

} // verus!
