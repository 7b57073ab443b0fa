//! A doubly linked list over an arena of nodes.
use crate::nodes::Node;
use vstd::prelude::*;

verus! {

/// A doubly linked list: its length, the arena of its nodes, and the indices
/// of its first and last node.
pub struct LinkedList<T> {
    pub size: usize,
    pub nodes: Vec<Node<T>>,
    pub head: Option<usize>,
    pub tail: Option<usize>,
}

} // verus!
