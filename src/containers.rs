//! Frontier containers: a LIFO stack and a FIFO queue behind one interface.
use std::collections::VecDeque;
use vstd::prelude::*;

verus! {

/// Index of the item that leaves a container next, among `len` items kept in
/// insertion order.
pub open spec fn next_index(len: int, lifo: bool) -> int {
    if lifo {
        len - 1
    } else {
        0
    }
}

/// The items, in insertion order, that remain once the next one has left.
pub open spec fn without_next<T>(items: Seq<T>, lifo: bool) -> Seq<T> {
    if lifo {
        items.subrange(0, items.len() - 1)
    } else {
        items.subrange(1, items.len() as int)
    }
}

/// The items in the order in which successive removals hand them out.
pub open spec fn removal_order<T>(items: Seq<T>, lifo: bool) -> Seq<T> {
    if lifo {
        items.reverse()
    } else {
        items
    }
}

/// The common interface of the frontier containers.
///
/// `items` lists the stored values in insertion order; `lifo` tells whether
/// the newest (stack) or the oldest (queue) value leaves first.
pub trait Container<T: Clone>: Sized {
    spec fn items(&self) -> Seq<T>;

    spec fn lifo(&self) -> bool;

    /// Number of stored values.
    fn size(&self) -> (r: usize)
        ensures
            r == self.items().len(),
    ;

    /// Whether no value is stored.
    fn is_empty(&self) -> (r: bool)
        ensures
            r == (self.items().len() == 0),
    ;

    /// Stores a value.
    fn add(&mut self, value: T)
        ensures
            final(self).items() == old(self).items().push(value),
            final(self).lifo() == old(self).lifo(),
    ;

    /// Removes and returns the next value; `None` when empty.
    fn get(&mut self) -> (r: Option<T>)
        ensures
            final(self).lifo() == old(self).lifo(),
            old(self).items().len() == 0 ==> r is None && final(self).items() == old(self).items(),
            old(self).items().len() > 0 ==> r == Some(
                old(self).items()[next_index(old(self).items().len() as int, old(self).lifo())],
            ) && final(self).items() == without_next(old(self).items(), old(self).lifo()),
    ;

    /// A copy of the next value, leaving the container as it is; `None` when empty.
    fn peek(&self) -> (r: Option<T>)
        ensures
            self.items().len() == 0 <==> r is None,
            r is Some ==> cloned(
                self.items()[next_index(self.items().len() as int, self.lifo())],
                r->0,
            ),
    ;

    /// A walk over copies of the stored values, in the order of removal.
    fn iter(&self) -> (r: ContainerIter<T>)
        ensures
            r.rest().len() == self.items().len(),
            forall|i: int|
                0 <= i < self.items().len() ==> cloned(
                    #[trigger] removal_order(self.items(), self.lifo())[i],
                    r.rest()[i],
                ),
    ;
}

/// A walk over copies of a container's values.
pub struct ContainerIter<T> {
    current: VecDeque<T>,
}

impl<T> ContainerIter<T> {
    /// The values that the walk has yet to hand out, in order.
    pub closed spec fn rest(&self) -> Seq<T> {
        self.current@
    }

    /// Hands out the next value; `None` once all are out.
    pub fn next(&mut self) -> (r: Option<T>)
        ensures
            old(self).rest().len() == 0 ==> r is None && final(self).rest() == old(self).rest(),
            old(self).rest().len() > 0 ==> r == Some(old(self).rest()[0]) && final(self).rest()
                == old(self).rest().drop_first(),
    {
        self.current.pop_front()
    }
}

/// A last-in, first-out container.
pub struct Stack<T> {
    items: Vec<T>,
}

impl<T: Clone> Stack<T> {
    /// The stored values, bottom first.
    pub closed spec fn view(&self) -> Seq<T> {
        self.items@
    }

    /// An empty stack.
    pub fn new() -> (r: Stack<T>)
        ensures
            r.view() == Seq::<T>::empty(),
    {
        Stack { items: Vec::new() }
    }

    /// Puts a value on top.
    pub fn push(&mut self, value: T)
        ensures
            final(self).view() == old(self).view().push(value),
    {
        self.items.push(value);
    }

    /// Takes the top value off; `None` when empty.
    pub fn pop(&mut self) -> (r: Option<T>)
        ensures
            old(self).view().len() == 0 ==> r is None && final(self).view() == old(self).view(),
            old(self).view().len() > 0 ==> r == Some(old(self).view().last()) && final(self).view()
                == old(self).view().drop_last(),
    {
        self.items.pop()
    }
}

impl<T: Clone> Container<T> for Stack<T> {
    open spec fn items(&self) -> Seq<T> {
        self.view()
    }

    open spec fn lifo(&self) -> bool {
        true
    }

    fn size(&self) -> (r: usize) {
        self.items.len()
    }

    fn is_empty(&self) -> (r: bool) {
        self.items.len() == 0
    }

    fn add(&mut self, value: T) {
        self.push(value);
    }

    fn get(&mut self) -> (r: Option<T>) {
        self.pop()
    }

    fn peek(&self) -> (r: Option<T>) {
        let n = self.items.len();
        if n == 0 {
            None
        } else {
            Some(self.items[n - 1].clone())
        }
    }

    fn iter(&self) -> (r: ContainerIter<T>) {
        let mut current: VecDeque<T> = VecDeque::new();
        let n = self.items.len();
        let mut k: usize = 0;
        while k < n
            invariant
                n == self.items@.len(),
                k <= n,
                current@.len() == k,
                forall|i: int|
                    0 <= i < k ==> cloned(
                        #[trigger] removal_order(self.items@, true)[i],
                        current@[i],
                    ),
            decreases n - k,
        {
            let v = self.items[n - 1 - k].clone();
            proof {
                assert(removal_order(self.items@, true)[k as int] == self.items@[n - 1 - k]);
            }
            current.push_back(v);
            k += 1;
        }
        ContainerIter { current }
    }
}

/// A first-in, first-out container.
pub struct Queue<T> {
    items: VecDeque<T>,
}

impl<T: Clone> Queue<T> {
    /// The stored values, front first.
    pub closed spec fn view(&self) -> Seq<T> {
        self.items@
    }

    /// An empty queue.
    pub fn new() -> (r: Queue<T>)
        ensures
            r.view() == Seq::<T>::empty(),
    {
        Queue { items: VecDeque::new() }
    }

    /// Puts a value at the back.
    pub fn enqueue(&mut self, value: T)
        ensures
            final(self).view() == old(self).view().push(value),
    {
        self.items.push_back(value);
    }

    /// Takes the front value off; `None` when empty.
    pub fn dequeue(&mut self) -> (r: Option<T>)
        ensures
            old(self).view().len() == 0 ==> r is None && final(self).view() == old(self).view(),
            old(self).view().len() > 0 ==> r == Some(old(self).view()[0]) && final(self).view()
                == old(self).view().drop_first(),
    {
        self.items.pop_front()
    }
}

impl<T: Clone> Container<T> for Queue<T> {
    open spec fn items(&self) -> Seq<T> {
        self.view()
    }

    open spec fn lifo(&self) -> bool {
        false
    }

    fn size(&self) -> (r: usize) {
        self.items.len()
    }

    fn is_empty(&self) -> (r: bool) {
        self.items.len() == 0
    }

    fn add(&mut self, value: T) {
        self.enqueue(value);
    }

    fn get(&mut self) -> (r: Option<T>) {
        self.dequeue()
    }

    fn peek(&self) -> (r: Option<T>) {
        if self.items.len() == 0 {
            None
        } else {
            Some(self.items[0].clone())
        }
    }

    fn iter(&self) -> (r: ContainerIter<T>) {
        let mut current: VecDeque<T> = VecDeque::new();
        let n = self.items.len();
        let mut k: usize = 0;
        while k < n
            invariant
                n == self.items@.len(),
                k <= n,
                current@.len() == k,
                forall|i: int|
                    0 <= i < k ==> cloned(
                        #[trigger] removal_order(self.items@, false)[i],
                        current@[i],
                    ),
            decreases n - k,
        {
            current.push_back(self.items[k].clone());
            k += 1;
        }
        ContainerIter { current }
    }
}

} // verus!
