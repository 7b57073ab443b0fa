//! Vertices and the adjacency records that connect them.
//!
//! Vertices live in a graph's arena and are named by their index there; an
//! adjacency record holds the index of the vertex it leads to.
use std::marker::PhantomData;
use vstd::prelude::*;

verus! {

/// A directed connection to another vertex.
pub trait Adjacency: Sized {
    /// Index of the vertex this record leads to.
    spec fn target(&self) -> usize;

    /// Index of the vertex this record leads to.
    fn vertex(&self) -> (r: usize)
        ensures
            r == self.target(),
    ;
}

/// A vertex: a value, its outgoing adjacency records in stored order, and the
/// level that level assignment gave it, if any.
pub struct Vertex<T, A> {
    pub value: T,
    pub adjacencies: Vec<A>,
    pub level: Option<usize>,
}

impl<T, A: Adjacency> Vertex<T, A> {
    /// The adjacency records, in stored order.
    pub open spec fn adjacency_list(&self) -> Seq<A> {
        self.adjacencies@
    }

    /// The indices of the vertices that the adjacency records lead to, in stored order.
    pub open spec fn targets(&self) -> Seq<usize> {
        self.adjacency_list().map_values(|a: A| a.target())
    }

    /// A vertex holding `value`, with no adjacencies and no level.
    pub fn new(value: T) -> (r: Vertex<T, A>)
        ensures
            r.value == value,
            r.adjacency_list() == Seq::<A>::empty(),
            r.level is None,
    {
        Vertex { value, adjacencies: Vec::new(), level: None }
    }

    /// Appends `adjacencies`, in their order, after the existing records.
    pub fn add_adjacencies(&mut self, adjacencies: Vec<A>)
        ensures
            final(self).adjacency_list() == old(self).adjacency_list() + adjacencies@,
            final(self).value == old(self).value,
            final(self).level == old(self).level,
    {
        let mut more = adjacencies;
        self.adjacencies.append(&mut more);
    }

    /// The record at `index`; `None` when there is none.
    pub fn get(&self, index: usize) -> (r: Option<&A>)
        ensures
            index < self.adjacency_list().len() ==> r == Some(&self.adjacency_list()[index as int]),
            index >= self.adjacency_list().len() ==> r is None,
    {
        if index < self.adjacencies.len() {
            Some(&self.adjacencies[index])
        } else {
            None
        }
    }

    /// Removes and returns the record at `index`, keeping the order of the
    /// others; `None`, with nothing changed, when there is none.
    pub fn remove(&mut self, index: usize) -> (r: Option<A>)
        ensures
            final(self).value == old(self).value,
            final(self).level == old(self).level,
            index < old(self).adjacency_list().len() ==> r == Some(
                old(self).adjacency_list()[index as int],
            ) && final(self).adjacency_list() == old(self).adjacency_list().remove(index as int),
            index >= old(self).adjacency_list().len() ==> r is None && final(self).adjacency_list()
                == old(self).adjacency_list(),
    {
        if index < self.adjacencies.len() {
            Some(self.adjacencies.remove(index))
        } else {
            None
        }
    }

    /// All adjacency records, in stored order.
    pub fn adjacencies(&self) -> (r: &[A])
        ensures
            r@ == self.adjacency_list(),
    {
        self.adjacencies.as_slice()
    }
}

/// An adjacency record without a weight.
pub struct NonWeightedAdjacency {
    pub vertex: usize,
}

impl NonWeightedAdjacency {
    /// A record leading to the vertex at index `vertex`.
    pub fn new(vertex: usize) -> (r: NonWeightedAdjacency)
        ensures
            r.vertex == vertex,
    {
        NonWeightedAdjacency { vertex }
    }
}

impl Adjacency for NonWeightedAdjacency {
    open spec fn target(&self) -> usize {
        self.vertex
    }

    fn vertex(&self) -> (r: usize) {
        self.vertex
    }
}

/// Builder state: no value has been given yet.
pub struct NoValue;

/// Builder state: the value has been given.
pub struct Value<T>(pub T);

/// Builds a vertex with non-weighted adjacency records; `build` becomes
/// available once a value has been given.
pub struct NWVertexBuilder<T, V> {
    _p: PhantomData<T>,
    value: V,
    adjacencies: Vec<NonWeightedAdjacency>,
}

impl<T, V> NWVertexBuilder<T, V> {
    /// The state of the value: `NoValue` or `Value`.
    pub closed spec fn state(&self) -> V {
        self.value
    }

    /// The adjacency records gathered so far, in order.
    pub closed spec fn pending(&self) -> Seq<NonWeightedAdjacency> {
        self.adjacencies@
    }

    /// Adds a record leading to the vertex at index `vertex`.
    pub fn adjacency(self, vertex: usize) -> (r: NWVertexBuilder<T, V>)
        ensures
            r.state() == self.state(),
            r.pending() == self.pending().push(NonWeightedAdjacency { vertex }),
    {
        let mut builder = NWVertexBuilder { _p: self._p, value: self.value, adjacencies: self.adjacencies };
        builder.adjacencies.push(NonWeightedAdjacency::new(vertex));
        builder
    }

    /// Adds `adjacencies`, in their order.
    pub fn adjacencies(self, adjacencies: Vec<NonWeightedAdjacency>) -> (r: NWVertexBuilder<T, V>)
        ensures
            r.state() == self.state(),
            r.pending() == self.pending() + adjacencies@,
    {
        let mut builder = self;
        let mut more = adjacencies;
        builder.adjacencies.append(&mut more);
        builder
    }
}

impl<T> NWVertexBuilder<T, NoValue> {
    /// A builder with no value and no records.
    pub fn new() -> (r: NWVertexBuilder<T, NoValue>)
        ensures
            r.pending() == Seq::<NonWeightedAdjacency>::empty(),
    {
        NWVertexBuilder { _p: PhantomData, value: NoValue, adjacencies: Vec::new() }
    }

    /// Gives the vertex its value, keeping the records gathered so far.
    pub fn value(self, value: T) -> (r: NWVertexBuilder<T, Value<T>>)
        ensures
            r.state() == Value(value),
            r.pending() == self.pending(),
    {
        NWVertexBuilder { _p: PhantomData, value: Value(value), adjacencies: self.adjacencies }
    }
}

impl<T> NWVertexBuilder<T, Value<T>> {
    /// The vertex with the given value and the gathered records, without a level.
    pub fn build(self) -> (r: Vertex<T, NonWeightedAdjacency>)
        ensures
            Value(r.value) == self.state(),
            r.adjacency_list() == self.pending(),
            r.level is None,
    {
        Vertex { value: self.value.0, adjacencies: self.adjacencies, level: None }
    }
}

} // verus!
