//! Per-vertex data: a value for each vertex of a `VertexMap`, by index.
use vstd::prelude::*;

verus! {

/// A fixed-size array of node values, indexed like the vertices of a
/// `VertexMap`.
pub struct NodeMap<T: Clone + Default> {
    nodes: Vec<T>,
    size: usize,
}

impl<T: Clone + Default> NodeMap<T> {
    /// The node values in index order.
    pub closed spec fn values(&self) -> Seq<T> {
        self.nodes@
    }

    /// The recorded size agrees with the number of values.
    pub closed spec fn wf(&self) -> bool {
        self.size == self.nodes@.len()
    }

    /// `size` nodes, each a clone of one value that `T::default()` returned.
    pub fn new(size: usize) -> (m: Self)
        ensures
            m.wf(),
            m.values().len() == size,
            exists|d: T|
                call_ensures(T::default, (), d) && forall|i: int|
                    0 <= i < size ==> cloned(d, #[trigger] m.values()[i]),
    {
        let d = T::default();
        let nodes = vec![d; size];
        NodeMap { nodes, size }
    }

    /// `size` nodes, each a clone of `val`.
    pub fn new_filled(size: usize, val: T) -> (m: Self)
        ensures
            m.wf(),
            m.values().len() == size,
            forall|i: int| 0 <= i < size ==> cloned(val, #[trigger] m.values()[i]),
    {
        let nodes = vec![val; size];
        NodeMap { nodes, size }
    }

    /// The number of nodes.
    pub fn size(&self) -> (n: usize)
        requires
            self.wf(),
        ensures
            n == self.values().len(),
    {
        self.size
    }

    /// The value at `idx`.
    pub fn get(&self, idx: usize) -> (v: &T)
        requires
            idx < self.values().len(),
        ensures
            *v == self.values()[idx as int],
    {
        &self.nodes[idx]
    }

    /// A mutable reference to the value at `idx`; whatever is written through
    /// it becomes the value at `idx`.
    pub fn get_mut(&mut self, idx: usize) -> (v: &mut T)
        requires
            idx < old(self).values().len(),
        ensures
            *v == old(self).values()[idx as int],
            final(self).values() == old(self).values().update(idx as int, *final(v)),
            final(self).wf() == old(self).wf(),
    {
        &mut self.nodes[idx]
    }

    /// Replaces the value at `idx` by `val`.
    pub fn set(&mut self, idx: usize, val: T)
        requires
            idx < old(self).values().len(),
        ensures
            final(self).values() == old(self).values().update(idx as int, val),
            final(self).wf() == old(self).wf(),
    {
        self.nodes.set(idx, val);
    }

    /// Replaces every value by a clone of `val`.
    pub fn fill(&mut self, val: T)
        ensures
            final(self).values().len() == old(self).values().len(),
            forall|i: int|
                0 <= i < final(self).values().len() ==> cloned(val, #[trigger] final(self).values()[i]),
            final(self).wf() == old(self).wf(),
    {
        let n = self.nodes.len();
        let mut i: usize = 0;
        while i < n
            invariant
                n == self.nodes@.len(),
                n == old(self).nodes@.len(),
                self.size == old(self).size,
                i <= n,
                forall|j: int| 0 <= j < i ==> cloned(val, #[trigger] self.nodes@[j]),
            decreases n - i,
        {
            let c = val.clone();
            self.nodes.set(i, c);
            i = i + 1;
        }
    }
}

impl<T: Clone + Default> Clone for NodeMap<T> {
    /// A map of the same size whose values are clones of this map's values.
    fn clone(&self) -> (m: Self)
        ensures
            m.wf() == self.wf(),
            m.values().len() == self.values().len(),
            forall|i: int|
                0 <= i < self.values().len() ==> cloned(self.values()[i], #[trigger] m.values()[i]),
    {
        NodeMap { nodes: self.nodes.clone(), size: self.size }
    }
}

} // verus!
