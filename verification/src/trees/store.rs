//! The array-backed store of the size-balanced strategy.

use vstd::prelude::*;
use crate::trees::node::{Idx, Node};
use crate::trees::sbt::{SizeBalanced, sbt_insert, sbt_remove, sbt_valid};
use crate::trees::shape::Shape;
use crate::trees::tree::{Tree, keys_of, lemma_shape_of, shape_of};

verus! {

/// A fixed array of node records that holds a size-balanced tree.
#[derive(Debug, Clone)]
pub struct Store<T> {
    nodes: Vec<Node<T>>,
}

/// Whether every record of `nodes` is the empty record.
pub open spec fn all_empty<T>(nodes: Seq<Node<T>>) -> bool {
    forall|i: int| 0 <= i < nodes.len() ==> #[trigger] nodes[i] == Node::<T>::empty()
}

impl<T: Idx> Store<T> {
    /// A store of `capacity` empty records: it holds the empty tree.
    pub fn new(capacity: usize) -> (r: Self)
        ensures
            r@.len() == capacity,
            all_empty(r@),
            sbt_valid(r@, None),
            shape_of(r@, None::<T>) == Shape::Leaf,
    {
        let mut nodes: Vec<Node<T>> = Vec::new();
        let mut i: usize = 0;
        while i < capacity
            invariant
                i <= capacity,
                nodes@.len() == i,
                all_empty(nodes@),
            decreases capacity - i,
        {
            nodes.push(Node::new());
            i = i + 1;
        }
        let r = Store { nodes };
        proof {
            lemma_shape_of(r@, None::<T>, Shape::Leaf);
        }
        r
    }

    /// A store over the given records.
    pub fn with_nodes(nodes: Vec<Node<T>>) -> (r: Self)
        ensures
            r@ == nodes@,
    {
        Store { nodes }
    }

    /// The records, slot by slot.
    pub fn nodes(&self) -> (r: &[Node<T>])
        ensures
            r@ == self@,
    {
        self.nodes.as_slice()
    }

    /// The records, to be written in place.
    pub fn nodes_mut(&mut self) -> (r: &mut [Node<T>])
        ensures
            r@ == old(self)@,
            final(r)@ == final(self)@,
    {
        self.nodes.as_mut_slice()
    }

    /// Makes every record empty again; the capacity stays.
    pub fn reset(&mut self)
        ensures
            final(self)@.len() == old(self)@.len(),
            all_empty(final(self)@),
            sbt_valid(final(self)@, None),
            shape_of(final(self)@, None::<T>) == Shape::Leaf,
    {
        let n = self.nodes.len();
        let mut i: usize = 0;
        while i < n
            invariant
                i <= n,
                self.nodes@.len() == n,
                forall|j: int| 0 <= j < i ==> #[trigger] self.nodes@[j] == Node::<T>::empty(),
            decreases n - i,
        {
            self.nodes.set(i, Node::new());
            i = i + 1;
        }
        proof {
            lemma_shape_of(self@, None::<T>, Shape::Leaf);
        }
    }

    /// Inserts `idx` into the tree under `root` and returns the new root:
    /// the insertion of the size-balanced strategy.
    pub fn insert(&mut self, root: Option<T>, idx: T) -> (r: Option<T>)
        requires
            sbt_valid(old(self)@, root),
        ensures
            sbt_valid(final(self)@, r),
            final(self)@.len() == old(self)@.len(),
            idx.value() < old(self)@.len() ==> shape_of(final(self)@, r) == sbt_insert(
                shape_of(old(self)@, root),
                idx.value(),
            ),
            idx.value() < old(self)@.len() ==> keys_of(final(self)@, r) == keys_of(
                old(self)@,
                root,
            ).insert(idx.value()),
            idx.value() >= old(self)@.len() || keys_of(old(self)@, root).contains(idx.value())
                ==> r == root && final(self)@ == old(self)@,
    {
        self.insert_sbt(root, idx)
    }

    /// Removes `idx` from the tree under `root` and returns the new root:
    /// the removal of the size-balanced strategy.
    pub fn remove(&mut self, root: Option<T>, idx: T) -> (r: Option<T>)
        requires
            sbt_valid(old(self)@, root),
        ensures
            sbt_valid(final(self)@, r),
            final(self)@.len() == old(self)@.len(),
            shape_of(final(self)@, r) == sbt_remove(shape_of(old(self)@, root), idx.value()),
            keys_of(final(self)@, r) == keys_of(old(self)@, root).remove(idx.value()),
            !keys_of(old(self)@, root).contains(idx.value()) ==> r == root && final(self)@ == old(
                self,
            )@,
    {
        self.remove_sbt(root, idx)
    }

    /// Whether no record holds a size: no handle is in any tree.
    pub fn is_empty(&self) -> (r: bool)
        ensures
            r == forall|i: int| 0 <= i < self@.len() ==> (#[trigger] self@[i]).size == 0,
    {
        let n = self.nodes.len();
        let mut i: usize = 0;
        while i < n
            invariant
                i <= n,
                self.nodes@.len() == n,
                forall|j: int| 0 <= j < i ==> (#[trigger] self.nodes@[j]).size == 0,
            decreases n - i,
        {
            if self.nodes[i].size != 0 {
                return false;
            }
            i = i + 1;
        }
        true
    }
}

impl<T: Idx> Tree<T> for Store<T> {
    closed spec fn view(&self) -> Seq<Node<T>> {
        self.nodes@
    }

    proof fn lemma_capacity(&self) {
        assert(self.nodes.len() == self.nodes@.len());
    }

    fn get(&self, idx: T) -> (r: Option<Node<T>>) {
        let i = idx.as_usize();
        if i < self.nodes.len() {
            Some(self.nodes[i])
        } else {
            None
        }
    }

    fn set(&mut self, idx: T, node: Node<T>) {
        let i = idx.as_usize();
        if i < self.nodes.len() {
            self.nodes.set(i, node);
        }
    }

    fn left_mut(&mut self, idx: T) -> (r: Option<&mut T>) {
        let i = idx.as_usize();
        if i < self.nodes.len() {
            self.nodes[i].left.as_mut()
        } else {
            None
        }
    }

    fn right_mut(&mut self, idx: T) -> (r: Option<&mut T>) {
        let i = idx.as_usize();
        if i < self.nodes.len() {
            self.nodes[i].right.as_mut()
        } else {
            None
        }
    }
}

impl<T: Idx> SizeBalanced<T> for Store<T> {

}

} // verus!
