//! Handles and node records.

use vstd::prelude::*;

verus! {

/// An unsigned integer identifier that is both an array index and a sort key.
///
/// A handle carries no null value of its own: absence is always an
/// `Option<T>` at the place of use.
pub trait Idx: Copy {
    /// The number that this handle stands for: its slot and its key.
    spec fn value(self) -> nat;

    /// Handles stand for numbers one to one.
    proof fn lemma_value_decides(a: Self, b: Self)
        requires
            a.value() == b.value(),
        ensures
            a == b,
    ;

    /// The handle's number as an array index.
    fn as_usize(self) -> (r: usize)
        ensures
            r as nat == self.value(),
    ;
}

impl Idx for usize {
    open spec fn value(self) -> nat {
        self as nat
    }

    proof fn lemma_value_decides(a: Self, b: Self) {
    }

    fn as_usize(self) -> (r: usize) {
        self
    }
}

impl Idx for u8 {
    open spec fn value(self) -> nat {
        self as nat
    }

    proof fn lemma_value_decides(a: Self, b: Self) {
    }

    fn as_usize(self) -> (r: usize) {
        self as usize
    }
}

impl Idx for u16 {
    open spec fn value(self) -> nat {
        self as nat
    }

    proof fn lemma_value_decides(a: Self, b: Self) {
    }

    fn as_usize(self) -> (r: usize) {
        self as usize
    }
}

impl Idx for u32 {
    open spec fn value(self) -> nat {
        self as nat
    }

    proof fn lemma_value_decides(a: Self, b: Self) {
    }

    fn as_usize(self) -> (r: usize) {
        self as usize
    }
}

/// One slot of the arena: a number and two optional child handles.
///
/// The number is the size of the subtree under the size-balanced strategy and
/// the heap priority under the treap strategy.
#[derive(Debug, Clone, Copy, PartialEq, Eq)]
pub struct Node<T> {
    pub size: usize,
    pub left: Option<T>,
    pub right: Option<T>,
}

impl<T> Node<T> {
    /// The record of an unused slot.
    pub open spec fn empty() -> Self {
        Node { size: 0, left: None, right: None }
    }

    /// An empty record.
    pub fn new() -> (r: Self)
        ensures
            r == Self::empty(),
    {
        Node { size: 0, left: None, right: None }
    }

    /// A childless record with the given number.
    pub fn with_size(size: usize) -> (r: Self)
        ensures
            r == (Node::<T> { size, left: None, right: None }),
    {
        Node { size, left: None, right: None }
    }
}

impl<T> Default for Node<T> {
    fn default() -> (r: Self)
        ensures
            r == Self::empty(),
    {
        Node { size: 0, left: None, right: None }
    }
}

} // verus!
