//! Link identifiers and links.

use vstd::prelude::*;

verus! {

/// An unsigned integer that identifies a link. Zero identifies no link: in a
/// query it stands for any link.
pub trait Index: Copy {
    /// The number that this identifier stands for.
    spec fn value(self) -> nat;

    /// Identifiers with the same number are the same.
    proof fn lemma_value_decides(a: Self, b: Self)
        requires
            a.value() == b.value(),
        ensures
            a == b,
    ;

    /// The identifier of no link.
    fn zero() -> (r: Self)
        ensures
            r.value() == 0,
    ;

    /// In a query: any link.
    fn any() -> (r: Self)
        ensures
            r.value() == 0,
    ;

    /// The first identifier that a store hands out.
    fn one() -> (r: Self)
        ensures
            r.value() == 1,
    ;

    /// Whether this is the identifier of no link.
    fn is_zero(&self) -> (r: bool)
        ensures
            r == (self.value() == 0),
    ;

    /// The identifier with the number `val`.
    fn from_usize(val: usize) -> (r: Self)
        ensures
            r.value() == val,
    ;

    /// The number of this identifier.
    fn as_usize(&self) -> (r: usize)
        ensures
            r == self.value(),
    ;

    /// The next identifier, unless this is the last one.
    fn checked_add_one(&self) -> (r: Option<Self>)
        ensures
            match r {
                Some(v) => v.value() == self.value() + 1,
                None => self.value() == usize::MAX,
            },
    ;

    /// The identifier before this one, unless this is zero.
    fn checked_sub_one(&self) -> (r: Option<Self>)
        ensures
            match r {
                Some(v) => v.value() + 1 == self.value(),
                None => self.value() == 0,
            },
    ;
}

impl Index for usize {
    open spec fn value(self) -> nat {
        self as nat
    }

    proof fn lemma_value_decides(a: Self, b: Self) {
    }

    fn zero() -> (r: Self) {
        0
    }

    fn any() -> (r: Self) {
        0
    }

    fn one() -> (r: Self) {
        1
    }

    fn is_zero(&self) -> (r: bool) {
        *self == 0
    }

    fn from_usize(val: usize) -> (r: Self) {
        val
    }

    fn as_usize(&self) -> (r: usize) {
        *self
    }

    fn checked_add_one(&self) -> (r: Option<Self>) {
        self.checked_add(1)
    }

    fn checked_sub_one(&self) -> (r: Option<Self>) {
        self.checked_sub(1)
    }
}

/// A link: its own index, and the indices of its source and its target.
#[derive(Debug, Clone, Copy, PartialEq, Eq, Hash)]
pub struct Link<L: Index> {
    pub index: L,
    pub source: L,
    pub target: L,
}

impl<L: Index> Link<L> {
    /// The link with the given three parts.
    pub fn new(index: L, source: L, target: L) -> (r: Self)
        ensures
            r == (Link { index, source, target }),
    {
        Link { index, source, target }
    }

    /// The point at `val`: a link that is its own source and target.
    pub fn point(val: L) -> (r: Self)
        ensures
            r == (Link { index: val, source: val, target: val }),
    {
        Link { index: val, source: val, target: val }
    }

    /// The link with zero in all three parts: no link.
    pub fn nothing() -> (r: Self)
        ensures
            r.index.value() == 0,
            r.source.value() == 0,
            r.target.value() == 0,
    {
        Link { index: L::zero(), source: L::zero(), target: L::zero() }
    }

    /// Whether all three parts are zero.
    pub fn is_null(&self) -> (r: bool)
        ensures
            r == (self.index.value() == 0 && self.source.value() == 0 && self.target.value() == 0),
    {
        self.index.is_zero() && self.source.is_zero() && self.target.is_zero()
    }

    /// Whether the link is a point: its own source and its own target.
    pub fn is_full(&self) -> (r: bool)
        ensures
            r == (self.index.value() == self.source.value() && self.index.value()
                == self.target.value()),
    {
        let i = self.index.as_usize();
        i == self.source.as_usize() && i == self.target.as_usize()
    }

    /// Whether the link is its own source or its own target.
    pub fn is_partial(&self) -> (r: bool)
        ensures
            r == (self.index.value() == self.source.value() || self.index.value()
                == self.target.value()),
    {
        let i = self.index.as_usize();
        i == self.source.as_usize() || i == self.target.as_usize()
    }
}

} // verus!
