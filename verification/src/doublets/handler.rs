//! What a caller hands to the store to be told of each link.

use vstd::prelude::*;
use crate::doublets::link::{Index, Link};

verus! {

/// Whether to go on.
#[derive(Debug, Clone, Copy, PartialEq, Eq)]
pub enum Flow {
    /// Go on with the next link.
    Continue,
    /// Stop here.
    Break,
}

impl Flow {
    /// `Continue` for `true`, `Break` for `false`.
    pub fn from_bool(value: bool) -> (r: Flow)
        ensures
            r == (if value {
                Flow::Continue
            } else {
                Flow::Break
            }),
    {
        if value {
            Flow::Continue
        } else {
            Flow::Break
        }
    }

    /// Whether this says to stop.
    pub fn is_break(&self) -> (r: bool)
        ensures
            r == (*self == Flow::Break),
    {
        match self {
            Flow::Break => true,
            Flow::Continue => false,
        }
    }
}

impl From<bool> for Flow {
    fn from(value: bool) -> (r: Flow) {
        Flow::from_bool(value)
    }
}

impl vstd::std_specs::convert::FromSpecImpl<bool> for Flow {
    open spec fn obeys_from_spec() -> bool {
        true
    }

    open spec fn from_spec(value: bool) -> Flow {
        if value {
            Flow::Continue
        } else {
            Flow::Break
        }
    }
}

/// Is told of each link that a walk over the store meets.
pub trait ReadHandler<L: Index> {
    /// What the handler shows once it has been told of `link`. A handler
    /// that keeps nothing says `true`.
    spec fn saw(&self, link: Link<L>) -> bool;

    /// Takes the next link and says whether the walk goes on.
    fn handle(&mut self, link: Link<L>) -> (r: Flow)
        ensures
            final(self).saw(link),
    ;
}

/// Is told of each change to the store: the link as it was and as it is.
pub trait WriteHandler<L: Index> {
    /// What the handler shows once it has been told of a change from
    /// `before` to `after`. A handler that keeps nothing says `true`.
    spec fn saw(&self, before: Link<L>, after: Link<L>) -> bool;

    /// Takes the link before and after the change; what it returns is handed
    /// back to the caller of the operation.
    fn handle(&mut self, before: Link<L>, after: Link<L>) -> (r: Flow)
        ensures
            final(self).saw(before, after),
    ;
}

/// A handler that keeps the change it was told of last, and lets the
/// operation go on.
pub struct Keep<L: Index> {
    pub before: Link<L>,
    pub after: Link<L>,
}

impl<L: Index> Keep<L> {
    /// A handler that has been told of nothing yet.
    pub fn new() -> (r: Self)
        ensures
            r.before.index.value() == 0 && r.before.source.value() == 0 && r.before.target.value()
                == 0,
            r.after.index.value() == 0 && r.after.source.value() == 0 && r.after.target.value()
                == 0,
    {
        Keep { before: Link::nothing(), after: Link::nothing() }
    }
}

impl<L: Index> WriteHandler<L> for Keep<L> {
    open spec fn saw(&self, before: Link<L>, after: Link<L>) -> bool {
        self.before == before && self.after == after
    }

    fn handle(&mut self, before: Link<L>, after: Link<L>) -> (r: Flow)
        ensures
            r == Flow::Continue,
    {
        self.before = before;
        self.after = after;
        Flow::Continue
    }
}

} // verus!
