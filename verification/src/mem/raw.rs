//! Pages, and why a place cannot grow.

use vstd::prelude::*;
use crate::mem::pre::PreAlloc;

verus! {

/// Why a place did not grow.
#[derive(Debug, Clone, Copy, PartialEq, Eq)]
pub enum Error {
    /// The place would hold more items than a `usize` counts.
    CapacityOverflow,
    /// The place has room for `available` items and was to hold `to_grow`.
    OverGrow { to_grow: usize, available: usize },
}

/// The part of a place that a growth has just added: the items from `start`
/// up to, not including, `end`. What they hold is left over from before
/// until the page is filled.
#[derive(Debug, Clone, Copy, PartialEq, Eq)]
pub struct Page {
    pub start: usize,
    pub end: usize,
}

impl Page {
    /// The number of items of the page.
    pub open spec fn len(self) -> nat {
        (self.end - self.start) as nat
    }

    /// Whether the page is a part of what `mem` has in use.
    pub open spec fn within<T: Copy>(self, mem: PreAlloc<T>) -> bool {
        self.start <= self.end <= mem@.len()
    }

    /// Fills the page of `mem` with `value`.
    pub fn filled<T: Copy>(self, mem: &mut PreAlloc<T>, value: T)
        requires
            old(mem).wf(),
            self.within(*old(mem)),
        ensures
            final(mem).wf(),
            final(mem).room() == old(mem).room(),
            final(mem)@.len() == old(mem)@.len(),
            forall|i: int|
                0 <= i < final(mem)@.len() ==> #[trigger] final(mem)@[i] == (if self.start <= i
                    < self.end {
                    value
                } else {
                    old(mem)@[i]
                }),
    {
        mem.fill_page(self, value);
    }
}

} // verus!
