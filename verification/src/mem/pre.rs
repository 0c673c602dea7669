//! A place of fixed room, of which a growing part is in use.

use vstd::prelude::*;
use crate::mem::raw::{Error, Page};
use crate::mem::uninit::fill;

verus! {

/// A place that was allocated beforehand: it has room for as many items as
/// it was made with, and the first `used` of them are in use.
#[derive(Debug)]
pub struct PreAlloc<T> {
    place: Vec<T>,
    used: usize,
}

impl<T: Copy> PreAlloc<T> {
    /// The items in use.
    pub closed spec fn view(&self) -> Seq<T> {
        self.place@.take(self.used as int)
    }

    /// The number of items that the place has room for.
    pub closed spec fn room(&self) -> nat {
        self.place@.len()
    }

    /// No more is in use than there is room for.
    pub closed spec fn wf(&self) -> bool {
        self.used <= self.place@.len()
    }

    /// What `wf` says of the view.
    pub proof fn lemma_wf(&self)
        requires
            self.wf(),
        ensures
            self@.len() <= self.room() <= usize::MAX,
    {
        assert(self.place.len() == self.place@.len());
    }

    /// A place over `place`, none of it in use.
    pub fn new(place: Vec<T>) -> (r: Self)
        ensures
            r.wf(),
            r@.len() == 0,
            r.room() == place@.len(),
    {
        PreAlloc { place, used: 0 }
    }

    /// The items in use.
    pub fn as_slice(&self) -> (r: &[T])
        requires
            self.wf(),
        ensures
            r@ == self@,
    {
        vstd::slice::slice_subrange(self.place.as_slice(), 0, self.used)
    }

    /// Takes `addition` more items into use and returns them as a page.
    /// Fails, and changes nothing, with `CapacityOverflow` where the number
    /// in use would pass what a `usize` counts, and with `OverGrow` where it
    /// would pass the room of the place.
    pub fn grow(&mut self, addition: usize) -> (r: Result<Page, Error>)
        requires
            old(self).wf(),
        ensures
            final(self).wf(),
            final(self).room() == old(self).room(),
            match r {
                Ok(page) => {
                    &&& old(self)@.len() + addition <= old(self).room()
                    &&& page.start == old(self)@.len()
                    &&& page.end == old(self)@.len() + addition
                    &&& final(self)@.len() == page.end
                    &&& final(self)@.take(page.start as int) == old(self)@
                },
                Err(e) => {
                    &&& *final(self) == *old(self)
                    &&& old(self)@.len() + addition > old(self).room()
                    &&& e == (if old(self)@.len() + addition > usize::MAX {
                        Error::CapacityOverflow
                    } else {
                        Error::OverGrow {
                            to_grow: (old(self)@.len() + addition) as usize,
                            available: old(self).room() as usize,
                        }
                    })
                },
            },
    {
        proof {
            self.lemma_wf();
        }
        let cap = match self.used.checked_add(addition) {
            Some(cap) => cap,
            None => {
                return Err(Error::CapacityOverflow);
            },
        };
        let available = self.place.len();
        if cap <= available {
            let page = Page { start: self.used, end: cap };
            self.used = cap;
            proof {
                assert(self@.take(page.start as int) =~= old(self)@);
            }
            Ok(page)
        } else {
            Err(Error::OverGrow { available, to_grow: cap })
        }
    }

    /// Takes the last `cap` items out of use: all of them where fewer are in
    /// use.
    pub fn shrink(&mut self, cap: usize) -> (r: Result<(), Error>)
        requires
            old(self).wf(),
        ensures
            final(self).wf(),
            final(self).room() == old(self).room(),
            r is Ok,
            final(self)@ == old(self)@.take(
                if cap > old(self)@.len() {
                    0
                } else {
                    old(self)@.len() - cap
                },
            ),
    {
        self.used = self.used.saturating_sub(cap);
        proof {
            assert(self@ =~= old(self)@.take(
                if cap > old(self)@.len() {
                    0
                } else {
                    old(self)@.len() - cap
                },
            ));
        }
        Ok(())
    }

    /// Fills the items of `page` with `value`.
    pub(crate) fn fill_page(&mut self, page: Page, value: T)
        requires
            old(self).wf(),
            page.within(*old(self)),
        ensures
            final(self).wf(),
            final(self).room() == old(self).room(),
            final(self)@.len() == old(self)@.len(),
            forall|i: int|
                0 <= i < final(self)@.len() ==> #[trigger] final(self)@[i] == (if page.start <= i
                    < page.end {
                    value
                } else {
                    old(self)@[i]
                }),
    {
        fill(&mut self.place, page.start, page.end, value);
    }
}

} // verus!
