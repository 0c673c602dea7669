//! Filling a run of items.

use vstd::prelude::*;

verus! {

/// Writes `val` to the items of `place` from `start` up to, not including,
/// `end`.
pub fn fill<T: Copy>(place: &mut Vec<T>, start: usize, end: usize, val: T)
    requires
        start <= end <= old(place)@.len(),
    ensures
        final(place)@.len() == old(place)@.len(),
        forall|i: int|
            0 <= i < final(place)@.len() ==> #[trigger] final(place)@[i] == (if start <= i < end {
                val
            } else {
                old(place)@[i]
            }),
{
    let mut i: usize = start;
    while i < end
        invariant
            start <= i <= end <= place@.len(),
            place@.len() == old(place)@.len(),
            forall|j: int|
                0 <= j < place@.len() ==> #[trigger] place@[j] == (if start <= j < i {
                    val
                } else {
                    old(place)@[j]
                }),
        decreases end - i,
    {
        place.set(i, val);
        i = i + 1;
    }
}

/// Writes to each item of `place` from `start` up to, not including, `end`
/// what a call of `make` gives.
pub fn fill_with<T, F: Fn() -> T>(place: &mut Vec<T>, start: usize, end: usize, make: F)
    requires
        start <= end <= old(place)@.len(),
        make.requires(()),
    ensures
        final(place)@.len() == old(place)@.len(),
        forall|i: int|
            0 <= i < final(place)@.len() ==> (if start <= i < end {
                make.ensures((), #[trigger] final(place)@[i])
            } else {
                final(place)@[i] == old(place)@[i]
            }),
{
    let mut i: usize = start;
    while i < end
        invariant
            start <= i <= end <= place@.len(),
            place@.len() == old(place)@.len(),
            make.requires(()),
            forall|j: int|
                0 <= j < place@.len() ==> (if start <= j < i {
                    make.ensures((), #[trigger] place@[j])
                } else {
                    place@[j] == old(place)@[j]
                }),
        decreases end - i,
    {
        let item = make();
        place.set(i, item);
        i = i + 1;
    }
}

} // verus!
