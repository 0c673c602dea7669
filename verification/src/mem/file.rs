//! The sizes by which memory that is mapped from a file grows and shrinks.

use vstd::prelude::*;
use crate::mem::raw::Error;

verus! {

/// The least length, in bytes, of a file that is mapped.
pub const MIN_PAGE_SIZE: u64 = 8192;

/// The length to give a file that is about to be mapped: `MIN_PAGE_SIZE`
/// where it is shorter than that, `None` where it may stay as it is.
pub fn first_len(file_len: u64) -> (r: Option<u64>)
    ensures
        r == (if file_len < MIN_PAGE_SIZE {
            Some(MIN_PAGE_SIZE)
        } else {
            None
        }),
{
    if file_len < MIN_PAGE_SIZE {
        Some(MIN_PAGE_SIZE)
    } else {
        None
    }
}

/// The number of items of a mapping of `len` items that grows by
/// `addition`. Fails with `CapacityOverflow` where that is more than a
/// `usize` counts.
pub fn grown(len: usize, addition: usize) -> (r: Result<usize, Error>)
    ensures
        r == (if len + addition <= usize::MAX {
            Ok::<usize, Error>((len + addition) as usize)
        } else {
            Err::<usize, Error>(Error::CapacityOverflow)
        }),
{
    match len.checked_add(addition) {
        Some(cap) => Ok(cap),
        None => Err(Error::CapacityOverflow),
    }
}

/// Whether a file of `file_len` bytes has to be made longer before `bytes`
/// bytes of it are mapped.
pub fn must_extend(bytes: u64, file_len: u64) -> (r: bool)
    ensures
        r == (bytes > file_len),
{
    bytes > file_len
}

/// What is left of a mapping of `mapped` bytes, of items of `item_size`
/// bytes each, that shrinks by `shrink` items: the number of items, and the
/// length of the mapping in bytes.
pub fn shrunk(mapped: usize, shrink: usize, item_size: usize) -> (r: (usize, u64))
    requires
        item_size > 0,
    ensures
        r.0 == (if shrink > mapped / item_size {
            0
        } else {
            mapped / item_size - shrink
        }),
        r.1 == r.0 * item_size,
{
    let capacity = mapped / item_size;
    let cap = capacity.saturating_sub(shrink);
    proof {
        assert(cap * item_size <= mapped) by (nonlinear_arith)
            requires
                cap <= mapped / item_size,
                item_size > 0,
        ;
    }
    (cap, (cap * item_size) as u64)
}

} // verus!
