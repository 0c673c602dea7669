//! What a store of links refuses.

use vstd::prelude::*;
use crate::doublets::link::Index;

verus! {

/// Why an operation on a store of links did not take place.
#[derive(Debug, Clone, PartialEq, Eq)]
pub enum Error<L: Index> {
    /// There is no link with this index.
    NotExists(L),
    /// The link with this index has this source and this target already.
    AlreadyExists(L, L, L),
    /// The link with this index is the source or the target of another.
    HasUsages(L),
    /// The store could not get the memory for another link.
    AllocationFailed,
    /// The store is as large as it can be.
    Overflow,
    /// The query does not name what the operation needs.
    InvalidQuery,
}

} // verus!
