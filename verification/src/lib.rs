//! Arena-indexed balanced search trees (a size-balanced tree and a treap over
//! a flat array of node records addressed by integer handles), and a store of
//! links built on the same kind of arena.

pub mod doublets;
pub mod mem;
pub mod trees;
