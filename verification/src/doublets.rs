//! A store of links: triples of an index, a source and a target, kept in a
//! flat array with a list of the freed indices for reuse.

pub mod error;
pub mod handler;
pub mod link;
pub mod store;
pub mod traits;

pub use error::Error;
pub use handler::{Flow, ReadHandler, WriteHandler};
pub use link::{Index, Link};
pub use store::{RawLink, Store, create_heap_store};
pub use traits::{Doublets, Links};
