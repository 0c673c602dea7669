//! Memory for records that is handed out in pages: the rules by which a
//! place grows and shrinks, and how a page is filled.

pub mod file;
pub mod pre;
pub mod raw;
pub mod uninit;

pub use pre::PreAlloc;
pub use raw::{Error, Page};
pub use uninit::{fill, fill_with};
