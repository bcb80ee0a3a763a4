//! The paged byte store: pages of framed records and a typed facade over them.

pub mod codec;
pub mod framing;
pub mod map;
pub mod page;
pub mod pagebook;

pub use map::{PageMap, PageMapOptions};
pub use pagebook::PageBook;
