//! An in-memory key-value store: a logical map of records that carry the time
//! of their last use, a paged byte arena that holds framed records, and the
//! decisions behind snapshots of the map.

pub mod config;
pub mod oyster;
pub mod pagemap;
pub mod pearl;
pub mod text;
pub mod time;

pub use oyster::Oyster;
pub use pearl::Pearl;
