//! A region-based bump allocator: an arena owns a growing sequence of
//! fixed-size byte blocks, hands out aligned regions by advancing a cursor,
//! and reclaims them all at once by reset, or back to a snapshot by rewind.

pub mod align;
pub mod arena;
pub mod block;
pub mod error;
pub mod laws;
pub mod layout;
pub mod model;
pub mod plain;

pub use arena::{Arena, ArenaSnapshot};
pub use block::Block;
pub use error::ArenaError;
pub use layout::Layout;
pub use model::Region;
pub use plain::Plain;
