//! A fixed-capacity least-recently-used cache.
//!
//! The cache keeps its entries in a dense arena and threads a doubly linked
//! list through them by arena index, so that no allocation happens after
//! construction and eviction always removes the least-recently-used value.

pub mod cache;
pub mod laws;
pub mod model;

pub use cache::Entry;
pub use cache::LRUCache;
