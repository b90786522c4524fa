//! A fixed-capacity cache with least-recently-used eviction.
//!
//! The cache maps `u64` keys to values and keeps, beside the mapping, a
//! recency order over the keys: the most recently inserted, read, or
//! promoted key stands at the front, the stalest at the back.  When an
//! insertion would exceed the capacity, the key at the back is evicted.

pub mod laws;
pub mod lru_cache;
pub mod model;

pub use lru_cache::LRUCache;
