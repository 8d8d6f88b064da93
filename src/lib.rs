//! A cache bounded by the total declared byte size of its entries. When a new
//! entry does not fit, the least recently used entries are evicted first.
//! Values are handed out as shared `Arc` handles that stay valid after their
//! entry has left the cache. A second key may be registered as an alias of a
//! stored key.

pub mod recency;
pub mod cache;

pub use cache::{CacheState, MultiCache, MultiCacheItem};
