//! A write-back LRU cache over an ordered key-value store.
//!
//! The bounded LRU cache keeps a recency-ordered set of decoded values in
//! memory; the write-back index couples it to persistent storage, loading
//! entries on a miss and persisting evicted entries before it forgets them.

pub mod bytes;
pub mod cache;
pub mod index;
pub mod laws;
pub mod recency;
pub mod store;

pub use bytes::Bytes;
pub use index::Index;
pub use index::SharedIndex;
pub use store::Error;
pub use store::Seek;
pub use store::Store;
