//! In-memory backing representation for one immutable block of a sorted
//! key-value storage engine.
//!
//! A block holds several typed columns (scalars, bitmaps, integer arrays and
//! two-column compound records), all addressed by a shared ordered composite
//! key.  A block passes through exactly two phases: a mutable build phase
//! ([`StorageBuilder`]) and a sealed, shareable read phase ([`Storage`]).
//! The [`StorageManager`] mediates the one-way build-to-seal transition and
//! indexes sealed snapshots by session identifier.  The `cache` module holds
//! the keyed cache contract under which upstream layers hold snapshots.

pub mod cache;
pub mod column;
pub mod keys;
pub mod laws;
pub mod manager;
pub mod ranges;
pub mod storage;
pub mod values;

pub use cache::{
    new_cache_for_test, new_non_persistent_cache_for_test, Cache, CacheConfig, CacheError,
    ErrorCodes, FoyerCacheConfig, PersistentCache, UnboundedCache, UnboundedCacheConfig, Weighted,
};
pub use keys::{CompositeKey, Float32, KeyWrapper};
pub use manager::StorageManager;
pub use ranges::{KeyBound, KeyRange, PrefixBound, PrefixRange};
pub use storage::{Readable, Storage, StorageBuilder, StorageError, Writeable};
pub use values::{Bitmap, DataRecord, SpannPostingList};
