//! In-process memoization substrate: two independent cache engines that store
//! values under caller-supplied keys and serve them back without recomputation.
//!
//! - [`lru_cache::LruCache`]: a bounded, recency-ordered cache that evicts the
//!   least-recently-used entry when a new key would exceed its capacity.
//! - [`expire_cache::ExpireCache`]: an unbounded cache whose records carry an
//!   absolute expiry instant and are invisible once that instant is reached.
//!
//! Concurrency model: both engines use *exclusive-owner* sharing. An instance
//! carries no internal lock; the `&mut self` signatures make a single owner
//! (or one external lock around the whole instance) serialize every
//! operation, so each `get`/`insert`/`remove` is atomic with respect to the
//! others by construction.

pub mod assoc;
pub mod expire_cache;
pub mod lru_cache;

pub use expire_cache::CacheError;
pub use expire_cache::ExpireCache;
pub use expire_cache::MAX_TTL;
pub use lru_cache::LruCache;
