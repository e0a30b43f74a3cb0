//! An in-memory key-value store built around a scan-resistant, weight-bounded
//! cache.
//!
//! The heart of the crate is [`cache::Cache`], a single-segment associative
//! store that evicts with the SIEVE policy: every entry carries a visited bit
//! that is set on each access and cleared the first time the sweeping hand
//! passes over it, so an entry gets one reprieve before it becomes evictable.
//! [`segmented::SegmentedCache`] shards keys over several independent
//! segments, and [`server::RMemstoreServer`] exposes the store under the
//! wire-level request types of [`messages`].
//!
//! Each public operation carries a contract: the tracked weight always equals
//! the summed weight of the live entries and never exceeds the configured
//! budget, a put binds exactly its own key, and eviction hands every truly
//! evicted pair to the configured lifecycle exactly once.

pub mod cache;
pub mod client;
pub mod messages;
pub mod model;
pub mod segmented;
pub mod server;
pub mod signal;
pub mod types;

pub use cache::Cache;
pub use cache::DefaultLifecycle;
pub use cache::Lifecycle;
pub use cache::One;
pub use cache::Weigher;
pub use segmented::SegmentedCache;
