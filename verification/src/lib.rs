//! A fixed-capacity key-value cache with least-recently-used eviction.
//!
//! The cache keeps its entries in a recency chain, ordered from the most
//! recently touched entry (the head) to the least recently touched one (the
//! tail). `get` and `put` promote the touched entry to the head; when an
//! insertion would push the cache over its capacity, the tail entry is
//! evicted.
//!
//! The contracts of the operations speak over a mathematical view of the
//! cache: the sequence of `(key, value)` pairs in chain order, head first.
//! The spec functions of that model, a transition function that the
//! operation contracts are tied to, and the proved laws — the invariant,
//! recency order over whole traces, eviction, idempotence of lookups on
//! recency, and update without growth — live in [`model`]; the executable
//! cache lives in [`cache`].

pub mod cache;
pub mod model;

pub use cache::LruCache;
