//! An in-process work-distribution queue with visibility-timeout semantics
//! and crash recovery, paired with a reference-counted, dual-tier
//! time-expiring cache.
//!
//! The queue lets many workers claim tasks, guarantees at-least-once
//! delivery by re-queuing claims that are never acknowledged, and survives
//! restarts through a durable mirror.  The cache memoizes fetched values,
//! tracks how many live consumers use each entry, and applies different
//! expiration windows to idle and actively-referenced entries.

pub mod api;
pub mod arena;
pub mod backup;
pub mod cache;
pub mod queue;
pub mod utils;
