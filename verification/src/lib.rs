//! A bounded in-memory cache for computed image artifacts.
//!
//! The cache memoizes expensive artifact production (icon rendering) behind a
//! `get` operation, bounds its memory use by a fixed capacity with a
//! recency-based eviction queue, and expires entries idle beyond a
//! time-to-live through a periodic sweep.
//!
//! - [`keys`] defines the lookup identities a cache can be keyed by;
//! - [`image`] defines the cached artifact and its encodings;
//! - [`store`] is the key/value store with per-entry access metadata;
//! - [`eviction`] tracks recency and names the eviction victim;
//! - [`cache`] is the facade that applies the capacity and expiry policy;
//! - [`laws`] states and proves the policy's guarantees.
//!
//! Time enters the library as a caller-supplied monotone clock in whole
//! seconds, so the policy is deterministic and fully checkable.

use vstd::prelude::*;

pub mod cache;
pub mod eviction;
pub mod image;
pub mod keys;
pub mod laws;
pub mod store;

verus! {

/// Default time-to-live for a cache entry, in seconds.
pub const DEFAULT_TTL_SECS: u64 = 3600;

/// Default interval between expiry sweeps, in seconds.
pub const DEFAULT_SWEEP_INTERVAL_SECS: u64 = 300;

} // verus!
