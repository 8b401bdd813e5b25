//! A hardware-performance-counter measurement library.
//!
//! The library packs ranked hardware events into register-capacity-respecting
//! groups, plans profiling runs of a workload under those groups with timeout
//! control, enumerates and shards co-location experiment pairs, turns raw
//! per-run dumps into normalized records under an attribution policy, and
//! computes descriptive statistics across repeated trials. All file and
//! process handling lives outside the library; every function here is pure
//! computation with a verified contract.

pub mod errors;
pub mod events;
pub mod groups;
pub mod extract;
pub mod pairing;
pub mod profiler;
pub mod records;
pub mod stats;
pub mod tabular;
