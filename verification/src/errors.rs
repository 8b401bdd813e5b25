//! Error taxonomy: configuration errors are fatal and reported before any
//! work starts; per-unit failures (one run, one artifact) are absorbed by the
//! caller and never abort a sweep.

use vstd::prelude::*;

verus! {

/// A fatal configuration error, detected before any work begins.
#[derive(Clone, Copy, Debug, PartialEq, Eq, Structural)]
pub enum ConfigError {
    /// The pairing stride was zero: no shard scheme can be formed.
    ZeroStride,
    /// A programmable event's class has zero counter capacity: it could
    /// never be placed in any group.
    ZeroCapacity,
}

/// A fatal error while aggregating statistics over extracted records.
#[derive(Clone, Copy, Debug, PartialEq, Eq, Structural)]
pub enum StatsError {
    /// A running sum no longer fits the accumulator width.
    Overflow,
}

impl ConfigError {
    /// A short human-readable description, for reporting at the edge.
    pub fn describe(&self) -> (r: &'static str)
        ensures
            self is ZeroStride ==> r@ == "stride must be > 0"@,
            self is ZeroCapacity ==> r@ == "event class has zero counter capacity"@,
    {
        match self {
            ConfigError::ZeroStride => "stride must be > 0",
            ConfigError::ZeroCapacity => "event class has zero counter capacity",
        }
    }
}

} // verus!
