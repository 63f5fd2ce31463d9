//! Metrics ingestion collector core: Graphite-style line parsing, one-way
//! obfuscation of metric identifiers, bounded dispatch with drop-on-full
//! backpressure, and size-or-time batch flushing toward a columnar sink.
use vstd::prelude::*;

pub mod config;
pub mod graphite;
pub mod labels;
pub mod laws;
pub mod obf;
pub mod queue;
pub mod worker;

verus! {

/// Counter increment, saturating at the top of the 64-bit range: the
/// process-wide tallies stay monotonic on any run length and never wrap.
pub open spec fn sat_inc(n: int) -> int {
    if n < u64::MAX {
        n + 1
    } else {
        n
    }
}

} // verus!
