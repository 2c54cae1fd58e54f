//! Counters and gauges maintained by the store core.
//!
//! These are plain integers so that the store can prove exact accounting,
//! most importantly that `total_bytes` always equals the summed size of the
//! regions holding data. The embedding application may mirror them into an
//! external metrics registry; latency histograms, which require a clock,
//! also belong to the embedding.

use vstd::prelude::*;

verus! {

/// Saturating addition on `u64`, used for monotone byte counters.
pub fn sat_add(a: u64, b: u64) -> (r: u64)
    ensures
        r == if a + b > u64::MAX { u64::MAX as int } else { a + b },
{
    if b > u64::MAX - a {
        u64::MAX
    } else {
        a + b
    }
}

/// Per-store metrics: operation counts and byte counters.
///
/// `total_bytes` is a gauge: the store proves it equal to the total size of
/// all regions currently holding data (every region not in the clean pool).
/// The remaining fields are monotone counters updated with saturating adds.
#[derive(Clone, Copy, Debug, PartialEq, Eq, Structural)]
pub struct Metrics {
    pub op_insert_inserted: u64,
    pub op_insert_filtered: u64,
    pub op_insert_dropped: u64,
    pub op_lookup_hit: u64,
    pub op_lookup_miss: u64,
    pub op_remove: u64,
    pub op_bytes_insert: u64,
    pub op_bytes_lookup: u64,
    pub op_bytes_flush: u64,
    pub op_bytes_reclaim: u64,
    pub op_bytes_reinsert: u64,
    pub total_bytes: u64,
}

impl Metrics {
    /// The all-zero metrics block.
    pub open spec fn spec_zeroed() -> Metrics {
        Metrics {
            op_insert_inserted: 0,
            op_insert_filtered: 0,
            op_insert_dropped: 0,
            op_lookup_hit: 0,
            op_lookup_miss: 0,
            op_remove: 0,
            op_bytes_insert: 0,
            op_bytes_lookup: 0,
            op_bytes_flush: 0,
            op_bytes_reclaim: 0,
            op_bytes_reinsert: 0,
            total_bytes: 0,
        }
    }

    /// A fresh metrics block with every counter at zero.
    pub fn new() -> (r: Metrics)
        ensures
            r == Metrics::spec_zeroed(),
            r.op_insert_inserted == 0,
            r.op_insert_filtered == 0,
            r.op_insert_dropped == 0,
            r.op_lookup_hit == 0,
            r.op_lookup_miss == 0,
            r.op_remove == 0,
            r.op_bytes_insert == 0,
            r.op_bytes_lookup == 0,
            r.op_bytes_flush == 0,
            r.op_bytes_reclaim == 0,
            r.op_bytes_reinsert == 0,
            r.total_bytes == 0,
    {
        Metrics {
            op_insert_inserted: 0,
            op_insert_filtered: 0,
            op_insert_dropped: 0,
            op_lookup_hit: 0,
            op_lookup_miss: 0,
            op_remove: 0,
            op_bytes_insert: 0,
            op_bytes_lookup: 0,
            op_bytes_flush: 0,
            op_bytes_reclaim: 0,
            op_bytes_reinsert: 0,
            total_bytes: 0,
        }
    }
}

} // verus!
