//! Configuration constants of the pipeline.

use vstd::prelude::*;

verus! {

/// First block height to scan: the fork the analysis starts from.
pub const SHANGHAI_FORK: u64 = 17034870;

/// Seconds a worker sleeps when no task is claimable.
pub const IDLE_BACKOFF_SECS: u32 = 15;

} // verus!
