//! A verified resampling engine for streaming price ticks.
//!
//! An irregular, possibly out-of-order stream of timestamped price
//! observations is quantized onto a fixed-width time grid: one price per
//! security per interval, with gaps forward-filled from the last observed
//! interval and late arrivals folded back in through an idempotent upsert
//! plan. The surrounding store and feed plumbing is left to the embedding
//! program; everything that decides *what* the derived series contains is
//! here, with its contract.

use vstd::prelude::*;

pub mod bucket;
pub mod config;
pub mod fill;
pub mod market;
pub mod retry;
pub mod select;
pub mod series;
pub mod types;

verus! {

/// Width of one resample interval, in milliseconds.
pub const RESAMPLE_RESOLUTION_MS: i64 = 1000;

/// How often a full resample cycle is started, in milliseconds.
pub const SCHEDULING_INTERVAL_MS: u64 = 10;

/// Fixed delay between attempts of a failed store write, in milliseconds.
pub const RETRY_DELAY_MS: u64 = 50;

/// Floor of the recheck window, in milliseconds: corrections are accepted at
/// least this far behind the derived series' high-water mark.
pub const MIN_RECHECK_WINDOW_MS: i64 = 2000;

/// Upper bound on the number of grid intervals one pass will take on, so that
/// a single cycle's work per security stays bounded; the rest is picked up by
/// the next cycle, whose window starts from the advanced high-water mark.
pub const MAX_BUCKETS_PER_CYCLE: usize = 100;

} // verus!
