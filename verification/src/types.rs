use vstd::prelude::*;

verus! {

/// One raw price observation for a security at a point in time.
///
/// A price is carried as an opaque 64-bit code (for instance, the bit
/// pattern of the feed's wire value). The resampler never computes on a
/// price — it only selects and copies codes — so nothing here depends on
/// what a code denotes.
#[derive(Clone, Copy, PartialEq, Eq, Structural, Debug)]
pub struct Tick {
    /// Milliseconds since the epoch; non-negative. Ticks for one security
    /// need not arrive in timestamp order, and several may share a timestamp.
    pub timestamp: i64,
    /// Opaque price code.
    pub price: u64,
}

/// One point of the derived fixed-grid series: the price assigned to the
/// interval that starts at `timestamp`.
#[derive(Clone, Copy, PartialEq, Eq, Structural, Debug)]
pub struct ResamplePoint {
    /// Start of the interval, a multiple of the interval width.
    pub timestamp: i64,
    /// Opaque price code carried over from the winning raw observation, or
    /// forward-filled from the previous interval.
    pub price: u64,
}

/// The observation that currently wins a grid interval: the in-window tick
/// with the largest raw timestamp whose bucket is `bucket`; among ticks that
/// share that largest timestamp, the one seen last.
#[derive(Clone, Copy, PartialEq, Eq, Structural, Debug)]
pub struct BucketObservation {
    /// Start of the grid interval the observation falls in.
    pub bucket: i64,
    /// Raw timestamp of the winning observation.
    pub observed_at: i64,
    /// Price code of the winning observation.
    pub price: u64,
}

} // verus!
