use vstd::prelude::*;

verus! {

/// Static process configuration of the resampler: the fixed security list
/// and the shared resample interval. Built once at startup and passed in —
/// never ambient, never mutated at runtime.
pub struct Config {
    /// Identifiers of the securities to derive series for, in a fixed
    /// order; series are indexed in this order.
    pub securities: Vec<String>,
    /// Width of one resample interval, in milliseconds.
    pub interval_ms: i64,
}

impl Config {
    /// The interval is positive and small enough that the recheck window
    /// (twice the interval) still fits the timestamp type.
    pub open spec fn wf(&self) -> bool {
        0 < self.interval_ms <= i64::MAX / 2
    }

    /// Bundle a security list and an interval into a configuration.
    pub fn new(securities: Vec<String>, interval_ms: i64) -> (c: Config)
        requires
            0 < interval_ms <= i64::MAX / 2,
        ensures
            c.wf(),
            c.securities == securities,
            c.interval_ms == interval_ms,
    {
        Config { securities, interval_ms }
    }
}

} // verus!
