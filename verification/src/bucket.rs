use vstd::prelude::*;

use crate::MIN_RECHECK_WINDOW_MS;

verus! {

/// Start of the fixed-width interval containing `t`: `t` rounded down to the
/// nearest multiple of `interval`.
pub open spec fn bucket_spec(t: int, interval: int) -> int {
    (t / interval) * interval
}

/// Recheck window: how far behind the high-water mark corrections to
/// already-written points are still accepted.
pub open spec fn recheck_window_spec(interval: int) -> int {
    if 2 * interval >= MIN_RECHECK_WINDOW_MS { 2 * interval } else { MIN_RECHECK_WINDOW_MS as int }
}

/// Low watermark of one pass: the derived series' largest timestamp (if any)
/// minus the recheck window; with no derived data yet, the same offset below
/// zero, so that every tick from the beginning of time is in the window.
pub open spec fn low_watermark_spec(max_resampled: Option<int>, recheck: int) -> int {
    match max_resampled {
        Option::Some(m) => m - recheck,
        Option::None => -recheck,
    }
}

/// The timestamps of an executable watermark, as the mathematical option
/// the watermark specs speak of.
pub open spec fn opt_ts(o: Option<i64>) -> Option<int> {
    match o {
        Option::Some(m) => Option::Some(m as int),
        Option::None => Option::None,
    }
}

/// Bucketing a non-negative timestamp lands at or above zero.
pub proof fn lemma_bucket_nonneg(t: int, interval: int)
    requires
        0 <= t,
        0 < interval,
    ensures
        0 <= bucket_spec(t, interval),
{
    vstd::arithmetic::div_mod::lemma_div_pos_is_pos(t, interval);
    assert((t / interval) * interval >= 0) by (nonlinear_arith)
        requires
            t / interval >= 0,
            interval > 0,
    ;
}

/// Maps a timestamp to the start of its interval on the fixed grid.
pub fn bucket(t: i64, interval: i64) -> (b: i64)
    requires
        0 <= t,
        0 < interval,
    ensures
        b == bucket_spec(t as int, interval as int),
        b as int % interval as int == 0,
        b <= t < b + interval,
{
    proof {
        vstd::arithmetic::div_mod::lemma_fundamental_div_mod(t as int, interval as int);
        vstd::arithmetic::div_mod::lemma_mod_bound(t as int, interval as int);
        vstd::arithmetic::div_mod::lemma_mod_multiples_basic(
            t as int / interval as int,
            interval as int,
        );
        assert((t as int / interval as int) * interval as int == interval as int * (t as int
            / interval as int)) by (nonlinear_arith);
    }
    (t / interval) * interval
}

/// Width of the recheck window for a given interval: twice the interval, but
/// never less than `MIN_RECHECK_WINDOW_MS`.
pub fn recheck_window(interval: i64) -> (w: i64)
    requires
        0 < interval,
        interval <= i64::MAX / 2,
    ensures
        w == recheck_window_spec(interval as int),
        w >= MIN_RECHECK_WINDOW_MS,
        w >= interval,
{
    let doubled: i64 = 2 * interval;
    if doubled >= MIN_RECHECK_WINDOW_MS {
        doubled
    } else {
        MIN_RECHECK_WINDOW_MS
    }
}

/// High watermark of one pass: the largest raw timestamp seen, bucketed down
/// to the grid. Ticks beyond it (none, by construction) would be out of the
/// window; ticks at or before it are candidates.
pub fn high_watermark(max_raw_timestamp: i64, interval: i64) -> (h: i64)
    requires
        0 <= max_raw_timestamp,
        0 < interval,
    ensures
        h == bucket_spec(max_raw_timestamp as int, interval as int),
        h as int % interval as int == 0,
        h <= max_raw_timestamp < h + interval,
{
    bucket(max_raw_timestamp, interval)
}

/// Low watermark of one pass, from the derived series' largest timestamp.
/// A pass only reconsiders ticks strictly after this point.
pub fn low_watermark(max_resampled: Option<i64>, recheck: i64) -> (l: i64)
    requires
        0 < recheck,
        max_resampled matches Some(m) ==> 0 <= m,
    ensures
        l == low_watermark_spec(
            match max_resampled {
                Option::Some(m) => Option::Some(m as int),
                Option::None => Option::None,
            },
            recheck as int,
        ),
{
    match max_resampled {
        Option::Some(m) => m - recheck,
        Option::None => 0 - recheck,
    }
}

} // verus!
