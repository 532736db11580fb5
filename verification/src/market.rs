use vstd::prelude::*;

use crate::bucket::{
    bucket_spec, high_watermark, lemma_bucket_nonneg, low_watermark, low_watermark_spec, opt_ts,
    recheck_window, recheck_window_spec,
};
use crate::config::Config;
use crate::fill::{build_plan, lemma_plan_points, plan_spec};
use crate::select::{is_selection, select_buckets, selection_map};
use crate::series::{
    apply_plan_spec, lemma_apply_plan_pointwise, lemma_plan_value_some_index, ResampledSeries,
};
use crate::types::{BucketObservation, ResamplePoint, Tick};

verus! {

/// The largest raw timestamp among `ticks` (meaningful when there is one).
pub open spec fn max_raw_ts(ticks: Seq<Tick>) -> int
    decreases ticks.len(),
{
    if ticks.len() <= 1 {
        if ticks.len() == 0 {
            0
        } else {
            ticks[0].timestamp as int
        }
    } else if ticks.last().timestamp as int >= max_raw_ts(ticks.drop_last()) {
        ticks.last().timestamp as int
    } else {
        max_raw_ts(ticks.drop_last())
    }
}

/// The low watermark one pass works from: the derived series' high-water
/// mark less the recheck window.
pub open spec fn pass_low(before: ResampledSeries, interval: int) -> int {
    low_watermark_spec(opt_ts(before.high_ts()), recheck_window_spec(interval))
}

/// The high watermark one pass works to: the largest raw timestamp,
/// bucketed to the grid.
pub open spec fn pass_high(raw: Seq<Tick>, interval: int) -> int {
    bucket_spec(max_raw_ts(raw), interval)
}

/// What one per-security pass does to that security's derived series: with
/// no raw data the pass does nothing; otherwise it selects the winning
/// observations of the recheck-window-to-high-water-mark window, fills the
/// gaps, and upserts the resulting plan over the previous contents.
pub open spec fn resample_rel(
    before: ResampledSeries,
    raw: Seq<Tick>,
    interval: int,
    after: Map<int, u64>,
) -> bool {
    if raw.len() == 0 {
        after == before@
    } else {
        exists|sel: Seq<BucketObservation>|
            is_selection(raw, pass_low(before, interval), pass_high(raw, interval), interval, sel)
                && after == apply_plan_spec(before@, plan_spec(sel, interval))
    }
}

/// Late-arrival correction: a tick that lies in the pass's window — at or
/// behind the high-water mark, but within the recheck window — and that
/// wins its bucket is folded back in: the pass leaves the bucket holding
/// the late price, as one overwritten row, never a duplicate. The one
/// exception is the per-cycle budget: if the pass already selected
/// `MAX_BUCKETS_PER_CYCLE` smaller buckets, the correction waits for a
/// later cycle.
pub proof fn lemma_late_arrival_correction(
    before: ResampledSeries,
    raw: Seq<Tick>,
    interval: int,
    after: Map<int, u64>,
    j: int,
)
    requires
        0 < interval,
        raw.len() > 0,
        resample_rel(before, raw, interval, after),
        0 <= j < raw.len(),
        crate::select::in_window(
            raw[j],
            pass_low(before, interval),
            pass_high(raw, interval),
            interval,
        ),
        selection_map(
            raw,
            pass_low(before, interval),
            pass_high(raw, interval),
            interval,
        )[bucket_spec(raw[j].timestamp as int, interval)] == (raw[j].timestamp, raw[j].price),
    ensures
        ({
            let b = bucket_spec(raw[j].timestamp as int, interval);
            (after.dom().contains(b) && after[b] == raw[j].price) || exists|
                sel: Seq<BucketObservation>,
            |
                is_selection(raw, pass_low(before, interval), pass_high(raw, interval), interval, sel)
                    && sel.len() == crate::MAX_BUCKETS_PER_CYCLE && (sel[crate::MAX_BUCKETS_PER_CYCLE
                    - 1].bucket as int) < b
        }),
{
    let low = pass_low(before, interval);
    let high = pass_high(raw, interval);
    let b = bucket_spec(raw[j].timestamp as int, interval);
    let m = selection_map(raw, low, high, interval);
    crate::select::lemma_selection_complete(raw, low, high, interval, j);
    let sel: Seq<BucketObservation> = choose|sel: Seq<BucketObservation>|
        is_selection(raw, low, high, interval, sel) && after == apply_plan_spec(
            before@,
            plan_spec(sel, interval),
        );
    if exists|k: int| 0 <= k < sel.len() && (#[trigger] sel[k]).bucket as int == b {
        let k: int = choose|k: int| 0 <= k < sel.len() && (#[trigger] sel[k]).bucket as int == b;
        assert(m[b] == (sel[k].observed_at, sel[k].price));
        assert(sel[k].price == raw[j].price);
        crate::fill::lemma_plan_covers_selection(sel, interval, k);
        let plan = plan_spec(sel, interval);
        let kp: int = choose|kp: int|
            0 <= kp < plan.len() && (#[trigger] plan[kp]).timestamp == sel[k].bucket
                && plan[kp].price == sel[k].price;
        lemma_plan_points(sel, interval);
        assert forall|k2: int| kp < k2 < plan.len() implies (#[trigger] plan[k2]).timestamp
            != plan[kp].timestamp by {
            assert(plan[kp].timestamp < plan[k2].timestamp);
        }
        crate::series::lemma_plan_value_at(plan, kp);
        lemma_apply_plan_pointwise(before@, plan, b);
    }
}

/// The start of a timestamp's bucket is at most the timestamp, and the
/// bucket ends within one interval of it.
proof fn lemma_bucket_brackets(t: int, interval: int)
    requires
        0 < interval,
    ensures
        bucket_spec(t, interval) <= t < bucket_spec(t, interval) + interval,
{
    vstd::arithmetic::div_mod::lemma_fundamental_div_mod(t, interval);
    vstd::arithmetic::div_mod::lemma_mod_bound(t, interval);
    assert((t / interval) * interval == interval * (t / interval)) by (nonlinear_arith);
}

/// Idempotence of the whole per-security task: a second pass over the same
/// raw data — from any low watermark at or above the first pass's, as
/// after the first pass has advanced the series' high-water mark — writes
/// only values the first pass already wrote, and leaves the store exactly
/// as the first pass left it. The hypotheses say that neither pass had its
/// selection cut off by the per-cycle bucket budget; a cut-off pass
/// deliberately leaves work for the next cycle, which then extends the
/// series rather than repeating it.
pub proof fn lemma_second_pass_is_noop(
    s0: Map<int, u64>,
    raw: Seq<Tick>,
    interval: int,
    low1: int,
    low2: int,
    high: int,
    sel1: Seq<BucketObservation>,
    sel2: Seq<BucketObservation>,
)
    requires
        0 < interval,
        low1 <= low2,
        is_selection(raw, low1, high, interval, sel1),
        is_selection(raw, low2, high, interval, sel2),
        crate::select::lists_all_bindings_of(sel1, selection_map(raw, low1, high, interval)),
        crate::select::lists_all_bindings_of(sel2, selection_map(raw, low2, high, interval)),
    ensures
        apply_plan_spec(apply_plan_spec(s0, plan_spec(sel1, interval)), plan_spec(sel2, interval))
            == apply_plan_spec(s0, plan_spec(sel1, interval)),
{
    let m1 = selection_map(raw, low1, high, interval);
    let m2 = selection_map(raw, low2, high, interval);
    let plan1 = plan_spec(sel1, interval);
    let plan2 = plan_spec(sel2, interval);
    let s1 = apply_plan_spec(s0, plan1);
    if sel2.len() == 0 {
        assert(plan2 =~= Seq::<ResamplePoint>::empty());
        crate::series::lemma_apply_plan_no_change(s1, plan2);
        return ;
    }
    lemma_plan_points(sel1, interval);
    lemma_plan_points(sel2, interval);
    let first2 = sel2[0].bucket as int;
    let last2 = sel2.last().bucket as int;
    assert(sel2[sel2.len() - 1] == sel2.last());
    crate::fill::lemma_grid_span(first2, last2, interval);
    // The last bucket of the second selection is also listed by the first,
    // so the whole second span lies inside the first plan's span.
    crate::select::lemma_selection_window_shrink(raw, low1, low2, high, interval, last2);
    let jl: int = choose|jl: int| 0 <= jl < sel1.len() && (#[trigger] sel1[jl]).bucket as int == last2;
    assert(sel1[jl].bucket <= sel1[sel1.len() - 1].bucket);
    assert forall|k: int| 0 <= k < plan2.len() implies s1.dom().contains(
        (#[trigger] plan2[k]).timestamp as int,
    ) && s1[plan2[k].timestamp as int] == plan2[k].price by {
        let t = first2 + k * interval;
        assert(plan2[k].timestamp as int == t && plan2[k].price == crate::fill::carry_price(
            sel2,
            t,
        ));
        assert(0 <= k * interval) by (nonlinear_arith)
            requires
                0 <= k,
                0 < interval,
        ;
        assert(k * interval <= ((last2 - first2) / interval) * interval) by (nonlinear_arith)
            requires
                k <= (last2 - first2) / interval,
                0 < interval,
        ;
        assert(first2 <= t <= last2);
        crate::fill::lemma_on_grid_add(first2, k, interval);
        // The last selected bucket of the second pass at or below `t`
        // carries `t`'s price in the second plan.
        crate::fill::lemma_last_at_or_below(sel2, t);
        let j2: int = choose|j2: int|
            0 <= j2 < sel2.len() && (#[trigger] sel2[j2]).bucket <= t && (j2 == sel2.len() - 1 || t
                < sel2[j2 + 1].bucket);
        crate::fill::lemma_carry_price_at(sel2, j2, t);
        let bj2 = sel2[j2].bucket as int;
        // That bucket kept the winner it had under the first, wider window,
        // and the first pass listed it.
        crate::select::lemma_selection_window_shrink(raw, low1, low2, high, interval, bj2);
        let j1: int = choose|j1: int|
            0 <= j1 < sel1.len() && (#[trigger] sel1[j1]).bucket as int == bj2;
        assert(sel1[j1].price == sel2[j2].price);
        // No first-pass bucket lies strictly between it and `t`: such a
        // bucket's winner would sit at or after the bucket's start, hence
        // inside the second window, and the second pass would have listed
        // it between `j2` and `t` — impossible.
        assert(j1 == sel1.len() - 1 || t < sel1[j1 + 1].bucket) by {
            if j1 < sel1.len() - 1 && sel1[j1 + 1].bucket <= t {
                let bp = sel1[j1 + 1].bucket as int;
                crate::select::lemma_selection_sound(raw, low1, high, interval, bp);
                let jt: int = choose|jt: int|
                    0 <= jt < raw.len() && crate::select::in_window(
                        #[trigger] raw[jt],
                        low1,
                        high,
                        interval,
                    ) && bucket_spec(raw[jt].timestamp as int, interval) == bp && m1[bp] == (
                    raw[jt].timestamp, raw[jt].price);
                lemma_bucket_brackets(raw[jt].timestamp as int, interval);
                crate::select::lemma_selection_sound(raw, low2, high, interval, bj2);
                let jw: int = choose|jw: int|
                    0 <= jw < raw.len() && crate::select::in_window(
                        #[trigger] raw[jw],
                        low2,
                        high,
                        interval,
                    ) && bucket_spec(raw[jw].timestamp as int, interval) == bj2 && m2[bj2] == (
                    raw[jw].timestamp, raw[jw].price);
                lemma_bucket_brackets(raw[jw].timestamp as int, interval);
                assert(bj2 > low2 - interval);
                assert(sel1[j1].bucket < sel1[j1 + 1].bucket);
                crate::fill::lemma_grid_step(bj2, bp, interval);
                assert(raw[jt].timestamp > low2);
                assert(crate::select::in_window(raw[jt], low2, high, interval));
                crate::select::lemma_selection_complete(raw, low2, high, interval, jt);
                let kx: int = choose|kx: int|
                    0 <= kx < sel2.len() && (#[trigger] sel2[kx]).bucket as int == bp;
                assert(kx > j2) by {
                    if kx < j2 {
                        assert(sel2[kx].bucket < sel2[j2].bucket);
                    }
                }
                if j2 == sel2.len() - 1 {
                    assert(false);
                } else {
                    assert(sel2[j2 + 1].bucket <= sel2[kx].bucket);
                    assert(false);
                }
            }
        }
        crate::fill::lemma_carry_price_at(sel1, j1, t);
        // `t` sits on the first plan's grid span, so the first pass wrote
        // exactly this price there.
        crate::fill::lemma_plan_hits_grid(sel1, interval, t);
        let k1: int = choose|k1: int|
            0 <= k1 < plan1.len() && (#[trigger] plan1[k1]).timestamp as int == t;
        assert forall|k2: int| k1 < k2 < plan1.len() implies (#[trigger] plan1[k2]).timestamp
            != plan1[k1].timestamp by {
            assert(plan1[k1].timestamp < plan1[k2].timestamp);
        }
        crate::series::lemma_plan_value_at(plan1, k1);
        assert(plan1[k1].price == crate::fill::carry_price(sel1, t));
        crate::series::lemma_apply_plan_pointwise(s0, plan1, t);
    }
    crate::series::lemma_apply_plan_no_change(s1, plan2);
}

/// Largest raw timestamp of a non-empty batch of ticks.
fn max_timestamp_of(ticks: &Vec<Tick>) -> (m: i64)
    requires
        ticks@.len() > 0,
    ensures
        m as int == max_raw_ts(ticks@),
        forall|j: int| 0 <= j < ticks@.len() ==> (#[trigger] ticks@[j]).timestamp <= m,
{
    let mut m: i64 = ticks[0].timestamp;
    let mut j: usize = 1;
    while j < ticks.len()
        invariant
            1 <= j <= ticks@.len(),
            ticks@.len() > 0,
            m as int == max_raw_ts(ticks@.take(j as int)),
            forall|k: int| 0 <= k < j ==> (#[trigger] ticks@[k]).timestamp <= m,
        decreases ticks@.len() - j,
    {
        proof {
            assert(ticks@.take(j as int + 1).drop_last() =~= ticks@.take(j as int));
            assert(ticks@.take(j as int + 1).last() == ticks@[j as int]);
        }
        if ticks[j].timestamp > m {
            m = ticks[j].timestamp;
        }
        j += 1;
    }
    proof {
        assert(ticks@.take(ticks@.len() as int) =~= ticks@);
    }
    m
}

/// One per-security resample pass against an in-memory series: determine
/// the watermarks, select the winning observation of each bucket in the
/// window, forward-fill the gaps, and upsert the plan. With no raw data the
/// pass does nothing — an empty feed is not an error, there is just nothing
/// to derive yet.
pub fn resample_pass(series: &mut ResampledSeries, raw: &Vec<Tick>, interval: i64)
    requires
        old(series).wf(),
        0 < interval <= i64::MAX / 2,
        forall|j: int| 0 <= j < raw@.len() ==> 0 <= (#[trigger] raw@[j]).timestamp,
        forall|t: int| #[trigger] old(series)@.dom().contains(t) ==> 0 <= t,
    ensures
        final(series).wf(),
        resample_rel(*old(series), raw@, interval as int, final(series)@),
        forall|t: int| #[trigger] final(series)@.dom().contains(t) ==> 0 <= t,
        old(series).high_ts() matches Some(m) ==> final(series).high_ts() matches Some(m2) && m
            <= m2,
{
    let ghost ispec = interval as int;
    if raw.len() == 0 {
        return ;
    }
    let max_ts = max_timestamp_of(raw);
    proof {
        assert(raw@[0].timestamp <= max_ts);
    }
    let high = high_watermark(max_ts, interval);
    let rc = recheck_window(interval);
    let max_res = series.max_timestamp();
    proof {
        series.lemma_high_ts_is_max();
    }
    let low = low_watermark(max_res, rc);
    let sel = select_buckets(raw, low, high, interval);
    let plan = build_plan(&sel, interval);
    let ghost before = *series;
    series.apply_plan(&plan);
    proof {
        assert(resample_rel(before, raw@, ispec, series@)) by {
            assert(low as int == pass_low(before, ispec));
            assert(high as int == pass_high(raw@, ispec));
            assert(is_selection(raw@, low as int, high as int, ispec, sel@) && series@
                == apply_plan_spec(before@, plan_spec(sel@, ispec)));
        }
        assert forall|t: int| #[trigger] series@.dom().contains(t) implies 0 <= t by {
            lemma_apply_plan_pointwise(before@, plan@, t);
            if !before@.dom().contains(t) {
                lemma_plan_value_some_index(plan@, t);
                let k0: int = choose|k0: int|
                    0 <= k0 < plan@.len() && (#[trigger] plan@[k0]).timestamp as int == t;
                lemma_plan_points(sel@, ispec);
                assert(t == sel@[0].bucket + k0 * ispec);
                assert(0 <= sel@[0].bucket as int) by {
                    crate::select::lemma_selection_sound(
                        raw@,
                        low as int,
                        high as int,
                        ispec,
                        sel@[0].bucket as int,
                    );
                    let j0: int = choose|j0: int|
                        0 <= j0 < raw@.len() && crate::select::in_window(
                            #[trigger] raw@[j0],
                            low as int,
                            high as int,
                            ispec,
                        ) && bucket_spec(raw@[j0].timestamp as int, ispec) == sel@[0].bucket as int
                            && selection_map(raw@, low as int, high as int, ispec)[sel@[0].bucket as int]
                            == (raw@[j0].timestamp, raw@[j0].price);
                    lemma_bucket_nonneg(raw@[j0].timestamp as int, ispec);
                }
                assert(0 <= k0 * ispec) by (nonlinear_arith)
                    requires
                        0 <= k0,
                        0 < ispec,
                ;
            }
        }
        match before.high_ts() {
            Option::Some(m) => {
                before.lemma_high_ts_is_max();
                lemma_apply_plan_pointwise(before@, plan@, m as int);
                series.lemma_high_ts_is_max();
                assert(series@.dom().contains(m as int));
                if series.high_ts() is None {
                    assert(false);
                }
            },
            Option::None => {},
        }
    }
}

/// The whole derived side of the system: one fixed-grid series per
/// configured security, all sharing one interval. Series are indexed in the
/// order of the configured security list, and a pass for one security
/// touches no other security's rows.
pub struct Market {
    config: Config,
    series: Vec<ResampledSeries>,
}

impl Market {
    /// One well-formed series per configured security, every stored
    /// timestamp on the non-negative grid, and a usable interval.
    pub closed spec fn wf(&self) -> bool {
        &&& self.config.wf()
        &&& self.series@.len() == self.config.securities@.len()
        &&& forall|j: int| 0 <= j < self.series@.len() ==> (#[trigger] self.series@[j]).wf()
        &&& forall|j: int, t: int|
            0 <= j < self.series@.len() && #[trigger] self.series@[j]@.dom().contains(t) ==> 0
                <= t
    }

    /// Number of configured securities.
    pub closed spec fn count(&self) -> int {
        self.series@.len() as int
    }

    /// The shared resample interval, in milliseconds.
    pub closed spec fn interval_spec(&self) -> int {
        self.config.interval_ms as int
    }

    /// The derived series of the security at index `j`.
    pub closed spec fn series_at(&self, j: int) -> ResampledSeries {
        self.series@[j]
    }

    /// A fresh market: every configured security starts with an empty
    /// derived series.
    pub fn new(config: Config) -> (m: Market)
        requires
            config.wf(),
        ensures
            m.wf(),
            m.count() == config.securities@.len(),
            m.interval_spec() == config.interval_ms as int,
            forall|j: int| 0 <= j < m.count() ==> (#[trigger] m.series_at(j))@ == Map::<int, u64>::empty(),
    {
        let n = config.securities.len();
        let mut series: Vec<ResampledSeries> = Vec::new();
        while series.len() < n
            invariant
                series@.len() <= n,
                forall|j: int| 0 <= j < series@.len() ==> (#[trigger] series@[j]).wf(),
                forall|j: int|
                    0 <= j < series@.len() ==> (#[trigger] series@[j])@ == Map::<int, u64>::empty(),
            decreases n - series@.len(),
        {
            series.push(ResampledSeries::new());
        }
        Market { config, series }
    }

    /// Number of configured securities.
    pub fn security_count(&self) -> (n: usize)
        ensures
            n == self.count(),
    {
        self.series.len()
    }

    /// The price the derived series of security `idx` holds at grid
    /// timestamp `t`, if any.
    pub fn get_price(&self, idx: usize, t: i64) -> (r: Option<u64>)
        requires
            self.wf(),
            idx < self.count(),
        ensures
            self.series_at(idx as int)@.dom().contains(t as int) ==> r == Option::Some(
                self.series_at(idx as int)@[t as int],
            ),
            !self.series_at(idx as int)@.dom().contains(t as int) ==> r is None,
    {
        self.series[idx].get(t)
    }

    /// Number of grid intervals priced so far for security `idx`.
    pub fn series_len(&self, idx: usize) -> (n: usize)
        requires
            self.wf(),
            idx < self.count(),
        ensures
            n == self.series_at(idx as int)@.dom().len(),
    {
        self.series[idx].len()
    }

    /// One per-security resample task: brings security `idx` up to date
    /// with its raw ticks and touches no other security's series — tasks
    /// for different securities share no state and may run side by side.
    pub fn run_security(&mut self, idx: usize, raw: &Vec<Tick>)
        requires
            old(self).wf(),
            idx < old(self).count(),
            forall|j: int| 0 <= j < raw@.len() ==> 0 <= (#[trigger] raw@[j]).timestamp,
        ensures
            final(self).wf(),
            final(self).count() == old(self).count(),
            final(self).interval_spec() == old(self).interval_spec(),
            forall|j: int|
                0 <= j < old(self).count() && j != idx ==> final(self).series_at(j) == old(
                    self,
                ).series_at(j),
            resample_rel(
                old(self).series_at(idx as int),
                raw@,
                old(self).interval_spec(),
                final(self).series_at(idx as int)@,
            ),
            old(self).series_at(idx as int).high_ts() matches Some(m) ==> final(self).series_at(
                idx as int,
            ).high_ts() matches Some(m2) && m <= m2,
    {
        let ghost orig = self.series@;
        let mut s = self.series.remove(idx);
        resample_pass(&mut s, raw, self.config.interval_ms);
        self.series.insert(idx, s);
        proof {
            assert(self.series@ =~= orig.update(idx as int, s));
        }
    }

    /// One resample cycle: fan the per-security task out over every
    /// configured security, each against its own batch of raw ticks. Every
    /// security's series ends exactly as its own task leaves it, whatever
    /// the order or interleaving of the tasks.
    pub fn run_cycle(&mut self, raw: &Vec<Vec<Tick>>)
        requires
            old(self).wf(),
            raw@.len() == old(self).count(),
            forall|i: int, j: int|
                0 <= i < raw@.len() && 0 <= j < raw@[i]@.len() ==> 0 <= (#[trigger] raw@[i]@[j]).timestamp,
        ensures
            final(self).wf(),
            final(self).count() == old(self).count(),
            final(self).interval_spec() == old(self).interval_spec(),
            forall|j: int|
                0 <= j < old(self).count() ==> resample_rel(
                    old(self).series_at(j),
                    raw@[j]@,
                    old(self).interval_spec(),
                    (#[trigger] final(self).series_at(j))@,
                ),
    {
        let ghost orig = *self;
        let n = self.security_count();
        let mut idx: usize = 0;
        while idx < n
            invariant
                self.wf(),
                n == orig.count(),
                raw@.len() == orig.count(),
                self.count() == orig.count(),
                self.interval_spec() == orig.interval_spec(),
                idx <= n,
                forall|i: int, j: int|
                    0 <= i < raw@.len() && 0 <= j < raw@[i]@.len() ==> 0 <= (#[trigger] raw@[i]@[j]).timestamp,
                forall|j: int| idx <= j < orig.count() ==> #[trigger] self.series_at(j) == orig.series_at(j),
                forall|j: int|
                    0 <= j < idx ==> resample_rel(
                        orig.series_at(j),
                        raw@[j]@,
                        orig.interval_spec(),
                        (#[trigger] self.series_at(j))@,
                    ),
            decreases n - idx,
        {
            self.run_security(idx, &raw[idx]);
            idx += 1;
        }
    }
}

} // verus!
