use vstd::prelude::*;

use crate::select::{buckets_on_grid, buckets_strictly_increasing};
use crate::types::{BucketObservation, ResamplePoint};

verus! {

/// The price carried forward to grid point `t`: the price of the last
/// selected bucket at or before `t` (meaningful when `sel` is sorted and
/// some bucket is at or before `t`).
pub open spec fn carry_price(sel: Seq<BucketObservation>, t: int) -> u64
    decreases sel.len(),
{
    if sel.len() == 0 {
        0u64
    } else if sel.last().bucket <= t {
        sel.last().price
    } else {
        carry_price(sel.drop_last(), t)
    }
}

/// The upsert plan of one pass over a sorted selection: one point per grid
/// interval from the first selected bucket to the last, each priced by
/// carry-forward — so intervals without an observation of their own take the
/// previous interval's price, and no interval in the span is left empty.
pub open spec fn plan_spec(sel: Seq<BucketObservation>, interval: int) -> Seq<ResamplePoint> {
    if sel.len() == 0 {
        Seq::empty()
    } else {
        Seq::new(
            ((sel.last().bucket - sel[0].bucket) / interval + 1) as nat,
            |k: int|
                ResamplePoint {
                    timestamp: (sel[0].bucket + k * interval) as i64,
                    price: carry_price(sel, sel[0].bucket + k * interval),
                },
        )
    }
}

/// On a sorted selection, the carried price at a selected bucket (and up to
/// just before the next one) is that bucket's own price.
pub proof fn lemma_carry_price_at(sel: Seq<BucketObservation>, j: int, t: int)
    requires
        buckets_strictly_increasing(sel),
        0 <= j < sel.len(),
        sel[j].bucket <= t,
        j == sel.len() - 1 || t < sel[j + 1].bucket,
    ensures
        carry_price(sel, t) == sel[j].price,
    decreases sel.len(),
{
    if j == sel.len() - 1 {
        assert(sel.last() == sel[j]);
    } else {
        assert(sel.last().bucket > t) by {
            assert(sel[j + 1].bucket <= sel[sel.len() - 1].bucket);
        }
        let shorter = sel.drop_last();
        assert(shorter[j] == sel[j]);
        if j + 1 < shorter.len() {
            assert(shorter[j + 1] == sel[j + 1]);
        }
        lemma_carry_price_at(shorter, j, t);
    }
}

/// Two distinct points of the same grid are at least one interval apart.
pub proof fn lemma_grid_step(a: int, b: int, interval: int)
    requires
        0 < interval,
        a % interval == 0,
        b % interval == 0,
        a < b,
    ensures
        a + interval <= b,
{
    vstd::arithmetic::div_mod::lemma_fundamental_div_mod(a, interval);
    vstd::arithmetic::div_mod::lemma_fundamental_div_mod(b, interval);
    let qa = a / interval;
    let qb = b / interval;
    assert(a + interval <= b) by (nonlinear_arith)
        requires
            a == interval * qa,
            b == interval * qb,
            a < b,
            0 < interval,
    ;
}

/// Adding a whole number of intervals to a grid point stays on the grid.
pub proof fn lemma_on_grid_add(a: int, k: int, interval: int)
    requires
        0 < interval,
        a % interval == 0,
    ensures
        (a + k * interval) % interval == 0,
{
    vstd::arithmetic::div_mod::lemma_mod_multiples_vanish(k, a, interval);
    assert(interval * k == k * interval) by (nonlinear_arith);
}

/// A multiple of the interval, divided by the interval, gives the multiplier
/// back.
proof fn lemma_div_of_multiple(x: int, interval: int)
    requires
        0 < interval,
    ensures
        (interval * x) / interval == x,
{
    vstd::arithmetic::div_mod::lemma_div_multiples_vanish(x, interval);
}

/// The span between two grid points is a non-negative whole number of
/// intervals.
pub proof fn lemma_grid_span(a: int, b: int, interval: int)
    requires
        0 < interval,
        a % interval == 0,
        b % interval == 0,
        a <= b,
    ensures
        (b - a) / interval >= 0,
        a + ((b - a) / interval) * interval == b,
{
    vstd::arithmetic::div_mod::lemma_fundamental_div_mod(a, interval);
    vstd::arithmetic::div_mod::lemma_fundamental_div_mod(b, interval);
    let qa = a / interval;
    let qb = b / interval;
    assert(b - a == interval * (qb - qa)) by (nonlinear_arith)
        requires
            a == interval * qa,
            b == interval * qb,
    ;
    lemma_div_of_multiple(qb - qa, interval);
    assert(qb - qa >= 0) by (nonlinear_arith)
        requires
            0 < interval,
            interval * qa <= interval * qb,
    ;
    assert(a + (qb - qa) * interval == b) by (nonlinear_arith)
        requires
            a == interval * qa,
            b == interval * qb,
    ;
}

/// The plan prices every grid point of its span: between the first and the
/// last selected bucket, no interval is left without a point.
pub proof fn lemma_plan_hits_grid(sel: Seq<BucketObservation>, interval: int, t: int)
    requires
        0 < interval,
        buckets_strictly_increasing(sel),
        buckets_on_grid(sel, interval),
        sel.len() > 0,
        sel[0].bucket <= t <= sel.last().bucket,
        t % interval == 0,
    ensures
        exists|k: int|
            0 <= k < plan_spec(sel, interval).len() && (#[trigger] plan_spec(
                sel,
                interval,
            )[k]).timestamp as int == t,
{
    let plan = plan_spec(sel, interval);
    let b0 = sel[0].bucket as int;
    let bl = sel.last().bucket as int;
    assert(sel[sel.len() - 1] == sel.last());
    lemma_grid_span(b0, t, interval);
    lemma_grid_span(b0, bl, interval);
    lemma_grid_span(t, bl, interval);
    let k = (t - b0) / interval;
    assert(k < plan.len()) by {
        assert(((bl - b0) / interval) * interval == (t - b0) / interval * interval + (bl - t)
            / interval * interval) by (nonlinear_arith)
            requires
                b0 + ((bl - b0) / interval) * interval == bl,
                b0 + ((t - b0) / interval) * interval == t,
                t + ((bl - t) / interval) * interval == bl,
        ;
        assert((bl - b0) / interval >= (t - b0) / interval) by (nonlinear_arith)
            requires
                ((bl - b0) / interval) * interval == ((t - b0) / interval) * interval + ((bl - t)
                    / interval) * interval,
                (bl - t) / interval >= 0,
                0 < interval,
        ;
    }
    lemma_plan_points(sel, interval);
    assert(plan[k].timestamp as int == b0 + k * interval == t);
}

/// In a non-empty sorted selection with its first bucket at or below `t`,
/// some entry is the last one at or below `t`.
pub proof fn lemma_last_at_or_below(sel: Seq<BucketObservation>, t: int)
    requires
        buckets_strictly_increasing(sel),
        sel.len() > 0,
        sel[0].bucket <= t,
    ensures
        exists|j: int|
            0 <= j < sel.len() && (#[trigger] sel[j]).bucket <= t && (j == sel.len() - 1 || t
                < sel[j + 1].bucket),
    decreases sel.len(),
{
    if sel.last().bucket <= t {
        assert(sel[sel.len() - 1].bucket <= t);
    } else {
        let shorter = sel.drop_last();
        assert(shorter[0] == sel[0]);
        lemma_last_at_or_below(shorter, t);
        let j0: int = choose|j0: int|
            0 <= j0 < shorter.len() && (#[trigger] shorter[j0]).bucket <= t && (j0 == shorter.len()
                - 1 || t < shorter[j0 + 1].bucket);
        assert(sel[j0].bucket <= t);
        if j0 == shorter.len() - 1 {
            assert(t < sel[j0 + 1].bucket);
        } else {
            assert(sel[j0 + 1] == shorter[j0 + 1]);
        }
    }
}

/// Pointwise shape of the plan: the `k`-th point sits `k` intervals after
/// the first selected bucket and carries the forward-filled price, so plan
/// timestamps are strictly increasing — one write per grid interval, in
/// causal order.
pub proof fn lemma_plan_points(sel: Seq<BucketObservation>, interval: int)
    requires
        0 < interval,
        buckets_strictly_increasing(sel),
        buckets_on_grid(sel, interval),
    ensures
        forall|k: int|
            0 <= k < plan_spec(sel, interval).len() ==> (#[trigger] plan_spec(sel, interval)[k]).timestamp as int
                == sel[0].bucket + k * interval && plan_spec(sel, interval)[k].price
                == carry_price(sel, sel[0].bucket + k * interval),
        forall|k1: int, k2: int|
            0 <= k1 < k2 < plan_spec(sel, interval).len() ==> (#[trigger] plan_spec(
                sel,
                interval,
            )[k1]).timestamp < (#[trigger] plan_spec(sel, interval)[k2]).timestamp,
{
    if sel.len() == 0 {
        return ;
    }
    let plan = plan_spec(sel, interval);
    let b0 = sel[0].bucket as int;
    let bl = sel.last().bucket as int;
    assert(sel[0].bucket <= sel.last().bucket) by {
        if sel.len() > 1 {
            assert(sel[0].bucket < sel[sel.len() - 1].bucket);
        }
    }
    lemma_grid_span(b0, bl, interval);
    let n = (bl - b0) / interval + 1;
    assert forall|k: int| 0 <= k < plan.len() implies (#[trigger] plan[k]).timestamp as int == b0
        + k * interval && plan[k].price == carry_price(sel, b0 + k * interval) by {
        assert(0 <= k * interval <= (n - 1) * interval) by (nonlinear_arith)
            requires
                0 <= k <= n - 1,
                0 < interval,
        ;
        assert(b0 <= b0 + k * interval <= bl);
        assert((b0 + k * interval) as i64 as int == b0 + k * interval);
    }
    assert forall|k1: int, k2: int| 0 <= k1 < k2 < plan.len() implies (#[trigger] plan[k1]).timestamp
        < (#[trigger] plan[k2]).timestamp by {
        assert(k1 * interval < k2 * interval) by (nonlinear_arith)
            requires
                k1 < k2,
                0 < interval,
        ;
        assert(0 <= k1 * interval <= (n - 1) * interval && 0 <= k2 * interval <= (n - 1)
            * interval) by (nonlinear_arith)
            requires
                0 <= k1 <= n - 1,
                0 <= k2 <= n - 1,
                0 < interval,
        ;
    }
}

/// Every selected bucket appears in the plan with its own selected price:
/// forward-filling never overwrites an actual observation.
pub proof fn lemma_plan_covers_selection(sel: Seq<BucketObservation>, interval: int, j: int)
    requires
        0 < interval,
        buckets_strictly_increasing(sel),
        buckets_on_grid(sel, interval),
        0 <= j < sel.len(),
    ensures
        exists|k: int|
            0 <= k < plan_spec(sel, interval).len() && (#[trigger] plan_spec(sel, interval)[k]).timestamp
                == sel[j].bucket && plan_spec(sel, interval)[k].price == sel[j].price,
{
    let plan = plan_spec(sel, interval);
    let b0 = sel[0].bucket as int;
    let bj = sel[j].bucket as int;
    let bl = sel.last().bucket as int;
    assert(sel[0].bucket <= sel[j].bucket && sel[j].bucket <= sel.last().bucket) by {
        if j > 0 {
            assert(sel[0].bucket < sel[j].bucket);
        }
        if j < sel.len() - 1 {
            assert(sel[j].bucket < sel[sel.len() - 1].bucket);
        }
    }
    lemma_grid_span(b0, bj, interval);
    lemma_grid_span(b0, bl, interval);
    lemma_grid_span(bj, bl, interval);
    let k = (bj - b0) / interval;
    assert(k < plan.len()) by {
        assert(((bl - b0) / interval) * interval == (bj - b0) / interval * interval + (bl - bj)
            / interval * interval) by (nonlinear_arith)
            requires
                b0 + ((bl - b0) / interval) * interval == bl,
                b0 + ((bj - b0) / interval) * interval == bj,
                bj + ((bl - bj) / interval) * interval == bl,
        ;
        assert((bl - b0) / interval >= (bj - b0) / interval) by (nonlinear_arith)
            requires
                ((bl - b0) / interval) * interval == ((bj - b0) / interval) * interval + ((bl - bj)
                    / interval) * interval,
                (bl - bj) / interval >= 0,
                0 < interval,
        ;
    }
    lemma_plan_points(sel, interval);
    assert(plan[k].timestamp as int == b0 + k * interval == bj);
    lemma_carry_price_at(sel, j, bj);
    assert(plan[k].price == sel[j].price);
}

/// Turns a sorted selection into the full upsert plan of the pass: the
/// selected buckets in increasing order, with every empty grid interval
/// strictly between two selected buckets forward-filled from the earlier
/// one.
pub fn build_plan(sel: &Vec<BucketObservation>, interval: i64) -> (plan: Vec<ResamplePoint>)
    requires
        0 < interval,
        buckets_strictly_increasing(sel@),
        buckets_on_grid(sel@, interval as int),
    ensures
        plan@ == plan_spec(sel@, interval as int),
{
    let ghost ispec = interval as int;
    let mut plan: Vec<ResamplePoint> = Vec::new();
    if sel.len() == 0 {
        proof {
            assert(plan@ =~= plan_spec(sel@, ispec));
        }
        return plan;
    }
    let first = sel[0].bucket;
    plan.push(ResamplePoint { timestamp: first, price: sel[0].price });
    proof {
        lemma_carry_price_at(sel@, 0, first as int);
    }
    let mut j: usize = 1;
    while j < sel.len()
        invariant
            0 < interval,
            ispec == interval as int,
            buckets_strictly_increasing(sel@),
            buckets_on_grid(sel@, ispec),
            1 <= j <= sel@.len(),
            first == sel@[0].bucket,
            plan@.len() >= 1,
            sel@[j - 1].bucket as int == first as int + (plan@.len() - 1) * ispec,
            forall|k: int|
                0 <= k < plan@.len() ==> (#[trigger] plan@[k]).timestamp as int == first as int + k
                    * ispec,
            forall|k: int|
                0 <= k < plan@.len() ==> (#[trigger] plan@[k]).price == carry_price(
                    sel@,
                    plan@[k].timestamp as int,
                ),
        decreases sel@.len() - j,
    {
        let prev = sel[j - 1];
        let cur = sel[j];
        proof {
            lemma_grid_step(prev.bucket as int, cur.bucket as int, ispec);
            assert((plan@.len() - 1) * ispec + ispec == plan@.len() * ispec) by (nonlinear_arith);
            assert(sel@[0].bucket as int % ispec == 0);
            lemma_on_grid_add(first as int, plan@.len() as int, ispec);
        }
        let mut t: i64 = prev.bucket + interval;
        while t < cur.bucket
            invariant
                0 < interval,
                ispec == interval as int,
                buckets_strictly_increasing(sel@),
                buckets_on_grid(sel@, ispec),
                1 <= j < sel@.len(),
                first == sel@[0].bucket,
                prev == sel@[j - 1],
                cur == sel@[j as int],
                prev.bucket < t <= cur.bucket,
                t as int % ispec == 0,
                t as int == first as int + plan@.len() * ispec,
                forall|k: int|
                    0 <= k < plan@.len() ==> (#[trigger] plan@[k]).timestamp as int == first as int
                        + k * ispec,
                forall|k: int|
                    0 <= k < plan@.len() ==> (#[trigger] plan@[k]).price == carry_price(
                        sel@,
                        plan@[k].timestamp as int,
                    ),
            decreases cur.bucket - t,
        {
            plan.push(ResamplePoint { timestamp: t, price: prev.price });
            proof {
                lemma_carry_price_at(sel@, j - 1, t as int);
                lemma_grid_step(t as int, cur.bucket as int, ispec);
                assert((plan@.len() - 1) * ispec + ispec == plan@.len() * ispec)
                    by (nonlinear_arith);
                lemma_on_grid_add(t as int, 1, ispec);
            }
            t = t + interval;
        }
        proof {
            assert(t == cur.bucket);
            lemma_carry_price_at(sel@, j as int, cur.bucket as int);
        }
        plan.push(ResamplePoint { timestamp: cur.bucket, price: cur.price });
        j += 1;
    }
    proof {
        let n = plan@.len() as int;
        assert(sel@.last().bucket as int - first as int == ispec * (n - 1)) by (nonlinear_arith)
            requires
                sel@.last().bucket as int == first as int + (n - 1) * ispec,
        ;
        lemma_div_of_multiple(n - 1, ispec);
        assert((sel@.last().bucket - sel@[0].bucket) / ispec + 1 == n);
        assert(plan@ =~= plan_spec(sel@, ispec));
    }
    plan
}

} // verus!
