use vstd::prelude::*;

use crate::bucket::{bucket, bucket_spec};
use crate::types::{BucketObservation, Tick};
use crate::MAX_BUCKETS_PER_CYCLE;

verus! {

/// A tick takes part in the current pass exactly when its timestamp is
/// strictly after `low` and its bucket is at or below the bucketed
/// high-water mark `high` — the forming top bucket included.
pub open spec fn in_window(t: Tick, low: int, high: int, interval: int) -> bool {
    low < t.timestamp && bucket_spec(t.timestamp as int, interval) <= high
}

/// The winning observation per grid interval, scanning `ticks` left to
/// right: each in-window tick claims its bucket unless an earlier tick of
/// the same bucket carries a strictly larger raw timestamp. The map sends a
/// bucket start to `(raw timestamp, price)` of the observation that wins it.
pub open spec fn selection_map(ticks: Seq<Tick>, low: int, high: int, interval: int) -> Map<
    int,
    (i64, u64),
>
    decreases ticks.len(),
{
    if ticks.len() == 0 {
        Map::empty()
    } else {
        let prev = selection_map(ticks.drop_last(), low, high, interval);
        let t = ticks.last();
        if in_window(t, low, high, interval) {
            let b = bucket_spec(t.timestamp as int, interval);
            if !prev.dom().contains(b) || prev[b].0 <= t.timestamp {
                prev.insert(b, (t.timestamp, t.price))
            } else {
                prev
            }
        } else {
            prev
        }
    }
}

/// The buckets of `sel` are strictly increasing: each grid interval appears
/// at most once, and in order.
pub open spec fn buckets_strictly_increasing(sel: Seq<BucketObservation>) -> bool {
    forall|k1: int, k2: int|
        0 <= k1 < k2 < sel.len() ==> (#[trigger] sel[k1]).bucket < (#[trigger] sel[k2]).bucket
}

/// Every bucket of `sel` sits on the fixed grid: a multiple of `interval`.
pub open spec fn buckets_on_grid(sel: Seq<BucketObservation>, interval: int) -> bool {
    forall|k: int| 0 <= k < sel.len() ==> (#[trigger] sel[k]).bucket as int % interval == 0
}

/// `sel` lists bindings of `m` in strictly increasing bucket order.
pub open spec fn lists_bindings_of(sel: Seq<BucketObservation>, m: Map<int, (i64, u64)>) -> bool {
    &&& buckets_strictly_increasing(sel)
    &&& forall|k: int|
        0 <= k < sel.len() ==> m.dom().contains((#[trigger] sel[k]).bucket as int) && m[sel[k].bucket as int]
            == (sel[k].observed_at, sel[k].price)
}

/// `sel` lists every binding of `m`, in strictly increasing bucket order.
pub open spec fn lists_all_bindings_of(
    sel: Seq<BucketObservation>,
    m: Map<int, (i64, u64)>,
) -> bool {
    &&& lists_bindings_of(sel, m)
    &&& forall|b: int|
        #[trigger] m.dom().contains(b) ==> exists|k: int|
            0 <= k < sel.len() && (#[trigger] sel[k]).bucket as int == b
}

/// What one pass selects from the raw ticks: the winning observation of
/// every bucket with an in-window tick, in increasing bucket order, cut off
/// after the `MAX_BUCKETS_PER_CYCLE` smallest buckets.
pub open spec fn is_selection(
    ticks: Seq<Tick>,
    low: int,
    high: int,
    interval: int,
    sel: Seq<BucketObservation>,
) -> bool {
    let m = selection_map(ticks, low, high, interval);
    &&& lists_bindings_of(sel, m)
    &&& sel.len() <= MAX_BUCKETS_PER_CYCLE
    &&& buckets_on_grid(sel, interval)
    &&& forall|b: int|
        #[trigger] m.dom().contains(b) ==> (exists|k: int|
            0 <= k < sel.len() && (#[trigger] sel[k]).bucket as int == b) || (sel.len()
            == MAX_BUCKETS_PER_CYCLE && sel[MAX_BUCKETS_PER_CYCLE - 1].bucket < b)
}

/// Every bucket that an in-window tick falls in is selected, and the winning
/// observation of that bucket is at least as recent as the tick: no in-window
/// observation is dropped, only superseded.
pub proof fn lemma_selection_complete(ticks: Seq<Tick>, low: int, high: int, interval: int, j: int)
    requires
        0 <= j < ticks.len(),
        in_window(ticks[j], low, high, interval),
    ensures
        selection_map(ticks, low, high, interval).dom().contains(
            bucket_spec(ticks[j].timestamp as int, interval),
        ),
        selection_map(ticks, low, high, interval)[bucket_spec(ticks[j].timestamp as int, interval)].0
            >= ticks[j].timestamp,
    decreases ticks.len(),
{
    let b = bucket_spec(ticks[j].timestamp as int, interval);
    if j == ticks.len() - 1 {
        assert(ticks.last() == ticks[j]);
    } else {
        lemma_selection_complete(ticks.drop_last(), low, high, interval, j);
        assert(ticks.drop_last()[j] == ticks[j]);
    }
}

/// Every selected binding comes from an actual in-window tick: the selection
/// invents nothing.
pub proof fn lemma_selection_sound(ticks: Seq<Tick>, low: int, high: int, interval: int, b: int)
    requires
        selection_map(ticks, low, high, interval).dom().contains(b),
    ensures
        exists|j: int|
            0 <= j < ticks.len() && in_window(#[trigger] ticks[j], low, high, interval) && bucket_spec(
                ticks[j].timestamp as int,
                interval,
            ) == b && selection_map(ticks, low, high, interval)[b] == (
                ticks[j].timestamp,
                ticks[j].price,
            ),
    decreases ticks.len(),
{
    let m = selection_map(ticks, low, high, interval);
    let prev = selection_map(ticks.drop_last(), low, high, interval);
    let t = ticks.last();
    if in_window(t, low, high, interval) && bucket_spec(t.timestamp as int, interval) == b && (
    !prev.dom().contains(b) || prev[b].0 <= t.timestamp) {
        assert(ticks[ticks.len() - 1] == t);
    } else {
        lemma_selection_sound(ticks.drop_last(), low, high, interval, b);
        let j = choose|j: int|
            0 <= j < ticks.drop_last().len() && in_window(
                #[trigger] ticks.drop_last()[j],
                low,
                high,
                interval,
            ) && bucket_spec(ticks.drop_last()[j].timestamp as int, interval) == b
                && prev[b] == (ticks.drop_last()[j].timestamp, ticks.drop_last()[j].price);
        assert(ticks[j] == ticks.drop_last()[j]);
        assert(in_window(ticks[j], low, high, interval));
    }
}

/// Winner stability under a shrinking window: raising the low watermark
/// only drops whole buckets from the selection — every bucket that is
/// still selected keeps exactly the winner it had under the wider window.
pub proof fn lemma_selection_window_shrink(
    ticks: Seq<Tick>,
    low1: int,
    low2: int,
    high: int,
    interval: int,
    b: int,
)
    requires
        low1 <= low2,
        selection_map(ticks, low2, high, interval).dom().contains(b),
    ensures
        selection_map(ticks, low1, high, interval).dom().contains(b),
        selection_map(ticks, low1, high, interval)[b] == selection_map(
            ticks,
            low2,
            high,
            interval,
        )[b],
    decreases ticks.len(),
{
    let prefix = ticks.drop_last();
    let prev1 = selection_map(prefix, low1, high, interval);
    let prev2 = selection_map(prefix, low2, high, interval);
    let t = ticks.last();
    if in_window(t, low2, high, interval) && bucket_spec(t.timestamp as int, interval) == b {
        assert(in_window(t, low1, high, interval));
        if !prev2.dom().contains(b) || prev2[b].0 <= t.timestamp {
            if prev1.dom().contains(b) && prev1[b].0 > t.timestamp {
                lemma_selection_sound(prefix, low1, high, interval, b);
                let j0: int = choose|j0: int|
                    0 <= j0 < prefix.len() && in_window(#[trigger] prefix[j0], low1, high, interval)
                        && bucket_spec(prefix[j0].timestamp as int, interval) == b && prev1[b] == (
                    prefix[j0].timestamp, prefix[j0].price);
                assert(prefix[j0].timestamp > low2);
                assert(in_window(prefix[j0], low2, high, interval));
                lemma_selection_complete(prefix, low2, high, interval, j0);
                assert(false);
            }
        } else {
            lemma_selection_window_shrink(prefix, low1, low2, high, interval, b);
        }
    } else if in_window(t, low1, high, interval) && bucket_spec(t.timestamp as int, interval)
        == b {
        lemma_selection_window_shrink(prefix, low1, low2, high, interval, b);
        lemma_selection_sound(prefix, low2, high, interval, b);
        assert(prev2[b].0 > low2);
        assert(t.timestamp <= low2);
    } else {
        lemma_selection_window_shrink(prefix, low1, low2, high, interval, b);
    }
}

/// A tick outside the window has no effect at all on what is selected:
/// data older than the recheck window (or newer than the high-water mark)
/// is never retroactively applied.
pub proof fn lemma_out_of_window_ignored(
    ticks: Seq<Tick>,
    low: int,
    high: int,
    interval: int,
    j: int,
)
    requires
        0 <= j < ticks.len(),
        !in_window(ticks[j], low, high, interval),
    ensures
        selection_map(ticks.remove(j), low, high, interval) == selection_map(
            ticks,
            low,
            high,
            interval,
        ),
    decreases ticks.len(),
{
    if j == ticks.len() - 1 {
        assert(ticks.remove(j) =~= ticks.drop_last());
        assert(ticks.last() == ticks[j]);
    } else {
        lemma_out_of_window_ignored(ticks.drop_last(), low, high, interval, j);
        assert(ticks.drop_last()[j] == ticks[j]);
        assert(ticks.remove(j).drop_last() =~= ticks.drop_last().remove(j));
        assert(ticks.remove(j).last() == ticks.last());
        assert(ticks.remove(j).len() != 0);
    }
}

/// Buckets, filters and ranks the raw ticks of one window: for every grid
/// interval with at least one in-window tick, the observation with the
/// largest raw timestamp (the last one seen, on a tie) wins; the winners
/// come back ordered by bucket, capped at `MAX_BUCKETS_PER_CYCLE` buckets
/// per pass.
pub fn select_buckets(ticks: &Vec<Tick>, low: i64, high: i64, interval: i64) -> (sel: Vec<
    BucketObservation,
>)
    requires
        0 < interval,
        forall|j: int| 0 <= j < ticks@.len() ==> 0 <= (#[trigger] ticks@[j]).timestamp,
    ensures
        is_selection(ticks@, low as int, high as int, interval as int, sel@),
{
    let mut acc: Vec<BucketObservation> = Vec::new();
    let mut j: usize = 0;
    while j < ticks.len()
        invariant
            0 < interval,
            forall|k: int| 0 <= k < ticks@.len() ==> 0 <= (#[trigger] ticks@[k]).timestamp,
            j <= ticks@.len(),
            lists_all_bindings_of(
                acc@,
                selection_map(ticks@.take(j as int), low as int, high as int, interval as int),
            ),
            forall|k: int|
                0 <= k < acc@.len() ==> (#[trigger] acc@[k]).bucket as int % interval as int == 0,
        decreases ticks@.len() - j,
    {
        let ghost pre = ticks@.take(j as int);
        let ghost post = ticks@.take(j as int + 1);
        let ghost m_pre = selection_map(pre, low as int, high as int, interval as int);
        let ghost m_post = selection_map(post, low as int, high as int, interval as int);
        proof {
            assert(post.drop_last() =~= pre);
            assert(post.last() == ticks@[j as int]);
        }
        let t = ticks[j];
        if low < t.timestamp {
            let b = bucket(t.timestamp, interval);
            if b > high {
                proof {
                    assert(m_post == m_pre);
                }
            } else {
                let mut idx: usize = 0;
                while idx < acc.len() && acc[idx].bucket < b
                    invariant
                        idx <= acc@.len(),
                        forall|k: int| 0 <= k < idx ==> (#[trigger] acc@[k]).bucket < b,
                    decreases acc@.len() - idx,
                {
                    idx += 1;
                }
                if idx < acc.len() && acc[idx].bucket == b {
                    proof {
                        assert(m_pre.dom().contains(b as int));
                        assert(m_pre[b as int] == (
                            acc@[idx as int].observed_at,
                            acc@[idx as int].price,
                        ));
                    }
                    if acc[idx].observed_at <= t.timestamp {
                        let ghost acc_before = acc@;
                        acc.set(
                            idx,
                            BucketObservation {
                                bucket: b,
                                observed_at: t.timestamp,
                                price: t.price,
                            },
                        );
                        proof {
                            assert(m_post == m_pre.insert(b as int, (t.timestamp, t.price)));
                            assert forall|b2: int| #[trigger] m_post.dom().contains(b2) implies exists|
                                k: int,
                            | 0 <= k < acc@.len() && (#[trigger] acc@[k]).bucket as int == b2 by {
                                if b2 == b as int {
                                    assert(acc@[idx as int].bucket as int == b2);
                                } else {
                                    let k0: int = choose|k0: int|
                                        0 <= k0 < acc_before.len() && (#[trigger] acc_before[k0]).bucket
                                            as int == b2;
                                    assert(acc@[k0].bucket as int == b2);
                                }
                            }
                        }
                    } else {
                        proof {
                            assert(m_post == m_pre);
                        }
                    }
                } else {
                    proof {
                        assert(idx == acc@.len() || acc@[idx as int].bucket > b);
                        assert(!m_pre.dom().contains(b as int)) by {
                            if m_pre.dom().contains(b as int) {
                                let k0: int = choose|k0: int|
                                    0 <= k0 < acc@.len() && (#[trigger] acc@[k0]).bucket as int
                                        == b as int;
                                assert(false);
                            }
                        }
                        assert(m_post == m_pre.insert(b as int, (t.timestamp, t.price)));
                    }
                    let ghost acc_before = acc@;
                    acc.insert(
                        idx,
                        BucketObservation { bucket: b, observed_at: t.timestamp, price: t.price },
                    );
                    proof {
                        assert(acc@ == acc_before.insert(
                            idx as int,
                            BucketObservation { bucket: b, observed_at: t.timestamp, price: t.price },
                        ));
                        assert forall|k: int| 0 <= k < acc@.len() implies m_post.dom().contains(
                            (#[trigger] acc@[k]).bucket as int,
                        ) && m_post[acc@[k].bucket as int] == (acc@[k].observed_at, acc@[k].price) by {
                            if k < idx {
                                assert(acc@[k] == acc_before[k]);
                            } else if k == idx {
                            } else {
                                assert(acc@[k] == acc_before[k - 1]);
                                assert(acc_before[k - 1].bucket != b);
                            }
                        }
                        assert forall|k1: int, k2: int| 0 <= k1 < k2 < acc@.len() implies (
                        #[trigger] acc@[k1]).bucket < (#[trigger] acc@[k2]).bucket by {
                            if k1 < idx {
                                assert(acc@[k1] == acc_before[k1]);
                            }
                            if k2 > idx {
                                assert(acc@[k2] == acc_before[k2 - 1]);
                                assert(acc_before[k2 - 1].bucket > b) by {
                                    if idx < acc_before.len() {
                                        assert(acc_before[idx as int].bucket > b);
                                    }
                                }
                            }
                        }
                        assert forall|b2: int| #[trigger] m_post.dom().contains(b2) implies exists|
                            k: int,
                        | 0 <= k < acc@.len() && (#[trigger] acc@[k]).bucket as int == b2 by {
                            if b2 == b as int {
                                assert(acc@[idx as int].bucket as int == b2);
                            } else {
                                let k0: int = choose|k0: int|
                                    0 <= k0 < acc_before.len() && (#[trigger] acc_before[k0]).bucket
                                        as int == b2;
                                if k0 < idx {
                                    assert(acc@[k0].bucket as int == b2);
                                } else {
                                    assert(acc@[k0 + 1].bucket as int == b2);
                                }
                            }
                        }
                    }
                }
            }
        } else {
            proof {
                assert(m_post == m_pre);
            }
        }
        j += 1;
    }
    proof {
        assert(ticks@.take(ticks@.len() as int) =~= ticks@);
    }
    let ghost m_full = selection_map(ticks@, low as int, high as int, interval as int);
    let ghost acc_full = acc@;
    acc.truncate(MAX_BUCKETS_PER_CYCLE);
    proof {
        assert forall|b: int| #[trigger] m_full.dom().contains(b) implies (exists|k: int|
            0 <= k < acc@.len() && (#[trigger] acc@[k]).bucket as int == b) || (acc@.len()
            == MAX_BUCKETS_PER_CYCLE && acc@[MAX_BUCKETS_PER_CYCLE - 1].bucket < b) by {
            let k0: int = choose|k0: int|
                0 <= k0 < acc_full.len() && (#[trigger] acc_full[k0]).bucket as int == b;
            if k0 < MAX_BUCKETS_PER_CYCLE {
                assert(acc@[k0].bucket as int == b);
            } else {
                assert(acc@[MAX_BUCKETS_PER_CYCLE - 1] == acc_full[MAX_BUCKETS_PER_CYCLE - 1]);
                assert(acc_full[MAX_BUCKETS_PER_CYCLE - 1].bucket < acc_full[k0].bucket);
            }
        }
    }
    acc
}

} // verus!
