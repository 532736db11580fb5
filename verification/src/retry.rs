use vstd::prelude::*;

use crate::series::ResampledSeries;
use crate::types::ResamplePoint;
use crate::RETRY_DELAY_MS;

verus! {

/// What the writer does after one upsert attempt: move on to the next
/// point, or wait a fixed delay and attempt the same write again. A failed
/// write is never skipped and never escalated — the task retries until the
/// store accepts it.
#[derive(Clone, Copy, PartialEq, Eq, Structural, Debug)]
pub enum RetryDecision {
    /// The store accepted the write: proceed to the next point.
    Proceed,
    /// The store rejected the write: report it, wait this many
    /// milliseconds, and attempt the same write again.
    RetryAfter { delay_ms: u64 },
}

/// Decides the writer's next step from one attempt's outcome.
pub fn retry_decision(accepted: bool) -> (d: RetryDecision)
    ensures
        accepted ==> d == RetryDecision::Proceed,
        !accepted ==> d == (RetryDecision::RetryAfter { delay_ms: RETRY_DELAY_MS }),
{
    if accepted {
        RetryDecision::Proceed
    } else {
        RetryDecision::RetryAfter { delay_ms: RETRY_DELAY_MS }
    }
}

/// The store after attempting one upsert against it repeatedly, attempt
/// outcomes given in order (`true` = the store accepted the write): every
/// rejected attempt leaves the store untouched, and the first accepted one
/// lands the point — once — and ends the attempts.
pub open spec fn retried_upsert(m: Map<int, u64>, p: ResamplePoint, outcomes: Seq<bool>) -> Map<
    int,
    u64,
>
    decreases outcomes.len(),
{
    if outcomes.len() == 0 {
        m
    } else if outcomes[0] {
        m.insert(p.timestamp as int, p.price)
    } else {
        retried_upsert(m, p, outcomes.drop_first())
    }
}

/// Retry durability: however many failed attempts precede the first
/// accepted one, the store ends with exactly the one keyed row written,
/// exactly as if the write had succeeded at once — no partial and no
/// duplicate state.
pub proof fn lemma_retry_durability(m: Map<int, u64>, p: ResamplePoint, outcomes: Seq<bool>)
    requires
        exists|k: int| 0 <= k < outcomes.len() && outcomes[k],
    ensures
        retried_upsert(m, p, outcomes) == m.insert(p.timestamp as int, p.price),
    decreases outcomes.len(),
{
    if !outcomes[0] {
        let k0: int = choose|k0: int| 0 <= k0 < outcomes.len() && outcomes[k0];
        assert(outcomes.drop_first()[k0 - 1]);
        lemma_retry_durability(m, p, outcomes.drop_first());
    }
}

/// Runs one point's write loop against an in-memory series, the store's
/// answer to each attempt given in order; stops at the first accepted
/// attempt. Returns whether the write landed; with no accepted attempt in
/// `outcomes` the series is untouched (the real writer would still be
/// retrying).
pub fn upsert_with_outcomes(
    series: &mut ResampledSeries,
    p: ResamplePoint,
    outcomes: &Vec<bool>,
) -> (landed: bool)
    requires
        old(series).wf(),
    ensures
        final(series).wf(),
        final(series)@ == retried_upsert(old(series)@, p, outcomes@),
        landed == exists|k: int| 0 <= k < outcomes@.len() && outcomes@[k],
{
    let mut a: usize = 0;
    proof {
        assert(outcomes@.skip(0) =~= outcomes@);
    }
    while a < outcomes.len()
        invariant
            old(series).wf(),
            series == old(series),
            a <= outcomes@.len(),
            forall|k: int| 0 <= k < a ==> !outcomes@[k],
            retried_upsert(old(series)@, p, outcomes@) == retried_upsert(
                old(series)@,
                p,
                outcomes@.skip(a as int),
            ),
        decreases outcomes@.len() - a,
    {
        let accepted = outcomes[a];
        let d = retry_decision(accepted);
        if matches!(d, RetryDecision::Proceed) {
            proof {
                assert(outcomes@.skip(a as int)[0]);
                assert(outcomes@[a as int]);
            }
            series.upsert(p);
            return true;
        }
        proof {
            assert(!outcomes@.skip(a as int)[0]);
            assert(outcomes@.skip(a as int).drop_first() =~= outcomes@.skip(a as int + 1));
        }
        a += 1;
    }
    proof {
        assert(outcomes@.skip(outcomes@.len() as int) =~= Seq::<bool>::empty());
    }
    false
}

} // verus!
