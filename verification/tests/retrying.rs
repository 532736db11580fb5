use resampler::retry::{retry_decision, upsert_with_outcomes, RetryDecision};
use resampler::series::ResampledSeries;
use resampler::types::ResamplePoint;
use resampler::RETRY_DELAY_MS;

#[test]
fn accepted_write_proceeds() {
    assert_eq!(retry_decision(true), RetryDecision::Proceed);
}

#[test]
fn rejected_write_retries_after_fixed_delay() {
    assert_eq!(
        retry_decision(false),
        RetryDecision::RetryAfter { delay_ms: RETRY_DELAY_MS }
    );
    assert_eq!(RETRY_DELAY_MS, 50);
}

#[test]
fn write_that_fails_then_succeeds_lands_exactly_once() {
    let mut series = ResampledSeries::new();
    series.upsert(ResamplePoint { timestamp: 0, price: 1 });
    let landed = upsert_with_outcomes(
        &mut series,
        ResamplePoint { timestamp: 1000, price: 42 },
        &vec![false, false, false, true],
    );
    assert!(landed);
    assert_eq!(series.len(), 2);
    assert_eq!(series.get(0), Some(1));
    assert_eq!(series.get(1000), Some(42));

    // The same write accepted at once gives the identical store state.
    let mut direct = ResampledSeries::new();
    direct.upsert(ResamplePoint { timestamp: 0, price: 1 });
    let landed_direct =
        upsert_with_outcomes(&mut direct, ResamplePoint { timestamp: 1000, price: 42 }, &vec![true]);
    assert!(landed_direct);
    assert_eq!(direct.len(), series.len());
    assert_eq!(direct.get(0), series.get(0));
    assert_eq!(direct.get(1000), series.get(1000));
}

#[test]
fn write_never_accepted_leaves_store_untouched() {
    let mut series = ResampledSeries::new();
    series.upsert(ResamplePoint { timestamp: 0, price: 1 });
    let landed = upsert_with_outcomes(
        &mut series,
        ResamplePoint { timestamp: 1000, price: 42 },
        &vec![false, false],
    );
    assert!(!landed);
    assert_eq!(series.len(), 1);
    assert_eq!(series.get(1000), None);
}

#[test]
fn upsert_overwrites_conflicting_key_without_duplicate() {
    let mut series = ResampledSeries::new();
    series.upsert(ResamplePoint { timestamp: 1000, price: 2 });
    series.upsert(ResamplePoint { timestamp: 1000, price: 3 });
    assert_eq!(series.len(), 1);
    assert_eq!(series.get(1000), Some(3));
}
