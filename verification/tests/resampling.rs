use resampler::config::Config;
use resampler::fill::build_plan;
use resampler::market::{resample_pass, Market};
use resampler::select::select_buckets;
use resampler::series::ResampledSeries;
use resampler::types::Tick;

fn tick(timestamp: i64, price: u64) -> Tick {
    Tick { timestamp, price }
}

fn market_for(securities: &[&str], interval_ms: i64) -> Market {
    let names: Vec<String> = securities.iter().map(|s| s.to_string()).collect();
    Market::new(Config::new(names, interval_ms))
}

#[test]
fn selection_keeps_last_observation_per_bucket() {
    let ticks = vec![tick(100, 1), tick(1400, 2), tick(1550, 3)];
    let sel = select_buckets(&ticks, -2000, 1000, 1000);
    assert_eq!(sel.len(), 2);
    assert_eq!(sel[0].bucket, 0);
    assert_eq!(sel[0].observed_at, 100);
    assert_eq!(sel[0].price, 1);
    assert_eq!(sel[1].bucket, 1000);
    assert_eq!(sel[1].observed_at, 1550);
    assert_eq!(sel[1].price, 3);
}

#[test]
fn selection_orders_out_of_order_ticks() {
    let ticks = vec![tick(2100, 9), tick(50, 4), tick(1200, 6)];
    let sel = select_buckets(&ticks, -2000, 2000, 1000);
    let buckets: Vec<i64> = sel.iter().map(|e| e.bucket).collect();
    assert_eq!(buckets, vec![0, 1000, 2000]);
}

#[test]
fn selection_caps_buckets_per_cycle() {
    let mut ticks = Vec::new();
    for k in 0..150i64 {
        ticks.push(tick(k * 1000, k as u64));
    }
    let sel = select_buckets(&ticks, -2000, 149_000, 1000);
    assert_eq!(sel.len(), 100);
    assert_eq!(sel[99].bucket, 99_000);
}

#[test]
fn capped_cycle_resumes_on_the_next_one() {
    let mut market = market_for(&["X"], 1000);
    let mut raw: Vec<Tick> = Vec::new();
    for k in 0..150i64 {
        raw.push(tick(k * 1000, k as u64));
    }
    market.run_security(0, &raw);
    assert_eq!(market.series_len(0), 100);
    assert_eq!(market.get_price(0, 99_000), Some(99));
    assert_eq!(market.get_price(0, 100_000), None);
    market.run_security(0, &raw);
    assert_eq!(market.series_len(0), 150);
    assert_eq!(market.get_price(0, 100_000), Some(100));
    assert_eq!(market.get_price(0, 149_000), Some(149));
}

#[test]
fn gap_fill_carries_previous_price() {
    let ticks = vec![tick(0, 10), tick(5000, 20)];
    let sel = select_buckets(&ticks, -2000, 5000, 1000);
    let plan = build_plan(&sel, 1000);
    let got: Vec<(i64, u64)> = plan.iter().map(|p| (p.timestamp, p.price)).collect();
    assert_eq!(
        got,
        vec![(0, 10), (1000, 10), (2000, 10), (3000, 10), (4000, 10), (5000, 20)]
    );
}

#[test]
fn end_to_end_scenario() {
    let mut market = market_for(&["X"], 1000);
    let raw = vec![vec![tick(100, 1), tick(1400, 2), tick(1550, 3)]];
    market.run_cycle(&raw);
    assert_eq!(market.series_len(0), 2);
    assert_eq!(market.get_price(0, 0), Some(1));
    assert_eq!(market.get_price(0, 1000), Some(3));
}

#[test]
fn rerunning_on_same_raw_data_changes_nothing() {
    let mut market = market_for(&["X"], 1000);
    let raw = vec![tick(100, 1), tick(1400, 2), tick(3100, 7)];
    market.run_security(0, &raw);
    let len_once = market.series_len(0);
    let once: Vec<Option<u64>> = (0..5).map(|k| market.get_price(0, k * 1000)).collect();
    market.run_security(0, &raw);
    let len_twice = market.series_len(0);
    let twice: Vec<Option<u64>> = (0..5).map(|k| market.get_price(0, k * 1000)).collect();
    assert_eq!(len_once, len_twice);
    assert_eq!(once, twice);
}

#[test]
fn late_arrival_updates_bucket_in_place() {
    let mut market = market_for(&["X"], 1000);
    market.run_security(0, &vec![tick(100, 1), tick(2500, 5)]);
    assert_eq!(market.get_price(0, 1000), Some(1));
    // A tick inside the already-written bucket 1000 arrives late, still
    // within the recheck window of the high-water mark.
    market.run_security(0, &vec![tick(100, 1), tick(2500, 5), tick(1400, 9)]);
    assert_eq!(market.series_len(0), 3);
    assert_eq!(market.get_price(0, 0), Some(1));
    assert_eq!(market.get_price(0, 1000), Some(9));
    assert_eq!(market.get_price(0, 2000), Some(5));
}

#[test]
fn out_of_recheck_window_tick_is_not_applied() {
    let mut market = market_for(&["X"], 1000);
    market.run_security(0, &vec![tick(100, 1), tick(5000, 5)]);
    assert_eq!(market.get_price(0, 0), Some(1));
    let len_before = market.series_len(0);
    // A tick for bucket 0 arrives, but bucket 0 is older than the
    // high-water mark minus the recheck window (5000 - 2000 = 3000): the
    // accepted staleness bound keeps it out.
    market.run_security(0, &vec![tick(100, 1), tick(5000, 5), tick(900, 7)]);
    assert_eq!(market.get_price(0, 0), Some(1));
    assert_eq!(market.series_len(0), len_before);
}

#[test]
fn securities_do_not_interfere() {
    let mut market = market_for(&["A", "B"], 1000);
    market.run_security(0, &vec![tick(100, 11), tick(1100, 12)]);
    assert_eq!(market.series_len(1), 0);
    assert_eq!(market.get_price(1, 0), None);
    market.run_security(1, &vec![tick(500, 77)]);
    assert_eq!(market.get_price(0, 0), Some(11));
    assert_eq!(market.get_price(0, 1000), Some(12));
    assert_eq!(market.get_price(1, 0), Some(77));
    assert_eq!(market.series_len(0), 2);
    assert_eq!(market.series_len(1), 1);
}

#[test]
fn cycle_fans_out_over_all_securities() {
    let mut market = market_for(&["A", "B"], 1000);
    let raw = vec![vec![tick(0, 1), tick(2000, 3)], vec![tick(100, 8)]];
    market.run_cycle(&raw);
    assert_eq!(market.series_len(0), 3);
    assert_eq!(market.get_price(0, 1000), Some(1));
    assert_eq!(market.series_len(1), 1);
    assert_eq!(market.get_price(1, 0), Some(8));
}

#[test]
fn empty_raw_data_skips_the_security() {
    let mut market = market_for(&["X"], 1000);
    market.run_security(0, &Vec::new());
    assert_eq!(market.series_len(0), 0);
}

#[test]
fn pass_against_plain_series() {
    let mut series = ResampledSeries::new();
    resample_pass(&mut series, &vec![tick(10, 2), tick(2040, 4)], 1000);
    assert_eq!(series.len(), 3);
    assert_eq!(series.get(0), Some(2));
    assert_eq!(series.get(1000), Some(2));
    assert_eq!(series.get(2000), Some(4));
    assert_eq!(series.get(3000), None);
    assert_eq!(series.max_timestamp(), Some(2000));
}
