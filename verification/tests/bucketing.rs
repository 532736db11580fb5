use resampler::bucket::{bucket, high_watermark, low_watermark, recheck_window};

#[test]
fn bucket_rounds_down_to_grid() {
    assert_eq!(bucket(0, 1000), 0);
    assert_eq!(bucket(999, 1000), 0);
    assert_eq!(bucket(1000, 1000), 1000);
    assert_eq!(bucket(1550, 1000), 1000);
    assert_eq!(bucket(123_456_789, 60_000), 123_420_000);
}

#[test]
fn bucket_bounds_and_alignment() {
    for &(t, i) in &[
        (0i64, 1i64),
        (7, 3),
        (999, 1000),
        (1550, 1000),
        (86_400_000, 60_000),
        (i64::MAX - 1, 1_000_000),
    ] {
        let b = bucket(t, i);
        assert!(b <= t);
        assert!((t as i128) < b as i128 + i as i128);
        assert_eq!(b % i, 0);
    }
}

#[test]
fn recheck_window_has_floor() {
    assert_eq!(recheck_window(500), 2000);
    assert_eq!(recheck_window(1000), 2000);
    assert_eq!(recheck_window(1500), 3000);
    assert_eq!(recheck_window(5000), 10_000);
}

#[test]
fn watermarks() {
    assert_eq!(high_watermark(1550, 1000), 1000);
    assert_eq!(low_watermark(Some(10_000), 2000), 8000);
    assert_eq!(low_watermark(None, 2000), -2000);
}
