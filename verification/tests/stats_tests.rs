use station_stats::decimal::Decimal;
use station_stats::stats::{Mean, StationData};

// One billionth is the decimal unit: 1.0 is 1_000_000_000 mantissa.
const UNIT: i128 = 1_000_000_000;

#[test]
fn test_mean() {
    let mut mean = Mean::new(Decimal::new(0));
    assert!(mean.update(Decimal::new(2 * UNIT)));
    assert_eq!(mean.value(), Some(Decimal::new(UNIT)));
    assert!(mean.update(Decimal::new(UNIT)));
    assert_eq!(mean.value(), Some(Decimal::new(UNIT)));
    assert!(mean.update(Decimal::new(80 * UNIT)));
    assert_eq!(mean.value(), Some(Decimal::new(20 * UNIT + 750_000_000)));
}

#[test]
fn mean_indivisible_is_none() {
    let mut mean = Mean::new(Decimal::new(UNIT));
    assert!(mean.update(Decimal::new(2 * UNIT)));
    // (1.0 + 2.0) / 2 is 1.5 exactly, representable.
    assert_eq!(mean.value(), Some(Decimal::new(1_500_000_000)));
    assert!(mean.update(Decimal::new(0)));
    // 3.0 / 3 = 1.0.
    assert_eq!(mean.value(), Some(Decimal::new(UNIT)));
    assert!(mean.update(Decimal::new(1)));
    // (3 * 10^9 + 1) / 4 is not a whole number of billionths.
    assert_eq!(mean.value(), None);
}

#[test]
fn mean_update_overflow_reports_false() {
    let mut mean = Mean::new(Decimal::new(i128::MAX));
    let before = mean;
    assert!(!mean.update(Decimal::new(1)));
    assert_eq!(mean, before);
    // A value that fits still folds.
    assert!(mean.update(Decimal::new(-1)));
    assert_eq!(mean.count, 2);
}

#[test]
fn single_value_key_stats() {
    let sd = StationData::new(Decimal::from_units(41));
    assert_eq!(sd.min, Decimal::new(41 * UNIT));
    assert_eq!(sd.max, Decimal::new(41 * UNIT));
    assert_eq!(sd.mean.value(), Some(Decimal::from_units(41)));
    assert_eq!(sd.mean.count, 1);
}

#[test]
fn station_min_max_track_extrema() {
    let mut sd = StationData::new(Decimal::new(2 * UNIT));
    assert!(sd.update(Decimal::new(UNIT)));
    assert!(sd.update(Decimal::new(80 * UNIT)));
    assert_eq!(sd.min, Decimal::new(UNIT));
    assert_eq!(sd.max, Decimal::new(80 * UNIT));
    assert_eq!(sd.mean.sum, 83 * UNIT);
    assert_eq!(sd.mean.count, 3);
}

#[test]
fn fold_order_does_not_change_mean() {
    let values: Vec<i128> = vec![3 * UNIT, -7 * UNIT, 500_000_000, 12 * UNIT, 0];
    let mut forward = Mean::new(Decimal::new(values[0]));
    for &v in &values[1..] {
        assert!(forward.update(Decimal::new(v)));
    }
    let mut backward = Mean::new(Decimal::new(values[values.len() - 1]));
    for &v in values[..values.len() - 1].iter().rev() {
        assert!(backward.update(Decimal::new(v)));
    }
    assert_eq!(forward.sum, backward.sum);
    assert_eq!(forward.count, backward.count);
    assert_eq!(forward.value(), backward.value());
}

#[test]
fn large_scale_mean_is_exact() {
    // Ten million values of similar magnitude: the mean is carried exactly,
    // so there is no drift at all.
    let mut mean = Mean::new(Decimal::new(24 * UNIT));
    let mut sd = StationData::new(Decimal::new(24 * UNIT));
    for i in 1..10_000_000u64 {
        let v = if i % 2 == 0 { 24 * UNIT } else { 26 * UNIT };
        assert!(mean.update(Decimal::new(v)));
        assert!(sd.update(Decimal::new(v)));
    }
    assert_eq!(mean.count, 10_000_000);
    // 5 million 24.0s and 5 million 26.0s: the mean is exactly 25.0.
    assert_eq!(mean.value(), Some(Decimal::new(25 * UNIT)));
    assert_eq!(sd.min, Decimal::new(24 * UNIT));
    assert_eq!(sd.max, Decimal::new(26 * UNIT));
}
