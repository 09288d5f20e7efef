use fee_buckets::buckets::{classify, create_buckets_limits, ConfigError, RATE_SCALE};

#[test]
fn limits_for_fifty_percent_up_to_five_hundred() {
    let limits = create_buckets_limits(50, 500 * RATE_SCALE).unwrap();
    assert_eq!(
        limits,
        vec![
            1500, 2250, 3375, 5062, 7593, 11390, 17085, 25628, 38443, 57665, 86497, 129746,
            194619, 291929, 437893, 656840
        ]
    );
}

#[test]
fn limits_strictly_increasing_and_last_reaches_upper() {
    for (p, upper) in [(1u32, 2_000u64), (10, 2_000), (50, 500_000), (300, 1_000_000), (7, 1_001)] {
        let limits = create_buckets_limits(p, upper).unwrap();
        assert!(!limits.is_empty());
        for w in limits.windows(2) {
            assert!(w[0] < w[1]);
        }
        let last = *limits.last().unwrap();
        assert!(last >= upper as u128);
        for l in &limits[..limits.len() - 1] {
            assert!(*l < upper as u128);
        }
    }
}

#[test]
fn limits_ten_percent_up_to_two() {
    let limits = create_buckets_limits(10, 2 * RATE_SCALE).unwrap();
    assert_eq!(limits, vec![1100, 1210, 1331, 1464, 1610, 1771, 1948, 2143]);
}

#[test]
fn limits_one_percent_counts() {
    assert_eq!(create_buckets_limits(1, 1_295).unwrap().len(), 26);
    assert_eq!(create_buckets_limits(1, 10 * RATE_SCALE).unwrap().len(), 232);
    assert_eq!(create_buckets_limits(1, 1000 * RATE_SCALE).unwrap().len(), 695);
}

#[test]
fn limits_up_to_largest_limit() {
    let limits = create_buckets_limits(1, u64::MAX).unwrap();
    assert!(*limits.last().unwrap() >= u64::MAX as u128);
    assert!(limits[limits.len() - 2] < u64::MAX as u128);
}

#[test]
fn limits_zero_increment_refused() {
    assert_eq!(create_buckets_limits(0, 500_000), Err(ConfigError::InvalidBucketConfig));
}

#[test]
fn limits_zero_upper_refused() {
    assert_eq!(create_buckets_limits(10, 0), Err(ConfigError::InvalidBucketConfig));
}

#[test]
fn limits_upper_at_baseline_empty() {
    assert_eq!(create_buckets_limits(10, RATE_SCALE), Ok(vec![]));
    assert_eq!(create_buckets_limits(10, 1), Ok(vec![]));
}

#[test]
fn limits_huge_increment_single_bucket() {
    let limits = create_buckets_limits(u32::MAX, 2_000).unwrap();
    assert_eq!(limits, vec![1000u128 * (100 + u32::MAX as u128) / 100]);
}

#[test]
fn classify_first_limit_above() {
    let limits: Vec<u128> = vec![1500, 2250, 3375];
    assert_eq!(classify(0, &limits), 0);
    assert_eq!(classify(1499, &limits), 0);
    assert_eq!(classify(1500, &limits), 1);
    assert_eq!(classify(2000, &limits), 1);
    assert_eq!(classify(2250, &limits), 2);
    assert_eq!(classify(3374, &limits), 2);
}

#[test]
fn classify_overflow_bucket() {
    let limits: Vec<u128> = vec![1500, 2250, 3375];
    assert_eq!(classify(3375, &limits), 2);
    assert_eq!(classify(u128::MAX, &limits), 2);
    assert_eq!(classify(5, &vec![1]), 0);
}

#[test]
fn classify_monotonic_on_samples() {
    let limits = create_buckets_limits(20, 100_000).unwrap();
    let mut previous = 0usize;
    for rate in (0u128..200_000).step_by(97) {
        let b = classify(rate, &limits);
        assert!(b >= previous);
        assert!(b < limits.len());
        previous = b;
    }
    let unsorted: Vec<u128> = vec![5000, 1000, 3000];
    assert_eq!(classify(500, &unsorted), 0);
    assert_eq!(classify(2000, &unsorted), 0);
    assert_eq!(classify(6000, &unsorted), 2);
}
