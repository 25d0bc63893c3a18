use backoff_dist::ebj::{normalize, run_ebj, EbjConfig, EbjHistogram};
use backoff_dist::ConfigError;

fn base_config() -> EbjConfig {
    EbjConfig {
        retries: 3,
        paths: 100,
        buckets: 50,
        initial_interval: 1000,
        mult_num: 3,
        mult_den: 2,
        rand_num: 1,
        rand_den: 2,
    }
}

#[test]
fn ebj_deterministic_when_rand_factor_zero() {
    // With rand_factor = 0 every path walks the same arrival times:
    // intervals 1000, 1500, 2250, arrivals 1000, 2500, 4750.
    // max_time = 1000 * (3/2)^2 * 1 / (1 - 2/3) = 6750, bucket 135.
    let cfg = EbjConfig { rand_num: 0, rand_den: 1, ..base_config() };
    let tab = run_ebj(&cfg).unwrap();
    assert_eq!(tab.bucket_size, 135);
    assert_eq!(tab.num.len(), 3);
    let expected_buckets = [1000 / 135, 2500 / 135, 4750 / 135];
    for (k, row) in tab.num.iter().enumerate() {
        assert_eq!(row.len(), 50);
        for (b, &count) in row.iter().enumerate() {
            let expected = if b == expected_buckets[k] { 100 } else { 0 };
            assert_eq!(count, expected, "level {} bucket {}", k, b);
        }
    }
    // Peak of level 0 is 100 paths, so the denominator is 200 and the
    // peak value reads exactly one half.
    assert_eq!(tab.den, 200);
}

#[test]
fn ebj_every_level_counts_every_path() {
    // Whatever the samples, each path arrives exactly once per level.
    let cfg = base_config();
    let tab = run_ebj(&cfg).unwrap();
    for row in &tab.num {
        let sum: u64 = row.iter().sum();
        assert_eq!(sum, 100);
    }
    // The peak denominator is twice some level-0 count, at least as
    // large as twice each of them.
    let max0 = *tab.num[0].iter().max().unwrap();
    assert_eq!(tab.den, 2 * max0);
    assert!(max0 >= 1);
}

#[test]
fn ebj_mass_stays_in_reachable_band() {
    // All waits lie in [interval/2, 3*interval/2], so every arrival
    // time is at most the nominal maximum and lands in a real bucket.
    let cfg = base_config();
    let tab = run_ebj(&cfg).unwrap();
    // Latest possible arrivals: waits 1500, 2250, 3375 -> 1500, 3750, 7125;
    // earliest: 500, 1250, 2375.  max_time = 6750 * (3/2) = 10125,
    // bucket_size = 10125 / 50 = 202.
    assert_eq!(tab.bucket_size, 202);
    let lows = [500u64, 1250, 2375];
    let highs = [1500u64, 3750, 7125];
    for k in 0..3 {
        let blo = (lows[k] / 202) as usize;
        let bhi = (highs[k] / 202) as usize;
        for b in 0..50 {
            if b < blo || b > bhi {
                assert_eq!(tab.num[k][b], 0, "level {} bucket {}", k, b);
            }
        }
    }
}

#[test]
fn ebj_normalization_is_scale_invariant() {
    // Scaling every raw count by the same factor leaves every
    // normalized value, read as count/denominator, unchanged.
    let h = EbjHistogram { counts: vec![vec![1, 4, 2]], bucket_size: 10 };
    let t = normalize(h);
    assert_eq!(t.den, 8);
    let scaled = EbjHistogram { counts: vec![vec![3, 12, 6]], bucket_size: 10 };
    let ts = normalize(scaled);
    assert_eq!(ts.den, 24);
    for b in 0..3 {
        // Equal rationals: scaled_count / scaled_den == count / den.
        assert_eq!(ts.num[0][b] as u128 * t.den as u128, t.num[0][b] as u128 * ts.den as u128);
    }
}

#[test]
fn ebj_rejects_bad_configurations() {
    assert!(matches!(
        run_ebj(&EbjConfig { retries: 0, ..base_config() }),
        Err(ConfigError::RetryCountZero)
    ));
    assert!(matches!(
        run_ebj(&EbjConfig { paths: 0, ..base_config() }),
        Err(ConfigError::PathCountZero)
    ));
    assert!(matches!(
        run_ebj(&EbjConfig { buckets: 0, ..base_config() }),
        Err(ConfigError::BucketCountZero)
    ));
    assert!(matches!(
        run_ebj(&EbjConfig { initial_interval: 0, ..base_config() }),
        Err(ConfigError::IntervalZero)
    ));
    // A multiplier of exactly one makes the maximum time undefined.
    assert!(matches!(
        run_ebj(&EbjConfig { mult_num: 2, mult_den: 2, ..base_config() }),
        Err(ConfigError::MultiplierNotGreater)
    ));
    assert!(matches!(
        run_ebj(&EbjConfig { mult_num: 2, mult_den: 0, ..base_config() }),
        Err(ConfigError::MultiplierNotGreater)
    ));
    assert!(matches!(
        run_ebj(&EbjConfig { rand_num: 3, rand_den: 2, ..base_config() }),
        Err(ConfigError::RandFactorInvalid)
    ));
    assert!(matches!(
        run_ebj(&EbjConfig { rand_den: 0, ..base_config() }),
        Err(ConfigError::RandFactorInvalid)
    ));
    // The numerator of the maximum time overflows a machine word.
    assert!(matches!(
        run_ebj(&EbjConfig { initial_interval: u64::MAX, mult_num: 2, mult_den: 1, ..base_config() }),
        Err(ConfigError::Overflow)
    ));
    assert!(matches!(
        run_ebj(&EbjConfig { paths: u64::MAX, ..base_config() }),
        Err(ConfigError::Overflow)
    ));
    // Ticks too coarse: more buckets than the maximum time has ticks.
    assert!(matches!(
        run_ebj(&EbjConfig {
            retries: 1,
            initial_interval: 1,
            mult_num: 2,
            mult_den: 1,
            rand_num: 0,
            rand_den: 1,
            buckets: 1000,
            ..base_config()
        }),
        Err(ConfigError::BucketWidthZero)
    ));
}
