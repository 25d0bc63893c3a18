use backoff_dist::mbeb::generate_mbeb;
use backoff_dist::ConfigError;

#[test]
fn mbeb_levels_occupy_exact_windows() {
    // Level k holds 1/2^k on exactly the timeslots
    // [2^k - 1, 2^k - 1 + 2^k) and zero elsewhere.
    let tab = generate_mbeb(5).unwrap();
    assert_eq!(tab.rows.len(), 6);
    for k in 0..=5usize {
        assert_eq!(tab.den_exps[k], k as u64);
        let start = (1usize << k) - 1;
        let end = start + (1usize << k);
        for t in 0..64 {
            let expected = if start <= t && t < end { 1 } else { 0 };
            assert_eq!(tab.rows[k][t], expected, "level {} slot {}", k, t);
        }
    }
}

#[test]
fn mbeb_every_level_sums_to_exactly_one() {
    // Numerators of level k total exactly 2^k, its denominator.
    for retries in 1..=10usize {
        let tab = generate_mbeb(retries).unwrap();
        for k in 0..tab.rows.len() {
            let sum: u64 = tab.rows[k].iter().sum();
            assert_eq!(sum, 1u64 << tab.den_exps[k]);
        }
    }
}

#[test]
fn mbeb_zero_retries_rejected() {
    assert!(matches!(generate_mbeb(0), Err(ConfigError::RetryCountZero)));
}
