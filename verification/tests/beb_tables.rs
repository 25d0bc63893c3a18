use backoff_dist::beb::generate_beb;
use backoff_dist::ConfigError;

#[test]
fn beb_level_zero_is_point_mass() {
    // Level 0 is exactly [1.0, 0.0, 0.0, ...] for every retry count.
    for retries in 1..=10usize {
        let tab = generate_beb(retries).unwrap();
        assert_eq!(tab.den_exps[0], 0);
        assert_eq!(tab.rows[0][0], 1);
        for t in 1..tab.rows[0].len() {
            assert_eq!(tab.rows[0][t], 0);
        }
    }
}

#[test]
fn beb_shape() {
    let tab = generate_beb(5).unwrap();
    assert_eq!(tab.rows.len(), 6);
    assert_eq!(tab.den_exps.len(), 6);
    for row in &tab.rows {
        assert_eq!(row.len(), 64);
    }
    // Denominator exponents 0, 1, 3, 6, 10, 15.
    assert_eq!(tab.den_exps, vec![0, 1, 3, 6, 10, 15]);
}

#[test]
fn beb_level_one_is_half_at_slots_one_and_two() {
    // Smear 2 applied to the point mass: 0.5 at slots 1 and 2.
    let tab = generate_beb(5).unwrap();
    assert_eq!(tab.den_exps[1], 1);
    let expected: Vec<u64> = (0..64).map(|t| if t == 1 || t == 2 { 1 } else { 0 }).collect();
    assert_eq!(tab.rows[1], expected);
}

#[test]
fn beb_level_two_literal() {
    // Level 2 is the convolution of the level-1 halves with a
    // width-4 window: the half at slot 1 spreads 0.5 * 0.25 into
    // slots 2..=5 and the half at slot 2 into slots 3..=6, giving
    // [0, 0, 0.125, 0.25, 0.25, 0.25, 0.125, 0, ...] over the
    // denominator 2^3.
    let tab = generate_beb(5).unwrap();
    assert_eq!(tab.den_exps[2], 3);
    let mut expected: Vec<u64> = vec![0; 64];
    expected[2] = 1;
    expected[3] = 2;
    expected[4] = 2;
    expected[5] = 2;
    expected[6] = 1;
    assert_eq!(tab.rows[2], expected);
}

#[test]
fn beb_row_sums_at_most_one() {
    // Each level's numerators sum to at most its denominator; with the
    // doubled table length no mass actually reaches the truncation
    // window here, so the sums are exact.
    let tab = generate_beb(5).unwrap();
    for k in 0..tab.rows.len() {
        let sum: u64 = tab.rows[k].iter().sum();
        let den = 1u64 << tab.den_exps[k];
        assert!(sum <= den);
        assert_eq!(sum, den);
    }
}

#[test]
fn beb_zero_retries_rejected() {
    assert!(matches!(generate_beb(0), Err(ConfigError::RetryCountZero)));
}
