use backoff_dist::beb::generate_beb;
use backoff_dist::mbeb::generate_mbeb;
use backoff_dist::table::{compare_tables, render_row_sums};

#[test]
fn compare_reports_each_tables_denominator() {
    let beb = generate_beb(5).unwrap();
    let mbeb = generate_mbeb(5).unwrap();
    let cmp = compare_tables(&beb, &mbeb);
    assert_eq!(cmp.left_den_exp, 15);
    assert_eq!(cmp.right_den_exp, 5);
    assert_eq!(cmp.left_sums.len(), 64);
    assert_eq!(cmp.right_sums.len(), 64);
}

#[test]
fn compare_matches_render_row_sums() {
    // No information is lost through the comparison path: wherever
    // level 0 carries no mass (every slot but 0), the comparison's
    // marginal total equals the rendered row total.  At slot 0 the
    // difference is exactly level 0's rescaled point mass.
    let beb = generate_beb(5).unwrap();
    let mbeb = generate_mbeb(5).unwrap();
    let cmp = compare_tables(&beb, &mbeb);
    let beb_render = render_row_sums(&beb);
    let mbeb_render = render_row_sums(&mbeb);
    for t in 1..64 {
        assert_eq!(cmp.left_sums[t], beb_render[t]);
        assert_eq!(cmp.right_sums[t], mbeb_render[t]);
    }
    assert_eq!(cmp.left_sums[0], beb_render[0] + (1u64 << 15));
    assert_eq!(cmp.right_sums[0], mbeb_render[0] + (1u64 << 5));
}

#[test]
fn compare_mbeb_marginals_literal() {
    // MBEB marginal at slot t over 2^5: levels whose window covers t,
    // level k contributing 2^(5-k).
    let beb = generate_beb(5).unwrap();
    let mbeb = generate_mbeb(5).unwrap();
    let cmp = compare_tables(&beb, &mbeb);
    let mut expected: Vec<u64> = vec![0; 64];
    for k in 0..=5usize {
        let start = (1usize << k) - 1;
        for t in start..start + (1usize << k) {
            expected[t] += 1u64 << (5 - k);
        }
    }
    assert_eq!(cmp.right_sums, expected);
}

#[test]
fn compare_beb_marginals_literal_prefix() {
    // BEB marginal totals over 2^15 at the first slots: level 0 gives
    // 2^15 at slot 0; levels 1 and 2 give 0.5 + 0 at slot 1,
    // 0.5 + 0.125 at slot 2, and so on.
    let beb = generate_beb(5).unwrap();
    let mbeb = generate_mbeb(5).unwrap();
    let cmp = compare_tables(&beb, &mbeb);
    assert_eq!(cmp.left_sums[0], 1 << 15);
    // Slot 1: level 1 only: 0.5 * 2^15.
    let half = 1u64 << 14;
    // Levels 3, 4, 5 are zero at slots 1 and 2.
    assert_eq!(beb.rows[3][1], 0);
    assert_eq!(beb.rows[3][2], 0);
    assert_eq!(cmp.left_sums[1], half);
    // Slot 2: level 1 gives 0.5, level 2 gives 0.125.
    assert_eq!(cmp.left_sums[2], half + (1u64 << 12));
}
