use bilet_takip::config::Thresholds;

#[test]
fn significance() {
    // 5% and 50 TL
    let t = Thresholds { min_drop_basis_points: 500, min_drop_kurus: 5_000 };
    assert!(t.is_significant(75_000, 37_500)); // 50%
    assert!(t.is_significant(145_000, 140_000)); // 50 TL
    assert!(!t.is_significant(145_000, 142_000)); // 30 TL, 2%
    assert!(!t.is_significant(100_000, 110_000)); // a rise
}

#[test]
fn significance_at_the_edges() {
    let t = Thresholds { min_drop_basis_points: 500, min_drop_kurus: 5_000 };
    assert!(t.is_significant(100_000, 95_000)); // exactly 5%
    assert!(!t.is_significant(100_000, 95_001));
    assert!(!t.is_significant(0, -10)); // no drop from a zero price
    assert!(!t.is_significant(100_000, 100_000));
}
