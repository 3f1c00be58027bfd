use ledger_engine::time::{Instant, TimeComparisonOperator};

#[test]
fn instant_arithmetic() {
    let t = Instant::new(1_000);
    assert_eq!(t.add_seconds(5), Some(Instant::new(1_005)));
    assert_eq!(t.add_minutes(2), Some(Instant::new(1_120)));
    assert_eq!(t.add_hours(1), Some(Instant::new(4_600)));
    assert_eq!(t.add_days(-1), Some(Instant::new(1_000 - 86_400)));
    assert_eq!(Instant::new(i64::MAX).add_seconds(1), None);
    assert_eq!(t.add_days(i64::MAX / 1000), None);
}

#[test]
fn instant_comparison() {
    let a = Instant::new(10);
    let b = Instant::new(20);
    assert!(a.compare(b, TimeComparisonOperator::Lt));
    assert!(a.compare(b, TimeComparisonOperator::Lte));
    assert!(!a.compare(b, TimeComparisonOperator::Gt));
    assert!(b.compare(a, TimeComparisonOperator::Gte));
    assert!(a.compare(a, TimeComparisonOperator::Eq));
}
