use timekeep_rs::AtomicInterval;
use timekeep_rs::IntervalSet;

#[test]
fn test_atomic_rendering_per_bound_kind() {
    assert_eq!(AtomicInterval::closed(1, 5).to_string(), "[1, 5]");
    assert_eq!(AtomicInterval::open(1, 5).to_string(), "(1, 5)");
    assert_eq!(AtomicInterval::closed_open(1, 5).to_string(), "[1, 5)");
    assert_eq!(AtomicInterval::open_closed(1, 5).to_string(), "(1, 5]");
    assert_eq!(AtomicInterval::point(7).to_string(), "[7, 7]");
}

#[test]
fn test_atomic_rendering_negative_values() {
    assert_eq!(AtomicInterval::closed(-12, -3).to_string(), "[-12, -3]");
}

#[test]
fn test_set_rendering() {
    let interval = IntervalSet::from(AtomicInterval::closed(1, 5));
    assert_eq!(interval.to_string(), "[[1, 5]]");
}

#[test]
fn test_set_rendering_empty_and_multiple() {
    assert_eq!(IntervalSet::new().to_string(), "[]");
    let two = IntervalSet::from(AtomicInterval::closed(1, 3)).union(&IntervalSet::from(
        AtomicInterval::open(5, 8),
    ));
    assert_eq!(two.to_string(), "[[1, 3](5, 8)]");
}
