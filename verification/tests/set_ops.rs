use timekeep_rs::AtomicInterval;
use timekeep_rs::IntervalSet;

#[test]
fn test_interval_from_atomic_interval() {
    let atomic_interval = AtomicInterval::closed(1, 5);
    let interval_set: IntervalSet = IntervalSet::from(atomic_interval.clone());
    assert_eq!(interval_set.intervals.len(), 1);
    assert_eq!(interval_set.intervals[0], atomic_interval);
}

#[test]
fn test_union_between_two_overlapping_intervals() {
    let interval1 = AtomicInterval::closed(1, 3);
    let interval2 = AtomicInterval::closed(4, 7);
    let interval3 = AtomicInterval::closed(2, 4);
    let interval4 = AtomicInterval::closed(7, 8);
    let union = IntervalSet::from(interval1).union(&IntervalSet::from(interval2));
    let union = union.union(&IntervalSet::from(interval3));
    let union = union.union(&IntervalSet::from(interval4));
    assert_eq!(union.intervals.len(), 1);
    assert_eq!(union.intervals[0], AtomicInterval::closed(1, 8));
}

#[test]
fn test_union_between_two_disjoint_intervals() {
    let interval1 = AtomicInterval::closed(1, 3);
    let interval2 = AtomicInterval::closed(4, 7);
    let interval3 = AtomicInterval::closed(5, 8);
    let union = IntervalSet::from(interval1).union(&IntervalSet::from(interval2));
    let union = union.union(&IntervalSet::from(interval3));
    assert_eq!(union.intervals.len(), 2);
    assert_eq!(union.intervals[0], AtomicInterval::closed(1, 3));
    assert_eq!(union.intervals[1], AtomicInterval::closed(4, 8));
}

#[test]
fn set_test_intersection_between_two_overlapping_intervals() {
    let interval1 = AtomicInterval::closed(1, 5);
    let interval2 = AtomicInterval::closed(3, 7);
    let interval1 = IntervalSet::from(interval1);
    let interval2 = IntervalSet::from(interval2);
    let intersection = interval1.intersection(&interval2);
    assert_eq!(intersection.intervals.len(), 1);
    assert_eq!(intersection.intervals[0], AtomicInterval::closed(3, 5));
}

#[test]
fn set_test_intersection_between_two_disjoint_intervals() {
    let interval1 = AtomicInterval::closed(1, 3);
    let interval2 = AtomicInterval::closed(4, 7);
    let interval1 = IntervalSet::from(interval1);
    let interval2 = IntervalSet::from(interval2);
    let intersection = interval1.intersection(&interval2);
    assert!(intersection.is_empty());
}

#[test]
fn set_test_difference_between_two_overlapping_intervals() {
    let interval1 = AtomicInterval::closed(1, 5);
    let interval2 = AtomicInterval::closed(3, 7);
    let interval1 = IntervalSet::from(interval1);
    let interval2 = IntervalSet::from(interval2);
    let difference = interval1.difference(&interval2);
    assert_eq!(difference.intervals.len(), 1);
    assert_eq!(difference.intervals[0], AtomicInterval::closed_open(1, 3));
}

#[test]
fn set_test_difference_between_two_disjoint_intervals() {
    let interval1 = AtomicInterval::closed(1, 3);
    let interval2 = AtomicInterval::closed(4, 7);
    let interval1 = IntervalSet::from(interval1);
    let interval2 = IntervalSet::from(interval2);
    let difference = interval1.difference(&interval2);
    assert_eq!(difference.intervals.len(), 1);
    assert_eq!(difference.intervals[0], AtomicInterval::closed(1, 3));
}

#[test]
fn test_new_set_is_empty() {
    let set = IntervalSet::new();
    assert!(set.is_empty());
    assert_eq!(set.intervals.len(), 0);
    let nonempty = IntervalSet::from(AtomicInterval::closed(1, 2));
    assert!(!nonempty.is_empty());
}

#[test]
fn test_union_with_empty_set() {
    let set = IntervalSet::from(AtomicInterval::closed(1, 5));
    let empty = IntervalSet::new();
    let union = set.union(&empty);
    assert_eq!(union.intervals.len(), 1);
    assert_eq!(union.intervals[0], AtomicInterval::closed(1, 5));
}

#[test]
fn test_intersection_with_empty_set() {
    let set = IntervalSet::from(AtomicInterval::closed(1, 5));
    let empty = IntervalSet::new();
    let intersection = set.intersection(&empty);
    assert!(intersection.is_empty());
}

#[test]
fn test_difference_with_empty_set() {
    let set = IntervalSet::from(AtomicInterval::closed(1, 5));
    let empty = IntervalSet::new();
    let difference = set.difference(&empty);
    assert_eq!(difference.intervals.len(), 1);
    assert_eq!(difference.intervals[0], AtomicInterval::closed(1, 5));
    let nothing = empty.difference(&set);
    assert!(nothing.is_empty());
}

#[test]
fn test_union_merges_point_into_open_end() {
    // [1, 5) and the point [5, 5] meet with complementary inclusivity,
    // so the union closes the range.
    let set = IntervalSet::from(AtomicInterval::closed_open(1, 5));
    let point = IntervalSet::from(AtomicInterval::point(5));
    let union = set.union(&point);
    assert_eq!(union.intervals.len(), 1);
    assert_eq!(union.intervals[0], AtomicInterval::closed(1, 5));
}

#[test]
fn test_union_keeps_one_point_gap() {
    // (1, 5) and (5, 9) both exclude 5: the single missing point is a
    // genuine gap, and the two ranges stay separate.
    let left = IntervalSet::from(AtomicInterval::open(1, 5));
    let right = IntervalSet::from(AtomicInterval::open(5, 9));
    let union = left.union(&right);
    assert_eq!(union.intervals.len(), 2);
    assert_eq!(union.intervals[0], AtomicInterval::open(1, 5));
    assert_eq!(union.intervals[1], AtomicInterval::open(5, 9));
}

#[test]
fn test_difference_fans_out_across_set() {
    // Subtracting two disjoint middles from one range leaves three parts.
    let base = IntervalSet::from(AtomicInterval::closed(0, 10));
    let holes = IntervalSet::from(AtomicInterval::closed(2, 3)).union(&IntervalSet::from(
        AtomicInterval::closed(6, 7),
    ));
    let difference = base.difference(&holes);
    assert_eq!(difference.intervals.len(), 3);
    assert_eq!(difference.intervals[0], AtomicInterval::closed_open(0, 2));
    assert_eq!(difference.intervals[1], AtomicInterval::open(3, 6));
    assert_eq!(difference.intervals[2], AtomicInterval::open_closed(7, 10));
}

#[test]
fn test_difference_cut_at_exclusive_bound() {
    // The remainder is closed off by an exclusive bound at the cut value
    // even where the subtracted range itself excludes that value.
    let base = IntervalSet::from(AtomicInterval::closed(1, 5));
    let cut = IntervalSet::from(AtomicInterval::open(3, 7));
    let difference = base.difference(&cut);
    assert_eq!(difference.intervals.len(), 1);
    assert_eq!(difference.intervals[0], AtomicInterval::closed_open(1, 3));
}
