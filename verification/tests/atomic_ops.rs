use timekeep_rs::AtomicInterval;
use timekeep_rs::Bound;

#[test]
fn atomic_test_open_interval() {
    let interval = AtomicInterval::open(1, 5);
    assert_eq!(interval.left, Bound::Excluded(1));
    assert_eq!(interval.right, Bound::Excluded(5));
}

#[test]
fn atomic_test_closed_interval() {
    let interval = AtomicInterval::closed(1, 5);
    assert_eq!(interval.left, Bound::Included(1));
    assert_eq!(interval.right, Bound::Included(5));
}

#[test]
fn atomic_test_open_closed_interval() {
    let interval = AtomicInterval::open_closed(1, 5);
    assert_eq!(interval.left, Bound::Excluded(1));
    assert_eq!(interval.right, Bound::Included(5));
}

#[test]
fn atomic_test_closed_open_interval() {
    let interval = AtomicInterval::closed_open(1, 5);
    assert_eq!(interval.left, Bound::Included(1));
    assert_eq!(interval.right, Bound::Excluded(5));
}

#[test]
fn atomic_test_point_interval() {
    let interval = AtomicInterval::point(1);
    assert_eq!(interval.left, Bound::Included(1));
    assert_eq!(interval.right, Bound::Included(1));
}

#[test]
fn atomic_test_is_overlapping() {
    let interval1 = AtomicInterval::closed(1, 5);
    let interval2 = AtomicInterval::closed(4, 6);
    assert!(interval1.is_overlapping(&interval2));
}

#[test]
fn atomic_test_is_adjacent() {
    let interval1 = AtomicInterval::closed(1, 5);
    let interval2 = AtomicInterval::open_closed(5, 10);
    assert!(interval1.is_adjacent(&interval2));
}

#[test]
fn atomic_test_is_disjoint() {
    let interval1 = AtomicInterval::closed(1, 5);
    let interval2 = AtomicInterval::closed(6, 10);
    assert!(interval1.is_disjoint(&interval2));
}

#[test]
fn atomic_test_is_subset() {
    let interval1 = AtomicInterval::closed(2, 4);
    let interval2 = AtomicInterval::closed(1, 5);
    assert!(interval1.is_subset(&interval2));
}

#[test]
fn test_is_superset() {
    let interval1 = AtomicInterval::closed(1, 5);
    let interval2 = AtomicInterval::closed(2, 4);
    assert!(interval1.is_superset(&interval2));
}

#[test]
fn test_union_overlapping_intervals() {
    let interval1 = AtomicInterval::closed(1, 5);
    let interval2 = AtomicInterval::closed(4, 7);
    let merged = AtomicInterval::union(&interval1, &interval2);
    assert_eq!(merged.len(), 1);
    assert_eq!(merged.first().unwrap(), &AtomicInterval::closed(1, 7));
}

#[test]
fn test_union_adjacent_intervals() {
    let interval1 = AtomicInterval::closed(1, 5);
    let interval2 = AtomicInterval::closed(5, 7);
    let merged = AtomicInterval::union(&interval1, &interval2);
    assert_eq!(merged.len(), 1);
    assert_eq!(merged.first().unwrap(), &AtomicInterval::closed(1, 7));
}

#[test]
fn test_union_disjoint_intervals() {
    let interval1 = AtomicInterval::closed(1, 5);
    let interval2 = AtomicInterval::closed(6, 7);
    let merged = AtomicInterval::union(&interval1, &interval2);
    assert_eq!(merged.len(), 0);
}

#[test]
fn atomic_test_intersection_between_two_overlapping_intervals() {
    let interval1 = AtomicInterval::closed(1, 5);
    let interval2 = AtomicInterval::closed(3, 7);
    let intersection = interval1.intersection(&interval2);
    assert_eq!(intersection.len(), 1);
    assert_eq!(intersection.first().unwrap(), &AtomicInterval::closed(3, 5));
}

#[test]
fn atomic_test_intersection_between_two_disjoint_intervals() {
    let interval1 = AtomicInterval::closed(1, 3);
    let interval2 = AtomicInterval::closed(4, 7);
    let intersection = interval1.intersection(&interval2);
    assert_eq!(intersection.len(), 0);
}

#[test]
fn test_intersection_between_two_adjacent_intervals() {
    let interval1 = AtomicInterval::closed(1, 5);
    let interval2 = AtomicInterval::open(5, 7);
    let intersection = interval1.intersection(&interval2);
    assert_eq!(intersection.len(), 0);
}

#[test]
fn atomic_test_difference_between_two_overlapping_intervals() {
    let interval1 = AtomicInterval::closed(1, 5);
    let interval2 = AtomicInterval::closed(3, 7);
    let difference = interval1.difference(&interval2);
    assert_eq!(difference.len(), 1);
    assert_eq!(difference[0], AtomicInterval::closed_open(1, 3));
}

#[test]
fn test_difference_between_subset_and_superset_interval() {
    let interval1 = AtomicInterval::closed(1, 5);
    let interval2 = AtomicInterval::closed(2, 4);
    let difference = interval1.difference(&interval2);
    assert_eq!(difference.len(), 2);
    assert_eq!(difference[0], AtomicInterval::closed_open(1, 2));
    assert_eq!(difference[1], AtomicInterval::open_closed(4, 5));
}

#[test]
fn atomic_test_difference_between_two_disjoint_intervals() {
    let interval1 = AtomicInterval::closed(1, 3);
    let interval2 = AtomicInterval::closed(4, 7);
    let difference = interval1.difference(&interval2);
    assert_eq!(difference.len(), 1);
    assert_eq!(difference[0], AtomicInterval::closed(1, 3));
}

#[test]
fn test_difference_between_two_adjacent_intervals() {
    let interval1 = AtomicInterval::closed(1, 5);
    let interval2 = AtomicInterval::open(5, 7);
    let difference = interval1.difference(&interval2);
    assert_eq!(difference.len(), 1);
    assert_eq!(difference[0], AtomicInterval::closed(1, 5));
}

#[test]
fn interval_test_open_interval() {
    let interval = AtomicInterval::open(1, 5);
    assert_eq!(interval.left, Bound::Excluded(1));
    assert_eq!(interval.right, Bound::Excluded(5));
}

#[test]
fn interval_test_closed_interval() {
    let interval = AtomicInterval::closed(1, 5);
    assert_eq!(interval.left, Bound::Included(1));
    assert_eq!(interval.right, Bound::Included(5));
}

#[test]
fn interval_test_open_closed_interval() {
    let interval = AtomicInterval::open_closed(1, 5);
    assert_eq!(interval.left, Bound::Excluded(1));
    assert_eq!(interval.right, Bound::Included(5));
}

#[test]
fn interval_test_closed_open_interval() {
    let interval = AtomicInterval::closed_open(1, 5);
    assert_eq!(interval.left, Bound::Included(1));
    assert_eq!(interval.right, Bound::Excluded(5));
}

#[test]
fn interval_test_point_interval() {
    let interval = AtomicInterval::point(1);
    assert_eq!(interval.left, Bound::Included(1));
    assert_eq!(interval.right, Bound::Included(1));
}

#[test]
fn interval_test_is_overlapping() {
    let interval1 = AtomicInterval::closed(1, 5);
    let interval2 = AtomicInterval::closed(4, 6);
    assert!(interval1.is_overlapping(&interval2));
}

#[test]
fn interval_test_is_disjoint() {
    let interval1 = AtomicInterval::closed(1, 5);
    let interval2 = AtomicInterval::closed(6, 10);
    assert!(interval1.is_disjoint(&interval2));
}

#[test]
fn interval_test_is_subset() {
    let interval1 = AtomicInterval::closed(2, 4);
    let interval2 = AtomicInterval::closed(1, 5);
    assert!(interval1.is_subset(&interval2));
}

#[test]
fn test_left_right_accessors() {
    let interval = AtomicInterval::open_closed(2, 9);
    assert_eq!(*interval.left(), Bound::Excluded(2));
    assert_eq!(*interval.right(), Bound::Included(9));
}
