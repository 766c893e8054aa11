use timekeep_rs::AtomicInterval;
use timekeep_rs::IntervalSet;

#[test]
fn test_overlap_disjoint_duality_cases() {
    // Exactly one of is_overlapping / is_disjoint holds for every pair.
    let cases = vec![
        (AtomicInterval::closed(1, 5), AtomicInterval::closed(4, 6)),
        (AtomicInterval::closed(1, 5), AtomicInterval::open_closed(5, 10)),
        (AtomicInterval::closed(1, 5), AtomicInterval::open(5, 10)),
        (AtomicInterval::closed_open(1, 5), AtomicInterval::open(5, 10)),
        (AtomicInterval::closed(3, 4), AtomicInterval::closed(1, 10)),
        (AtomicInterval::point(5), AtomicInterval::open(5, 9)),
    ];
    for (a, b) in cases {
        assert_ne!(a.is_overlapping(&b), a.is_disjoint(&b));
        assert_ne!(b.is_overlapping(&a), b.is_disjoint(&a));
    }
}

#[test]
fn test_overlapping_covers_containment() {
    // Overlap holds when one interval lies strictly inside the other.
    let inner = AtomicInterval::closed(3, 4);
    let outer = AtomicInterval::closed(1, 10);
    assert!(inner.is_overlapping(&outer));
    assert!(outer.is_overlapping(&inner));
    assert!(!inner.is_disjoint(&outer));
}

#[test]
fn test_adjacency_needs_one_inclusive_side() {
    // Complementary tags at the shared value merge without loss.
    assert!(AtomicInterval::closed(1, 5).is_adjacent(&AtomicInterval::open_closed(5, 10)));
    assert!(AtomicInterval::closed_open(1, 5).is_adjacent(&AtomicInterval::closed(5, 10)));
    // Both sides excluding the value leave a one-point gap: not adjacent.
    assert!(!AtomicInterval::closed_open(1, 5).is_adjacent(&AtomicInterval::open(5, 10)));
    // Both sides including the value overlap: not adjacent either.
    assert!(!AtomicInterval::closed(1, 5).is_adjacent(&AtomicInterval::closed(5, 10)));
}

#[test]
fn test_subset_superset_symmetry_cases() {
    let cases = vec![
        (AtomicInterval::closed(2, 4), AtomicInterval::closed(1, 5)),
        (AtomicInterval::open_closed(1, 5), AtomicInterval::closed(1, 5)),
        (AtomicInterval::closed(1, 5), AtomicInterval::open_closed(1, 5)),
        (AtomicInterval::closed(1, 5), AtomicInterval::closed(3, 7)),
        (AtomicInterval::point(3), AtomicInterval::open(2, 4)),
    ];
    for (a, b) in cases {
        assert_eq!(a.is_subset(&b), b.is_superset(&a));
        assert_eq!(b.is_subset(&a), a.is_superset(&b));
    }
}

#[test]
fn test_subset_at_matching_endpoints() {
    // At equal endpoint values, the subset may be equally or more
    // restrictive, never less.
    let half_open = AtomicInterval::open_closed(1, 5);
    let closed = AtomicInterval::closed(1, 5);
    assert!(half_open.is_subset(&closed));
    assert!(!closed.is_subset(&half_open));
}

#[test]
fn test_atomic_union_commutes_and_idempotent() {
    let a = AtomicInterval::closed(1, 5);
    let b = AtomicInterval::open(4, 9);
    assert_eq!(AtomicInterval::union(&a, &b), AtomicInterval::union(&b, &a));
    let c = AtomicInterval::closed(7, 8);
    assert_eq!(AtomicInterval::union(&a, &c), AtomicInterval::union(&c, &a));
    assert_eq!(AtomicInterval::union(&a, &a), vec![a]);
}

#[test]
fn test_set_union_commutes() {
    let x = IntervalSet::from(AtomicInterval::closed(1, 3)).union(&IntervalSet::from(
        AtomicInterval::closed(8, 9),
    ));
    let y = IntervalSet::from(AtomicInterval::closed(2, 5));
    assert_eq!(x.union(&y).intervals, y.union(&x).intervals);
}

#[test]
fn test_set_union_idempotent() {
    let x = IntervalSet::from(AtomicInterval::closed(1, 3)).union(&IntervalSet::from(
        AtomicInterval::open(5, 7),
    ));
    assert_eq!(x.union(&x).intervals, x.intervals);
}

#[test]
fn test_partition_reconstructs_union() {
    // For overlapping inputs with inclusive interior bounds, the
    // intersection and the two differences merge back to the union.
    let a = AtomicInterval::closed(1, 5);
    let b = AtomicInterval::closed(3, 7);
    let inter = a.intersection(&b);
    assert_eq!(inter, vec![AtomicInterval::closed(3, 5)]);
    let a_minus_b = a.difference(&b);
    assert_eq!(a_minus_b, vec![AtomicInterval::closed_open(1, 3)]);
    let b_minus_a = b.difference(&a);
    assert_eq!(b_minus_a, vec![AtomicInterval::open_closed(5, 7)]);
    let mut rebuilt = IntervalSet::new();
    for piece in inter.iter().chain(a_minus_b.iter()).chain(b_minus_a.iter()) {
        rebuilt = rebuilt.union(&IntervalSet::from(*piece));
    }
    assert_eq!(rebuilt.intervals, vec![AtomicInterval::closed(1, 7)]);
    assert_eq!(
        AtomicInterval::union(&a, &b),
        vec![AtomicInterval::closed(1, 7)]
    );
}

#[test]
fn test_point_boundary_intersection() {
    // [1,5] and [5,7] share exactly the point 5.
    let intersection = AtomicInterval::closed(1, 5).intersection(&AtomicInterval::closed(5, 7));
    assert_eq!(intersection, vec![AtomicInterval::point(5)]);
    // [1,5] and (5,7] share nothing.
    let empty = AtomicInterval::closed(1, 5).intersection(&AtomicInterval::open_closed(5, 7));
    assert_eq!(empty.len(), 0);
}

#[test]
fn test_canonical_form_preserved() {
    // After union, intersection and difference on canonical inputs, the
    // result is ascending, pairwise disjoint and non-adjacent.
    let a = IntervalSet::from(AtomicInterval::closed(1, 4))
        .union(&IntervalSet::from(AtomicInterval::open(6, 9)))
        .union(&IntervalSet::from(AtomicInterval::closed(11, 14)));
    let b = IntervalSet::from(AtomicInterval::closed(3, 7)).union(&IntervalSet::from(
        AtomicInterval::closed(12, 20),
    ));
    for result in [a.union(&b), a.intersection(&b), a.difference(&b)] {
        for pair in result.intervals.windows(2) {
            assert!(pair[0].is_disjoint(&pair[1]));
            assert!(!pair[0].is_adjacent(&pair[1]));
            assert!(pair[0].left().value() < pair[1].left().value()
                || (pair[0].left().value() == pair[1].left().value()));
        }
        for interval in &result.intervals {
            assert!(interval.left().value() < interval.right().value()
                || interval.left() == interval.right());
        }
    }
}

#[test]
fn test_difference_of_subset_is_empty() {
    let inner = AtomicInterval::closed(2, 4);
    let outer = AtomicInterval::closed(1, 5);
    assert_eq!(inner.difference(&outer).len(), 0);
    // A range is a subset of itself, so subtracting it leaves nothing.
    assert_eq!(outer.difference(&outer).len(), 0);
}

#[test]
fn test_adjacent_intervals_are_disjoint() {
    let a = AtomicInterval::closed(1, 5);
    let b = AtomicInterval::open_closed(5, 10);
    assert!(a.is_adjacent(&b));
    assert!(a.is_disjoint(&b));
    assert!(!a.is_overlapping(&b));
}
