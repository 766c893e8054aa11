//! The `Bound` type: a boundary value tagged as inclusive or exclusive.
//!
//! Every geometric question about intervals reduces to comparisons between
//! boundaries, and the answer depends on both the carried values and the
//! tags.  To keep that case analysis in one place, each bound is mapped (in
//! specifications only) to an integer *position* on a line that interleaves
//! the values of the domain with the open gaps between them: the value `v`
//! occupies the slot starting at position `2v`, and the gap just above `v`
//! occupies the slot starting at `2v + 1`.  A bound used on the left of an
//! interval marks the first slot the interval covers; used on the right it
//! marks the first slot past the interval.  All predicates and operations are
//! then plain integer comparisons of positions, shared by every caller.

use vstd::prelude::*;

verus! {

/// A boundary of an interval: either inclusive (the value itself belongs to
/// the range) or exclusive (the value is the limit but does not belong).
#[derive(Debug, Clone, Copy, PartialEq, Eq, Structural)]
pub enum Bound {
    /// The value itself is included in the interval.
    Included(i64),
    /// The value is excluded from the interval.
    Excluded(i64),
}

impl Bound {
    /// The carried value, as a mathematical integer.
    pub open spec fn val(self) -> int {
        match self {
            Bound::Included(v) => v as int,
            Bound::Excluded(v) => v as int,
        }
    }

    /// Position of the first slot covered when this bound stands on the left
    /// of an interval: an inclusive bound covers its own value's slot, an
    /// exclusive bound starts in the gap just above it.
    pub open spec fn left_pos(self) -> int {
        match self {
            Bound::Included(v) => 2 * (v as int),
            Bound::Excluded(v) => 2 * (v as int) + 1,
        }
    }

    /// Position of the first slot past the interval when this bound stands on
    /// the right: an inclusive bound still covers its value's slot, an
    /// exclusive bound stops just before it.
    pub open spec fn right_pos(self) -> int {
        match self {
            Bound::Included(v) => 2 * (v as int) + 1,
            Bound::Excluded(v) => 2 * (v as int),
        }
    }

    /// Returns a reference to the value contained within the bound.
    pub fn value(&self) -> (r: &i64)
        ensures
            *r as int == self.val(),
            *self == Bound::Included(*r) || *self == Bound::Excluded(*r),
    {
        match self {
            Bound::Included(value) => value,
            Bound::Excluded(value) => value,
        }
    }
}

/// Two bounds with the same left position are the same bound: the position
/// encodes both the value and the tag (even for inclusive, odd for exclusive).
pub proof fn lemma_left_pos_injective(x: Bound, y: Bound)
    requires
        x.left_pos() == y.left_pos(),
    ensures
        x == y,
{
    match (x, y) {
        (Bound::Included(_), Bound::Included(_)) => {}
        (Bound::Included(_), Bound::Excluded(_)) => {}
        (Bound::Excluded(_), Bound::Included(_)) => {}
        (Bound::Excluded(_), Bound::Excluded(_)) => {}
    }
}

/// Two bounds with the same right position are the same bound.
pub proof fn lemma_right_pos_injective(x: Bound, y: Bound)
    requires
        x.right_pos() == y.right_pos(),
    ensures
        x == y,
{
    match (x, y) {
        (Bound::Included(_), Bound::Included(_)) => {}
        (Bound::Included(_), Bound::Excluded(_)) => {}
        (Bound::Excluded(_), Bound::Included(_)) => {}
        (Bound::Excluded(_), Bound::Excluded(_)) => {}
    }
}

/// Compares two bounds in their role as left boundaries:
/// true iff `a`'s first covered slot is no later than `b`'s.
pub fn left_pos_le(a: &Bound, b: &Bound) -> (r: bool)
    ensures
        r == (a.left_pos() <= b.left_pos()),
{
    match (a, b) {
        (Bound::Included(x), Bound::Included(y)) => x <= y,
        (Bound::Included(x), Bound::Excluded(y)) => x <= y,
        (Bound::Excluded(x), Bound::Included(y)) => x < y,
        (Bound::Excluded(x), Bound::Excluded(y)) => x <= y,
    }
}

/// Compares two bounds in their role as right boundaries:
/// true iff `a` ends no later than `b`.
pub fn right_pos_le(a: &Bound, b: &Bound) -> (r: bool)
    ensures
        r == (a.right_pos() <= b.right_pos()),
{
    match (a, b) {
        (Bound::Included(x), Bound::Included(y)) => x <= y,
        (Bound::Included(x), Bound::Excluded(y)) => x < y,
        (Bound::Excluded(x), Bound::Included(y)) => x <= y,
        (Bound::Excluded(x), Bound::Excluded(y)) => x <= y,
    }
}

/// True iff a left boundary `a` starts strictly before a right boundary `b`
/// ends: the test for a non-empty stretch between the two.
pub fn left_before_right(a: &Bound, b: &Bound) -> (r: bool)
    ensures
        r == (a.left_pos() < b.right_pos()),
{
    match (a, b) {
        (Bound::Included(x), Bound::Included(y)) => x <= y,
        (Bound::Included(x), Bound::Excluded(y)) => x < y,
        (Bound::Excluded(x), Bound::Included(y)) => x < y,
        (Bound::Excluded(x), Bound::Excluded(y)) => x < y,
    }
}

/// True iff a right boundary `a` ends no later than a left boundary `b`
/// starts: the one-sided disjointness test.
pub fn right_pos_le_left(a: &Bound, b: &Bound) -> (r: bool)
    ensures
        r == (a.right_pos() <= b.left_pos()),
{
    match (a, b) {
        (Bound::Included(x), Bound::Included(y)) => x < y,
        (Bound::Included(x), Bound::Excluded(y)) => x <= y,
        (Bound::Excluded(x), Bound::Included(y)) => x <= y,
        (Bound::Excluded(x), Bound::Excluded(y)) => x <= y,
    }
}

/// True iff a right boundary `a` ends exactly where a left boundary `b`
/// starts: equal values with complementary tags, so that merging the two
/// sides loses no point and adds none.
pub fn right_meets_left(a: &Bound, b: &Bound) -> (r: bool)
    ensures
        r == (a.right_pos() == b.left_pos()),
{
    match (a, b) {
        (Bound::Included(_), Bound::Included(_)) => false,
        (Bound::Included(x), Bound::Excluded(y)) => x == y,
        (Bound::Excluded(x), Bound::Included(y)) => x == y,
        (Bound::Excluded(_), Bound::Excluded(_)) => false,
    }
}

/// Of two left boundaries, the one that starts earlier; at equal values the
/// inclusive one starts earlier.
pub open spec fn lower_left(x: Bound, y: Bound) -> Bound {
    if x.left_pos() <= y.left_pos() {
        x
    } else {
        y
    }
}

/// Of two left boundaries, the one that starts later; at equal values the
/// exclusive one starts later.
pub open spec fn upper_left(x: Bound, y: Bound) -> Bound {
    if x.left_pos() <= y.left_pos() {
        y
    } else {
        x
    }
}

/// Of two right boundaries, the one that ends earlier; at equal values the
/// exclusive one ends earlier.
pub open spec fn lower_right(x: Bound, y: Bound) -> Bound {
    if x.right_pos() <= y.right_pos() {
        x
    } else {
        y
    }
}

/// Of two right boundaries, the one that ends later; at equal values the
/// inclusive one ends later.
pub open spec fn upper_right(x: Bound, y: Bound) -> Bound {
    if x.right_pos() <= y.right_pos() {
        y
    } else {
        x
    }
}

impl PartialOrd for Bound {
    /// Orders bounds by value first; at equal values an inclusive bound
    /// comes strictly before an exclusive one, consistently with closed
    /// ranges being the more inclusive.  This is exactly the order of the
    /// bounds' left positions.
    fn partial_cmp(&self, other: &Bound) -> (r: Option<core::cmp::Ordering>) {
        let v1 = *self.value();
        let v2 = *other.value();
        if v1 < v2 {
            Some(core::cmp::Ordering::Less)
        } else if v1 > v2 {
            Some(core::cmp::Ordering::Greater)
        } else {
            match (self, other) {
                (Bound::Included(_), Bound::Excluded(_)) => Some(core::cmp::Ordering::Less),
                (Bound::Excluded(_), Bound::Included(_)) => Some(core::cmp::Ordering::Greater),
                _ => Some(core::cmp::Ordering::Equal),
            }
        }
    }
}

impl vstd::std_specs::cmp::PartialOrdSpecImpl for Bound {
    open spec fn obeys_partial_cmp_spec() -> bool {
        true
    }

    open spec fn partial_cmp_spec(&self, other: &Bound) -> Option<core::cmp::Ordering> {
        if self.left_pos() < other.left_pos() {
            Some(core::cmp::Ordering::Less)
        } else if self.left_pos() == other.left_pos() {
            Some(core::cmp::Ordering::Equal)
        } else {
            Some(core::cmp::Ordering::Greater)
        }
    }
}

} // verus!
