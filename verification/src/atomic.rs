//! The `AtomicInterval` type: one contiguous, non-degenerate range described
//! by a left and a right `Bound`, with all pairwise geometric predicates and
//! the three algebraic operations between exactly two such ranges.
//!
//! The specifications speak of the positions introduced in [`crate::bound`]:
//! an interval covers the half-open stretch of positions from its left
//! bound's starting position up to (excluding) its right bound's ending
//! position.  A position stands either for a value of the domain or for the
//! open gap between two neighbouring values, so this model treats the domain
//! as dense and never assumes a successor operation.

use vstd::prelude::*;

verus! {

use crate::bound::Bound;
use crate::bound::lemma_left_pos_injective;
use crate::bound::lemma_right_pos_injective;
use crate::bound::left_pos_le;
use crate::bound::right_pos_le;
use crate::bound::left_before_right;
use crate::bound::right_pos_le_left;
use crate::bound::right_meets_left;
use crate::bound::lower_left;
use crate::bound::upper_left;
use crate::bound::lower_right;
use crate::bound::upper_right;

/// One contiguous range, from `left` to `right`.
///
/// Every constructor establishes [`AtomicInterval::wf`]: the range covers at
/// least one point.  For the non-point constructors this means
/// `left.value() < right.value()`; the sole exception is [`AtomicInterval::point`],
/// which produces the single included point `[v, v]`.
#[derive(Debug, Clone, Copy, PartialEq, Eq, Structural)]
pub struct AtomicInterval {
    /// The left (lower) endpoint of the interval.
    pub left: Bound,
    /// The right (upper) endpoint of the interval.
    pub right: Bound,
}

impl AtomicInterval {
    /// Position of the first slot this interval covers.
    pub open spec fn lo(self) -> int {
        self.left.left_pos()
    }

    /// Position of the first slot past this interval.
    pub open spec fn hi(self) -> int {
        self.right.right_pos()
    }

    /// Well-formedness: the interval covers at least one slot.  This holds
    /// exactly when `left.val() < right.val()`, or when the interval is a
    /// single included point `[v, v]`.
    pub open spec fn wf(self) -> bool {
        self.lo() < self.hi()
    }

    /// The interval covers position `p`.
    pub open spec fn covers(self, p: int) -> bool {
        self.lo() <= p < self.hi()
    }

    /// The two intervals share at least one point.
    pub open spec fn overlaps(self, other: AtomicInterval) -> bool {
        exists|p: int| self.covers(p) && other.covers(p)
    }

    /// The two intervals share no point.
    pub open spec fn disjoint_from(self, other: AtomicInterval) -> bool {
        !self.overlaps(other)
    }

    /// The two intervals do not overlap but meet exactly at a shared
    /// boundary value of which precisely one side is inclusive, so that
    /// merging them loses no point and adds none.  Two exclusive bounds at
    /// the same value leave that single value uncovered — a genuine gap, not
    /// adjacency — and two inclusive bounds at the same value overlap.
    pub open spec fn adjacent_to(self, other: AtomicInterval) -> bool {
        self.hi() == other.lo() || other.hi() == self.lo()
    }

    /// Every point of `self` lies in `other`.
    pub open spec fn subset_of(self, other: AtomicInterval) -> bool {
        forall|p: int| self.covers(p) ==> other.covers(p)
    }

    /// Every point of `other` lies in `self`.
    pub open spec fn superset_of(self, other: AtomicInterval) -> bool {
        forall|p: int| other.covers(p) ==> self.covers(p)
    }
}

/// Subset and superset are mirror relations: `a` lies within `b` exactly
/// when `b` contains `a`.
pub proof fn lemma_subset_superset_symmetry(a: AtomicInterval, b: AtomicInterval)
    ensures
        a.subset_of(b) == b.superset_of(a),
{
    if a.subset_of(b) {
        assert forall|p: int| a.covers(p) implies b.covers(p) by {}
    }
    if b.superset_of(a) {
        assert forall|p: int| a.covers(p) implies b.covers(p) by {}
    }
}

/// A non-empty overlap is the same as the bounds interleaving: the later
/// start lies strictly before the earlier end.
pub proof fn lemma_overlap_positions(a: AtomicInterval, b: AtomicInterval)
    requires
        a.wf(),
        b.wf(),
    ensures
        a.overlaps(b) == (a.lo() < b.hi() && b.lo() < a.hi()),
{
    if a.lo() < b.hi() && b.lo() < a.hi() {
        let p = if a.lo() <= b.lo() {
            b.lo()
        } else {
            a.lo()
        };
        assert(a.covers(p) && b.covers(p));
    }
}

/// Containment of the covered stretches is the same as containment of the
/// bounds' positions.
pub proof fn lemma_subset_positions(a: AtomicInterval, b: AtomicInterval)
    requires
        a.wf(),
        b.wf(),
    ensures
        a.subset_of(b) == (b.lo() <= a.lo() && a.hi() <= b.hi()),
{
    if a.subset_of(b) {
        assert(a.covers(a.lo()));
        assert(a.covers(a.hi() - 1));
    }
}

/// Adjacent intervals share no point: at the meeting position one side
/// stops exactly where the other starts.
pub proof fn lemma_adjacent_implies_disjoint(a: AtomicInterval, b: AtomicInterval)
    requires
        a.wf(),
        b.wf(),
        a.adjacent_to(b),
    ensures
        a.disjoint_from(b),
{
    lemma_overlap_positions(a, b);
}

/// Intervals with the same positions are equal: the position of each bound
/// encodes both its value and its tag.
pub proof fn lemma_positions_determine(a: AtomicInterval, b: AtomicInterval)
    requires
        a.lo() == b.lo(),
        a.hi() == b.hi(),
    ensures
        a == b,
{
    lemma_left_pos_injective(a.left, b.left);
    lemma_right_pos_injective(a.right, b.right);
}

/// Constructors.  Each non-point constructor requires `left < right`:
/// a degenerate or inverted range is rejected at this boundary, and no
/// operation below ever has to cope with one.
impl AtomicInterval {
    /// Creates an open interval `(a, b)` that excludes both endpoints.
    pub fn open(left: i64, right: i64) -> (r: AtomicInterval)
        requires
            left < right,
        ensures
            r == (AtomicInterval { left: Bound::Excluded(left), right: Bound::Excluded(right) }),
            r.wf(),
    {
        AtomicInterval { left: Bound::Excluded(left), right: Bound::Excluded(right) }
    }

    /// Creates a closed interval `[a, b]` that includes both endpoints.
    pub fn closed(left: i64, right: i64) -> (r: AtomicInterval)
        requires
            left < right,
        ensures
            r == (AtomicInterval { left: Bound::Included(left), right: Bound::Included(right) }),
            r.wf(),
    {
        AtomicInterval { left: Bound::Included(left), right: Bound::Included(right) }
    }

    /// Creates a left-open, right-closed interval `(a, b]`.
    pub fn open_closed(left: i64, right: i64) -> (r: AtomicInterval)
        requires
            left < right,
        ensures
            r == (AtomicInterval { left: Bound::Excluded(left), right: Bound::Included(right) }),
            r.wf(),
    {
        AtomicInterval { left: Bound::Excluded(left), right: Bound::Included(right) }
    }

    /// Creates a left-closed, right-open interval `[a, b)`.
    pub fn closed_open(left: i64, right: i64) -> (r: AtomicInterval)
        requires
            left < right,
        ensures
            r == (AtomicInterval { left: Bound::Included(left), right: Bound::Excluded(right) }),
            r.wf(),
    {
        AtomicInterval { left: Bound::Included(left), right: Bound::Excluded(right) }
    }

    /// Creates the point interval `[v, v]`, the sole well-formed interval
    /// whose two endpoint values coincide.
    pub fn point(value: i64) -> (r: AtomicInterval)
        ensures
            r == (AtomicInterval { left: Bound::Included(value), right: Bound::Included(value) }),
            r.wf(),
    {
        AtomicInterval { left: Bound::Included(value), right: Bound::Included(value) }
    }

    /// Returns a reference to the left bound.
    pub fn left(&self) -> (r: &Bound)
        ensures
            *r == self.left,
    {
        &self.left
    }

    /// Returns a reference to the right bound.
    pub fn right(&self) -> (r: &Bound)
        ensures
            *r == self.right,
    {
        &self.right
    }
}

/// Pairwise geometric predicates.  All are total over well-formed inputs.
impl AtomicInterval {
    /// Checks whether this interval contains every point of `other`.
    pub fn is_superset(&self, other: &AtomicInterval) -> (r: bool)
        requires
            self.wf(),
            other.wf(),
        ensures
            r == self.superset_of(*other),
    {
        proof {
            lemma_subset_positions(*other, *self);
            lemma_subset_superset_symmetry(*other, *self);
        }
        left_pos_le(&self.left, &other.left) && right_pos_le(&other.right, &self.right)
    }

    /// Checks whether every point of this interval lies in `other`.
    pub fn is_subset(&self, other: &AtomicInterval) -> (r: bool)
        requires
            self.wf(),
            other.wf(),
        ensures
            r == self.subset_of(*other),
    {
        proof {
            lemma_subset_superset_symmetry(*self, *other);
        }
        other.is_superset(self)
    }

    /// Checks whether the two intervals share at least one point.
    pub fn is_overlapping(&self, other: &AtomicInterval) -> (r: bool)
        requires
            self.wf(),
            other.wf(),
        ensures
            r == self.overlaps(*other),
    {
        proof {
            lemma_overlap_positions(*self, *other);
        }
        left_before_right(&self.left, &other.right) && left_before_right(&other.left, &self.right)
    }

    /// Checks whether the two intervals are adjacent: they do not overlap,
    /// but share exactly one boundary value of which exactly one side is
    /// inclusive, so no point lies strictly between them and none is covered
    /// twice.
    pub fn is_adjacent(&self, other: &AtomicInterval) -> (r: bool)
        requires
            self.wf(),
            other.wf(),
        ensures
            r == self.adjacent_to(*other),
    {
        right_meets_left(&self.right, &other.left) || right_meets_left(&other.right, &self.left)
    }

    /// Checks whether the two intervals share no point.  The direct test:
    /// one interval ends no later than the other starts.
    pub fn is_disjoint(&self, other: &AtomicInterval) -> (r: bool)
        requires
            self.wf(),
            other.wf(),
        ensures
            r == self.disjoint_from(*other),
    {
        proof {
            lemma_overlap_positions(*self, *other);
        }
        right_pos_le_left(&self.right, &other.left) || right_pos_le_left(&other.right, &self.left)
    }
}

/// The smallest interval containing both `a` and `b`: the earlier left bound
/// and the later right bound, ties going to the more inclusive bound.
pub open spec fn span(a: AtomicInterval, b: AtomicInterval) -> AtomicInterval {
    AtomicInterval { left: lower_left(a.left, b.left), right: upper_right(a.right, b.right) }
}

/// What the union of two atomic intervals yields: their span when they
/// overlap or are adjacent, nothing otherwise.
pub open spec fn union_seq(a: AtomicInterval, b: AtomicInterval) -> Seq<AtomicInterval> {
    if a.overlaps(b) || a.adjacent_to(b) {
        seq![span(a, b)]
    } else {
        seq![]
    }
}

/// The common part of two intervals: the later left bound and the earlier
/// right bound, ties going to the more restrictive bound.
pub open spec fn common_part(a: AtomicInterval, b: AtomicInterval) -> AtomicInterval {
    AtomicInterval { left: upper_left(a.left, b.left), right: lower_right(a.right, b.right) }
}

/// What the intersection of two atomic intervals yields: their common part
/// when they overlap, nothing otherwise.
pub open spec fn inter_seq(a: AtomicInterval, b: AtomicInterval) -> Seq<AtomicInterval> {
    if a.overlaps(b) {
        seq![common_part(a, b)]
    } else {
        seq![]
    }
}

/// What the difference `a \ b` of two atomic intervals yields.
///
/// When the two are disjoint, `a` stands unchanged; when `a` lies within
/// `b`, nothing is left.  Otherwise up to two remainders are cut out of `a`
/// around the common part, each closed off by an exclusive bound at the cut
/// value and kept only while its endpoint values remain strictly ordered.
/// When the nearer bound of `b` is itself exclusive, the cut value is thereby
/// dropped from the remainder even though `b` does not cover it.
pub open spec fn diff_seq(a: AtomicInterval, b: AtomicInterval) -> Seq<AtomicInterval> {
    if a.disjoint_from(b) {
        seq![a]
    } else if a.subset_of(b) {
        seq![]
    } else {
        let il = upper_left(a.left, b.left);
        let ir = lower_right(a.right, b.right);
        let lrem = AtomicInterval { left: a.left, right: Bound::Excluded(il.val() as i64) };
        let rrem = AtomicInterval { left: Bound::Excluded(ir.val() as i64), right: a.right };
        if a.left.val() < il.val() && ir.val() < a.right.val() {
            seq![lrem, rrem]
        } else if a.left.val() < il.val() {
            seq![lrem]
        } else if ir.val() < a.right.val() {
            seq![rrem]
        } else {
            seq![]
        }
    }
}

/// When two well-formed intervals overlap or are adjacent, their span is
/// well-formed and covers exactly the points of the two together.
pub proof fn lemma_span(a: AtomicInterval, b: AtomicInterval)
    requires
        a.wf(),
        b.wf(),
        a.overlaps(b) || a.adjacent_to(b),
    ensures
        span(a, b).wf(),
        forall|p: int| span(a, b).covers(p) == (a.covers(p) || b.covers(p)),
{
    lemma_overlap_positions(a, b);
    assert forall|p: int| span(a, b).covers(p) == (a.covers(p) || b.covers(p)) by {
        if span(a, b).covers(p) {
            assert(a.covers(p) || b.covers(p));
        }
    }
}

/// When two well-formed intervals overlap, their common part is well-formed
/// and covers exactly the points the two share.
pub proof fn lemma_common_part(a: AtomicInterval, b: AtomicInterval)
    requires
        a.wf(),
        b.wf(),
        a.overlaps(b),
    ensures
        common_part(a, b).wf(),
        forall|p: int| common_part(a, b).covers(p) == (a.covers(p) && b.covers(p)),
{
    lemma_overlap_positions(a, b);
}

/// Algebraic operations between two atomic intervals.
impl AtomicInterval {
    /// Computes the union of two intervals: the smallest interval containing
    /// both, when they overlap or are adjacent; otherwise nothing, and the
    /// caller keeps both ranges separate.
    pub fn union(a: &AtomicInterval, b: &AtomicInterval) -> (r: Vec<AtomicInterval>)
        requires
            a.wf(),
            b.wf(),
        ensures
            r@ == union_seq(*a, *b),
            r@.len() <= 1,
            (r@.len() == 1) == (a.overlaps(*b) || a.adjacent_to(*b)),
            r@.len() == 1 ==> r@[0].wf() && forall|p: int|
                r@[0].covers(p) == (a.covers(p) || b.covers(p)),
    {
        let mut r: Vec<AtomicInterval> = Vec::new();
        if a.is_overlapping(b) || a.is_adjacent(b) {
            let left = if left_pos_le(&a.left, &b.left) {
                a.left
            } else {
                b.left
            };
            let right = if right_pos_le(&a.right, &b.right) {
                b.right
            } else {
                a.right
            };
            r.push(AtomicInterval { left, right });
            proof {
                lemma_span(*a, *b);
                assert(r@ =~= union_seq(*a, *b));
            }
        } else {
            proof {
                assert(r@ =~= union_seq(*a, *b));
            }
        }
        r
    }

    /// Computes the intersection of two intervals: the largest interval
    /// contained in both, when they overlap; otherwise nothing.  A
    /// single-point result arises only when both computed bounds include
    /// the shared value.
    pub fn intersection(&self, other: &AtomicInterval) -> (r: Vec<AtomicInterval>)
        requires
            self.wf(),
            other.wf(),
        ensures
            r@ == inter_seq(*self, *other),
            r@.len() <= 1,
            (r@.len() == 1) == self.overlaps(*other),
            r@.len() == 1 ==> r@[0].wf(),
            forall|p: int| (r@.len() == 1 && r@[0].covers(p)) == (self.covers(p)
                && other.covers(p)),
    {
        let mut r: Vec<AtomicInterval> = Vec::new();
        if self.is_disjoint(other) {
            proof {
                assert(r@ =~= inter_seq(*self, *other));
            }
            return r;
        }
        let left = if left_pos_le(&self.left, &other.left) {
            other.left
        } else {
            self.left
        };
        let right = if right_pos_le(&self.right, &other.right) {
            self.right
        } else {
            other.right
        };
        r.push(AtomicInterval { left, right });
        proof {
            lemma_common_part(*self, *other);
            assert(r@ =~= inter_seq(*self, *other));
        }
        r
    }

    /// Computes the difference `self \ other`: what is left of `self` after
    /// removing the common part, as zero, one or two remainders (see
    /// [`diff_seq`] for the exact cut rule).  Every point of the result lies
    /// in `self` and outside `other`.
    pub fn difference(&self, other: &AtomicInterval) -> (r: Vec<AtomicInterval>)
        requires
            self.wf(),
            other.wf(),
        ensures
            r@ == diff_seq(*self, *other),
            forall|k: int| 0 <= k < r@.len() ==> (#[trigger] r@[k]).wf(),
            forall|k: int, p: int| 0 <= k < r@.len() && #[trigger] r@[k].covers(p)
                ==> self.covers(p) && !other.covers(p),
    {
        let mut r: Vec<AtomicInterval> = Vec::new();
        if self.is_disjoint(other) {
            r.push(*self);
            proof {
                assert(r@ =~= diff_seq(*self, *other));
            }
            return r;
        }
        if self.is_subset(other) {
            proof {
                assert(r@ =~= diff_seq(*self, *other));
            }
            return r;
        }
        let inter = self.intersection(other);
        let il = inter[0].left;
        let ir = inter[0].right;
        proof {
            lemma_overlap_positions(*self, *other);
            lemma_common_part(*self, *other);
        }
        if *self.left.value() < *il.value() {
            let left_interval = AtomicInterval { left: self.left, right: Bound::Excluded(
                *il.value(),
            ) };
            proof {
                lemma_left_remainder(*self, *other);
            }
            r.push(left_interval);
        }
        if *ir.value() < *self.right.value() {
            let right_interval = AtomicInterval { left: Bound::Excluded(*ir.value()), right:
                self.right };
            proof {
                lemma_right_remainder(*self, *other);
            }
            r.push(right_interval);
        }
        proof {
            assert(r@ =~= diff_seq(*self, *other));
        }
        r
    }
}

/// What `diff_seq` yields is always a fan-out of `a`: up to two well-formed
/// remainders, in ascending order with a genuine gap between them, each
/// lying within `a` and covering no point of `b`.
pub proof fn lemma_diff_seq_props(a: AtomicInterval, b: AtomicInterval)
    requires
        a.wf(),
        b.wf(),
    ensures
        ({
            let s = diff_seq(a, b);
            &&& forall|k: int|
                0 <= k < s.len() ==> (#[trigger] s[k]).wf() && a.lo() <= s[k].lo() && s[k].hi()
                    <= a.hi()
            &&& s.len() == 2 ==> s[0].hi() < s[1].lo()
            &&& forall|k: int, p: int|
                0 <= k < s.len() && #[trigger] s[k].covers(p) ==> a.covers(p) && !b.covers(p)
        }),
{
    if a.disjoint_from(b) {
        assert forall|k: int, p: int|
            0 <= k < diff_seq(a, b).len() && #[trigger] diff_seq(a, b)[k].covers(p)
            implies a.covers(p) && !b.covers(p) by {
            if b.covers(p) {
                assert(a.covers(p) && b.covers(p));
            }
        }
    } else if a.subset_of(b) {
    } else {
        lemma_overlap_positions(a, b);
        let il = upper_left(a.left, b.left);
        let ir = lower_right(a.right, b.right);
        if a.left.val() < il.val() {
            lemma_left_remainder(a, b);
        }
        if ir.val() < a.right.val() {
            lemma_right_remainder(a, b);
        }
        assert(2 * il.val() <= il.left_pos());
        assert(ir.right_pos() <= 2 * ir.val() + 1);
        assert(a.lo() <= 2 * a.left.val() + 1);
        assert(2 * a.right.val() <= a.hi());
    }
}

/// When each bound of `b` that cuts strictly inside `a` is inclusive, the
/// exclusive cut loses nothing and the difference is exact: it covers
/// precisely the points of `a` outside `b`.
pub proof fn lemma_diff_seq_exact(a: AtomicInterval, b: AtomicInterval)
    requires
        a.wf(),
        b.wf(),
        a.lo() < b.lo() ==> b.left is Included,
        b.hi() < a.hi() ==> b.right is Included,
    ensures
        forall|p: int|
            (a.covers(p) && !b.covers(p)) ==> exists|k: int|
                0 <= k < diff_seq(a, b).len() && (#[trigger] diff_seq(a, b)[k]).covers(p),
{
    let s = diff_seq(a, b);
    assert forall|p: int| (a.covers(p) && !b.covers(p)) implies exists|k: int|
        0 <= k < s.len() && (#[trigger] s[k]).covers(p) by {
        if a.disjoint_from(b) {
            assert(s[0].covers(p));
        } else if a.subset_of(b) {
            assert(false);
        } else {
            lemma_overlap_positions(a, b);
            let il = upper_left(a.left, b.left);
            let ir = lower_right(a.right, b.right);
            if p < b.lo() {
                // p lies in the left remainder: b starts past a.lo, so
                // b.left is inclusive and the cut sits exactly at b.lo.
                assert(a.lo() < b.lo());
                assert(il == b.left);
                assert(b.lo() == 2 * il.val());
                assert(a.left.val() < il.val()) by {
                    assert(a.lo() <= 2 * a.left.val() + 1);
                }
                assert(s[0].covers(p));
            } else {
                // p lies in the right remainder: b ends before a.hi, so
                // b.right is inclusive and the cut sits exactly at b.hi - 1.
                assert(p >= b.hi());
                assert(b.hi() < a.hi());
                assert(ir == b.right);
                assert(b.hi() == 2 * ir.val() + 1);
                assert(ir.val() < a.right.val()) by {
                    assert(2 * a.right.val() <= a.hi());
                }
                if a.left.val() < il.val() {
                    assert(s[1].covers(p));
                } else {
                    assert(s[0].covers(p));
                }
            }
        }
    }
}

/// When the cut falls strictly inside `self` on the left, the left remainder
/// is well-formed and covers only points of `self` outside `other`.
proof fn lemma_left_remainder(a: AtomicInterval, b: AtomicInterval)
    requires
        a.wf(),
        b.wf(),
        a.overlaps(b),
        a.left.val() < upper_left(a.left, b.left).val(),
    ensures
        ({
            let lrem = AtomicInterval {
                left: a.left,
                right: Bound::Excluded(upper_left(a.left, b.left).val() as i64),
            };
            &&& lrem.wf()
            &&& forall|p: int| lrem.covers(p) ==> a.covers(p) && !b.covers(p)
        }),
{
    lemma_overlap_positions(a, b);
    let il = upper_left(a.left, b.left);
    assert(il == b.left);
    let lrem = AtomicInterval { left: a.left, right: Bound::Excluded(il.val() as i64) };
    assert(lrem.hi() == 2 * il.val());
    assert(a.lo() <= 2 * a.left.val() + 1);
    assert forall|p: int| lrem.covers(p) implies a.covers(p) && !b.covers(p) by {
        assert(p < 2 * il.val() <= b.lo());
        assert(p < b.hi());
        assert(p < a.hi());
    }
}

/// When the cut falls strictly inside `self` on the right, the right
/// remainder is well-formed and covers only points of `self` outside `other`.
proof fn lemma_right_remainder(a: AtomicInterval, b: AtomicInterval)
    requires
        a.wf(),
        b.wf(),
        a.overlaps(b),
        lower_right(a.right, b.right).val() < a.right.val(),
    ensures
        ({
            let rrem = AtomicInterval {
                left: Bound::Excluded(lower_right(a.right, b.right).val() as i64),
                right: a.right,
            };
            &&& rrem.wf()
            &&& forall|p: int| rrem.covers(p) ==> a.covers(p) && !b.covers(p)
        }),
{
    lemma_overlap_positions(a, b);
    let ir = lower_right(a.right, b.right);
    assert(ir == b.right);
    let rrem = AtomicInterval { left: Bound::Excluded(ir.val() as i64), right: a.right };
    assert(rrem.lo() == 2 * ir.val() + 1);
    assert(a.hi() >= 2 * a.right.val());
    assert forall|p: int| rrem.covers(p) implies a.covers(p) && !b.covers(p) by {
        assert(p > 2 * ir.val() >= b.hi() - 1);
        assert(p >= b.hi());
        assert(p >= a.lo());
    }
}

} // verus!
