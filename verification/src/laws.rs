//! The algebraic laws of the engine, stated over the specification model
//! and proved once for all inputs.

use vstd::prelude::*;

verus! {

use crate::atomic::AtomicInterval;
use crate::atomic::diff_seq;
use crate::atomic::inter_seq;
use crate::atomic::lemma_common_part;
use crate::atomic::lemma_diff_seq_exact;
use crate::atomic::lemma_diff_seq_props;
use crate::atomic::lemma_span;
use crate::atomic::span;
use crate::atomic::union_seq;
use crate::bound::lemma_left_pos_injective;
use crate::bound::lemma_right_pos_injective;
use crate::set::canonical;
use crate::set::covers_seq;
use crate::set::lemma_canonical_unique;
use crate::set::lemma_covers_add;

/// A well-formed interval overlaps another or is disjoint from it, never
/// both and never neither: `is_overlapping` and `is_disjoint` disagree on
/// every pair of inputs.
pub proof fn lemma_overlap_disjoint_duality(a: AtomicInterval, b: AtomicInterval)
    requires
        a.wf(),
        b.wf(),
    ensures
        a.overlaps(b) != a.disjoint_from(b),
{
}

/// The union of two atomic intervals does not depend on their order.
pub proof fn lemma_atomic_union_commutes(a: AtomicInterval, b: AtomicInterval)
    requires
        a.wf(),
        b.wf(),
    ensures
        union_seq(a, b) == union_seq(b, a),
{
    if a.overlaps(b) {
        let p = choose|p: int| a.covers(p) && b.covers(p);
        assert(b.covers(p) && a.covers(p));
    }
    if b.overlaps(a) {
        let p = choose|p: int| b.covers(p) && a.covers(p);
        assert(a.covers(p) && b.covers(p));
    }
    if a.left.left_pos() == b.left.left_pos() {
        lemma_left_pos_injective(a.left, b.left);
    }
    if a.right.right_pos() == b.right.right_pos() {
        lemma_right_pos_injective(a.right, b.right);
    }
    assert(union_seq(a, b) =~= union_seq(b, a));
}

/// The union of an atomic interval with itself is that interval unchanged.
pub proof fn lemma_atomic_union_self(a: AtomicInterval)
    requires
        a.wf(),
    ensures
        union_seq(a, a) == seq![a],
{
    assert(a.covers(a.lo()));
    assert(union_seq(a, a) =~= seq![a]);
}

/// The union of two interval sets does not depend on their order: whatever
/// canonical sequences cover the points of `x` with `y` and of `y` with `x`
/// are one and the same.  Together with the contract of
/// [`crate::set::IntervalSet::union`] this is commutativity.
pub proof fn lemma_set_union_commutes(
    x: Seq<AtomicInterval>,
    y: Seq<AtomicInterval>,
    r1: Seq<AtomicInterval>,
    r2: Seq<AtomicInterval>,
)
    requires
        canonical(r1),
        canonical(r2),
        forall|p: int| #[trigger] covers_seq(r1, p) == (covers_seq(x, p) || covers_seq(y, p)),
        forall|p: int| #[trigger] covers_seq(r2, p) == (covers_seq(y, p) || covers_seq(x, p)),
    ensures
        r1 == r2,
{
    assert forall|p: int| covers_seq(r1, p) == covers_seq(r2, p) by {}
    lemma_canonical_unique(r1, r2);
}

/// Unioning a canonical interval set with itself gives it back unchanged:
/// whatever canonical sequence covers the points of `x` with `x` is `x`.
pub proof fn lemma_set_union_self(x: Seq<AtomicInterval>, r: Seq<AtomicInterval>)
    requires
        canonical(x),
        canonical(r),
        forall|p: int| #[trigger] covers_seq(r, p) == (covers_seq(x, p) || covers_seq(x, p)),
    ensures
        r == x,
{
    lemma_canonical_unique(r, x);
}

/// Wherever one interval's endpoint falls strictly inside the other, that
/// endpoint is inclusive.  Under this condition no exclusive cut of the
/// difference drops a point, and the partition law below holds in full.
pub open spec fn interior_bounds_inclusive(a: AtomicInterval, b: AtomicInterval) -> bool {
    &&& a.lo() < b.lo() ==> b.left is Included
    &&& b.hi() < a.hi() ==> b.right is Included
    &&& b.lo() < a.lo() ==> a.left is Included
    &&& a.hi() < b.hi() ==> a.right is Included
}

/// Partition law: for two overlapping intervals whose interior endpoints
/// are inclusive, the intersection, `a \ b` and `b \ a` together cover
/// exactly the span of the union, and no point is covered by two of the
/// pieces.
pub proof fn lemma_partition(a: AtomicInterval, b: AtomicInterval)
    requires
        a.wf(),
        b.wf(),
        a.overlaps(b),
        interior_bounds_inclusive(a, b),
    ensures
        ({
            let pieces = inter_seq(a, b) + diff_seq(a, b) + diff_seq(b, a);
            &&& forall|p: int| #[trigger] covers_seq(pieces, p) == span(a, b).covers(p)
            &&& forall|k: int, l: int, p: int|
                0 <= k < l < pieces.len() ==> !(#[trigger] pieces[k].covers(p)
                    && #[trigger] pieces[l].covers(p))
        }),
{
    let inter = inter_seq(a, b);
    let dab = diff_seq(a, b);
    let dba = diff_seq(b, a);
    let pieces = inter + dab + dba;
    lemma_span(a, b);
    lemma_common_part(a, b);
    lemma_diff_seq_props(a, b);
    lemma_diff_seq_props(b, a);
    lemma_diff_seq_exact(a, b);
    assert(b.overlaps(a)) by {
        let p = choose|p: int| a.covers(p) && b.covers(p);
        assert(b.covers(p) && a.covers(p));
    }
    lemma_diff_seq_exact(b, a);
    lemma_covers_add(inter + dab, dba);
    lemma_covers_add(inter, dab);
    assert forall|p: int| covers_seq(inter, p) == (a.covers(p) && b.covers(p)) by {
        if a.covers(p) && b.covers(p) {
            assert(inter[0].covers(p));
        }
        if covers_seq(inter, p) {
            let k = choose|k: int| 0 <= k < inter.len() && inter[k].covers(p);
            assert(inter[0].covers(p));
        }
    }
    assert forall|p: int| covers_seq(dab, p) == (a.covers(p) && !b.covers(p)) by {
        if a.covers(p) && !b.covers(p) {
            let k = choose|k: int| 0 <= k < dab.len() && dab[k].covers(p);
            assert(dab[k].covers(p));
        }
    }
    assert forall|p: int| covers_seq(dba, p) == (b.covers(p) && !a.covers(p)) by {
        if b.covers(p) && !a.covers(p) {
            let k = choose|k: int| 0 <= k < dba.len() && dba[k].covers(p);
            assert(dba[k].covers(p));
        }
    }
    assert forall|p: int| #[trigger] covers_seq(pieces, p) == span(a, b).covers(p) by {
        assert(covers_seq(pieces, p) == (covers_seq(inter, p) || covers_seq(dab, p)
            || covers_seq(dba, p)));
    }
    assert forall|k: int, l: int, p: int|
        0 <= k < l < pieces.len() implies !(#[trigger] pieces[k].covers(p)
        && #[trigger] pieces[l].covers(p)) by {
        if pieces[k].covers(p) && pieces[l].covers(p) {
            let n1 = inter.len() as int;
            let n2 = dab.len() as int;
            if k < n1 {
                assert(pieces[k] == inter[k]);
                assert(a.covers(p) && b.covers(p));
            } else if k < n1 + n2 {
                assert(pieces[k] == dab[k - n1]);
                assert(a.covers(p) && !b.covers(p));
            } else {
                assert(pieces[k] == dba[k - n1 - n2]);
                assert(b.covers(p) && !a.covers(p));
            }
            if l < n1 {
                assert(pieces[l] == inter[l]);
                assert(a.covers(p) && b.covers(p));
            } else if l < n1 + n2 {
                assert(pieces[l] == dab[l - n1]);
                assert(a.covers(p) && !b.covers(p));
            } else {
                assert(pieces[l] == dba[l - n1 - n2]);
                assert(b.covers(p) && !a.covers(p));
            }
            // The only pairs not yet contradictory are two pieces of the
            // same difference, which are separated by a gap.
            if n1 <= k < n1 + n2 && n1 <= l < n1 + n2 {
                assert(dab[k - n1].hi() < dab[l - n1].lo());
            }
            if n1 + n2 <= k && n1 + n2 <= l {
                assert(dba[k - n1 - n2].hi() < dba[l - n1 - n2].lo());
            }
            assert(false);
        }
    }
}

/// Rebuild corollary of the partition law: merging the intersection and the
/// two differences back into canonical form reconstructs exactly the one
/// interval that is the union of the two inputs.
pub proof fn lemma_partition_rebuild(a: AtomicInterval, b: AtomicInterval, r: Seq<AtomicInterval>)
    requires
        a.wf(),
        b.wf(),
        a.overlaps(b),
        interior_bounds_inclusive(a, b),
        canonical(r),
        forall|p: int|
            #[trigger] covers_seq(r, p) == covers_seq(
                inter_seq(a, b) + diff_seq(a, b) + diff_seq(b, a),
                p,
            ),
    ensures
        r == seq![span(a, b)],
{
    lemma_partition(a, b);
    lemma_span(a, b);
    let u = span(a, b);
    assert(canonical(seq![u])) by {
        assert(seq![u][0] == u);
    }
    assert forall|p: int| covers_seq(r, p) == covers_seq(seq![u], p) by {
        assert(covers_seq(seq![u], p) == u.covers(p)) by {
            if u.covers(p) {
                assert(seq![u][0].covers(p));
            }
        }
    }
    lemma_canonical_unique(r, seq![u]);
}

} // verus!
