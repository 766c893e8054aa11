//! The `IntervalSet` type: an ordered collection of atomic intervals
//! representing a (possibly disjoint, possibly empty) union of ranges.
//!
//! A set in canonical form is sorted by ascending left bound and fully
//! reduced: any two of its intervals are disjoint and non-adjacent, so no
//! two could be merged without adding points.  Every operation below yields
//! a canonical set, and the canonical representation of a given collection
//! of points is unique ([`lemma_canonical_unique`]).

use vstd::prelude::*;

verus! {

use crate::atomic::AtomicInterval;

/// All intervals of the sequence are well-formed.
pub open spec fn seq_wf(s: Seq<AtomicInterval>) -> bool {
    forall|i: int| 0 <= i < s.len() ==> (#[trigger] s[i]).wf()
}

/// The sequence is in canonical form: well-formed intervals, sorted by
/// ascending position, and any two separated by a genuine gap (disjoint and
/// not adjacent).
pub open spec fn canonical(s: Seq<AtomicInterval>) -> bool {
    seq_wf(s) && forall|i: int, j: int|
        0 <= i < j < s.len() ==> (#[trigger] s[i]).hi() < (#[trigger] s[j]).lo()
}

/// Some interval of the sequence covers position `p`.
pub open spec fn covers_seq(s: Seq<AtomicInterval>, p: int) -> bool {
    exists|i: int| 0 <= i < s.len() && (#[trigger] s[i]).covers(p)
}

/// The intervals are sorted by ascending left bound.
pub open spec fn sorted_by_lo(s: Seq<AtomicInterval>) -> bool {
    forall|i: int, j: int|
        0 <= i < j < s.len() ==> (#[trigger] s[i]).lo() <= (#[trigger] s[j]).lo()
}

/// Appending one interval adds exactly its points.
pub proof fn lemma_covers_push(s: Seq<AtomicInterval>, x: AtomicInterval)
    ensures
        forall|p: int| covers_seq(s.push(x), p) == (covers_seq(s, p) || x.covers(p)),
{
    assert forall|p: int| covers_seq(s.push(x), p) == (covers_seq(s, p) || x.covers(p)) by {
        if covers_seq(s.push(x), p) {
            let i = choose|i: int| 0 <= i < s.push(x).len() && s.push(x)[i].covers(p);
            if i < s.len() {
                assert(s[i].covers(p));
            } else {
                assert(x.covers(p));
            }
        }
        if covers_seq(s, p) {
            let i = choose|i: int| 0 <= i < s.len() && s[i].covers(p);
            assert(s.push(x)[i].covers(p));
        }
        if x.covers(p) {
            assert(s.push(x)[s.len() as int].covers(p));
        }
    }
}

/// Concatenation covers exactly the points of the two parts together.
pub proof fn lemma_covers_add(s: Seq<AtomicInterval>, t: Seq<AtomicInterval>)
    ensures
        forall|p: int| covers_seq(s + t, p) == (covers_seq(s, p) || covers_seq(t, p)),
{
    assert forall|p: int| covers_seq(s + t, p) == (covers_seq(s, p) || covers_seq(t, p)) by {
        if covers_seq(s + t, p) {
            let i = choose|i: int| 0 <= i < (s + t).len() && (s + t)[i].covers(p);
            if i < s.len() {
                assert(s[i].covers(p));
            } else {
                assert(t[i - s.len()].covers(p));
            }
        }
        if covers_seq(s, p) {
            let i = choose|i: int| 0 <= i < s.len() && s[i].covers(p);
            assert((s + t)[i].covers(p));
        }
        if covers_seq(t, p) {
            let i = choose|i: int| 0 <= i < t.len() && t[i].covers(p);
            assert((s + t)[s.len() + i].covers(p));
        }
    }
}

/// Taking one more element of a sequence adds exactly that element's points.
pub proof fn lemma_covers_take_step(s: Seq<AtomicInterval>, i: int)
    requires
        0 <= i < s.len(),
    ensures
        forall|p: int|
            covers_seq(s.take(i + 1), p) == (covers_seq(s.take(i), p) || s[i].covers(p)),
{
    assert(s.take(i + 1) =~= s.take(i).push(s[i]));
    lemma_covers_push(s.take(i), s[i]);
}

/// In canonical form, a sequence covers a point exactly when the set is
/// non-empty; the canonical representation of "no points" is the empty
/// sequence.
pub proof fn lemma_nonempty_covers(s: Seq<AtomicInterval>)
    requires
        seq_wf(s),
        s.len() > 0,
    ensures
        covers_seq(s, s[0].lo()),
{
    assert(s[0].covers(s[0].lo()));
}

/// Two canonical sequences covering exactly the same points are equal: the
/// canonical form of an interval set is unique.
pub proof fn lemma_canonical_unique(x: Seq<AtomicInterval>, y: Seq<AtomicInterval>)
    requires
        canonical(x),
        canonical(y),
        forall|p: int| covers_seq(x, p) == covers_seq(y, p),
    ensures
        x == y,
    decreases x.len(),
{
    if x.len() == 0 {
        if y.len() > 0 {
            lemma_nonempty_covers(y);
            assert(covers_seq(x, y[0].lo()));
            let i = choose|i: int| 0 <= i < x.len() && x[i].covers(y[0].lo());
            assert(false);
        }
        assert(x =~= y);
    } else if y.len() == 0 {
        lemma_nonempty_covers(x);
        assert(covers_seq(y, x[0].lo()));
        let i = choose|i: int| 0 <= i < y.len() && y[i].covers(x[0].lo());
        assert(false);
    } else {
        lemma_canonical_heads_match(x, y);
        lemma_canonical_heads_match(y, x);
        crate::atomic::lemma_positions_determine(x[0], y[0]);
        let xt = x.drop_first();
        let yt = y.drop_first();
        assert forall|p: int| covers_seq(xt, p) == covers_seq(yt, p) by {
            lemma_covers_tail(x, p);
            lemma_covers_tail(y, p);
        }
        lemma_canonical_unique(xt, yt);
        assert forall|i: int| 0 <= i < x.len() implies x[i] == y[i] by {
            if i > 0 {
                assert(x[i] == xt[i - 1]);
                assert(y[i] == yt[i - 1]);
            }
        }
        assert(x =~= y);
    }
}

/// In a canonical sequence the first interval alone covers every point up to
/// its end, and the rest cover only points past it; so the tail covers
/// exactly the points past the first interval's end.
proof fn lemma_covers_tail(x: Seq<AtomicInterval>, p: int)
    requires
        canonical(x),
        x.len() > 0,
    ensures
        covers_seq(x.drop_first(), p) == (covers_seq(x, p) && p > x[0].hi()),
        canonical(x.drop_first()),
{
    let xt = x.drop_first();
    assert forall|i: int| 0 <= i < xt.len() implies (#[trigger] xt[i]) == x[i + 1] by {}
    if covers_seq(xt, p) {
        let i = choose|i: int| 0 <= i < xt.len() && xt[i].covers(p);
        assert(x[i + 1].covers(p));
        assert(x[0].hi() < x[i + 1].lo());
    }
    if covers_seq(x, p) && p > x[0].hi() {
        let i = choose|i: int| 0 <= i < x.len() && x[i].covers(p);
        assert(i > 0);
        assert(xt[i - 1].covers(p));
    }
}

/// Two canonical sequences covering the same points start with bounds at the
/// same positions: the first covered point and the first uncovered point
/// past it agree.
proof fn lemma_canonical_heads_match(x: Seq<AtomicInterval>, y: Seq<AtomicInterval>)
    requires
        canonical(x),
        canonical(y),
        x.len() > 0,
        y.len() > 0,
        forall|p: int| covers_seq(x, p) == covers_seq(y, p),
    ensures
        x[0].lo() >= y[0].lo(),
        x[0].hi() >= y[0].hi(),
{
    // x[0].lo is covered by y, but y covers nothing below y[0].lo.
    lemma_nonempty_covers(x);
    let i = choose|i: int| 0 <= i < y.len() && y[i].covers(x[0].lo());
    assert(y[i].lo() >= y[0].lo());
    // Suppose x[0].hi < y[0].hi.  Then the position x[0].hi lies within y[0]
    // (its start y[0].lo <= x[0].lo <= x[0].hi is covered by x, hence >=
    // y[0].lo), so y covers it; but no interval of x does.
    if x[0].hi() < y[0].hi() {
        let j = choose|j: int| 0 <= j < x.len() && x[j].covers(x[0].lo());
        assert(covers_seq(y, x[0].lo()));
        let k = choose|k: int| 0 <= k < y.len() && y[k].covers(x[0].lo());
        assert(y[k].lo() >= y[0].lo() || k == 0);
        assert(y[0].lo() <= x[0].lo());
        assert(y[0].covers(x[0].hi()));
        assert(covers_seq(y, x[0].hi()));
        assert(covers_seq(x, x[0].hi()));
        let m = choose|m: int| 0 <= m < x.len() && x[m].covers(x[0].hi());
        assert(m > 0 ==> x[m].lo() > x[0].hi());
        assert(false);
    }
}

/// A set of intervals representing a union of ranges, kept in canonical
/// form by every operation that produces one.
#[derive(Debug, Clone)]
pub struct IntervalSet {
    /// The atomic intervals that make up the set, sorted and fully reduced.
    pub intervals: Vec<AtomicInterval>,
}

impl View for IntervalSet {
    type V = Seq<AtomicInterval>;

    open spec fn view(&self) -> Seq<AtomicInterval> {
        self.intervals@
    }
}

impl IntervalSet {
    /// Returns the empty interval set: no intervals, covering no points.
    pub fn new() -> (r: IntervalSet)
        ensures
            r@.len() == 0,
            canonical(r@),
    {
        IntervalSet { intervals: Vec::new() }
    }

    /// Wraps a single atomic interval as a one-interval set, which is
    /// always canonical.
    pub fn from(interval: AtomicInterval) -> (r: IntervalSet)
        ensures
            r@ == seq![interval],
            interval.wf() ==> canonical(r@),
            forall|p: int| covers_seq(r@, p) == interval.covers(p),
    {
        let mut intervals: Vec<AtomicInterval> = Vec::new();
        intervals.push(interval);
        proof {
            assert(intervals@ =~= seq![interval]);
            assert forall|p: int| covers_seq(intervals@, p) == interval.covers(p) by {
                if interval.covers(p) {
                    assert(intervals@[0].covers(p));
                }
            }
        }
        IntervalSet { intervals }
    }

    /// Returns `true` iff this set holds no intervals.  For a set of
    /// well-formed intervals this is the same as covering no points: the
    /// empty sequence is the one representation of the empty set.
    pub fn is_empty(&self) -> (r: bool)
        ensures
            r == (self@.len() == 0),
            seq_wf(self@) ==> r == (forall|p: int| !covers_seq(self@, p)),
    {
        proof {
            if seq_wf(self@) && self@.len() > 0 {
                lemma_nonempty_covers(self@);
            }
            if self@.len() == 0 {
                assert forall|p: int| !covers_seq(self@, p) by {}
            }
        }
        self.intervals.len() == 0
    }
}

impl IntervalSet {
    /// Computes the union of two interval sets: a canonical set covering
    /// exactly the points covered by either input.
    ///
    /// All intervals are gathered, sorted by ascending left bound, and swept
    /// left to right, merging each interval into the accumulator whenever
    /// the two overlap or are adjacent.  The inputs need not themselves be
    /// reduced: any collection of well-formed intervals comes out canonical.
    pub fn union(&self, other: &IntervalSet) -> (r: IntervalSet)
        requires
            seq_wf(self@),
            seq_wf(other@),
        ensures
            canonical(r@),
            forall|p: int|
                covers_seq(r@, p) == (covers_seq(self@, p) || covers_seq(other@, p)),
    {
        let mut combined: Vec<AtomicInterval> = Vec::new();
        let mut i: usize = 0;
        while i < self.intervals.len()
            invariant
                i <= self.intervals.len(),
                combined@ == self@.take(i as int),
            decreases self.intervals.len() - i,
        {
            combined.push(self.intervals[i]);
            proof {
                assert(combined@ =~= self@.take(i + 1));
            }
            i += 1;
        }
        let mut j: usize = 0;
        while j < other.intervals.len()
            invariant
                j <= other.intervals.len(),
                combined@ == self@ + other@.take(j as int),
            decreases other.intervals.len() - j,
        {
            combined.push(other.intervals[j]);
            proof {
                assert(combined@ =~= self@ + other@.take(j + 1));
            }
            j += 1;
        }
        proof {
            assert(combined@ == self@ + other@) by {
                assert(other@.take(other@.len() as int) =~= other@);
            }
            assert(seq_wf(combined@));
            lemma_covers_add(self@, other@);
        }
        let sorted = sort_by_left(combined);
        let merged = merge_sorted(sorted);
        proof {
            assert forall|p: int|
                covers_seq(merged@, p) == (covers_seq(self@, p) || covers_seq(
                    other@,
                    p,
                )) by {}
        }
        IntervalSet { intervals: merged }
    }
}

impl IntervalSet {
    /// Computes the intersection of two interval sets: a canonical set
    /// covering exactly the points covered by both inputs.
    ///
    /// Every interval of one input is intersected with every interval of
    /// the other and the non-empty results collected.  Because both inputs
    /// are canonical, the pieces come out sorted and separated, so no
    /// re-merging pass is needed.
    pub fn intersection(&self, other: &IntervalSet) -> (r: IntervalSet)
        requires
            canonical(self@),
            canonical(other@),
        ensures
            canonical(r@),
            forall|p: int|
                covers_seq(r@, p) == (covers_seq(self@, p) && covers_seq(other@, p)),
    {
        let mut out: Vec<AtomicInterval> = Vec::new();
        let mut i: usize = 0;
        while i < self.intervals.len()
            invariant
                i <= self.intervals.len(),
                canonical(self@),
                canonical(other@),
                canonical(out@),
                i < self@.len() ==> forall|k: int|
                    0 <= k < out@.len() ==> (#[trigger] out@[k]).hi() < self@[i as int].lo(),
                forall|p: int| #[trigger] covers_seq(out@, p) == (covers_seq(
                    self@.take(i as int),
                    p,
                ) && covers_seq(other@, p)),
            decreases self.intervals.len() - i,
        {
            let a = self.intervals[i];
            let mut j: usize = 0;
            while j < other.intervals.len()
                invariant
                    i < self.intervals.len(),
                    j <= other.intervals.len(),
                    a == self@[i as int],
                    canonical(self@),
                    canonical(other@),
                    canonical(out@),
                    j < other@.len() ==> forall|k: int|
                        0 <= k < out@.len() ==> ((#[trigger] out@[k]).hi() < a.lo()
                            || out@[k].hi() < other@[j as int].lo()),
                    forall|k: int| 0 <= k < out@.len() ==> (#[trigger] out@[k]).hi() <= a.hi(),
                    forall|p: int| #[trigger] covers_seq(out@, p) == ((covers_seq(
                        self@.take(i as int),
                        p,
                    ) && covers_seq(other@, p)) || (a.covers(p) && covers_seq(
                        other@.take(j as int),
                        p,
                    ))),
                decreases other.intervals.len() - j,
            {
                let b = other.intervals[j];
                let v = a.intersection(&b);
                let ghost old_out = out@;
                let ghost jj = j as int;
                proof {
                    lemma_covers_take_step(other@, j as int);
                }
                if v.len() == 1 {
                    let q = v[0];
                    out.push(q);
                    proof {
                        assert(q.lo() == if a.lo() <= b.lo() {
                            b.lo()
                        } else {
                            a.lo()
                        });
                        assert forall|x: int, y: int|
                            0 <= x < y < out@.len() implies (#[trigger] out@[x]).hi()
                            < (#[trigger] out@[y]).lo() by {
                            assert(out@[x] == old_out[x]);
                            if y < old_out.len() {
                                assert(out@[y] == old_out[y]);
                            }
                        }
                        lemma_covers_push(old_out, q);
                        assert forall|p: int|
                            covers_seq(out@, p) == ((covers_seq(self@.take(i as int), p)
                                && covers_seq(other@, p)) || (a.covers(p) && covers_seq(
                                other@.take(j + 1),
                                p,
                            ))) by {
                            assert(out@ == old_out.push(q));
                            assert(covers_seq(old_out.push(q), p) == (covers_seq(old_out, p)
                                || q.covers(p)));
                            assert(covers_seq(old_out, p) == ((covers_seq(
                                self@.take(i as int),
                                p,
                            ) && covers_seq(other@, p)) || (a.covers(p) && covers_seq(
                                other@.take(j as int),
                                p,
                            ))));
                            assert(covers_seq(other@.take(j + 1), p) == (covers_seq(
                                other@.take(j as int),
                                p,
                            ) || other@[j as int].covers(p)));
                            assert(b == other@[j as int]);
                            assert((v@.len() == 1 && v@[0].covers(p)) == (a.covers(p)
                                && b.covers(p)));
                        }
                    }
                } else {
                    proof {
                        assert forall|p: int|
                            covers_seq(out@, p) == ((covers_seq(self@.take(i as int), p)
                                && covers_seq(other@, p)) || (a.covers(p) && covers_seq(
                                other@.take(j + 1),
                                p,
                            ))) by {
                            assert(covers_seq(out@, p) == ((covers_seq(self@.take(i as int), p)
                                && covers_seq(other@, p)) || (a.covers(p) && covers_seq(
                                other@.take(j as int),
                                p,
                            ))));
                            assert(covers_seq(other@.take(j + 1), p) == (covers_seq(
                                other@.take(j as int),
                                p,
                            ) || other@[j as int].covers(p)));
                            assert(b == other@[j as int]);
                            assert((v@.len() == 1 && v@[0].covers(p)) == (a.covers(p)
                                && b.covers(p)));
                        }
                    }
                }
                j += 1;
                proof {
                    assert(j as int == jj + 1);
                    assert forall|p: int|
                        covers_seq(out@, p) == ((covers_seq(self@.take(i as int), p)
                            && covers_seq(other@, p)) || (a.covers(p) && covers_seq(
                            other@.take(j as int),
                            p,
                        ))) by {
                        assert(other@.take(j as int) == other@.take(jj + 1));
                        assert(covers_seq(out@, p) == ((covers_seq(self@.take(i as int), p)
                            && covers_seq(other@, p)) || (a.covers(p) && covers_seq(
                            other@.take(jj + 1),
                            p,
                        ))));
                    }
                }
            }
            proof {
                lemma_covers_take_step(self@, i as int);
                assert(other@.take(other@.len() as int) =~= other@);
                assert forall|p: int|
                    covers_seq(out@, p) == (covers_seq(self@.take(i + 1), p) && covers_seq(
                        other@,
                        p,
                    )) by {
                    assert(other@.take(other@.len() as int) == other@.take(j as int));
                    assert(covers_seq(out@, p) == ((covers_seq(self@.take(i as int), p)
                        && covers_seq(other@, p)) || (a.covers(p) && covers_seq(
                        other@.take(j as int),
                        p,
                    ))));
                    assert(covers_seq(self@.take(i + 1), p) == (covers_seq(
                        self@.take(i as int),
                        p,
                    ) || self@[i as int].covers(p)));
                    assert(a == self@[i as int]);
                }
            }
            i += 1;
        }
        proof {
            assert(self@.take(self@.len() as int) =~= self@);
        }
        IntervalSet { intervals: out }
    }
}

/// One subtraction round: `b` taken out of every part, in order.
pub open spec fn subtract_round(parts: Seq<AtomicInterval>, b: AtomicInterval) -> Seq<
    AtomicInterval,
>
    decreases parts.len(),
{
    if parts.len() == 0 {
        Seq::empty()
    } else {
        subtract_round(parts.drop_last(), b) + crate::atomic::diff_seq(parts.last(), b)
    }
}

/// All rounds: the intervals of `bs` taken out of the parts, first to last.
pub open spec fn subtract_all(parts: Seq<AtomicInterval>, bs: Seq<AtomicInterval>) -> Seq<
    AtomicInterval,
>
    decreases bs.len(),
{
    if bs.len() == 0 {
        parts
    } else {
        subtract_round(subtract_all(parts, bs.drop_last()), bs.last())
    }
}

/// The full difference: each interval of `xs` minus all of `bs`, with the
/// remainders concatenated in order.
pub open spec fn set_diff_seq(xs: Seq<AtomicInterval>, bs: Seq<AtomicInterval>) -> Seq<
    AtomicInterval,
>
    decreases xs.len(),
{
    if xs.len() == 0 {
        Seq::empty()
    } else {
        set_diff_seq(xs.drop_last(), bs) + subtract_all(seq![xs.last()], bs)
    }
}

impl IntervalSet {
    /// Computes the difference of two interval sets: what is left of `self`
    /// after subtracting every interval of `other` from every interval of
    /// `self`, each subtraction fanning a part out into up to two remainders
    /// that feed into the next (see [`crate::atomic::diff_seq`] for the cut
    /// rule of a single subtraction).  The result is canonical, and every
    /// point it covers lies in `self` and outside `other`.
    pub fn difference(&self, other: &IntervalSet) -> (r: IntervalSet)
        requires
            canonical(self@),
            canonical(other@),
        ensures
            r@ == set_diff_seq(self@, other@),
            canonical(r@),
            forall|p: int|
                #[trigger] covers_seq(r@, p) ==> covers_seq(self@, p) && !covers_seq(other@, p),
    {
        let mut result: Vec<AtomicInterval> = Vec::new();
        let mut i: usize = 0;
        while i < self.intervals.len()
            invariant
                i <= self.intervals.len(),
                canonical(self@),
                canonical(other@),
                result@ == set_diff_seq(self@.take(i as int), other@),
                canonical(result@),
                i < self@.len() ==> forall|k: int|
                    0 <= k < result@.len() ==> (#[trigger] result@[k]).hi() < self@[
                        i as int
                    ].lo(),
                forall|p: int|
                    #[trigger] covers_seq(result@, p) ==> covers_seq(self@.take(i as int), p)
                        && !covers_seq(other@, p),
            decreases self.intervals.len() - i,
        {
            let x = self.intervals[i];
            let mut remaining: Vec<AtomicInterval> = Vec::new();
            remaining.push(x);
            proof {
                assert(remaining@ =~= seq![x]);
                assert(other@.take(0) =~= Seq::<AtomicInterval>::empty());
                assert(subtract_all(seq![x], other@.take(0)) == seq![x]);
            }
            let mut j: usize = 0;
            while j < other.intervals.len()
                invariant
                    i < self.intervals.len(),
                    j <= other.intervals.len(),
                    x == self@[i as int],
                    canonical(self@),
                    canonical(other@),
                    remaining@ == subtract_all(seq![x], other@.take(j as int)),
                    canonical(remaining@),
                    forall|k: int|
                        0 <= k < remaining@.len() ==> x.lo() <= (#[trigger] remaining@[k]).lo()
                            && remaining@[k].hi() <= x.hi(),
                    forall|k: int, p: int|
                        0 <= k < remaining@.len() && #[trigger] remaining@[k].covers(p)
                            ==> x.covers(p) && !covers_seq(other@.take(j as int), p),
                decreases other.intervals.len() - j,
            {
                let b = other.intervals[j];
                let ghost old_remaining = remaining@;
                let mut new_remaining: Vec<AtomicInterval> = Vec::new();
                let mut m: usize = 0;
                while m < remaining.len()
                    invariant
                        m <= remaining.len(),
                        b.wf(),
                        x.wf(),
                        canonical(remaining@),
                        forall|k: int|
                            0 <= k < remaining@.len() ==> x.lo() <= (
                            #[trigger] remaining@[k]).lo() && remaining@[k].hi() <= x.hi(),
                        new_remaining@ == subtract_round(remaining@.take(m as int), b),
                        canonical(new_remaining@),
                        m < remaining@.len() ==> forall|k: int|
                            0 <= k < new_remaining@.len() ==> (#[trigger] new_remaining@[
                                k
                            ]).hi() < remaining@[m as int].lo(),
                        forall|k: int|
                            0 <= k < new_remaining@.len() ==> x.lo() <= (
                            #[trigger] new_remaining@[k]).lo() && new_remaining@[k].hi()
                                <= x.hi(),
                        forall|k: int, p: int|
                            0 <= k < new_remaining@.len() && #[trigger] new_remaining@[
                                k
                            ].covers(p) ==> covers_seq(remaining@, p) && !b.covers(p),
                    decreases remaining.len() - m,
                {
                    let part = remaining[m];
                    let d = part.difference(&b);
                    proof {
                        crate::atomic::lemma_diff_seq_props(part, b);
                    }
                    let ghost base = new_remaining@;
                    let mut t: usize = 0;
                    while t < d.len()
                        invariant
                            t <= d.len(),
                            m < remaining.len(),
                            part == remaining@[m as int],
                            b.wf(),
                            x.wf(),
                            canonical(remaining@),
                            forall|k: int|
                                0 <= k < remaining@.len() ==> x.lo() <= (
                                #[trigger] remaining@[k]).lo() && remaining@[k].hi()
                                    <= x.hi(),
                            d@ == crate::atomic::diff_seq(part, b),
                            new_remaining@ == base + d@.take(t as int),
                            canonical(new_remaining@),
                            forall|k: int|
                                0 <= k < base.len() ==> (#[trigger] base[k]).hi() < remaining@[
                                    m as int
                                ].lo(),
                            base == subtract_round(remaining@.take(m as int), b),
                            forall|k: int|
                                0 <= k < new_remaining@.len() ==> x.lo() <= (
                                #[trigger] new_remaining@[k]).lo() && new_remaining@[
                                    k
                                ].hi() <= x.hi(),
                            forall|k: int, p: int|
                                0 <= k < new_remaining@.len() && #[trigger] new_remaining@[
                                    k
                                ].covers(p) ==> covers_seq(remaining@, p) && !b.covers(p),
                        decreases d.len() - t,
                    {
                        let ghost before = new_remaining@;
                        let piece = d[t];
                        new_remaining.push(piece);
                        proof {
                            assert(new_remaining@ =~= base + d@.take(t + 1));
                            assert forall|a2: int, b2: int|
                                0 <= a2 < b2 < new_remaining@.len() implies (
                            #[trigger] new_remaining@[a2]).hi() < (#[trigger] new_remaining@[
                                b2
                            ]).lo() by {
                                assert(new_remaining@[a2] == before[a2]);
                                if b2 < before.len() {
                                    assert(new_remaining@[b2] == before[b2]);
                                } else {
                                    assert(new_remaining@[b2] == piece);
                                    if a2 < base.len() {
                                        assert(base[a2].hi() < remaining@[m as int].lo());
                                        assert(remaining@[m as int].lo() <= piece.lo());
                                    } else {
                                        assert(before[a2] == d@[a2 - base.len()]);
                                        assert(d@.len() == 2 && a2 - base.len() == 0 && t
                                            == 1);
                                    }
                                }
                            }
                            assert forall|k: int, p: int|
                                0 <= k < new_remaining@.len() && #[trigger] new_remaining@[
                                    k
                                ].covers(p) implies covers_seq(remaining@, p) && !b.covers(
                                p,
                            ) by {
                                if k == new_remaining@.len() - 1 {
                                    assert(piece.covers(p) ==> part.covers(p)
                                        && !b.covers(p));
                                    if piece.covers(p) {
                                        assert(remaining@[m as int].covers(p));
                                    }
                                } else {
                                    assert(new_remaining@[k] == before[k]);
                                }
                            }
                        }
                        t += 1;
                    }
                    proof {
                        assert(d@.take(d@.len() as int) =~= d@);
                        assert(remaining@.take(m + 1).drop_last() =~= remaining@.take(
                            m as int,
                        ));
                        assert(remaining@.take(m + 1).last() == remaining@[m as int]);
                        assert(subtract_round(remaining@.take(m + 1), b) == subtract_round(
                            remaining@.take(m as int),
                            b,
                        ) + crate::atomic::diff_seq(remaining@[m as int], b));
                        assert(new_remaining@ == subtract_round(remaining@.take(m + 1), b));
                        assert forall|k: int|
                            0 <= k < new_remaining@.len() && m + 1 < remaining@.len()
                                implies (#[trigger] new_remaining@[k]).hi() < remaining@[m
                            + 1].lo() by {
                            assert(new_remaining@[k].hi() <= x.hi());
                            if k < base.len() {
                                assert(base[k].hi() < remaining@[m as int].lo());
                                assert(remaining@[m as int].lo() < remaining@[m + 1].lo());
                            } else {
                                assert(new_remaining@[k].hi() <= remaining@[m as int].hi());
                                assert(remaining@[m as int].hi() < remaining@[m + 1].lo());
                            }
                        }
                    }
                    m += 1;
                }
                proof {
                    assert(remaining@.take(remaining@.len() as int) =~= remaining@);
                    assert(new_remaining@ == subtract_round(remaining@, b));
                    lemma_covers_take_step(other@, j as int);
                    assert(b == other@[j as int]);
                    assert(other@.take(j + 1).drop_last() =~= other@.take(j as int));
                    assert(other@.take(j + 1).last() == other@[j as int]);
                    assert(subtract_all(seq![x], other@.take(j + 1)) == subtract_round(
                        subtract_all(seq![x], other@.take(j as int)),
                        other@[j as int],
                    ));
                    assert forall|k: int, p: int|
                        0 <= k < new_remaining@.len() && #[trigger] new_remaining@[k].covers(
                            p,
                        ) implies x.covers(p) && !covers_seq(other@.take(j + 1), p) by {
                        assert(covers_seq(remaining@, p) && !b.covers(p));
                        let w = choose|w: int|
                            0 <= w < remaining@.len() && remaining@[w].covers(p);
                        assert(remaining@[w].covers(p));
                    }
                }
                remaining = new_remaining;
                j += 1;
                proof {
                    assert(remaining@ == subtract_all(seq![x], other@.take(j as int)));
                }
            }
            proof {
                assert(other@.take(other@.len() as int) =~= other@);
                assert(other@.take(j as int) == other@);
                assert(remaining@ == subtract_all(seq![x], other@));
                assert forall|k: int, p: int|
                    0 <= k < remaining@.len() && #[trigger] remaining@[k].covers(p)
                    implies x.covers(p) && !covers_seq(other@, p) by {
                    assert(x.covers(p) && !covers_seq(other@.take(j as int), p));
                }
            }
            let ghost old_result = result@;
            let mut t2: usize = 0;
            while t2 < remaining.len()
                invariant
                    t2 <= remaining.len(),
                    i < self.intervals.len(),
                    x == self@[i as int],
                    canonical(self@),
                    canonical(other@),
                    canonical(remaining@),
                    forall|k: int|
                        0 <= k < remaining@.len() ==> x.lo() <= (#[trigger] remaining@[
                            k
                        ]).lo() && remaining@[k].hi() <= x.hi(),
                    forall|k: int, p: int|
                        0 <= k < remaining@.len() && #[trigger] remaining@[k].covers(p)
                            ==> x.covers(p) && !covers_seq(other@, p),
                    result@ == old_result + remaining@.take(t2 as int),
                    old_result == set_diff_seq(self@.take(i as int), other@),
                    canonical(result@),
                    forall|k: int|
                        0 <= k < old_result.len() ==> (#[trigger] old_result[k]).hi()
                            < self@[i as int].lo(),
                    forall|p: int|
                        #[trigger] covers_seq(old_result, p) ==> covers_seq(
                            self@.take(i as int),
                            p,
                        ) && !covers_seq(other@, p),
                decreases remaining.len() - t2,
            {
                let ghost before = result@;
                let piece = remaining[t2];
                result.push(piece);
                proof {
                    assert(result@ =~= old_result + remaining@.take(t2 + 1));
                    assert forall|a2: int, b2: int|
                        0 <= a2 < b2 < result@.len() implies (#[trigger] result@[a2]).hi() < (
                        #[trigger] result@[b2]).lo() by {
                        assert(result@[a2] == before[a2]);
                        if b2 < before.len() {
                            assert(result@[b2] == before[b2]);
                        } else {
                            assert(result@[b2] == piece);
                            assert(x.lo() <= piece.lo());
                            if a2 < old_result.len() {
                                assert(old_result[a2].hi() < self@[i as int].lo());
                            } else {
                                assert(before[a2] == remaining@[a2 - old_result.len()]);
                                assert(remaining@[a2 - old_result.len()].hi() < remaining@[
                                    t2 as int
                                ].lo());
                            }
                        }
                    }
                }
                t2 += 1;
            }
            proof {
                assert(remaining@.take(remaining@.len() as int) =~= remaining@);
                assert(result@ == old_result + remaining@);
                assert(self@.take(i + 1).drop_last() =~= self@.take(i as int));
                assert(self@.take(i + 1).last() == self@[i as int]);
                assert(set_diff_seq(self@.take(i + 1), other@) == set_diff_seq(
                    self@.take(i as int),
                    other@,
                ) + subtract_all(seq![self@[i as int]], other@));
                assert(result@ == set_diff_seq(self@.take(i + 1), other@));
                lemma_covers_take_step(self@, i as int);
                lemma_covers_add(old_result, remaining@);
                assert forall|p: int|
                    #[trigger] covers_seq(result@, p) implies covers_seq(
                    self@.take(i + 1),
                    p,
                ) && !covers_seq(other@, p) by {
                    if covers_seq(remaining@, p) {
                        let w = choose|w: int|
                            0 <= w < remaining@.len() && remaining@[w].covers(p);
                        assert(remaining@[w].covers(p));
                        assert(x.covers(p) && !covers_seq(other@, p));
                    }
                }
                assert forall|k: int|
                    0 <= k < result@.len() && i + 1 < self@.len() implies (
                #[trigger] result@[k]).hi() < self@[i + 1].lo() by {
                    if k < old_result.len() {
                        assert(old_result[k].hi() < self@[i as int].lo());
                        assert(self@[i as int].lo() < self@[i as int].hi());
                    } else {
                        assert(result@[k] == remaining@[k - old_result.len()]);
                        assert(result@[k].hi() <= x.hi());
                    }
                    assert(self@[i as int].hi() < self@[i + 1].lo());
                }
            }
            i += 1;
        }
        proof {
            assert(self@.take(self@.len() as int) =~= self@);
        }
        IntervalSet { intervals: result }
    }
}

/// Sorts the intervals by ascending left bound (value first; at equal values
/// an inclusive bound sorts before an exclusive one), by insertion into an
/// already sorted prefix.  The points covered are unchanged.
fn sort_by_left(input: Vec<AtomicInterval>) -> (r: Vec<AtomicInterval>)
    requires
        seq_wf(input@),
    ensures
        seq_wf(r@),
        sorted_by_lo(r@),
        forall|p: int| covers_seq(r@, p) == covers_seq(input@, p),
{
    let mut sorted: Vec<AtomicInterval> = Vec::new();
    let mut i: usize = 0;
    while i < input.len()
        invariant
            i <= input.len(),
            seq_wf(input@),
            seq_wf(sorted@),
            sorted_by_lo(sorted@),
            forall|p: int| covers_seq(sorted@, p) == covers_seq(input@.take(i as int), p),
        decreases input.len() - i,
    {
        let x = input[i];
        let mut k: usize = 0;
        while k < sorted.len() && crate::bound::left_pos_le(&sorted[k].left, &x.left)
            invariant
                k <= sorted.len(),
                forall|m: int| 0 <= m < k ==> (#[trigger] sorted@[m]).lo() <= x.lo(),
            decreases sorted.len() - k,
        {
            k += 1;
        }
        let ghost old_sorted = sorted@;
        sorted.insert(k, x);
        proof {
            assert(sorted@ =~= old_sorted.take(k as int) + seq![x] + old_sorted.skip(k as int));
            assert forall|a: int, b: int|
                0 <= a < b < sorted@.len() implies (#[trigger] sorted@[a]).lo()
                <= (#[trigger] sorted@[b]).lo() by {
                if a < k {
                    assert(sorted@[a] == old_sorted[a]);
                }
                if a > k {
                    assert(sorted@[a] == old_sorted[a - 1]);
                }
                if b < k {
                    assert(sorted@[b] == old_sorted[b]);
                }
                if b > k {
                    assert(sorted@[b] == old_sorted[b - 1]);
                }
                if a == k && b > k {
                    assert(old_sorted[k as int].lo() > x.lo());
                    if b - 1 > k {
                        assert(old_sorted[b - 1].lo() >= old_sorted[k as int].lo());
                    }
                }
            }
            assert forall|m: int| 0 <= m < sorted@.len() implies (#[trigger] sorted@[m]).wf() by {
                if m < k {
                    assert(sorted@[m] == old_sorted[m]);
                } else if m > k {
                    assert(sorted@[m] == old_sorted[m - 1]);
                }
            }
            lemma_covers_add(old_sorted.take(k as int) + seq![x], old_sorted.skip(k as int));
            lemma_covers_add(old_sorted.take(k as int), seq![x]);
            lemma_covers_take_step(input@, i as int);
            assert forall|p: int|
                covers_seq(sorted@, p) == covers_seq(input@.take(i + 1), p) by {
                assert(old_sorted.take(k as int) + old_sorted.skip(k as int) =~= old_sorted);
                lemma_covers_add(old_sorted.take(k as int), old_sorted.skip(k as int));
                assert(covers_seq(seq![x], p) == x.covers(p)) by {
                    if x.covers(p) {
                        assert(seq![x][0].covers(p));
                    }
                }
            }
        }
        i += 1;
    }
    proof {
        assert(input@.take(input@.len() as int) =~= input@);
    }
    sorted
}

/// Sweeps a sorted sequence of well-formed intervals left to right, merging
/// each interval into the last one gathered whenever the two overlap or are
/// adjacent.  The result is canonical and covers the same points.
fn merge_sorted(sorted: Vec<AtomicInterval>) -> (r: Vec<AtomicInterval>)
    requires
        seq_wf(sorted@),
        sorted_by_lo(sorted@),
    ensures
        canonical(r@),
        forall|p: int| covers_seq(r@, p) == covers_seq(sorted@, p),
{
    let mut merged: Vec<AtomicInterval> = Vec::new();
    let mut i: usize = 0;
    while i < sorted.len()
        invariant
            i <= sorted.len(),
            seq_wf(sorted@),
            sorted_by_lo(sorted@),
            canonical(merged@),
            forall|p: int| covers_seq(merged@, p) == covers_seq(sorted@.take(i as int), p),
            merged@.len() > 0 ==> forall|j: int|
                i <= j < sorted@.len() ==> merged@[merged@.len() - 1].lo()
                    <= (#[trigger] sorted@[j]).lo(),
        decreases sorted.len() - i,
    {
        let x = sorted[i];
        let n = merged.len();
        let ghost old_merged = merged@;
        proof {
            lemma_covers_take_step(sorted@, i as int);
        }
        if n > 0 {
            let last = merged[n - 1];
            let u = AtomicInterval::union(&last, &x);
            if u.len() == 1 {
                let m = u[0];
                merged.set(n - 1, m);
                proof {
                    assert(m.lo() == last.lo());
                    assert(merged@ =~= old_merged.take(n - 1).push(m));
                    assert forall|a: int, b: int|
                        0 <= a < b < merged@.len() implies (#[trigger] merged@[a]).hi()
                        < (#[trigger] merged@[b]).lo() by {
                        assert(merged@[a] == old_merged[a]);
                        if b < n - 1 {
                            assert(merged@[b] == old_merged[b]);
                        } else {
                            assert(old_merged[a].hi() < old_merged[n - 1].lo());
                        }
                    }
                    lemma_covers_push(old_merged.take(n - 1), m);
                    assert(old_merged.take(n - 1).push(old_merged[n - 1]) =~= old_merged);
                    lemma_covers_push(old_merged.take(n - 1), old_merged[n - 1]);
                    assert forall|p: int|
                        covers_seq(merged@, p) == covers_seq(sorted@.take(i + 1), p) by {
                        assert(covers_seq(merged@, p) == (covers_seq(old_merged.take(n - 1), p)
                            || m.covers(p)));
                        assert(u@[0].covers(p) == (last.covers(p) || x.covers(p)));
                        assert(covers_seq(old_merged, p) == (covers_seq(
                            old_merged.take(n - 1),
                            p,
                        ) || last.covers(p)));
                        assert(covers_seq(sorted@.take(i + 1), p) == (covers_seq(
                            sorted@.take(i as int),
                            p,
                        ) || x.covers(p)));
                    }
                }
            } else {
                proof {
                    crate::atomic::lemma_overlap_positions(last, x);
                    assert(last.hi() < x.lo());
                    lemma_covers_push(old_merged, x);
                }
                merged.push(x);
                proof {
                    assert forall|a: int, b: int|
                        0 <= a < b < merged@.len() implies (#[trigger] merged@[a]).hi()
                        < (#[trigger] merged@[b]).lo() by {
                        assert(merged@[a] == old_merged[a]);
                        if b < n {
                            assert(merged@[b] == old_merged[b]);
                        } else {
                            assert(old_merged[a].hi() <= last.hi());
                        }
                    }
                    assert forall|p: int|
                        covers_seq(merged@, p) == covers_seq(sorted@.take(i + 1), p) by {
                        assert(covers_seq(old_merged.push(x), p) == (covers_seq(old_merged, p)
                            || x.covers(p)));
                        assert(covers_seq(sorted@.take(i + 1), p) == (covers_seq(
                            sorted@.take(i as int),
                            p,
                        ) || x.covers(p)));
                    }
                }
            }
        } else {
            proof {
                lemma_covers_push(old_merged, x);
            }
            merged.push(x);
            proof {
                assert forall|p: int|
                    covers_seq(merged@, p) == covers_seq(sorted@.take(i + 1), p) by {
                    assert(covers_seq(old_merged.push(x), p) == (covers_seq(old_merged, p)
                        || x.covers(p)));
                    assert(covers_seq(sorted@.take(i + 1), p) == (covers_seq(
                        sorted@.take(i as int),
                        p,
                    ) || x.covers(p)));
                }
            }
        }
        i += 1;
    }
    proof {
        assert(sorted@.take(sorted@.len() as int) =~= sorted@);
    }
    merged
}

} // verus!
