//! Human-readable rendering of intervals: `[` or `(` and `]` or `)` per
//! bound kind around the two endpoint values in decimal.  The rendering is
//! one-directional, for display only: nothing parses these strings back.

use vstd::prelude::*;

verus! {

use vstd::string::StringExecFns;

use crate::atomic::AtomicInterval;
use crate::bound::Bound;
use crate::set::IntervalSet;

/// The decimal rendering of an integer, as `i64::to_string` produces it:
/// the digits, preceded by a minus sign for a negative value.
pub uninterp spec fn decimal_of(v: int) -> Seq<char>;

/// Relies on `i64::to_string` of std: the decimal digits it returns depend
/// on the value alone.
#[verifier::external_body]
fn render_value(v: i64) -> (r: String)
    ensures
        r@ == decimal_of(v as int),
{
    v.to_string()
}

impl AtomicInterval {
    /// What `to_string` yields: a left delimiter per the left bound's kind
    /// (`[` inclusive, `(` exclusive), the two endpoint values in decimal
    /// separated by a comma and a space, and a right delimiter per the
    /// right bound's kind (`]` inclusive, `)` exclusive).
    pub open spec fn render(self) -> Seq<char> {
        (if self.left is Included {
            seq!['[']
        } else {
            seq!['(']
        }) + decimal_of(self.left.val()) + seq![',', ' '] + decimal_of(self.right.val()) + (
        if self.right is Included {
            seq![']']
        } else {
            seq![')']
        })
    }

    /// Renders the interval as text, e.g. `[1, 5)` for an interval that
    /// includes its left endpoint and excludes its right one.
    pub fn to_string(&self) -> (r: String)
        ensures
            r@ == self.render(),
    {
        proof {
            reveal_strlit("[");
            reveal_strlit("(");
            reveal_strlit(", ");
            reveal_strlit("]");
            reveal_strlit(")");
        }
        let mut s = String::new();
        match self.left {
            Bound::Included(_) => s.append("["),
            Bound::Excluded(_) => s.append("("),
        }
        let lv = render_value(*self.left.value());
        s.append(lv.as_str());
        s.append(", ");
        let rv = render_value(*self.right.value());
        s.append(rv.as_str());
        match self.right {
            Bound::Included(_) => s.append("]"),
            Bound::Excluded(_) => s.append(")"),
        }
        proof {
            assert("["@ =~= seq!['[']);
            assert("("@ =~= seq!['(']);
            assert(", "@ =~= seq![',', ' ']);
            assert("]"@ =~= seq![']']);
            assert(")"@ =~= seq![')']);
            assert(s@ =~= self.render());
        }
        s
    }
}

/// The renderings of all the intervals of a sequence, concatenated in
/// order.
pub open spec fn render_all(s: Seq<AtomicInterval>) -> Seq<char>
    decreases s.len(),
{
    if s.len() == 0 {
        Seq::empty()
    } else {
        render_all(s.drop_last()) + s.last().render()
    }
}

impl IntervalSet {
    /// What `to_string` yields: the renderings of the set's intervals,
    /// concatenated in order between one pair of brackets.
    pub open spec fn render(self) -> Seq<char> {
        seq!['['] + render_all(self@) + seq![']']
    }

    /// Renders the interval set as text, e.g. `[[1, 3](4, 5]]`.
    pub fn to_string(&self) -> (r: String)
        ensures
            r@ == self.render(),
    {
        proof {
            reveal_strlit("[");
            reveal_strlit("]");
            assert("["@ =~= seq!['[']);
            assert("]"@ =~= seq![']']);
        }
        let mut s = String::new();
        s.append("[");
        let mut i: usize = 0;
        while i < self.intervals.len()
            invariant
                i <= self.intervals.len(),
                s@ == seq!['['] + render_all(self@.take(i as int)),
            decreases self.intervals.len() - i,
        {
            let part = self.intervals[i].to_string();
            s.append(part.as_str());
            proof {
                assert(self@.take(i + 1).drop_last() =~= self@.take(i as int));
                assert(self@.take(i + 1).last() == self@[i as int]);
                assert(render_all(self@.take(i + 1)) == render_all(self@.take(i as int))
                    + self@[i as int].render());
                assert(s@ =~= seq!['['] + render_all(self@.take(i + 1)));
            }
            i += 1;
        }
        s.append("]");
        proof {
            assert(self@.take(self@.len() as int) =~= self@);
            assert(s@ =~= self.render());
        }
        s
    }
}

} // verus!
