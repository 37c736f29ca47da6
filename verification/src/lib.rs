//! Sets of integers over a fixed-width bounded domain, stored as a flat
//! sorted sequence of interval bounds.
//!
//! A `RangeSet<T>` holds `2k` bounds describing `k` disjoint, non-adjacent
//! closed intervals. Every operation consumes immutable sets and returns a
//! new set or a scalar answer; nothing is mutated in place.

use vstd::prelude::*;

pub mod algebra;
pub mod integer;
pub mod iter;
pub mod laws;
pub mod range;

pub use iter::RangeSetIter;
pub use range::range_to_bounds;

use integer::Bounded;
use integer::NumericInteger;
use range::AnyRange;
use std::ops::RangeBounds;

verus! {

/// The number of intervals a flat bound sequence describes.
pub open spec fn num_pairs(s: Seq<int>) -> int {
    s.len() as int / 2
}

/// The lower bound of interval `k` of a flat bound sequence.
pub open spec fn lo(s: Seq<int>, k: int) -> int {
    s[2 * k]
}

/// The upper bound of interval `k` of a flat bound sequence.
pub open spec fn hi(s: Seq<int>, k: int) -> int {
    s[2 * k + 1]
}

/// Well-formedness of a flat bound sequence: an even number of bounds, each
/// interval's lower bound at most its upper bound, and a gap of at least two
/// between consecutive intervals (no overlap and no adjacency).
pub open spec fn seq_wf(s: Seq<int>) -> bool {
    &&& s.len() % 2 == 0
    &&& forall|k: int| 0 <= k < num_pairs(s) ==> #[trigger] lo(s, k) <= hi(s, k)
    &&& forall|k: int| 0 <= k < num_pairs(s) - 1 ==> #[trigger] hi(s, k) + 1 < lo(s, k + 1)
}

/// Whether interval `k` of the sequence covers the value `v`.
pub open spec fn pair_has(s: Seq<int>, k: int, v: int) -> bool {
    lo(s, k) <= v <= hi(s, k)
}

/// Whether some interval of the sequence covers the value `v`.
pub open spec fn seq_has(s: Seq<int>, v: int) -> bool {
    exists|k: int| 0 <= k < num_pairs(s) && #[trigger] pair_has(s, k, v)
}

/// The mathematical values of a sequence of bounds.
pub open spec fn ints_of<T: NumericInteger>(bs: Seq<T>) -> Seq<int> {
    bs.map_values(|x: T| x.sval())
}

/// Whether a closed bound pair covers the value `v`; a reversed pair covers
/// nothing.
pub open spec fn pair_covers<T: NumericInteger>(p: (T, T), v: int) -> bool {
    p.0.sval() <= v <= p.1.sval()
}

/// Whether some pair of the sequence covers the value `v`.
pub open spec fn pairs_cover<T: NumericInteger>(ps: Seq<(T, T)>, v: int) -> bool {
    exists|i: int| 0 <= i < ps.len() && #[trigger] pair_covers(ps[i], v)
}

/// Appending one pair extends the covered values by exactly that pair.
pub proof fn lemma_push_cover<T: NumericInteger>(ps: Seq<(T, T)>, p: (T, T))
    ensures
        forall|v: int| pairs_cover(ps.push(p), v) <==> pairs_cover(ps, v) || pair_covers(p, v),
{
    assert forall|v: int|
        pairs_cover(ps.push(p), v) <==> pairs_cover(ps, v) || pair_covers(p, v) by {
        if pairs_cover(ps.push(p), v) {
            let i = choose|i: int| 0 <= i < ps.push(p).len() && #[trigger] pair_covers(
                ps.push(p)[i],
                v,
            );
            if i < ps.len() {
                assert(pair_covers(ps[i], v));
            }
        }
        if pairs_cover(ps, v) {
            let i = choose|i: int| 0 <= i < ps.len() && #[trigger] pair_covers(ps[i], v);
            assert(pair_covers(ps.push(p)[i], v));
        }
        if pair_covers(p, v) {
            assert(pair_covers(ps.push(p)[ps.len() as int], v));
        }
    }
}

/// Inserting one pair anywhere extends the covered values by exactly that
/// pair.
pub proof fn lemma_insert_cover<T: NumericInteger>(ps: Seq<(T, T)>, j: int, p: (T, T))
    requires
        0 <= j <= ps.len(),
    ensures
        forall|v: int| pairs_cover(ps.insert(j, p), v) <==> pairs_cover(ps, v) || pair_covers(p, v),
{
    let ps2 = ps.insert(j, p);
    assert(ps2.len() == ps.len() + 1);
    assert forall|v: int| pairs_cover(ps2, v) <==> pairs_cover(ps, v) || pair_covers(p, v) by {
        if pairs_cover(ps2, v) {
            let i = choose|i: int| 0 <= i < ps2.len() && #[trigger] pair_covers(ps2[i], v);
            if i < j {
                assert(pair_covers(ps[i], v));
            } else if i > j {
                assert(ps2[i] == ps[i - 1]);
                assert(pair_covers(ps[i - 1], v));
            }
        }
        if pairs_cover(ps, v) {
            let i = choose|i: int| 0 <= i < ps.len() && #[trigger] pair_covers(ps[i], v);
            if i < j {
                assert(pair_covers(ps2[i], v));
            } else {
                assert(ps2[i + 1] == ps[i]);
                assert(pair_covers(ps2[i + 1], v));
            }
        }
        if pair_covers(p, v) {
            assert(ps2[j] == p);
            assert(pair_covers(ps2[j], v));
        }
    }
}

/// Taking one more pair of a prefix extends the covered values by exactly
/// that pair.
pub proof fn lemma_take_cover_step<T: NumericInteger>(ps: Seq<(T, T)>, i: int)
    requires
        0 <= i < ps.len(),
    ensures
        forall|v: int|
            pairs_cover(ps.take(i + 1), v) <==> pairs_cover(ps.take(i), v) || pair_covers(
                ps[i],
                v,
            ),
{
    assert(ps.take(i + 1) =~= ps.take(i).push(ps[i]));
    lemma_push_cover(ps.take(i), ps[i]);
}

/// Two intervals of a well-formed sequence keep their order: an earlier
/// interval ends at least two below where a later one begins.
pub proof fn lemma_wf_ordered(s: Seq<int>, k1: int, k2: int)
    requires
        seq_wf(s),
        0 <= k1 < k2 < num_pairs(s),
    ensures
        hi(s, k1) + 1 < lo(s, k2),
    decreases k2 - k1,
{
    if k2 == k1 + 1 {
        assert(hi(s, k1) + 1 < lo(s, k1 + 1));
    } else {
        lemma_wf_ordered(s, k1, k2 - 1);
        assert(hi(s, k2 - 1) + 1 < lo(s, k2 - 1 + 1));
        assert(lo(s, k2 - 1) <= hi(s, k2 - 1));
    }
}

/// The bounds of a well-formed sequence are sorted.
pub proof fn lemma_wf_sorted(s: Seq<int>)
    requires
        seq_wf(s),
    ensures
        forall|i: int, j: int| 0 <= i <= j < s.len() ==> s[i] <= s[j],
{
    assert forall|i: int, j: int| 0 <= i <= j < s.len() implies s[i] <= s[j] by {
        let ki = i / 2;
        let kj = j / 2;
        assert(s[2 * ki] == lo(s, ki));
        assert(s[2 * kj] == lo(s, kj));
        assert(lo(s, ki) <= hi(s, ki));
        assert(lo(s, kj) <= hi(s, kj));
        if ki < kj {
            lemma_wf_ordered(s, ki, kj);
        }
    }
}

/// A covered value lies between the first and the last stored bound.
pub proof fn lemma_has_bounds(s: Seq<int>, v: int)
    requires
        seq_wf(s),
        seq_has(s, v),
    ensures
        s.len() > 0,
        lo(s, 0) <= v <= hi(s, num_pairs(s) - 1),
{
    let k = choose|k: int| 0 <= k < num_pairs(s) && #[trigger] pair_has(s, k, v);
    if k > 0 {
        lemma_wf_ordered(s, 0, k);
    }
    if k < num_pairs(s) - 1 {
        lemma_wf_ordered(s, k, num_pairs(s) - 1);
    }
}

/// A value that falls in the gap between two consecutive intervals is not in
/// the set.
pub proof fn lemma_gap_not_has(s: Seq<int>, k: int, v: int)
    requires
        seq_wf(s),
        0 <= k < num_pairs(s) - 1,
        hi(s, k) < v < lo(s, k + 1),
    ensures
        !seq_has(s, v),
{
    assert forall|j: int| 0 <= j < num_pairs(s) implies !pair_has(s, j, v) by {
        if j < k {
            lemma_wf_ordered(s, j, k);
            assert(lo(s, k) <= hi(s, k));
        } else if j > k + 1 {
            lemma_wf_ordered(s, k + 1, j);
            assert(lo(s, k + 1) <= hi(s, k + 1));
        }
    }
}

/// A value below the first bound or above the last bound is not in the set.
pub proof fn lemma_outside_not_has(s: Seq<int>, v: int)
    requires
        seq_wf(s),
        s.len() > 0 ==> v < lo(s, 0) || v > hi(s, num_pairs(s) - 1),
    ensures
        !seq_has(s, v),
{
    if seq_has(s, v) {
        lemma_has_bounds(s, v);
    }
}

/// The sequence `s2` covers exactly what `s` covers plus the closed interval
/// `[a, b]`.
pub open spec fn covers_plus(s2: Seq<int>, s: Seq<int>, a: int, b: int) -> bool {
    forall|v: int| (#[trigger] seq_has(s2, v)) <==> seq_has(s, v) || a <= v <= b
}

/// Appending one more interval after the end of a well-formed sequence keeps
/// it well formed and adds exactly the appended values.
pub proof fn lemma_append_pair(s: Seq<int>, a: int, b: int)
    requires
        seq_wf(s),
        a <= b,
        s.len() > 0 ==> hi(s, num_pairs(s) - 1) + 1 < a,
    ensures
        seq_wf(s + seq![a, b]),
        num_pairs(s + seq![a, b]) == num_pairs(s) + 1,
        forall|v: int| seq_has(s + seq![a, b], v) <==> seq_has(s, v) || a <= v <= b,
        covers_plus(s + seq![a, b], s, a, b),
{
    let s2 = s + seq![a, b];
    assert(s2.len() == s.len() + 2);
    assert forall|k: int| 0 <= k < num_pairs(s) implies #[trigger] lo(s2, k) == lo(s, k) && hi(
        s2,
        k,
    ) == hi(s, k) by {
        assert(s2[2 * k] == s[2 * k]);
        assert(s2[2 * k + 1] == s[2 * k + 1]);
    }
    assert(lo(s2, num_pairs(s)) == a);
    assert(hi(s2, num_pairs(s)) == b);
    assert(seq_wf(s2)) by {
        assert forall|k: int| 0 <= k < num_pairs(s2) implies #[trigger] lo(s2, k) <= hi(s2, k) by {
            if k < num_pairs(s) {
                assert(lo(s, k) <= hi(s, k));
            }
        }
        assert forall|k: int| 0 <= k < num_pairs(s2) - 1 implies #[trigger] hi(s2, k) + 1 < lo(
            s2,
            k + 1,
        ) by {
            if k < num_pairs(s) - 1 {
                assert(hi(s, k) + 1 < lo(s, k + 1));
            }
        }
    }
    assert forall|v: int| seq_has(s2, v) <==> seq_has(s, v) || a <= v <= b by {
        if seq_has(s2, v) {
            let k = choose|k: int| 0 <= k < num_pairs(s2) && #[trigger] pair_has(s2, k, v);
            if k < num_pairs(s) {
                assert(pair_has(s, k, v));
            }
        }
        if seq_has(s, v) {
            let k = choose|k: int| 0 <= k < num_pairs(s) && #[trigger] pair_has(s, k, v);
            assert(pair_has(s2, k, v));
        }
        if a <= v <= b {
            assert(pair_has(s2, num_pairs(s), v));
        }
    }
}

/// Raising the last upper bound of a well-formed sequence keeps it well
/// formed and adds exactly the values up to the new bound.
pub proof fn lemma_raise_last(s: Seq<int>, b2: int)
    requires
        seq_wf(s),
        s.len() > 0,
        b2 >= hi(s, num_pairs(s) - 1),
    ensures
        seq_wf(s.update(s.len() - 1, b2)),
        num_pairs(s.update(s.len() - 1, b2)) == num_pairs(s),
        forall|v: int|
            seq_has(s.update(s.len() - 1, b2), v) <==> seq_has(s, v) || (lo(s, num_pairs(s) - 1)
                <= v <= b2),
        covers_plus(s.update(s.len() - 1, b2), s, lo(s, num_pairs(s) - 1), b2),
{
    let s2 = s.update(s.len() - 1, b2);
    let last = num_pairs(s) - 1;
    assert(s2.len() == s.len());
    assert forall|k: int| 0 <= k < num_pairs(s) implies #[trigger] lo(s2, k) == lo(s, k) && (k
        < last ==> hi(s2, k) == hi(s, k)) by {
        assert(2 * k != s.len() - 1);
        assert(s2[2 * k] == s[2 * k]);
        if k < last {
            assert(2 * k + 1 != s.len() - 1);
            assert(s2[2 * k + 1] == s[2 * k + 1]);
        }
    }
    assert(hi(s2, last) == b2);
    assert(lo(s, last) <= hi(s, last));
    assert(seq_wf(s2)) by {
        assert forall|k: int| 0 <= k < num_pairs(s2) implies #[trigger] lo(s2, k) <= hi(s2, k) by {
            assert(lo(s, k) <= hi(s, k));
        }
        assert forall|k: int| 0 <= k < num_pairs(s2) - 1 implies #[trigger] hi(s2, k) + 1 < lo(
            s2,
            k + 1,
        ) by {
            assert(hi(s, k) + 1 < lo(s, k + 1));
        }
    }
    assert forall|v: int| seq_has(s2, v) <==> seq_has(s, v) || (lo(s, last) <= v <= b2) by {
        if seq_has(s2, v) {
            let k = choose|k: int| 0 <= k < num_pairs(s2) && #[trigger] pair_has(s2, k, v);
            if k < last {
                assert(pair_has(s, k, v));
            }
        }
        if seq_has(s, v) {
            let k = choose|k: int| 0 <= k < num_pairs(s) && #[trigger] pair_has(s, k, v);
            assert(pair_has(s2, k, v));
        }
        if lo(s, last) <= v <= b2 {
            assert(pair_has(s2, last, v));
        }
    }
}

/// Sort normalized pairs by their lower bound (insertion sort; ties keep an
/// arbitrary order, which the merge scan resolves). The result covers the
/// same values and holds only pairs of the input.
pub(crate) fn sort_pairs<T: NumericInteger>(pairs: &Vec<(T, T)>) -> (r: Vec<(T, T)>)
    ensures
        forall|j1: int, j2: int|
            0 <= j1 <= j2 < r@.len() ==> (#[trigger] r@[j1]).0.sval() <= (
            #[trigger] r@[j2]).0.sval(),
        forall|j: int| 0 <= j < r@.len() ==> pairs@.contains(#[trigger] r@[j]),
        forall|v: int| pairs_cover(r@, v) <==> pairs_cover(pairs@, v),
        r@.len() == pairs@.len(),
{
    let mut out: Vec<(T, T)> = Vec::new();
    let mut idx: usize = 0;
    proof {
        assert(pairs@.take(0) =~= Seq::<(T, T)>::empty());
    }
    while idx < pairs.len()
        invariant
            idx <= pairs@.len(),
            out@.len() == idx,
            forall|j1: int, j2: int|
                0 <= j1 <= j2 < out@.len() ==> (#[trigger] out@[j1]).0.sval() <= (
                #[trigger] out@[j2]).0.sval(),
            forall|j: int| 0 <= j < out@.len() ==> pairs@.contains(#[trigger] out@[j]),
            forall|v: int| pairs_cover(out@, v) <==> pairs_cover(pairs@.take(idx as int), v),
        decreases pairs@.len() - idx,
    {
        let p = pairs[idx];
        let ghost prev = out@;
        let mut j: usize = out.len();
        while j > 0 && p.0.lt(out[j - 1].0)
            invariant
                j <= out@.len(),
                out@ == prev,
                forall|m: int| j <= m < out@.len() ==> p.0.sval() < (#[trigger] out@[m]).0.sval(),
            decreases j,
        {
            j -= 1;
        }
        proof {
            lemma_insert_cover(prev, j as int, p);
            lemma_take_cover_step(pairs@, idx as int);
            assert(pairs@[idx as int] == p);
            assert(pairs@.contains(p));
            assert forall|m: int| 0 <= m < j implies (#[trigger] prev[m]).0.sval()
                <= p.0.sval() by {
                assert(prev[m].0.sval() <= prev[j - 1].0.sval());
            }
        }
        out.insert(j, p);
        proof {
            let ji = j as int;
            let no = out@;
            assert(no == prev.insert(ji, p));
            assert forall|m: int| 0 <= m < no.len() implies #[trigger] no[m] == (if m < ji {
                prev[m]
            } else if m == ji {
                p
            } else {
                prev[m - 1]
            }) by {}
            assert forall|j1: int, j2: int| 0 <= j1 <= j2 < no.len() implies (
            #[trigger] no[j1]).0.sval() <= (#[trigger] no[j2]).0.sval() by {}
            assert forall|v: int|
                pairs_cover(no, v) <==> pairs_cover(pairs@.take(idx as int + 1), v) by {
                assert(pairs_cover(prev.insert(ji, p), v) <==> pairs_cover(prev, v) || pair_covers(
                    p,
                    v,
                ));
                assert(pairs_cover(pairs@.take(idx as int + 1), v) <==> pairs_cover(
                    pairs@.take(idx as int),
                    v,
                ) || pair_covers(pairs@[idx as int], v));
            }
        }
        idx += 1;
    }
    proof {
        assert(pairs@.take(pairs@.len() as int) =~= pairs@);
    }
    out
}

/// A set of integers of type `T`, encoded as a flat ordered sequence of
/// interval bounds: the elements at even indices are the (inclusive) lower
/// bounds and the elements at odd indices the (inclusive) upper bounds.
#[derive(PartialEq, Eq, Hash, Clone, Debug, PartialOrd, Ord)]
pub struct RangeSet<T: NumericInteger>(pub Vec<T>);

impl<T: NumericInteger> RangeSet<T> {
    /// The stored bounds, as mathematical integers.
    pub open spec fn bseq(self) -> Seq<int> {
        ints_of(self.0@)
    }

    /// The canonical-representation invariant of §3: sorted, disjoint,
    /// non-adjacent intervals.
    pub open spec fn wf(self) -> bool {
        seq_wf(self.bseq())
    }

    /// Whether the set contains the mathematical value `v`.
    pub open spec fn has(self, v: int) -> bool {
        seq_has(self.bseq(), v)
    }

    /// The mathematical set of contained values.
    pub open spec fn to_set(self) -> Set<int> {
        Set::new(|v: int| self.has(v))
    }

    /// Create a new instance that does not contain any value.
    pub fn empty() -> (r: RangeSet<T>)
        ensures
            r.wf(),
            r.bseq().len() == 0,
            forall|v: int| !r.has(v),
    {
        RangeSet(Vec::new())
    }

    /// Create a new instance that contains all values of the domain.
    pub fn total() -> (r: RangeSet<T>)
        ensures
            r.wf(),
            r.bseq() =~= seq![T::domain_min(), T::domain_max()],
            forall|v: int| r.has(v) <==> T::domain_min() <= v <= T::domain_max(),
    {
        let mut bounds: Vec<T> = Vec::new();
        bounds.push(T::min_value());
        bounds.push(T::max_value());
        let r = RangeSet(bounds);
        proof {
            T::lemma_domain_nonempty();
            assert(r.bseq() =~= seq![T::domain_min(), T::domain_max()]);
            assert forall|v: int| r.has(v) <==> T::domain_min() <= v <= T::domain_max() by {
                if T::domain_min() <= v <= T::domain_max() {
                    assert(pair_has(r.bseq(), 0, v));
                }
            }
        }
        r
    }

    /// Every stored bound lies within the domain of `T`.
    pub proof fn lemma_in_domain(self)
        ensures
            forall|i: int|
                0 <= i < self.bseq().len() ==> T::domain_min() <= #[trigger] self.bseq()[i]
                    <= T::domain_max(),
    {
        assert forall|i: int|
            0 <= i < self.bseq().len() implies T::domain_min() <= #[trigger] self.bseq()[i]
            <= T::domain_max() by {
            T::lemma_in_domain(self.0@[i]);
            assert(self.bseq()[i] == self.0@[i].sval());
        }
    }

    /// Build the canonical set holding exactly the values between `min` and
    /// `max`; a reversed pair yields the empty set.
    pub(crate) fn from_pair(min: T, max: T) -> (r: RangeSet<T>)
        ensures
            r.wf(),
            forall|v: int| r.has(v) <==> min.sval() <= v <= max.sval(),
            r.bseq().len() <= 2,
    {
        if min.le(max) {
            let mut bounds: Vec<T> = Vec::new();
            bounds.push(min);
            bounds.push(max);
            let r = RangeSet(bounds);
            proof {
                assert(r.bseq() =~= seq![min.sval(), max.sval()]);
                assert forall|v: int| r.has(v) <==> min.sval() <= v <= max.sval() by {
                    if min.sval() <= v <= max.sval() {
                        assert(pair_has(r.bseq(), 0, v));
                    }
                }
            }
            r
        } else {
            RangeSet::empty()
        }
    }

    /// Create a new instance from the given range. The endpoints of the
    /// native range expression are read through trusted readers, so the
    /// contract promises only canonical form; the normalization itself is
    /// `range::range_to_bounds` and the construction `from_pair`.
    pub fn new_from_range<R: RangeBounds<T>>(range: R) -> (r: RangeSet<T>)
        ensures
            r.wf(),
            r.bseq().len() <= 2,
    {
        let start = range::start_endpoint(&range);
        let end = range::end_endpoint(&range);
        let (min, max) = range::range_to_bounds(&start, &end);
        RangeSet::from_pair(min, max)
    }

    /// Create a new instance from the given ranges: normalize each to a
    /// closed pair, drop the empty contributions, sort the survivors by
    /// lower bound, and merge overlapping or adjacent pairs left to right.
    /// The result is the canonical set holding exactly the values some given
    /// range covers.
    pub fn new_from_ranges(ranges: &[AnyRange<T>]) -> (r: RangeSet<T>)
        ensures
            r.wf(),
            forall|v: int|
                r.has(v) <==> exists|i: int|
                    0 <= i < ranges@.len() && (#[trigger] ranges@[i]).covers(v),
    {
        let mut pairs: Vec<(T, T)> = Vec::new();
        let mut idx: usize = 0;
        while idx < ranges.len()
            invariant
                idx <= ranges@.len(),
                forall|j: int|
                    0 <= j < pairs@.len() ==> (#[trigger] pairs@[j]).0.sval()
                        <= pairs@[j].1.sval(),
                forall|v: int|
                    pairs_cover(pairs@, v) <==> exists|i: int|
                        0 <= i < idx && (#[trigger] ranges@[i]).covers(v),
            decreases ranges@.len() - idx,
        {
            let b = ranges[idx].get_bounds();
            let mn = b.0;
            let mx = b.1;
            let ghost prev = pairs@;
            if mn.le(mx) {
                pairs.push((mn, mx));
                proof {
                    lemma_push_cover(prev, (mn, mx));
                    assert forall|v: int|
                        pairs_cover(pairs@, v) <==> exists|i: int|
                            0 <= i < idx + 1 && (#[trigger] ranges@[i]).covers(v) by {
                        assert(pairs_cover(prev.push((mn, mx)), v) <==> pairs_cover(prev, v)
                            || pair_covers((mn, mx), v));
                        assert(ranges@[idx as int].covers(v) == (mn.sval() <= v <= mx.sval()));
                        if pairs_cover(pairs@, v) {
                            if pairs_cover(prev, v) {
                                let i = choose|i: int|
                                    0 <= i < idx && (#[trigger] ranges@[i]).covers(v);
                                assert(ranges@[i].covers(v));
                            } else {
                                assert(ranges@[idx as int].covers(v));
                            }
                        }
                        if exists|i: int| 0 <= i < idx + 1 && (#[trigger] ranges@[i]).covers(v) {
                            let i = choose|i: int|
                                0 <= i < idx + 1 && (#[trigger] ranges@[i]).covers(v);
                            if i < idx {
                                assert(pairs_cover(prev, v));
                            } else {
                                assert(pair_covers((mn, mx), v));
                            }
                            assert(pairs_cover(pairs@, v));
                        }
                    }
                }
            } else {
                proof {
                    assert forall|v: int|
                        pairs_cover(pairs@, v) <==> exists|i: int|
                            0 <= i < idx + 1 && (#[trigger] ranges@[i]).covers(v) by {
                        assert(ranges@[idx as int].covers(v) == (mn.sval() <= v <= mx.sval()));
                        if exists|i: int| 0 <= i < idx + 1 && (#[trigger] ranges@[i]).covers(v) {
                            let i = choose|i: int|
                                0 <= i < idx + 1 && (#[trigger] ranges@[i]).covers(v);
                            assert(i < idx);
                        }
                    }
                }
            }
            idx += 1;
        }
        let sorted = sort_pairs(&pairs);
        proof {
            assert forall|j: int| 0 <= j < sorted@.len() implies (#[trigger] sorted@[j]).0.sval()
                <= sorted@[j].1.sval() by {
                assert(pairs@.contains(sorted@[j]));
                let i = choose|i: int| 0 <= i < pairs@.len() && pairs@[i] == sorted@[j];
                assert(pairs@[i].0.sval() <= pairs@[i].1.sval());
            }
        }
        if sorted.len() == 0 {
            let r = RangeSet::empty();
            proof {
                assert forall|v: int|
                    r.has(v) <==> exists|i: int|
                        0 <= i < ranges@.len() && (#[trigger] ranges@[i]).covers(v) by {
                    if exists|i: int| 0 <= i < ranges@.len() && (#[trigger] ranges@[i]).covers(v) {
                        assert(pairs_cover(pairs@, v));
                        assert(pairs_cover(sorted@, v));
                        let j = choose|j: int|
                            0 <= j < sorted@.len() && #[trigger] pair_covers(sorted@[j], v);
                        assert(false);
                    }
                }
            }
            return r;
        }
        let mut bounds: Vec<T> = Vec::new();
        let p0 = sorted[0];
        let mut cur_min = p0.0;
        let mut cur_max = p0.1;
        let mut i: usize = 1;
        proof {
            let es0 = ints_of(bounds@) + seq![cur_min.sval(), cur_max.sval()];
            assert(es0 =~= seq![cur_min.sval(), cur_max.sval()]);
            assert(seq_wf(es0));
            assert(sorted@.take(1) =~= seq![sorted@[0]]);
            assert forall|v: int| seq_has(es0, v) <==> pairs_cover(sorted@.take(1), v) by {
                if seq_has(es0, v) {
                    let k = choose|k: int| 0 <= k < num_pairs(es0) && #[trigger] pair_has(
                        es0,
                        k,
                        v,
                    );
                    assert(pair_covers(sorted@.take(1)[0], v));
                }
                if pairs_cover(sorted@.take(1), v) {
                    assert(pair_has(es0, 0, v));
                }
            }
        }
        while i < sorted.len()
            invariant
                1 <= i <= sorted@.len(),
                forall|j1: int, j2: int|
                    0 <= j1 <= j2 < sorted@.len() ==> (#[trigger] sorted@[j1]).0.sval() <= (
                    #[trigger] sorted@[j2]).0.sval(),
                forall|j: int|
                    0 <= j < sorted@.len() ==> (#[trigger] sorted@[j]).0.sval()
                        <= sorted@[j].1.sval(),
                cur_min.sval() <= cur_max.sval(),
                seq_wf(ints_of(bounds@) + seq![cur_min.sval(), cur_max.sval()]),
                forall|v: int|
                    seq_has(ints_of(bounds@) + seq![cur_min.sval(), cur_max.sval()], v)
                        <==> pairs_cover(sorted@.take(i as int), v),
                forall|j: int|
                    i <= j < sorted@.len() ==> cur_min.sval() <= (#[trigger] sorted@[j]).0.sval(),
            decreases sorted@.len() - i,
        {
            let p = sorted[i];
            let mn = p.0;
            let mx = p.1;
            let ghost es = ints_of(bounds@) + seq![cur_min.sval(), cur_max.sval()];
            proof {
                assert(es[es.len() - 2] == cur_min.sval());
                assert(es[es.len() - 1] == cur_max.sval());
                assert(lo(es, num_pairs(es) - 1) == cur_min.sval());
                assert(hi(es, num_pairs(es) - 1) == cur_max.sval());
                T::lemma_in_domain(mn);
                T::lemma_in_domain(cur_max);
                lemma_take_cover_step(sorted@, i as int);
            }
            let extend = mn.le(cur_max) || (cur_max.lt(T::max_value()) && mn.le(cur_max.succ()));
            proof {
                assert(extend == (mn.sval() <= cur_max.sval() + 1));
            }
            if extend {
                if cur_max.lt(mx) {
                    proof {
                        lemma_raise_last(es, mx.sval());
                        assert(es.update(es.len() - 1, mx.sval()) =~= ints_of(bounds@) + seq![
                            cur_min.sval(),
                            mx.sval(),
                        ]);
                        assert forall|v: int|
                            seq_has(ints_of(bounds@) + seq![cur_min.sval(), mx.sval()], v)
                                <==> pairs_cover(sorted@.take(i as int + 1), v) by {
                            if seq_has(es, v) || (cur_min.sval() <= v <= mx.sval()) {
                                if !seq_has(es, v) && v > cur_max.sval() {
                                    assert(pair_covers(sorted@[i as int], v));
                                } else if !seq_has(es, v) {
                                    assert(pair_has(es, num_pairs(es) - 1, v));
                                }
                            }
                            if pair_covers(sorted@[i as int], v) {
                                assert(cur_min.sval() <= v <= mx.sval());
                            }
                        }
                    }
                    cur_max = mx;
                } else {
                    proof {
                        assert forall|v: int|
                            seq_has(es, v) <==> pairs_cover(sorted@.take(i as int + 1), v) by {
                            if pair_covers(sorted@[i as int], v) {
                                assert(pair_has(es, num_pairs(es) - 1, v));
                            }
                        }
                    }
                }
            } else {
                proof {
                    lemma_append_pair(es, mn.sval(), mx.sval());
                    assert(ints_of(bounds@.push(cur_min).push(cur_max)) + seq![mn.sval(), mx.sval()]
                        =~= es + seq![mn.sval(), mx.sval()]);
                    assert forall|v: int|
                        seq_has(es + seq![mn.sval(), mx.sval()], v) <==> pairs_cover(
                            sorted@.take(i as int + 1),
                            v,
                        ) by {
                        assert(seq_has(ints_of(bounds@) + seq![cur_min.sval(), cur_max.sval()], v)
                            <==> pairs_cover(sorted@.take(i as int), v));
                        assert(seq_has(es + seq![mn.sval(), mx.sval()], v) <==> seq_has(es, v)
                            || mn.sval() <= v <= mx.sval());
                        assert(pairs_cover(sorted@.take(i as int + 1), v) <==> pairs_cover(
                            sorted@.take(i as int),
                            v,
                        ) || pair_covers(sorted@[i as int], v));
                        assert(pair_covers(sorted@[i as int], v) == (mn.sval() <= v <= mx.sval()));
                    }
                }
                bounds.push(cur_min);
                bounds.push(cur_max);
                cur_min = mn;
                cur_max = mx;
            }
            proof {
                assert forall|j: int|
                    i + 1 <= j < sorted@.len() implies cur_min.sval() <= (
                #[trigger] sorted@[j]).0.sval() by {
                    assert(sorted@[i as int].0.sval() <= sorted@[j].0.sval());
                }
            }
            i += 1;
        }
        let ghost es = ints_of(bounds@) + seq![cur_min.sval(), cur_max.sval()];
        proof {
            assert(sorted@.take(sorted@.len() as int) =~= sorted@);
            assert forall|v: int|
                seq_has(es, v) <==> exists|i: int|
                    0 <= i < ranges@.len() && (#[trigger] ranges@[i]).covers(v) by {
                assert(seq_has(ints_of(bounds@) + seq![cur_min.sval(), cur_max.sval()], v)
                    <==> pairs_cover(sorted@.take(sorted@.len() as int), v));
                assert(pairs_cover(sorted@, v) <==> pairs_cover(pairs@, v));
            }
        }
        bounds.push(cur_min);
        bounds.push(cur_max);
        let r = RangeSet(bounds);
        proof {
            assert(r.bseq() =~= es);
            assert forall|v: int|
                r.has(v) <==> exists|i: int|
                    0 <= i < ranges@.len() && (#[trigger] ranges@[i]).covers(v) by {
                assert(r.has(v) == seq_has(es, v));
                assert(seq_has(es, v) <==> exists|i: int|
                    0 <= i < ranges@.len() && (#[trigger] ranges@[i]).covers(v));
            }
        }
        r
    }

    /// Return `true` if it contains all the possible values.
    pub fn is_total(&self) -> (r: bool)
        requires
            self.wf(),
        ensures
            r <==> (forall|v: int| T::domain_min() <= v <= T::domain_max() ==> self.has(v)),
    {
        proof {
            self.lemma_in_domain();
            T::lemma_domain_nonempty();
        }
        let ghost s = self.bseq();
        let r: bool;
        if self.0.is_empty() {
            r = false;
        } else {
            proof {
                assert(s.len() == self.0@.len());
                assert(s.len() >= 2);
                assert(s[0] == self.0@[0].sval());
                assert(s[1] == self.0@[1].sval());
            }
            r = self.0[0].eq_value(T::min_value()) && T::max_value().le(self.0[1]);
        }
        proof {
            if r {
                assert(lo(s, 0) == s[0] == T::domain_min());
                assert(hi(s, 0) == s[1]);
                assert(s[1] >= T::domain_max());
                assert forall|v: int| T::domain_min() <= v <= T::domain_max() implies self.has(
                    v,
                ) by {
                    assert(pair_has(s, 0, v));
                }
            } else {
                if s.len() == 0 {
                    assert(!self.has(T::domain_min()));
                } else if s[0] != T::domain_min() {
                    assert(T::domain_min() <= self.bseq()[0]);
                    assert(T::domain_min() < lo(s, 0));
                    lemma_outside_not_has(s, T::domain_min());
                    assert(!self.has(T::domain_min()));
                } else {
                    assert(hi(s, 0) == s[1] < T::domain_max());
                    let w = hi(s, 0) + 1;
                    assert(T::domain_min() <= w);
                    if num_pairs(s) == 1 {
                        lemma_outside_not_has(s, w);
                    } else {
                        lemma_wf_ordered(s, 0, num_pairs(s) - 1);
                        assert(self.bseq()[2 * (num_pairs(s) - 1) + 1] <= T::domain_max());
                        assert(hi(s, num_pairs(s) - 1) <= T::domain_max());
                        assert(w <= T::domain_max());
                        lemma_gap_not_has(s, 0, w);
                    }
                    assert(!self.has(w));
                }
            }
        }
        r
    }

    /// Return `true` if it contains the given value.
    pub fn contains(&self, value: T) -> (r: bool)
        requires
            self.wf(),
        ensures
            r == self.has(value.sval()),
    {
        let ghost s = self.bseq();
        let ghost v = value.sval();
        if self.0.is_empty() {
            return false;
        }
        let first = self.0[0];
        let last = self.0[self.0.len() - 1];
        proof {
            assert(first.sval() == lo(s, 0));
            assert(last.sval() == s[s.len() - 1]);
            assert(s[s.len() - 1] == hi(s, num_pairs(s) - 1));
        }
        if value.lt(first) || last.lt(value) {
            proof {
                lemma_outside_not_has(s, v);
            }
            return false;
        }
        if value.eq_value(first) || value.eq_value(last) {
            proof {
                if v == first.sval() {
                    assert(pair_has(s, 0, v));
                } else {
                    assert(pair_has(s, num_pairs(s) - 1, v));
                }
            }
            return true;
        }
        proof {
            lemma_wf_sorted(s);
        }
        let mut low: usize = 0;
        let mut high: usize = self.0.len();
        while low < high
            invariant
                self.wf(),
                s == self.bseq(),
                v == value.sval(),
                low <= high <= self.0.len(),
                forall|i: int| 0 <= i < low ==> s[i] < v,
                forall|i: int| high <= i < s.len() ==> s[i] >= v,
                forall|i: int, j: int| 0 <= i <= j < s.len() ==> s[i] <= s[j],
            decreases high - low,
        {
            let mid = low + (high - low) / 2;
            proof {
                assert(s[mid as int] == self.0@[mid as int].sval());
            }
            if self.0[mid].lt(value) {
                low = mid + 1;
            } else {
                high = mid;
            }
        }
        let p = low;
        proof {
            assert(lo(s, 0) == s[0] < v);
            assert(v <= s[s.len() - 1]);
            assert(0 < p < s.len());
        }
        let r = self.0[p].eq_value(value) || p % 2 != 0;
        proof {
            let pi = p as int;
            if s[pi] == v {
                if pi % 2 == 0 {
                    assert(s[pi] == lo(s, pi / 2));
                    assert(pair_has(s, pi / 2, v));
                } else {
                    assert(s[pi] == hi(s, pi / 2));
                    assert(lo(s, pi / 2) == s[pi - 1] <= v);
                    assert(pair_has(s, pi / 2, v));
                }
            } else {
                assert(s[pi] > v);
                assert(s[pi - 1] < v);
                if pi % 2 == 1 {
                    let k = pi / 2;
                    assert(lo(s, k) == s[2 * k] == s[pi - 1]);
                    assert(hi(s, k) == s[2 * k + 1] == s[pi]);
                    assert(pair_has(s, k, v));
                } else {
                    let k = pi / 2;
                    assert(hi(s, k - 1) == s[2 * (k - 1) + 1] == s[pi - 1]);
                    assert(lo(s, k) == s[2 * k] == s[pi]);
                    lemma_gap_not_has(s, k - 1, v);
                }
            }
        }
        r
    }

    /// Return `true` if it does not contain any value.
    pub fn is_empty(&self) -> (r: bool)
        ensures
            r == (self.bseq().len() == 0),
            self.wf() ==> (r <==> forall|v: int| !self.has(v)),
    {
        let r = self.0.is_empty();
        proof {
            if self.wf() && !r {
                assert(pair_has(self.bseq(), 0, lo(self.bseq(), 0)));
                assert(self.has(lo(self.bseq(), 0)));
            }
        }
        r
    }
}

} // verus!
