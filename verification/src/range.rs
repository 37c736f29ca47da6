//! The range-literal adapter: it turns a native range expression with
//! inclusive, exclusive or absent endpoints into the normalized closed
//! `(min, max)` pair that set construction consumes. It performs no algebra.

use vstd::prelude::*;

use crate::integer::Bounded;
use crate::integer::NumericInteger;
use std::ops::Bound;
use std::ops::RangeBounds;

verus! {

/// One end of a range expression: an inclusive bound, an exclusive bound, or
/// no bound at all.
pub enum Endpoint<T> {
    Included(T),
    Excluded(T),
    Unbounded,
}

/// The least value a range starting at this endpoint admits. An exclusive
/// start at the greatest value of the domain yields `domain_max() + 1`, one
/// more than any value the domain holds.
pub open spec fn start_value<T: NumericInteger>(e: Endpoint<T>) -> int {
    match e {
        Endpoint::Included(t) => t.sval(),
        Endpoint::Excluded(t) => t.sval() + 1,
        Endpoint::Unbounded => T::domain_min(),
    }
}

/// The greatest value a range ending at this endpoint admits. An exclusive
/// end at the least value of the domain yields `domain_min() - 1`, one less
/// than any value the domain holds.
pub open spec fn end_value<T: NumericInteger>(e: Endpoint<T>) -> int {
    match e {
        Endpoint::Included(t) => t.sval(),
        Endpoint::Excluded(t) => t.sval() - 1,
        Endpoint::Unbounded => T::domain_max(),
    }
}

/// A start endpoint never admits a value below the domain.
pub proof fn lemma_start_value_bound<T: NumericInteger>(e: Endpoint<T>)
    ensures
        start_value::<T>(e) >= T::domain_min(),
{
    match e {
        Endpoint::Included(t) => T::lemma_in_domain(t),
        Endpoint::Excluded(t) => T::lemma_in_domain(t),
        Endpoint::Unbounded => (),
    }
}

/// An end endpoint never admits a value above the domain.
pub proof fn lemma_end_value_bound<T: NumericInteger>(e: Endpoint<T>)
    ensures
        end_value::<T>(e) <= T::domain_max(),
{
    match e {
        Endpoint::Included(t) => T::lemma_in_domain(t),
        Endpoint::Excluded(t) => T::lemma_in_domain(t),
        Endpoint::Unbounded => (),
    }
}

/// Relies on std's `RangeBounds::start_bound` to read the start endpoint of a
/// native range expression. The result depends on the opaque range value, so
/// nothing is promised of it.
#[verifier::external_body]
pub(crate) fn start_endpoint<T: NumericInteger, R: RangeBounds<T>>(range: &R) -> Endpoint<T> {
    match range.start_bound() {
        Bound::Included(t) => Endpoint::Included(*t),
        Bound::Excluded(t) => Endpoint::Excluded(*t),
        Bound::Unbounded => Endpoint::Unbounded,
    }
}

/// Relies on std's `RangeBounds::end_bound` to read the end endpoint of a
/// native range expression. The result depends on the opaque range value, so
/// nothing is promised of it.
#[verifier::external_body]
pub(crate) fn end_endpoint<T: NumericInteger, R: RangeBounds<T>>(range: &R) -> Endpoint<T> {
    match range.end_bound() {
        Bound::Included(t) => Endpoint::Included(*t),
        Bound::Excluded(t) => Endpoint::Excluded(*t),
        Bound::Unbounded => Endpoint::Unbounded,
    }
}

/// Normalize a pair of endpoints to a closed `(min, max)` pair: an exclusive
/// start becomes `start + 1`, an exclusive end `end - 1`, and an absent bound
/// the corresponding domain extreme. A range that admits no value at all is
/// returned as a reversed pair (`max < min`), which every consumer drops.
/// The `+1`/`-1` steps are guarded by equality checks against the domain
/// extremes, so no arithmetic ever leaves the domain.
pub fn range_to_bounds<T: NumericInteger>(start: &Endpoint<T>, end: &Endpoint<T>) -> (r: (T, T))
    ensures
        start_value::<T>(*start) <= end_value::<T>(*end) ==> r.0.sval() == start_value::<T>(*start)
            && r.1.sval() == end_value::<T>(*end),
        start_value::<T>(*start) > end_value::<T>(*end) ==> r.1.sval() < r.0.sval(),
{
    proof {
        T::lemma_domain_nonempty();
    }
    let min: T = match start {
        Endpoint::Included(t) => *t,
        Endpoint::Excluded(t) => {
            proof {
                T::lemma_in_domain(*t);
            }
            if (*t).lt(T::max_value()) {
                (*t).succ()
            } else {
                proof {
                    lemma_end_value_bound::<T>(*end);
                }
                return (T::max_value(), T::min_value());
            }
        },
        Endpoint::Unbounded => T::min_value(),
    };
    let max: T = match end {
        Endpoint::Included(t) => *t,
        Endpoint::Excluded(t) => {
            proof {
                T::lemma_in_domain(*t);
            }
            if T::min_value().lt(*t) {
                (*t).pred()
            } else {
                proof {
                    lemma_start_value_bound::<T>(*start);
                }
                return (T::max_value(), T::min_value());
            }
        },
        Endpoint::Unbounded => T::max_value(),
    };
    (min, max)
}

/// A range expression already normalized to a closed `(min, max)` pair; a
/// reversed pair (`max < min`) denotes an empty contribution.
pub struct AnyRange<T: NumericInteger>((T, T));

impl<T: NumericInteger> AnyRange<T> {
    /// The stored pair, as mathematical integers.
    pub closed spec fn pair(self) -> (int, int) {
        (self.0.0.sval(), self.0.1.sval())
    }

    /// Whether the stored pair covers the value `v`.
    pub open spec fn covers(self, v: int) -> bool {
        self.pair().0 <= v <= self.pair().1
    }

    /// Wrap an already-normalized pair of closed bounds.
    pub fn new(min: T, max: T) -> (r: AnyRange<T>)
        ensures
            r.pair() == (min.sval(), max.sval()),
    {
        AnyRange((min, max))
    }

    /// Normalize a native range expression. The endpoints are read through
    /// the trusted readers above, so nothing relates the result to the range
    /// value itself; the normalization of what was read follows
    /// `range_to_bounds`.
    pub fn from<R: RangeBounds<T>>(range: R) -> AnyRange<T> {
        let start = start_endpoint(&range);
        let end = end_endpoint(&range);
        AnyRange(range_to_bounds(&start, &end))
    }

    /// Return the stored pair.
    pub fn get_bounds(&self) -> (r: &(T, T))
        ensures
            (r.0.sval(), r.1.sval()) == self.pair(),
    {
        &self.0
    }
}

} // verus!
