//! The capability contract that an integer type must satisfy to serve as the
//! domain of a `RangeSet`: a total order, domain extremes, and a checked
//! successor/predecessor step, all tied to a mathematical value.

use vstd::prelude::*;

verus! {

/// A totally bounded integer type: it has a least and a greatest value, and
/// every value maps to a mathematical integer (`sval`) through which all
/// contracts of this crate speak.
pub trait Bounded: Sized {
    /// The mathematical value of this integer.
    spec fn sval(self) -> int;

    /// The mathematical value of the least value of the type.
    spec fn domain_min() -> int;

    /// The mathematical value of the greatest value of the type.
    spec fn domain_max() -> int;

    /// Every value of the type lies between the domain extremes.
    proof fn lemma_in_domain(self)
        ensures
            Self::domain_min() <= self.sval() <= Self::domain_max(),
    ;

    /// Two values with the same mathematical value are the same value.
    proof fn lemma_sval_injective(x: Self, y: Self)
        ensures
            x.sval() == y.sval() ==> x == y,
    ;

    /// The domain holds at least two values.
    proof fn lemma_domain_nonempty()
        ensures
            Self::domain_min() < Self::domain_max(),
    ;

    /// The least value of the type.
    fn min_value() -> (r: Self)
        ensures
            r.sval() == Self::domain_min(),
    ;

    /// The greatest value of the type.
    fn max_value() -> (r: Self)
        ensures
            r.sval() == Self::domain_max(),
    ;

    /// The successor step, as a value.
    fn one() -> (r: Self)
        ensures
            r.sval() == 1,
    ;

    /// The successor of a value that is not the greatest.
    fn succ(self) -> (r: Self)
        requires
            self.sval() < Self::domain_max(),
        ensures
            r.sval() == self.sval() + 1,
    ;

    /// The predecessor of a value that is not the least.
    fn pred(self) -> (r: Self)
        requires
            self.sval() > Self::domain_min(),
        ensures
            r.sval() == self.sval() - 1,
    ;

    /// Strict order on values.
    fn lt(self, other: Self) -> (r: bool)
        ensures
            r == (self.sval() < other.sval()),
    ;

    /// Non-strict order on values.
    fn le(self, other: Self) -> (r: bool)
        ensures
            r == (self.sval() <= other.sval()),
    ;

    /// Equality of values.
    fn eq_value(self, other: Self) -> (r: bool)
        ensures
            r == (self.sval() == other.sval()),
    ;
}

/// The full capability a `RangeSet` domain needs: a bounded integer that can
/// be copied freely.
pub trait NumericInteger: Bounded + Copy {

}

impl<T: Bounded + Copy> NumericInteger for T {

}

impl Bounded for u8 {
    open spec fn sval(self) -> int {
        self as int
    }

    open spec fn domain_min() -> int {
        u8::MIN as int
    }

    open spec fn domain_max() -> int {
        u8::MAX as int
    }

    proof fn lemma_in_domain(self) {
    }

    proof fn lemma_sval_injective(x: Self, y: Self) {
    }

    proof fn lemma_domain_nonempty() {
    }

    fn min_value() -> (r: Self) {
        u8::MIN
    }

    fn max_value() -> (r: Self) {
        u8::MAX
    }

    fn one() -> (r: Self) {
        1
    }

    fn succ(self) -> (r: Self) {
        self + 1
    }

    fn pred(self) -> (r: Self) {
        self - 1
    }

    fn lt(self, other: Self) -> (r: bool) {
        self < other
    }

    fn le(self, other: Self) -> (r: bool) {
        self <= other
    }

    fn eq_value(self, other: Self) -> (r: bool) {
        self == other
    }
}

impl Bounded for u16 {
    open spec fn sval(self) -> int {
        self as int
    }

    open spec fn domain_min() -> int {
        u16::MIN as int
    }

    open spec fn domain_max() -> int {
        u16::MAX as int
    }

    proof fn lemma_in_domain(self) {
    }

    proof fn lemma_sval_injective(x: Self, y: Self) {
    }

    proof fn lemma_domain_nonempty() {
    }

    fn min_value() -> (r: Self) {
        u16::MIN
    }

    fn max_value() -> (r: Self) {
        u16::MAX
    }

    fn one() -> (r: Self) {
        1
    }

    fn succ(self) -> (r: Self) {
        self + 1
    }

    fn pred(self) -> (r: Self) {
        self - 1
    }

    fn lt(self, other: Self) -> (r: bool) {
        self < other
    }

    fn le(self, other: Self) -> (r: bool) {
        self <= other
    }

    fn eq_value(self, other: Self) -> (r: bool) {
        self == other
    }
}

impl Bounded for u32 {
    open spec fn sval(self) -> int {
        self as int
    }

    open spec fn domain_min() -> int {
        u32::MIN as int
    }

    open spec fn domain_max() -> int {
        u32::MAX as int
    }

    proof fn lemma_in_domain(self) {
    }

    proof fn lemma_sval_injective(x: Self, y: Self) {
    }

    proof fn lemma_domain_nonempty() {
    }

    fn min_value() -> (r: Self) {
        u32::MIN
    }

    fn max_value() -> (r: Self) {
        u32::MAX
    }

    fn one() -> (r: Self) {
        1
    }

    fn succ(self) -> (r: Self) {
        self + 1
    }

    fn pred(self) -> (r: Self) {
        self - 1
    }

    fn lt(self, other: Self) -> (r: bool) {
        self < other
    }

    fn le(self, other: Self) -> (r: bool) {
        self <= other
    }

    fn eq_value(self, other: Self) -> (r: bool) {
        self == other
    }
}

impl Bounded for u64 {
    open spec fn sval(self) -> int {
        self as int
    }

    open spec fn domain_min() -> int {
        u64::MIN as int
    }

    open spec fn domain_max() -> int {
        u64::MAX as int
    }

    proof fn lemma_in_domain(self) {
    }

    proof fn lemma_sval_injective(x: Self, y: Self) {
    }

    proof fn lemma_domain_nonempty() {
    }

    fn min_value() -> (r: Self) {
        u64::MIN
    }

    fn max_value() -> (r: Self) {
        u64::MAX
    }

    fn one() -> (r: Self) {
        1
    }

    fn succ(self) -> (r: Self) {
        self + 1
    }

    fn pred(self) -> (r: Self) {
        self - 1
    }

    fn lt(self, other: Self) -> (r: bool) {
        self < other
    }

    fn le(self, other: Self) -> (r: bool) {
        self <= other
    }

    fn eq_value(self, other: Self) -> (r: bool) {
        self == other
    }
}

impl Bounded for u128 {
    open spec fn sval(self) -> int {
        self as int
    }

    open spec fn domain_min() -> int {
        u128::MIN as int
    }

    open spec fn domain_max() -> int {
        u128::MAX as int
    }

    proof fn lemma_in_domain(self) {
    }

    proof fn lemma_sval_injective(x: Self, y: Self) {
    }

    proof fn lemma_domain_nonempty() {
    }

    fn min_value() -> (r: Self) {
        u128::MIN
    }

    fn max_value() -> (r: Self) {
        u128::MAX
    }

    fn one() -> (r: Self) {
        1
    }

    fn succ(self) -> (r: Self) {
        self + 1
    }

    fn pred(self) -> (r: Self) {
        self - 1
    }

    fn lt(self, other: Self) -> (r: bool) {
        self < other
    }

    fn le(self, other: Self) -> (r: bool) {
        self <= other
    }

    fn eq_value(self, other: Self) -> (r: bool) {
        self == other
    }
}

impl Bounded for usize {
    open spec fn sval(self) -> int {
        self as int
    }

    open spec fn domain_min() -> int {
        usize::MIN as int
    }

    open spec fn domain_max() -> int {
        usize::MAX as int
    }

    proof fn lemma_in_domain(self) {
    }

    proof fn lemma_sval_injective(x: Self, y: Self) {
    }

    proof fn lemma_domain_nonempty() {
    }

    fn min_value() -> (r: Self) {
        usize::MIN
    }

    fn max_value() -> (r: Self) {
        usize::MAX
    }

    fn one() -> (r: Self) {
        1
    }

    fn succ(self) -> (r: Self) {
        self + 1
    }

    fn pred(self) -> (r: Self) {
        self - 1
    }

    fn lt(self, other: Self) -> (r: bool) {
        self < other
    }

    fn le(self, other: Self) -> (r: bool) {
        self <= other
    }

    fn eq_value(self, other: Self) -> (r: bool) {
        self == other
    }
}

impl Bounded for i8 {
    open spec fn sval(self) -> int {
        self as int
    }

    open spec fn domain_min() -> int {
        i8::MIN as int
    }

    open spec fn domain_max() -> int {
        i8::MAX as int
    }

    proof fn lemma_in_domain(self) {
    }

    proof fn lemma_sval_injective(x: Self, y: Self) {
    }

    proof fn lemma_domain_nonempty() {
    }

    fn min_value() -> (r: Self) {
        i8::MIN
    }

    fn max_value() -> (r: Self) {
        i8::MAX
    }

    fn one() -> (r: Self) {
        1
    }

    fn succ(self) -> (r: Self) {
        self + 1
    }

    fn pred(self) -> (r: Self) {
        self - 1
    }

    fn lt(self, other: Self) -> (r: bool) {
        self < other
    }

    fn le(self, other: Self) -> (r: bool) {
        self <= other
    }

    fn eq_value(self, other: Self) -> (r: bool) {
        self == other
    }
}

impl Bounded for i16 {
    open spec fn sval(self) -> int {
        self as int
    }

    open spec fn domain_min() -> int {
        i16::MIN as int
    }

    open spec fn domain_max() -> int {
        i16::MAX as int
    }

    proof fn lemma_in_domain(self) {
    }

    proof fn lemma_sval_injective(x: Self, y: Self) {
    }

    proof fn lemma_domain_nonempty() {
    }

    fn min_value() -> (r: Self) {
        i16::MIN
    }

    fn max_value() -> (r: Self) {
        i16::MAX
    }

    fn one() -> (r: Self) {
        1
    }

    fn succ(self) -> (r: Self) {
        self + 1
    }

    fn pred(self) -> (r: Self) {
        self - 1
    }

    fn lt(self, other: Self) -> (r: bool) {
        self < other
    }

    fn le(self, other: Self) -> (r: bool) {
        self <= other
    }

    fn eq_value(self, other: Self) -> (r: bool) {
        self == other
    }
}

impl Bounded for i32 {
    open spec fn sval(self) -> int {
        self as int
    }

    open spec fn domain_min() -> int {
        i32::MIN as int
    }

    open spec fn domain_max() -> int {
        i32::MAX as int
    }

    proof fn lemma_in_domain(self) {
    }

    proof fn lemma_sval_injective(x: Self, y: Self) {
    }

    proof fn lemma_domain_nonempty() {
    }

    fn min_value() -> (r: Self) {
        i32::MIN
    }

    fn max_value() -> (r: Self) {
        i32::MAX
    }

    fn one() -> (r: Self) {
        1
    }

    fn succ(self) -> (r: Self) {
        self + 1
    }

    fn pred(self) -> (r: Self) {
        self - 1
    }

    fn lt(self, other: Self) -> (r: bool) {
        self < other
    }

    fn le(self, other: Self) -> (r: bool) {
        self <= other
    }

    fn eq_value(self, other: Self) -> (r: bool) {
        self == other
    }
}

impl Bounded for i64 {
    open spec fn sval(self) -> int {
        self as int
    }

    open spec fn domain_min() -> int {
        i64::MIN as int
    }

    open spec fn domain_max() -> int {
        i64::MAX as int
    }

    proof fn lemma_in_domain(self) {
    }

    proof fn lemma_sval_injective(x: Self, y: Self) {
    }

    proof fn lemma_domain_nonempty() {
    }

    fn min_value() -> (r: Self) {
        i64::MIN
    }

    fn max_value() -> (r: Self) {
        i64::MAX
    }

    fn one() -> (r: Self) {
        1
    }

    fn succ(self) -> (r: Self) {
        self + 1
    }

    fn pred(self) -> (r: Self) {
        self - 1
    }

    fn lt(self, other: Self) -> (r: bool) {
        self < other
    }

    fn le(self, other: Self) -> (r: bool) {
        self <= other
    }

    fn eq_value(self, other: Self) -> (r: bool) {
        self == other
    }
}

impl Bounded for i128 {
    open spec fn sval(self) -> int {
        self as int
    }

    open spec fn domain_min() -> int {
        i128::MIN as int
    }

    open spec fn domain_max() -> int {
        i128::MAX as int
    }

    proof fn lemma_in_domain(self) {
    }

    proof fn lemma_sval_injective(x: Self, y: Self) {
    }

    proof fn lemma_domain_nonempty() {
    }

    fn min_value() -> (r: Self) {
        i128::MIN
    }

    fn max_value() -> (r: Self) {
        i128::MAX
    }

    fn one() -> (r: Self) {
        1
    }

    fn succ(self) -> (r: Self) {
        self + 1
    }

    fn pred(self) -> (r: Self) {
        self - 1
    }

    fn lt(self, other: Self) -> (r: bool) {
        self < other
    }

    fn le(self, other: Self) -> (r: bool) {
        self <= other
    }

    fn eq_value(self, other: Self) -> (r: bool) {
        self == other
    }
}

impl Bounded for isize {
    open spec fn sval(self) -> int {
        self as int
    }

    open spec fn domain_min() -> int {
        isize::MIN as int
    }

    open spec fn domain_max() -> int {
        isize::MAX as int
    }

    proof fn lemma_in_domain(self) {
    }

    proof fn lemma_sval_injective(x: Self, y: Self) {
    }

    proof fn lemma_domain_nonempty() {
    }

    fn min_value() -> (r: Self) {
        isize::MIN
    }

    fn max_value() -> (r: Self) {
        isize::MAX
    }

    fn one() -> (r: Self) {
        1
    }

    fn succ(self) -> (r: Self) {
        self + 1
    }

    fn pred(self) -> (r: Self) {
        self - 1
    }

    fn lt(self, other: Self) -> (r: bool) {
        self < other
    }

    fn le(self, other: Self) -> (r: bool) {
        self <= other
    }

    fn eq_value(self, other: Self) -> (r: bool) {
        self == other
    }
}

} // verus!
