//! Ordered iteration over the values of a `RangeSet`: a lazy, restartable
//! ascending traversal that yields every contained value once.

use vstd::prelude::*;

use crate::integer::Bounded;
use crate::integer::NumericInteger;
use crate::RangeSet;
use crate::hi;
use crate::lo;
use crate::num_pairs;
use crate::pair_has;
use crate::lemma_gap_not_has;
use crate::lemma_outside_not_has;
use crate::lemma_wf_ordered;

verus! {

/// A traversal state over a `RangeSet`: the current interval (by its index
/// into the flat bound sequence) and the value yielded last.
pub struct RangeSetIter<'a, T: NumericInteger> {
    range_set: &'a RangeSet<T>,
    index: usize,
    value: Option<T>,
}

impl<'a, T: NumericInteger> RangeSetIter<'a, T> {
    /// The set being traversed.
    pub closed spec fn set(self) -> RangeSet<T> {
        *self.range_set
    }

    /// The value yielded last, if any was yielded yet.
    pub closed spec fn last(self) -> Option<T> {
        self.value
    }

    /// The traversal state is consistent: the cursor sits on an interval
    /// boundary, and the value yielded last lies in the current interval
    /// (or, once the traversal is done, at or beyond the end of the last
    /// interval).
    pub closed spec fn wf_iter(self) -> bool {
        let s = self.range_set.bseq();
        &&& self.range_set.wf()
        &&& self.index % 2 == 0
        &&& self.index <= s.len()
        &&& (self.value is None ==> self.index == 0)
        &&& (match self.value {
            Some(v) => self.index < s.len() ==> pair_has(s, self.index as int / 2, v.sval()),
            None => true,
        })
        &&& (match self.value {
            Some(v) => self.index >= s.len() ==> s.len() > 0 && v.sval() >= hi(
                s,
                num_pairs(s) - 1,
            ),
            None => true,
        })
    }

    /// Yield the next value of the traversal: the smallest contained value
    /// greater than the one yielded last (the smallest contained value at
    /// all on the first call), or `None` once no such value is left.
    pub fn next(&mut self) -> (r: Option<T>)
        requires
            old(self).wf_iter(),
        ensures
            final(self).wf_iter(),
            final(self).set() == old(self).set(),
            match r {
                Some(v) => {
                    &&& old(self).set().has(v.sval())
                    &&& final(self).last() == Some(v)
                    &&& (match old(self).last() {
                        Some(p) => p.sval() < v.sval() && forall|w: int|
                            p.sval() < w < v.sval() ==> !old(self).set().has(w),
                        None => forall|w: int| w < v.sval() ==> !old(self).set().has(w),
                    })
                },
                None => {
                    &&& final(self).last() == old(self).last()
                    &&& (match old(self).last() {
                        Some(p) => forall|w: int| w > p.sval() ==> !old(self).set().has(w),
                        None => forall|w: int| !old(self).set().has(w),
                    })
                },
            },
    {
        let ghost s = self.range_set.bseq();
        let len = self.range_set.0.len();
        if self.index >= len {
            proof {
                if self.value is None {
                    assert(s.len() == 0);
                } else {
                    let p = self.value->Some_0;
                    assert forall|w: int| w > p.sval() implies !old(self).set().has(w) by {
                        lemma_outside_not_has(s, w);
                    }
                }
            }
            return None;
        }
        let ghost cur = self.index as int / 2;
        proof {
            assert(2 * cur == self.index as int);
            assert(self.range_set.0@[self.index as int].sval() == s[2 * cur] == lo(s, cur));
            assert(self.range_set.0@[self.index as int + 1].sval() == s[2 * cur + 1] == hi(
                s,
                cur,
            ));
            assert(lo(s, cur) <= hi(s, cur));
        }
        match self.value {
            None => {
                let mn = self.range_set.0[self.index];
                self.value = Some(mn);
                proof {
                    assert(pair_has(s, 0, mn.sval()));
                    assert forall|w: int| w < mn.sval() implies !old(self).set().has(w) by {
                        lemma_outside_not_has(s, w);
                    }
                }
                Some(mn)
            },
            Some(v) => {
                let mx = self.range_set.0[self.index + 1];
                if v.eq_value(mx) {
                    self.index += 2;
                    if self.index >= len {
                        proof {
                            assert(cur == num_pairs(s) - 1);
                            assert forall|w: int| w > v.sval() implies !old(self).set().has(
                                w,
                            ) by {
                                lemma_outside_not_has(s, w);
                            }
                        }
                        None
                    } else {
                        let ghost nxt = self.index as int / 2;
                        let mn = self.range_set.0[self.index];
                        self.value = Some(mn);
                        proof {
                            assert(nxt == cur + 1);
                            assert(2 * nxt == self.index as int);
                            assert(mn.sval() == s[2 * nxt] == lo(s, nxt));
                            assert(hi(s, cur) + 1 < lo(s, nxt));
                            assert(lo(s, nxt) <= hi(s, nxt));
                            assert(pair_has(s, nxt, mn.sval()));
                            assert forall|w: int|
                                v.sval() < w < mn.sval() implies !old(self).set().has(w) by {
                                lemma_gap_not_has(s, cur, w);
                            }
                        }
                        Some(mn)
                    }
                } else {
                    proof {
                        T::lemma_in_domain(mx);
                        assert(v.sval() < mx.sval());
                    }
                    let nv = v.succ();
                    self.value = Some(nv);
                    proof {
                        assert(pair_has(s, cur, nv.sval()));
                    }
                    Some(nv)
                }
            },
        }
    }
}

impl<T: NumericInteger> RangeSet<T> {
    /// Return an iterator over all the values contained, in ascending order.
    /// Each call starts a fresh traversal.
    pub fn iter<'a>(&'a self) -> (r: RangeSetIter<'a, T>)
        requires
            self.wf(),
        ensures
            r.wf_iter(),
            r.set() == *self,
            r.last() is None,
    {
        RangeSetIter { range_set: self, index: 0, value: None }
    }
}

} // verus!
