//! The set algebra: subset test, union, intersection, complement and
//! difference, each a linear merge or scan over the flat bound sequences.

use vstd::prelude::*;

use crate::integer::Bounded;
use crate::integer::NumericInteger;
use crate::RangeSet;
use crate::hi;
use crate::lo;
use crate::num_pairs;
use crate::pair_has;
use crate::seq_has;
use crate::seq_wf;
use crate::ints_of;
use crate::lemma_append_pair;
use crate::lemma_raise_last;
use crate::lemma_wf_ordered;

verus! {

/// Whether one of the first `k` intervals of the sequence covers `v`.
pub open spec fn seq_has_upto(s: Seq<int>, k: int, v: int) -> bool {
    exists|j: int| 0 <= j < k && #[trigger] pair_has(s, j, v)
}

/// Consuming one more interval of a prefix extends the covered values by
/// exactly that interval.
pub proof fn lemma_upto_step(s: Seq<int>, k: int)
    requires
        0 <= k,
    ensures
        forall|v: int|
            seq_has_upto(s, k + 1, v) <==> seq_has_upto(s, k, v) || pair_has(s, k, v),
{
    assert forall|v: int|
        seq_has_upto(s, k + 1, v) <==> seq_has_upto(s, k, v) || pair_has(s, k, v) by {
        if seq_has_upto(s, k + 1, v) {
            let j = choose|j: int| 0 <= j < k + 1 && #[trigger] pair_has(s, j, v);
            if j < k {
                assert(seq_has_upto(s, k, v));
            }
        }
        if seq_has_upto(s, k, v) {
            let j = choose|j: int| 0 <= j < k && #[trigger] pair_has(s, j, v);
            assert(0 <= j < k + 1 && pair_has(s, j, v));
        }
    }
}

/// The whole sequence covers exactly what its full prefix covers.
pub proof fn lemma_upto_all(s: Seq<int>)
    ensures
        forall|v: int| seq_has(s, v) <==> seq_has_upto(s, num_pairs(s), v),
{
    assert forall|v: int| seq_has(s, v) <==> seq_has_upto(s, num_pairs(s), v) by {
        if seq_has(s, v) {
            let k = choose|k: int| 0 <= k < num_pairs(s) && #[trigger] pair_has(s, k, v);
            assert(seq_has_upto(s, num_pairs(s), v));
        }
        if seq_has_upto(s, num_pairs(s), v) {
            let k = choose|k: int| 0 <= k < num_pairs(s) && #[trigger] pair_has(s, k, v);
            assert(seq_has(s, v));
        }
    }
}

/// Whether one of the intervals from `k` on covers `v`.
pub open spec fn seq_has_from(s: Seq<int>, k: int, v: int) -> bool {
    exists|j: int| k <= j < num_pairs(s) && #[trigger] pair_has(s, j, v)
}

/// The whole sequence covers exactly what its full suffix covers.
pub proof fn lemma_from_all(s: Seq<int>)
    ensures
        forall|v: int| seq_has(s, v) <==> seq_has_from(s, 0, v),
{
    assert forall|v: int| seq_has(s, v) <==> seq_has_from(s, 0, v) by {
        if seq_has(s, v) {
            let k = choose|k: int| 0 <= k < num_pairs(s) && #[trigger] pair_has(s, k, v);
            assert(seq_has_from(s, 0, v));
        }
        if seq_has_from(s, 0, v) {
            let k = choose|k: int| 0 <= k < num_pairs(s) && #[trigger] pair_has(s, k, v);
            assert(seq_has(s, v));
        }
    }
}

/// The bound sequence `bs` covers exactly the domain values below `frontier`
/// that `ss` does not cover: the complement scan's intermediate state.
pub open spec fn gaps_below<T: NumericInteger>(bs: Seq<int>, ss: Seq<int>, frontier: int) -> bool {
    forall|v: int|
        #[trigger] seq_has(bs, v) <==> (T::domain_min() <= v <= T::domain_max() && !seq_has(ss, v)
            && v < frontier)
}

impl<T: NumericInteger> RangeSet<T> {
    /// A contained value lies within the domain of `T`.
    pub proof fn lemma_has_in_domain(self, v: int)
        requires
            self.wf(),
            self.has(v),
        ensures
            T::domain_min() <= v <= T::domain_max(),
    {
        self.lemma_in_domain();
        crate::lemma_has_bounds(self.bseq(), v);
        assert(T::domain_min() <= self.bseq()[0]);
        assert(T::domain_min() <= self.bseq()[2 * (num_pairs(self.bseq()) - 1) + 1]
            <= T::domain_max());
    }

    /// A fresh set with the same bounds.
    pub(crate) fn copy_of(&self) -> (r: RangeSet<T>)
        ensures
            r.0@ == self.0@,
    {
        let mut bounds: Vec<T> = Vec::new();
        let mut i: usize = 0;
        while i < self.0.len()
            invariant
                i <= self.0@.len(),
                bounds@ == self.0@.take(i as int),
            decreases self.0@.len() - i,
        {
            bounds.push(self.0[i]);
            proof {
                assert(self.0@.take(i as int).push(self.0@[i as int]) =~= self.0@.take(
                    i as int + 1,
                ));
            }
            i += 1;
        }
        proof {
            assert(self.0@.take(self.0@.len() as int) =~= self.0@);
        }
        RangeSet(bounds)
    }

    /// Return the union with the given `RangeSet`: the canonical set holding
    /// the values of either operand.
    pub fn union(&self, that: &RangeSet<T>) -> (r: RangeSet<T>)
        requires
            self.wf(),
            that.wf(),
        ensures
            r.wf(),
            forall|v: int| r.has(v) <==> self.has(v) || that.has(v),
    {
        if self.is_empty() || that.is_total() {
            let r = that.copy_of();
            proof {
                assert(r.bseq() == that.bseq());
                assert forall|v: int| r.has(v) <==> self.has(v) || that.has(v) by {
                    assert(r.has(v) == that.has(v));
                    if self.has(v) {
                        self.lemma_has_in_domain(v);
                    }
                }
            }
            return r;
        }
        if that.is_empty() || self.is_total() {
            let r = self.copy_of();
            proof {
                assert(r.bseq() == self.bseq());
                assert forall|v: int| r.has(v) <==> self.has(v) || that.has(v) by {
                    assert(r.has(v) == self.has(v));
                    if that.has(v) {
                        that.lemma_has_in_domain(v);
                    }
                }
            }
            return r;
        }
        let ghost ss = self.bseq();
        let ghost ts = that.bseq();
        let mut bounds: Vec<T> = Vec::new();
        let mut si: usize;
        let mut ti: usize;
        let mut cur_min: T;
        let mut cur_max: T;
        if that.0[0].lt(self.0[0]) {
            cur_min = that.0[0];
            cur_max = that.0[1];
            ti = 2;
            si = 0;
        } else {
            cur_min = self.0[0];
            cur_max = self.0[1];
            si = 2;
            ti = 0;
        }
        proof {
            assert(lo(ss, 0) == ss[0] == self.0@[0].sval());
            assert(hi(ss, 0) == ss[1] == self.0@[1].sval());
            assert(lo(ts, 0) == ts[0] == that.0@[0].sval());
            assert(hi(ts, 0) == ts[1] == that.0@[1].sval());
            let es0 = ints_of(bounds@) + seq![cur_min.sval(), cur_max.sval()];
            assert(es0 =~= seq![cur_min.sval(), cur_max.sval()]);
            assert(seq_wf(es0));
            assert forall|v: int|
                seq_has(es0, v) <==> seq_has_upto(ss, si as int / 2, v) || seq_has_upto(
                    ts,
                    ti as int / 2,
                    v,
                ) by {
                if seq_has(es0, v) {
                    let k = choose|k: int| 0 <= k < num_pairs(es0) && #[trigger] pair_has(
                        es0,
                        k,
                        v,
                    );
                    if ti == 2 {
                        assert(pair_has(ts, 0, v));
                    } else {
                        assert(pair_has(ss, 0, v));
                    }
                }
                if seq_has_upto(ss, si as int / 2, v) {
                    let j = choose|j: int| 0 <= j < si as int / 2 && #[trigger] pair_has(ss, j, v);
                    assert(pair_has(es0, 0, v));
                }
                if seq_has_upto(ts, ti as int / 2, v) {
                    let j = choose|j: int| 0 <= j < ti as int / 2 && #[trigger] pair_has(ts, j, v);
                    assert(pair_has(es0, 0, v));
                }
            }
            assert forall|j: int|
                si as int / 2 <= j < num_pairs(ss) implies cur_min.sval() <= #[trigger] lo(
                ss,
                j,
            ) by {
                if j > 0 {
                    lemma_wf_ordered(ss, 0, j);
                }
            }
            assert forall|j: int|
                ti as int / 2 <= j < num_pairs(ts) implies cur_min.sval() <= #[trigger] lo(
                ts,
                j,
            ) by {
                if j > 0 {
                    lemma_wf_ordered(ts, 0, j);
                }
            }
        }
        while si < self.0.len() || ti < that.0.len()
            invariant
                self.wf(),
                that.wf(),
                ss == self.bseq(),
                ts == that.bseq(),
                si % 2 == 0,
                ti % 2 == 0,
                si <= self.0@.len(),
                ti <= that.0@.len(),
                cur_min.sval() <= cur_max.sval(),
                seq_wf(ints_of(bounds@) + seq![cur_min.sval(), cur_max.sval()]),
                forall|v: int|
                    seq_has(ints_of(bounds@) + seq![cur_min.sval(), cur_max.sval()], v)
                        <==> seq_has_upto(ss, si as int / 2, v) || seq_has_upto(
                        ts,
                        ti as int / 2,
                        v,
                    ),
                forall|j: int|
                    si as int / 2 <= j < num_pairs(ss) ==> cur_min.sval() <= #[trigger] lo(ss, j),
                forall|j: int|
                    ti as int / 2 <= j < num_pairs(ts) ==> cur_min.sval() <= #[trigger] lo(ts, j),
            decreases self.0@.len() - si + that.0@.len() - ti,
        {
            let ghost es = ints_of(bounds@) + seq![cur_min.sval(), cur_max.sval()];
            let ghost osi = si as int / 2;
            let ghost oti = ti as int / 2;
            let take_that: bool = if ti >= that.0.len() {
                false
            } else if si >= self.0.len() {
                true
            } else {
                that.0[ti].lt(self.0[si])
            };
            let ghost k: int = if take_that {
                ti as int / 2
            } else {
                si as int / 2
            };
            let ghost picked: Seq<int> = if take_that {
                ts
            } else {
                ss
            };
            let mn: T;
            let mx: T;
            if take_that {
                mn = that.0[ti];
                mx = that.0[ti + 1];
                proof {
                    assert(2 * k == ti as int);
                    assert(mn.sval() == ts[2 * k] == lo(ts, k));
                    assert(mx.sval() == ts[2 * k + 1] == hi(ts, k));
                    assert(lo(ts, k) <= hi(ts, k));
                    lemma_upto_step(ts, k);
                }
                ti += 2;
            } else {
                mn = self.0[si];
                mx = self.0[si + 1];
                proof {
                    assert(2 * k == si as int);
                    assert(mn.sval() == ss[2 * k] == lo(ss, k));
                    assert(mx.sval() == ss[2 * k + 1] == hi(ss, k));
                    assert(lo(ss, k) <= hi(ss, k));
                    lemma_upto_step(ss, k);
                }
                si += 2;
            }
            proof {
                assert(es[es.len() - 2] == cur_min.sval());
                assert(es[es.len() - 1] == cur_max.sval());
                assert(lo(es, num_pairs(es) - 1) == cur_min.sval());
                assert(hi(es, num_pairs(es) - 1) == cur_max.sval());
                assert(cur_min.sval() <= mn.sval());
                T::lemma_in_domain(mn);
                T::lemma_in_domain(cur_max);
            }
            let extend = mn.le(cur_max) || (cur_max.lt(T::max_value()) && mn.le(cur_max.succ()));
            proof {
                assert(extend == (mn.sval() <= cur_max.sval() + 1));
            }
            if extend {
                if cur_max.lt(mx) {
                    proof {
                        lemma_raise_last(es, mx.sval());
                        assert(es.update(es.len() - 1, mx.sval()) =~= ints_of(bounds@) + seq![
                            cur_min.sval(),
                            mx.sval(),
                        ]);
                        assert forall|v: int|
                            seq_has(ints_of(bounds@) + seq![cur_min.sval(), mx.sval()], v)
                                <==> (seq_has(es, v) || pair_has(picked, k, v)) by {
                            if seq_has(es, v) || (cur_min.sval() <= v <= mx.sval()) {
                                if !seq_has(es, v) && v > cur_max.sval() {
                                    assert(pair_has(picked, k, v));
                                } else if !seq_has(es, v) {
                                    assert(pair_has(es, num_pairs(es) - 1, v));
                                }
                            }
                            if pair_has(picked, k, v) {
                                assert(cur_min.sval() <= v <= mx.sval());
                            }
                        }
                    }
                    cur_max = mx;
                } else {
                    proof {
                        assert forall|v: int|
                            seq_has(es, v) <==> (seq_has(es, v) || pair_has(picked, k, v)) by {
                            if pair_has(picked, k, v) {
                                assert(pair_has(es, num_pairs(es) - 1, v));
                            }
                        }
                    }
                }
            } else {
                proof {
                    lemma_append_pair(es, mn.sval(), mx.sval());
                    assert(ints_of(bounds@.push(cur_min).push(cur_max)) + seq![mn.sval(), mx.sval()]
                        =~= es + seq![mn.sval(), mx.sval()]);
                    assert forall|v: int|
                        seq_has(es + seq![mn.sval(), mx.sval()], v) <==> (seq_has(es, v)
                            || pair_has(picked, k, v)) by {
                        assert(seq_has(es + seq![mn.sval(), mx.sval()], v) <==> seq_has(es, v)
                            || mn.sval() <= v <= mx.sval());
                    }
                }
                bounds.push(cur_min);
                bounds.push(cur_max);
                cur_min = mn;
                cur_max = mx;
            }
            proof {
                let es2 = ints_of(bounds@) + seq![cur_min.sval(), cur_max.sval()];
                assert forall|v: int|
                    seq_has(es2, v) <==> seq_has_upto(ss, si as int / 2, v) || seq_has_upto(
                        ts,
                        ti as int / 2,
                        v,
                    ) by {
                    assert(seq_has(es, v) <==> seq_has_upto(ss, osi, v) || seq_has_upto(
                        ts,
                        oti,
                        v,
                    ));
                    assert(seq_has_upto(picked, k + 1, v) <==> seq_has_upto(picked, k, v)
                        || pair_has(picked, k, v));
                    assert(seq_has(es2, v) <==> seq_has(es, v) || pair_has(picked, k, v));
                    if take_that {
                        assert(seq_has_upto(ts, ti as int / 2, v) == seq_has_upto(ts, k + 1, v));
                        assert(seq_has_upto(ss, si as int / 2, v) == seq_has_upto(ss, osi, v));
                    } else {
                        assert(seq_has_upto(ss, si as int / 2, v) == seq_has_upto(ss, k + 1, v));
                        assert(seq_has_upto(ts, ti as int / 2, v) == seq_has_upto(ts, oti, v));
                    }
                }
            }
            proof {
                assert forall|j: int|
                    si as int / 2 <= j < num_pairs(ss) implies cur_min.sval() <= #[trigger] lo(
                    ss,
                    j,
                ) by {
                    if take_that {
                        assert(mn.sval() <= lo(ss, si as int / 2));
                        if j > si as int / 2 {
                            lemma_wf_ordered(ss, si as int / 2, j);
                        }
                    } else {
                        if k < j {
                            lemma_wf_ordered(ss, k, j);
                        }
                    }
                }
                assert forall|j: int|
                    ti as int / 2 <= j < num_pairs(ts) implies cur_min.sval() <= #[trigger] lo(
                    ts,
                    j,
                ) by {
                    if take_that {
                        if k < j {
                            lemma_wf_ordered(ts, k, j);
                        }
                    } else {
                        if ti < that.0@.len() {
                            assert(mn.sval() <= ts[ti as int] == lo(ts, ti as int / 2));
                            if j > ti as int / 2 {
                                lemma_wf_ordered(ts, ti as int / 2, j);
                            }
                        }
                    }
                }
            }
        }
        let ghost es = ints_of(bounds@) + seq![cur_min.sval(), cur_max.sval()];
        proof {
            lemma_upto_all(ss);
            lemma_upto_all(ts);
        }
        bounds.push(cur_min);
        bounds.push(cur_max);
        let r = RangeSet(bounds);
        proof {
            assert(r.bseq() =~= es);
            assert forall|v: int| r.has(v) <==> self.has(v) || that.has(v) by {
                assert(r.has(v) == seq_has(es, v));
                assert(seq_has(es, v) <==> seq_has_upto(ss, num_pairs(ss), v) || seq_has_upto(
                    ts,
                    num_pairs(ts),
                    v,
                ));
            }
        }
        r
    }
    /// Return `true` if it contains every value of the given `RangeSet`.
    pub fn contains_all(&self, that: &RangeSet<T>) -> (r: bool)
        requires
            self.wf(),
            that.wf(),
        ensures
            r == (forall|v: int| that.has(v) ==> self.has(v)),
    {
        if self.is_total() || that.is_empty() {
            proof {
                assert forall|v: int| that.has(v) implies self.has(v) by {
                    that.lemma_has_in_domain(v);
                }
            }
            return true;
        }
        if self.is_empty() || that.is_total() {
            proof {
                if self.bseq().len() == 0 {
                    let w = lo(that.bseq(), 0);
                    assert(pair_has(that.bseq(), 0, w));
                    assert(that.has(w) && !self.has(w));
                } else {
                    let w = choose|w: int|
                        T::domain_min() <= w <= T::domain_max() && !self.has(w);
                    assert(that.has(w) && !self.has(w));
                }
            }
            return false;
        }
        let ghost ss = self.bseq();
        let ghost ts = that.bseq();
        let mut si: usize = 0;
        let mut ti: usize = 0;
        while ti < that.0.len()
            invariant
                self.wf(),
                that.wf(),
                ss == self.bseq(),
                ts == that.bseq(),
                si % 2 == 0,
                ti % 2 == 0,
                si <= self.0@.len(),
                ti <= that.0@.len(),
                forall|v: int| seq_has_upto(ts, ti as int / 2, v) ==> seq_has(ss, v),
                ti < that.0@.len() ==> forall|k: int|
                    0 <= k < si as int / 2 ==> #[trigger] hi(ss, k) <= lo(ts, ti as int / 2),
                ti < that.0@.len() ==> forall|k: int|
                    0 <= k < si as int / 2 ==> (#[trigger] hi(ss, k) == lo(ts, ti as int / 2)
                        ==> lo(ts, ti as int / 2) < hi(ts, ti as int / 2)),
            decreases that.0@.len() - ti + self.0@.len() - si,
        {
            let ghost ki = si as int / 2;
            let ghost kj = ti as int / 2;
            let that_min = that.0[ti];
            let that_max = that.0[ti + 1];
            proof {
                assert(2 * kj == ti as int);
                assert(that_min.sval() == ts[2 * kj] == lo(ts, kj));
                assert(that_max.sval() == ts[2 * kj + 1] == hi(ts, kj));
                assert(lo(ts, kj) <= hi(ts, kj));
            }
            if si >= self.0.len() {
                proof {
                    let tm = lo(ts, kj);
                    let w: int = if exists|k: int| 0 <= k < num_pairs(ss) && #[trigger] hi(ss, k)
                        == tm {
                        tm + 1
                    } else {
                        tm
                    };
                    if w == tm + 1 {
                        let k0 = choose|k: int|
                            0 <= k < num_pairs(ss) && #[trigger] hi(ss, k) == tm;
                        assert(lo(ts, kj) < hi(ts, kj));
                    }
                    assert(pair_has(ts, kj, w));
                    assert(that.has(w));
                    assert forall|k: int| 0 <= k < num_pairs(ss) implies !pair_has(ss, k, w) by {
                        assert(hi(ss, k) <= tm);
                    }
                    assert(!self.has(w));
                }
                return false;
            }
            let self_min = self.0[si];
            let self_max = self.0[si + 1];
            proof {
                assert(2 * ki == si as int);
                assert(self_min.sval() == ss[2 * ki] == lo(ss, ki));
                assert(self_max.sval() == ss[2 * ki + 1] == hi(ss, ki));
                assert(lo(ss, ki) <= hi(ss, ki));
            }
            if self_min.le(that_min) && that_max.le(self_max) {
                proof {
                    lemma_upto_step(ts, kj);
                    assert forall|v: int|
                        seq_has_upto(ts, kj + 1, v) implies seq_has(ss, v) by {
                        if pair_has(ts, kj, v) {
                            assert(pair_has(ss, ki, v));
                        }
                    }
                    if ti + 2 < that.0@.len() {
                        assert(hi(ts, kj) + 1 < lo(ts, kj + 1));
                        assert forall|k: int|
                            0 <= k < si as int / 2 implies #[trigger] hi(ss, k) < lo(
                            ts,
                            kj + 1,
                        ) by {
                            assert(hi(ss, k) <= lo(ts, kj));
                        }
                    }
                }
                ti += 2;
            } else if that_min.lt(self_max) {
                proof {
                    let tm = lo(ts, kj);
                    let tmx = hi(ts, kj);
                    let w: int;
                    if self_min.sval() > tm {
                        if exists|k: int| 0 <= k < ki && #[trigger] hi(ss, k) == tm {
                            let k0 = choose|k: int| 0 <= k < ki && #[trigger] hi(ss, k) == tm;
                            assert(tm < tmx);
                            w = tm + 1;
                            lemma_wf_ordered(ss, k0, ki);
                            assert(lo(ss, ki) > tm + 1);
                        } else {
                            w = tm;
                        }
                        assert(pair_has(ts, kj, w));
                        assert forall|k: int|
                            0 <= k < num_pairs(ss) implies !pair_has(ss, k, w) by {
                            if k < ki {
                                assert(hi(ss, k) <= tm);
                            } else if k > ki {
                                lemma_wf_ordered(ss, ki, k);
                            }
                        }
                    } else {
                        w = self_max.sval() + 1;
                        assert(pair_has(ts, kj, w));
                        assert forall|k: int|
                            0 <= k < num_pairs(ss) implies !pair_has(ss, k, w) by {
                            if k < ki {
                                assert(hi(ss, k) <= tm);
                            } else if k > ki {
                                lemma_wf_ordered(ss, ki, k);
                            }
                        }
                    }
                    assert(that.has(w));
                    assert(!self.has(w));
                }
                return false;
            } else {
                proof {
                    assert(hi(ss, ki) <= lo(ts, kj));
                    if hi(ss, ki) == lo(ts, kj) {
                        assert(lo(ts, kj) < hi(ts, kj));
                    }
                }
                si += 2;
            }
        }
        proof {
            lemma_upto_all(ts);
            assert forall|v: int| that.has(v) implies self.has(v) by {
                assert(seq_has_upto(ts, num_pairs(ts), v));
                assert(seq_has_upto(ts, ti as int / 2, v));
            }
        }
        true
    }

    /// Return `true` if there is a common value with the given `RangeSet`.
    pub fn has_intersection(&self, that: &RangeSet<T>) -> (r: bool)
        requires
            self.wf(),
            that.wf(),
        ensures
            r == exists|v: int| self.has(v) && that.has(v),
    {
        let ghost ss = self.bseq();
        let ghost ts = that.bseq();
        let mut i: usize = 0;
        let mut j: usize = 0;
        while i < self.0.len() && j < that.0.len()
            invariant
                self.wf(),
                that.wf(),
                ss == self.bseq(),
                ts == that.bseq(),
                i % 2 == 0,
                j % 2 == 0,
                i <= self.0@.len(),
                j <= that.0@.len(),
                forall|v: int| !(seq_has_upto(ss, i as int / 2, v) && seq_has(ts, v)),
                forall|v: int| !(seq_has(ss, v) && seq_has_upto(ts, j as int / 2, v)),
            decreases self.0@.len() - i + that.0@.len() - j,
        {
            let self_min = self.0[i];
            let self_max = self.0[i + 1];
            let that_min = that.0[j];
            let that_max = that.0[j + 1];
            let ghost ki = i as int / 2;
            let ghost kj = j as int / 2;
            proof {
                assert(2 * ki == i as int);
                assert(2 * kj == j as int);
                assert(self_min.sval() == ss[2 * ki] == lo(ss, ki));
                assert(self_max.sval() == ss[2 * ki + 1] == hi(ss, ki));
                assert(that_min.sval() == ts[2 * kj] == lo(ts, kj));
                assert(that_max.sval() == ts[2 * kj + 1] == hi(ts, kj));
            }
            if self_max.lt(that_min) {
                proof {
                    lemma_upto_step(ss, ki);
                    assert forall|v: int|
                        !(seq_has_upto(ss, ki + 1, v) && seq_has(ts, v)) by {
                        if seq_has_upto(ss, ki + 1, v) && seq_has(ts, v) {
                            assert(seq_has_upto(ss, ki + 1, v) <==> seq_has_upto(ss, ki, v)
                                || pair_has(ss, ki, v));
                            if !seq_has_upto(ss, ki, v) {
                                assert(pair_has(ss, ki, v));
                                assert(seq_has(ss, v));
                                let m = choose|m: int|
                                    0 <= m < num_pairs(ts) && #[trigger] pair_has(ts, m, v);
                                if m >= kj {
                                    if m > kj {
                                        lemma_wf_ordered(ts, kj, m);
                                    }
                                    assert(v >= lo(ts, kj));
                                } else {
                                    assert(seq_has_upto(ts, kj, v));
                                }
                            }
                        }
                    }
                }
                i += 2;
            } else if that_max.lt(self_min) {
                proof {
                    lemma_upto_step(ts, kj);
                    assert forall|v: int|
                        !(seq_has(ss, v) && seq_has_upto(ts, kj + 1, v)) by {
                        if seq_has(ss, v) && seq_has_upto(ts, kj + 1, v) {
                            assert(seq_has_upto(ts, kj + 1, v) <==> seq_has_upto(ts, kj, v)
                                || pair_has(ts, kj, v));
                            if !seq_has_upto(ts, kj, v) {
                                assert(pair_has(ts, kj, v));
                                assert(seq_has(ts, v));
                                let m = choose|m: int|
                                    0 <= m < num_pairs(ss) && #[trigger] pair_has(ss, m, v);
                                if m >= ki {
                                    if m > ki {
                                        lemma_wf_ordered(ss, ki, m);
                                    }
                                    assert(v >= lo(ss, ki));
                                } else {
                                    assert(seq_has_upto(ss, ki, v));
                                }
                            }
                        }
                    }
                }
                j += 2;
            } else {
                proof {
                    let w = if self_min.sval() >= that_min.sval() {
                        self_min.sval()
                    } else {
                        that_min.sval()
                    };
                    assert(pair_has(ss, ki, w));
                    assert(pair_has(ts, kj, w));
                    assert(self.has(w) && that.has(w));
                }
                return true;
            }
        }
        proof {
            lemma_upto_all(ss);
            lemma_upto_all(ts);
            assert forall|v: int| !(self.has(v) && that.has(v)) by {
                if self.has(v) && that.has(v) {
                    assert(seq_has_upto(ss, num_pairs(ss), v));
                    assert(seq_has_upto(ts, num_pairs(ts), v));
                    if i >= self.0.len() {
                        assert(seq_has_upto(ss, i as int / 2, v));
                    } else {
                        assert(seq_has_upto(ts, j as int / 2, v));
                    }
                }
            }
        }
        false
    }

    /// Return the intersection with the given `RangeSet`: the canonical set
    /// holding the values of both operands.
    pub fn intersection(&self, that: &RangeSet<T>) -> (r: RangeSet<T>)
        requires
            self.wf(),
            that.wf(),
        ensures
            r.wf(),
            forall|v: int| r.has(v) <==> self.has(v) && that.has(v),
    {
        if self.is_empty() || that.is_empty() {
            return RangeSet::empty();
        }
        if self.is_total() {
            let r = that.copy_of();
            proof {
                assert forall|v: int| r.has(v) <==> self.has(v) && that.has(v) by {
                    if that.has(v) {
                        that.lemma_has_in_domain(v);
                    }
                }
            }
            return r;
        }
        if that.is_total() {
            let r = self.copy_of();
            proof {
                assert forall|v: int| r.has(v) <==> self.has(v) && that.has(v) by {
                    if self.has(v) {
                        self.lemma_has_in_domain(v);
                    }
                }
            }
            return r;
        }
        let ghost ss = self.bseq();
        let ghost ts = that.bseq();
        let mut bounds: Vec<T> = Vec::new();
        let mut i: usize = 0;
        let mut j: usize = 0;
        proof {
            lemma_from_all(ss);
            lemma_from_all(ts);
        }
        while i < self.0.len() && j < that.0.len()
            invariant
                self.wf(),
                that.wf(),
                ss == self.bseq(),
                ts == that.bseq(),
                i % 2 == 0,
                j % 2 == 0,
                i <= self.0@.len(),
                j <= that.0@.len(),
                seq_wf(ints_of(bounds@)),
                forall|v: int|
                    seq_has(ints_of(bounds@), v) || (seq_has_from(ss, i as int / 2, v)
                        && seq_has_from(ts, j as int / 2, v)) <==> seq_has(ss, v) && seq_has(
                        ts,
                        v,
                    ),
                bounds@.len() > 0 && i < self.0@.len() && j < that.0@.len() ==> (hi(
                    ints_of(bounds@),
                    num_pairs(ints_of(bounds@)) - 1,
                ) + 1 < lo(ss, i as int / 2) || hi(
                    ints_of(bounds@),
                    num_pairs(ints_of(bounds@)) - 1,
                ) + 1 < lo(ts, j as int / 2)),
            decreases self.0@.len() - i + that.0@.len() - j,
        {
            let self_min = self.0[i];
            let self_max = self.0[i + 1];
            let that_min = that.0[j];
            let that_max = that.0[j + 1];
            let ghost ki = i as int / 2;
            let ghost kj = j as int / 2;
            proof {
                assert(2 * ki == i as int);
                assert(2 * kj == j as int);
                assert(self_min.sval() == ss[2 * ki] == lo(ss, ki));
                assert(self_max.sval() == ss[2 * ki + 1] == hi(ss, ki));
                assert(that_min.sval() == ts[2 * kj] == lo(ts, kj));
                assert(that_max.sval() == ts[2 * kj + 1] == hi(ts, kj));
                assert(lo(ss, ki) <= hi(ss, ki));
                assert(lo(ts, kj) <= hi(ts, kj));
            }
            if self_max.lt(that_min) {
                proof {
                    assert forall|v: int|
                        (seq_has_from(ss, ki, v) && seq_has_from(ts, kj, v)) <==> (seq_has_from(
                            ss,
                            ki + 1,
                            v,
                        ) && seq_has_from(ts, kj, v)) by {
                        if seq_has_from(ss, ki, v) && seq_has_from(ts, kj, v) && !seq_has_from(
                            ss,
                            ki + 1,
                            v,
                        ) {
                            let m = choose|m: int|
                                ki <= m < num_pairs(ss) && #[trigger] pair_has(ss, m, v);
                            assert(m == ki);
                            let m2 = choose|m2: int|
                                kj <= m2 < num_pairs(ts) && #[trigger] pair_has(ts, m2, v);
                            if m2 > kj {
                                lemma_wf_ordered(ts, kj, m2);
                            }
                            assert(v >= lo(ts, kj));
                            assert(v <= hi(ss, ki));
                            assert(false);
                        }
                        if seq_has_from(ss, ki + 1, v) {
                            let m = choose|m: int|
                                ki + 1 <= m < num_pairs(ss) && #[trigger] pair_has(ss, m, v);
                            assert(seq_has_from(ss, ki, v));
                        }
                    }
                    assert forall|v: int|
                        (seq_has(ints_of(bounds@), v) || (seq_has_from(ss, ki + 1, v)
                            && seq_has_from(ts, kj, v))) <==> (seq_has(ss, v) && seq_has(
                            ts,
                            v,
                        )) by {
                        assert((seq_has(ints_of(bounds@), v) || (seq_has_from(ss, ki, v)
                            && seq_has_from(ts, kj, v))) <==> (seq_has(ss, v) && seq_has(ts, v)));
                        assert((seq_has_from(ss, ki, v) && seq_has_from(ts, kj, v)) <==> (
                        seq_has_from(ss, ki + 1, v) && seq_has_from(ts, kj, v)));
                    }
                    if bounds@.len() > 0 && i + 2 < self.0@.len() && j < that.0@.len() {
                        let bl = ints_of(bounds@);
                        if hi(bl, num_pairs(bl) - 1) + 1 < lo(ss, ki) {
                            lemma_wf_ordered(ss, ki, ki + 1);
                        }
                    }
                }
                i += 2;
            } else if that_max.lt(self_min) {
                proof {
                    assert forall|v: int|
                        (seq_has_from(ss, ki, v) && seq_has_from(ts, kj, v)) <==> (seq_has_from(
                            ss,
                            ki,
                            v,
                        ) && seq_has_from(ts, kj + 1, v)) by {
                        if seq_has_from(ts, kj, v) && seq_has_from(ss, ki, v) && !seq_has_from(
                            ts,
                            kj + 1,
                            v,
                        ) {
                            let m = choose|m: int|
                                kj <= m < num_pairs(ts) && #[trigger] pair_has(ts, m, v);
                            assert(m == kj);
                            let m2 = choose|m2: int|
                                ki <= m2 < num_pairs(ss) && #[trigger] pair_has(ss, m2, v);
                            if m2 > ki {
                                lemma_wf_ordered(ss, ki, m2);
                            }
                            assert(v >= lo(ss, ki));
                            assert(v <= hi(ts, kj));
                            assert(false);
                        }
                        if seq_has_from(ts, kj + 1, v) {
                            let m = choose|m: int|
                                kj + 1 <= m < num_pairs(ts) && #[trigger] pair_has(ts, m, v);
                            assert(seq_has_from(ts, kj, v));
                        }
                    }
                    assert forall|v: int|
                        (seq_has(ints_of(bounds@), v) || (seq_has_from(ss, ki, v) && seq_has_from(
                            ts,
                            kj + 1,
                            v,
                        ))) <==> (seq_has(ss, v) && seq_has(ts, v)) by {
                        assert((seq_has(ints_of(bounds@), v) || (seq_has_from(ss, ki, v)
                            && seq_has_from(ts, kj, v))) <==> (seq_has(ss, v) && seq_has(ts, v)));
                        assert((seq_has_from(ss, ki, v) && seq_has_from(ts, kj, v)) <==> (
                        seq_has_from(ss, ki, v) && seq_has_from(ts, kj + 1, v)));
                    }
                    if bounds@.len() > 0 && i < self.0@.len() && j + 2 < that.0@.len() {
                        let bl = ints_of(bounds@);
                        if hi(bl, num_pairs(bl) - 1) + 1 < lo(ts, kj) {
                            lemma_wf_ordered(ts, kj, kj + 1);
                        }
                    }
                }
                j += 2;
            } else {
                let emit_min = if self_min.lt(that_min) {
                    that_min
                } else {
                    self_min
                };
                let emit_max = if self_max.lt(that_max) {
                    self_max
                } else {
                    that_max
                };
                let ghost bl = ints_of(bounds@);
                proof {
                    assert(emit_min.sval() <= emit_max.sval());
                    if bounds@.len() > 0 {
                        assert(hi(bl, num_pairs(bl) - 1) + 1 < emit_min.sval());
                    }
                    lemma_append_pair(bl, emit_min.sval(), emit_max.sval());
                    assert(ints_of(bounds@.push(emit_min).push(emit_max)) =~= bl + seq![
                        emit_min.sval(),
                        emit_max.sval(),
                    ]);
                }
                bounds.push(emit_min);
                bounds.push(emit_max);
                proof {
                    let bl2 = ints_of(bounds@);
                    assert(bl2 == bl + seq![emit_min.sval(), emit_max.sval()]);
                    assert(hi(bl2, num_pairs(bl2) - 1) == emit_max.sval());
                    assert forall|v: int|
                        pair_has(ss, ki, v) && pair_has(ts, kj, v) <==> (emit_min.sval() <= v
                            <= emit_max.sval()) by {}
                }
                if self_max.lt(that_max) {
                    proof {
                        assert forall|v: int|
                            seq_has_from(ss, ki, v) && seq_has_from(ts, kj, v) <==> (
                            emit_min.sval() <= v <= emit_max.sval()) || (seq_has_from(ss, ki + 1, v)
                                && seq_has_from(ts, kj, v)) by {
                            if seq_has_from(ss, ki, v) && seq_has_from(ts, kj, v) {
                                let m = choose|m: int|
                                    ki <= m < num_pairs(ss) && #[trigger] pair_has(ss, m, v);
                                let m2 = choose|m2: int|
                                    kj <= m2 < num_pairs(ts) && #[trigger] pair_has(ts, m2, v);
                                if m == ki {
                                    if m2 > kj {
                                        lemma_wf_ordered(ts, kj, m2);
                                        assert(v >= lo(ts, m2));
                                        assert(false);
                                    }
                                    assert(pair_has(ts, kj, v));
                                }
                            }
                            if emit_min.sval() <= v <= emit_max.sval() {
                                assert(pair_has(ss, ki, v));
                                assert(pair_has(ts, kj, v));
                            }
                            if seq_has_from(ss, ki + 1, v) {
                                let m = choose|m: int|
                                    ki + 1 <= m < num_pairs(ss) && #[trigger] pair_has(ss, m, v);
                                assert(seq_has_from(ss, ki, v));
                            }
                        }
                        assert forall|v: int|
                            (seq_has(ints_of(bounds@), v) || (seq_has_from(ss, ki + 1, v)
                                && seq_has_from(ts, kj, v))) <==> (seq_has(ss, v) && seq_has(
                                ts,
                                v,
                            )) by {
                            assert((seq_has(bl, v) || (seq_has_from(ss, ki, v) && seq_has_from(
                                ts,
                                kj,
                                v,
                            ))) <==> (seq_has(ss, v) && seq_has(ts, v)));
                            assert(crate::covers_plus(
                                bl + seq![emit_min.sval(), emit_max.sval()],
                                bl,
                                emit_min.sval(),
                                emit_max.sval(),
                            ));
                            assert(seq_has(bl + seq![emit_min.sval(), emit_max.sval()], v)
                                <==> seq_has(bl, v) || (emit_min.sval() <= v <= emit_max.sval()));
                            assert(seq_has(ints_of(bounds@), v) == seq_has(
                                bl + seq![emit_min.sval(), emit_max.sval()],
                                v,
                            ));
                        }
                        if i + 2 < self.0@.len() {
                            lemma_wf_ordered(ss, ki, ki + 1);
                        }
                    }
                    i += 2;
                } else {
                    proof {
                        assert forall|v: int|
                            seq_has_from(ss, ki, v) && seq_has_from(ts, kj, v) <==> (
                            emit_min.sval() <= v <= emit_max.sval()) || (seq_has_from(ss, ki, v)
                                && seq_has_from(ts, kj + 1, v)) by {
                            if seq_has_from(ss, ki, v) && seq_has_from(ts, kj, v) {
                                let m = choose|m: int|
                                    ki <= m < num_pairs(ss) && #[trigger] pair_has(ss, m, v);
                                let m2 = choose|m2: int|
                                    kj <= m2 < num_pairs(ts) && #[trigger] pair_has(ts, m2, v);
                                if m2 == kj {
                                    if m > ki {
                                        lemma_wf_ordered(ss, ki, m);
                                        assert(v >= lo(ss, m));
                                        assert(false);
                                    }
                                    assert(pair_has(ss, ki, v));
                                }
                            }
                            if emit_min.sval() <= v <= emit_max.sval() {
                                assert(pair_has(ss, ki, v));
                                assert(pair_has(ts, kj, v));
                            }
                            if seq_has_from(ts, kj + 1, v) {
                                let m = choose|m: int|
                                    kj + 1 <= m < num_pairs(ts) && #[trigger] pair_has(ts, m, v);
                                assert(seq_has_from(ts, kj, v));
                            }
                        }
                        assert forall|v: int|
                            (seq_has(ints_of(bounds@), v) || (seq_has_from(ss, ki, v)
                                && seq_has_from(ts, kj + 1, v))) <==> (seq_has(ss, v) && seq_has(
                                ts,
                                v,
                            )) by {
                            assert((seq_has(bl, v) || (seq_has_from(ss, ki, v) && seq_has_from(
                                ts,
                                kj,
                                v,
                            ))) <==> (seq_has(ss, v) && seq_has(ts, v)));
                            assert(crate::covers_plus(
                                bl + seq![emit_min.sval(), emit_max.sval()],
                                bl,
                                emit_min.sval(),
                                emit_max.sval(),
                            ));
                            assert(seq_has(bl + seq![emit_min.sval(), emit_max.sval()], v)
                                <==> seq_has(bl, v) || (emit_min.sval() <= v <= emit_max.sval()));
                            assert(seq_has(ints_of(bounds@), v) == seq_has(
                                bl + seq![emit_min.sval(), emit_max.sval()],
                                v,
                            ));
                        }
                        if j + 2 < that.0@.len() {
                            lemma_wf_ordered(ts, kj, kj + 1);
                        }
                    }
                    j += 2;
                }
            }
        }
        let r = RangeSet(bounds);
        proof {
            assert(r.bseq() =~= ints_of(bounds@));
            assert forall|v: int| r.has(v) <==> self.has(v) && that.has(v) by {
                assert(r.has(v) == seq_has(ints_of(bounds@), v));
                assert(self.has(v) == seq_has(ss, v));
                assert(that.has(v) == seq_has(ts, v));
                if i >= self.0@.len() {
                    assert(!seq_has_from(ss, i as int / 2, v));
                } else {
                    assert(!seq_has_from(ts, j as int / 2, v));
                }
            }
        }
        r
    }
    /// Return the complement: the canonical set holding exactly the domain
    /// values this set does not hold.
    #[verifier::rlimit(100)]
    pub fn complement(&self) -> (r: RangeSet<T>)
        requires
            self.wf(),
        ensures
            r.wf(),
            forall|v: int|
                r.has(v) <==> (T::domain_min() <= v <= T::domain_max() && !self.has(v)),
    {
        proof {
            self.lemma_in_domain();
            T::lemma_domain_nonempty();
        }
        if self.is_empty() {
            let r = RangeSet::total();
            return r;
        }
        if self.is_total() {
            let r = RangeSet::empty();
            return r;
        }
        let ghost ss = self.bseq();
        let mut bounds: Vec<T> = Vec::new();
        let first = self.0[0];
        proof {
            assert(first.sval() == ss[0] == lo(ss, 0));
        }
        if T::min_value().lt(first) {
            bounds.push(T::min_value());
            bounds.push(first.pred());
        }
        proof {
            if T::domain_min() < lo(ss, 0) {
                assert(ints_of(bounds@) =~= seq![T::domain_min(), lo(ss, 0) - 1]);
                assert(seq_wf(ints_of(bounds@)));
            } else {
                assert(ints_of(bounds@) =~= Seq::<int>::empty());
            }
            assert forall|v: int|
                seq_has(ints_of(bounds@), v) <==> (T::domain_min() <= v <= T::domain_max()
                    && !seq_has(ss, v) && v < lo(ss, 0)) by {
                let bl = ints_of(bounds@);
                if seq_has(bl, v) {
                    let k = choose|k: int| 0 <= k < num_pairs(bl) && #[trigger] pair_has(bl, k, v);
                    crate::lemma_outside_not_has(ss, v);
                }
                if T::domain_min() <= v && v < lo(ss, 0) {
                    assert(pair_has(bl, 0, v));
                }
            }
            assert(gaps_below::<T>(ints_of(bounds@), ss, lo(ss, 0)));
        }
        proof {
            assert(ss.len() == self.0@.len());
            assert(self.0@.len() >= 2);
        }
        let limit = self.0.len() - 2;
        let mut k: usize = 0;
        while k < limit
            invariant
                self.wf(),
                ss == self.bseq(),
                k % 2 == 0,
                limit == self.0@.len() - 2,
                self.0@.len() >= 2,
                k + 2 <= self.0@.len(),
                seq_wf(ints_of(bounds@)),
                gaps_below::<T>(ints_of(bounds@), ss, lo(ss, k as int / 2)),
                bounds@.len() > 0 ==> hi(ints_of(bounds@), num_pairs(ints_of(bounds@)) - 1) < lo(
                    ss,
                    k as int / 2,
                ),
                forall|i: int|
                    0 <= i < ss.len() ==> T::domain_min() <= #[trigger] ss[i] <= T::domain_max(),
            decreases self.0@.len() - k,
        {
            let ghost m = k as int / 2;
            let ghost bl = ints_of(bounds@);
            proof {
                assert(2 * m == k as int);
                assert(self.0@[k as int + 1].sval() == ss[2 * m + 1] == hi(ss, m));
                assert(self.0@[k as int + 2].sval() == ss[2 * m + 2] == lo(ss, m + 1));
                assert(hi(ss, m) + 1 < lo(ss, m + 1));
                assert(lo(ss, m) <= hi(ss, m));
                assert(lo(ss, m + 1) <= hi(ss, m + 1));
                assert(ss[2 * m + 2] <= T::domain_max());
                assert(ss[2 * m] >= T::domain_min());
                lemma_append_pair(bl, hi(ss, m) + 1, lo(ss, m + 1) - 1);
                assert(gaps_below::<T>(bl, ss, lo(ss, m)));
            }
            let gap_lo = self.0[k + 1].succ();
            let gap_hi = self.0[k + 2].pred();
            bounds.push(gap_lo);
            bounds.push(gap_hi);
            proof {
                assert(ints_of(bounds@) =~= bl + seq![hi(ss, m) + 1, lo(ss, m + 1) - 1]);
                assert forall|v: int|
                    (#[trigger] seq_has(ints_of(bounds@), v)) <==> (T::domain_min() <= v
                        <= T::domain_max() && !seq_has(ss, v) && v < lo(ss, m + 1)) by {
                    assert(seq_has(bl, v) <==> (T::domain_min() <= v <= T::domain_max()
                        && !seq_has(ss, v) && v < lo(ss, m)));
                    assert(seq_has(bl + seq![hi(ss, m) + 1, lo(ss, m + 1) - 1], v) <==> seq_has(
                        bl,
                        v,
                    ) || hi(ss, m) + 1 <= v <= lo(ss, m + 1) - 1);
                    assert(seq_has(ints_of(bounds@), v) == seq_has(
                        bl + seq![hi(ss, m) + 1, lo(ss, m + 1) - 1],
                        v,
                    ));
                    if hi(ss, m) + 1 <= v <= lo(ss, m + 1) - 1 {
                        crate::lemma_gap_not_has(ss, m, v);
                    }
                    if T::domain_min() <= v <= T::domain_max() && !seq_has(ss, v) && v < lo(
                        ss,
                        m + 1,
                    ) && v >= lo(ss, m) {
                        assert(!pair_has(ss, m, v));
                        assert(v > hi(ss, m));
                    }
                }
                assert(gaps_below::<T>(ints_of(bounds@), ss, lo(ss, m + 1)));
                assert(hi(
                    ints_of(bounds@),
                    num_pairs(ints_of(bounds@)) - 1,
                ) == lo(ss, m + 1) - 1);
            }
            k += 2;
        }
        let ghost m = k as int / 2;
        proof {
            assert(k as int + 2 == ss.len());
            assert(m == num_pairs(ss) - 1);
            assert(self.0@[ss.len() - 1].sval() == ss[2 * m + 1] == hi(ss, m));
            assert(lo(ss, m) <= hi(ss, m));
            assert(ss[2 * m + 1] <= T::domain_max());
        }
        let last = self.0[self.0.len() - 1];
        let ghost bl = ints_of(bounds@);
        if last.lt(T::max_value()) {
            proof {
                lemma_append_pair(bl, hi(ss, m) + 1, T::domain_max());
            }
            bounds.push(last.succ());
            bounds.push(T::max_value());
        }
        let r = RangeSet(bounds);
        proof {
            if last.sval() < T::domain_max() {
                assert(r.bseq() =~= bl + seq![hi(ss, m) + 1, T::domain_max()]);
            } else {
                assert(r.bseq() =~= bl);
            }
            assert(gaps_below::<T>(bl, ss, lo(ss, m)));
            assert forall|v: int|
                r.has(v) <==> (T::domain_min() <= v <= T::domain_max() && !self.has(v)) by {
                assert(r.has(v) == seq_has(r.bseq(), v));
                assert(self.has(v) == seq_has(ss, v));
                assert(seq_has(bl, v) <==> (T::domain_min() <= v <= T::domain_max() && !seq_has(
                    ss,
                    v,
                ) && v < lo(ss, m)));
                if hi(ss, m) < T::domain_max() {
                    assert(seq_has(bl + seq![hi(ss, m) + 1, T::domain_max()], v) <==> seq_has(
                        bl,
                        v,
                    ) || hi(ss, m) + 1 <= v <= T::domain_max());
                }
                if T::domain_min() <= v <= T::domain_max() && !seq_has(ss, v) && v >= lo(ss, m) {
                    assert(!pair_has(ss, m, v));
                    assert(v > hi(ss, m));
                }
                if hi(ss, m) + 1 <= v <= T::domain_max() {
                    crate::lemma_outside_not_has(ss, v);
                }
            }
        }
        r
    }

    /// Return the difference with the given `RangeSet`: the values of this
    /// set that the other does not hold. It is the intersection with the
    /// other's complement.
    pub fn difference(&self, that: &RangeSet<T>) -> (r: RangeSet<T>)
        requires
            self.wf(),
            that.wf(),
        ensures
            r.wf(),
            forall|v: int| r.has(v) <==> self.has(v) && !that.has(v),
    {
        let r = self.intersection(&that.complement());
        proof {
            assert forall|v: int| r.has(v) <==> self.has(v) && !that.has(v) by {
                if self.has(v) {
                    self.lemma_has_in_domain(v);
                }
            }
        }
        r
    }
}

} // verus!
