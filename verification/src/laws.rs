//! The algebraic laws of the interval sets. The cornerstone is canonicality:
//! two well-formed bound sequences holding the same values are the same
//! sequence, so every law stated on values lifts to equality of
//! representations.

use vstd::prelude::*;

use crate::integer::Bounded;
use crate::integer::NumericInteger;
use crate::RangeSet;
use crate::hi;
use crate::lo;
use crate::num_pairs;
use crate::pair_has;
use crate::seq_has;
use crate::seq_wf;
use crate::lemma_gap_not_has;
use crate::lemma_has_bounds;
use crate::lemma_outside_not_has;
use crate::lemma_wf_ordered;

verus! {

/// A well-formed sequence without bounds covers nothing; one with bounds
/// covers its first lower bound.
proof fn lemma_first_value(s: Seq<int>)
    requires
        seq_wf(s),
    ensures
        s.len() == 0 ==> forall|v: int| !seq_has(s, v),
        s.len() > 0 ==> seq_has(s, lo(s, 0)),
{
    if s.len() > 0 {
        assert(lo(s, 0) <= hi(s, 0));
        assert(pair_has(s, 0, lo(s, 0)));
    }
}

/// Two well-formed, non-empty sequences covering the same values agree on
/// their first interval.
proof fn lemma_first_pair_equal(s1: Seq<int>, s2: Seq<int>)
    requires
        seq_wf(s1),
        seq_wf(s2),
        s1.len() > 0,
        s2.len() > 0,
        forall|v: int| seq_has(s1, v) <==> seq_has(s2, v),
    ensures
        lo(s1, 0) == lo(s2, 0),
        hi(s1, 0) == hi(s2, 0),
{
    let lo1 = lo(s1, 0);
    let hi1 = hi(s1, 0);
    let lo2 = lo(s2, 0);
    let hi2 = hi(s2, 0);
    assert(lo1 <= hi1);
    assert(lo2 <= hi2);
    assert(seq_has(s1, lo1)) by {
        assert(pair_has(s1, 0, lo1));
    }
    assert(seq_has(s2, lo2)) by {
        assert(pair_has(s2, 0, lo2));
    }
    assert(lo1 >= lo2) by {
        lemma_has_bounds(s2, lo1);
    }
    assert(lo2 >= lo1) by {
        lemma_has_bounds(s1, lo2);
    }
    if hi1 < hi2 {
        let w = hi1 + 1;
        assert(pair_has(s2, 0, w));
        assert(seq_has(s2, w));
        if num_pairs(s1) == 1 {
            lemma_outside_not_has(s1, w);
        } else {
            lemma_gap_not_has(s1, 0, w);
        }
        assert(false);
    }
    if hi2 < hi1 {
        let w = hi2 + 1;
        assert(pair_has(s1, 0, w));
        assert(seq_has(s1, w));
        if num_pairs(s2) == 1 {
            lemma_outside_not_has(s2, w);
        } else {
            lemma_gap_not_has(s2, 0, w);
        }
        assert(false);
    }
}

/// Dropping the first interval of a well-formed sequence leaves a
/// well-formed sequence that covers exactly the values beyond that interval.
proof fn lemma_tail(s: Seq<int>)
    requires
        seq_wf(s),
        s.len() >= 2,
    ensures
        seq_wf(s.subrange(2, s.len() as int)),
        forall|v: int|
            seq_has(s.subrange(2, s.len() as int), v) <==> seq_has(s, v) && v > hi(s, 0),
{
    let t = s.subrange(2, s.len() as int);
    assert forall|k: int| 0 <= k < num_pairs(t) implies #[trigger] lo(t, k) == lo(s, k + 1) && hi(
        t,
        k,
    ) == hi(s, k + 1) by {
        assert(t[2 * k] == s[2 * k + 2]);
        assert(t[2 * k + 1] == s[2 * k + 3]);
    }
    assert(seq_wf(t)) by {
        assert forall|k: int| 0 <= k < num_pairs(t) implies #[trigger] lo(t, k) <= hi(t, k) by {
            assert(lo(s, k + 1) <= hi(s, k + 1));
        }
        assert forall|k: int| 0 <= k < num_pairs(t) - 1 implies #[trigger] hi(t, k) + 1 < lo(
            t,
            k + 1,
        ) by {
            assert(hi(s, k + 1) + 1 < lo(s, k + 2));
        }
    }
    assert forall|v: int| seq_has(t, v) <==> seq_has(s, v) && v > hi(s, 0) by {
        if seq_has(t, v) {
            let k = choose|k: int| 0 <= k < num_pairs(t) && #[trigger] pair_has(t, k, v);
            assert(pair_has(s, k + 1, v));
            lemma_wf_ordered(s, 0, k + 1);
        }
        if seq_has(s, v) && v > hi(s, 0) {
            let k = choose|k: int| 0 <= k < num_pairs(s) && #[trigger] pair_has(s, k, v);
            assert(k >= 1);
            assert(pair_has(t, k - 1, v));
        }
    }
}

/// Canonicality: two well-formed bound sequences that cover the same values
/// are equal.
pub proof fn lemma_canonical_unique(s1: Seq<int>, s2: Seq<int>)
    requires
        seq_wf(s1),
        seq_wf(s2),
        forall|v: int| seq_has(s1, v) <==> seq_has(s2, v),
    ensures
        s1 == s2,
    decreases s1.len(),
{
    lemma_first_value(s1);
    lemma_first_value(s2);
    if s1.len() == 0 {
        if s2.len() > 0 {
            assert(seq_has(s1, lo(s2, 0)));
            assert(false);
        }
        assert(s1 =~= s2);
    } else if s2.len() == 0 {
        assert(seq_has(s2, lo(s1, 0)));
        assert(false);
    } else {
        lemma_first_pair_equal(s1, s2);
        let t1 = s1.subrange(2, s1.len() as int);
        let t2 = s2.subrange(2, s2.len() as int);
        lemma_tail(s1);
        lemma_tail(s2);
        assert forall|v: int| seq_has(t1, v) <==> seq_has(t2, v) by {
            assert(seq_has(t1, v) <==> seq_has(s1, v) && v > hi(s1, 0));
            assert(seq_has(t2, v) <==> seq_has(s2, v) && v > hi(s2, 0));
        }
        lemma_canonical_unique(t1, t2);
        assert(s1 =~= s2) by {
            assert forall|i: int| 0 <= i < s1.len() implies s1[i] == s2[i] by {
                if i >= 2 {
                    assert(t1[i - 2] == s1[i]);
                    assert(t2[i - 2] == s2[i]);
                }
            }
        }
    }
}

/// Canonicality lifted to sets: two well-formed sets holding the same values
/// store the same bounds.
pub proof fn lemma_same_values_same_bounds<T: NumericInteger>(a: RangeSet<T>, b: RangeSet<T>)
    requires
        a.wf(),
        b.wf(),
        forall|v: int| a.has(v) <==> b.has(v),
    ensures
        a.0@ == b.0@,
{
    assert forall|v: int| seq_has(a.bseq(), v) <==> seq_has(b.bseq(), v) by {
        assert(a.has(v) == seq_has(a.bseq(), v));
        assert(b.has(v) == seq_has(b.bseq(), v));
    }
    lemma_canonical_unique(a.bseq(), b.bseq());
    assert forall|i: int| 0 <= i < a.0@.len() implies a.0@[i] == b.0@[i] by {
        assert(a.bseq()[i] == b.bseq()[i]);
        T::lemma_sval_injective(a.0@[i], b.0@[i]);
    }
    assert(a.0@ =~= b.0@);
}

/// A set and its complement cover the whole domain between them: their union
/// is the total set.
pub proof fn lemma_union_with_complement_is_total<T: NumericInteger>(
    a: RangeSet<T>,
    c: RangeSet<T>,
    u: RangeSet<T>,
    t: RangeSet<T>,
)
    requires
        a.wf(),
        c.wf(),
        u.wf(),
        t.wf(),
        forall|v: int| c.has(v) <==> (T::domain_min() <= v <= T::domain_max() && !a.has(v)),
        forall|v: int| u.has(v) <==> a.has(v) || c.has(v),
        forall|v: int| t.has(v) <==> T::domain_min() <= v <= T::domain_max(),
    ensures
        u.0@ == t.0@,
{
    assert forall|v: int| u.has(v) <==> t.has(v) by {
        if a.has(v) {
            a.lemma_has_in_domain(v);
        }
    }
    lemma_same_values_same_bounds(u, t);
}

/// A set and its complement share no value: their intersection is the empty
/// set.
pub proof fn lemma_intersection_with_complement_is_empty<T: NumericInteger>(
    a: RangeSet<T>,
    c: RangeSet<T>,
    x: RangeSet<T>,
)
    requires
        a.wf(),
        c.wf(),
        x.wf(),
        forall|v: int| c.has(v) <==> (T::domain_min() <= v <= T::domain_max() && !a.has(v)),
        forall|v: int| x.has(v) <==> a.has(v) && c.has(v),
    ensures
        x.0@.len() == 0,
{
    if x.0@.len() > 0 {
        let s = x.bseq();
        assert(lo(s, 0) <= hi(s, 0));
        assert(pair_has(s, 0, lo(s, 0)));
        assert(x.has(lo(s, 0)));
        assert(false);
    }
}

/// Complement is an involution: the complement of the complement of a set is
/// the set itself.
pub proof fn lemma_complement_involution<T: NumericInteger>(
    a: RangeSet<T>,
    c: RangeSet<T>,
    cc: RangeSet<T>,
)
    requires
        a.wf(),
        c.wf(),
        cc.wf(),
        forall|v: int| c.has(v) <==> (T::domain_min() <= v <= T::domain_max() && !a.has(v)),
        forall|v: int| cc.has(v) <==> (T::domain_min() <= v <= T::domain_max() && !c.has(v)),
    ensures
        cc.0@ == a.0@,
{
    assert forall|v: int| cc.has(v) <==> a.has(v) by {
        if a.has(v) {
            a.lemma_has_in_domain(v);
        }
    }
    lemma_same_values_same_bounds(cc, a);
}

/// Union is commutative.
pub proof fn lemma_union_commutative<T: NumericInteger>(
    a: RangeSet<T>,
    b: RangeSet<T>,
    u1: RangeSet<T>,
    u2: RangeSet<T>,
)
    requires
        u1.wf(),
        u2.wf(),
        forall|v: int| u1.has(v) <==> a.has(v) || b.has(v),
        forall|v: int| u2.has(v) <==> b.has(v) || a.has(v),
    ensures
        u1.0@ == u2.0@,
{
    lemma_same_values_same_bounds(u1, u2);
}

/// Intersection is commutative.
pub proof fn lemma_intersection_commutative<T: NumericInteger>(
    a: RangeSet<T>,
    b: RangeSet<T>,
    x1: RangeSet<T>,
    x2: RangeSet<T>,
)
    requires
        x1.wf(),
        x2.wf(),
        forall|v: int| x1.has(v) <==> a.has(v) && b.has(v),
        forall|v: int| x2.has(v) <==> b.has(v) && a.has(v),
    ensures
        x1.0@ == x2.0@,
{
    lemma_same_values_same_bounds(x1, x2);
}

/// Union is associative.
pub proof fn lemma_union_associative<T: NumericInteger>(
    a: RangeSet<T>,
    b: RangeSet<T>,
    c: RangeSet<T>,
    ab: RangeSet<T>,
    bc: RangeSet<T>,
    u1: RangeSet<T>,
    u2: RangeSet<T>,
)
    requires
        u1.wf(),
        u2.wf(),
        forall|v: int| ab.has(v) <==> a.has(v) || b.has(v),
        forall|v: int| bc.has(v) <==> b.has(v) || c.has(v),
        forall|v: int| u1.has(v) <==> ab.has(v) || c.has(v),
        forall|v: int| u2.has(v) <==> a.has(v) || bc.has(v),
    ensures
        u1.0@ == u2.0@,
{
    lemma_same_values_same_bounds(u1, u2);
}

/// Intersection is associative.
pub proof fn lemma_intersection_associative<T: NumericInteger>(
    a: RangeSet<T>,
    b: RangeSet<T>,
    c: RangeSet<T>,
    ab: RangeSet<T>,
    bc: RangeSet<T>,
    x1: RangeSet<T>,
    x2: RangeSet<T>,
)
    requires
        x1.wf(),
        x2.wf(),
        forall|v: int| ab.has(v) <==> a.has(v) && b.has(v),
        forall|v: int| bc.has(v) <==> b.has(v) && c.has(v),
        forall|v: int| x1.has(v) <==> ab.has(v) && c.has(v),
        forall|v: int| x2.has(v) <==> a.has(v) && bc.has(v),
    ensures
        x1.0@ == x2.0@,
{
    lemma_same_values_same_bounds(x1, x2);
}

/// The empty set is the identity of union.
pub proof fn lemma_union_empty_identity<T: NumericInteger>(
    a: RangeSet<T>,
    e: RangeSet<T>,
    u: RangeSet<T>,
)
    requires
        a.wf(),
        u.wf(),
        forall|v: int| !e.has(v),
        forall|v: int| u.has(v) <==> a.has(v) || e.has(v),
    ensures
        u.0@ == a.0@,
{
    lemma_same_values_same_bounds(u, a);
}

/// The total set is the identity of intersection.
pub proof fn lemma_intersection_total_identity<T: NumericInteger>(
    a: RangeSet<T>,
    t: RangeSet<T>,
    x: RangeSet<T>,
)
    requires
        a.wf(),
        x.wf(),
        forall|v: int| t.has(v) <==> T::domain_min() <= v <= T::domain_max(),
        forall|v: int| x.has(v) <==> a.has(v) && t.has(v),
    ensures
        x.0@ == a.0@,
{
    assert forall|v: int| x.has(v) <==> a.has(v) by {
        if a.has(v) {
            a.lemma_has_in_domain(v);
        }
    }
    lemma_same_values_same_bounds(x, a);
}

/// The three faces of containment agree: `a` contains every value of `b`
/// exactly when their union is `a` again, and exactly when the difference
/// `b` minus `a` is empty.
#[verifier::rlimit(100)]
pub proof fn lemma_contains_all_iff_union_iff_difference<T: NumericInteger>(
    a: RangeSet<T>,
    b: RangeSet<T>,
    u: RangeSet<T>,
    d: RangeSet<T>,
)
    requires
        a.wf(),
        b.wf(),
        u.wf(),
        d.wf(),
        forall|v: int| u.has(v) <==> a.has(v) || b.has(v),
        forall|v: int| d.has(v) <==> b.has(v) && !a.has(v),
    ensures
        (forall|v: int| b.has(v) ==> a.has(v)) <==> (u.0@ == a.0@),
        (forall|v: int| b.has(v) ==> a.has(v)) <==> (d.0@.len() == 0),
{
    if forall|v: int| b.has(v) ==> a.has(v) {
        assert forall|v: int| u.has(v) <==> a.has(v) by {}
        lemma_same_values_same_bounds(u, a);
        if d.0@.len() > 0 {
            let s = d.bseq();
            assert(lo(s, 0) <= hi(s, 0));
            assert(pair_has(s, 0, lo(s, 0)));
            assert(d.has(lo(s, 0)));
            assert(false);
        }
    }
    if u.0@ == a.0@ {
        assert forall|v: int| b.has(v) implies a.has(v) by {
            assert(u.has(v) == a.has(v));
        }
    }
    if d.0@.len() == 0 {
        assert forall|v: int| b.has(v) implies a.has(v) by {
            assert(!d.has(v));
        }
    }
}

/// The total set over a bounded domain holds exactly the domain's values:
/// finitely many, one per domain value. An ascending traversal that yields
/// every contained value once (which is what `RangeSetIter::next` promises)
/// therefore yields exactly this many values.
pub proof fn lemma_total_cardinality<T: NumericInteger>(t: RangeSet<T>)
    requires
        forall|v: int| t.has(v) <==> T::domain_min() <= v <= T::domain_max(),
    ensures
        t.to_set() =~= vstd::set_lib::set_int_range(T::domain_min(), T::domain_max() + 1),
        t.to_set().finite(),
        t.to_set().len() == T::domain_max() + 1 - T::domain_min(),
{
    T::lemma_domain_nonempty();
    vstd::set_lib::lemma_int_range(T::domain_min(), T::domain_max() + 1);
    assert(t.to_set() =~= vstd::set_lib::set_int_range(T::domain_min(), T::domain_max() + 1));
}

/// De Morgan: the complement of a union is the intersection of the
/// complements.
pub proof fn lemma_de_morgan<T: NumericInteger>(
    a: RangeSet<T>,
    b: RangeSet<T>,
    u: RangeSet<T>,
    cu: RangeSet<T>,
    ca: RangeSet<T>,
    cb: RangeSet<T>,
    x: RangeSet<T>,
)
    requires
        cu.wf(),
        x.wf(),
        forall|v: int| u.has(v) <==> a.has(v) || b.has(v),
        forall|v: int| cu.has(v) <==> (T::domain_min() <= v <= T::domain_max() && !u.has(v)),
        forall|v: int| ca.has(v) <==> (T::domain_min() <= v <= T::domain_max() && !a.has(v)),
        forall|v: int| cb.has(v) <==> (T::domain_min() <= v <= T::domain_max() && !b.has(v)),
        forall|v: int| x.has(v) <==> ca.has(v) && cb.has(v),
    ensures
        cu.0@ == x.0@,
{
    lemma_same_values_same_bounds(cu, x);
}

} // verus!
