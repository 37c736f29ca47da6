use std::ops::Bound;

use irange::RangeSet;
use irange::range::AnyRange;
use irange::range::Endpoint;
use irange::range::range_to_bounds;

#[test]
fn union_with_complement_is_total() {
    let a = RangeSet::<u8>(vec![2, 44, 56, 60]);
    assert_eq!(RangeSet::<u8>::total(), a.union(&a.complement()));

    let b = RangeSet::<i16>(vec![-7, -3, 100, 200]);
    assert_eq!(RangeSet::<i16>::total(), b.union(&b.complement()));

    let e = RangeSet::<u8>::empty();
    assert_eq!(RangeSet::<u8>::total(), e.union(&e.complement()));
}

#[test]
fn intersection_with_complement_is_empty() {
    let a = RangeSet::<u8>(vec![2, 44, 56, 60]);
    assert!(a.intersection(&a.complement()).is_empty());

    let t = RangeSet::<u8>::total();
    assert!(t.intersection(&t.complement()).is_empty());
}

#[test]
fn complement_is_involution() {
    let a = RangeSet::<u8>(vec![2, 44, 56, 60]);
    assert_eq!(a, a.complement().complement());

    let b = RangeSet::<i32>(vec![i32::MIN, -5, 7, 7]);
    assert_eq!(b, b.complement().complement());

    let e = RangeSet::<u8>::empty();
    assert_eq!(e, e.complement().complement());
}

#[test]
fn union_is_commutative_and_associative() {
    let a = RangeSet::<u8>(vec![2, 44]);
    let b = RangeSet::<u8>(vec![5, 48, 200, 210]);
    let c = RangeSet::<u8>(vec![45, 50]);

    assert_eq!(a.union(&b), b.union(&a));
    assert_eq!(a.union(&b).union(&c), a.union(&b.union(&c)));
}

#[test]
fn intersection_is_commutative_and_associative() {
    let a = RangeSet::<u8>(vec![2, 44]);
    let b = RangeSet::<u8>(vec![5, 48, 200, 210]);
    let c = RangeSet::<u8>(vec![40, 50]);

    assert_eq!(a.intersection(&b), b.intersection(&a));
    assert_eq!(a.intersection(&b).intersection(&c), a.intersection(&b.intersection(&c)));
}

#[test]
fn union_with_empty_is_identity() {
    let a = RangeSet::<u8>(vec![2, 44, 56, 60]);
    assert_eq!(a, a.union(&RangeSet::empty()));
}

#[test]
fn intersection_with_total_is_identity() {
    let a = RangeSet::<u8>(vec![2, 44, 56, 60]);
    assert_eq!(a, a.intersection(&RangeSet::total()));
}

#[test]
fn contains_all_union_difference_agree() {
    let a = RangeSet::<u8>(vec![19, 33, 53, 70]);
    let b = RangeSet::<u8>(vec![20, 21, 30, 32, 66, 69]);
    assert!(a.contains_all(&b));
    assert_eq!(a, a.union(&b));
    assert!(b.difference(&a).is_empty());

    let c = RangeSet::<u8>(vec![20, 21, 30, 32, 66, 71]);
    assert!(!a.contains_all(&c));
    assert_ne!(a, a.union(&c));
    assert!(!c.difference(&a).is_empty());
}

#[test]
fn de_morgan() {
    let a = RangeSet::<u8>(vec![2, 44, 100, 120]);
    let b = RangeSet::<u8>(vec![5, 48, 200, 210]);
    assert_eq!(a.union(&b).complement(), a.complement().intersection(&b.complement()));
}

#[test]
fn iteration_counts_the_whole_domain() {
    let total = RangeSet::<i8>::total();
    let mut count: usize = 0;
    let mut previous: Option<i8> = None;
    let mut it = total.iter();
    while let Some(value) = it.next() {
        assert!(total.contains(value));
        if let Some(p) = previous {
            assert!(p < value);
        }
        previous = Some(value);
        count += 1;
    }
    assert_eq!(256, count);
}

#[test]
fn complement_concrete_bounds() {
    assert_eq!(vec![0, 1, 45, 255], RangeSet::<u8>(vec![2, 44]).complement().0);
    assert!(RangeSet::<u8>::total().complement().is_empty());
}

#[test]
fn has_intersection_reports_overlap() {
    let range1 = RangeSet::<i64>::new_from_range(2..4);
    let range2 = RangeSet::<i64>::new_from_range(3..=5);
    let range3 = RangeSet::<i64>::new_from_range(5..13);

    assert!(range1.has_intersection(&range2));
    assert!(!range1.has_intersection(&range3));
    assert!(range2.has_intersection(&range3));
    assert!(!RangeSet::<i64>::empty().has_intersection(&RangeSet::total()));
}

#[test]
fn exclusive_endpoints_at_domain_extremes() {
    // A range that excludes the greatest value as its start admits nothing.
    let empty = RangeSet::<u8>::new_from_range((Bound::Excluded(255u8), Bound::Unbounded));
    assert!(empty.is_empty());

    // A range that excludes the least value as its end admits nothing.
    let empty = RangeSet::<u8>::new_from_range((Bound::Unbounded, Bound::Excluded(0u8)));
    assert!(empty.is_empty());

    // One step inside the extremes, the normalization is exact.
    let r = RangeSet::<u8>::new_from_range((Bound::Excluded(254u8), Bound::Unbounded));
    assert_eq!(vec![255, 255], r.0);
}

#[test]
fn range_to_bounds_normalizes() {
    let (min, max) = range_to_bounds::<u8>(&Endpoint::Excluded(3), &Endpoint::Excluded(9));
    assert_eq!((4, 8), (min, max));

    let (min, max) = range_to_bounds::<u8>(&Endpoint::Unbounded, &Endpoint::Included(7));
    assert_eq!((0, 7), (min, max));

    let (min, max) = range_to_bounds::<i8>(&Endpoint::Unbounded, &Endpoint::Unbounded);
    assert_eq!((i8::MIN, i8::MAX), (min, max));

    // A span that admits nothing comes back reversed, and construction drops it.
    let (min, max) = range_to_bounds::<u8>(&Endpoint::Excluded(255), &Endpoint::Unbounded);
    assert!(max < min);
}

#[test]
fn new_from_ranges_empty_batch() {
    let ranges: [AnyRange<u8>; 0] = [];
    assert!(RangeSet::<u8>::new_from_ranges(&ranges).is_empty());
}

#[test]
fn any_range_new_keeps_the_pair() {
    let r = AnyRange::<u8>::new(10, 20);
    assert_eq!(&(10, 20), r.get_bounds());

    // A reversed pair denotes an empty contribution.
    let reversed = AnyRange::<u8>::new(20, 10);
    assert!(RangeSet::new_from_ranges(&[reversed]).is_empty());
}

#[test]
fn construction_coalesces_adjacent_ranges() {
    // An interval ending at 5 followed by one starting at 6 is a single
    // interval in canonical form, on both merge paths.
    assert_eq!(
        vec![3, 8],
        RangeSet::<u8>::new_from_ranges(&[AnyRange::from(3..=5), AnyRange::from(6..=8)]).0
    );
    assert_eq!(vec![3, 8], RangeSet::<u8>(vec![3, 5]).union(&RangeSet(vec![6, 8])).0);
}

#[test]
fn union_reaching_the_domain_end_is_total() {
    let u = RangeSet::<u8>(vec![0, 10]).union(&RangeSet(vec![5, 255]));
    assert!(u.is_total());
    assert_eq!(vec![0, 255], u.0);
}

#[test]
fn contains_at_interval_edges() {
    let range = RangeSet::<u8>(vec![19, 33, 53, 70]);
    assert!(range.contains(19));
    assert!(range.contains(33));
    assert!(range.contains(53));
    assert!(range.contains(70));
    assert!(range.contains(25));
    assert!(!range.contains(18));
    assert!(!range.contains(34));
    assert!(!range.contains(52));
    assert!(!range.contains(71));
    assert!(!range.contains(0));
    assert!(!range.contains(255));
}
