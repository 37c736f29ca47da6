use std::collections::HashSet;

use irange::RangeSet;
use irange::range::AnyRange;

#[test]
fn test_empty_and_total() -> Result<(), String> {
    let empty = RangeSet::<u8>::empty();
    assert!(empty.is_empty());
    assert!(!empty.is_total());
    let total = RangeSet::<u8>::total();
    assert!(!total.is_empty());
    assert!(total.is_total());

    let empty = RangeSet::<u16>::empty();
    assert!(empty.is_empty());
    assert!(!empty.is_total());
    let total = RangeSet::<u16>::total();
    assert!(!total.is_empty());
    assert!(total.is_total());

    let empty = RangeSet::<u32>::empty();
    assert!(empty.is_empty());
    assert!(!empty.is_total());
    let total = RangeSet::<u32>::total();
    assert!(!total.is_empty());
    assert!(total.is_total());

    let empty = RangeSet::<u64>::empty();
    assert!(empty.is_empty());
    assert!(!empty.is_total());
    let total = RangeSet::<u64>::total();
    assert!(!total.is_empty());
    assert!(total.is_total());

    let empty = RangeSet::<u128>::empty();
    assert!(empty.is_empty());
    assert!(!empty.is_total());
    let total = RangeSet::<u128>::total();
    assert!(!total.is_empty());
    assert!(total.is_total());

    let empty = RangeSet::<usize>::empty();
    assert!(empty.is_empty());
    assert!(!empty.is_total());
    let total = RangeSet::<usize>::total();
    assert!(!total.is_empty());
    assert!(total.is_total());

    let empty = RangeSet::<i8>::empty();
    assert!(empty.is_empty());
    assert!(!empty.is_total());
    let total = RangeSet::<i8>::total();
    assert!(!total.is_empty());
    assert!(total.is_total());

    let empty = RangeSet::<i16>::empty();
    assert!(empty.is_empty());
    assert!(!empty.is_total());
    let total = RangeSet::<i16>::total();
    assert!(!total.is_empty());
    assert!(total.is_total());

    let empty = RangeSet::<i32>::empty();
    assert!(empty.is_empty());
    assert!(!empty.is_total());
    let total = RangeSet::<i32>::total();
    assert!(!total.is_empty());
    assert!(total.is_total());

    let empty = RangeSet::<i64>::empty();
    assert!(empty.is_empty());
    assert!(!empty.is_total());
    let total = RangeSet::<i64>::total();
    assert!(!total.is_empty());
    assert!(total.is_total());

    let empty = RangeSet::<i128>::empty();
    assert!(empty.is_empty());
    assert!(!empty.is_total());
    let total = RangeSet::<i128>::total();
    assert!(!total.is_empty());
    assert!(total.is_total());

    let empty = RangeSet::<isize>::empty();
    assert!(empty.is_empty());
    assert!(!empty.is_total());
    let total = RangeSet::<isize>::total();
    assert!(!total.is_empty());
    assert!(total.is_total());

    Ok(())
}

#[test]
fn test_new_from_range() -> Result<(), String> {
    assert_eq!(RangeSet::<u8>(vec![3, 4]), RangeSet::<u8>::new_from_range(3..5));

    assert_eq!(RangeSet::<u8>(vec![3, 5]), RangeSet::<u8>::new_from_range(3..=5));

    assert_eq!(RangeSet::<u8>(vec![0, 5]), RangeSet::<u8>::new_from_range(..=5));

    assert_eq!(RangeSet::<u8>(vec![2, 255]), RangeSet::<u8>::new_from_range(2..));

    assert_eq!(RangeSet::<u8>(vec![0, 255]), RangeSet::<u8>::new_from_range(..));

    Ok(())
}

#[test]
fn test_new_from_ranges() -> Result<(), String> {
    assert_eq!(
        RangeSet(vec![3, 5, 9, 14]),
        RangeSet::new_from_ranges(&[AnyRange::from(3..=5), AnyRange::from(9..15)])
    );

    assert_eq!(
        RangeSet(vec![3, 5, 9, 14]),
        RangeSet::new_from_ranges(&[AnyRange::from(9..15), AnyRange::from(3..=5)])
    );

    assert_eq!(
        RangeSet(vec![3, 5, 9, 14]),
        RangeSet::new_from_ranges(&[
            AnyRange::from(9..15),
            AnyRange::from(23..18),
            AnyRange::from(3..=5),
            AnyRange::from(4..=4)
        ])
    );

    assert_eq!(
        RangeSet(vec![3, 5, 9, 14]),
        RangeSet::new_from_ranges(&[
            AnyRange::from(9..15),
            AnyRange::from(23..18),
            AnyRange::from(3..=5)
        ])
    );

    assert_eq!(
        RangeSet(vec![3, 255]),
        RangeSet::<u8>::new_from_ranges(&[AnyRange::from(4..), AnyRange::from(3..=5)])
    );

    assert_eq!(
        RangeSet(vec![0, 5]),
        RangeSet::<u8>::new_from_ranges(&[AnyRange::from(..=4), AnyRange::from(3..=5)])
    );

    assert_eq!(
        RangeSet::total(),
        RangeSet::new_from_ranges(&[AnyRange::from(..), AnyRange::from(3..=5)])
    );

    assert_eq!(
        RangeSet::empty(),
        RangeSet::new_from_ranges(&[AnyRange::from(3..1), AnyRange::from(10..=5)])
    );

    Ok(())
}

#[test]
fn test_contains_all() -> Result<(), String> {
    assert!(RangeSet::<u8>::empty().contains_all(&RangeSet::empty()));
    assert!(RangeSet::<u8>::total().contains_all(&RangeSet::empty()));
    assert!(!RangeSet::<u8>::empty().contains_all(&RangeSet::total()));

    assert!(!RangeSet(vec![2, 44]).contains_all(&RangeSet(vec![56, 60])));
    assert!(!RangeSet(vec![56, 60]).contains_all(&RangeSet(vec![2, 44])));
    assert!(RangeSet(vec![56, 60]).contains_all(&RangeSet(vec![56, 60])));
    assert!(RangeSet(vec![56, 61]).contains_all(&RangeSet(vec![56, 61])));
    assert!(RangeSet(vec![55, 61]).contains_all(&RangeSet(vec![56, 60])));

    assert!(RangeSet(vec![56, 60]).contains_all(&RangeSet(vec![57, 59])));
    assert!(RangeSet(vec![56, 60]).contains_all(&RangeSet(vec![57, 60])));
    assert!(RangeSet(vec![56, 60]).contains_all(&RangeSet(vec![56, 59])));

    assert!(RangeSet(vec![19, 33]).contains_all(&RangeSet(vec![20, 21, 30, 32])));
    assert!(RangeSet(vec![19, 33, 53, 70]).contains_all(&RangeSet(vec![20, 21, 30, 32, 66, 69])));
    assert!(!RangeSet(vec![19, 33, 53, 70]).contains_all(&RangeSet(vec![20, 21, 30, 32, 66, 71])));

    Ok(())
}

#[test]
fn test_iter_and_contains() -> Result<(), String> {
    let empty = RangeSet::<u8>::empty();
    let mut count: usize = 0;
    let mut it = empty.iter();
    while let Some(_) = it.next() {
        count += 1;
    }
    assert_eq!(0, count);
    assert!(!empty.contains(0));

    let total = RangeSet::<u8>::total();
    let mut seen: HashSet<u8> = HashSet::new();
    let mut it = total.iter();
    while let Some(value) = it.next() {
        assert!(total.contains(value));
        seen.insert(value);
    }
    assert_eq!(256, seen.len());

    let range = RangeSet(vec![19, 33, 53, 70]);
    let mut seen: HashSet<u8> = HashSet::new();
    let mut it = range.iter();
    while let Some(value) = it.next() {
        assert!(range.contains(value));
        seen.insert(value);
    }
    assert_eq!(33, seen.len()); // (33 - 19 + 1) + (70 - 53 + 1) = 33
    assert!(!range.contains(34));

    Ok(())
}

#[test]
fn test_union() -> Result<(), String> {
    assert!(RangeSet::<u8>::empty().union(&RangeSet::empty()).is_empty());
    assert!(RangeSet::<u8>::total().union(&RangeSet::empty()).is_total());
    assert!(RangeSet::<u8>::empty().union(&RangeSet::total()).is_total());

    assert_eq!(vec![2, 44, 56, 60], RangeSet(vec![2, 44]).union(&RangeSet(vec![56, 60])).0);

    assert_eq!(vec![0, 44], RangeSet(vec![2, 44]).union(&RangeSet(vec![0, 3])).0);

    assert_eq!(vec![2, 48], RangeSet(vec![2, 44]).union(&RangeSet(vec![5, 48])).0);

    assert_eq!(vec![2, 44], RangeSet(vec![2, 44]).union(&RangeSet(vec![2, 44])).0);

    assert_eq!(vec![2, 44], RangeSet(vec![2, 44]).union(&RangeSet(vec![5, 20])).0);

    assert_eq!(vec![2, 50], RangeSet(vec![2, 44]).union(&RangeSet(vec![45, 50])).0);

    assert_eq!(vec![2, 44], RangeSet(vec![2, 44]).union(&RangeSet(vec![5, 20, 23, 40, 42, 43])).0);

    assert_eq!(vec![1, 44], RangeSet(vec![2, 44]).union(&RangeSet(vec![1, 2, 4, 5])).0);

    assert_eq!(vec![0, 9, 11, 97], RangeSet(vec![0, 9, 11, 96]).union(&RangeSet(vec![97, 97])).0);

    let range1 = RangeSet::new_from_ranges(&[
        AnyRange::from(..=12),
        AnyRange::from(15..=15),
        AnyRange::from(18..),
    ]);
    let range2 = RangeSet::new_from_ranges(&[AnyRange::from(..=12), AnyRange::from(15..)]);

    let range3 = RangeSet::new_from_ranges(&[AnyRange::from(..=12), AnyRange::from(15..)]);
    assert_eq!(range3, range1.union(&range2));

    Ok(())
}

#[test]
fn test_intersection() -> Result<(), String> {
    assert!(RangeSet::<u32>::empty().intersection(&RangeSet::empty()).is_empty());
    assert!(RangeSet::<u32>::total().intersection(&RangeSet::empty()).is_empty());
    assert!(RangeSet::<u32>::empty().intersection(&RangeSet::total()).is_empty());
    assert!(RangeSet::<u32>::total().intersection(&RangeSet::total()).is_total());

    assert_eq!(RangeSet::empty(), RangeSet(vec![2, 44]).intersection(&RangeSet(vec![56, 60])));

    assert_eq!(vec![2, 3], RangeSet(vec![2, 44]).intersection(&RangeSet(vec![0, 3])).0);

    assert_eq!(vec![5, 44], RangeSet(vec![2, 44]).intersection(&RangeSet(vec![5, 48])).0);

    assert_eq!(vec![2, 44], RangeSet(vec![2, 44]).intersection(&RangeSet(vec![2, 44])).0);

    assert_eq!(vec![5, 20], RangeSet(vec![2, 44]).intersection(&RangeSet(vec![5, 20])).0);
    assert_eq!(
        vec![5, 20, 23, 40],
        RangeSet(vec![2, 44]).intersection(&RangeSet(vec![5, 20, 23, 40])).0
    );

    assert_eq!(
        vec![5, 20, 23, 40],
        RangeSet(vec![5, 20, 23, 40]).intersection(&RangeSet(vec![2, 44])).0
    );

    assert!(RangeSet(vec![99, 99])
        .intersection(&RangeSet(vec![i32::MIN, 98, 100, i32::MAX]))
        .is_empty());
    Ok(())
}

#[test]
fn test_complement() -> Result<(), String> {
    assert!(RangeSet::<u32>::total().complement().is_empty());
    assert!(RangeSet::<u32>::empty().complement().is_total());

    assert_eq!(vec![0, 1, 45, u32::MAX], RangeSet(vec![2, 44]).complement().0);

    assert_eq!(vec![45, i64::MAX], RangeSet(vec![i64::MIN, 44]).complement().0);

    assert_eq!(vec![45, 238], RangeSet(vec![0, 44, 239, u32::MAX]).complement().0);

    Ok(())
}

#[test]
fn readme() -> Result<(), String> {
    let range1 = RangeSet::<i64>::new_from_ranges(&[AnyRange::from(3..=4), AnyRange::from(7..9)]);

    let range2 = RangeSet::<i64>::new_from_range(-2..=4);

    let union = range1.union(&range2);
    println!("{:?}", union.0); // [-2, 4, 7, 8]
    let mut it = union.iter();
    while let Some(value) = it.next() {
        println!("{value}"); // -2 -1 0 1 2 3 4 7 8
    }

    let intersection = range1.intersection(&range2);
    println!("{:?}", intersection.0); // [3, 4]
    let mut it = intersection.iter();
    while let Some(value) = it.next() {
        println!("{value}"); // 3 4
    }

    let difference = range1.difference(&range2);
    println!("{:?}", difference.0); // [7, 8]
    let mut it = difference.iter();
    while let Some(value) = it.next() {
        println!("{value}"); // 7 8
    }

    Ok(())
}
