use irange::RangeSet;
use irange::integer::NumericInteger;
use irange::range::AnyRange;

/// The structured form of a set is its flat bound sequence, serialized as an
/// ordered list of the underlying integer type; the round trip must rebuild
/// the exact bound sequence.
fn serde_round_trip<T>(range: RangeSet<T>)
where
    T: NumericInteger + serde::Serialize + serde::de::DeserializeOwned + PartialEq + std::fmt::Debug,
{
    let serialized = serde_json::to_string(&range.0).unwrap();
    let bounds: Vec<T> = serde_json::from_str(&serialized).unwrap();
    let unserialized = RangeSet(bounds);
    assert_eq!(range, unserialized);
}

#[test]
fn serde_test() {
    serde_round_trip(RangeSet::<u8>::empty());
    serde_round_trip(RangeSet::<u8>::total());
    serde_round_trip(RangeSet::<u8>::new_from_ranges(&[AnyRange::from(3..=4), AnyRange::from(7..9)]));

    serde_round_trip(RangeSet::<u16>::empty());
    serde_round_trip(RangeSet::<u16>::total());
    serde_round_trip(RangeSet::<u16>::new_from_ranges(&[AnyRange::from(3..=4), AnyRange::from(7..9)]));

    serde_round_trip(RangeSet::<u32>::empty());
    serde_round_trip(RangeSet::<u32>::total());
    serde_round_trip(RangeSet::<u32>::new_from_ranges(&[AnyRange::from(3..=4), AnyRange::from(7..9)]));

    serde_round_trip(RangeSet::<u64>::empty());
    serde_round_trip(RangeSet::<u64>::total());
    serde_round_trip(RangeSet::<u64>::new_from_ranges(&[AnyRange::from(3..=4), AnyRange::from(7..9)]));

    serde_round_trip(RangeSet::<u128>::empty());
    serde_round_trip(RangeSet::<u128>::total());
    serde_round_trip(RangeSet::<u128>::new_from_ranges(&[AnyRange::from(3..=4), AnyRange::from(7..9)]));

    serde_round_trip(RangeSet::<usize>::empty());
    serde_round_trip(RangeSet::<usize>::total());
    serde_round_trip(RangeSet::<usize>::new_from_ranges(&[AnyRange::from(3..=4), AnyRange::from(7..9)]));

    serde_round_trip(RangeSet::<i8>::empty());
    serde_round_trip(RangeSet::<i8>::total());
    serde_round_trip(RangeSet::<i8>::new_from_ranges(&[AnyRange::from(3..=4), AnyRange::from(7..9)]));

    serde_round_trip(RangeSet::<i16>::empty());
    serde_round_trip(RangeSet::<i16>::total());
    serde_round_trip(RangeSet::<i16>::new_from_ranges(&[AnyRange::from(3..=4), AnyRange::from(7..9)]));

    serde_round_trip(RangeSet::<i32>::empty());
    serde_round_trip(RangeSet::<i32>::total());
    serde_round_trip(RangeSet::<i32>::new_from_ranges(&[AnyRange::from(3..=4), AnyRange::from(7..9)]));

    serde_round_trip(RangeSet::<i64>::empty());
    serde_round_trip(RangeSet::<i64>::total());
    serde_round_trip(RangeSet::<i64>::new_from_ranges(&[AnyRange::from(3..=4), AnyRange::from(7..9)]));

    serde_round_trip(RangeSet::<i128>::empty());
    serde_round_trip(RangeSet::<i128>::total());
    serde_round_trip(RangeSet::<i128>::new_from_ranges(&[AnyRange::from(3..=4), AnyRange::from(7..9)]));

    serde_round_trip(RangeSet::<isize>::empty());
    serde_round_trip(RangeSet::<isize>::total());
    serde_round_trip(RangeSet::<isize>::new_from_ranges(&[AnyRange::from(3..=4), AnyRange::from(7..9)]));
}
