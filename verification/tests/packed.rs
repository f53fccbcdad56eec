use rucene::error::Error;
use rucene::util::packed::{DeltaPage, PackedLongValuesBuilder, DEFAULT_PAGE_SIZE};
use rucene::util::{CloneableLongValues, LongValues};

fn round_trip(values: &[i64], page_size: usize) {
    let mut builder = PackedLongValuesBuilder::new(page_size);
    for v in values {
        builder.add(*v);
    }
    assert_eq!(builder.size(), values.len());
    let packed = builder.build();
    assert_eq!(builder.size(), 0);
    assert_eq!(packed.size(), values.len());
    let mut iter = packed.iterator();
    for (i, v) in values.iter().enumerate() {
        assert_eq!(packed.get(i), *v);
        assert_eq!(packed.get64(i as i64).unwrap(), *v);
        assert_eq!(iter.next(), Some(*v));
    }
    assert_eq!(iter.next(), None);
    iter.reset();
    assert_eq!(iter.next(), values.first().copied());
    assert!(matches!(packed.get64(values.len() as i64), Err(Error::IllegalArgument(_))));
    assert!(matches!(packed.get64(-1), Err(Error::IllegalArgument(_))));
}

#[test]
fn packed_round_trip_of_non_negative_longs() {
    let values: Vec<i64> = (0..3000).map(|i| (i * i * 7919) % 100_003).collect();
    round_trip(&values, DEFAULT_PAGE_SIZE);
    round_trip(&values, 7);
    round_trip(&values, 1);
    round_trip(&[], 16);
    round_trip(&[i64::MAX, 0, 1, i64::MAX - 1], 4);
}

#[test]
fn packed_round_trip_of_the_whole_range() {
    round_trip(&[i64::MIN, i64::MAX, -1, 0, 1, i64::MIN + 1], 4);
    round_trip(&[-5, -5, -5, -5, -5], 2);
}

#[test]
fn packed_round_trip_at_every_width() {
    for bits in 0..63u32 {
        let top = 1i64 << bits;
        let values: Vec<i64> = (0..200).map(|i| 1000 + (i * 0x9E37_79B9i64) % top).collect();
        round_trip(&values, 64);
    }
}

#[test]
fn delta_page_uses_the_least_width() {
    let page = DeltaPage::pack(&vec![100, 107, 103]);
    assert_eq!(page.len(), 3);
    assert_eq!(page.get(0), 100);
    assert_eq!(page.get(1), 107);
    assert_eq!(page.get(2), 103);
    let flat = DeltaPage::pack(&vec![42; 9]);
    assert_eq!(flat.get(8), 42);
}

#[test]
fn packed_values_clone_holds_the_same_values() {
    let mut builder = PackedLongValuesBuilder::new(3);
    for v in [5i64, 9, -2, 7, 7, 8, 1] {
        builder.add(v);
    }
    let packed = builder.build();
    let copy = packed.cloned();
    let read_only = packed.cloned_lv();
    for i in 0..7 {
        assert_eq!(copy.get(i), packed.get(i));
        assert_eq!(read_only.get64(i as i64).unwrap(), packed.get(i));
    }
    let mut copy = copy;
    assert_eq!(copy.get64_mut(2).unwrap(), -2);
}

#[test]
fn packed_pack_and_read_back() {
    use_values(&[]);
    use_values(&[7]);
    use_values(&[3, 1, 4, 1, 5, 9, 2, 6, 5, 3, 5, 8, 9, 7, 9]);
}

fn use_values(values: &[i64]) {
    for page_size in [1usize, 2, 5, 1024] {
        let packed = rucene::util::packed::PackedLongValues::pack(values, page_size);
        assert_eq!(packed.to_vec(), values);
        let mut builder = PackedLongValuesBuilder::new(page_size);
        builder.add(-1);
        builder.add_all(values);
        assert_eq!(builder.size(), values.len() + 1);
        assert_eq!(&builder.build().to_vec()[1..], values);
    }
}
