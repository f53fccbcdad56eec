use std::sync::Arc;

use rucene::error::Error;
use rucene::util::bit_set::{bits2words, FixedBitSet};
use rucene::util::bits::{
    Bits, BitsMut, FixedBits, LiveBits, MatchAllBits, MatchNoBits, SparseBits,
};
use rucene::util::packed::{PackedLongValues, PackedLongValuesBuilder};

#[test]
fn fixed_bits() {
    let fixed_bits = FixedBits::new(Arc::new(vec![1, 2, 0xDeadBeef]), 191);
    assert_eq!(fixed_bits.len(), 191);
    assert_eq!(fixed_bits.get(0), true);
    assert_eq!(fixed_bits.get(1), false);
    assert_eq!(fixed_bits.get(64), false);
    assert_eq!(fixed_bits.get(65), true);
    assert_eq!(fixed_bits.get(66), false);
    assert_eq!(fixed_bits.get(190), false);
}

#[test]
fn fixed_bits_cardinality_counts_every_word() {
    let fixed_bits = FixedBits::new(Arc::new(vec![1, 2, 0xDeadBeef, -1]), 10);
    assert_eq!(fixed_bits.cardinality(), 1 + 1 + 24 + 64);
    let none = FixedBits::new(Arc::new(vec![]), 0);
    assert_eq!(none.cardinality(), 0);
    assert!(none.is_empty());
    assert!(!fixed_bits.is_empty());
}

#[test]
fn fixed_bits_reads_the_sign_bit() {
    let fixed_bits = FixedBits::new(Arc::new(vec![i64::MIN]), 64);
    assert!(fixed_bits.get(63));
    assert!(!fixed_bits.get(62));
}

#[test]
fn match_all_and_match_no_bits() {
    let all = MatchAllBits::new(7);
    assert_eq!(Bits::len(&all), 7);
    assert!(Bits::get(&all, 3));
    assert!(Bits::is_empty(&all));
    let none = MatchNoBits::new(7);
    assert_eq!(Bits::len(&none), 7);
    assert!(!Bits::get(&none, 3));
    assert!(Bits::is_empty(&none));
    let mut all = all;
    assert!(BitsMut::get(&mut all, 0));
    let mut none = none;
    assert!(!BitsMut::get(&mut none, 0));
}

#[test]
fn live_bits_reads_bits_from_the_offset() {
    let data = [0xFFu8, 0b0000_0101, 0b1000_0000, 0x00];
    let live = LiveBits::new(&data, 1, 16).unwrap();
    assert_eq!(Bits::len(&live), 16);
    assert!(!Bits::is_empty(&live));
    assert!(Bits::is_empty(&LiveBits::new(&data, 4, 0).unwrap()));
    assert!(Bits::get(&live, 0));
    assert!(!Bits::get(&live, 1));
    assert!(Bits::get(&live, 2));
    assert!(!Bits::get(&live, 8));
    assert!(Bits::get(&live, 15));
}

#[test]
fn live_bits_rounds_up_to_whole_bytes() {
    let data = [0x01u8, 0x02];
    assert!(LiveBits::new(&data, 0, 9).is_ok());
    assert!(LiveBits::new(&data, 0, 16).is_ok());
    assert!(matches!(LiveBits::new(&data, 0, 17), Err(Error::IllegalArgument(_))));
    assert!(matches!(LiveBits::new(&data, 2, 1), Err(Error::IllegalArgument(_))));
    assert!(matches!(LiveBits::new(&data, -1, 1), Err(Error::IllegalArgument(_))));
    assert!(LiveBits::new(&data, 2, 0).is_ok());
}

#[test]
fn fixed_bit_set_set_clear_get() {
    let mut set = FixedBitSet::new(130);
    assert_eq!(set.len(), 130);
    assert!(!set.get(129));
    set.set(0);
    set.set(63);
    set.set(64);
    set.set(129);
    assert!(set.get(0) && set.get(63) && set.get(64) && set.get(129));
    assert!(!set.get(1) && !set.get(65) && !set.get(128));
    set.clear(63);
    assert!(!set.get(63));
    assert!(set.get(64));
}

#[test]
fn fixed_bit_set_ensure_capacity_grows_by_words() {
    let mut set = FixedBitSet::new(64);
    set.set(5);
    set.ensure_capacity(63);
    assert_eq!(set.len(), 64);
    set.ensure_capacity(64);
    assert_eq!(set.len(), 128);
    assert!(set.get(5));
    assert!(!set.get(64) && !set.get(127));
    set.ensure_capacity(1000);
    assert_eq!(set.len(), 1024);
    assert!(set.get(5));
    let mut odd = FixedBitSet::new(10);
    odd.set(9);
    odd.ensure_capacity(10);
    assert_eq!(odd.len(), 64);
    assert!(odd.get(9));
    assert!(!odd.get(10) && !odd.get(63));
}

#[test]
fn bits2words_rounds_up() {
    assert_eq!(bits2words(0), 0);
    assert_eq!(bits2words(1), 1);
    assert_eq!(bits2words(64), 1);
    assert_eq!(bits2words(65), 2);
}

fn packed(values: &[i64]) -> PackedLongValues {
    let mut builder = PackedLongValuesBuilder::new(4);
    for v in values {
        builder.add(*v);
    }
    builder.build()
}

#[test]
fn sparse_bits_finds_exactly_the_listed_docs() {
    let ids = [3i64, 4, 10, 11, 12, 40, 90, 91, 99];
    let bits = SparseBits::new(100, ids.len() as i64, packed(&ids)).unwrap();
    let mut ctx = bits.context();
    for doc in 0..100i64 {
        assert_eq!(bits.get64(&mut ctx, doc).unwrap(), ids.contains(&doc), "doc {}", doc);
    }
    // Reading backwards starts over from the beginning.
    assert!(bits.get64(&mut ctx, 3).unwrap());
    assert!(!bits.get64(&mut ctx, 2).unwrap());
    assert!(bits.get64(&mut ctx, 99).unwrap());
    assert_eq!(SparseBits::len(&bits), 100);
    assert!(Bits::get(&bits, 40));
    assert!(!Bits::get(&bits, 41));
    let mut bits = bits;
    assert!(BitsMut::get(&mut bits, 90));
    assert!(!BitsMut::get(&mut bits, 5));
}

#[test]
fn sparse_bits_without_docs_matches_nothing() {
    let bits = SparseBits::new(5, 0, packed(&[])).unwrap();
    let mut ctx = bits.context();
    for doc in 0..5 {
        assert!(!bits.get64(&mut ctx, doc).unwrap());
    }
}

#[test]
fn sparse_bits_rejects_a_last_doc_at_max_doc() {
    let r = SparseBits::new(12, 3, packed(&[1, 5, 12]));
    match r {
        Err(Error::IllegalArgument(m)) => {
            assert_eq!(m, "max_doc must be > the last element of doc_ids")
        }
        _ => panic!("expected IllegalArgument"),
    }
    assert!(SparseBits::new(13, 3, packed(&[1, 5, 12])).is_ok());
}

#[test]
fn sparse_bits_reports_a_doc_outside_the_set() {
    let bits = SparseBits::new(20, 3, packed(&[1, 5, 12])).unwrap();
    let mut ctx = bits.context();
    match bits.get64(&mut ctx, 20) {
        Err(Error::IllegalState(m)) => assert_eq!(m, "internal error a 20 5 20"),
        _ => panic!("expected IllegalState"),
    }
    let mut ctx = bits.context();
    match bits.get64(&mut ctx, -2) {
        Err(Error::IllegalState(m)) => assert_eq!(m, "internal error a -2 -1 1"),
        _ => panic!("expected IllegalState"),
    }
    let mut ctx = bits.context();
    assert!(bits.get64(&mut ctx, -1).unwrap());
}

#[test]
fn sparse_bits_check_invariants_names_the_mismatch() {
    let bits = SparseBits::new(20, 3, packed(&[1, 5, 12])).unwrap();
    let mut ctx = bits.context();
    assert!(bits.get64(&mut ctx, 6).unwrap() == false);
    assert!(bits.check_invariants(&ctx, 2, 6).is_ok());
    match bits.check_invariants(&ctx, 1, 6) {
        Err(Error::IllegalState(m)) => assert_eq!(m, "internal error c 1 3 12 20 5"),
        _ => panic!("expected IllegalState"),
    }
    ctx.index = 0;
    match bits.check_invariants(&ctx, 2, 6) {
        Err(Error::IllegalState(m)) => assert_eq!(m, "internal error b 0 5 1"),
        _ => panic!("expected IllegalState"),
    }
}
