use rucene::error::Error;
use rucene::store::io_context::{FlushInfo, IOContext, MergeInfo};
use rucene::util::string_util::{decimal, hex_list};
use rucene::util::{fill_slice, long_to_int_exact, over_size, DerefWrapper, BM25_SIMILARITY_IDF};

#[test]
fn over_size_adds_an_eighth_but_at_least_three() {
    assert_eq!(over_size(0), 3);
    assert_eq!(over_size(1), 4);
    assert_eq!(over_size(23), 26);
    assert_eq!(over_size(24), 27);
    assert_eq!(over_size(31), 34);
    assert_eq!(over_size(32), 36);
    assert_eq!(over_size(1000), 1125);
}

#[test]
fn fill_slice_overwrites_every_element() {
    let mut a = [1u8, 2, 3, 4];
    fill_slice(&mut a, 9);
    assert_eq!(a, [9, 9, 9, 9]);
    let mut part = [1i64, 2, 3, 4];
    fill_slice(&mut part[1..3], 0);
    assert_eq!(part, [1, 0, 0, 4]);
    let mut none: [bool; 0] = [];
    fill_slice(&mut none, true);
}

#[test]
fn deref_wrapper_derefs_to_its_value() {
    let w = DerefWrapper(vec![1, 2, 3]);
    assert_eq!(w.len(), 3);
    assert_eq!(*w, vec![1, 2, 3]);
    assert_eq!(BM25_SIMILARITY_IDF, "idf");
}

#[test]
fn long_to_int_exact_checks_the_range() {
    assert_eq!(long_to_int_exact(0).unwrap(), 0);
    assert_eq!(long_to_int_exact(i32::MAX as i64).unwrap(), i32::MAX);
    assert_eq!(long_to_int_exact(i32::MIN as i64).unwrap(), i32::MIN);
    assert!(matches!(long_to_int_exact(i32::MAX as i64 + 1), Err(Error::IllegalArgument(_))));
    assert!(matches!(long_to_int_exact(i32::MIN as i64 - 1), Err(Error::IllegalArgument(_))));
}

#[test]
fn decimal_writes_every_long() {
    for v in [0i64, 7, 10, 99, 100, -1, -10, 1234567890123, i64::MAX, i64::MIN, i64::MIN + 1] {
        assert_eq!(decimal(v), format!("{}", v));
    }
}

#[test]
fn hex_list_writes_two_upper_case_digits() {
    assert_eq!(hex_list(&[]), "[]");
    assert_eq!(hex_list(&[0x0a]), "[0A]");
    assert_eq!(hex_list(&[0, 1, 0x9f, 0xff]), format!("{:02X?}", vec![0u8, 1, 0x9f, 0xff]));
}

#[test]
fn io_context_knows_a_merge() {
    let merge = IOContext::Merge(MergeInfo::new(10, 1 << 20, false, Some(1)));
    assert!(merge.is_merge());
    assert!(!IOContext::Flush(FlushInfo::new(3)).is_merge());
    assert!(!IOContext::read().is_merge());
    assert!(!IOContext::Default.is_merge());
    assert!(IOContext::read() == IOContext::Read(false));
    assert!(IOContext::read_once() == IOContext::Read(true));
    assert!(MergeInfo::new(1, 2, true, None) == MergeInfo::new(1, 2, true, None));
    assert!(MergeInfo::new(1, 2, true, None) != MergeInfo::new(1, 2, false, None));
    assert!(FlushInfo::new(3) != FlushInfo::new(4));
}

#[test]
fn bytes_less_is_the_order_of_a_dictionary() {
    use_bytes_less(b"", b"", false);
    use_bytes_less(b"", b"a", true);
    use_bytes_less(b"a", b"", false);
    use_bytes_less(b"ab", b"b", true);
    use_bytes_less(b"ab", b"abc", true);
    use_bytes_less(b"abd", b"abc", false);
    use_bytes_less(&[0x7f], &[0x80], true);
}

fn use_bytes_less(a: &[u8], b: &[u8], expected: bool) {
    assert_eq!(rucene::util::string_util::bytes_less(a, b), expected);
    assert_eq!(a < b, expected);
}
