use rucene::index::term::Term;

#[test]
fn term_ctor_utf8() {
    let f = "title";
    let s = "search";
    let term = Term::new(f.into(), s.bytes().collect());
    assert_eq!(term.field(), f);
    assert_eq!(&term.text(), s);
    assert_eq!(&term.to_string(), "title:search");
}

#[test]
fn term_to_string() {
    let f = "title";
    let v = vec![0, 1, 2, 3, 254, 255];
    let term = Term::new(f.into(), v);
    assert_eq!(term.field(), f);
    assert_eq!(&term.text(), "[00, 01, 02, 03, FE, FF]");
    assert_eq!(&term.to_string(), "title:[00, 01, 02, 03, FE, FF]");
}

#[test]
fn term_cmp() {
    let term_1 = Term::from_str("title".into(), "hello");
    let term_2 = Term::from_str("title".into(), "world");
    let term_3 = Term::from_str("body".into(), "world");
    assert_eq!(term_1, term_1.clone());
    assert_eq!(term_2, term_2.clone());
    assert!(term_1 < term_2);
    assert!(term_1 != term_2);
    assert!(term_2 > term_1);
    assert!(term_3 < term_1);
    assert!(term_1 > term_3);
    assert!(term_1 != term_3);
}

#[test]
fn term_orders_by_field_before_bytes() {
    let a = Term::new("a".into(), vec![9, 9]);
    let b = Term::new("b".into(), vec![0]);
    assert!(a < b);
    let short = Term::new("a".into(), vec![1]);
    let long = Term::new("a".into(), vec![1, 0]);
    assert!(short < long);
}

#[test]
fn term_from_str_keeps_utf8_bytes() {
    let term = Term::from_str("title".into(), "né");
    assert_eq!(term.bytes(), &[b'n', 0xC3, 0xA9][..]);
    assert_eq!(term.text(), "né");
}

#[test]
fn term_text_of_single_invalid_byte() {
    let term = Term::new("f".into(), vec![0x80]);
    assert_eq!(term.text(), "[80]");
    let none = Term::new("f".into(), vec![]);
    assert_eq!(none.text(), "");
    assert_eq!(none.to_string(), "f:");
}

#[test]
fn term_is_empty_needs_both_parts_empty() {
    assert!(Term::new(String::new(), vec![]).is_empty());
    assert!(!Term::new("f".into(), vec![]).is_empty());
    assert!(!Term::new(String::new(), vec![1]).is_empty());
}

#[test]
fn term_copy_bytes_replaces_the_word() {
    let mut term = Term::from_str("title".into(), "hello");
    term.copy_bytes(b"hi");
    assert_eq!(term.bytes(), b"hi");
    assert_eq!(term.field(), "title");
    term.copy_bytes(b"a longer word");
    assert_eq!(term.text(), "a longer word");
}

#[test]
fn term_order_agrees_with_the_order_of_its_parts() {
    let parts: Vec<(&str, Vec<u8>)> = vec![
        ("", vec![]),
        ("", vec![0]),
        ("a", vec![]),
        ("a", vec![1, 2]),
        ("a", vec![1, 2, 0]),
        ("a", vec![1, 3]),
        ("ab", vec![0]),
        ("b", vec![]),
        ("é", vec![255]),
    ];
    for (i, x) in parts.iter().enumerate() {
        for (j, y) in parts.iter().enumerate() {
            let a = Term::new(x.0.to_string(), x.1.clone());
            let b = Term::new(y.0.to_string(), y.1.clone());
            assert_eq!(a.partial_cmp(&b), Some(i.cmp(&j)));
            assert_eq!(a.cmp(&b), i.cmp(&j));
            assert_eq!(a < b, i < j);
            assert_eq!(a == b, i == j);
        }
    }
}
