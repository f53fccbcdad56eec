use rucene::codec::field_infos::{DocValuesType, FieldInfo, IndexOptions};
use rucene::codec::norms::norm_values_writer::{NormValuesWriter, NumericIter, MISSING};
use rucene::codec::SorterDocMap;
use rucene::error::Error;
use rucene::util::bit_set::FixedBitSet;
use rucene::util::packed::PackedLongValuesBuilder;

fn title() -> FieldInfo {
    FieldInfo::new("title".to_string(), 3, IndexOptions::DocsAndFreqs)
}

#[test]
fn field_info_new_and_clone() {
    let info = title();
    assert_eq!(info.name, "title");
    assert_eq!(info.number, 3);
    assert!(info.has_norms);
    assert_eq!(info.doc_values_type, DocValuesType::Null);
    let copy = info.clone();
    assert_eq!(copy.name, info.name);
    assert_eq!(copy.index_options, IndexOptions::DocsAndFreqs);
    assert!(!FieldInfo::new("id".to_string(), 0, IndexOptions::Null).has_norms);
}

#[test]
fn norms_flush_in_doc_order_fills_the_gaps() {
    let mut writer = NormValuesWriter::new(&title());
    writer.add_value(1, 11);
    writer.finish(1);
    writer.add_value(2, 12);
    writer.add_value(70, 80);
    writer.add_value(200, -3);
    let norms = writer.flush(203, None);
    let mut expected = vec![MISSING; 203];
    expected[1] = 11;
    expected[2] = 12;
    expected[70] = 80;
    expected[200] = -3;
    assert_eq!(norms, expected);
    // The writer starts over after a flush.
    writer.add_value(0, 5);
    assert_eq!(writer.flush(2, None), vec![5, 0]);
}

#[test]
fn norms_flush_stops_at_max_doc() {
    let mut writer = NormValuesWriter::new(&title());
    writer.add_value(0, 7);
    writer.add_value(5, 9);
    assert_eq!(writer.flush(3, None), vec![7, 0, 0]);
    let mut writer = NormValuesWriter::new(&title());
    assert_eq!(writer.flush(0, None), Vec::<i64>::new());
}

#[test]
fn norms_flush_follows_the_sort_map() {
    let mut writer = NormValuesWriter::new(&title());
    writer.add_value(0, 10);
    writer.add_value(2, 30);
    writer.add_value(3, 40);
    let map = SorterDocMap::new(vec![3, 0, 1, 2]).unwrap();
    assert_eq!(writer.flush(4, Some(&map)), vec![0, 30, 40, 10]);
}

#[test]
fn norms_survive_a_sort_as_a_multiset() {
    let docs = [(0, 4i64), (3, 9), (4, 9), (7, 1), (9, 250)];
    let map = SorterDocMap::new(vec![9, 8, 7, 6, 5, 4, 3, 2, 1, 0]).unwrap();
    let mut plain = NormValuesWriter::new(&title());
    let mut sorted = NormValuesWriter::new(&title());
    for (d, v) in docs {
        plain.add_value(d, v);
        sorted.add_value(d, v);
    }
    let a = plain.flush(10, None);
    let b = sorted.flush(10, Some(&map));
    for d in 0..10 {
        assert_eq!(b[map.old_to_new(d) as usize], a[d as usize]);
        assert_eq!(map.new_to_old(map.old_to_new(d)), d);
    }
    let mut a = a;
    let mut b = b;
    a.sort();
    b.sort();
    assert_eq!(a, b);
}

#[test]
fn sorter_doc_map_accepts_permutations_only() {
    assert!(SorterDocMap::new(vec![]).is_ok());
    assert!(SorterDocMap::new(vec![0]).is_ok());
    assert_eq!(SorterDocMap::new(vec![2, 0, 1]).unwrap().len(), 3);
    assert!(matches!(SorterDocMap::new(vec![0, 0]), Err(Error::IllegalArgument(_))));
    assert!(matches!(SorterDocMap::new(vec![1, 2]), Err(Error::IllegalArgument(_))));
    assert!(matches!(SorterDocMap::new(vec![0, -1]), Err(Error::IllegalArgument(_))));
}

#[test]
fn numeric_iter_yields_a_norm_for_every_doc() {
    let mut docs = FixedBitSet::new(8);
    let mut builder = PackedLongValuesBuilder::new(2);
    for (d, v) in [(1usize, 5i64), (2, 6), (6, 7)] {
        docs.set(d);
        builder.add(v);
    }
    let values = builder.build();
    let mut iter = NumericIter::new(values.iterator(), &docs, 10);
    let mut seen = vec![];
    while let Some(v) = iter.next() {
        seen.push(v);
    }
    assert_eq!(seen, vec![0, 5, 6, 0, 0, 0, 7, 0, 0, 0]);
    assert_eq!(iter.next(), None);
    iter.reset();
    assert_eq!(iter.next(), Some(0));
    assert_eq!(iter.next(), Some(5));
}

#[test]
fn norms_writer_keeps_its_field() {
    let field = FieldInfo::new("body".to_string(), 7, IndexOptions::Docs);
    let mut writer = NormValuesWriter::new(&title());
    assert_eq!(writer.field_info().name, title().name);
    assert_eq!(writer.field_info().number, title().number);
    writer.add_value(1, 5);
    assert_eq!(writer.flush(2, None), vec![MISSING, 5]);
    assert_eq!(writer.field_info().name, title().name);
    let other = NormValuesWriter::new(&field);
    assert_eq!(other.field_info().name, "body");
}

#[test]
fn docs_without_a_norm_are_missing_under_a_sort_map() {
    let mut writer = NormValuesWriter::new(&title());
    writer.add_value(4, -9);
    let map = SorterDocMap::new(vec![2, 4, 0, 1, 3]).unwrap();
    assert_eq!(writer.flush(5, Some(&map)), vec![MISSING, MISSING, MISSING, -9, MISSING]);
    let mut writer = NormValuesWriter::new(&title());
    let map = SorterDocMap::new(vec![1, 0]).unwrap();
    assert_eq!(writer.flush(2, Some(&map)), vec![MISSING, MISSING]);
}
