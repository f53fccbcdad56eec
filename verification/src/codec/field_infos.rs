//! Per-segment metadata of a field.

use vstd::prelude::*;

verus! {

/// What is recorded in the postings of a field.
#[derive(Clone, Copy, Debug, PartialEq, Eq, Hash)]
pub enum IndexOptions {
    /// The field is not indexed.
    Null,
    /// Doc ids only.
    Docs,
    /// Doc ids and term frequencies.
    DocsAndFreqs,
    /// Doc ids, term frequencies and positions.
    DocsAndFreqsAndPositions,
    /// Doc ids, term frequencies, positions and offsets.
    DocsAndFreqsAndPositionsAndOffsets,
}

/// The kind of per-document value that a field stores in columns.
#[derive(Clone, Copy, Debug, PartialEq, Eq, Hash)]
pub enum DocValuesType {
    /// No doc values.
    Null,
    /// One number per doc.
    Numeric,
    /// One byte string per doc.
    Binary,
    /// One byte string per doc, stored sorted and shared.
    Sorted,
    /// A sorted list of numbers per doc.
    SortedNumeric,
    /// A sorted set of byte strings per doc.
    SortedSet,
}

/// The metadata of one field in one segment. The number is given when the
/// field first occurs in the segment and stays the same within it.
#[derive(Debug)]
pub struct FieldInfo {
    /// Name of the field.
    pub name: String,
    /// Number of the field within its segment.
    pub number: u32,
    /// What the postings of the field record.
    pub index_options: IndexOptions,
    /// Whether a length norm is kept for each doc.
    pub has_norms: bool,
    /// The kind of doc values that the field stores.
    pub doc_values_type: DocValuesType,
    /// Number of dimensions of a point value; zero for none.
    pub point_dimension_count: u32,
    /// Number of bytes in each dimension of a point value.
    pub point_num_bytes: u32,
}

impl FieldInfo {
    /// The metadata of an indexed field called `name` with number `number`
    /// that records `index_options` and keeps norms unless it is not
    /// indexed; it has no doc values and no points.
    pub fn new(name: String, number: u32, index_options: IndexOptions) -> (info: FieldInfo)
        ensures
            info.name == name,
            info.number == number,
            info.index_options == index_options,
            info.has_norms == !(index_options is Null),
            info.doc_values_type is Null,
            info.point_dimension_count == 0,
            info.point_num_bytes == 0,
    {
        let has_norms = match index_options {
            IndexOptions::Null => false,
            _ => true,
        };
        FieldInfo {
            name,
            number,
            index_options,
            has_norms,
            doc_values_type: DocValuesType::Null,
            point_dimension_count: 0,
            point_num_bytes: 0,
        }
    }
}

impl Clone for FieldInfo {
    fn clone(&self) -> (copy: FieldInfo)
        ensures
            copy == *self,
    {
        FieldInfo {
            name: self.name.clone(),
            number: self.number,
            index_options: self.index_options,
            has_norms: self.has_norms,
            doc_values_type: self.doc_values_type,
            point_dimension_count: self.point_dimension_count,
            point_num_bytes: self.point_num_bytes,
        }
    }
}

} // verus!
