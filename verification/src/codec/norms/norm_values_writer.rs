//! Buffers the norms of one field until the segment is flushed.

use vstd::prelude::*;

use crate::codec::field_infos::FieldInfo;
use crate::codec::SorterDocMap;
use crate::util::bit_set::{
    count_set, lemma_count_set_bound, lemma_count_set_update, lemma_rank_agrees,
    lemma_rank_clear_tail, lemma_rank_step, rank, FixedBitSet,
};
use crate::util::packed::{LongValuesIterator, PackedLongValuesBuilder, DEFAULT_PAGE_SIZE};
use crate::util::DocId;

verus! {

/// The norm of a doc for which none was recorded.
pub const MISSING: i64 = 0;

/// The norm that belongs to `doc`, given which docs have one and the norms
/// of those docs in ascending order of doc: the value at the doc's rank,
/// and `MISSING` for a doc without one.
pub open spec fn norm_at(docs_with_field: Seq<bool>, values: Seq<i64>, doc: int) -> i64 {
    if 0 <= doc < docs_with_field.len() && docs_with_field[doc] {
        values[rank(docs_with_field, doc) as int]
    } else {
        MISSING
    }
}

/// Collects the norm of each doc of one field while a segment is built.
pub struct NormValuesWriter {
    pending: PackedLongValuesBuilder,
    docs_with_field: FixedBitSet,
    field_info: FieldInfo,
    last_doc: DocId,
}

impl NormValuesWriter {
    /// The field whose norms are collected.
    pub closed spec fn field(&self) -> FieldInfo {
        self.field_info
    }

    /// The field whose norms are collected.
    pub fn field_info(&self) -> (info: &FieldInfo)
        ensures
            *info == self.field(),
    {
        &self.field_info
    }

    /// A doc for which no norm was recorded has the norm `MISSING`.
    pub proof fn lemma_norm_of_missing(&self, doc: int)
        ensures
            !self.has_norm(doc) ==> self.norm(doc) == MISSING,
    {
    }

    /// The last doc for which a norm was added; `-1` when there is none.
    pub closed spec fn last_doc(&self) -> int {
        self.last_doc as int
    }

    /// The norm recorded for `doc`, and `MISSING` where none was.
    pub closed spec fn norm(&self, doc: int) -> i64 {
        norm_at(self.docs_with_field@, self.pending@, doc)
    }

    /// The norms of the docs `0..max_doc`, in doc order.
    pub open spec fn norms(&self, max_doc: int) -> Seq<i64> {
        Seq::new(max_doc as nat, |d: int| self.norm(d))
    }

    /// Whether a norm was recorded for `doc`.
    pub closed spec fn has_norm(&self, doc: int) -> bool {
        0 <= doc < self.docs_with_field@.len() && self.docs_with_field@[doc]
    }

    /// There is one value for each doc that is marked, and no doc beyond the
    /// last is marked.
    pub closed spec fn wf(&self) -> bool {
        &&& self.pending.wf()
        &&& self.docs_with_field.wf()
        &&& -1 <= self.last_doc
        &&& count_set(self.docs_with_field@) == self.pending@.len()
        &&& forall|d: int|
            self.last_doc < d < self.docs_with_field@.len() ==> !self.docs_with_field@[d]
    }

    /// A writer for the norms of `field_info`, without any norm yet.
    pub fn new(field_info: &FieldInfo) -> (writer: NormValuesWriter)
        ensures
            writer.wf(),
            writer.field() == *field_info,
            writer.last_doc() == -1,
            forall|d: int| !writer.has_norm(d),
            forall|d: int| writer.norm(d) == MISSING,
    {
        let writer = NormValuesWriter {
            pending: PackedLongValuesBuilder::new(DEFAULT_PAGE_SIZE),
            docs_with_field: FixedBitSet::new(64),
            field_info: field_info.clone(),
            last_doc: -1,
        };
        proof {
            lemma_count_set_bound(writer.docs_with_field@);
        }
        writer
    }

    /// Records `value` as the norm of `doc_id`, which must lie beyond every
    /// doc that has one already.
    pub fn add_value(&mut self, doc_id: DocId, value: i64)
        requires
            old(self).wf(),
            old(self).last_doc() < doc_id,
        ensures
            final(self).wf(),
            final(self).last_doc() == doc_id,
            final(self).field() == old(self).field(),
            final(self).has_norm(doc_id as int),
            final(self).norm(doc_id as int) == value,
            forall|d: int| d != doc_id ==> final(self).has_norm(d) == old(self).has_norm(d),
            forall|d: int| d != doc_id ==> final(self).norm(d) == old(self).norm(d),
    {
        let ghost docs = self.docs_with_field@;
        let ghost values = self.pending@;
        proof {
            // All the marks lie at or before the last doc, so there are
            // fewer of them than the doc that is added.
            let k = if self.last_doc + 1 <= docs.len() {
                self.last_doc + 1
            } else {
                docs.len() as int
            };
            lemma_rank_clear_tail(docs, k);
            lemma_count_set_bound(docs.take(k));
            assert(docs.take(docs.len() as int) =~= docs);
            assert(docs.take(0) =~= Seq::<bool>::empty());
        }
        self.docs_with_field.ensure_capacity(doc_id as usize);
        let ghost grown = self.docs_with_field@;
        self.docs_with_field.set(doc_id as usize);
        self.pending.add(value);
        self.last_doc = doc_id;
        proof {
            let marked = self.docs_with_field@;
            let split = if doc_id <= docs.len() {
                doc_id as int
            } else {
                docs.len() as int
            };
            // Before the new doc nothing has changed.
            lemma_rank_clear_tail(docs, split);
            lemma_rank_agrees(docs, grown, split);
            lemma_rank_clear_tail(grown.take(doc_id as int), split);
            assert(grown.take(doc_id as int).take(split) =~= grown.take(split));
            assert(grown.take(grown.len() as int) =~= grown);
            assert(docs.take(docs.len() as int) =~= docs);
            assert(grown.take(0) =~= Seq::<bool>::empty());
            assert(docs.take(0) =~= Seq::<bool>::empty());
            assert(rank(grown, doc_id as int) == count_set(docs));
            lemma_rank_agrees(grown, marked, doc_id as int);
            lemma_rank_clear_tail(grown, split);
            lemma_count_set_update(grown, doc_id as int);
            assert forall|d: int| d != doc_id implies self.norm(d) == old(self).norm(d) by {
                if 0 <= d < docs.len() && docs[d] {
                    lemma_rank_agrees(docs, marked, d);
                    lemma_rank_step(docs, d);
                }
            }
        }
    }

    /// Called when the doc is complete; norms need nothing done.
    pub fn finish(&mut self, _num_doc: i32)
        ensures
            *final(self) == *old(self),
    {
    }

    /// Hands out the norm of every doc of the segment, `MISSING` where none
    /// was recorded: in doc order, or, with `sort_map`, each at the place
    /// to which the map sends its doc. The writer is left as new.
    pub fn flush(&mut self, max_doc: DocId, sort_map: Option<&SorterDocMap>) -> (norms: Vec<i64>)
        requires
            old(self).wf(),
            max_doc >= 0,
            sort_map matches Some(map) ==> map.wf() && map@.len() == max_doc,
        ensures
            norms@.len() == max_doc,
            forall|d: int|
                0 <= d < max_doc ==> norms@[match sort_map {
                    Some(map) => map@[d] as int,
                    None => d,
                }] == old(self).norm(d),
            sort_map is None ==> norms@ == old(self).norms(max_doc as int),
            forall|e: int|
                0 <= e < max_doc ==> #[trigger] norms@[e] == old(self).norm(
                    match sort_map {
                        Some(map) => map.inverse()[e] as int,
                        None => e,
                    },
                ),
            norms@.to_multiset() == old(self).norms(max_doc as int).to_multiset(),
            final(self).wf(),
            final(self).field() == old(self).field(),
            final(self).last_doc() == -1,
            forall|d: int| !final(self).has_norm(d),
            forall|d: int| final(self).norm(d) == MISSING,
    {
        let values = self.pending.build();
        let norms = match sort_map {
            Some(sort_map) => sort_doc_values(
                max_doc,
                sort_map,
                &self.docs_with_field,
                values.iterator(),
            ),
            None => {
                let mut iter = NumericIter::new(
                    values.iterator(),
                    &self.docs_with_field,
                    max_doc as usize,
                );
                let mut norms: Vec<i64> = Vec::new();
                loop
                    invariant
                        iter.wf(),
                        iter.max_doc() == max_doc,
                        iter.docs_with_field() == self.docs_with_field@,
                        iter.values() == values@,
                        norms@.len() == iter.upto(),
                        forall|d: int|
                            0 <= d < norms@.len() ==> norms@[d] == norm_at(
                                self.docs_with_field@,
                                values@,
                                d,
                            ),
                    ensures
                        norms@.len() == max_doc,
                    decreases max_doc - iter.upto(),
                {
                    match iter.next() {
                        Some(v) => {
                            norms.push(v);
                        },
                        None => {
                            break ;
                        },
                    }
                }
                norms
            },
        };
        proof {
            let plain = old(self).norms(max_doc as int);
            match sort_map {
                Some(map) => {
                    map.lemma_wf();
                    assert forall|e: int| 0 <= e < max_doc implies #[trigger] norms@[e] == old(
                        self).norm(map.inverse()[e] as int) by {
                        let d = map.inverse()[e] as int;
                        assert(map@[d] == e);
                    }
                    crate::codec::lemma_rearranged_same_multiset(map@, plain, norms@);
                },
                None => {
                    assert(norms@ =~= plain);
                },
            }
        }
        self.docs_with_field = FixedBitSet::new(64);
        self.last_doc = -1;
        proof {
            lemma_count_set_bound(self.docs_with_field@);
        }
        norms
    }
}

/// The norms of the docs `0..max_doc` at the places to which `sort_map`
/// sends them: the norm of old doc `d` stands at `sort_map@[d]`.
fn sort_doc_values(
    max_doc: DocId,
    sort_map: &SorterDocMap,
    docs_with_field: &FixedBitSet,
    values: LongValuesIterator<'_>,
) -> (sorted: Vec<i64>)
    requires
        max_doc >= 0,
        sort_map.wf(),
        sort_map@.len() == max_doc,
        docs_with_field.wf(),
        values.wf(),
        values.position() == 0,
        count_set(docs_with_field@) == values.values().len(),
    ensures
        sorted@.len() == max_doc,
        forall|d: int|
            0 <= d < max_doc ==> sorted@[sort_map@[d] as int] == norm_at(
                docs_with_field@,
                values.values(),
                d,
            ),
{
    let mut values = values;
    let ghost all = values.values();
    let mut sorted: Vec<i64> = Vec::new();
    let mut n: DocId = 0;
    while n < max_doc
        invariant
            0 <= n <= max_doc,
            sorted@.len() == n,
            forall|k: int| 0 <= k < n ==> sorted@[k] == MISSING,
        decreases max_doc - n,
    {
        sorted.push(MISSING);
        n += 1;
    }
    proof {
        sort_map.lemma_wf();
        assert(docs_with_field@.take(0) =~= Seq::<bool>::empty());
    }
    let mut doc: DocId = 0;
    while doc < max_doc
        invariant
            0 <= doc <= max_doc,
            sort_map.wf(),
            sort_map@.len() == max_doc,
            crate::codec::is_permutation(sort_map@),
            docs_with_field.wf(),
            values.wf(),
            values.values() == all,
            count_set(docs_with_field@) == all.len(),
            values.position() == rank(docs_with_field@, doc as int),
            sorted@.len() == max_doc,
            forall|d: int|
                0 <= d < doc ==> sorted@[sort_map@[d] as int] == norm_at(docs_with_field@, all, d),
            forall|d: int| doc <= d < max_doc ==> sorted@[sort_map@[d] as int] == MISSING,
        decreases max_doc - doc,
    {
        let target = sort_map.old_to_new(doc);
        let ghost before = sorted@;
        if (doc as usize) < docs_with_field.len() {
            proof {
                lemma_rank_step(docs_with_field@, doc as int);
            }
            if docs_with_field.get(doc as usize) {
                let value = match values.next() {
                    Some(v) => v,
                    None => {
                        assert(false);
                        MISSING
                    },
                };
                sorted[target as usize] = value;
            }
        }
        proof {
            assert forall|d: int| 0 <= d < max_doc && d != doc implies sorted@[sort_map@[d] as int]
                == before[sort_map@[d] as int] by {
                if d < doc {
                    assert(sort_map@[d] != sort_map@[doc as int]);
                } else {
                    assert(sort_map@[doc as int] != sort_map@[d]);
                }
            }
        }
        doc += 1;
    }
    sorted
}

/// Walks the docs `0..max_doc` of a segment and hands out the norm of
/// each, `MISSING` for a doc without one.
pub struct NumericIter<'a> {
    values_iter: LongValuesIterator<'a>,
    docs_with_field: &'a FixedBitSet,
    upto: usize,
    max_doc: usize,
}

impl<'a> NumericIter<'a> {
    /// The doc whose norm comes next.
    pub closed spec fn upto(&self) -> int {
        self.upto as int
    }

    /// Number of docs to walk.
    pub closed spec fn max_doc(&self) -> int {
        self.max_doc as int
    }

    /// Which docs have a norm.
    pub closed spec fn docs_with_field(&self) -> Seq<bool> {
        self.docs_with_field@
    }

    /// The norms of the docs that have one, in doc order.
    pub closed spec fn values(&self) -> Seq<i64> {
        self.values_iter.values()
    }

    /// There is a value for each doc that has a norm, and as many values
    /// have been handed out as docs with a norm have been passed.
    pub closed spec fn wf(&self) -> bool {
        &&& self.values_iter.wf()
        &&& self.docs_with_field.wf()
        &&& self.upto <= self.max_doc
        &&& count_set(self.docs_with_field@) == self.values_iter.values().len()
        &&& self.values_iter.position() == rank(self.docs_with_field@, self.upto as int)
    }

    /// An iterator over the norms of the docs `0..max_doc`, given the norms
    /// of the docs that `docs_with_field` marks, in doc order.
    pub fn new(
        values_iter: LongValuesIterator<'a>,
        docs_with_field: &'a FixedBitSet,
        max_doc: usize,
    ) -> (iter: NumericIter<'a>)
        requires
            values_iter.wf(),
            values_iter.position() == 0,
            docs_with_field.wf(),
            count_set(docs_with_field@) == values_iter.values().len(),
        ensures
            iter.wf(),
            iter.upto() == 0,
            iter.max_doc() == max_doc,
            iter.docs_with_field() == docs_with_field@,
            iter.values() == values_iter.values(),
    {
        NumericIter { values_iter, docs_with_field, upto: 0, max_doc }
    }

    /// The norm of the next doc, or `None` when all docs have been walked.
    pub fn next(&mut self) -> (item: Option<i64>)
        requires
            old(self).wf(),
        ensures
            final(self).wf(),
            final(self).max_doc() == old(self).max_doc(),
            final(self).docs_with_field() == old(self).docs_with_field(),
            final(self).values() == old(self).values(),
            old(self).upto() < old(self).max_doc() ==> item == Some(
                norm_at(old(self).docs_with_field(), old(self).values(), old(self).upto()),
            ) && final(self).upto() == old(self).upto() + 1,
            old(self).upto() >= old(self).max_doc() ==> item is None && final(self).upto()
                == old(self).upto(),
    {
        if self.upto < self.max_doc {
            proof {
                if self.upto < self.docs_with_field@.len() {
                    lemma_rank_step(self.docs_with_field@, self.upto as int);
                }
            }
            let v = if self.upto >= self.docs_with_field.len() || !self.docs_with_field.get(
                self.upto,
            ) {
                MISSING
            } else {
                match self.values_iter.next() {
                    Some(v) => v,
                    None => {
                        assert(false);
                        MISSING
                    },
                }
            };
            self.upto += 1;
            Some(v)
        } else {
            None
        }
    }

    /// Goes back to the first doc.
    pub fn reset(&mut self)
        requires
            old(self).wf(),
        ensures
            final(self).wf(),
            final(self).upto() == 0,
            final(self).max_doc() == old(self).max_doc(),
            final(self).docs_with_field() == old(self).docs_with_field(),
            final(self).values() == old(self).values(),
    {
        self.values_iter.reset();
        self.upto = 0;
    }
}

} // verus!
