//! A posting list held in memory, walked as a cursor.

use vstd::prelude::*;

use crate::error::Error;
use crate::search::scorer::Scorer;
use crate::search::{first_from, Cursor, DocIterator, NO_MORE_DOCS};
use crate::util::DocId;

verus! {

/// The doc ids of a posting list are real docs in strictly ascending order.
pub open spec fn ascending_docs(docs: Seq<DocId>) -> bool {
    &&& forall|i: int| 0 <= i < docs.len() ==> 0 <= #[trigger] docs[i] < NO_MORE_DOCS
    &&& forall|i: int, j: int| 0 <= i < j < docs.len() ==> docs[i] < docs[j]
}

/// Cursor over the docs of one posting list, with the number of times that
/// the term occurs in each.
pub struct PostingsIterator {
    docs: Vec<DocId>,
    freqs: Vec<u32>,
    started: bool,
    index: usize,
}

impl PostingsIterator {
    /// The whole posting list, visited or not.
    pub closed spec fn docs(&self) -> Seq<DocId> {
        self.docs@
    }

    /// The frequency of the term in each doc of the list.
    pub closed spec fn freqs(&self) -> Seq<u32> {
        self.freqs@
    }

    /// How many docs of the list the cursor has left behind or stands on:
    /// every doc at an index from here on is still to come.
    pub closed spec fn consumed(&self) -> int {
        if !self.started {
            0
        } else if self.index < self.docs@.len() {
            self.index + 1
        } else {
            self.docs@.len() as int
        }
    }

    /// A fresh cursor over `docs`, standing before the first of them; the
    /// term occurs once in each. Fails with `IllegalArgument` exactly when
    /// `docs` is not a list of real doc ids in strictly ascending order.
    pub fn new(docs: Vec<DocId>) -> (r: Result<PostingsIterator, Error>)
        ensures
            r is Ok <==> ascending_docs(docs@),
            r matches Ok(it) ==> it.inv() && it.docs() == docs@ && it.cursor().position == -1
                && it.cursor().upcoming == docs@.map_values(|d: DocId| d as int).to_set()
                && it.freqs() == Seq::new(docs@.len(), |i: int| 1u32),
            r matches Ok(it) ==> it.cursor().ordered() && it.cursor().unfailing
                && it.cursor().confirmed && it.cursor().cost == docs@.len()
                && it.cursor().within_cost(),
            r matches Err(e) ==> e is IllegalArgument,
    {
        let mut freqs: Vec<u32> = Vec::new();
        let mut k: usize = 0;
        while k < docs.len()
            invariant
                k <= docs@.len(),
                freqs@ == Seq::new(k as nat, |i: int| 1u32),
            decreases docs@.len() - k,
        {
            freqs.push(1);
            proof {
                assert(freqs@ =~= Seq::new((k + 1) as nat, |i: int| 1u32));
            }
            k += 1;
        }
        PostingsIterator::with_freqs(docs, freqs)
    }

    /// A fresh cursor over `docs`, standing before the first of them, in
    /// which the term occurs `freqs[i]` times in `docs[i]`. Fails with
    /// `IllegalArgument` exactly when `docs` is not a list of real doc ids
    /// in strictly ascending order, or `freqs` is not as long.
    pub fn with_freqs(docs: Vec<DocId>, freqs: Vec<u32>) -> (r: Result<PostingsIterator, Error>)
        ensures
            r is Ok <==> ascending_docs(docs@) && freqs@.len() == docs@.len(),
            r matches Ok(it) ==> it.inv() && it.docs() == docs@ && it.cursor().position == -1
                && it.cursor().upcoming == docs@.map_values(|d: DocId| d as int).to_set()
                && it.freqs() == freqs@,
            r matches Ok(it) ==> it.cursor().ordered() && it.cursor().unfailing
                && it.cursor().confirmed && it.cursor().cost == docs@.len()
                && it.cursor().within_cost(),
            r matches Err(e) ==> e is IllegalArgument,
    {
        if freqs.len() != docs.len() {
            return Err(
                Error::IllegalArgument(String::from_str("one frequency is needed for each doc")),
            );
        }
        let n = docs.len();
        let mut i: usize = 0;
        while i < n
            invariant
                n == docs@.len(),
                i <= n,
                forall|k: int| 0 <= k < i ==> 0 <= #[trigger] docs@[k] < NO_MORE_DOCS,
                forall|k: int| 0 < k < i ==> docs@[k - 1] < #[trigger] docs@[k],
            decreases n - i,
        {
            let d = docs[i];
            if d < 0 || d == NO_MORE_DOCS || (i > 0 && docs[i - 1] >= d) {
                return Err(
                    Error::IllegalArgument(
                        String::from_str("doc ids must be ascending and below the sentinel"),
                    ),
                );
            }
            i += 1;
        }
        proof {
            lemma_adjacent_ascending(docs@);
        }
        let it = PostingsIterator { docs, freqs, started: false, index: 0 };
        proof {
            let ints = docs@.map_values(|d: DocId| d as int);
            assert forall|d: int| it.cursor().upcoming.contains(d) <==> ints.to_set().contains(
                d,
            ) by {
                if it.cursor().upcoming.contains(d) {
                    let k = choose|k: int| 0 <= k < docs@.len() && docs@[k] == d;
                    assert(ints[k] == d);
                }
                if ints.to_set().contains(d) {
                    let k = choose|k: int| 0 <= k < ints.len() && ints[k] == d;
                    assert(docs@[k] == d);
                }
            }
            assert(it.cursor().upcoming =~= ints.to_set());
            it.lemma_within_cost();
            it.lemma_cursor();
        }
        Ok(it)
    }

    /// What the cursor of a posting list is like wherever it stands: it is
    /// in order, it cannot fail, it confirms every doc that it visits, and
    /// it costs as much as the list is long.
    pub proof fn lemma_cursor(&self)
        requires
            self.inv(),
        ensures
            self.cursor().ordered(),
            self.cursor().unfailing,
            self.cursor().confirmed,
            self.cursor().cost == self.docs().len(),
    {
        assert forall|d: int| #[trigger] self.cursor().upcoming.contains(d) implies self.cursor().position
            < d < NO_MORE_DOCS by {
            let k = choose|k: int|
                self.consumed() <= k < self.docs@.len() && #[trigger] self.docs@[k] == d;
            if self.started && self.index < self.docs@.len() {
                assert(self.docs@[self.index as int] < self.docs@[k]);
            }
        }
    }

    /// The length of the posting list bounds the docs that the cursor has
    /// left.
    pub proof fn lemma_within_cost(&self)
        requires
            self.inv(),
        ensures
            self.cursor().within_cost(),
    {
        let left = self.docs@.skip(self.consumed()).map_values(|d: DocId| d as int);
        let upcoming = self.cursor().upcoming;
        assert forall|d: int| upcoming.contains(d) implies left.to_set().contains(d) by {
            let k = choose|k: int|
                self.consumed() <= k < self.docs@.len() && #[trigger] self.docs@[k] == d;
            assert(left[k - self.consumed()] == d);
        }
        assert(upcoming.subset_of(left.to_set()));
        vstd::seq_lib::seq_to_set_is_finite(left);
        left.lemma_cardinality_of_set();
        vstd::set_lib::lemma_len_subset(upcoming, left.to_set());
    }

    /// How often the term occurs in the doc that the cursor stands on,
    /// which must be a real doc.
    pub fn freq(&self) -> (freq: u32)
        requires
            self.inv(),
            0 <= self.cursor().position < NO_MORE_DOCS,
        ensures
            freq == self.score_spec(),
            freq == self.freqs()[self.consumed() - 1],
    {
        self.freqs[self.index]
    }
}

impl DocIterator for PostingsIterator {
    closed spec fn cursor(&self) -> Cursor {
        Cursor {
            position: if !self.started {
                -1
            } else if self.index < self.docs@.len() {
                self.docs@[self.index as int] as int
            } else {
                NO_MORE_DOCS as int
            },
            upcoming: Set::new(
                |d: int|
                    exists|k: int|
                        self.consumed() <= k < self.docs@.len() && #[trigger] self.docs@[k] == d,
            ),
            confirmed: true,
            unfailing: true,
            cost: self.docs@.len(),
        }
    }

    closed spec fn inv(&self) -> bool {
        &&& ascending_docs(self.docs@)
        &&& self.freqs@.len() == self.docs@.len()
        &&& self.index <= self.docs@.len()
        &&& !self.started ==> self.index == 0
    }

    fn doc_id(&self) -> (doc: DocId) {
        if !self.started {
            -1
        } else if self.index < self.docs.len() {
            self.docs[self.index]
        } else {
            NO_MORE_DOCS
        }
    }

    fn next(&mut self) -> (r: Result<DocId, Error>)
        ensures
            r is Ok,
    {
        if !self.started {
            self.started = true;
        } else if self.index < self.docs.len() {
            self.index += 1;
        }
        let doc = self.doc_id();
        proof {
            let before = old(self).cursor();
            let after = self.cursor();
            assert forall|d: int| #[trigger]
                after.upcoming.contains(d) <==> before.upcoming.contains(d) && d > doc by {
                if after.upcoming.contains(d) {
                    let k = choose|k: int|
                        self.consumed() <= k < self.docs@.len() && #[trigger] self.docs@[k] == d;
                    assert(old(self).consumed() <= k);
                }
                if before.upcoming.contains(d) && d > doc {
                    let k = choose|k: int|
                        old(self).consumed() <= k < self.docs@.len() && #[trigger] self.docs@[k]
                            == d;
                    assert(self.consumed() <= k);
                }
            }
            if doc != NO_MORE_DOCS {
                assert(self.docs@[self.index as int] == doc);
            }
            assert forall|d: int| before.position + 1 <= d < doc implies !before.upcoming.contains(
                d,
            ) by {
                if before.upcoming.contains(d) {
                    let k = choose|k: int|
                        old(self).consumed() <= k < self.docs@.len() && #[trigger] self.docs@[k]
                            == d;
                    if self.index < self.docs@.len() {
                        assert(self.index <= k);
                    }
                }
            }
        }
        Ok(doc)
    }

    fn advance(&mut self, target: DocId) -> (r: Result<DocId, Error>)
        ensures
            r is Ok,
    {
        let here = self.doc_id();
        if here >= target {
            return Ok(here);
        }
        let n = self.docs.len();
        let mut i: usize = if self.started {
            self.index + 1
        } else {
            0
        };
        while i < n && self.docs[i] < target
            invariant
                n == self.docs@.len(),
                self.consumed() <= i <= n,
                *self == *old(self),
                self.inv(),
                forall|k: int| self.consumed() <= k < i ==> #[trigger] self.docs@[k] < target,
            decreases n - i,
        {
            i += 1;
        }
        self.started = true;
        self.index = i;
        let doc = self.doc_id();
        proof {
            let before = old(self).cursor();
            let after = self.cursor();
            assert forall|d: int| #[trigger]
                after.upcoming.contains(d) <==> before.upcoming.contains(d) && d > doc by {
                if after.upcoming.contains(d) {
                    let k = choose|k: int|
                        self.consumed() <= k < self.docs@.len() && #[trigger] self.docs@[k] == d;
                    assert(old(self).consumed() <= k);
                }
                if before.upcoming.contains(d) && d > doc {
                    let k = choose|k: int|
                        old(self).consumed() <= k < self.docs@.len() && #[trigger] self.docs@[k]
                            == d;
                    assert(self.consumed() <= k);
                }
            }
            if doc != NO_MORE_DOCS {
                assert(self.docs@[i as int] == doc);
            }
            assert forall|d: int| target <= d < doc implies !before.upcoming.contains(d) by {
                if before.upcoming.contains(d) {
                    let k = choose|k: int|
                        old(self).consumed() <= k < self.docs@.len() && #[trigger] self.docs@[k]
                            == d;
                    if i < n {
                        assert(i <= k);
                    }
                }
            }
            assert(first_from(before.upcoming, target as int, doc as int));
        }
        Ok(doc)
    }

    fn cost(&self) -> (c: usize) {
        self.docs.len()
    }

    fn matches(&mut self) -> (r: Result<bool, Error>)
        ensures
            r is Ok,
    {
        Ok(true)
    }

    fn approximate_next(&mut self) -> (r: Result<DocId, Error>)
        ensures
            r is Ok,
    {
        self.next()
    }

    fn approximate_advance(&mut self, target: DocId) -> (r: Result<DocId, Error>)
        ensures
            r is Ok,
    {
        self.advance(target)
    }
}

impl Scorer for PostingsIterator {
    type Score = u32;

    /// The frequency of the term in the doc that the cursor stands on.
    closed spec fn score_spec(&self) -> u32 {
        self.freqs@[self.index as int]
    }

    fn score(&mut self) -> (r: Result<u32, Error>)
        ensures
            r is Ok,
    {
        Ok(self.freq())
    }
}

/// Neighbours in ascending order put the whole sequence in ascending order.
proof fn lemma_adjacent_ascending(docs: Seq<DocId>)
    requires
        forall|k: int| 0 < k < docs.len() ==> docs[k - 1] < #[trigger] docs[k],
    ensures
        forall|i: int, j: int| 0 <= i < j < docs.len() ==> docs[i] < docs[j],
    decreases docs.len(),
{
    if docs.len() > 1 {
        let front = docs.drop_last();
        assert forall|k: int| 0 < k < front.len() implies front[k - 1] < #[trigger] front[k] by {
            assert(docs[k - 1] < docs[k]);
        }
        lemma_adjacent_ascending(front);
        let last = docs.len() - 1;
        assert forall|i: int, j: int| 0 <= i < j < docs.len() implies docs[i] < docs[j] by {
            if j == last {
                assert(docs[last - 1] < docs[last]);
                if i < last - 1 {
                    assert(front[i] < front[last - 1]);
                }
            } else {
                assert(front[i] < front[j]);
            }
        }
    }
}

} // verus!
