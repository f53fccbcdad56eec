//! Iteration over the documents that a query matches in one segment.

use vstd::prelude::*;

pub mod explanation;
pub mod postings;
pub mod scorer;

use crate::error::Error;
use crate::util::DocId;

verus! {

/// Sentinel that ends every iteration: no document has this id.
pub const NO_MORE_DOCS: DocId = 0x7fff_ffff;

/// The mathematical state of a forward-only cursor over ascending doc ids.
pub struct Cursor {
    /// The doc the cursor stands on: `-1` before the first move,
    /// `NO_MORE_DOCS` once exhausted.
    pub position: int,
    /// The docs the cursor will still visit.
    pub upcoming: Set<int>,
    /// Whether the doc on which the cursor stands is a match: what
    /// `matches` answers. A cursor that visits matches only is always
    /// confirmed; one that visits candidates says here which of them hold.
    pub confirmed: bool,
    /// Whether moving the cursor can never report an error, as for one that
    /// reads from memory.
    pub unfailing: bool,
    /// Upper bound on the number of docs that the cursor visits.
    pub cost: nat,
}

impl Cursor {
    /// The position is in range, and everything upcoming lies strictly
    /// between the position and the sentinel.
    pub open spec fn ordered(self) -> bool {
        &&& -1 <= self.position <= NO_MORE_DOCS
        &&& forall|d: int| #[trigger] self.upcoming.contains(d) ==> self.position < d < NO_MORE_DOCS
    }

    /// The cursor stands on a real doc.
    pub open spec fn on_doc(self) -> bool {
        0 <= self.position < NO_MORE_DOCS
    }

    /// The cost is an upper bound on the docs that the cursor has left: the
    /// one on which it stands, if any, and those that it will still visit.
    pub open spec fn within_cost(self) -> bool {
        &&& self.upcoming.finite()
        &&& self.upcoming.len() + if self.on_doc() {
            1nat
        } else {
            0nat
        } <= self.cost
    }

    /// The cursor stands on `doc` or will still visit it.
    pub open spec fn reaches(self, doc: int) -> bool {
        self.position == doc || self.upcoming.contains(doc)
    }

    /// `after` is this cursor moved onto `doc`, the first upcoming doc from
    /// `from` on: what lay before `doc` is skipped, what lies beyond it is
    /// still to come.
    pub open spec fn moves_to(self, after: Cursor, from: int, doc: int) -> bool {
        &&& after.ordered()
        &&& after.position == doc
        &&& first_from(self.upcoming, from, doc)
        &&& forall|d: int|
            #![trigger after.upcoming.contains(d)]
            #![trigger self.upcoming.contains(d)]
            after.upcoming.contains(d) <==> self.upcoming.contains(d) && d > doc
        &&& after.unfailing == self.unfailing
        &&& after.cost == self.cost
    }

    /// What `advance(target)` does to this cursor when it returns `doc`: a
    /// move to the first upcoming doc from `target` on, or nothing when the
    /// target is not ahead of the position.
    pub open spec fn advances_to(self, after: Cursor, target: int, doc: int) -> bool {
        if self.position < target {
            self.moves_to(after, target, doc)
        } else {
            after == self && doc == self.position
        }
    }
}

/// `doc` is the least member of `docs` that is at least `from`, or the
/// sentinel when `docs` has no such member.
pub open spec fn first_from(docs: Set<int>, from: int, doc: int) -> bool {
    &&& doc == NO_MORE_DOCS || (docs.contains(doc) && from <= doc)
    &&& forall|d: int| from <= d < doc ==> !docs.contains(d)
}

/// A cursor whose cost bounds the docs that it has left keeps to that
/// bound when it moves: `cost` stays an upper bound on the docs visited.
pub proof fn lemma_move_within_cost(before: Cursor, after: Cursor, from: int, doc: int)
    requires
        before.ordered(),
        before.within_cost(),
        before.moves_to(after, from, doc),
    ensures
        after.within_cost(),
{
    assert(after.upcoming.subset_of(before.upcoming));
    vstd::set_lib::lemma_len_subset(after.upcoming, before.upcoming);
    if doc != NO_MORE_DOCS {
        let rest = before.upcoming.remove(doc);
        assert(after.upcoming.subset_of(rest));
        vstd::set_lib::lemma_len_subset(after.upcoming, rest);
    }
}

/// A forward-only cursor over the ascending doc ids that match in one
/// segment. Implementations say through `cursor` what they stand for.
///
/// A move that reports an error promises nothing of the cursor afterwards:
/// it is to be given up.
pub trait DocIterator: Sized {
    /// The mathematical state of this cursor.
    spec fn cursor(&self) -> Cursor;

    /// What the implementation needs to hold of its own fields. It makes
    /// the cursor `ordered`.
    spec fn inv(&self) -> bool;

    /// Current doc id: `-1` before the first move, `NO_MORE_DOCS` at the end.
    fn doc_id(&self) -> (doc: DocId)
        requires
            self.inv(),
            self.cursor().ordered(),
        ensures
            doc == self.cursor().position,
    ;

    /// Moves to the first upcoming doc and returns it, or `NO_MORE_DOCS`
    /// when none is left. The result is beyond the old position unless the
    /// cursor was exhausted already.
    fn next(&mut self) -> (r: Result<DocId, Error>)
        requires
            old(self).inv(),
            old(self).cursor().ordered(),
        ensures
            r matches Ok(doc) ==> final(self).inv() && old(self).cursor().moves_to(
                final(self).cursor(),
                old(self).cursor().position + 1,
                doc as int,
            ),
            r matches Ok(doc) ==> old(self).cursor().position < doc || doc == NO_MORE_DOCS,
            r is Err ==> !old(self).cursor().unfailing,
    ;

    /// Moves to the first upcoming doc at or beyond `target` and returns it,
    /// or `NO_MORE_DOCS` when there is none. A target that is not ahead of
    /// the position leaves the cursor where it is.
    fn advance(&mut self, target: DocId) -> (r: Result<DocId, Error>)
        requires
            old(self).inv(),
            old(self).cursor().ordered(),
        ensures
            r matches Ok(doc) ==> final(self).inv() && old(self).cursor().advances_to(
                final(self).cursor(),
                target as int,
                doc as int,
            ),
            r matches Ok(doc) ==> doc >= target,
            r matches Ok(doc) ==> old(self).cursor().upcoming.contains(target as int) ==> doc
                == target,
            r is Err ==> !old(self).cursor().unfailing,
    ;

    /// Upper bound on the number of docs that the cursor visits.
    fn cost(&self) -> (c: usize)
        requires
            self.inv(),
            self.cursor().ordered(),
        ensures
            c == self.cursor().cost,
    ;

    /// Says whether the doc that the cursor stands on is a match: the
    /// second, costly phase for a cursor whose moves stop on candidates.
    /// The cursor stays where it is.
    fn matches(&mut self) -> (r: Result<bool, Error>)
        requires
            old(self).inv(),
            old(self).cursor().ordered(),
        ensures
            r matches Ok(b) ==> b == old(self).cursor().confirmed && final(self).inv() && final(
                self).cursor() == old(self).cursor(),
            r is Err ==> !old(self).cursor().unfailing,
    ;

    /// Same move as `next`.
    fn approximate_next(&mut self) -> (r: Result<DocId, Error>)
        requires
            old(self).inv(),
            old(self).cursor().ordered(),
        ensures
            r matches Ok(doc) ==> final(self).inv() && old(self).cursor().moves_to(
                final(self).cursor(),
                old(self).cursor().position + 1,
                doc as int,
            ),
            r matches Ok(doc) ==> old(self).cursor().position < doc || doc == NO_MORE_DOCS,
            r is Err ==> !old(self).cursor().unfailing,
    {
        self.next()
    }

    /// Same move as `advance`.
    fn approximate_advance(&mut self, target: DocId) -> (r: Result<DocId, Error>)
        requires
            old(self).inv(),
            old(self).cursor().ordered(),
        ensures
            r matches Ok(doc) ==> final(self).inv() && old(self).cursor().advances_to(
                final(self).cursor(),
                target as int,
                doc as int,
            ),
            r matches Ok(doc) ==> doc >= target,
            r matches Ok(doc) ==> old(self).cursor().upcoming.contains(target as int) ==> doc
                == target,
            r is Err ==> !old(self).cursor().unfailing,
    {
        self.advance(target)
    }
}

/// A cursor that can be moved: its own invariant holds and its state is
/// `ordered`.
pub open spec fn ready<T: DocIterator>(it: T) -> bool {
    it.inv() && it.cursor().ordered()
}

} // verus!
