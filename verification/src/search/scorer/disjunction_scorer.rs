//! Union of child cursors, with an optional minimum of children that must
//! agree on a doc.

use vstd::prelude::*;

use crate::error::Error;
use crate::search::scorer::{
    advance_failed, halted, least_after, lemma_advance_twice, next_failed, stopped,
    all_ordered, all_ready, all_unfailing, all_within_cost, behind_count, caught_up, cursors,
    lemma_behind_count_leaves, lemma_caught_up_keeps_cost, lemma_caught_up_keeps_matches,
    lemma_caught_up_twice, lemma_lowest_position, lemma_nothing_below_lowest, lemma_round,
    lemma_standing_back_real, lemma_standing_count_leaves, lemma_total_cost_prefix,
    lemma_union_within_cost, lowest_position, match_count, max_scores, max_with_ties, next_hit,
    reached_beyond, scores_at, scores_on, standing_count, sum_of, sum_scores, total_cost,
    ScoreValue, Scorer,
};
use crate::search::{Cursor, DocIterator, NO_MORE_DOCS};
use crate::util::disi::DisiPriorityQueue;
use crate::util::DocId;

verus! {

/// Number of children that must match when nothing else is asked for.
pub const DEFAULT_MIN_SHOULD_MATCH: i32 = 1;

/// A scorer for OR-like queries: it visits the docs on which enough of its
/// children agree.
pub struct DisjunctionSumScorer<T: DocIterator> {
    sub_scorers: SubScorers<T>,
    needs_scores: bool,
    cost: usize,
    min_should_match: i32,
}

impl<T: DocIterator> DisjunctionSumScorer<T> {
    /// The states of the children, in the order in which they were given.
    pub closed spec fn children(&self) -> Seq<Cursor> {
        self.sub_scorers.children()
    }

    /// The children themselves, in the order in which they were given.
    pub closed spec fn scorers(&self) -> Seq<T> {
        self.sub_scorers.scorers()
    }

    /// The doc the scorer stands on: the least position of a child.
    pub open spec fn current(&self) -> int {
        lowest_position(self.children())
    }

    /// The number of children that `new` was asked to require.
    pub closed spec fn min_should_match(&self) -> i32 {
        self.min_should_match
    }

    /// How many children must agree on a doc for `next` to stop on it.
    pub open spec fn least_matches(&self) -> int {
        least_matches(self.min_should_match())
    }

    /// Whether scores were asked for.
    pub closed spec fn needs_scores(&self) -> bool {
        self.needs_scores
    }

    /// The bound that `cost` reports: the sum of the children's.
    pub closed spec fn cost_bound(&self) -> nat {
        self.cost as nat
    }

    /// Whether the children are kept in a heap rather than a plain list.
    pub closed spec fn uses_heap(&self) -> bool {
        self.sub_scorers is DPQ
    }

    /// The doc on which the scorer says it stands; in a scorer in order
    /// that is the current doc.
    pub closed spec fn standing(&self) -> int {
        self.sub_scorers.standing()
    }

    /// How a move to the next match that ended in an error has left the
    /// scorer, which was `before`: a child that could fail was asked to
    /// move on, and the others are as `halted` or `stopped` say. A plain
    /// list still says that it stands where it last stood, which is where
    /// it started if one match is enough.
    pub open spec fn next_failed_from(&self, before: Self) -> bool {
        &&& self.uses_heap() == before.uses_heap()
        &&& if before.uses_heap() {
            exists|i: int|
                #[trigger] stopped(before.children(), self.children(), before.current() + 1, i)
        } else {
            next_failed(
                before.children(),
                self.children(),
                before.least_matches(),
                before.current(),
                self.standing(),
            )
        }
    }

    /// How an advance to `target` that ended in an error has left the
    /// scorer, which was `before`: a child behind `target` that could fail
    /// was asked to advance, and the others are as `halted` or `stopped`
    /// say. A plain list still says that it stands where it stood.
    pub open spec fn advance_failed_from(&self, before: Self, target: int) -> bool {
        &&& self.uses_heap() == before.uses_heap()
        &&& if before.uses_heap() {
            exists|i: int| #[trigger] stopped(before.children(), self.children(), target, i)
        } else {
            self.standing() == before.current() && advance_failed(
                before.children(),
                self.children(),
                target,
            )
        }
    }

    /// The children are in order, there is at least one, the cost is their
    /// sum, and a heap is in use only where one match is enough.
    pub closed spec fn wf(&self) -> bool {
        &&& self.sub_scorers.wf()
        &&& self.children().len() > 0
        &&& self.cost == total_cost(self.children())
        &&& self.sub_scorers is DPQ ==> self.min_should_match <= DEFAULT_MIN_SHOULD_MATCH
    }

    /// The states of the children of a scorer in order are ordered.
    pub proof fn lemma_children_ordered(&self)
        requires
            self.wf(),
        ensures
            all_ordered(self.children()),
            self.children().len() > 0,
    {
        match self.sub_scorers {
            SubScorers::SQ(sq) => sq.lemma_current_is_lowest(),
            SubScorers::DPQ(dpq) => dpq.lemma_children_ordered(),
        }
    }

    /// A disjunction over `children`, which must not be empty. Fewer than
    /// ten children, or more than one required match, are kept in a plain
    /// list; otherwise a heap is used.
    pub fn new(children: Vec<T>, needs_scores: bool, min_should_match: i32) -> (scorer:
        DisjunctionSumScorer<T>)
        requires
            children@.len() > 0,
            all_ready(children@),
            total_cost(cursors(children@)) <= usize::MAX,
        ensures
            scorer.wf(),
            scorer.children() == cursors(children@),
            scorer.scorers() == children@,
            scorer.min_should_match() == min_should_match,
            scorer.needs_scores() == needs_scores,
            scorer.cost_bound() == total_cost(cursors(children@)),
            scorer.uses_heap() <==> children@.len() >= 10 && min_should_match
                <= DEFAULT_MIN_SHOULD_MATCH,
    {
        let n = children.len();
        let mut cost: usize = 0;
        let mut i: usize = 0;
        while i < n
            invariant
                n == children@.len(),
                i <= n,
                all_ready(children@),
                total_cost(cursors(children@)) <= usize::MAX,
                cost == total_cost(cursors(children@).take(i as int)),
            decreases n - i,
        {
            proof {
                let group = cursors(children@);
                assert(group.take(i + 1).drop_last() =~= group.take(i as int));
                assert(group.take(i + 1).last() == children@[i as int].cursor());
                lemma_total_cost_prefix(group, i + 1);
            }
            cost = cost + children[i].cost();
            i += 1;
        }
        proof {
            assert(cursors(children@).take(n as int) =~= cursors(children@));
        }
        let sub_scorers = if n < 10 || min_should_match > DEFAULT_MIN_SHOULD_MATCH {
            SubScorers::SQ(SimpleQueue::new(children))
        } else {
            SubScorers::DPQ(DisiPriorityQueue::new(children))
        };
        DisjunctionSumScorer { sub_scorers, needs_scores, cost, min_should_match }
    }

    /// Current doc id: the least doc that a child stands on.
    pub fn doc_id(&self) -> (doc: DocId)
        requires
            self.uses_heap() ==> self.wf(),
        ensures
            doc == self.standing(),
            self.wf() ==> doc == self.current(),
    {
        self.sub_scorers.doc_id()
    }

    /// Moves to the first doc beyond the current one on which at least
    /// `least_matches` children agree, and returns it; `NO_MORE_DOCS` when
    /// there is none. The docs returned by successive calls are therefore
    /// strictly ascending, and they are exactly the docs beyond the
    /// starting point that that many children match.
    pub fn next(&mut self) -> (r: Result<DocId, Error>)
        requires
            old(self).wf(),
        ensures
            r matches Ok(doc) ==> final(self).stepped_from(*old(self)) && doc == final(self).current() && next_hit(
                old(self).children(),
                old(self).least_matches(),
                old(self).current(),
                doc as int,
            ) && caught_up(old(self).children(), final(self).children(), doc as int),
            r matches Ok(doc) ==> old(self).current() < doc || doc == NO_MORE_DOCS,
            r is Err ==> !all_unfailing(old(self).children()),
            r is Err ==> final(self).next_failed_from(*old(self)),
            old(self).current() == NO_MORE_DOCS ==> r is Ok,
    {
        self.approximate_next()
    }

    /// Advances every child that is behind `target` to it, and returns the
    /// least position that results: the first doc from `target` on that any
    /// child reaches, however many children `next` requires. A target that
    /// is not ahead of the current doc changes nothing.
    pub fn advance(&mut self, target: DocId) -> (r: Result<DocId, Error>)
        requires
            old(self).wf(),
        ensures
            r matches Ok(doc) ==> final(self).stepped_from(*old(self)) && doc == final(self).current() && caught_up(old(self).children(), final(self).children(), target as int),
            r matches Ok(doc) ==> doc >= target,
            r matches Ok(doc) ==> old(self).current() < target && match_count(
                old(self).children(),
                target as int,
            ) >= 1 ==> doc == target,
            r is Err ==> !all_unfailing(old(self).children()),
            r is Err ==> final(self).advance_failed_from(*old(self), target as int),
            old(self).current() >= target ==> r is Ok,
    {
        self.approximate_advance(target)
    }

    /// Upper bound on the number of docs visited: the sum of the
    /// children's bounds.
    pub fn cost(&self) -> (c: usize)
        requires
            self.wf(),
        ensures
            c == self.cost_bound(),
            c == total_cost(self.children()),
    {
        self.cost
    }

    /// Confirms the current doc: a disjunction has nothing left to check.
    pub fn matches(&mut self) -> (r: Result<bool, Error>)
        ensures
            r == Ok::<bool, Error>(true),
            *final(self) == *old(self),
    {
        Ok(true)
    }

    /// The move behind `next`.
    pub fn approximate_next(&mut self) -> (r: Result<DocId, Error>)
        requires
            old(self).wf(),
        ensures
            r matches Ok(doc) ==> final(self).stepped_from(*old(self)) && doc == final(self).current() && next_hit(
                old(self).children(),
                old(self).least_matches(),
                old(self).current(),
                doc as int,
            ) && caught_up(old(self).children(), final(self).children(), doc as int),
            r matches Ok(doc) ==> old(self).current() < doc || doc == NO_MORE_DOCS,
            r is Err ==> !all_unfailing(old(self).children()),
            r is Err ==> final(self).next_failed_from(*old(self)),
            old(self).current() == NO_MORE_DOCS ==> r is Ok,
    {
        let min_should_match = if self.min_should_match > DEFAULT_MIN_SHOULD_MATCH {
            Some(self.min_should_match)
        } else {
            None
        };
        proof {
            old(self).lemma_children_ordered();
            self.sub_scorers.lemma_standing();
        }
        let r = self.sub_scorers.approximate_next(min_should_match);
        proof {
            if r is Err && old(self).uses_heap() {
                let i = choose|i: int|
                    #[trigger] stopped(
                        old(self).children(),
                        self.children(),
                        old(self).current() + 1,
                        i,
                    );
                assert(stopped(old(self).children(), self.children(), old(self).current() + 1, i));
            }
            if r is Ok {
                lemma_caught_up_keeps_cost(
                    old(self).children(),
                    self.children(),
                    lowest_position(self.children()),
                );
            }
        }
        r
    }

    /// The move behind `advance`.
    pub fn approximate_advance(&mut self, target: DocId) -> (r: Result<DocId, Error>)
        requires
            old(self).wf(),
        ensures
            r matches Ok(doc) ==> final(self).stepped_from(*old(self)) && doc == final(self).current() && caught_up(old(self).children(), final(self).children(), target as int),
            r matches Ok(doc) ==> doc >= target,
            r matches Ok(doc) ==> old(self).current() < target && match_count(
                old(self).children(),
                target as int,
            ) >= 1 ==> doc == target,
            r is Err ==> !all_unfailing(old(self).children()),
            r is Err ==> final(self).advance_failed_from(*old(self), target as int),
            old(self).current() >= target ==> r is Ok,
    {
        proof {
            self.sub_scorers.lemma_standing();
        }
        let r = self.sub_scorers.approximate_advance(target);
        proof {
            if r is Err && old(self).uses_heap() {
                let i = choose|i: int|
                    #[trigger] stopped(old(self).children(), self.children(), target as int, i);
                assert(stopped(old(self).children(), self.children(), target as int, i));
            }
            if r is Ok {
                let before = old(self).children();
                let after = self.children();
                old(self).lemma_children_ordered();
                lemma_caught_up_keeps_cost(before, after, target as int);
                self.lemma_children_ordered();
                lemma_caught_up_keeps_matches(before, after, target as int);
                lemma_lowest_position(before);
                lemma_lowest_position(after);
                let doc = lowest_position(after);
                // Nobody stops short of the target.
                assert(doc >= target) by {
                    if doc != NO_MORE_DOCS {
                        let k = choose|k: int|
                            0 <= k < after.len() && (#[trigger] after[k]).position == doc;
                        assert(before[k].advances_to(after[k], target as int, after[k].position));
                    }
                }
                if old(self).current() < target && match_count(before, target as int) >= 1 {
                    assert(after.len() == before.len());
                    assert forall|k: int| 0 <= k < after.len() implies (#[trigger] after[k]).ordered() by {
                        assert(before[k].advances_to(after[k], target as int, after[k].position));
                    }
                    if target < doc {
                        lemma_nothing_below_lowest(after, target as int);
                    }
                }
            }
        }
        r
    }

    /// This scorer is `before` after a move: it is in order, and apart from
    /// where its children stand nothing about it has changed.
    pub closed spec fn stepped_from(&self, before: Self) -> bool {
        &&& self.wf()
        &&& self.children().len() == before.children().len()
        &&& self.min_should_match == before.min_should_match
        &&& self.needs_scores == before.needs_scores
        &&& self.cost == before.cost
        &&& (self.sub_scorers is DPQ) == (before.sub_scorers is DPQ)
    }

    /// What `stepped_from` keeps.
    pub proof fn lemma_stepped_from(&self, before: Self)
        requires
            self.stepped_from(before),
        ensures
            self.wf(),
            self.children().len() == before.children().len(),
            self.min_should_match() == before.min_should_match(),
            self.needs_scores() == before.needs_scores(),
            self.cost_bound() == before.cost_bound(),
            self.uses_heap() == before.uses_heap(),
    {
    }

    /// A move of the scorer onto `doc`, the first doc from `from` on that
    /// any child reaches, is such a move of the cursor that the scorer
    /// stands for.
    proof fn lemma_moves(&self, before: Self, from: int, doc: int)
        requires
            before.wf(),
            self.stepped_from(before),
            before.current() < from <= doc,
            doc == self.current(),
            caught_up(before.children(), self.children(), doc),
            doc == NO_MORE_DOCS || match_count(before.children(), doc) >= 1,
            forall|d: int| from <= d < doc ==> match_count(before.children(), d) < 1,
        ensures
            before.cursor().moves_to(self.cursor(), from, doc),
    {
        before.lemma_children_ordered();
        self.lemma_children_ordered();
        lemma_lowest_position(before.children());
        lemma_lowest_position(self.children());
        lemma_caught_up_keeps_cost(before.children(), self.children(), doc);
        lemma_caught_up_keeps_matches(before.children(), self.children(), doc);
        assert forall|d: int|
            #![trigger self.cursor().upcoming.contains(d)]
            #![trigger before.cursor().upcoming.contains(d)]
            self.cursor().upcoming.contains(d) <==> before.cursor().upcoming.contains(d) && d
                > doc by {
            if doc < d < NO_MORE_DOCS {
                assert(match_count(self.children(), d) == match_count(before.children(), d));
            }
        }
    }

    /// Where the cost of every child bounds the docs that it has left, the
    /// cost of the disjunction bounds the docs that it has left.
    pub proof fn lemma_within_cost(&self)
        requires
            self.wf(),
            all_within_cost(self.children()),
        ensures
            self.cursor().within_cost(),
    {
        self.lemma_children_ordered();
        lemma_lowest_position(self.children());
        lemma_union_within_cost(self.children(), self.current());
        assert(self.cursor().upcoming =~= reached_beyond(self.children(), self.current()));
        if self.cursor().on_doc() {
            lemma_standing_back_real(self.children(), self.current());
        }
    }
}

impl<T: Scorer> DisjunctionSumScorer<T> {
    /// The scores that make up the score of the current doc, which must be
    /// a real doc: those of the children that stand on it, in the order of
    /// the children, and none at all where no scores were asked for. The
    /// score of the doc is their sum. Nothing moves.
    pub fn score_parts(&mut self) -> (r: Result<Vec<T::Score>, Error>)
        requires
            old(self).wf(),
            0 <= old(self).current() < NO_MORE_DOCS,
        ensures
            r matches Ok(scores) ==> {
                &&& scores@ == if old(self).needs_scores() {
                    scores_at(old(self).scorers(), old(self).current())
                } else {
                    Seq::empty()
                }
                &&& final(self).stepped_from(*old(self))
                &&& final(self).children() == old(self).children()
                &&& scores_at(final(self).scorers(), old(self).current()) == scores_at(
                    old(self).scorers(),
                    old(self).current(),
                )
            },
            r is Err ==> !all_unfailing(old(self).children()),
            !old(self).needs_scores() ==> r is Ok,
    {
        if !self.needs_scores {
            return Ok(Vec::new());
        }
        self.sub_scorers.top_scores()
    }
}

impl<T: Scorer> DisjunctionSumScorer<T> where T::Score: ScoreValue {
    /// The score of the current doc, which must be a real doc: the sum of
    /// the scores of the children that stand on it, and the score that adds
    /// nothing where no scores were asked for. Nothing moves.
    pub fn score(&mut self) -> (r: Result<T::Score, Error>)
        requires
            old(self).wf(),
            0 <= old(self).current() < NO_MORE_DOCS,
        ensures
            r matches Ok(score) ==> {
                &&& score == old(self).score_spec()
                &&& final(self).score_spec() == old(self).score_spec()
                &&& final(self).stepped_from(*old(self))
                &&& final(self).children() == old(self).children()
            },
            r is Err ==> !all_unfailing(old(self).children()),
            !old(self).needs_scores() ==> r is Ok,
    {
        if !self.needs_scores {
            return Ok(T::Score::zero());
        }
        self.sub_scorers.score_sum()
    }
}

impl<T: DocIterator> DocIterator for DisjunctionSumScorer<T> {
    /// A disjunction stands on the least doc of its children and will visit
    /// every later doc that a child reaches.
    open spec fn cursor(&self) -> Cursor {
        Cursor {
            position: self.current(),
            upcoming: Set::new(
                |d: int|
                    self.current() < d < NO_MORE_DOCS && match_count(self.children(), d) >= 1,
            ),
            confirmed: true,
            unfailing: all_unfailing(self.children()),
            cost: self.cost_bound(),
        }
    }

    /// A disjunction is a cursor of this kind where one match is enough:
    /// with a higher threshold `advance` stops on docs that `next` skips.
    open spec fn inv(&self) -> bool {
        self.wf() && self.min_should_match() <= DEFAULT_MIN_SHOULD_MATCH
    }

    fn doc_id(&self) -> (doc: DocId) {
        DisjunctionSumScorer::doc_id(self)
    }

    fn next(&mut self) -> (r: Result<DocId, Error>)
        ensures
            r is Ok ==> final(self).stepped_from(*old(self)),
    {
        let r = DisjunctionSumScorer::approximate_next(self);
        proof {
            if let Ok(doc) = r {
                old(self).lemma_children_ordered();
                lemma_lowest_position(old(self).children());
                if old(self).current() < doc {
                    self.lemma_moves(*old(self), old(self).current() + 1, doc as int);
                } else {
                    lemma_caught_up_keeps_cost(old(self).children(), self.children(), doc as int);
                    assert(self.children() =~= old(self).children()) by {
                        assert forall|k: int| 0 <= k < self.children().len() implies self.children()[k]
                            == old(self).children()[k] by {
                            assert(old(self).children()[k].advances_to(
                                self.children()[k],
                                doc as int,
                                self.children()[k].position,
                            ));
                        }
                    }
                    assert(self.cursor().upcoming =~= old(self).cursor().upcoming);
                }
            }
        }
        r
    }

    fn advance(&mut self, target: DocId) -> (r: Result<DocId, Error>)
        ensures
            r is Ok ==> final(self).stepped_from(*old(self)),
    {
        let r = DisjunctionSumScorer::approximate_advance(self, target);
        proof {
            if let Ok(doc) = r {
                let before = old(self).children();
                let after = self.children();
                old(self).lemma_children_ordered();
                self.lemma_children_ordered();
                lemma_lowest_position(before);
                lemma_lowest_position(after);
                lemma_caught_up_keeps_cost(before, after, target as int);
                lemma_caught_up_keeps_matches(before, after, target as int);
                if old(self).current() < target {
                    assert(caught_up(before, after, doc as int)) by {
                        assert forall|k: int| 0 <= k < before.len() implies (
                        #[trigger] before[k]).advances_to(after[k], doc as int, after[k].position) by {
                            assert(before[k].advances_to(
                                after[k],
                                target as int,
                                after[k].position,
                            ));
                            assert(after[k].position >= doc);
                            assert(before[k].ordered());
                        }
                    }
                    crate::search::scorer::lemma_matches_at_lowest(after);
                    assert forall|d: int| target <= d < doc implies match_count(before, d) < 1 by {
                        lemma_nothing_below_lowest(after, d);
                    }
                    self.lemma_moves(*old(self), target as int, doc as int);
                    if old(self).cursor().upcoming.contains(target as int) {
                        assert(match_count(before, target as int) >= 1);
                    }
                } else {
                    assert(after =~= before) by {
                        assert forall|k: int| 0 <= k < after.len() implies after[k] == before[k] by {
                            assert(before[k].advances_to(
                                after[k],
                                target as int,
                                after[k].position,
                            ));
                        }
                    }
                    assert(self.cursor().upcoming =~= old(self).cursor().upcoming);
                }
            }
        }
        r
    }

    fn cost(&self) -> (c: usize) {
        DisjunctionSumScorer::cost(self)
    }

    fn matches(&mut self) -> (r: Result<bool, Error>) {
        DisjunctionSumScorer::matches(self)
    }

    fn approximate_next(&mut self) -> (r: Result<DocId, Error>) {
        DocIterator::next(self)
    }

    fn approximate_advance(&mut self, target: DocId) -> (r: Result<DocId, Error>) {
        DocIterator::advance(self, target)
    }
}

impl<T: Scorer> Scorer for DisjunctionSumScorer<T> where T::Score: ScoreValue {
    type Score = T::Score;

    /// The sum of the scores of the children on the current doc, and the
    /// score that adds nothing where no scores were asked for.
    open spec fn score_spec(&self) -> T::Score {
        if self.needs_scores() {
            sum_of(scores_at(self.scorers(), self.current()))
        } else {
            T::Score::zero_spec()
        }
    }

    fn score(&mut self) -> (r: Result<T::Score, Error>) {
        let r = DisjunctionSumScorer::score(self);
        proof {
            if r is Ok {
                assert(self.cursor().upcoming =~= old(self).cursor().upcoming);
            }
        }
        r
    }
}

/// The scorer of a disjunction-max query: it visits every doc that any of
/// its children matches. The score of a doc is the greatest score among the
/// children on it, plus the tie breaker times the sum of the scores of the
/// other children on it.
pub struct DisjunctionMaxScorer<T: Scorer> {
    union: DisjunctionSumScorer<T>,
    tie_breaker_multiplier: T::Score,
}

impl<T: Scorer> DisjunctionMaxScorer<T> {
    /// The states of the children, in the order in which they were given.
    pub closed spec fn children(&self) -> Seq<Cursor> {
        self.union.children()
    }

    /// The doc the scorer stands on: the least position of a child.
    pub open spec fn current(&self) -> int {
        lowest_position(self.children())
    }

    /// Whether scores were asked for.
    pub closed spec fn needs_scores(&self) -> bool {
        self.union.needs_scores()
    }

    /// The bound that `cost` reports: the sum of the children's.
    pub closed spec fn cost_bound(&self) -> nat {
        self.union.cost_bound()
    }

    /// Whether the children are kept in a heap rather than a plain list.
    pub closed spec fn uses_heap(&self) -> bool {
        self.union.uses_heap()
    }

    /// The doc on which the scorer says it stands; in a scorer in order
    /// that is the current doc.
    pub closed spec fn standing(&self) -> int {
        self.union.standing()
    }

    /// How a move to the next match that ended in an error has left the
    /// scorer, which was `before`: a child that could fail was asked to
    /// move on, and the others are as `halted` or `stopped` say. A plain
    /// list still says that it stands where it started.
    pub open spec fn next_failed_from(&self, before: Self) -> bool {
        &&& self.uses_heap() == before.uses_heap()
        &&& if before.uses_heap() {
            exists|i: int|
                #[trigger] stopped(before.children(), self.children(), before.current() + 1, i)
        } else {
            next_failed(before.children(), self.children(), 1, before.current(), self.standing())
        }
    }

    /// How an advance to `target` that ended in an error has left the
    /// scorer, which was `before`: a child behind `target` that could fail
    /// was asked to advance, and the others are as `halted` or `stopped`
    /// say. A plain list still says that it stands where it stood.
    pub open spec fn advance_failed_from(&self, before: Self, target: int) -> bool {
        &&& self.uses_heap() == before.uses_heap()
        &&& if before.uses_heap() {
            exists|i: int| #[trigger] stopped(before.children(), self.children(), target, i)
        } else {
            self.standing() == before.current() && advance_failed(
                before.children(),
                self.children(),
                target,
            )
        }
    }

    /// What the sum of the scores that are not the greatest is multiplied
    /// by.
    pub closed spec fn tie_breaker_multiplier(&self) -> T::Score {
        self.tie_breaker_multiplier
    }

    /// The children are in order, and there is at least one.
    pub closed spec fn wf(&self) -> bool {
        &&& self.union.wf()
        &&& self.union.min_should_match() == DEFAULT_MIN_SHOULD_MATCH
    }

    /// This scorer is `before` after a move: it is in order, and apart from
    /// where its children stand nothing about it has changed.
    pub closed spec fn stepped_from(&self, before: Self) -> bool {
        &&& self.wf()
        &&& self.union.stepped_from(before.union)
        &&& self.tie_breaker_multiplier == before.tie_breaker_multiplier
    }

    /// What `stepped_from` keeps.
    pub proof fn lemma_stepped_from(&self, before: Self)
        requires
            self.stepped_from(before),
        ensures
            self.wf(),
            self.children().len() == before.children().len(),
            self.needs_scores() == before.needs_scores(),
            self.cost_bound() == before.cost_bound(),
            self.uses_heap() == before.uses_heap(),
            self.tie_breaker_multiplier() == before.tie_breaker_multiplier(),
    {
    }

    /// A disjunction over `children`, which must not be empty. Fewer than
    /// ten children are kept in a plain list; otherwise a heap is used.
    pub fn new(children: Vec<T>, tie_breaker_multiplier: T::Score, needs_scores: bool) -> (scorer:
        DisjunctionMaxScorer<T>)
        requires
            children@.len() > 0,
            all_ready(children@),
            total_cost(cursors(children@)) <= usize::MAX,
        ensures
            scorer.wf(),
            scorer.children() == cursors(children@),
            scorer.scorers() == children@,
            scorer.needs_scores() == needs_scores,
            scorer.tie_breaker_multiplier() == tie_breaker_multiplier,
            scorer.cost_bound() == total_cost(cursors(children@)),
            scorer.uses_heap() <==> children@.len() >= 10,
    {
        DisjunctionMaxScorer {
            union: DisjunctionSumScorer::new(children, needs_scores, DEFAULT_MIN_SHOULD_MATCH),
            tie_breaker_multiplier,
        }
    }

    /// Current doc id: the least doc that a child stands on.
    pub fn doc_id(&self) -> (doc: DocId)
        requires
            self.uses_heap() ==> self.wf(),
        ensures
            doc == self.standing(),
            self.wf() ==> doc == self.current(),
    {
        self.union.doc_id()
    }

    /// Moves to the first doc beyond the current one that any child
    /// reaches, and returns it; `NO_MORE_DOCS` when there is none.
    pub fn next(&mut self) -> (r: Result<DocId, Error>)
        requires
            old(self).wf(),
        ensures
            r matches Ok(doc) ==> final(self).stepped_from(*old(self)) && doc == final(
                self).current() && next_hit(
                old(self).children(),
                1,
                old(self).current(),
                doc as int,
            ) && caught_up(old(self).children(), final(self).children(), doc as int),
            r matches Ok(doc) ==> old(self).current() < doc || doc == NO_MORE_DOCS,
            r is Err ==> !all_unfailing(old(self).children()),
            r is Err ==> final(self).next_failed_from(*old(self)),
            old(self).current() == NO_MORE_DOCS ==> r is Ok,
    {
        self.approximate_next()
    }

    /// Advances every child that is behind `target` to it, and returns the
    /// least position that results: the first doc from `target` on that any
    /// child reaches. A target that is not ahead of the current doc changes
    /// nothing.
    pub fn advance(&mut self, target: DocId) -> (r: Result<DocId, Error>)
        requires
            old(self).wf(),
        ensures
            r matches Ok(doc) ==> final(self).stepped_from(*old(self)) && doc == final(
                self).current() && caught_up(
                old(self).children(),
                final(self).children(),
                target as int,
            ),
            r matches Ok(doc) ==> doc >= target,
            r matches Ok(doc) ==> old(self).current() < target && match_count(
                old(self).children(),
                target as int,
            ) >= 1 ==> doc == target,
            r is Err ==> !all_unfailing(old(self).children()),
            r is Err ==> final(self).advance_failed_from(*old(self), target as int),
            old(self).current() >= target ==> r is Ok,
    {
        self.approximate_advance(target)
    }

    /// Upper bound on the number of docs visited: the sum of the
    /// children's bounds.
    pub fn cost(&self) -> (c: usize)
        requires
            self.wf(),
        ensures
            c == self.cost_bound(),
            c == total_cost(self.children()),
    {
        self.union.cost()
    }

    /// Confirms the current doc: a disjunction has nothing left to check.
    pub fn matches(&mut self) -> (r: Result<bool, Error>)
        ensures
            r == Ok::<bool, Error>(true),
            *final(self) == *old(self),
    {
        Ok(true)
    }

    /// The move behind `next`.
    pub fn approximate_next(&mut self) -> (r: Result<DocId, Error>)
        requires
            old(self).wf(),
        ensures
            r matches Ok(doc) ==> final(self).stepped_from(*old(self)) && doc == final(
                self).current() && next_hit(
                old(self).children(),
                1,
                old(self).current(),
                doc as int,
            ) && caught_up(old(self).children(), final(self).children(), doc as int),
            r matches Ok(doc) ==> old(self).current() < doc || doc == NO_MORE_DOCS,
            r is Err ==> !all_unfailing(old(self).children()),
            r is Err ==> final(self).next_failed_from(*old(self)),
            old(self).current() == NO_MORE_DOCS ==> r is Ok,
    {
        let r = self.union.approximate_next();
        proof {
            if r is Err && old(self).uses_heap() {
                let i = choose|i: int|
                    #[trigger] stopped(
                        old(self).children(),
                        self.children(),
                        old(self).current() + 1,
                        i,
                    );
                assert(stopped(old(self).children(), self.children(), old(self).current() + 1, i));
            }
            if r is Ok {
                self.union.lemma_stepped_from(old(self).union);
            }
        }
        r
    }

    /// The move behind `advance`.
    pub fn approximate_advance(&mut self, target: DocId) -> (r: Result<DocId, Error>)
        requires
            old(self).wf(),
        ensures
            r matches Ok(doc) ==> final(self).stepped_from(*old(self)) && doc == final(
                self).current() && caught_up(
                old(self).children(),
                final(self).children(),
                target as int,
            ),
            r matches Ok(doc) ==> doc >= target,
            r matches Ok(doc) ==> old(self).current() < target && match_count(
                old(self).children(),
                target as int,
            ) >= 1 ==> doc == target,
            r is Err ==> !all_unfailing(old(self).children()),
            r is Err ==> final(self).advance_failed_from(*old(self), target as int),
            old(self).current() >= target ==> r is Ok,
    {
        let r = self.union.approximate_advance(target);
        proof {
            if r is Err && old(self).uses_heap() {
                let i = choose|i: int|
                    #[trigger] stopped(old(self).children(), self.children(), target as int, i);
                assert(stopped(old(self).children(), self.children(), target as int, i));
            }
            if r is Ok {
                self.union.lemma_stepped_from(old(self).union);
            }
        }
        r
    }

    /// The scorer stands for the same cursor as the union of its children.
    proof fn lemma_cursor(&self)
        ensures
            self.cursor() == self.union.cursor(),
            self.wf() ==> self.union.inv(),
    {
        assert(self.cursor().upcoming =~= self.union.cursor().upcoming);
    }

    /// Where the cost of every child bounds the docs that it has left, the
    /// cost of the disjunction bounds the docs that it has left.
    pub proof fn lemma_within_cost(&self)
        requires
            self.wf(),
            all_within_cost(self.children()),
        ensures
            self.cursor().within_cost(),
    {
        self.lemma_cursor();
        self.union.lemma_within_cost();
    }

    /// The children themselves, in the order in which they were given.
    pub closed spec fn scorers(&self) -> Seq<T> {
        self.union.scorers()
    }

    /// The scores that make up the score of the current doc, which must be
    /// a real doc: those of the children that stand on it, in the order of
    /// the children, and none at all where no scores were asked for. The
    /// score of the doc is the greatest of them plus the tie-breaker's
    /// share of the rest. Nothing moves.
    pub fn score_parts(&mut self) -> (r: Result<Vec<T::Score>, Error>)
        requires
            old(self).wf(),
            0 <= old(self).current() < NO_MORE_DOCS,
        ensures
            r matches Ok(scores) ==> {
                &&& scores@ == if old(self).needs_scores() {
                    scores_at(old(self).scorers(), old(self).current())
                } else {
                    Seq::empty()
                }
                &&& final(self).stepped_from(*old(self))
                &&& final(self).children() == old(self).children()
                &&& scores_at(final(self).scorers(), old(self).current()) == scores_at(
                    old(self).scorers(),
                    old(self).current(),
                )
            },
            r is Err ==> !all_unfailing(old(self).children()),
            !old(self).needs_scores() ==> r is Ok,
    {
        let r = self.union.score_parts();
        proof {
            if r is Ok {
                self.union.lemma_stepped_from(old(self).union);
            }
        }
        r
    }
}

impl<T: Scorer> DisjunctionMaxScorer<T> where T::Score: ScoreValue {
    /// The score of the current doc, which must be a real doc: the greatest
    /// of the scores of the children that stand on it, plus the tie breaker
    /// times the sum of the others; and the score that adds nothing where
    /// no scores were asked for. Nothing moves.
    pub fn score(&mut self) -> (r: Result<T::Score, Error>)
        requires
            old(self).wf(),
            0 <= old(self).current() < NO_MORE_DOCS,
        ensures
            r matches Ok(score) ==> {
                &&& score == old(self).score_spec()
                &&& final(self).score_spec() == old(self).score_spec()
                &&& final(self).stepped_from(*old(self))
                &&& final(self).children() == old(self).children()
            },
            r is Err ==> !all_unfailing(old(self).children()),
            !old(self).needs_scores() ==> r is Ok,
    {
        if !self.union.needs_scores {
            return Ok(T::Score::zero());
        }
        let tie_breaker_multiplier = self.tie_breaker_multiplier;
        let r = self.union.sub_scorers.score_max(tie_breaker_multiplier);
        r
    }
}

impl<T: Scorer> DocIterator for DisjunctionMaxScorer<T> {
    /// A disjunction stands on the least doc of its children and will visit
    /// every later doc that a child reaches.
    open spec fn cursor(&self) -> Cursor {
        Cursor {
            position: self.current(),
            upcoming: Set::new(
                |d: int|
                    self.current() < d < NO_MORE_DOCS && match_count(self.children(), d) >= 1,
            ),
            confirmed: true,
            unfailing: all_unfailing(self.children()),
            cost: self.cost_bound(),
        }
    }

    open spec fn inv(&self) -> bool {
        self.wf()
    }

    fn doc_id(&self) -> (doc: DocId) {
        DisjunctionMaxScorer::doc_id(self)
    }

    fn next(&mut self) -> (r: Result<DocId, Error>) {
        proof {
            self.lemma_cursor();
        }
        let r = DocIterator::next(&mut self.union);
        proof {
            if r is Ok {
                self.union.lemma_stepped_from(old(self).union);
                self.lemma_cursor();
            }
        }
        r
    }

    fn advance(&mut self, target: DocId) -> (r: Result<DocId, Error>) {
        proof {
            self.lemma_cursor();
        }
        let r = DocIterator::advance(&mut self.union, target);
        proof {
            if r is Ok {
                self.union.lemma_stepped_from(old(self).union);
                self.lemma_cursor();
            }
        }
        r
    }

    fn cost(&self) -> (c: usize) {
        DisjunctionMaxScorer::cost(self)
    }

    fn matches(&mut self) -> (r: Result<bool, Error>) {
        DisjunctionMaxScorer::matches(self)
    }

    fn approximate_next(&mut self) -> (r: Result<DocId, Error>) {
        DocIterator::next(self)
    }

    fn approximate_advance(&mut self, target: DocId) -> (r: Result<DocId, Error>) {
        DocIterator::advance(self, target)
    }
}

impl<T: Scorer> Scorer for DisjunctionMaxScorer<T> where T::Score: ScoreValue {
    type Score = T::Score;

    /// The greatest of the scores of the children on the current doc, plus
    /// the tie breaker times the sum of the others; and the score that adds
    /// nothing where no scores were asked for.
    open spec fn score_spec(&self) -> T::Score {
        if self.needs_scores() {
            max_with_ties(
                scores_at(self.scorers(), self.current()),
                self.tie_breaker_multiplier(),
            )
        } else {
            T::Score::zero_spec()
        }
    }

    fn score(&mut self) -> (r: Result<T::Score, Error>) {
        let r = DisjunctionMaxScorer::score(self);
        proof {
            if r is Ok {
                assert(self.cursor().upcoming =~= old(self).cursor().upcoming);
            }
        }
        r
    }
}

/// The children of a small disjunction, kept in a plain list together with
/// the least doc that any of them stands on.
pub struct SimpleQueue<T: DocIterator> {
    scorers: Vec<T>,
    curr_doc: DocId,
}

impl<T: DocIterator> SimpleQueue<T> {
    /// The states of the children, in the order in which they were given.
    pub closed spec fn children(&self) -> Seq<Cursor> {
        cursors(self.scorers@)
    }

    /// The children themselves, in the order in which they were given.
    pub closed spec fn scorers(&self) -> Seq<T> {
        self.scorers@
    }

    /// The doc the queue stands on.
    pub closed spec fn current(&self) -> int {
        self.curr_doc as int
    }

    /// Every child can be moved, and the queue stands on the least of
    /// their positions.
    pub closed spec fn wf(&self) -> bool {
        &&& all_ready(self.scorers@)
        &&& self.curr_doc == lowest_position(self.children())
    }

    /// A queue over `children`, standing on the least of their positions.
    pub fn new(children: Vec<T>) -> (queue: SimpleQueue<T>)
        requires
            all_ready(children@),
        ensures
            queue.wf(),
            queue.scorers() == children@,
            queue.children() == cursors(children@),
            queue.current() == lowest_position(cursors(children@)),
    {
        let mut curr_doc = NO_MORE_DOCS;
        let n = children.len();
        let mut i: usize = 0;
        while i < n
            invariant
                n == children@.len(),
                i <= n,
                all_ready(children@),
                curr_doc == lowest_position(cursors(children@).take(i as int)),
            decreases n - i,
        {
            let doc = children[i].doc_id();
            proof {
                let group = cursors(children@);
                assert(group.take(i + 1).drop_last() =~= group.take(i as int));
                assert(group.take(i + 1).last() == children@[i as int].cursor());
            }
            if doc < curr_doc {
                curr_doc = doc;
            }
            i += 1;
        }
        proof {
            assert(cursors(children@).take(n as int) =~= cursors(children@));
        }
        SimpleQueue { scorers: children, curr_doc }
    }

    /// A queue in order stands on the least position of its children, all
    /// of which are ordered.
    pub proof fn lemma_current_is_lowest(&self)
        requires
            self.wf(),
        ensures
            self.current() == lowest_position(self.children()),
            all_ordered(self.children()),
    {
        lemma_ready_ordered(self.scorers@);
    }

    /// Number of children.
    pub fn len(&self) -> (n: usize)
        ensures
            n == self.children().len(),
    {
        self.scorers.len()
    }

    /// The doc the queue stands on.
    pub fn doc_id(&self) -> (doc: DocId)
        ensures
            doc == self.current(),
    {
        self.curr_doc
    }

    /// Advances every child that is behind `target` to it, and stands on
    /// the least position that results. Children at or beyond `target` are
    /// left alone, so a target that is not ahead of the queue changes
    /// nothing.
    pub fn approximate_advance(&mut self, target: DocId) -> (r: Result<DocId, Error>)
        requires
            old(self).wf(),
        ensures
            r matches Ok(doc) ==> {
                &&& final(self).wf()
                &&& doc == final(self).current()
                &&& doc == lowest_position(final(self).children())
                &&& caught_up(old(self).children(), final(self).children(), target as int)
            },
            r is Err ==> !all_unfailing(old(self).children()),
            r is Err ==> final(self).current() == old(self).current() && advance_failed(
                old(self).children(),
                final(self).children(),
                target as int,
            ),
            old(self).current() >= target ==> r is Ok,
            lowest_position(old(self).children()) >= target ==> r is Ok,
    {
        let mut min_doc = NO_MORE_DOCS;
        let n = self.scorers.len();
        let mut i: usize = 0;
        proof {
            lemma_ready_ordered(self.scorers@);
            lemma_lowest_position(self.children());
        }
        while i < n
            invariant
                n == self.scorers@.len(),
                n == old(self).scorers@.len(),
                i <= n,
                old(self).wf(),
                self.curr_doc == old(self).curr_doc,
                all_ordered(old(self).children()),
                forall|k: int|
                    0 <= k < n ==> old(self).current() <= (#[trigger] old(self).children()[k]).position,
                all_ready(self.scorers@),
                min_doc == lowest_position(cursors(self.scorers@).take(i as int)),
                forall|k: int| i <= k < n ==> self.scorers@[k] == old(self).scorers@[k],
                forall|k: int|
                    0 <= k < i ==> (#[trigger] old(self).scorers@[k]).cursor().advances_to(
                        self.scorers@[k].cursor(),
                        target as int,
                        self.scorers@[k].cursor().position,
                    ),
            decreases n - i,
        {
            let ghost before = self.scorers@;
            assert(crate::search::ready(self.scorers@[i as int]));
            let here = self.scorers[i].doc_id();
            let answer = if here < target {
                self.scorers[i].approximate_advance(target)
            } else {
                Ok(here)
            };
            min_doc = match least_after(min_doc, answer) {
                Err(e) => {
                    proof {
                        assert(!cursors(old(self).scorers@)[i as int].unfailing);
                        self.lemma_halted(*old(self), target as int, i as int);
                    }
                    return Err(e);
                },
                Ok(least) => least,
            };
            proof {
                let group = cursors(self.scorers@);
                assert(group.take(i as int) =~= cursors(before).take(i as int));
                assert(group.take(i + 1).drop_last() =~= group.take(i as int));
                assert(group.take(i + 1).last() == self.scorers@[i as int].cursor());
            }
            i += 1;
        }
        self.curr_doc = min_doc;
        proof {
            assert(cursors(self.scorers@).take(n as int) =~= cursors(self.scorers@));
            assert forall|k: int| 0 <= k < n implies (#[trigger] old(self).children()[k]).advances_to(
                self.children()[k],
                target as int,
                self.children()[k].position,
            ) by {
                assert(old(self).scorers@[k].cursor().advances_to(
                    self.scorers@[k].cursor(),
                    target as int,
                    self.scorers@[k].cursor().position,
                ));
            }
        }
        Ok(self.curr_doc)
    }

    /// Moves every child that stands on the current doc to its next doc,
    /// and stands on the least position that results.
    fn step_standing(&mut self) -> (r: Result<DocId, Error>)
        requires
            old(self).wf(),
            old(self).current() < NO_MORE_DOCS,
        ensures
            r matches Ok(doc) ==> {
                &&& final(self).wf()
                &&& doc == final(self).current()
                &&& caught_up(
                    old(self).children(),
                    final(self).children(),
                    old(self).current() + 1,
                )
            },
            r is Err ==> !all_unfailing(old(self).children()),
            r is Err ==> final(self).current() == old(self).current() && advance_failed(
                old(self).children(),
                final(self).children(),
                old(self).current() + 1,
            ),
    {
        let curr_doc = self.curr_doc;
        let mut min_doc = NO_MORE_DOCS;
        let n = self.scorers.len();
        let mut i: usize = 0;
        proof {
            lemma_ready_ordered(self.scorers@);
            lemma_lowest_position(self.children());
        }
        while i < n
            invariant
                n == self.scorers@.len(),
                n == old(self).scorers@.len(),
                i <= n,
                old(self).wf(),
                self.curr_doc == old(self).curr_doc,
                all_ordered(old(self).children()),
                curr_doc == old(self).current(),
                curr_doc < NO_MORE_DOCS,
                all_ready(self.scorers@),
                min_doc == lowest_position(cursors(self.scorers@).take(i as int)),
                forall|k: int| i <= k < n ==> self.scorers@[k] == old(self).scorers@[k],
                forall|k: int|
                    0 <= k < n ==> curr_doc <= (#[trigger] old(self).children()[k]).position,
                forall|k: int|
                    0 <= k < i ==> (#[trigger] old(self).scorers@[k]).cursor().advances_to(
                        self.scorers@[k].cursor(),
                        curr_doc + 1,
                        self.scorers@[k].cursor().position,
                    ),
            decreases n - i,
        {
            let ghost before = self.scorers@;
            assert(crate::search::ready(self.scorers@[i as int]));
            assert(curr_doc <= old(self).children()[i as int].position);
            let here = self.scorers[i].doc_id();
            let answer = if here == curr_doc {
                self.scorers[i].approximate_next()
            } else {
                Ok(here)
            };
            min_doc = match least_after(min_doc, answer) {
                Err(e) => {
                    proof {
                        assert(!cursors(old(self).scorers@)[i as int].unfailing);
                        self.lemma_halted(*old(self), curr_doc + 1, i as int);
                    }
                    return Err(e);
                },
                Ok(least) => least,
            };
            proof {
                let group = cursors(self.scorers@);
                assert(group.take(i as int) =~= cursors(before).take(i as int));
                assert(group.take(i + 1).drop_last() =~= group.take(i as int));
                assert(group.take(i + 1).last() == self.scorers@[i as int].cursor());
            }
            i += 1;
        }
        self.curr_doc = min_doc;
        proof {
            assert(cursors(self.scorers@).take(n as int) =~= cursors(self.scorers@));
            assert forall|k: int| 0 <= k < n implies (#[trigger] old(self).children()[k]).advances_to(
                self.children()[k],
                curr_doc + 1,
                self.children()[k].position,
            ) by {
                assert(old(self).scorers@[k].cursor().advances_to(
                    self.scorers@[k].cursor(),
                    curr_doc + 1,
                    self.scorers@[k].cursor().position,
                ));
            }
        }
        Ok(self.curr_doc)
    }

    /// A queue in which child `i` failed to advance to `target`, while those
    /// before it have been advanced and those after it are untouched, has
    /// failed to advance as `advance_failed` says.
    proof fn lemma_halted(&self, before: Self, target: int, i: int)
        requires
            all_ordered(before.children()),
            self.scorers@.len() == before.scorers@.len(),
            0 <= i < before.scorers@.len(),
            !before.children()[i].unfailing,
            before.children()[i].position < target,
            forall|k: int| i < k < before.scorers@.len() ==> self.scorers@[k] == before.scorers@[k],
            forall|k: int|
                0 <= k < i ==> (#[trigger] before.scorers@[k]).cursor().advances_to(
                    self.scorers@[k].cursor(),
                    target,
                    self.scorers@[k].cursor().position,
                ),
        ensures
            advance_failed(before.children(), self.children(), target),
    {
        let was = before.children();
        let now = self.children();
        assert forall|k: int| 0 <= k < i implies (#[trigger] was[k]).advances_to(
            now[k],
            target,
            now[k].position,
        ) by {
            assert(before.scorers@[k].cursor().advances_to(
                self.scorers@[k].cursor(),
                target,
                self.scorers@[k].cursor().position,
            ));
        }
        assert forall|k: int| i < k < was.len() implies (#[trigger] was[k]).advances_to(
            now[k],
            -1,
            now[k].position,
        ) by {
            assert(self.scorers@[k] == before.scorers@[k]);
            assert(was[k].ordered());
        }
        assert(halted(was, now, target, -1, i));
    }

    /// Number of children that stand on `doc`.
    fn count_standing(&self, doc: DocId) -> (count: usize)
        requires
            all_ready(self.scorers@),
        ensures
            count == standing_count(self.children(), doc as int),
    {
        let mut count: usize = 0;
        let n = self.scorers.len();
        let mut i: usize = 0;
        while i < n
            invariant
                n == self.scorers@.len(),
                i <= n,
                all_ready(self.scorers@),
                count <= i,
                count == standing_count(cursors(self.scorers@).take(i as int), doc as int),
            decreases n - i,
        {
            proof {
                let group = cursors(self.scorers@);
                assert(group.take(i + 1).drop_last() =~= group.take(i as int));
                assert(group.take(i + 1).last() == self.scorers@[i as int].cursor());
            }
            if self.scorers[i].doc_id() == doc {
                count += 1;
            }
            i += 1;
        }
        proof {
            assert(cursors(self.scorers@).take(n as int) =~= cursors(self.scorers@));
        }
        count
    }

    /// Moves to the first doc beyond the current one on which at least
    /// `min_should_match` children agree (at least one, where that is less
    /// than two), and returns it; `NO_MORE_DOCS` when there is none. Every
    /// child ends up advanced to the doc returned.
    pub fn approximate_next(&mut self, min_should_match: i32) -> (r: Result<DocId, Error>)
        requires
            old(self).wf(),
        ensures
            r matches Ok(doc) ==> {
                &&& final(self).wf()
                &&& doc == final(self).current()
                &&& next_hit(
                    old(self).children(),
                    least_matches(min_should_match),
                    old(self).current(),
                    doc as int,
                )
                &&& caught_up(old(self).children(), final(self).children(), doc as int)
            },
            r is Err ==> !all_unfailing(old(self).children()),
            r is Err ==> next_failed(
                old(self).children(),
                final(self).children(),
                least_matches(min_should_match),
                old(self).current(),
                final(self).current(),
            ),
            old(self).current() == NO_MORE_DOCS ==> r is Ok,
    {
        proof {
            lemma_ready_ordered(self.scorers@);
            lemma_lowest_position(self.children());
            assert forall|k: int| 0 <= k < self.children().len() implies (
            #[trigger] self.children()[k]).advances_to(
                self.children()[k],
                self.current(),
                self.children()[k].position,
            ) by {}
        }
        loop
            invariant
                self.wf(),
                old(self).wf(),
                old(self).current() <= self.current(),
                least_matches(min_should_match) == 1 ==> self.current() == old(self).current(),
                caught_up(old(self).children(), self.children(), self.current()),
                forall|d: int|
                    old(self).current() < d <= self.current() && d < NO_MORE_DOCS ==> match_count(
                        old(self).children(),
                        d,
                    ) < least_matches(min_should_match),
            decreases NO_MORE_DOCS - self.curr_doc,
        {
            if self.curr_doc == NO_MORE_DOCS {
                return Ok(self.curr_doc);
            }
            let ghost round = self.children();
            let ghost round_doc = self.current();
            let moved = self.step_standing();
            if let Err(e) = moved {
                proof {
                    lemma_ready_ordered(old(self).scorers@);
                    assert forall|k: int| 0 <= k < round.len() implies (#[trigger] round[k]).unfailing
                        == old(self).children()[k].unfailing by {
                        assert(old(self).children()[k].advances_to(
                            round[k],
                            round_doc,
                            round[k].position,
                        ));
                    }
                    let k = choose|k: int| 0 <= k < round.len() && !(#[trigger] round[k]).unfailing;
                    assert(!old(self).children()[k].unfailing);
                    assert(all_ordered(round)) by {
                        assert forall|j: int| 0 <= j < round.len() implies (#[trigger] round[j]).ordered() by {
                            assert(old(self).children()[j].advances_to(
                                round[j],
                                round_doc,
                                round[j].position,
                            ));
                        }
                    }
                    let before = old(self).children();
                    let now = self.children();
                    let i = choose|i: int|
                        #[trigger] halted(round, now, round_doc + 1, -1, i) && round[i].position
                            < round_doc + 1;
                    assert forall|j: int| 0 <= j < i implies (#[trigger] before[j]).advances_to(
                        now[j],
                        round_doc + 1,
                        now[j].position,
                    ) by {
                        assert(round[j].advances_to(now[j], round_doc + 1, now[j].position));
                        lemma_advance_twice(before[j], round[j], now[j], round_doc, round_doc + 1);
                    }
                    assert forall|j: int| i < j < before.len() implies (#[trigger] before[j]).advances_to(
                        now[j],
                        round_doc,
                        now[j].position,
                    ) by {
                        assert(round[j].advances_to(now[j], -1, now[j].position));
                        assert(round[j].ordered());
                        assert(before[j].advances_to(round[j], round_doc, round[j].position));
                    }
                    assert(before[i].unfailing == round[i].unfailing) by {
                        assert(before[i].advances_to(round[i], round_doc, round[i].position));
                    }
                    assert(halted(before, now, round_doc + 1, round_doc, i));
                }
                return Err(e);
            }
            proof {
                lemma_ready_ordered(old(self).scorers@);
                lemma_ready_ordered(self.scorers@);
                assert(all_ordered(round)) by {
                    assert forall|k: int| 0 <= k < round.len() implies (#[trigger] round[k]).ordered() by {
                        assert(old(self).children()[k].advances_to(
                            round[k],
                            round_doc,
                            round[k].position,
                        ));
                    }
                }
                lemma_round(round, self.children());
                lemma_caught_up_keeps_matches(old(self).children(), round, round_doc);
                lemma_caught_up_twice(
                    old(self).children(),
                    round,
                    self.children(),
                    round_doc,
                    self.current(),
                );
            }
            if min_should_match > DEFAULT_MIN_SHOULD_MATCH {
                let should_count = self.count_standing(self.curr_doc);
                if should_count < min_should_match as usize {
                    continue ;
                }
            }
            return Ok(self.curr_doc);
        }
    }
}

impl<T: Scorer> SimpleQueue<T> {
    /// The scores of all the children that stand on the current doc, which
    /// must be a real doc, in the order in which the children were given.
    /// No child moves.
    pub fn top_scores(&mut self) -> (r: Result<Vec<T::Score>, Error>)
        requires
            old(self).wf(),
            0 <= old(self).current() < NO_MORE_DOCS,
        ensures
            r matches Ok(scores) ==> {
                &&& scores@ == scores_at(old(self).scorers(), old(self).current())
                &&& scores@ == scores_at(final(self).scorers(), old(self).current())
                &&& final(self).wf()
                &&& final(self).children() == old(self).children()
                &&& final(self).current() == old(self).current()
            },
            r is Err ==> !all_unfailing(old(self).children()),
    {
        let doc = self.curr_doc;
        scores_on(&mut self.scorers, doc)
    }
}

/// How many children must agree on a doc for it to match: the number asked
/// for, and one where less than two are asked for.
pub open spec fn least_matches(min_should_match: i32) -> int {
    if min_should_match > DEFAULT_MIN_SHOULD_MATCH {
        min_should_match as int
    } else {
        1
    }
}

/// The children of a disjunction, in one of two layouts.
pub enum SubScorers<T: DocIterator> {
    /// A plain list that is scanned in full on every move.
    SQ(SimpleQueue<T>),
    /// A heap that moves only the children on the least doc.
    DPQ(DisiPriorityQueue<T>),
}

impl<T: DocIterator> SubScorers<T> {
    /// The states of the children, in the order in which they were given.
    pub open spec fn children(&self) -> Seq<Cursor> {
        match self {
            SubScorers::SQ(sq) => sq.children(),
            SubScorers::DPQ(dpq) => dpq.children(),
        }
    }

    /// The children themselves, in the order in which they were given.
    pub open spec fn scorers(&self) -> Seq<T> {
        match self {
            SubScorers::SQ(sq) => sq.scorers(),
            SubScorers::DPQ(dpq) => dpq.scorers(),
        }
    }

    /// The layout is in order; a heap holds at least one child.
    pub open spec fn wf(&self) -> bool {
        match self {
            SubScorers::SQ(sq) => sq.wf(),
            SubScorers::DPQ(dpq) => dpq.wf() && dpq.children().len() > 0,
        }
    }

    /// How many children must agree on a doc for `approximate_next` to stop
    /// on it. Only the plain list counts them; the heap stops wherever any
    /// child matches.
    pub open spec fn least_matches(&self, min_should_match: Option<i32>) -> int {
        match (self, min_should_match) {
            (SubScorers::SQ(_), Some(m)) => least_matches(m),
            _ => 1,
        }
    }

    /// The doc on which the disjunction says it stands: the doc that the
    /// plain list has recorded, or the least position in the heap. In a
    /// layout in order the two are the same.
    pub open spec fn standing(&self) -> int {
        match self {
            SubScorers::SQ(sq) => sq.current(),
            SubScorers::DPQ(dpq) => lowest_position(dpq.children()),
        }
    }

    /// In a layout in order the disjunction stands on the least position of
    /// its children.
    pub proof fn lemma_standing(&self)
        requires
            self.wf(),
        ensures
            self.standing() == lowest_position(self.children()),
    {
        match self {
            SubScorers::SQ(sq) => sq.lemma_current_is_lowest(),
            SubScorers::DPQ(_) => {},
        }
    }

    /// The doc the disjunction stands on: the least position of a child.
    /// The plain list answers from its record, also after an error.
    pub fn doc_id(&self) -> (doc: DocId)
        requires
            *self is DPQ ==> self.wf(),
        ensures
            doc == self.standing(),
            self.wf() ==> doc == lowest_position(self.children()),
    {
        match self {
            SubScorers::SQ(sq) => {
                proof {
                    if sq.wf() {
                        sq.lemma_current_is_lowest();
                    }
                }
                sq.doc_id()
            },
            SubScorers::DPQ(dbq) => dbq.peek().doc_id(),
        }
    }

    /// Moves to the first doc beyond the current one that enough children
    /// reach, and returns it; `NO_MORE_DOCS` when there is none. Every
    /// child ends up advanced to the doc returned. A disjunction that is
    /// exhausted stays so and reports no error.
    pub fn approximate_next(&mut self, min_should_match: Option<i32>) -> (r: Result<DocId, Error>)
        requires
            old(self).wf(),
        ensures
            r matches Ok(doc) ==> {
                &&& final(self).wf()
                &&& doc == lowest_position(final(self).children())
                &&& next_hit(
                    old(self).children(),
                    old(self).least_matches(min_should_match),
                    lowest_position(old(self).children()),
                    doc as int,
                )
                &&& caught_up(old(self).children(), final(self).children(), doc as int)
            },
            (*final(self) is SQ) == (*old(self) is SQ),
            r is Err ==> !all_unfailing(old(self).children()),
            r is Err && *old(self) is SQ ==> next_failed(
                old(self).children(),
                final(self).children(),
                old(self).least_matches(min_should_match),
                old(self).standing(),
                final(self).standing(),
            ),
            r is Err && *old(self) is DPQ ==> exists|i: int|
                #[trigger] stopped(
                    old(self).children(),
                    final(self).children(),
                    old(self).standing() + 1,
                    i,
                ),
            lowest_position(old(self).children()) == NO_MORE_DOCS ==> r is Ok,
    {
        let ghost before = self.children();
        let r = match self {
            SubScorers::SQ(sq) => {
                let min_should_match = match min_should_match {
                    Some(m) => m,
                    None => DEFAULT_MIN_SHOULD_MATCH,
                };
                proof {
                    sq.lemma_current_is_lowest();
                }
                let r = sq.approximate_next(min_should_match);
                proof {
                    if r is Ok {
                        sq.lemma_current_is_lowest();
                    }
                }
                r
            },
            SubScorers::DPQ(dbq) => next_in_heap(dbq),
        };
        proof {
            if r is Err && *old(self) is DPQ {
                let i = choose|i: int|
                    #[trigger] stopped(before, self.children(), lowest_position(before) + 1, i);
                assert(stopped(before, self.children(), old(self).standing() + 1, i));
            }
        }
        r
    }

    /// Advances every child that is behind `target` to it, and returns the
    /// least position that results: the first doc from `target` on that any
    /// child reaches. A target that is not ahead changes nothing.
    pub fn approximate_advance(&mut self, target: DocId) -> (r: Result<DocId, Error>)
        requires
            old(self).wf(),
        ensures
            r matches Ok(doc) ==> {
                &&& final(self).wf()
                &&& doc == lowest_position(final(self).children())
                &&& caught_up(old(self).children(), final(self).children(), target as int)
            },
            (*final(self) is SQ) == (*old(self) is SQ),
            r is Err ==> !all_unfailing(old(self).children()),
            r is Err && *old(self) is SQ ==> final(self).standing() == old(self).standing()
                && advance_failed(old(self).children(), final(self).children(), target as int),
            r is Err && *old(self) is DPQ ==> exists|i: int|
                #[trigger] stopped(old(self).children(), final(self).children(), target as int, i),
            lowest_position(old(self).children()) >= target ==> r is Ok,
    {
        let ghost before = self.children();
        let r = match self {
            SubScorers::SQ(sq) => {
                proof {
                    sq.lemma_current_is_lowest();
                }
                sq.approximate_advance(target)
            },
            SubScorers::DPQ(dbq) => advance_in_heap(dbq, target),
        };
        proof {
            if r is Err && *old(self) is DPQ {
                let i = choose|i: int| #[trigger] stopped(before, self.children(), target as int, i);
                assert(stopped(before, self.children(), target as int, i));
            }
        }
        r
    }
}

impl<T: Scorer> SubScorers<T> {
    /// The scores of all the children that stand on the current doc, which
    /// must be a real doc, in the order in which the children were given:
    /// what a sum or a maximum of scores is taken over. No child moves.
    pub fn top_scores(&mut self) -> (r: Result<Vec<T::Score>, Error>)
        requires
            old(self).wf(),
            0 <= lowest_position(old(self).children()) < NO_MORE_DOCS,
        ensures
            r matches Ok(scores) ==> {
                &&& scores@ == scores_at(
                    old(self).scorers(),
                    lowest_position(old(self).children()),
                )
                &&& scores@ == scores_at(
                    final(self).scorers(),
                    lowest_position(old(self).children()),
                )
                &&& final(self).wf()
                &&& final(self).children() == old(self).children()
                &&& (*final(self) is SQ) == (*old(self) is SQ)
            },
            r is Err ==> !all_unfailing(old(self).children()),
    {
        match self {
            SubScorers::SQ(sq) => {
                proof {
                    sq.lemma_current_is_lowest();
                }
                sq.top_scores()
            },
            SubScorers::DPQ(dbq) => dbq.top_scores(),
        }
    }
}

impl<T: Scorer> SubScorers<T> where T::Score: ScoreValue {
    /// The sum of the scores of the children that stand on the current
    /// doc, which must be a real doc, added up in the order of the
    /// children. No child moves.
    pub fn score_sum(&mut self) -> (r: Result<T::Score, Error>)
        requires
            old(self).wf(),
            0 <= lowest_position(old(self).children()) < NO_MORE_DOCS,
        ensures
            r matches Ok(score) ==> {
                &&& score == sum_of(
                    scores_at(old(self).scorers(), lowest_position(old(self).children())),
                )
                &&& scores_at(final(self).scorers(), lowest_position(old(self).children()))
                    == scores_at(old(self).scorers(), lowest_position(old(self).children()))
                &&& final(self).wf()
                &&& final(self).children() == old(self).children()
                &&& (*final(self) is SQ) == (*old(self) is SQ)
            },
            r is Err ==> !all_unfailing(old(self).children()),
    {
        match self.top_scores() {
            Err(e) => Err(e),
            Ok(parts) => Ok(sum_scores(&parts)),
        }
    }

    /// The greatest of the scores of the children that stand on the
    /// current doc, which must be a real doc, plus `tie_breaker_multiplier`
    /// times the sum of the other scores. No child moves.
    pub fn score_max(&mut self, tie_breaker_multiplier: T::Score) -> (r: Result<T::Score, Error>)
        requires
            old(self).wf(),
            0 <= lowest_position(old(self).children()) < NO_MORE_DOCS,
        ensures
            r matches Ok(score) ==> {
                &&& score == max_with_ties(
                    scores_at(old(self).scorers(), lowest_position(old(self).children())),
                    tie_breaker_multiplier,
                )
                &&& scores_at(final(self).scorers(), lowest_position(old(self).children()))
                    == scores_at(old(self).scorers(), lowest_position(old(self).children()))
                &&& final(self).wf()
                &&& final(self).children() == old(self).children()
                &&& (*final(self) is SQ) == (*old(self) is SQ)
            },
            r is Err ==> !all_unfailing(old(self).children()),
    {
        match self.top_scores() {
            Err(e) => Err(e),
            Ok(parts) => Ok(max_scores(&parts, tie_breaker_multiplier)),
        }
    }
}

/// The heap form of `SimpleQueue::approximate_next`: moves every cursor that
/// stands on the least doc to its next doc, one at a time from the top of
/// the heap, and returns the least doc that results. An exhausted queue
/// stays where it is.
fn next_in_heap<T: DocIterator>(queue: &mut DisiPriorityQueue<T>) -> (r: Result<DocId, Error>)
    requires
        old(queue).wf(),
        old(queue).children().len() > 0,
    ensures
        r matches Ok(doc) ==> {
            &&& final(queue).wf()
            &&& doc == lowest_position(final(queue).children())
            &&& next_hit(
                old(queue).children(),
                1,
                lowest_position(old(queue).children()),
                doc as int,
            )
            &&& caught_up(old(queue).children(), final(queue).children(), doc as int)
        },
        r is Err ==> !all_unfailing(old(queue).children()),
        r is Err ==> exists|i: int|
            #[trigger] stopped(
                old(queue).children(),
                final(queue).children(),
                lowest_position(old(queue).children()) + 1,
                i,
            ),
        lowest_position(old(queue).children()) == NO_MORE_DOCS ==> r is Ok,
{
    let doc = queue.peek().doc_id();
    proof {
        queue.lemma_children_ordered();
        lemma_lowest_position(queue.children());
    }
    if doc == NO_MORE_DOCS {
        proof {
            assert forall|k: int| 0 <= k < queue.children().len() implies (
            #[trigger] queue.children()[k]).advances_to(
                queue.children()[k],
                doc as int,
                queue.children()[k].position,
            ) by {}
        }
        return Ok(doc);
    }
    let mut top = doc;
    loop
        invariant_except_break
            top == doc,
        invariant
            queue.wf(),
            queue.children().len() == old(queue).children().len(),
            queue.children().len() > 0,
            top == lowest_position(queue.children()),
            all_ordered(old(queue).children()),
            doc == lowest_position(old(queue).children()),
            doc < NO_MORE_DOCS,
            forall|k: int|
                0 <= k < queue.children().len() ==> if (#[trigger] queue.children()[k]).position
                    == doc {
                    queue.children()[k] == old(queue).children()[k]
                } else {
                    old(queue).children()[k].advances_to(
                        queue.children()[k],
                        doc + 1,
                        queue.children()[k].position,
                    )
                },
        ensures
            top != doc,
        decreases standing_count(queue.children(), doc as int),
    {
        let ghost round = queue.children();
        let ghost slot = queue.top_index();
        proof {
            queue.lemma_top_is_lowest();
        }
        let moved = queue.next_top();
        match moved {
            Err(e) => {
                proof {
                    let before = old(queue).children();
                    let now = queue.children();
                    assert(round[slot] == before[slot]);
                    assert forall|k: int| 0 <= k < before.len() && k != slot implies now[k]
                        == #[trigger] before[k] || before[k].advances_to(
                        now[k],
                        doc + 1,
                        now[k].position,
                    ) by {
                        assert(now[k] == round[k]);
                    }
                    assert(stopped(before, now, doc + 1, slot));
                }
                return Err(e);
            },
            Ok(d) => {
                top = d;
            },
        }
        proof {
            let now = queue.children();
            assert(round[slot].moves_to(now[slot], doc + 1, now[slot].position));
            lemma_standing_count_leaves(round, slot, now[slot], doc as int);
            assert forall|k: int| 0 <= k < now.len() implies if (#[trigger] now[k]).position == doc {
                now[k] == old(queue).children()[k]
            } else {
                old(queue).children()[k].advances_to(now[k], doc + 1, now[k].position)
            } by {
                if k == slot {
                    assert(round[k] == old(queue).children()[k]);
                } else {
                    assert(now[k] == round[k]);
                }
            }
        }
        if top != doc {
            break ;
        }
    }
    proof {
        let before = old(queue).children();
        let now = queue.children();
        queue.lemma_children_ordered();
        lemma_lowest_position(now);
        assert(caught_up(before, now, doc + 1)) by {
            assert forall|k: int| 0 <= k < before.len() implies (#[trigger] before[k]).advances_to(
                now[k],
                doc + 1,
                now[k].position,
            ) by {
                assert(now[k].position >= top);
                assert(before[k].position >= doc);
                if now[k].position == doc {
                    assert(false);
                }
            }
        }
        lemma_round(before, now);
    }
    Ok(top)
}

/// The heap form of `SimpleQueue::approximate_advance`: advances the top of
/// the heap to `target` until no cursor is behind it, and returns the least
/// doc that results.
fn advance_in_heap<T: DocIterator>(queue: &mut DisiPriorityQueue<T>, target: DocId) -> (r: Result<
    DocId,
    Error,
>)
    requires
        old(queue).wf(),
        old(queue).children().len() > 0,
    ensures
        r matches Ok(doc) ==> {
            &&& final(queue).wf()
            &&& doc == lowest_position(final(queue).children())
            &&& caught_up(old(queue).children(), final(queue).children(), target as int)
        },
        r is Err ==> !all_unfailing(old(queue).children()),
        r is Err ==> exists|i: int|
            #[trigger] stopped(old(queue).children(), final(queue).children(), target as int, i),
        lowest_position(old(queue).children()) >= target ==> r is Ok,
{
    let mut top = queue.peek().doc_id();
    proof {
        queue.lemma_children_ordered();
    }
    while top < target
        invariant
            queue.wf(),
            queue.children().len() == old(queue).children().len(),
            queue.children().len() > 0,
            top == lowest_position(queue.children()),
            lowest_position(old(queue).children()) < target || top >= target,
            all_ordered(old(queue).children()),
            forall|k: int|
                0 <= k < queue.children().len() ==> if (#[trigger] queue.children()[k]).position
                    < target {
                    queue.children()[k] == old(queue).children()[k]
                } else {
                    old(queue).children()[k].advances_to(
                        queue.children()[k],
                        target as int,
                        queue.children()[k].position,
                    )
                },
        decreases behind_count(queue.children(), target as int),
    {
        let ghost round = queue.children();
        let ghost slot = queue.top_index();
        proof {
            queue.lemma_top_is_lowest();
        }
        let moved = queue.advance_top(target);
        match moved {
            Err(e) => {
                proof {
                    let before = old(queue).children();
                    let now = queue.children();
                    assert(round[slot] == before[slot]);
                    assert forall|k: int| 0 <= k < before.len() && k != slot implies now[k]
                        == #[trigger] before[k] || before[k].advances_to(
                        now[k],
                        target as int,
                        now[k].position,
                    ) by {
                        assert(now[k] == round[k]);
                    }
                    assert(stopped(before, now, target as int, slot));
                }
                return Err(e);
            },
            Ok(d) => {
                top = d;
            },
        }
        proof {
            let now = queue.children();
            assert(round[slot].moves_to(now[slot], target as int, now[slot].position));
            lemma_behind_count_leaves(round, slot, now[slot], target as int);
            assert forall|k: int| 0 <= k < now.len() implies if (#[trigger] now[k]).position
                < target {
                now[k] == old(queue).children()[k]
            } else {
                old(queue).children()[k].advances_to(now[k], target as int, now[k].position)
            } by {
                if k == slot {
                    assert(round[k] == old(queue).children()[k]);
                } else {
                    assert(now[k] == round[k]);
                }
            }
        }
    }
    proof {
        let before = old(queue).children();
        let now = queue.children();
        queue.lemma_children_ordered();
        lemma_lowest_position(now);
        assert forall|k: int| 0 <= k < before.len() implies (#[trigger] before[k]).advances_to(
            now[k],
            target as int,
            now[k].position,
        ) by {
            assert(now[k].position >= top);
        }
    }
    Ok(top)
}

/// The states of cursors that are ready are ordered.
pub proof fn lemma_ready_ordered<T: DocIterator>(children: Seq<T>)
    requires
        all_ready(children),
    ensures
        all_ordered(cursors(children)),
{
    assert forall|i: int| 0 <= i < children.len() implies (#[trigger] cursors(children)[i]).ordered() by {
        assert(crate::search::ready(children[i]));
    }
}

} // verus!
