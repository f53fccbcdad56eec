//! Scorers that combine child cursors, and the mathematics of a group of
//! cursors that move in step.

use vstd::prelude::*;

pub mod conjunction_scorer;
pub mod disjunction_scorer;

use crate::error::Error;
use crate::search::{Cursor, DocIterator, NO_MORE_DOCS};
use crate::util::string_util::{decimal, decimal_text};
use crate::util::DocId;

verus! {

/// A cursor that can say how well the doc it stands on matches.
///
/// What a score is, and how scores combine, is left to the caller: this
/// library only carries them.
pub trait Scorer: DocIterator {
    /// The kind of value that scores are.
    type Score;

    /// The score of the doc that the cursor stands on.
    spec fn score_spec(&self) -> Self::Score;

    /// The score of the doc that the cursor stands on, which must be a real
    /// doc. The cursor stays where it is.
    fn score(&mut self) -> (r: Result<Self::Score, Error>)
        requires
            old(self).inv(),
            old(self).cursor().ordered(),
            0 <= old(self).cursor().position < NO_MORE_DOCS,
        ensures
            r matches Ok(s) ==> s == old(self).score_spec() && final(self).inv() && final(
                self).cursor() == old(self).cursor() && final(self).score_spec() == old(
                self).score_spec(),
            r is Err ==> !old(self).cursor().unfailing,
    ;
}

/// How a score is shown to a reader, as the model knows it.
pub struct ScoreText {
    /// The characters of the text.
    pub chars: Seq<char>,
}

/// What scores must offer to be combined. The library adds, compares and
/// scales scores through these operations only, so that it works alike for
/// counts and for floating-point relevance.
pub trait ScoreValue: Sized + Copy {
    /// The score that adds nothing.
    spec fn zero_spec() -> Self;

    /// A score that no score lies below: where a maximum starts.
    spec fn lowest_spec() -> Self;

    /// The sum of two scores.
    spec fn plus_spec(self, other: Self) -> Self;

    /// The difference of two scores.
    spec fn minus_spec(self, other: Self) -> Self;

    /// The product of two scores.
    spec fn times_spec(self, other: Self) -> Self;

    /// The greater of two scores.
    spec fn greater_spec(self, other: Self) -> Self;

    /// The score as it is shown to a reader.
    spec fn text_spec(self) -> ScoreText;

    /// The score that adds nothing.
    fn zero() -> (s: Self)
        ensures
            s == Self::zero_spec(),
    ;

    /// A score that no score lies below.
    fn lowest() -> (s: Self)
        ensures
            s == Self::lowest_spec(),
    ;

    /// The sum of two scores.
    fn plus(self, other: Self) -> (s: Self)
        ensures
            s == self.plus_spec(other),
    ;

    /// The difference of two scores.
    fn minus(self, other: Self) -> (s: Self)
        ensures
            s == self.minus_spec(other),
    ;

    /// The product of two scores.
    fn times(self, other: Self) -> (s: Self)
        ensures
            s == self.times_spec(other),
    ;

    /// The greater of two scores.
    fn greater(self, other: Self) -> (s: Self)
        ensures
            s == self.greater_spec(other),
    ;

    /// The score as it is shown to a reader.
    fn to_text(self) -> (text: String)
        ensures
            text@ == self.text_spec().chars,
    ;
}

/// Counts as scores: they add and multiply up to the greatest count and
/// stay there, and a difference stops at zero.
impl ScoreValue for u32 {
    open spec fn zero_spec() -> u32 {
        0
    }

    open spec fn lowest_spec() -> u32 {
        0
    }

    open spec fn plus_spec(self, other: u32) -> u32 {
        if self + other > u32::MAX {
            u32::MAX
        } else {
            (self + other) as u32
        }
    }

    open spec fn minus_spec(self, other: u32) -> u32 {
        if self < other {
            0
        } else {
            (self - other) as u32
        }
    }

    open spec fn times_spec(self, other: u32) -> u32 {
        if self * other > u32::MAX {
            u32::MAX
        } else {
            (self * other) as u32
        }
    }

    open spec fn greater_spec(self, other: u32) -> u32 {
        if self < other {
            other
        } else {
            self
        }
    }

    open spec fn text_spec(self) -> ScoreText {
        ScoreText { chars: decimal_text(self as int) }
    }

    fn zero() -> (s: u32) {
        0
    }

    fn lowest() -> (s: u32) {
        0
    }

    fn plus(self, other: u32) -> (s: u32) {
        if other > u32::MAX - self {
            u32::MAX
        } else {
            self + other
        }
    }

    fn minus(self, other: u32) -> (s: u32) {
        if self < other {
            0
        } else {
            self - other
        }
    }

    fn times(self, other: u32) -> (s: u32) {
        assert(self * other <= 0xffff_ffff * 0xffff_ffff) by (nonlinear_arith)
            requires
                0 <= self <= 0xffff_ffff,
                0 <= other <= 0xffff_ffff,
        ;
        let product: u64 = (self as u64) * (other as u64);
        if product > 0xffff_ffff {
            u32::MAX
        } else {
            product as u32
        }
    }

    fn greater(self, other: u32) -> (s: u32) {
        if self < other {
            other
        } else {
            self
        }
    }

    fn to_text(self) -> (text: String) {
        decimal(self as i64)
    }
}

/// The sum of `parts`, added up from the first.
pub open spec fn sum_of<S: ScoreValue>(parts: Seq<S>) -> S
    decreases parts.len(),
{
    if parts.len() == 0 {
        S::zero_spec()
    } else {
        sum_of(parts.drop_last()).plus_spec(parts.last())
    }
}

/// The greatest of `parts`, and the lowest score where there is none.
pub open spec fn greatest_of<S: ScoreValue>(parts: Seq<S>) -> S
    decreases parts.len(),
{
    if parts.len() == 0 {
        S::lowest_spec()
    } else {
        greatest_of(parts.drop_last()).greater_spec(parts.last())
    }
}

/// The score of a disjunction-max query over `parts`: the greatest of
/// them, plus `tie_breaker` times the sum of the others, which is the sum
/// of all less the greatest.
pub open spec fn max_with_ties<S: ScoreValue>(parts: Seq<S>, tie_breaker: S) -> S {
    greatest_of(parts).plus_spec(
        sum_of(parts).minus_spec(greatest_of(parts)).times_spec(tie_breaker),
    )
}

/// The scores of the cursors of `children` that stand on `doc`, in the
/// order of the children.
pub open spec fn scores_at<T: Scorer>(children: Seq<T>, doc: int) -> Seq<T::Score>
    decreases children.len(),
{
    if children.len() == 0 {
        Seq::empty()
    } else if children.last().cursor().position == doc {
        scores_at(children.drop_last(), doc).push(children.last().score_spec())
    } else {
        scores_at(children.drop_last(), doc)
    }
}

/// A single score on a doc is the score of the doc, whatever the tie
/// breaker, for scores of which the usual laws hold: adding zero changes
/// nothing, the lowest score is not above the score, the score less itself
/// is zero, and zero times the tie breaker is zero.
pub proof fn lemma_single_score<S: ScoreValue>(score: S, tie_breaker: S)
    requires
        S::zero_spec().plus_spec(score) == score,
        score.plus_spec(S::zero_spec()) == score,
        S::lowest_spec().greater_spec(score) == score,
        score.minus_spec(score) == S::zero_spec(),
        S::zero_spec().times_spec(tie_breaker) == S::zero_spec(),
    ensures
        max_with_ties(seq![score], tie_breaker) == score,
{
    let parts = seq![score];
    assert(parts.drop_last() =~= Seq::<S>::empty());
    assert(sum_of(parts.drop_last()) == S::zero_spec());
    assert(greatest_of(parts.drop_last()) == S::lowest_spec());
    assert(sum_of(parts) == score);
    assert(greatest_of(parts) == score);
}

/// With a tie breaker of zero the score of a doc is the greatest score on
/// it, for scores of which the usual laws hold: what is left beside the
/// greatest, times zero, is zero, and adding zero to the greatest changes
/// nothing.
pub proof fn lemma_no_tie_breaker<S: ScoreValue>(parts: Seq<S>)
    requires
        sum_of(parts).minus_spec(greatest_of(parts)).times_spec(S::zero_spec())
            == S::zero_spec(),
        greatest_of(parts).plus_spec(S::zero_spec()) == greatest_of(parts),
    ensures
        max_with_ties(parts, S::zero_spec()) == greatest_of(parts),
{
}

/// For counts, a single score on a doc is the score of the doc, and with a
/// tie breaker of zero the score of a doc is the greatest count on it.
pub proof fn lemma_counts_greatest(parts: Seq<u32>, score: u32, tie_breaker: u32)
    ensures
        max_with_ties(seq![score], tie_breaker) == score,
        max_with_ties(parts, 0u32) == greatest_of(parts),
{
    assert(0u32.times_spec(tie_breaker) == 0u32) by (nonlinear_arith);
    lemma_single_score(score, tie_breaker);
    let rest = sum_of(parts).minus_spec(greatest_of(parts));
    assert(rest.times_spec(0u32) == 0u32) by (nonlinear_arith);
    lemma_no_tie_breaker(parts);
}

/// Adds up `parts` from the first.
pub fn sum_scores<S: ScoreValue>(parts: &Vec<S>) -> (score: S)
    ensures
        score == sum_of(parts@),
{
    let mut score = S::zero();
    let n = parts.len();
    let mut i: usize = 0;
    while i < n
        invariant
            n == parts@.len(),
            i <= n,
            score == sum_of(parts@.take(i as int)),
        decreases n - i,
    {
        proof {
            assert(parts@.take(i + 1).drop_last() =~= parts@.take(i as int));
        }
        score = score.plus(parts[i]);
        i += 1;
    }
    proof {
        assert(parts@.take(n as int) =~= parts@);
    }
    score
}

/// The greatest of `parts`, plus `tie_breaker_multiplier` times the sum of
/// the others.
pub fn max_scores<S: ScoreValue>(parts: &Vec<S>, tie_breaker_multiplier: S) -> (score: S)
    ensures
        score == max_with_ties(parts@, tie_breaker_multiplier),
{
    let mut score_sum = S::zero();
    let mut score_max = S::lowest();
    let n = parts.len();
    let mut i: usize = 0;
    while i < n
        invariant
            n == parts@.len(),
            i <= n,
            score_sum == sum_of(parts@.take(i as int)),
            score_max == greatest_of(parts@.take(i as int)),
        decreases n - i,
    {
        proof {
            assert(parts@.take(i + 1).drop_last() =~= parts@.take(i as int));
        }
        let sub_score = parts[i];
        score_sum = score_sum.plus(sub_score);
        score_max = score_max.greater(sub_score);
        i += 1;
    }
    proof {
        assert(parts@.take(n as int) =~= parts@);
    }
    score_max.plus(score_sum.minus(score_max).times(tie_breaker_multiplier))
}

/// Asks every scorer that stands on `doc` for its score and returns the
/// scores in the order of the scorers. No scorer moves.
pub fn scores_on<T: Scorer>(scorers: &mut Vec<T>, doc: DocId) -> (r: Result<Vec<T::Score>, Error>)
    requires
        all_ready(old(scorers)@),
        0 <= doc < NO_MORE_DOCS,
    ensures
        r matches Ok(scores) ==> {
            &&& scores@ == scores_at(old(scorers)@, doc as int)
            &&& scores@ == scores_at(final(scorers)@, doc as int)
            &&& all_ready(final(scorers)@)
            &&& cursors(final(scorers)@) == cursors(old(scorers)@)
        },
        r is Err ==> !all_unfailing(cursors(old(scorers)@)),
{
    let mut scores: Vec<T::Score> = Vec::new();
    let n = scorers.len();
    let mut i: usize = 0;
    while i < n
        invariant
            n == scorers@.len(),
            n == old(scorers)@.len(),
            i <= n,
            0 <= doc < NO_MORE_DOCS,
            all_ready(scorers@),
            scores@ == scores_at(old(scorers)@.take(i as int), doc as int),
            forall|k: int| i <= k < n ==> scorers@[k] == old(scorers)@[k],
            forall|k: int|
                0 <= k < n ==> (#[trigger] scorers@[k]).cursor() == old(scorers)@[k].cursor()
                    && scorers@[k].score_spec() == old(scorers)@[k].score_spec(),
        decreases n - i,
    {
        assert(crate::search::ready(scorers@[i as int]));
        proof {
            let before = old(scorers)@;
            assert(before.take(i + 1).drop_last() =~= before.take(i as int));
            assert(before.take(i + 1).last() == before[i as int]);
        }
        if scorers[i].doc_id() == doc {
            match scorers[i].score() {
                Err(e) => {
                    proof {
                        assert(!cursors(old(scorers)@)[i as int].unfailing);
                    }
                    return Err(e);
                },
                Ok(s) => {
                    scores.push(s);
                },
            }
        }
        i += 1;
    }
    proof {
        assert(old(scorers)@.take(n as int) =~= old(scorers)@);
        assert(cursors(scorers@) =~= cursors(old(scorers)@));
        lemma_scores_at_pointwise(scorers@, old(scorers)@, doc as int);
    }
    Ok(scores)
}

/// The states of the cursors in `children`, in the same order.
pub open spec fn cursors<T: DocIterator>(children: Seq<T>) -> Seq<Cursor> {
    children.map_values(|c: T| c.cursor())
}

/// Every cursor of `children` can be moved.
pub open spec fn all_ready<T: DocIterator>(children: Seq<T>) -> bool {
    forall|i: int| 0 <= i < children.len() ==> crate::search::ready(#[trigger] children[i])
}

/// Every state in `group` is `ordered`.
pub open spec fn all_ordered(group: Seq<Cursor>) -> bool {
    forall|i: int| 0 <= i < group.len() ==> (#[trigger] group[i]).ordered()
}

/// Every cursor of `group` confirms the doc on which it stands.
pub open spec fn all_confirmed(group: Seq<Cursor>) -> bool {
    forall|i: int| 0 <= i < group.len() ==> (#[trigger] group[i]).confirmed
}

/// No cursor of `group` can report an error.
pub open spec fn all_unfailing(group: Seq<Cursor>) -> bool {
    forall|i: int| 0 <= i < group.len() ==> (#[trigger] group[i]).unfailing
}

/// The least position in `group`, and the sentinel for an empty group.
pub open spec fn lowest_position(group: Seq<Cursor>) -> int
    decreases group.len(),
{
    if group.len() == 0 {
        NO_MORE_DOCS as int
    } else {
        let rest = lowest_position(group.drop_last());
        if group.last().position < rest {
            group.last().position
        } else {
            rest
        }
    }
}

/// How many cursors of `group` stand on `doc` or will still visit it.
pub open spec fn match_count(group: Seq<Cursor>, doc: int) -> nat
    decreases group.len(),
{
    if group.len() == 0 {
        0
    } else {
        match_count(group.drop_last(), doc) + if group.last().reaches(doc) {
            1nat
        } else {
            0nat
        }
    }
}

/// How many cursors of `group` stand on `doc`.
pub open spec fn standing_count(group: Seq<Cursor>, doc: int) -> nat
    decreases group.len(),
{
    if group.len() == 0 {
        0
    } else {
        standing_count(group.drop_last(), doc) + if group.last().position == doc {
            1nat
        } else {
            0nat
        }
    }
}

/// The sum of the cost bounds of `group`.
pub open spec fn total_cost(group: Seq<Cursor>) -> nat
    decreases group.len(),
{
    if group.len() == 0 {
        0
    } else {
        total_cost(group.drop_last()) + group.last().cost
    }
}

/// `doc` is the first doc beyond `after` that at least `least` cursors of
/// `group` reach, or the sentinel when no doc beyond `after` has that many.
pub open spec fn next_hit(group: Seq<Cursor>, least: int, after: int, doc: int) -> bool {
    &&& after < doc <= NO_MORE_DOCS || after == doc == NO_MORE_DOCS
    &&& doc == NO_MORE_DOCS || match_count(group, doc) >= least
    &&& forall|d: int| after < d < doc ==> match_count(group, d) < least
}

/// `after` has, for every real doc from `from` on, as many cursors that
/// reach it as `before` has: moving the group lost no match at or beyond
/// `from`.
pub open spec fn same_matches_from(before: Seq<Cursor>, after: Seq<Cursor>, from: int) -> bool {
    forall|d: int| from <= d < NO_MORE_DOCS ==> match_count(after, d) == match_count(before, d)
}

/// Every cursor of `after` is the cursor of `before` in the same place,
/// advanced to `target`: left alone where it stood at or beyond `target`,
/// and moved onto its first upcoming doc from `target` on otherwise.
pub open spec fn caught_up(before: Seq<Cursor>, after: Seq<Cursor>, target: int) -> bool {
    &&& after.len() == before.len()
    &&& forall|i: int|
        0 <= i < before.len() ==> (#[trigger] before[i]).advances_to(
            after[i],
            target,
            after[i].position,
        )
}

/// How many cursors of `group` stand before `target`.
pub open spec fn behind_count(group: Seq<Cursor>, target: int) -> nat
    decreases group.len(),
{
    if group.len() == 0 {
        0
    } else {
        behind_count(group.drop_last(), target) + if group.last().position < target {
            1nat
        } else {
            0nat
        }
    }
}

/// The cost of every cursor of `group` bounds the docs that it has left.
pub open spec fn all_within_cost(group: Seq<Cursor>) -> bool {
    forall|i: int| 0 <= i < group.len() ==> (#[trigger] group[i]).within_cost()
}

/// The real docs beyond `after` that some cursor of `group` reaches.
pub open spec fn reached_beyond(group: Seq<Cursor>, after: int) -> Set<int> {
    Set::new(|d: int| after < d < NO_MORE_DOCS && match_count(group, d) >= 1)
}

/// How many cursors of `group` stand on a real doc that is not beyond
/// `after`.
pub open spec fn standing_back(group: Seq<Cursor>, after: int) -> nat
    decreases group.len(),
{
    if group.len() == 0 {
        0
    } else {
        standing_back(group.drop_last(), after) + if group.last().on_doc()
            && group.last().position <= after {
            1nat
        } else {
            0nat
        }
    }
}

/// What is left of a group in which child `i` failed while the children
/// were moved in their order: the child could fail, the children before it
/// have been advanced to `done`, and those after it to `rest` (which, where
/// `rest` is not ahead of them, is to say that they are as they were).
pub open spec fn halted(before: Seq<Cursor>, after: Seq<Cursor>, done: int, rest: int, i: int) -> bool {
    &&& after.len() == before.len()
    &&& 0 <= i < before.len()
    &&& !before[i].unfailing
    &&& forall|k: int|
        0 <= k < i ==> (#[trigger] before[k]).advances_to(after[k], done, after[k].position)
    &&& forall|k: int|
        i < k < before.len() ==> (#[trigger] before[k]).advances_to(
            after[k],
            rest,
            after[k].position,
        )
}

/// What is left of a group in which child `i` failed while the children
/// behind `target` were advanced to it in some order: the child could fail
/// and was behind `target`, and every other child is as it was or has been
/// advanced to `target`.
pub open spec fn stopped(before: Seq<Cursor>, after: Seq<Cursor>, target: int, i: int) -> bool {
    &&& after.len() == before.len()
    &&& 0 <= i < before.len()
    &&& !before[i].unfailing
    &&& before[i].position < target
    &&& forall|k: int|
        0 <= k < before.len() && k != i ==> after[k] == #[trigger] before[k]
            || before[k].advances_to(after[k], target, after[k].position)
}

/// How a move to the next match ends in an error: the group had gone from
/// `start` to `reached` without passing a doc that `least` children match,
/// and a child failed while those on `reached` were moved on. Where one
/// match is enough, the group still stands where it started.
pub open spec fn next_failed(
    before: Seq<Cursor>,
    after: Seq<Cursor>,
    least: int,
    start: int,
    reached: int,
) -> bool {
    &&& start <= reached
    &&& least == 1 ==> reached == start
    &&& forall|d: int|
        start < d <= reached && d < NO_MORE_DOCS ==> match_count(before, d) < least
    &&& exists|i: int| #[trigger] halted(before, after, reached + 1, reached, i)
}

/// How an advance to `target` ends in an error: a child that was behind
/// `target` failed, those before it have been advanced to `target`, and
/// those after it are as they were.
pub open spec fn advance_failed(before: Seq<Cursor>, after: Seq<Cursor>, target: int) -> bool {
    exists|i: int| #[trigger] halted(before, after, target, -1, i) && before[i].position < target
}

/// The least position after a child was asked to move: the lesser of
/// `least` and the doc on which the child stands now. Where the child
/// failed, its error is handed on as it came.
pub fn least_after(least: DocId, answer: Result<DocId, Error>) -> (r: Result<DocId, Error>)
    ensures
        answer matches Ok(doc) ==> r == Ok::<DocId, Error>(
            if doc < least {
                doc
            } else {
                least
            },
        ),
        answer matches Err(e) ==> r == Err::<DocId, Error>(e),
{
    match answer {
        Ok(doc) => if doc < least {
            Ok(doc)
        } else {
            Ok(least)
        },
        Err(e) => Err(e),
    }
}

/// The least position is below or at every position, and is the sentinel or
/// the position of some cursor.
pub proof fn lemma_lowest_position(group: Seq<Cursor>)
    requires
        all_ordered(group),
    ensures
        -1 <= lowest_position(group) <= NO_MORE_DOCS,
        forall|i: int| 0 <= i < group.len() ==> lowest_position(group) <= (#[trigger] group[i]).position,
        lowest_position(group) == NO_MORE_DOCS || exists|i: int|
            0 <= i < group.len() && (#[trigger] group[i]).position == lowest_position(group),
    decreases group.len(),
{
    if group.len() > 0 {
        let front = group.drop_last();
        assert forall|i: int| 0 <= i < front.len() implies (#[trigger] front[i]).ordered() by {
            assert(front[i] == group[i]);
        }
        lemma_lowest_position(front);
        let low = lowest_position(group);
        assert(group.last() == group[group.len() - 1]);
        assert forall|i: int| 0 <= i < group.len() implies low <= (#[trigger] group[i]).position by {
            if i < front.len() {
                assert(front[i] == group[i]);
            }
        }
        if low != NO_MORE_DOCS {
            if low == group.last().position {
                assert(group[group.len() - 1].position == low);
            } else {
                let i = choose|i: int|
                    0 <= i < front.len() && (#[trigger] front[i]).position == lowest_position(front);
                assert(group[i] == front[i]);
            }
        }
    }
}

/// Two groups whose cursors agree, one by one, on whether they reach `doc`
/// have the same number of matches for it.
pub proof fn lemma_match_count_pointwise(a: Seq<Cursor>, b: Seq<Cursor>, doc: int)
    requires
        a.len() == b.len(),
        forall|i: int| 0 <= i < a.len() ==> (#[trigger] a[i]).reaches(doc) == b[i].reaches(doc),
    ensures
        match_count(a, doc) == match_count(b, doc),
    decreases a.len(),
{
    if a.len() > 0 {
        let fa = a.drop_last();
        let fb = b.drop_last();
        assert forall|i: int| 0 <= i < fa.len() implies (#[trigger] fa[i]).reaches(doc)
            == fb[i].reaches(doc) by {
            assert(fa[i] == a[i]);
            assert(fb[i] == b[i]);
        }
        lemma_match_count_pointwise(fa, fb, doc);
        assert(a.last() == a[a.len() - 1]);
        assert(b.last() == b[b.len() - 1]);
    }
}

/// The number of matches is the number of cursors, at most; it is zero
/// exactly when no cursor reaches the doc.
pub proof fn lemma_match_count_bounds(group: Seq<Cursor>, doc: int)
    ensures
        match_count(group, doc) <= group.len(),
        match_count(group, doc) == 0 <==> forall|i: int|
            0 <= i < group.len() ==> !(#[trigger] group[i]).reaches(doc),
    decreases group.len(),
{
    if group.len() > 0 {
        let front = group.drop_last();
        lemma_match_count_bounds(front, doc);
        assert(group.last() == group[group.len() - 1]);
        if match_count(group, doc) == 0 {
            assert forall|i: int| 0 <= i < group.len() implies !(#[trigger] group[i]).reaches(
                doc,
            ) by {
                if i < front.len() {
                    assert(front[i] == group[i]);
                }
            }
        } else {
            if match_count(front, doc) != 0 {
                let i = choose|i: int| 0 <= i < front.len() && (#[trigger] front[i]).reaches(doc);
                assert(front[i] == group[i]);
            }
        }
    }
}

/// Every cursor reaches the doc exactly when as many reach it as there are.
pub proof fn lemma_match_count_full(group: Seq<Cursor>, doc: int)
    ensures
        match_count(group, doc) == group.len() <==> forall|i: int|
            0 <= i < group.len() ==> (#[trigger] group[i]).reaches(doc),
    decreases group.len(),
{
    if group.len() > 0 {
        let front = group.drop_last();
        lemma_match_count_full(front, doc);
        lemma_match_count_bounds(front, doc);
        assert(group.last() == group[group.len() - 1]);
        assert forall|i: int| 0 <= i < front.len() implies front[i] == group[i] by {}
        if match_count(group, doc) == group.len() {
            assert forall|i: int| 0 <= i < group.len() implies (#[trigger] group[i]).reaches(
                doc,
            ) by {
                if i < front.len() {
                    assert(front[i].reaches(doc));
                }
            }
        }
        if forall|i: int| 0 <= i < group.len() ==> (#[trigger] group[i]).reaches(doc) {
            assert forall|i: int| 0 <= i < front.len() implies (#[trigger] front[i]).reaches(
                doc,
            ) by {
                assert(group[i].reaches(doc));
            }
        }
    }
}

/// Where no cursor has `doc` still to come, the cursors that reach `doc`
/// are those that stand on it.
pub proof fn lemma_match_count_standing(group: Seq<Cursor>, doc: int)
    requires
        forall|i: int| 0 <= i < group.len() ==> !(#[trigger] group[i]).upcoming.contains(doc),
    ensures
        match_count(group, doc) == standing_count(group, doc),
    decreases group.len(),
{
    if group.len() > 0 {
        let front = group.drop_last();
        assert forall|i: int| 0 <= i < front.len() implies !(#[trigger] front[i]).upcoming.contains(
            doc,
        ) by {
            assert(front[i] == group[i]);
        }
        lemma_match_count_standing(front, doc);
        assert(group.last() == group[group.len() - 1]);
    }
}

/// Replacing one cursor that stands on `doc` by one that does not takes one
/// off the number of cursors that stand on `doc`.
pub proof fn lemma_standing_count_leaves(group: Seq<Cursor>, i: int, moved: Cursor, doc: int)
    requires
        0 <= i < group.len(),
        group[i].position == doc,
        moved.position != doc,
    ensures
        standing_count(group.update(i, moved), doc) + 1 == standing_count(group, doc),
    decreases group.len(),
{
    let changed = group.update(i, moved);
    if i == group.len() - 1 {
        assert(changed.drop_last() =~= group.drop_last());
    } else {
        assert(changed.drop_last() =~= group.drop_last().update(i, moved));
        lemma_standing_count_leaves(group.drop_last(), i, moved, doc);
    }
}

/// Replacing one cursor that stands before `target` by one that does not
/// takes one off the number of cursors that stand before `target`.
pub proof fn lemma_behind_count_leaves(group: Seq<Cursor>, i: int, moved: Cursor, target: int)
    requires
        0 <= i < group.len(),
        group[i].position < target,
        moved.position >= target,
    ensures
        behind_count(group.update(i, moved), target) + 1 == behind_count(group, target),
    decreases group.len(),
{
    let changed = group.update(i, moved);
    if i == group.len() - 1 {
        assert(changed.drop_last() =~= group.drop_last());
    } else {
        assert(changed.drop_last() =~= group.drop_last().update(i, moved));
        lemma_behind_count_leaves(group.drop_last(), i, moved, target);
    }
}

/// A cursor that was advanced to `target` reaches the same real docs from
/// `target` on as before.
pub proof fn lemma_advance_keeps_reach(before: Cursor, after: Cursor, target: int, doc: int)
    requires
        before.ordered(),
        before.advances_to(after, target, after.position),
        target <= doc < NO_MORE_DOCS,
    ensures
        after.reaches(doc) == before.reaches(doc),
{
}

/// A cursor that was advanced to a target counts as advanced to any later
/// target that it has not passed.
pub proof fn lemma_advance_further(before: Cursor, after: Cursor, target: int, later: int)
    requires
        before.ordered(),
        before.advances_to(after, target, after.position),
        target <= later <= after.position,
    ensures
        before.advances_to(after, later, after.position),
{
}

/// Advancing a cursor to `first` and then to a later `second` is advancing
/// it to `second`.
pub proof fn lemma_advance_twice(a: Cursor, b: Cursor, c: Cursor, first: int, second: int)
    requires
        a.ordered(),
        first <= second,
        a.advances_to(b, first, b.position),
        b.advances_to(c, second, c.position),
    ensures
        a.advances_to(c, second, c.position),
{
}

/// Catching up to `first` and then to a later `second` is catching up to
/// `second`.
pub proof fn lemma_caught_up_twice(
    a: Seq<Cursor>,
    b: Seq<Cursor>,
    c: Seq<Cursor>,
    first: int,
    second: int,
)
    requires
        all_ordered(a),
        first <= second,
        caught_up(a, b, first),
        caught_up(b, c, second),
    ensures
        caught_up(a, c, second),
{
    assert forall|i: int| 0 <= i < a.len() implies (#[trigger] a[i]).advances_to(
        c[i],
        second,
        c[i].position,
    ) by {
        assert(b[i].advances_to(c[i], second, c[i].position));
        lemma_advance_twice(a[i], b[i], c[i], first, second);
    }
}

/// A group that caught up to `target` has lost no match at or beyond it.
pub proof fn lemma_caught_up_keeps_matches(before: Seq<Cursor>, after: Seq<Cursor>, target: int)
    requires
        all_ordered(before),
        caught_up(before, after, target),
    ensures
        same_matches_from(before, after, target),
{
    assert forall|d: int| target <= d < NO_MORE_DOCS implies match_count(after, d) == match_count(
        before,
        d,
    ) by {
        assert forall|i: int| 0 <= i < after.len() implies (#[trigger] after[i]).reaches(d)
            == before[i].reaches(d) by {
            assert(before[i].advances_to(after[i], target, after[i].position));
            lemma_advance_keeps_reach(before[i], after[i], target, d);
        }
        lemma_match_count_pointwise(after, before, d);
    }
}

/// No cursor reaches a doc below the least position.
pub proof fn lemma_nothing_below_lowest(group: Seq<Cursor>, doc: int)
    requires
        all_ordered(group),
        doc < lowest_position(group),
    ensures
        match_count(group, doc) == 0,
{
    lemma_lowest_position(group);
    lemma_match_count_bounds(group, doc);
    assert forall|i: int| 0 <= i < group.len() implies !(#[trigger] group[i]).reaches(doc) by {
        assert(group[i].ordered());
    }
}

/// At the least position the cursors that match are those that stand
/// there, and unless it is the sentinel there is at least one.
pub proof fn lemma_matches_at_lowest(group: Seq<Cursor>)
    requires
        all_ordered(group),
    ensures
        match_count(group, lowest_position(group)) == standing_count(
            group,
            lowest_position(group),
        ),
        lowest_position(group) != NO_MORE_DOCS ==> match_count(group, lowest_position(group)) >= 1,
{
    let low = lowest_position(group);
    lemma_lowest_position(group);
    assert forall|i: int| 0 <= i < group.len() implies !(#[trigger] group[i]).upcoming.contains(
        low,
    ) by {
        assert(group[i].ordered());
    }
    lemma_match_count_standing(group, low);
    lemma_match_count_bounds(group, low);
}

/// The cost of a prefix is no more than the cost of the whole group.
pub proof fn lemma_total_cost_prefix(group: Seq<Cursor>, n: int)
    requires
        0 <= n <= group.len(),
    ensures
        total_cost(group.take(n)) <= total_cost(group),
    decreases group.len(),
{
    if n == group.len() {
        assert(group.take(n) =~= group);
    } else {
        assert(group.drop_last().take(n) =~= group.take(n));
        lemma_total_cost_prefix(group.drop_last(), n);
    }
}

/// Catching up changes neither what the cursors cost nor whether they can
/// fail.
pub proof fn lemma_caught_up_keeps_cost(before: Seq<Cursor>, after: Seq<Cursor>, target: int)
    requires
        caught_up(before, after, target),
    ensures
        total_cost(after) == total_cost(before),
        all_unfailing(after) == all_unfailing(before),
    decreases before.len(),
{
    assert forall|i: int| 0 <= i < before.len() implies (#[trigger] after[i]).cost == before[i].cost
        && after[i].unfailing == before[i].unfailing by {
        assert(before[i].advances_to(after[i], target, after[i].position));
    }
    if before.len() > 0 {
        let fb = before.drop_last();
        let fa = after.drop_last();
        assert forall|i: int| 0 <= i < fb.len() implies (#[trigger] fb[i]).advances_to(
            fa[i],
            target,
            fa[i].position,
        ) by {
            assert(before[i].advances_to(after[i], target, after[i].position));
        }
        lemma_caught_up_keeps_cost(fb, fa, target);
        assert(after.last() == after[after.len() - 1]);
        assert(before.last() == before[before.len() - 1]);
    }
    if all_unfailing(before) {
        assert forall|i: int| 0 <= i < after.len() implies (#[trigger] after[i]).unfailing by {
            assert(before[i].unfailing);
        }
    }
    if all_unfailing(after) {
        assert forall|i: int| 0 <= i < before.len() implies (#[trigger] before[i]).unfailing by {
            assert(after[i].unfailing);
        }
    }
}

/// One round of a disjunction: once every cursor that stood on the least
/// position has moved on, the new least position is the first doc beyond
/// the old one that any cursor reaches, and the cursors that reach it are
/// those that now stand on it.
pub proof fn lemma_round(before: Seq<Cursor>, after: Seq<Cursor>)
    requires
        all_ordered(before),
        all_ordered(after),
        lowest_position(before) < NO_MORE_DOCS,
        caught_up(before, after, lowest_position(before) + 1),
    ensures
        lowest_position(before) < lowest_position(after) <= NO_MORE_DOCS,
        caught_up(before, after, lowest_position(after)),
        same_matches_from(before, after, lowest_position(before) + 1),
        forall|d: int|
            lowest_position(before) < d < lowest_position(after) ==> match_count(before, d) == 0,
        lowest_position(after) < NO_MORE_DOCS ==> match_count(before, lowest_position(after))
            == standing_count(after, lowest_position(after)) && match_count(
            before,
            lowest_position(after),
        ) >= 1,
{
    let low = lowest_position(before);
    let next = lowest_position(after);
    lemma_lowest_position(before);
    lemma_lowest_position(after);
    assert(next > low) by {
        if next != NO_MORE_DOCS {
            let k = choose|k: int| 0 <= k < after.len() && (#[trigger] after[k]).position == next;
            assert(before[k].advances_to(after[k], low + 1, after[k].position));
        }
    }
    assert forall|k: int| 0 <= k < before.len() implies (#[trigger] before[k]).advances_to(
        after[k],
        next,
        after[k].position,
    ) by {
        assert(before[k].advances_to(after[k], low + 1, after[k].position));
        assert(after[k].position >= next);
        assert(before[k].ordered());
    }
    lemma_caught_up_keeps_matches(before, after, low + 1);
    assert forall|d: int| low < d < next implies match_count(before, d) == 0 by {
        lemma_nothing_below_lowest(after, d);
    }
    lemma_matches_at_lowest(after);
}

/// Two lists of scorers that stand, one by one, on the same docs with the
/// same scores have the same scores on `doc`.
pub proof fn lemma_scores_at_pointwise<T: Scorer>(a: Seq<T>, b: Seq<T>, doc: int)
    requires
        a.len() == b.len(),
        forall|i: int|
            0 <= i < a.len() ==> (#[trigger] a[i]).cursor().position == b[i].cursor().position
                && a[i].score_spec() == b[i].score_spec(),
    ensures
        scores_at(a, doc) == scores_at(b, doc),
    decreases a.len(),
{
    if a.len() > 0 {
        let fa = a.drop_last();
        let fb = b.drop_last();
        assert forall|i: int| 0 <= i < fa.len() implies (#[trigger] fa[i]).cursor().position
            == fb[i].cursor().position && fa[i].score_spec() == fb[i].score_spec() by {
            assert(fa[i] == a[i]);
            assert(fb[i] == b[i]);
        }
        lemma_scores_at_pointwise(fa, fb, doc);
        assert(a.last() == a[a.len() - 1]);
        assert(b.last() == b[b.len() - 1]);
    }
}

/// Move `i` of a run took the group from `states[i]` to `states[i + 1]` and
/// returned `docs[i]`, as `approximate_next` does where `least` children
/// must agree.
pub open spec fn is_move(states: Seq<Seq<Cursor>>, docs: Seq<int>, least: int, i: int) -> bool {
    &&& next_hit(states[i], least, lowest_position(states[i]), docs[i])
    &&& caught_up(states[i], states[i + 1], docs[i])
    &&& lowest_position(states[i + 1]) == docs[i]
}

/// `states` and `docs` record a run of moves of a disjunction that requires
/// `least` matches.
pub open spec fn is_run(states: Seq<Seq<Cursor>>, docs: Seq<int>, least: int) -> bool {
    &&& least >= 1
    &&& states.len() == docs.len() + 1
    &&& all_ordered(states[0])
    &&& forall|i: int| 0 <= i < docs.len() ==> #[trigger] is_move(states, docs, least, i)
}

/// What holds of a run after its first `k` moves.
spec fn run_so_far(states: Seq<Seq<Cursor>>, docs: Seq<int>, least: int, k: int) -> bool {
    let here = lowest_position(states[k]);
    &&& all_ordered(states[k])
    &&& caught_up(states[0], states[k], here)
    &&& lowest_position(states[0]) <= here
    &&& forall|i: int| 0 <= i < k ==> #[trigger] docs[i] <= here
    &&& forall|i: int, j: int|
        0 <= i < j < k ==> #[trigger] docs[i] < #[trigger] docs[j] || docs[j] == NO_MORE_DOCS
    &&& forall|d: int|
        lowest_position(states[0]) < d <= here && d < NO_MORE_DOCS ==> (#[trigger] match_count(
            states[0],
            d,
        ) >= least <==> returned(docs, k, d))
}

/// One of the first `k` moves returned `doc`.
spec fn returned(docs: Seq<int>, k: int, doc: int) -> bool {
    exists|i: int| 0 <= i < k && #[trigger] docs[i] == doc
}

proof fn lemma_run_so_far(states: Seq<Seq<Cursor>>, docs: Seq<int>, least: int, k: int)
    requires
        is_run(states, docs, least),
        0 <= k <= docs.len(),
    ensures
        run_so_far(states, docs, least, k),
    decreases k,
{
    lemma_lowest_position(states[0]);
    if k == 0 {
        assert forall|i: int| 0 <= i < states[0].len() implies (#[trigger] states[0][i]).advances_to(
            states[0][i],
            lowest_position(states[0]),
            states[0][i].position,
        ) by {}
    } else {
        lemma_run_so_far(states, docs, least, k - 1);
        assert(is_move(states, docs, least, k - 1));
        let before = states[k - 1];
        let after = states[k];
        let p = lowest_position(before);
        let q = lowest_position(after);
        assert forall|i: int| 0 <= i < after.len() implies (#[trigger] after[i]).ordered() by {
            assert(before[i].advances_to(after[i], q, after[i].position));
        }
        lemma_caught_up_twice(states[0], before, after, p, q);
        lemma_caught_up_keeps_matches(states[0], before, p);
        assert forall|i: int| 0 <= i < k implies #[trigger] docs[i] <= q by {
            if i < k - 1 {
                assert(docs[i] <= p);
            }
        }
        assert forall|i: int, j: int| 0 <= i < j < k implies #[trigger] docs[i] < #[trigger] docs[j]
            || docs[j] == NO_MORE_DOCS by {
            if j == k - 1 {
                assert(docs[i] <= p);
            }
        }
        assert forall|d: int| lowest_position(states[0]) < d <= q && d < NO_MORE_DOCS implies (
        #[trigger] match_count(states[0], d) >= least <==> returned(docs, k, d)) by {
            if d <= p {
                assert(match_count(states[0], d) >= least <==> returned(docs, k - 1, d));
                if returned(docs, k - 1, d) {
                    let i = choose|i: int| 0 <= i < k - 1 && #[trigger] docs[i] == d;
                    assert(docs[i] == d);
                }
                if returned(docs, k, d) {
                    let i = choose|i: int| 0 <= i < k && #[trigger] docs[i] == d;
                    if i < k - 1 {
                        assert(docs[i] == d);
                    }
                }
            } else {
                assert(match_count(before, d) == match_count(states[0], d));
                if d == q {
                    assert(docs[k - 1] == d);
                } else if returned(docs, k, d) {
                    let i = choose|i: int| 0 <= i < k && #[trigger] docs[i] == d;
                    if i < k - 1 {
                        assert(docs[i] <= p);
                    }
                }
            }
        }
    }
}

/// Successive moves of a disjunction return strictly ascending docs until
/// they return the sentinel, and among the real docs beyond the starting
/// point and up to the last doc returned, the docs returned are exactly
/// those that at least `least` children matched at the start.
pub proof fn lemma_run_enumerates_matches(states: Seq<Seq<Cursor>>, docs: Seq<int>, least: int)
    requires
        is_run(states, docs, least),
    ensures
        forall|i: int, j: int|
            0 <= i < j < docs.len() ==> #[trigger] docs[i] < #[trigger] docs[j] || docs[j]
                == NO_MORE_DOCS,
        forall|d: int|
            docs.len() > 0 && lowest_position(states[0]) < d <= docs.last() && d < NO_MORE_DOCS
                ==> (#[trigger] match_count(states[0], d) >= least <==> exists|i: int|
                0 <= i < docs.len() && #[trigger] docs[i] == d),
{
    let n = docs.len() as int;
    lemma_run_so_far(states, docs, least, n);
    if n > 0 {
        assert(is_move(states, docs, least, n - 1));
    }
}

/// A cursor that stands on a real doc not beyond `after` is counted.
proof fn lemma_standing_back_counts(group: Seq<Cursor>, after: int, i: int)
    requires
        0 <= i < group.len(),
        group[i].on_doc(),
        group[i].position <= after,
    ensures
        standing_back(group, after) >= 1,
    decreases group.len(),
{
    if i < group.len() - 1 {
        lemma_standing_back_counts(group.drop_last(), after, i);
    }
}

/// Where the least position is a real doc, some cursor stands on it.
pub proof fn lemma_standing_back_real(group: Seq<Cursor>, after: int)
    requires
        all_ordered(group),
        after == lowest_position(group),
        0 <= after < NO_MORE_DOCS,
    ensures
        standing_back(group, after) >= 1,
{
    lemma_lowest_position(group);
    let i = choose|i: int| 0 <= i < group.len() && (#[trigger] group[i]).position == after;
    lemma_standing_back_counts(group, after, i);
}

/// The sum of the costs of a group bounds the docs beyond `after` that any
/// of its cursors reaches, together with the cursors that stand on a doc
/// at or before `after`: the cost of a disjunction is an upper bound on
/// the docs that it has left.
pub proof fn lemma_union_within_cost(group: Seq<Cursor>, after: int)
    requires
        all_ordered(group),
        all_within_cost(group),
        -1 <= after,
    ensures
        reached_beyond(group, after).finite(),
        reached_beyond(group, after).len() + standing_back(group, after) <= total_cost(group),
    decreases group.len(),
{
    let all = reached_beyond(group, after);
    if group.len() == 0 {
        assert(all =~= Set::<int>::empty());
    } else {
        let front = group.drop_last();
        let last = group.last();
        assert(last == group[group.len() - 1]);
        assert(last.ordered() && last.within_cost());
        assert forall|i: int| 0 <= i < front.len() implies (#[trigger] front[i]).ordered()
            && front[i].within_cost() by {
            assert(front[i] == group[i]);
        }
        lemma_union_within_cost(front, after);
        let others = reached_beyond(front, after);
        let own = Set::new(|d: int| after < d < NO_MORE_DOCS && last.reaches(d));
        assert(all =~= others.union(own));
        // What the last cursor reaches beyond `after` is what it will
        // still visit, and the doc on which it stands if that lies beyond.
        if after < last.position < NO_MORE_DOCS {
            let left = last.upcoming.insert(last.position);
            assert(own.subset_of(left));
            vstd::set_lib::lemma_len_subset(own, left);
        } else {
            assert(own.subset_of(last.upcoming));
            vstd::set_lib::lemma_len_subset(own, last.upcoming);
        }
        vstd::set_lib::lemma_len_union(others, own);
    }
}

} // verus!
