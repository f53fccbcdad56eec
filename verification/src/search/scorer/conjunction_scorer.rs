//! Intersection of child cursors.

use vstd::prelude::*;

use crate::error::Error;
use crate::search::scorer::{
    all_confirmed,
    all_ordered, all_ready, all_unfailing, caught_up, cursors, lemma_advance_further,
    lemma_advance_keeps_reach, lemma_advance_twice, lemma_caught_up_keeps_cost,
    lemma_caught_up_keeps_matches, lemma_match_count_full, match_count, next_hit, scores_at,
    scores_on, sum_of, sum_scores, ScoreValue, Scorer,
};
use crate::search::{first_from, ready, Cursor, DocIterator, NO_MORE_DOCS};
use crate::util::DocId;

verus! {

/// A scorer for AND-like queries: it visits the docs that all of its
/// children match. The child that costs least leads: it moves first, and
/// the others are advanced to where it stands.
pub struct ConjunctionScorer<T: DocIterator> {
    scorers: Vec<T>,
    order: Vec<usize>,
}

impl<T: DocIterator> ConjunctionScorer<T> {
    /// The states of the children, in the order in which they were given.
    pub closed spec fn children(&self) -> Seq<Cursor> {
        cursors(self.scorers@)
    }

    /// The children themselves, in the order in which they were given.
    pub closed spec fn scorers(&self) -> Seq<T> {
        self.scorers@
    }

    /// The indices of the children, by ascending cost.
    pub closed spec fn order(&self) -> Seq<usize> {
        self.order@
    }

    /// The index of the child that leads.
    pub open spec fn lead(&self) -> int {
        self.order()[0] as int
    }

    /// The doc the scorer stands on: that of the child that leads.
    pub open spec fn current(&self) -> int {
        self.children()[self.lead()].position
    }

    /// Every child stands on `doc`.
    pub open spec fn aligned_on(&self, doc: int) -> bool {
        forall|c: int| 0 <= c < self.children().len() ==> (#[trigger] self.children()[c]).position == doc
    }

    /// Some place of the order holds the index `c`.
    spec fn holds(&self, c: int) -> bool {
        exists|k: int| 0 <= k < self.order@.len() && #[trigger] self.order@[k] == c
    }

    /// There is at least one child, every child can be moved, and the order
    /// lists every child once, by ascending cost.
    pub closed spec fn wf(&self) -> bool {
        &&& all_ready(self.scorers@)
        &&& self.scorers@.len() > 0
        &&& arranged_by_cost(self.order@, self.children())
        &&& forall|c: int| 0 <= c < self.scorers@.len() ==> #[trigger] self.holds(c)
    }

    /// What a scorer in order is made of.
    pub proof fn lemma_wf(&self)
        requires
            self.wf(),
        ensures
            self.children().len() > 0,
            self.children() == cursors(self.scorers()),
            all_ordered(self.children()),
            arranged_by_cost(self.order(), self.children()),
            0 <= self.lead() < self.children().len(),
    {
        assert forall|i: int| 0 <= i < self.children().len() implies (
        #[trigger] self.children()[i]).ordered() by {
            assert(ready(self.scorers@[i]));
        }
        assert(self.order@[0] < self.scorers@.len());
    }

    /// A conjunction over `children`, which must not be empty. The
    /// children stay where they stand.
    pub fn new(children: Vec<T>) -> (scorer: ConjunctionScorer<T>)
        requires
            children@.len() > 0,
            all_ready(children@),
        ensures
            scorer.wf(),
            scorer.scorers() == children@,
            scorer.children() == cursors(children@),
    {
        let n = children.len();
        let mut order: Vec<usize> = Vec::new();
        let mut costs: Vec<usize> = Vec::new();
        let mut c: usize = 0;
        while c < n
            invariant
                n == children@.len(),
                c <= n,
                all_ready(children@),
                order@.len() == c,
                costs@.len() == c,
                forall|k: int| 0 <= k < c ==> order@[k] == k,
                forall|k: int| 0 <= k < c ==> costs@[k] == cursors(children@)[k].cost,
            decreases n - c,
        {
            assert(ready(children@[c as int]));
            order.push(c);
            costs.push(children[c].cost());
            c += 1;
        }
        proof {
            assert forall|c: int| 0 <= c < n implies listed(order@, c) by {
                assert(order@[c] == c);
            }
        }
        // Insertion sort of the indices by cost.
        let mut sorted: usize = 1;
        while sorted < n
            invariant
                n == children@.len(),
                n == order@.len(),
                n == costs@.len(),
                1 <= sorted <= n,
                forall|k: int| 0 <= k < n ==> #[trigger] order@[k] < n,
                forall|a: int, b: int| 0 <= a < b < n ==> #[trigger] order@[a] != #[trigger] order@[b],
                forall|c: int| 0 <= c < n ==> listed(order@, c),
                forall|a: int, b: int|
                    0 <= a < b < sorted ==> costs@[#[trigger] order@[a] as int]
                        <= costs@[#[trigger] order@[b] as int],
                forall|k: int| 0 <= k < n ==> costs@[k] == cursors(children@)[k].cost,
            decreases n - sorted,
        {
            let mut at = sorted;
            while at > 0 && costs[order[at - 1]] > costs[order[at]]
                invariant
                    n == order@.len(),
                    n == costs@.len(),
                    at <= sorted < n,
                    forall|k: int| 0 <= k < n ==> #[trigger] order@[k] < n,
                    forall|a: int, b: int|
                        0 <= a < b < n ==> #[trigger] order@[a] != #[trigger] order@[b],
                    forall|c: int| 0 <= c < n ==> listed(order@, c),
                    forall|a: int, b: int|
                        0 <= a < b <= sorted && a != at && b != at ==> costs@[#[trigger] order@[a] as int]
                            <= costs@[#[trigger] order@[b] as int],
                    forall|b: int|
                        at < b <= sorted ==> costs@[order@[at as int] as int]
                            <= costs@[#[trigger] order@[b] as int],
                decreases at,
            {
                let ghost before = order@;
                let lower = order[at - 1];
                let upper = order[at];
                order[at - 1] = upper;
                order[at] = lower;
                proof {
                    assert forall|c: int| 0 <= c < n implies listed(order@, c) by {
                        assert(listed(before, c));
                        let k = choose|k: int| 0 <= k < before.len() && #[trigger] before[k] == c;
                        if k == at {
                            assert(order@[at - 1] == c);
                        } else if k == at - 1 {
                            assert(order@[at as int] == c);
                        } else {
                            assert(order@[k] == c);
                        }
                    }
                    assert forall|a: int, b: int| 0 <= a < b < n implies #[trigger] order@[a]
                        != #[trigger] order@[b] by {
                        let pa = if a == at {
                            at - 1
                        } else if a == at - 1 {
                            at as int
                        } else {
                            a
                        };
                        let pb = if b == at {
                            at - 1
                        } else if b == at - 1 {
                            at as int
                        } else {
                            b
                        };
                        assert(order@[a] == before[pa]);
                        assert(order@[b] == before[pb]);
                        if pa < pb {
                            assert(before[pa] != before[pb]);
                        } else {
                            assert(before[pb] != before[pa]);
                        }
                    }
                    assert forall|a: int, b: int|
                        0 <= a < b <= sorted && a != at - 1 && b != at - 1 implies costs@[#[trigger] order@[a] as int]
                        <= costs@[#[trigger] order@[b] as int] by {
                        if a == at {
                            assert(costs@[before[at - 1] as int] <= costs@[before[b] as int]);
                        } else if b == at {
                            assert(costs@[before[a] as int] <= costs@[before[at - 1] as int]);
                        } else {
                            assert(costs@[before[a] as int] <= costs@[before[b] as int]);
                        }
                    }
                    assert forall|b: int| at - 1 < b <= sorted implies costs@[order@[at - 1] as int]
                        <= costs@[#[trigger] order@[b] as int] by {
                        if b > at {
                            assert(costs@[before[at as int] as int] <= costs@[before[b] as int]);
                        }
                    }
                }
                at -= 1;
            }
            proof {
                assert forall|a: int, b: int| 0 <= a < b < sorted + 1 implies costs@[#[trigger] order@[a] as int]
                    <= costs@[#[trigger] order@[b] as int] by {
                    if a == at {
                    } else if b == at {
                        if a == at - 1 {
                        } else {
                            assert(costs@[order@[a] as int] <= costs@[order@[at - 1] as int]);
                        }
                    } else {
                    }
                }
            }
            sorted += 1;
        }
        let scorer = ConjunctionScorer { scorers: children, order };
        proof {
            assert forall|c: int| 0 <= c < scorer.scorers@.len() implies #[trigger] scorer.holds(
                c,
            ) by {
                assert(listed(scorer.order@, c));
            }
        }
        scorer
    }

    /// This scorer is `before` after a move: it is in order and has the
    /// same children in the same order of cost.
    pub closed spec fn stepped_from(&self, before: Self) -> bool {
        &&& self.wf()
        &&& self.order@ == before.order@
        &&& self.scorers@.len() == before.scorers@.len()
    }

    /// What `stepped_from` keeps.
    pub proof fn lemma_stepped_from(&self, before: Self)
        requires
            self.stepped_from(before),
        ensures
            self.wf(),
            self.order() == before.order(),
            self.children().len() == before.children().len(),
    {
    }

    /// Current doc id: the doc on which the leading child stands.
    pub fn doc_id(&self) -> (doc: DocId)
        requires
            self.wf(),
        ensures
            doc == self.current(),
    {
        let lead = self.order[0];
        assert(self.order@[0] < self.scorers@.len());
        assert(ready(self.scorers@[lead as int]));
        self.scorers[lead].doc_id()
    }

    /// Upper bound on the number of docs visited: the bound of the child
    /// that leads, which is the least of the children's.
    pub fn cost(&self) -> (c: usize)
        requires
            self.wf(),
        ensures
            c == self.children()[self.lead()].cost,
            forall|k: int| 0 <= k < self.children().len() ==> c <= (#[trigger] self.children()[k]).cost,
    {
        let lead = self.order[0];
        assert(self.order@[0] < self.scorers@.len());
        assert(ready(self.scorers@[lead as int]));
        proof {
            assert forall|k: int| 0 <= k < self.children().len() implies self.children()[lead as int].cost
                <= (#[trigger] self.children()[k]).cost by {
                assert(self.holds(k));
                let place = choose|place: int|
                    0 <= place < self.order@.len() && #[trigger] self.order@[place] == k;
                if place > 0 {
                    assert(self.children()[self.order@[0] as int].cost
                        <= self.children()[self.order@[place] as int].cost);
                }
            }
        }
        self.scorers[lead].cost()
    }

    /// Advances child `c` to `target`; the others stay as they are.
    fn advance_one(&mut self, c: usize, target: DocId) -> (r: Result<DocId, Error>)
        requires
            all_ready(old(self).scorers@),
            c < old(self).scorers@.len(),
        ensures
            r matches Ok(doc) ==> {
                &&& all_ready(final(self).scorers@)
                &&& final(self).order@ == old(self).order@
                &&& final(self).scorers@.len() == old(self).scorers@.len()
                &&& final(self).children() == old(self).children().update(
                    c as int,
                    final(self).children()[c as int],
                )
                &&& old(self).children()[c as int].advances_to(
                    final(self).children()[c as int],
                    target as int,
                    doc as int,
                )
                &&& doc == final(self).children()[c as int].position
                &&& doc >= target
            },
            r is Err ==> !old(self).children()[c as int].unfailing,
    {
        assert(ready(self.scorers@[c as int]));
        let r = self.scorers[c].advance(target);
        proof {
            if r is Ok {
                assert(self.children() =~= old(self).children().update(
                    c as int,
                    self.children()[c as int],
                ));
                assert forall|i: int| 0 <= i < self.scorers@.len() implies ready(
                    #[trigger] self.scorers@[i],
                ) by {
                    if i != c {
                        assert(ready(old(self).scorers@[i]));
                    }
                }
            }
        }
        r
    }

    /// Brings every child onto the doc on which the leading child stands:
    /// each in turn is advanced to that doc, and where one lands beyond it
    /// the leading child is advanced to where that one landed and the round
    /// starts again.
    fn align(
        &mut self,
        Ghost(before): Ghost<Seq<Cursor>>,
        Ghost(first_targets): Ghost<Seq<int>>,
        Ghost(from): Ghost<int>,
    ) -> (r: Result<DocId, Error>)
        requires
            old(self).wf(),
            all_ordered(before),
            followed(before, old(self).children(), first_targets, old(self).current()),
            forall|d: int|
                from < d < old(self).current() ==> match_count(before, d) < before.len(),
        ensures
            r matches Ok(doc) ==> {
                &&& final(self).stepped_from(*old(self))
                &&& final(self).aligned_on(doc as int)
                &&& doc >= old(self).current()
                &&& caught_up(before, final(self).children(), doc as int)
                &&& doc == NO_MORE_DOCS || match_count(before, doc as int) == before.len()
                &&& forall|d: int| from < d < doc ==> match_count(before, d) < before.len()
            },
            r is Err ==> !all_unfailing(before),
    {
        let n = self.scorers.len();
        let lead = self.order[0];
        assert(self.order@[0] < self.scorers@.len());
        assert(ready(self.scorers@[lead as int]));
        let mut doc = self.scorers[lead].doc_id();
        let ghost mut targets = first_targets;
        let mut k: usize = 1;
        while k < n
            invariant
                n == self.scorers@.len(),
                n == before.len(),
                n == targets.len(),
                1 <= k <= n,
                self.order@ == old(self).order@,
                self.order@.len() == n,
                old(self).scorers@.len() == n,
                forall|j: int| 0 <= j < n ==> #[trigger] self.order@[j] < n,
                forall|a: int, b: int|
                    0 <= a < b < n ==> #[trigger] self.order@[a] != #[trigger] self.order@[b],
                lead == self.order@[0],
                lead < n,
                old(self).wf(),
                all_ready(self.scorers@),
                all_ordered(before),
                doc == self.children()[lead as int].position,
                doc >= old(self).current(),
                forall|j: int|
                    0 <= j < k ==> self.children()[#[trigger] self.order@[j] as int].position == doc,
                followed(before, self.children(), targets, doc as int),
                forall|d: int| from < d < doc ==> match_count(before, d) < before.len(),
                forall|c: int|
                    0 <= c < n ==> (#[trigger] self.children()[c]).cost == old(self).children()[c].cost,
            decreases NO_MORE_DOCS - doc, n - k,
        {
            let c = self.order[k];
            assert(self.order@[k as int] < n);
            assert(self.order@[0] != self.order@[k as int]);
            assert(ready(self.scorers@[c as int]));
            let ghost round = self.children();
            let mut landed = self.scorers[c].doc_id();
            if landed < doc {
                landed = match self.advance_one(c, doc) {
                    Err(e) => {
                        proof {
                            assert(before[c as int].advances_to(
                                round[c as int],
                                targets[c as int],
                                round[c as int].position,
                            ));
                        }
                        return Err(e);
                    },
                    Ok(d) => d,
                };
                proof {
                    lemma_advance_twice(
                        before[c as int],
                        round[c as int],
                        self.children()[c as int],
                        targets[c as int],
                        doc as int,
                    );
                    targets = targets.update(c as int, doc as int);
                }
            }
            proof {
                assert(followed(before, self.children(), targets, doc as int)) by {
                    assert forall|i: int| 0 <= i < n implies (#[trigger] before[i]).advances_to(
                        self.children()[i],
                        targets[i],
                        self.children()[i].position,
                    ) && targets[i] <= doc by {
                        if i != c {
                            assert(self.children()[i] == round[i]);
                            assert(before[i].advances_to(round[i], targets[i], round[i].position));
                        }
                    }
                }
                assert forall|i: int| 0 <= i < n implies (#[trigger] self.children()[i]).cost
                    == old(self).children()[i].cost by {
                    assert(round[i].cost == old(self).children()[i].cost);
                    if i != c {
                        assert(self.children()[i] == round[i]);
                    }
                }
                assert(landed == self.children()[c as int].position);
                assert(landed >= doc);
            }
            if landed > doc {
                let ghost passed = self.children();
                let ghost stood = doc;
                proof {
                    // The child that went past reaches nothing between the
                    // doc and where it landed.
                    assert forall|d: int| stood <= d < landed && d < NO_MORE_DOCS implies match_count(
                        before,
                        d,
                    ) < before.len() by {
                        assert(before[c as int].advances_to(
                            passed[c as int],
                            targets[c as int],
                            passed[c as int].position,
                        ));
                        lemma_advance_keeps_reach(
                            before[c as int],
                            passed[c as int],
                            targets[c as int],
                            d,
                        );
                        lemma_match_count_full(before, d);
                        crate::search::scorer::lemma_match_count_bounds(before, d);
                    }
                }
                let moved = self.advance_one(lead, landed);
                if let Err(e) = moved {
                    proof {
                        assert(before[lead as int].advances_to(
                            passed[lead as int],
                            targets[lead as int],
                            passed[lead as int].position,
                        ));
                    }
                    return Err(e);
                }
                doc = match moved {
                    Ok(d) => d,
                    Err(_) => doc,
                };
                k = 1;
                proof {
                    assert(before[lead as int].advances_to(
                        passed[lead as int],
                        targets[lead as int],
                        passed[lead as int].position,
                    ));
                    lemma_advance_twice(
                        before[lead as int],
                        passed[lead as int],
                        self.children()[lead as int],
                        targets[lead as int],
                        landed as int,
                    );
                    targets = targets.update(lead as int, landed as int);
                    assert forall|i: int| 0 <= i < n implies (#[trigger] self.children()[i]).cost
                        == old(self).children()[i].cost by {
                        assert(passed[i].cost == old(self).children()[i].cost);
                        if i != lead {
                            assert(self.children()[i] == passed[i]);
                        }
                    }
                    assert(followed(before, self.children(), targets, doc as int)) by {
                        assert forall|i: int| 0 <= i < n implies (#[trigger] before[i]).advances_to(
                            self.children()[i],
                            targets[i],
                            self.children()[i].position,
                        ) && targets[i] <= doc by {
                            if i != lead {
                                assert(self.children()[i] == passed[i]);
                                assert(before[i].advances_to(
                                    passed[i],
                                    targets[i],
                                    passed[i].position,
                                ));
                            }
                        }
                    }
                    // The leading child reaches nothing between where the
                    // other landed and where it stands now.
                    assert forall|d: int| from < d < doc implies match_count(before, d)
                        < before.len() by {
                        if d >= landed {
                            lemma_advance_keeps_reach(
                                before[lead as int],
                                self.children()[lead as int],
                                landed as int,
                                d,
                            );
                            lemma_match_count_full(before, d);
                            crate::search::scorer::lemma_match_count_bounds(before, d);
                        }
                    }
                }
            } else {
                k += 1;
            }
        }
        proof {
            let now = self.children();
            assert forall|c: int| 0 <= c < now.len() implies (#[trigger] now[c]).position == doc by {
                assert(old(self).holds(c));
                let place = choose|place: int|
                    0 <= place < self.order@.len() && #[trigger] self.order@[place] == c;
                assert(now[self.order@[place] as int].position == doc);
            }
            assert forall|c: int| 0 <= c < self.scorers@.len() implies #[trigger] self.holds(c) by {
                assert(old(self).holds(c));
            }
            assert forall|c: int| 0 <= c < n implies (#[trigger] before[c]).advances_to(
                now[c],
                doc as int,
                now[c].position,
            ) by {
                assert(before[c].advances_to(now[c], targets[c], now[c].position));
                lemma_advance_further(before[c], now[c], targets[c], doc as int);
            }
            lemma_caught_up_keeps_cost(before, now, doc as int);
            assert(arranged_by_cost(self.order@, now)) by {
                assert(arranged_by_cost(old(self).order@, old(self).children()));
                assert forall|a: int, b: int| 0 <= a < b < self.order@.len() implies now[#[trigger] self.order@[a] as int].cost
                    <= now[#[trigger] self.order@[b] as int].cost by {
                    let ia = self.order@[a] as int;
                    let ib = self.order@[b] as int;
                    assert(old(self).children()[ia].cost <= old(self).children()[ib].cost);
                }
            }
            if doc != NO_MORE_DOCS {
                assert forall|c: int| 0 <= c < n implies (#[trigger] before[c]).reaches(doc as int) by {
                    lemma_advance_keeps_reach(before[c], now[c], doc as int, doc as int);
                }
                lemma_match_count_full(before, doc as int);
            }
        }
        Ok(doc)
    }

    /// Moves to the first doc beyond the current one that every child
    /// reaches, and returns it; `NO_MORE_DOCS` when there is none. Every
    /// child ends up on the doc returned. The docs returned by successive
    /// calls are therefore strictly ascending.
    pub fn next(&mut self) -> (r: Result<DocId, Error>)
        requires
            old(self).wf(),
        ensures
            r matches Ok(doc) ==> {
                &&& final(self).stepped_from(*old(self))
                &&& doc == final(self).current()
                &&& final(self).aligned_on(doc as int)
                &&& next_hit(
                    old(self).children(),
                    old(self).children().len() as int,
                    old(self).current(),
                    doc as int,
                )
                &&& caught_up(old(self).children(), final(self).children(), doc as int)
            },
            r matches Ok(doc) ==> old(self).current() < doc || doc == NO_MORE_DOCS,
            r is Err ==> !all_unfailing(old(self).children()),
    {
        let n = self.scorers.len();
        let lead = self.order[0];
        let ghost before = self.children();
        proof {
            self.lemma_wf();
        }
        assert(ready(self.scorers@[lead as int]));
        let here = self.scorers[lead].doc_id();
        let ghost mut targets = Seq::new(n as nat, |c: int| -1int);
        if here != NO_MORE_DOCS {
            let target = here + 1;
            match self.advance_one(lead, target) {
                Err(e) => {
                    return Err(e);
                },
                Ok(_) => {},
            }
            proof {
                targets = targets.update(lead as int, target as int);
            }
        }
        proof {
            let now = self.children();
            assert(followed(before, now, targets, now[lead as int].position)) by {
                assert forall|c: int| 0 <= c < before.len() implies (#[trigger] before[c]).advances_to(
                    now[c],
                    targets[c],
                    now[c].position,
                ) && targets[c] <= now[lead as int].position by {
                    assert(before[c].ordered());
                }
            }
            assert forall|c: int| 0 <= c < self.scorers@.len() implies #[trigger] self.holds(c) by {
                assert(old(self).holds(c));
            }
            assert(arranged_by_cost(self.order@, now)) by {
                assert forall|a: int, b: int| 0 <= a < b < self.order@.len() implies now[#[trigger] self.order@[a] as int].cost
                    <= now[#[trigger] self.order@[b] as int].cost by {
                    let ia = self.order@[a] as int;
                    let ib = self.order@[b] as int;
                    assert(before[ia].advances_to(now[ia], targets[ia], now[ia].position));
                    assert(before[ib].advances_to(now[ib], targets[ib], now[ib].position));
                    assert(before[ia].cost <= before[ib].cost);
                }
            }
            // The leading child reaches nothing between where it stood and
            // where it stands.
            assert forall|d: int| here < d < now[lead as int].position implies match_count(
                before,
                d,
            ) < before.len() by {
                lemma_advance_keeps_reach(
                    before[lead as int],
                    now[lead as int],
                    here + 1,
                    d,
                );
                lemma_match_count_full(before, d);
                crate::search::scorer::lemma_match_count_bounds(before, d);
            }
        }
        let r = self.align(Ghost(before), Ghost(targets), Ghost(here as int));
        proof {
            if r is Ok {
                self.lemma_wf();
            }
        }
        r
    }

    /// Moves to the first doc at or beyond `target` that every child
    /// reaches, and returns it; `NO_MORE_DOCS` when there is none. Every
    /// child ends up on the doc returned. A target that is not ahead of the
    /// current doc changes nothing.
    pub fn advance(&mut self, target: DocId) -> (r: Result<DocId, Error>)
        requires
            old(self).wf(),
        ensures
            r matches Ok(doc) ==> if old(self).current() < target {
                &&& final(self).stepped_from(*old(self))
                &&& doc == final(self).current()
                &&& final(self).aligned_on(doc as int)
                &&& next_hit(
                    old(self).children(),
                    old(self).children().len() as int,
                    target - 1,
                    doc as int,
                )
                &&& caught_up(old(self).children(), final(self).children(), doc as int)
            } else {
                &&& doc == old(self).current()
                &&& final(self).stepped_from(*old(self))
                &&& final(self).children() == old(self).children()
            },
            r matches Ok(doc) ==> doc >= target,
            r is Err ==> !all_unfailing(old(self).children()),
            old(self).current() >= target ==> r is Ok,
    {
        let n = self.scorers.len();
        let lead = self.order[0];
        let ghost before = self.children();
        proof {
            self.lemma_wf();
        }
        assert(ready(self.scorers@[lead as int]));
        let here = self.scorers[lead].doc_id();
        if here >= target {
            return Ok(here);
        }
        let ghost mut targets = Seq::new(n as nat, |c: int| -1int);
        match self.advance_one(lead, target) {
            Err(e) => {
                return Err(e);
            },
            Ok(_) => {},
        }
        proof {
            targets = targets.update(lead as int, target as int);
            let now = self.children();
            assert(followed(before, now, targets, now[lead as int].position)) by {
                assert forall|c: int| 0 <= c < before.len() implies (#[trigger] before[c]).advances_to(
                    now[c],
                    targets[c],
                    now[c].position,
                ) && targets[c] <= now[lead as int].position by {
                    assert(before[c].ordered());
                }
            }
            assert forall|c: int| 0 <= c < self.scorers@.len() implies #[trigger] self.holds(c) by {
                assert(old(self).holds(c));
            }
            assert(arranged_by_cost(self.order@, now)) by {
                assert forall|a: int, b: int| 0 <= a < b < self.order@.len() implies now[#[trigger] self.order@[a] as int].cost
                    <= now[#[trigger] self.order@[b] as int].cost by {
                    let ia = self.order@[a] as int;
                    let ib = self.order@[b] as int;
                    assert(before[ia].advances_to(now[ia], targets[ia], now[ia].position));
                    assert(before[ib].advances_to(now[ib], targets[ib], now[ib].position));
                    assert(before[ia].cost <= before[ib].cost);
                }
            }
            assert forall|d: int| target - 1 < d < now[lead as int].position implies match_count(
                before,
                d,
            ) < before.len() by {
                lemma_advance_keeps_reach(
                    before[lead as int],
                    now[lead as int],
                    target as int,
                    d,
                );
                lemma_match_count_full(before, d);
                crate::search::scorer::lemma_match_count_bounds(before, d);
            }
        }
        let r = self.align(Ghost(before), Ghost(targets), Ghost(target - 1));
        proof {
            if r is Ok {
                self.lemma_wf();
            }
        }
        r
    }

    /// Says whether the current doc is a match: it is one when every child
    /// confirms the doc on which it stands, which after a move is the
    /// current doc. The children are asked in the order in which they were
    /// given, up to the first that refuses. Nothing moves.
    pub fn matches(&mut self) -> (r: Result<bool, Error>)
        requires
            old(self).wf(),
        ensures
            r matches Ok(b) ==> {
                &&& b == all_confirmed(old(self).children())
                &&& final(self).stepped_from(*old(self))
                &&& final(self).children() == old(self).children()
            },
            r is Err ==> !all_unfailing(old(self).children()),
    {
        let n = self.scorers.len();
        let mut i: usize = 0;
        while i < n
            invariant
                n == self.scorers@.len(),
                i <= n,
                old(self).wf(),
                self.order@ == old(self).order@,
                all_ready(self.scorers@),
                self.children() == old(self).children(),
                forall|k: int| 0 <= k < i ==> (#[trigger] self.children()[k]).confirmed,
            decreases n - i,
        {
            let ghost round = self.children();
            assert(ready(self.scorers@[i as int]));
            let confirmed = match self.scorers[i].matches() {
                Err(e) => {
                    proof {
                        assert(!round[i as int].unfailing);
                    }
                    return Err(e);
                },
                Ok(b) => b,
            };
            proof {
                assert(self.children() =~= round);
                assert forall|k: int| 0 <= k < n implies ready(#[trigger] self.scorers@[k]) by {
                    if k != i {
                        assert(ready(old(self).scorers@[k]));
                    }
                }
            }
            if !confirmed {
                proof {
                    assert(!self.children()[i as int].confirmed);
                    self.lemma_same_children(*old(self));
                }
                return Ok(false);
            }
            i += 1;
        }
        proof {
            self.lemma_same_children(*old(self));
        }
        Ok(true)
    }

    /// A scorer whose children are as they were, in the same order of cost,
    /// is in order as it was.
    proof fn lemma_same_children(&self, before: Self)
        requires
            before.wf(),
            all_ready(self.scorers@),
            self.order@ == before.order@,
            self.children() == before.children(),
        ensures
            self.stepped_from(before),
    {
        assert(self.scorers@.len() == before.scorers@.len()) by {
            assert(cursors(self.scorers@).len() == cursors(before.scorers@).len());
        }
        assert forall|c: int| 0 <= c < self.scorers@.len() implies #[trigger] self.holds(c) by {
            assert(before.holds(c));
            let k = choose|k: int|
                0 <= k < before.order@.len() && #[trigger] before.order@[k] == c;
            assert(self.order@[k] == c);
        }
    }

    /// Where the cost of the leading child bounds the docs that it has
    /// left, the cost of the conjunction bounds the docs that it has left.
    pub proof fn lemma_within_cost(&self)
        requires
            self.wf(),
            self.children()[self.lead()].within_cost(),
        ensures
            self.cursor().within_cost(),
    {
        self.lemma_wf();
        let lead = self.children()[self.lead()];
        assert(lead.ordered());
        assert forall|d: int| self.cursor().upcoming.contains(d) implies lead.upcoming.contains(
            d,
        ) by {
            lemma_match_count_full(self.children(), d);
            assert(lead.reaches(d));
        }
        assert(self.cursor().upcoming.subset_of(lead.upcoming));
        vstd::set_lib::lemma_len_subset(self.cursor().upcoming, lead.upcoming);
    }

    /// A move of the scorer onto `doc`, the first doc from `from` on that
    /// every child reaches, is such a move of the cursor that the scorer
    /// stands for.
    proof fn lemma_moved(&self, before: Self, from: int, doc: int)
        requires
            before.wf(),
            self.stepped_from(before),
            doc == self.current(),
            self.aligned_on(doc),
            next_hit(before.children(), before.children().len() as int, from - 1, doc),
            caught_up(before.children(), self.children(), doc),
            before.current() < from || (before.current() == NO_MORE_DOCS && from
                == NO_MORE_DOCS + 1),
        ensures
            before.cursor().moves_to(self.cursor(), from, doc),
    {
        before.lemma_wf();
        self.lemma_wf();
        lemma_caught_up_keeps_cost(before.children(), self.children(), doc);
        lemma_caught_up_keeps_matches(before.children(), self.children(), doc);
        crate::search::scorer::lemma_match_count_bounds(before.children(), doc);
        assert(before.children()[before.lead()].advances_to(
            self.children()[self.lead()],
            doc,
            self.children()[self.lead()].position,
        ));
        assert(self.children()[self.lead()].ordered());
        assert(before.children()[before.lead()].ordered());
        assert(self.cursor().ordered());
        assert(self.cursor().cost == before.cursor().cost);
        assert(self.cursor().unfailing == before.cursor().unfailing);
        assert(first_from(before.cursor().upcoming, from, doc)) by {
            assert forall|d: int| from <= d < doc implies !before.cursor().upcoming.contains(d) by {
                assert(match_count(before.children(), d) < before.children().len());
            }
        }
        assert forall|d: int|
            #![trigger self.cursor().upcoming.contains(d)]
            #![trigger before.cursor().upcoming.contains(d)]
            self.cursor().upcoming.contains(d) <==> before.cursor().upcoming.contains(d) && d
                > doc by {
            if doc < d < NO_MORE_DOCS {
                assert(match_count(self.children(), d) == match_count(before.children(), d));
            }
        }
    }
}

impl<T: Scorer> ConjunctionScorer<T> {
    /// The scores that make up the score of the current doc, which must be
    /// a real doc: those of the children that stand on it, which is all of
    /// them after a move, in the order of the children. The score of the
    /// doc is their sum. Nothing moves.
    pub fn score_parts(&mut self) -> (r: Result<Vec<T::Score>, Error>)
        requires
            old(self).wf(),
            0 <= old(self).current() < NO_MORE_DOCS,
        ensures
            r matches Ok(scores) ==> {
                &&& scores@ == scores_at(old(self).scorers(), old(self).current())
                &&& scores@ == scores_at(final(self).scorers(), old(self).current())
                &&& final(self).stepped_from(*old(self))
                &&& final(self).children() == old(self).children()
            },
            r is Err ==> !all_unfailing(old(self).children()),
    {
        let doc = self.doc_id();
        let r = scores_on(&mut self.scorers, doc);
        proof {
            if r is Ok {
                assert(self.scorers@.len() == old(self).scorers@.len()) by {
                    assert(cursors(self.scorers@).len() == cursors(old(self).scorers@).len());
                }
                assert forall|c: int| 0 <= c < self.scorers@.len() implies #[trigger] self.holds(
                    c,
                ) by {
                    assert(old(self).holds(c));
                    let k = choose|k: int|
                        0 <= k < old(self).order@.len() && #[trigger] old(self).order@[k] == c;
                    assert(self.order@[k] == c);
                }
            }
        }
        r
    }
}

impl<T: Scorer> ConjunctionScorer<T> where T::Score: ScoreValue {
    /// The score of the current doc, which must be a real doc: the sum of
    /// the scores of the children that stand on it, which is all of them
    /// after a move. Nothing moves.
    pub fn score(&mut self) -> (r: Result<T::Score, Error>)
        requires
            old(self).wf(),
            0 <= old(self).current() < NO_MORE_DOCS,
        ensures
            r matches Ok(score) ==> {
                &&& score == old(self).score_spec()
                &&& final(self).score_spec() == old(self).score_spec()
                &&& final(self).stepped_from(*old(self))
                &&& final(self).children() == old(self).children()
            },
            r is Err ==> !all_unfailing(old(self).children()),
    {
        match self.score_parts() {
            Err(e) => Err(e),
            Ok(parts) => Ok(sum_scores(&parts)),
        }
    }
}

impl<T: DocIterator> DocIterator for ConjunctionScorer<T> {
    /// A conjunction stands where its leading child stands and will visit
    /// every later doc that all of its children reach.
    open spec fn cursor(&self) -> Cursor {
        Cursor {
            position: self.current(),
            upcoming: Set::new(
                |d: int|
                    self.current() < d < NO_MORE_DOCS && match_count(self.children(), d)
                        == self.children().len(),
            ),
            confirmed: all_confirmed(self.children()),
            unfailing: all_unfailing(self.children()),
            cost: self.children()[self.lead()].cost,
        }
    }

    open spec fn inv(&self) -> bool {
        self.wf()
    }

    fn doc_id(&self) -> (doc: DocId) {
        ConjunctionScorer::doc_id(self)
    }

    fn next(&mut self) -> (r: Result<DocId, Error>)
        ensures
            r is Ok ==> final(self).stepped_from(*old(self)),
    {
        proof {
            self.lemma_wf();
        }
        let r = ConjunctionScorer::next(self);
        proof {
            if let Ok(doc) = r {
                self.lemma_moved(*old(self), old(self).current() + 1, doc as int);
            }
        }
        r
    }

    fn advance(&mut self, target: DocId) -> (r: Result<DocId, Error>)
        ensures
            r is Ok ==> final(self).stepped_from(*old(self)),
    {
        proof {
            self.lemma_wf();
        }
        let r = ConjunctionScorer::advance(self, target);
        proof {
            if let Ok(doc) = r {
                if old(self).current() < target {
                    self.lemma_moved(*old(self), target as int, doc as int);
                    if old(self).cursor().upcoming.contains(target as int) {
                        assert(match_count(old(self).children(), target as int) == old(
                            self).children().len());
                    }
                } else {
                    assert(self.cursor().upcoming =~= old(self).cursor().upcoming);
                }
            }
        }
        r
    }

    fn cost(&self) -> (c: usize) {
        ConjunctionScorer::cost(self)
    }

    fn matches(&mut self) -> (r: Result<bool, Error>) {
        let r = ConjunctionScorer::matches(self);
        proof {
            if r is Ok {
                assert(self.cursor().upcoming =~= old(self).cursor().upcoming);
            }
        }
        r
    }
}

impl<T: Scorer> Scorer for ConjunctionScorer<T> where T::Score: ScoreValue {
    type Score = T::Score;

    /// The sum of the scores of the children on the current doc.
    open spec fn score_spec(&self) -> T::Score {
        sum_of(scores_at(self.scorers(), self.current()))
    }

    fn score(&mut self) -> (r: Result<T::Score, Error>) {
        let r = ConjunctionScorer::score(self);
        proof {
            if r is Ok {
                assert(self.cursor().upcoming =~= old(self).cursor().upcoming);
            }
        }
        r
    }
}

/// Every cursor of `now` is the cursor of `before` in the same place,
/// advanced to its own target, and no target lies beyond `doc`.
pub open spec fn followed(before: Seq<Cursor>, now: Seq<Cursor>, targets: Seq<int>, doc: int) -> bool {
    &&& now.len() == before.len()
    &&& targets.len() == before.len()
    &&& forall|c: int|
        0 <= c < before.len() ==> (#[trigger] before[c]).advances_to(
            now[c],
            targets[c],
            now[c].position,
        ) && targets[c] <= doc
}

/// Some place of `order` holds the index `c`.
pub open spec fn listed(order: Seq<usize>, c: int) -> bool {
    exists|k: int| 0 <= k < order.len() && #[trigger] order[k] == c
}

/// `order` lists indices of `group`, no index twice, by ascending cost.
pub open spec fn arranged_by_cost(order: Seq<usize>, group: Seq<Cursor>) -> bool {
    &&& order.len() == group.len()
    &&& forall|k: int| 0 <= k < order.len() ==> #[trigger] order[k] < group.len()
    &&& forall|a: int, b: int|
        0 <= a < b < order.len() ==> #[trigger] order[a] != #[trigger] order[b]
    &&& forall|a: int, b: int|
        0 <= a < b < order.len() ==> group[#[trigger] order[a] as int].cost
            <= group[#[trigger] order[b] as int].cost
}

} // verus!
