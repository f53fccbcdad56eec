use rucene::error::Error;
use rucene::search::scorer::disjunction_scorer::DisjunctionSumScorer;
use rucene::search::scorer::conjunction_scorer::ConjunctionScorer;
use rucene::search::scorer::disjunction_scorer::{DisjunctionMaxScorer, SimpleQueue, SubScorers};
use rucene::search::scorer::{least_after, max_scores, sum_scores, ScoreText, ScoreValue, Scorer};
use rucene::search::{Cursor, DocIterator, NO_MORE_DOCS};

/// Visits every `step`-th doc below `limit`, and fails when it is asked to
/// go past `fail_after`. Of the docs that it visits it confirms those that
/// `holds` divides.
struct Stride {
    step: i32,
    limit: i32,
    fail_after: i32,
    holds: i32,
    doc: i32,
}

impl Stride {
    fn new(step: i32, limit: i32) -> Stride {
        Stride { step, limit, fail_after: NO_MORE_DOCS, holds: 1, doc: -1 }
    }

    fn two_phase(step: i32, limit: i32, holds: i32) -> Stride {
        Stride { step, limit, fail_after: NO_MORE_DOCS, holds, doc: -1 }
    }
}

impl DocIterator for Stride {
    // The two functions of the model are never run.
    fn cursor(&self) -> Cursor {
        unreachable!()
    }

    fn inv(&self) -> bool {
        unreachable!()
    }

    fn doc_id(&self) -> i32 {
        self.doc
    }

    fn next(&mut self) -> Result<i32, Error> {
        let target = if self.doc == NO_MORE_DOCS { NO_MORE_DOCS } else { self.doc + 1 };
        self.advance(target)
    }

    fn advance(&mut self, target: i32) -> Result<i32, Error> {
        if target <= self.doc {
            return Ok(self.doc);
        }
        if target > self.fail_after {
            return Err(Error::UnexpectedEOF("the postings end early".to_string()));
        }
        let next = (target + self.step - 1) / self.step * self.step;
        self.doc = if next < self.limit { next } else { NO_MORE_DOCS };
        Ok(self.doc)
    }

    fn cost(&self) -> usize {
        (self.limit / self.step) as usize + 1
    }

    fn matches(&mut self) -> Result<bool, Error> {
        if self.doc > self.fail_after {
            return Err(Error::UnexpectedEOF("the positions end early".to_string()));
        }
        Ok(self.doc % self.holds == 0)
    }
}

/// A relevance score.
#[derive(Clone, Copy, Debug, PartialEq)]
struct Relevance(f32);

impl ScoreValue for Relevance {
    // The functions of the model are never run.
    fn zero_spec() -> Relevance {
        unreachable!()
    }

    fn lowest_spec() -> Relevance {
        unreachable!()
    }

    fn plus_spec(self, _other: Relevance) -> Relevance {
        unreachable!()
    }

    fn minus_spec(self, _other: Relevance) -> Relevance {
        unreachable!()
    }

    fn times_spec(self, _other: Relevance) -> Relevance {
        unreachable!()
    }

    fn greater_spec(self, _other: Relevance) -> Relevance {
        unreachable!()
    }

    fn text_spec(self) -> ScoreText {
        unreachable!()
    }

    fn zero() -> Relevance {
        Relevance(0.0)
    }

    fn lowest() -> Relevance {
        Relevance(f32::NEG_INFINITY)
    }

    fn plus(self, other: Relevance) -> Relevance {
        Relevance(self.0 + other.0)
    }

    fn minus(self, other: Relevance) -> Relevance {
        Relevance(self.0 - other.0)
    }

    fn times(self, other: Relevance) -> Relevance {
        Relevance(self.0 * other.0)
    }

    fn greater(self, other: Relevance) -> Relevance {
        Relevance(self.0.max(other.0))
    }

    fn to_text(self) -> String {
        format!("{}", self.0)
    }
}

impl Scorer for Stride {
    type Score = Relevance;

    fn score_spec(&self) -> Relevance {
        unreachable!()
    }

    fn score(&mut self) -> Result<Relevance, Error> {
        Ok(Relevance(1.0 / self.step as f32))
    }
}

#[test]
fn relevance_adds_up_over_the_children_on_the_doc() {
    let mut scorer = DisjunctionSumScorer::new(vec![Stride::new(4, 20), Stride::new(5, 21)], true, 1);
    assert_eq!(scorer.next().unwrap(), 0);
    assert_eq!(scorer.score().unwrap(), Relevance(0.0 + 0.25 + 0.2));
    assert_eq!(scorer.next().unwrap(), 4);
    assert_eq!(scorer.score().unwrap(), Relevance(0.0 + 0.25));
    assert_eq!(scorer.advance(20).unwrap(), 20);
    assert_eq!(scorer.score().unwrap(), Relevance(0.0 + 0.2));
}

#[test]
fn relevance_of_a_disjunction_max_is_the_greatest_plus_the_tie_breaker_share() {
    let children = vec![Stride::new(4, 20), Stride::new(5, 21), Stride::new(10, 21)];
    let mut scorer = DisjunctionMaxScorer::new(children, Relevance(0.1), true);
    assert_eq!(scorer.next().unwrap(), 0);
    let sum = 0.0f32 + 0.25 + 0.2 + 0.1;
    assert_eq!(scorer.score().unwrap(), Relevance(0.25 + (sum - 0.25) * 0.1));
    assert_eq!(scorer.advance(10).unwrap(), 10);
    let sum = 0.0f32 + 0.2 + 0.1;
    assert_eq!(scorer.score().unwrap(), Relevance(0.2 + (sum - 0.2) * 0.1));
    assert_eq!(
        max_scores(&vec![Relevance(1.0), Relevance(2.0), Relevance(0.5)], Relevance(0.1)),
        Relevance(2.0 + (3.5 - 2.0) * 0.1)
    );
    assert_eq!(max_scores(&vec![Relevance(-3.0)], Relevance(0.5)), Relevance(-3.0));
    assert_eq!(sum_scores(&vec![Relevance(1.5), Relevance(2.0)]), Relevance(3.5));
    assert_eq!(sum_scores::<Relevance>(&vec![]), Relevance(0.0));
}

#[test]
fn a_cursor_of_the_caller_joins_a_disjunction() {
    let mut scorer = DisjunctionSumScorer::new(vec![Stride::new(4, 20), Stride::new(6, 20)], true, 1);
    let mut seen = vec![];
    loop {
        let doc = scorer.next().unwrap();
        if doc == NO_MORE_DOCS {
            break;
        }
        seen.push((doc, scorer.score_parts().unwrap().len()));
    }
    assert_eq!(seen, vec![(0, 2), (4, 1), (6, 1), (8, 1), (12, 2), (16, 1), (18, 1)]);
}

#[test]
fn a_cursor_of_the_caller_uses_the_default_moves() {
    let mut cursor = Stride::new(5, 12);
    assert_eq!(cursor.approximate_next().unwrap(), 0);
    assert_eq!(cursor.approximate_advance(3).unwrap(), 5);
    assert!(cursor.matches().unwrap());
    assert_eq!(cursor.approximate_next().unwrap(), 10);
    assert_eq!(cursor.approximate_next().unwrap(), NO_MORE_DOCS);
}

#[test]
fn the_error_of_a_child_comes_out_of_the_disjunction() {
    let mut failing = Stride::new(3, 30);
    failing.fail_after = 10;
    let mut scorer = DisjunctionSumScorer::new(vec![Stride::new(7, 30), failing], false, 1);
    assert_eq!(scorer.advance(9).unwrap(), 9);
    assert_eq!(scorer.next().unwrap(), 12);
    match scorer.advance(20) {
        Err(Error::UnexpectedEOF(m)) => assert_eq!(m, "the postings end early"),
        _ => panic!("expected the child's error"),
    }
}

#[test]
fn a_conjunction_confirms_what_all_its_children_confirm() {
    let children = vec![Stride::new(2, 30), Stride::two_phase(3, 30, 4), Stride::two_phase(1, 30, 9)];
    let mut scorer = ConjunctionScorer::new(children);
    let mut seen = vec![];
    loop {
        let doc = scorer.next().unwrap();
        if doc == NO_MORE_DOCS {
            break;
        }
        seen.push((doc, scorer.matches().unwrap()));
        assert_eq!(scorer.doc_id(), doc);
    }
    // Every sixth doc is a candidate; 0 holds for all, 12 and 24 fail the
    // child that holds every ninth doc, 6 and 18 the one that holds every
    // fourth.
    assert_eq!(seen, vec![(0, true), (6, false), (12, false), (18, false), (24, false)]);
    let mut scorer =
        ConjunctionScorer::new(vec![Stride::two_phase(4, 40, 8), Stride::two_phase(6, 40, 12)]);
    assert_eq!(scorer.advance(10).unwrap(), 12);
    assert!(!scorer.matches().unwrap());
    assert_eq!(scorer.next().unwrap(), 24);
    assert!(scorer.matches().unwrap());
    assert_eq!(DocIterator::doc_id(&scorer), 24);
    assert!(DocIterator::matches(&mut scorer).unwrap());
}

#[test]
fn a_conjunction_hands_on_the_error_of_a_child_that_cannot_confirm() {
    let mut failing = Stride::new(5, 30);
    failing.fail_after = 20;
    let mut scorer = ConjunctionScorer::new(vec![Stride::new(1, 10), failing]);
    assert_eq!(scorer.advance(5).unwrap(), 5);
    assert!(scorer.matches().unwrap());
    let mut late = Stride::new(5, 30);
    late.fail_after = 4;
    late.doc = 5;
    let mut ahead = Stride::new(1, 10);
    ahead.doc = 5;
    let mut scorer = ConjunctionScorer::new(vec![ahead, late]);
    match scorer.matches() {
        Err(Error::UnexpectedEOF(m)) => assert_eq!(m, "the positions end early"),
        _ => panic!("expected the child's error"),
    }
}

#[test]
fn a_disjunction_confirms_every_doc_that_it_visits() {
    let children = vec![Stride::two_phase(3, 10, 2), Stride::two_phase(5, 10, 7)];
    let mut scorer = DisjunctionSumScorer::new(children, false, 1);
    assert_eq!(scorer.advance(3).unwrap(), 3);
    assert!(scorer.matches().unwrap());
    assert!(DocIterator::matches(&mut scorer).unwrap());
    let children = vec![Stride::two_phase(3, 10, 2)];
    let mut scorer = DisjunctionMaxScorer::new(children, Relevance(0.0), false);
    assert_eq!(scorer.advance(3).unwrap(), 3);
    assert!(scorer.matches().unwrap());
    assert!(DocIterator::matches(&mut scorer).unwrap());
}

#[test]
fn a_failing_child_leaves_the_plain_list_where_it_stood() {
    let mut failing = Stride::new(3, 30);
    failing.fail_after = 10;
    let mut queue = SimpleQueue::new(vec![Stride::new(7, 30), failing, Stride::new(5, 30)]);
    assert_eq!(queue.doc_id(), -1);
    assert_eq!(queue.approximate_advance(9).unwrap(), 9);
    assert_eq!(queue.doc_id(), 9);
    match queue.approximate_advance(20) {
        Err(Error::UnexpectedEOF(m)) => assert_eq!(m, "the postings end early"),
        _ => panic!("expected the child's error"),
    }
    assert_eq!(queue.doc_id(), 9);
    // A target that is not ahead asks no child, so it cannot fail.
    assert_eq!(queue.approximate_advance(9).unwrap(), 9);
    assert_eq!(queue.approximate_advance(-1).unwrap(), 9);
}

#[test]
fn a_failing_child_stops_the_step_of_the_plain_list() {
    let mut failing = Stride::new(4, 30);
    failing.fail_after = 4;
    let mut queue = SubScorers::SQ(SimpleQueue::new(vec![failing, Stride::new(6, 30)]));
    assert_eq!(queue.approximate_next(Some(1)).unwrap(), 0);
    assert_eq!(queue.approximate_next(Some(1)).unwrap(), 4);
    assert_eq!(queue.doc_id(), 4);
    assert!(queue.approximate_next(Some(1)).is_err());
    assert_eq!(queue.doc_id(), 4);
}

#[test]
fn the_least_of_a_move_keeps_the_error_of_the_move() {
    assert_eq!(least_after(7, Ok(3)).unwrap(), 3);
    assert_eq!(least_after(7, Ok(7)).unwrap(), 7);
    assert_eq!(least_after(7, Ok(12)).unwrap(), 7);
    assert_eq!(least_after(NO_MORE_DOCS, Ok(NO_MORE_DOCS)).unwrap(), NO_MORE_DOCS);
    match least_after(7, Err(Error::UnexpectedEOF("cut".to_string()))) {
        Err(Error::UnexpectedEOF(m)) => assert_eq!(m, "cut"),
        _ => panic!("expected the error of the move"),
    }
}
