use rucene::search::postings::PostingsIterator;
use rucene::search::scorer::conjunction_scorer::ConjunctionScorer;
use rucene::search::scorer::disjunction_scorer::DisjunctionSumScorer;
use rucene::search::{DocIterator, NO_MORE_DOCS};

fn postings(docs: &[i32]) -> PostingsIterator {
    PostingsIterator::new(docs.to_vec()).unwrap()
}

fn drain<T: DocIterator>(scorer: &mut T) -> Vec<i32> {
    let mut out = vec![];
    loop {
        let doc = scorer.next().unwrap();
        if doc == NO_MORE_DOCS {
            break;
        }
        out.push(doc);
    }
    out
}

fn scramble(d: i32) -> u32 {
    ((d as u32).wrapping_mul(2654435761) >> 9) & 0x7
}

#[test]
fn conjunction_visits_the_docs_that_all_children_match() {
    let children = vec![postings(&[1, 3, 5, 7, 9]), postings(&[3, 4, 5, 9]), postings(&[0, 3, 9, 10])];
    let mut scorer = ConjunctionScorer::new(children);
    assert_eq!(scorer.doc_id(), -1);
    assert_eq!(scorer.next().unwrap(), 3);
    assert_eq!(scorer.doc_id(), 3);
    assert!(scorer.matches().unwrap());
    assert_eq!(scorer.doc_id(), 3);
    assert_eq!(scorer.next().unwrap(), 9);
    assert_eq!(scorer.next().unwrap(), NO_MORE_DOCS);
    assert_eq!(scorer.next().unwrap(), NO_MORE_DOCS);
    assert_eq!(scorer.doc_id(), NO_MORE_DOCS);
}

#[test]
fn conjunction_agrees_with_a_count_of_matches() {
    let lists: Vec<Vec<i32>> =
        (0..3).map(|t| (0..600).filter(|d| scramble(*d) >> t & 1 == 1).collect()).collect();
    let expected: Vec<i32> = (0..600).filter(|d| scramble(*d) == 7).collect();
    assert!(!expected.is_empty());
    let mut scorer = ConjunctionScorer::new(lists.iter().map(|l| postings(l)).collect());
    assert_eq!(drain(&mut scorer), expected);
    for target in 0..600 {
        let mut scorer = ConjunctionScorer::new(lists.iter().map(|l| postings(l)).collect());
        let landed = scorer.advance(target).unwrap();
        let first = expected.iter().copied().find(|d| *d >= target).unwrap_or(NO_MORE_DOCS);
        assert_eq!(landed, first);
        assert_eq!(scorer.advance(target).unwrap(), landed);
        assert!(scorer.advance(target + 1).unwrap() >= target + 1);
    }
}

#[test]
fn conjunction_of_one_child_is_that_child() {
    let mut scorer = ConjunctionScorer::new(vec![postings(&[2, 4])]);
    assert_eq!(drain(&mut scorer), vec![2, 4]);
}

#[test]
fn conjunction_with_an_empty_child_matches_nothing() {
    let mut scorer = ConjunctionScorer::new(vec![postings(&[2, 4]), postings(&[])]);
    assert_eq!(scorer.next().unwrap(), NO_MORE_DOCS);
}

#[test]
fn conjunction_is_led_by_the_cheapest_child() {
    let children = vec![postings(&[1, 2, 3, 4, 5, 6]), postings(&[2, 6]), postings(&[2, 3, 6])];
    let scorer = ConjunctionScorer::new(children);
    assert_eq!(scorer.cost(), 2);
}

#[test]
fn conjunction_takes_children_where_they_stand() {
    let mut ahead = postings(&[2, 5, 8]);
    ahead.advance(5).unwrap();
    let fresh = postings(&[2, 5, 8, 9]);
    // The child that is ahead costs least and leads, so the walk goes on
    // from where it stands.
    let mut scorer = ConjunctionScorer::new(vec![fresh, ahead]);
    assert_eq!(scorer.doc_id(), 5);
    assert_eq!(drain(&mut scorer), vec![8]);
    let mut ahead = postings(&[2, 5, 8, 9, 10]);
    ahead.advance(5).unwrap();
    let mut scorer = ConjunctionScorer::new(vec![postings(&[2, 5, 8]), ahead]);
    assert_eq!(scorer.doc_id(), -1);
    assert_eq!(drain(&mut scorer), vec![5, 8]);
}

#[test]
fn conjunction_of_disjunctions() {
    let either = DisjunctionSumScorer::new(vec![postings(&[1, 4, 9]), postings(&[2, 4, 7])], false, 1);
    let other = DisjunctionSumScorer::new(vec![postings(&[2, 9, 11])], false, 1);
    let mut both = ConjunctionScorer::new(vec![either, other]);
    assert_eq!(drain(&mut both), vec![2, 9]);
}

#[test]
fn disjunction_of_conjunctions() {
    let left = ConjunctionScorer::new(vec![postings(&[1, 4, 9]), postings(&[4, 9, 12])]);
    let right = ConjunctionScorer::new(vec![postings(&[2, 7]), postings(&[2, 3, 7, 9])]);
    let mut either = DisjunctionSumScorer::new(vec![left, right], false, 1);
    assert_eq!(drain(&mut either), vec![2, 4, 7, 9]);
}

#[test]
fn conjunction_score_parts_come_from_every_child() {
    let a = PostingsIterator::with_freqs(vec![1, 5], vec![10, 11]).unwrap();
    let b = PostingsIterator::with_freqs(vec![5, 9], vec![20, 21]).unwrap();
    let mut scorer = ConjunctionScorer::new(vec![a, b]);
    assert_eq!(scorer.next().unwrap(), 5);
    assert_eq!(scorer.score_parts().unwrap(), vec![11, 20]);
    assert_eq!(scorer.score().unwrap(), 31);
    assert_eq!(scorer.doc_id(), 5);
}
