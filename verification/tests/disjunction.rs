use rucene::error::Error;
use rucene::search::postings::PostingsIterator;
use rucene::search::scorer::disjunction_scorer::{
    DisjunctionSumScorer, SimpleQueue, SubScorers, DEFAULT_MIN_SHOULD_MATCH,
};
use rucene::search::scorer::{max_scores, sum_scores, ScoreValue, Scorer};
use rucene::search::{DocIterator, NO_MORE_DOCS};
use rucene::util::disi::DisiPriorityQueue;

fn postings(docs: &[i32]) -> PostingsIterator {
    PostingsIterator::new(docs.to_vec()).unwrap()
}

fn drain(scorer: &mut DisjunctionSumScorer<PostingsIterator>) -> Vec<i32> {
    let mut out = vec![];
    loop {
        let doc = scorer.next().unwrap();
        if doc == NO_MORE_DOCS {
            break;
        }
        out.push(doc);
    }
    out
}

/// Docs 0..n, doc d matching term t when bit t of `pattern(d)` is set.
fn synthetic(n: i32, terms: usize, pattern: fn(i32) -> u32) -> Vec<Vec<i32>> {
    (0..terms).map(|t| (0..n).filter(|d| pattern(*d) >> t & 1 == 1).collect()).collect()
}

fn scramble(d: i32) -> u32 {
    ((d as u32).wrapping_mul(2654435761) >> 7) & 0xFFF
}

#[test]
fn postings_iterator_walks_in_order() {
    let mut it = postings(&[2, 5, 9]);
    assert_eq!(it.doc_id(), -1);
    assert_eq!(it.cost(), 3);
    assert_eq!(it.next().unwrap(), 2);
    assert_eq!(it.doc_id(), 2);
    assert_eq!(it.advance(5).unwrap(), 5);
    assert_eq!(it.advance(6).unwrap(), 9);
    assert_eq!(it.advance(3).unwrap(), 9);
    assert!(it.matches().unwrap());
    assert_eq!(it.next().unwrap(), NO_MORE_DOCS);
    assert_eq!(it.next().unwrap(), NO_MORE_DOCS);
    assert_eq!(it.advance(100).unwrap(), NO_MORE_DOCS);
    let mut it = postings(&[2, 5, 9]);
    assert_eq!(it.approximate_advance(10).unwrap(), NO_MORE_DOCS);
    let mut it = postings(&[2, 5, 9]);
    assert_eq!(it.approximate_next().unwrap(), 2);
    assert_eq!(it.approximate_advance(5).unwrap(), 5);
}

#[test]
fn postings_iterator_rejects_docs_out_of_order() {
    assert!(matches!(PostingsIterator::new(vec![1, 1]), Err(Error::IllegalArgument(_))));
    assert!(matches!(PostingsIterator::new(vec![3, 2]), Err(Error::IllegalArgument(_))));
    assert!(matches!(PostingsIterator::new(vec![-1, 2]), Err(Error::IllegalArgument(_))));
    assert!(matches!(PostingsIterator::new(vec![NO_MORE_DOCS]), Err(Error::IllegalArgument(_))));
    assert!(PostingsIterator::new(vec![]).is_ok());
    assert!(PostingsIterator::new(vec![0, NO_MORE_DOCS - 1]).is_ok());
}

#[test]
fn disjunction_of_two_terms_is_their_union() {
    let fox = postings(&[0, 2]);
    let dog = postings(&[1]);
    let mut scorer = DisjunctionSumScorer::new(vec![fox, dog], true, DEFAULT_MIN_SHOULD_MATCH);
    assert_eq!(scorer.doc_id(), -1);
    assert_eq!(scorer.cost(), 3);
    assert_eq!(drain(&mut scorer), vec![0, 1, 2]);
    assert_eq!(scorer.doc_id(), NO_MORE_DOCS);
    assert_eq!(scorer.next().unwrap(), NO_MORE_DOCS);
    assert_eq!(scorer.matches().unwrap(), true);
}

#[test]
fn disjunction_of_twelve_terms_with_three_required() {
    let lists = synthetic(500, 12, scramble);
    let expected: Vec<i32> = (0..500).filter(|d| scramble(*d).count_ones() >= 3).collect();
    assert!(!expected.is_empty() && expected.len() < 500);
    let children = lists.iter().map(|l| postings(l)).collect();
    let mut scorer = DisjunctionSumScorer::new(children, false, 3);
    assert_eq!(drain(&mut scorer), expected);
}

#[test]
fn disjunction_counts_matches_for_every_threshold() {
    let lists = synthetic(300, 5, scramble);
    for m in 0..7 {
        let least = if m > 1 { m as u32 } else { 1 };
        let expected: Vec<i32> =
            (0..300).filter(|d| (scramble(*d) & 0x1F).count_ones() >= least).collect();
        let children = lists.iter().map(|l| postings(l)).collect();
        let mut scorer = DisjunctionSumScorer::new(children, false, m);
        assert_eq!(drain(&mut scorer), expected, "threshold {}", m);
    }
}

#[test]
fn disjunction_in_a_heap_visits_what_the_list_visits() {
    let lists = synthetic(400, 12, scramble);
    let expected: Vec<i32> = (0..400).filter(|d| scramble(*d) != 0).collect();
    let children = lists.iter().map(|l| postings(l)).collect();
    let mut in_heap = DisjunctionSumScorer::new(children, false, 1);
    assert_eq!(drain(&mut in_heap), expected);
    let children: Vec<PostingsIterator> = lists.iter().map(|l| postings(l)).collect();
    let mut in_list = SubScorers::SQ(SimpleQueue::new(children));
    let children: Vec<PostingsIterator> = lists.iter().map(|l| postings(l)).collect();
    let mut heap = SubScorers::DPQ(DisiPriorityQueue::new(children));
    loop {
        let a = in_list.approximate_next(None).unwrap();
        let b = heap.approximate_next(Some(5)).unwrap();
        assert_eq!(a, b);
        assert_eq!(in_list.doc_id(), heap.doc_id());
        if a == NO_MORE_DOCS {
            break;
        }
    }
}

#[test]
fn disjunction_next_is_strictly_increasing_and_ends_at_the_sentinel() {
    let children = vec![postings(&[1, 4, 4000]), postings(&[4, 5]), postings(&[])];
    let mut scorer = DisjunctionSumScorer::new(children, false, 1);
    let mut last = scorer.doc_id();
    loop {
        let doc = scorer.next().unwrap();
        if doc == NO_MORE_DOCS {
            break;
        }
        assert!(doc > last);
        last = doc;
    }
    assert_eq!(last, 4000);
    assert_eq!(scorer.next().unwrap(), NO_MORE_DOCS);
}

#[test]
fn disjunction_advance_lands_on_a_match_and_never_before_the_target() {
    let lists = synthetic(200, 12, scramble);
    for layout_children in [3usize, 12] {
        for d in 0..200 {
            let children: Vec<PostingsIterator> =
                lists.iter().take(layout_children).map(|l| postings(l)).collect();
            let mask = (1u32 << layout_children) - 1;
            let mut scorer = DisjunctionSumScorer::new(children, false, 1);
            let landed = scorer.advance(d).unwrap();
            assert!(landed >= d);
            if scramble(d) & mask != 0 {
                assert_eq!(landed, d);
            }
            assert_eq!(scorer.doc_id(), landed);
            let children: Vec<PostingsIterator> =
                lists.iter().take(layout_children).map(|l| postings(l)).collect();
            let mut scorer = DisjunctionSumScorer::new(children, false, 1);
            assert!(scorer.advance(d + 1).unwrap() >= d + 1);
        }
    }
}

#[test]
fn disjunction_advance_ignores_the_required_count() {
    // Only doc 7 has two matches, yet advancing stops at the first doc
    // that any child matches.
    let children = vec![postings(&[3, 7]), postings(&[5, 7])];
    let mut scorer = DisjunctionSumScorer::new(children, false, 2);
    assert_eq!(scorer.advance(4).unwrap(), 5);
    assert_eq!(scorer.next().unwrap(), 7);
    assert_eq!(scorer.next().unwrap(), NO_MORE_DOCS);
    let children = vec![postings(&[3, 7]), postings(&[5, 7])];
    let mut scorer = DisjunctionSumScorer::new(children, false, 2);
    assert_eq!(scorer.approximate_next().unwrap(), 7);
    assert_eq!(scorer.approximate_advance(2).unwrap(), 7);
}

#[test]
fn disjunction_takes_children_where_they_stand() {
    let mut ahead = postings(&[2, 8, 9]);
    ahead.advance(8).unwrap();
    let fresh = postings(&[1, 9]);
    let mut scorer = DisjunctionSumScorer::new(vec![ahead, fresh], false, 1);
    assert_eq!(scorer.doc_id(), -1);
    assert_eq!(drain(&mut scorer), vec![1, 8, 9]);
    let mut a = postings(&[2, 8, 9]);
    a.advance(8).unwrap();
    let mut b = postings(&[1, 9]);
    b.next().unwrap();
    let queue = SimpleQueue::new(vec![a, b]);
    assert_eq!(queue.doc_id(), 1);
    assert_eq!(queue.len(), 2);
}

#[test]
fn disjunction_cost_is_the_sum_of_the_costs() {
    let children = vec![postings(&[1, 2, 3]), postings(&[]), postings(&[7, 9])];
    let scorer = DisjunctionSumScorer::new(children, true, 1);
    assert_eq!(scorer.cost(), 5);
}

#[test]
fn priority_queue_keeps_the_least_doc_on_top() {
    let lists: Vec<Vec<i32>> = vec![vec![9, 30], vec![4, 31], vec![7], vec![4, 5, 6], vec![]];
    let mut children: Vec<PostingsIterator> = lists.iter().map(|l| postings(l)).collect();
    for c in children.iter_mut() {
        c.next().unwrap();
    }
    let mut queue = DisiPriorityQueue::new(children);
    assert_eq!(queue.len(), 5);
    let mut seen = vec![];
    loop {
        let top = queue.peek().doc_id();
        if top == NO_MORE_DOCS {
            break;
        }
        seen.push(top);
        let least = queue.next_top().unwrap();
        assert_eq!(least, queue.peek().doc_id());
    }
    assert_eq!(seen, vec![4, 4, 5, 6, 7, 9, 30, 31]);
    let mut children: Vec<PostingsIterator> = lists.iter().map(|l| postings(l)).collect();
    for c in children.iter_mut() {
        c.next().unwrap();
    }
    let queue = DisiPriorityQueue::new(children);
    assert_eq!(queue.top_list(), vec![1, 3]);
    let children: Vec<PostingsIterator> = lists.iter().map(|l| postings(l)).collect();
    let mut queue = DisiPriorityQueue::new(children);
    assert_eq!(queue.advance_top(6).unwrap(), -1);
}

#[test]
fn disjunction_of_disjunctions_is_the_union_of_all() {
    let left = DisjunctionSumScorer::new(vec![postings(&[1, 9]), postings(&[4])], false, 1);
    let right = DisjunctionSumScorer::new(vec![postings(&[4, 6])], false, 1);
    let mut outer = DisjunctionSumScorer::new(vec![left, right], false, 1);
    assert_eq!(outer.cost(), 5);
    let mut seen = vec![];
    loop {
        let doc = outer.next().unwrap();
        if doc == NO_MORE_DOCS {
            break;
        }
        seen.push(doc);
    }
    assert_eq!(seen, vec![1, 4, 6, 9]);
}

#[test]
fn score_parts_are_the_scores_of_the_children_on_the_doc() {
    let a = PostingsIterator::with_freqs(vec![1, 5, 7], vec![10, 11, 12]).unwrap();
    let b = PostingsIterator::with_freqs(vec![5, 9], vec![20, 21]).unwrap();
    let c = PostingsIterator::with_freqs(vec![5, 7], vec![30, 31]).unwrap();
    let mut scorer = DisjunctionSumScorer::new(vec![a, b, c], true, 1);
    assert_eq!(scorer.next().unwrap(), 1);
    assert_eq!(scorer.score_parts().unwrap(), vec![10]);
    assert_eq!(scorer.next().unwrap(), 5);
    assert_eq!(scorer.score_parts().unwrap(), vec![11, 20, 30]);
    assert_eq!(scorer.score_parts().unwrap(), vec![11, 20, 30]);
    assert_eq!(scorer.next().unwrap(), 7);
    assert_eq!(scorer.score_parts().unwrap(), vec![12, 31]);
    assert_eq!(scorer.next().unwrap(), 9);
    assert_eq!(scorer.score_parts().unwrap(), vec![21]);
}

#[test]
fn score_parts_are_empty_when_no_scores_are_needed() {
    let a = PostingsIterator::with_freqs(vec![1], vec![10]).unwrap();
    let mut scorer = DisjunctionSumScorer::new(vec![a], false, 1);
    assert_eq!(scorer.next().unwrap(), 1);
    assert_eq!(scorer.score_parts().unwrap(), Vec::<u32>::new());
}

#[test]
fn score_parts_in_a_heap_follow_the_order_of_the_children() {
    let lists = synthetic(100, 12, scramble);
    let children: Vec<PostingsIterator> = lists
        .iter()
        .enumerate()
        .map(|(t, l)| {
            PostingsIterator::with_freqs(l.clone(), vec![t as u32 + 1; l.len()]).unwrap()
        })
        .collect();
    let mut scorer = rucene::search::scorer::disjunction_scorer::DisjunctionMaxScorer::new(
        children, 0, true,
    );
    loop {
        let doc = scorer.next().unwrap();
        if doc == NO_MORE_DOCS {
            break;
        }
        let expected: Vec<u32> =
            (0..12).filter(|t| scramble(doc) >> t & 1 == 1).map(|t| t + 1).collect();
        assert_eq!(scorer.score_parts().unwrap(), expected);
    }
    assert_eq!(scorer.doc_id(), NO_MORE_DOCS);
}

#[test]
fn postings_iterator_reports_frequencies() {
    let mut it = PostingsIterator::with_freqs(vec![3, 4], vec![7, 2]).unwrap();
    it.next().unwrap();
    assert_eq!(it.freq(), 7);
    assert_eq!(it.score().unwrap(), 7);
    it.next().unwrap();
    assert_eq!(it.score().unwrap(), 2);
    assert!(matches!(
        PostingsIterator::with_freqs(vec![3, 4], vec![7]),
        Err(Error::IllegalArgument(_))
    ));
    let mut once = PostingsIterator::new(vec![8]).unwrap();
    once.next().unwrap();
    assert_eq!(once.freq(), 1);
}

#[test]
fn disjunction_sum_score_adds_the_children_on_the_doc() {
    let a = PostingsIterator::with_freqs(vec![1, 5, 7], vec![10, 11, 12]).unwrap();
    let b = PostingsIterator::with_freqs(vec![5, 9], vec![20, u32::MAX]).unwrap();
    let c = PostingsIterator::with_freqs(vec![5, 7, 9], vec![30, 31, 1]).unwrap();
    let mut scorer = DisjunctionSumScorer::new(vec![a, b, c], true, 1);
    assert_eq!(scorer.next().unwrap(), 1);
    assert_eq!(scorer.score().unwrap(), 10);
    assert_eq!(scorer.next().unwrap(), 5);
    assert_eq!(scorer.score().unwrap(), 61);
    assert_eq!(scorer.next().unwrap(), 7);
    assert_eq!(scorer.score().unwrap(), 43);
    assert_eq!(scorer.next().unwrap(), 9);
    assert_eq!(scorer.score().unwrap(), u32::MAX);
    let a = PostingsIterator::with_freqs(vec![1], vec![10]).unwrap();
    let mut unscored = DisjunctionSumScorer::new(vec![a], false, 1);
    unscored.next().unwrap();
    assert_eq!(unscored.score().unwrap(), 0);
}

#[test]
fn disjunction_max_score_is_the_greatest_plus_a_share_of_the_rest() {
    let children = |freqs: [u32; 3]| {
        vec![
            PostingsIterator::with_freqs(vec![4], vec![freqs[0]]).unwrap(),
            PostingsIterator::with_freqs(vec![4, 6], vec![freqs[1], 9]).unwrap(),
            PostingsIterator::with_freqs(vec![4], vec![freqs[2]]).unwrap(),
        ]
    };
    let mut scorer = rucene::search::scorer::disjunction_scorer::DisjunctionMaxScorer::new(
        children([3, 8, 5]),
        2,
        true,
    );
    assert_eq!(scorer.next().unwrap(), 4);
    // 8 + (16 - 8) * 2
    assert_eq!(scorer.score().unwrap(), 24);
    assert_eq!(scorer.next().unwrap(), 6);
    assert_eq!(scorer.score().unwrap(), 9);
    let mut plain = rucene::search::scorer::disjunction_scorer::DisjunctionMaxScorer::new(
        children([3, 8, 5]),
        0,
        true,
    );
    plain.advance(4).unwrap();
    assert_eq!(plain.score().unwrap(), 8);
    let mut unscored = rucene::search::scorer::disjunction_scorer::DisjunctionMaxScorer::new(
        children([3, 8, 5]),
        2,
        false,
    );
    unscored.next().unwrap();
    assert_eq!(unscored.score().unwrap(), 0);
}

#[test]
fn scorers_nest_with_their_scores() {
    let either = DisjunctionSumScorer::new(
        vec![
            PostingsIterator::with_freqs(vec![2, 4], vec![1, 2]).unwrap(),
            PostingsIterator::with_freqs(vec![4, 5], vec![10, 20]).unwrap(),
        ],
        true,
        1,
    );
    let other = DisjunctionSumScorer::new(
        vec![PostingsIterator::with_freqs(vec![4, 9], vec![100, 200]).unwrap()],
        true,
        1,
    );
    let mut outer = DisjunctionSumScorer::new(vec![either, other], true, 1);
    assert_eq!(outer.next().unwrap(), 2);
    assert_eq!(outer.score().unwrap(), 1);
    assert_eq!(outer.next().unwrap(), 4);
    assert_eq!(outer.score().unwrap(), 112);
    assert_eq!(outer.next().unwrap(), 5);
    assert_eq!(outer.score().unwrap(), 20);
    assert_eq!(outer.next().unwrap(), 9);
    assert_eq!(outer.score().unwrap(), 200);
}

#[test]
fn counts_stay_at_their_greatest() {
    use_counts(3, 4, 7, 0, 12, 4);
    use_counts(u32::MAX, 1, u32::MAX, u32::MAX - 1, u32::MAX, u32::MAX);
    use_counts(4, 9, 13, 0, 36, 9);
    use_counts(1 << 16, 1 << 16, 1 << 17, 0, u32::MAX, 1 << 16);
    assert_eq!(17u32.to_text(), "17");
    assert_eq!(<u32 as ScoreValue>::zero(), 0);
    assert_eq!(<u32 as ScoreValue>::lowest(), 0);
    assert_eq!(sum_scores::<u32>(&vec![]), 0);
    assert_eq!(sum_scores(&vec![1u32, 2, 3]), 6);
    assert_eq!(max_scores(&vec![1u32, 7, 3], 3), 7 + (11 - 7) * 3);
    assert_eq!(max_scores::<u32>(&vec![], 3), 0);
}

fn use_counts(a: u32, b: u32, sum: u32, difference: u32, product: u32, greater: u32) {
    assert_eq!(a.plus(b), sum);
    assert_eq!(a.minus(b), difference);
    assert_eq!(a.times(b), product);
    assert_eq!(a.greater(b), greater);
}

#[test]
fn a_target_that_is_not_ahead_moves_nothing() {
    let children = vec![postings(&[2, 8, 20]), postings(&[5, 8])];
    let mut scorer = DisjunctionSumScorer::new(children, false, 1);
    assert_eq!(scorer.advance(-1).unwrap(), -1);
    assert_eq!(scorer.advance(6).unwrap(), 8);
    assert_eq!(scorer.advance(8).unwrap(), 8);
    assert_eq!(scorer.advance(3).unwrap(), 8);
    assert_eq!(scorer.doc_id(), 8);
    assert_eq!(scorer.next().unwrap(), 20);
    assert_eq!(scorer.advance(NO_MORE_DOCS).unwrap(), NO_MORE_DOCS);
    assert_eq!(scorer.advance(4).unwrap(), NO_MORE_DOCS);
}

#[test]
fn the_children_on_top_are_listed_once_in_rising_order() {
    let lists: Vec<Vec<i32>> =
        vec![vec![3], vec![1, 3], vec![3, 4], vec![2, 3], vec![3, 9], vec![0, 3], vec![5]];
    let mut children: Vec<PostingsIterator> = lists.iter().map(|l| postings(l)).collect();
    for c in children.iter_mut() {
        c.advance(3).unwrap();
    }
    let queue = DisiPriorityQueue::new(children);
    assert_eq!(queue.peek().doc_id(), 3);
    assert_eq!(queue.top_list(), vec![0, 1, 2, 3, 4, 5]);
    let children: Vec<PostingsIterator> = lists.iter().map(|l| postings(l)).collect();
    let queue = DisiPriorityQueue::new(children);
    assert_eq!(queue.top_list(), vec![0, 1, 2, 3, 4, 5, 6]);
}
