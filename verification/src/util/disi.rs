//! A priority queue of cursors, least doc first.

use vstd::prelude::*;

use crate::error::Error;
use crate::search::scorer::{
    all_ordered, all_ready, all_unfailing, cursors, lemma_lowest_position, lowest_position,
    scores_at, scores_on, Scorer,
};
use crate::search::{ready, Cursor, DocIterator, NO_MORE_DOCS};
use crate::util::DocId;

verus! {

/// A binary min-heap over cursors, keyed on the doc each stands on.
///
/// The cursors stay where they were put; the heap orders their indices.
pub struct DisiPriorityQueue<T: DocIterator> {
    scorers: Vec<T>,
    heap: Vec<usize>,
}

impl<T: DocIterator> DisiPriorityQueue<T> {
    /// The states of the cursors, in the order in which they were given.
    pub closed spec fn children(&self) -> Seq<Cursor> {
        cursors(self.scorers@)
    }

    /// The cursors themselves, in the order in which they were given.
    pub closed spec fn scorers(&self) -> Seq<T> {
        self.scorers@
    }

    /// Index, among the children, of the cursor at the top of the heap.
    pub closed spec fn top_index(&self) -> int {
        self.heap@[0] as int
    }

    /// The doc on which the cursor in heap slot `slot` stands.
    spec fn key(&self, slot: int) -> int {
        self.scorers@[self.heap@[slot] as int].cursor().position
    }

    /// Some slot of the heap holds the index `c`.
    spec fn holds(&self, c: int) -> bool {
        exists|k: int| 0 <= k < self.heap@.len() && #[trigger] self.heap@[k] == c
    }

    /// The heap holds every index of a cursor, each in one slot.
    spec fn arranged(&self) -> bool {
        &&& self.heap@.len() == self.scorers@.len()
        &&& forall|k: int| 0 <= k < self.heap@.len() ==> #[trigger] self.heap@[k] < self.scorers@.len()
        &&& forall|c: int| 0 <= c < self.scorers@.len() ==> #[trigger] self.holds(c)
        &&& forall|a: int, b: int|
            0 <= a < b < self.heap@.len() ==> #[trigger] self.heap@[a] != #[trigger] self.heap@[b]
    }

    /// The docs on which the cursors stand, by heap slot.
    spec fn keys(&self) -> Seq<int> {
        Seq::new(self.heap@.len(), |slot: int| self.key(slot))
    }

    /// Every slot whose parent is at or beyond `start` holds a doc that is
    /// not below its parent's.
    spec fn ordered_from(&self, start: int) -> bool {
        heap_ordered_from(self.keys(), start)
    }

    /// Every cursor can be moved, and the heap is in order.
    pub closed spec fn wf(&self) -> bool {
        &&& all_ready(self.scorers@)
        &&& self.arranged()
        &&& self.ordered_from(0)
    }

    /// The top of a heap in order is the least of all.
    proof fn lemma_top_least(&self, slot: int)
        requires
            self.ordered_from(0),
            0 <= slot < self.heap@.len(),
        ensures
            self.key(0) <= self.key(slot),
        decreases slot,
    {
        if slot > 0 {
            self.lemma_top_least((slot - 1) / 2);
            assert(self.keys()[(slot - 1) / 2] <= self.keys()[slot]);
        }
    }

    /// The cursor at the top stands on the least position of all.
    pub proof fn lemma_top_is_lowest(&self)
        requires
            self.wf(),
            self.children().len() > 0,
        ensures
            0 <= self.top_index() < self.children().len(),
            self.children()[self.top_index()].position == lowest_position(self.children()),
    {
        let group = self.children();
        assert(all_ordered(group)) by {
            assert forall|i: int| 0 <= i < group.len() implies (#[trigger] group[i]).ordered() by {
                assert(ready(self.scorers@[i]));
            }
        }
        lemma_lowest_position(group);
        assert(self.heap@[0] < self.scorers@.len());
        assert(group[self.top_index()].position == self.key(0));
        assert forall|c: int| 0 <= c < group.len() implies self.key(0) <= (#[trigger] group[c]).position by {
            assert(self.holds(c));
            let k = choose|k: int| 0 <= k < self.heap@.len() && #[trigger] self.heap@[k] == c;
            self.lemma_top_least(k);
        }
    }

    /// The states of the cursors of a queue in order are ordered.
    pub proof fn lemma_children_ordered(&self)
        requires
            self.wf(),
        ensures
            all_ordered(self.children()),
    {
        let group = self.children();
        assert forall|i: int| 0 <= i < group.len() implies (#[trigger] group[i]).ordered() by {
            assert(ready(self.scorers@[i]));
        }
    }

    /// The doc on which the cursor in heap slot `slot` stands.
    fn key_at(&self, slot: usize) -> (doc: DocId)
        requires
            all_ready(self.scorers@),
            self.arranged(),
            slot < self.heap@.len(),
        ensures
            doc == self.key(slot as int),
    {
        let c = self.heap[slot];
        assert(self.heap@[slot as int] < self.scorers@.len());
        assert(ready(self.scorers@[c as int]));
        self.scorers[c].doc_id()
    }

    /// Lets the entry in slot `start` sink to its place, given that all
    /// slots below it are in order already.
    fn sift_down(&mut self, start: usize)
        requires
            all_ready(old(self).scorers@),
            old(self).arranged(),
            start < old(self).heap@.len(),
            sifting(old(self).keys(), start as int, start as int),
        ensures
            final(self).scorers@ == old(self).scorers@,
            final(self).arranged(),
            final(self).ordered_from(start as int),
    {
        let n = self.heap.len();
        let mut i = start;
        loop
            invariant
                self.scorers@ == old(self).scorers@,
                all_ready(self.scorers@),
                self.arranged(),
                n == self.heap@.len(),
                start <= i < n,
                sifting(self.keys(), start as int, i as int),
            ensures
                self.scorers@ == old(self).scorers@,
                self.arranged(),
                self.ordered_from(start as int),
            decreases n - i,
        {
            if n < 2 || i > (n - 2) / 2 {
                proof {
                    lemma_sift_done(self.keys(), start as int, i as int);
                }
                break ;
            }
            let left = 2 * i + 1;
            let right = left + 1;
            let mut least = left;
            if right < n && self.key_at(right) < self.key_at(left) {
                least = right;
            }
            if self.key_at(least) >= self.key_at(i) {
                proof {
                    lemma_sift_done(self.keys(), start as int, i as int);
                }
                break ;
            }
            let ghost before = *self;
            let upper = self.heap[i];
            let lower = self.heap[least];
            self.heap[i] = lower;
            self.heap[least] = upper;
            proof {
                assert forall|c: int| 0 <= c < self.scorers@.len() implies #[trigger] self.holds(
                    c,
                ) by {
                    assert(before.holds(c));
                    let k = choose|k: int| 0 <= k < before.heap@.len() && #[trigger] before.heap@[k] == c;
                    if k == i {
                        assert(self.heap@[least as int] == c);
                    } else if k == least {
                        assert(self.heap@[i as int] == c);
                    } else {
                        assert(self.heap@[k] == c);
                    }
                }
                let keys = before.keys();
                assert(self.keys() =~= keys.update(i as int, keys[least as int]).update(
                    least as int,
                    keys[i as int],
                ));
                lemma_sift_swap(keys, start as int, i as int, least as int);
            }
            i = least;
        }
    }

    /// A queue over `children`.
    pub fn new(children: Vec<T>) -> (queue: DisiPriorityQueue<T>)
        requires
            all_ready(children@),
        ensures
            queue.wf(),
            queue.scorers() == children@,
            queue.children() == cursors(children@),
    {
        let n = children.len();
        let mut heap: Vec<usize> = Vec::new();
        let mut c: usize = 0;
        while c < n
            invariant
                c <= n,
                heap@.len() == c,
                forall|k: int| 0 <= k < c ==> heap@[k] == k,
            decreases n - c,
        {
            heap.push(c);
            c += 1;
        }
        let mut queue = DisiPriorityQueue { scorers: children, heap };
        assert(queue.arranged()) by {
            assert forall|c: int| 0 <= c < queue.scorers@.len() implies #[trigger] queue.holds(c) by {
                assert(queue.heap@[c] == c);
            }
        }
        let mut i = n / 2;
        proof {
            lemma_sift_leaves(queue.keys(), i as int);
        }
        while i > 0
            invariant
                queue.scorers@ == children@,
                all_ready(queue.scorers@),
                queue.arranged(),
                n == queue.heap@.len(),
                i <= n / 2,
                queue.ordered_from(i as int),
            decreases i,
        {
            i -= 1;
            proof {
                lemma_sift_start(queue.keys(), i as int);
            }
            queue.sift_down(i);
        }
        queue
    }

    /// Number of cursors.
    pub fn len(&self) -> (n: usize)
        requires
            self.wf(),
        ensures
            n == self.children().len(),
    {
        self.scorers.len()
    }

    /// The cursor that stands on the least doc.
    pub fn peek(&self) -> (top: &T)
        requires
            self.wf(),
            self.children().len() > 0,
        ensures
            ready(*top),
            top.cursor() == self.children()[self.top_index()],
            top.cursor().position == lowest_position(self.children()),
    {
        proof {
            self.lemma_top_is_lowest();
        }
        let c = self.heap[0];
        &self.scorers[c]
    }

    /// The indices of all the cursors that stand on the least doc, in
    /// ascending order.
    pub fn top_list(&self) -> (list: Vec<usize>)
        requires
            self.wf(),
        ensures
            forall|j: int|
                0 <= j < list@.len() ==> #[trigger] list@[j] < self.children().len()
                    && self.children()[list@[j] as int].position == lowest_position(
                    self.children(),
                ),
            forall|c: int|
                0 <= c < self.children().len() && (#[trigger] self.children()[c]).position
                    == lowest_position(self.children()) ==> list@.contains(c as usize),
            forall|i: int, j: int|
                0 <= i < j < list@.len() ==> #[trigger] list@[i] < #[trigger] list@[j],
            list@.no_duplicates(),
    {
        let mut list: Vec<usize> = Vec::new();
        let n = self.scorers.len();
        if n == 0 {
            return list;
        }
        let top = self.peek().doc_id();
        let mut c: usize = 0;
        while c < n
            invariant
                n == self.scorers@.len(),
                c <= n,
                all_ready(self.scorers@),
                top == lowest_position(self.children()),
                forall|j: int|
                    0 <= j < list@.len() ==> #[trigger] list@[j] < c && self.children()[list@[j] as int].position
                        == top,
                forall|k: int|
                    0 <= k < c && (#[trigger] self.children()[k]).position == top
                        ==> list@.contains(k as usize),
                forall|i: int, j: int| 0 <= i < j < list@.len() ==> list@[i] < list@[j],
            decreases n - c,
        {
            assert(ready(self.scorers@[c as int]));
            if self.scorers[c].doc_id() == top {
                let ghost before = list@;
                list.push(c);
                proof {
                    assert(list@[before.len() as int] == c);
                    assert forall|k: int|
                        0 <= k < c + 1 && (#[trigger] self.children()[k]).position
                            == top implies list@.contains(k as usize) by {
                        if k < c {
                            let j = choose|j: int| 0 <= j < before.len() && before[j] == k as usize;
                            assert(list@[j] == k as usize);
                        }
                    }
                }
            }
            c += 1;
        }
        list
    }

    /// Moves the top cursor to its next doc and puts the heap back in
    /// order. Returns the least doc that any cursor stands on afterwards.
    pub fn next_top(&mut self) -> (r: Result<DocId, Error>)
        requires
            old(self).wf(),
            old(self).children().len() > 0,
        ensures
            r matches Ok(doc) ==> {
                &&& final(self).wf()
                &&& doc == lowest_position(final(self).children())
                &&& final(self).children() == old(self).children().update(
                    old(self).top_index(),
                    final(self).children()[old(self).top_index()],
                )
                &&& old(self).children()[old(self).top_index()].moves_to(
                    final(self).children()[old(self).top_index()],
                    lowest_position(old(self).children()) + 1,
                    final(self).children()[old(self).top_index()].position,
                )
            },
            r is Err ==> !old(self).children()[old(self).top_index()].unfailing,
            r is Err ==> final(self).children().len() == old(self).children().len() && forall|
                k: int,
            |
                0 <= k < old(self).children().len() && k != old(self).top_index()
                    ==> #[trigger] final(self).children()[k] == old(self).children()[k],
    {
        proof {
            self.lemma_top_is_lowest();
        }
        let c = self.heap[0];
        let moved = self.scorers[c].approximate_next();
        if let Err(e) = moved {
            return Err(e);
        }
        self.restore_top(Ghost(*old(self)));
        Ok(self.peek().doc_id())
    }

    /// Advances the top cursor to `target` and puts the heap back in order.
    /// Returns the least doc that any cursor stands on afterwards.
    pub fn advance_top(&mut self, target: DocId) -> (r: Result<DocId, Error>)
        requires
            old(self).wf(),
            old(self).children().len() > 0,
            lowest_position(old(self).children()) < target,
        ensures
            r matches Ok(doc) ==> {
                &&& final(self).wf()
                &&& doc == lowest_position(final(self).children())
                &&& final(self).children() == old(self).children().update(
                    old(self).top_index(),
                    final(self).children()[old(self).top_index()],
                )
                &&& old(self).children()[old(self).top_index()].moves_to(
                    final(self).children()[old(self).top_index()],
                    target as int,
                    final(self).children()[old(self).top_index()].position,
                )
            },
            r is Err ==> !old(self).children()[old(self).top_index()].unfailing,
            r is Err ==> final(self).children().len() == old(self).children().len() && forall|
                k: int,
            |
                0 <= k < old(self).children().len() && k != old(self).top_index()
                    ==> #[trigger] final(self).children()[k] == old(self).children()[k],
    {
        proof {
            self.lemma_top_is_lowest();
        }
        let c = self.heap[0];
        let moved = self.scorers[c].approximate_advance(target);
        if let Err(e) = moved {
            return Err(e);
        }
        self.restore_top(Ghost(*old(self)));
        Ok(self.peek().doc_id())
    }

    /// Puts the heap back in order after the top cursor of `before` has
    /// moved forward.
    fn restore_top(&mut self, Ghost(before): Ghost<Self>)
        requires
            before.wf(),
            before.heap@ == old(self).heap@,
            before.scorers@.len() > 0,
            old(self).scorers@ == before.scorers@.update(
                before.top_index(),
                old(self).scorers@[before.top_index()],
            ),
            ready(old(self).scorers@[before.top_index()]),
            before.scorers@[before.top_index()].cursor().position <= old(self).scorers@[before.top_index()].cursor().position,
        ensures
            final(self).wf(),
            final(self).scorers@ == old(self).scorers@,
    {
        proof {
            assert(before.heap@[0] < before.scorers@.len());
            assert forall|i: int| 0 <= i < self.scorers@.len() implies ready(
                #[trigger] self.scorers@[i],
            ) by {
                if i != before.top_index() {
                    assert(ready(before.scorers@[i]));
                }
            }
            assert(self.arranged()) by {
                assert forall|c: int| 0 <= c < self.scorers@.len() implies #[trigger] self.holds(
                    c,
                ) by {
                    assert(before.holds(c));
                    let k = choose|k: int| 0 <= k < before.heap@.len() && #[trigger] before.heap@[k] == c;
                    assert(self.heap@[k] == c);
                }
            }
            assert forall|k: int| 1 <= k < self.heap@.len() implies #[trigger] self.keys()[k]
                == before.keys()[k] by {
                assert(before.heap@[0] != before.heap@[k]);
                assert(before.heap@[k] < before.scorers@.len());
            }
            assert(sifting(self.keys(), 0, 0)) by {
                let keys = self.keys();
                assert forall|k: int|
                    1 <= k < keys.len() && (k - 1) / 2 >= 0 && (k - 1) / 2 != 0 implies keys[(k - 1)
                    / 2] <= #[trigger] keys[k] by {
                    assert(before.keys()[(k - 1) / 2] <= before.keys()[k]);
                }
            }
        }
        self.sift_down(0);
    }
}

impl<T: Scorer> DisiPriorityQueue<T> {
    /// The scores of all the cursors that stand on the least doc, which
    /// must be a real doc, in the order in which the cursors were given.
    /// No cursor moves.
    pub fn top_scores(&mut self) -> (r: Result<Vec<T::Score>, Error>)
        requires
            old(self).wf(),
            0 <= lowest_position(old(self).children()) < NO_MORE_DOCS,
        ensures
            r matches Ok(scores) ==> {
                &&& scores@ == scores_at(
                    old(self).scorers(),
                    lowest_position(old(self).children()),
                )
                &&& scores@ == scores_at(
                    final(self).scorers(),
                    lowest_position(old(self).children()),
                )
                &&& final(self).wf()
                &&& final(self).children() == old(self).children()
            },
            r is Err ==> !all_unfailing(old(self).children()),
    {
        proof {
            self.lemma_children_ordered();
            lemma_lowest_position(self.children());
        }
        if self.scorers.len() == 0 {
            return Ok(Vec::new());
        }
        let doc = self.peek().doc_id();
        let r = scores_on(&mut self.scorers, doc);
        proof {
            if r is Ok {
                assert(self.children() == old(self).children());
                assert forall|k: int| 0 <= k < self.heap@.len() implies self.key(k) == old(
                    self).key(k) by {
                    assert(self.heap@[k] < self.scorers@.len());
                    assert(self.children()[self.heap@[k] as int] == old(
                        self).children()[self.heap@[k] as int]);
                }
                assert forall|c: int| 0 <= c < self.scorers@.len() implies #[trigger] self.holds(
                    c,
                ) by {
                    assert(old(self).holds(c));
                }
                assert(self.keys() =~= old(self).keys());
            }
        }
        r
    }
}

/// In a heap with these keys, every slot whose parent is at or beyond
/// `start` holds a key that is not below its parent's.
pub open spec fn heap_ordered_from(keys: Seq<int>, start: int) -> bool {
    forall|k: int|
        1 <= k < keys.len() && (k - 1) / 2 >= start ==> keys[(k - 1) / 2] <= #[trigger] keys[k]
}

/// The state of a heap while the entry in slot `i` sinks from slot `start`:
/// every parent from `start` on but `i` is in order with its children, and
/// the children of `i` are in order with its parent.
pub open spec fn sifting(keys: Seq<int>, start: int, i: int) -> bool {
    &&& forall|k: int|
        1 <= k < keys.len() && (k - 1) / 2 >= start && (k - 1) / 2 != i ==> keys[(k - 1) / 2]
            <= #[trigger] keys[k]
    &&& i > start ==> (i - 1) / 2 >= start && forall|k: int|
        1 <= k < keys.len() && (k - 1) / 2 == i ==> keys[(i - 1) / 2] <= #[trigger] keys[k]
}

/// A heap in order from the slot after `start` on is ready for the entry
/// in `start` to sink.
proof fn lemma_sift_start(keys: Seq<int>, start: int)
    requires
        heap_ordered_from(keys, start + 1),
    ensures
        sifting(keys, start, start),
{
}

/// No slot has a parent in the second half of a heap.
proof fn lemma_sift_leaves(keys: Seq<int>, half: int)
    requires
        half == keys.len() / 2,
    ensures
        heap_ordered_from(keys, half),
{
}

/// Swapping the sinking entry with its least child, which is less than it,
/// leaves the heap in order but for that child's slot.
proof fn lemma_sift_swap(keys: Seq<int>, start: int, i: int, least: int)
    requires
        sifting(keys, start, i),
        0 <= start <= i,
        least < keys.len(),
        least == 2 * i + 1 || least == 2 * i + 2,
        keys[least] < keys[i],
        2 * i + 1 < keys.len() ==> keys[least] <= keys[2 * i + 1],
        2 * i + 2 < keys.len() ==> keys[least] <= keys[2 * i + 2],
    ensures
        sifting(keys.update(i, keys[least]).update(least, keys[i]), start, least),
{
    let swapped = keys.update(i, keys[least]).update(least, keys[i]);
    assert forall|k: int|
        1 <= k < swapped.len() && (k - 1) / 2 >= start && (k - 1) / 2 != least implies swapped[(k
        - 1) / 2] <= #[trigger] swapped[k] by {
        if (k - 1) / 2 == i {
            assert(k == 2 * i + 1 || k == 2 * i + 2);
        } else if k == i {
            assert(keys[(i - 1) / 2] <= keys[least]);
        } else {
            assert(keys[(k - 1) / 2] <= keys[k]);
        }
    }
    assert forall|k: int| 1 <= k < swapped.len() && (k - 1) / 2 == least implies swapped[(least
        - 1) / 2] <= #[trigger] swapped[k] by {
        assert(keys[(k - 1) / 2] <= keys[k]);
    }
}

/// Once the sinking entry is not above any of its children, the heap is in
/// order.
proof fn lemma_sift_done(keys: Seq<int>, start: int, i: int)
    requires
        sifting(keys, start, i),
        0 <= start <= i < keys.len(),
        2 * i + 1 < keys.len() ==> keys[i] <= keys[2 * i + 1],
        2 * i + 2 < keys.len() ==> keys[i] <= keys[2 * i + 2],
    ensures
        heap_ordered_from(keys, start),
{
    assert forall|k: int| 1 <= k < keys.len() && (k - 1) / 2 >= start implies keys[(k - 1) / 2]
        <= #[trigger] keys[k] by {
        if (k - 1) / 2 == i {
            assert(k == 2 * i + 1 || k == 2 * i + 2);
        }
    }
}

} // verus!
