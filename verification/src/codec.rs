//! Writers that buffer per-document data until a segment is flushed, and
//! the segment metadata they work with.

use vstd::prelude::*;
use vstd::string::*;

pub mod field_infos;
pub mod norms;

use crate::error::Error;
use crate::util::bit_set::{count_set, lemma_count_set_bound, lemma_count_set_update};
use crate::util::DocId;

verus! {

/// `map` sends the docs `0..map.len()` onto themselves, no two onto the
/// same.
pub open spec fn is_permutation(map: Seq<DocId>) -> bool {
    &&& forall|d: int| 0 <= d < map.len() ==> 0 <= #[trigger] map[d] < map.len()
    &&& forall|d: int, e: int| 0 <= d < e < map.len() ==> map[d] != map[e]
}

/// A sequence whose values were moved to where a permutation sends their
/// places holds the same values, each as often as before.
pub proof fn lemma_rearranged_same_multiset(map: Seq<DocId>, plain: Seq<i64>, sorted: Seq<i64>)
    requires
        is_permutation(map),
        plain.len() == map.len(),
        sorted.len() == map.len(),
        forall|d: int| 0 <= d < map.len() ==> sorted[#[trigger] map[d] as int] == plain[d],
    ensures
        sorted.to_multiset() == plain.to_multiset(),
    decreases map.len(),
{
    broadcast use {
        vstd::multiset::group_multiset_axioms,
        vstd::seq_lib::to_multiset_remove,
        vstd::seq_lib::to_multiset_contains,
    };

    if map.len() == 0 {
        assert(sorted =~= plain);
    } else {
        let n = map.len() as int;
        let t = map[n - 1] as int;
        let fewer = Seq::new(
            (n - 1) as nat,
            |d: int|
                if map[d] > t {
                    (map[d] - 1) as DocId
                } else {
                    map[d]
                },
        );
        let plain_rest = plain.remove(n - 1);
        let sorted_rest = sorted.remove(t);
        assert forall|d: int| 0 <= d < fewer.len() implies 0 <= #[trigger] fewer[d] < fewer.len() by {
            assert(0 <= map[d] < n);
            assert(map[d] != map[n - 1]);
        }
        assert forall|d: int, e: int| 0 <= d < e < fewer.len() implies fewer[d] != fewer[e] by {
            assert(map[d] != map[e]);
            assert(map[d] != map[n - 1]);
            assert(map[e] != map[n - 1]);
        }
        assert forall|d: int| 0 <= d < fewer.len() implies sorted_rest[#[trigger] fewer[d] as int]
            == plain_rest[d] by {
            assert(sorted[map[d] as int] == plain[d]);
            assert(map[d] != map[n - 1]);
            assert(0 <= map[d] < n);
        }
        lemma_rearranged_same_multiset(fewer, plain_rest, sorted_rest);
        assert(sorted[map[n - 1] as int] == plain[n - 1]);
        let moved = plain[n - 1];
        assert(sorted[t] == moved);
        assert(sorted.contains(moved));
        assert(plain.contains(moved));
        vstd::seq_lib::to_multiset_remove(sorted, t);
        vstd::seq_lib::to_multiset_remove(plain, n - 1);
        vstd::seq_lib::to_multiset_contains(sorted, moved);
        vstd::seq_lib::to_multiset_contains(plain, moved);
        assert(sorted_rest.to_multiset() == sorted.to_multiset().remove(moved));
        assert(plain_rest.to_multiset() == plain.to_multiset().remove(moved));
        assert forall|v: i64| sorted.to_multiset().count(v) == plain.to_multiset().count(v) by {
            assert(sorted.to_multiset().remove(moved).count(v) == plain.to_multiset().remove(
                moved,
            ).count(v));
        }
        assert(sorted.to_multiset() =~= plain.to_multiset());
    }
}

/// The renumbering of the docs of a segment that is written in sorted
/// order: where each doc goes, and where each doc comes from.
pub struct SorterDocMap {
    old_to_new: Vec<DocId>,
    new_to_old: Vec<DocId>,
}

impl View for SorterDocMap {
    type V = Seq<DocId>;

    /// The new id of each old doc.
    closed spec fn view(&self) -> Seq<DocId> {
        self.old_to_new@
    }
}

impl SorterDocMap {
    /// The two directions invert each other.
    pub closed spec fn wf(&self) -> bool {
        &&& self.new_to_old@.len() == self.old_to_new@.len()
        &&& self.old_to_new@.len() <= i32::MAX
        &&& forall|d: int|
            0 <= d < self.old_to_new@.len() ==> 0 <= #[trigger] self.old_to_new@[d]
                < self.old_to_new@.len() && self.new_to_old@[self.old_to_new@[d] as int] == d
        &&& forall|e: int|
            0 <= e < self.new_to_old@.len() ==> 0 <= #[trigger] self.new_to_old@[e]
                < self.new_to_old@.len() && self.old_to_new@[self.new_to_old@[e] as int] == e
    }

    /// The old id of each new doc.
    pub closed spec fn inverse(&self) -> Seq<DocId> {
        self.new_to_old@
    }

    /// A renumbering is a permutation, and its inverse undoes it.
    pub proof fn lemma_wf(&self)
        requires
            self.wf(),
        ensures
            is_permutation(self@),
            self.inverse().len() == self@.len(),
            forall|d: int|
                0 <= d < self@.len() ==> 0 <= #[trigger] self@[d] < self@.len()
                    && self.inverse()[self@[d] as int] == d,
            forall|e: int|
                0 <= e < self@.len() ==> 0 <= #[trigger] self.inverse()[e] < self@.len()
                    && self@[self.inverse()[e] as int] == e,
    {
        assert forall|d: int, e: int| 0 <= d < e < self@.len() implies self@[d] != self@[e] by {
            assert(self.new_to_old@[self.old_to_new@[d] as int] == d);
            assert(self.new_to_old@[self.old_to_new@[e] as int] == e);
        }
    }

    /// The renumbering that sends old doc `d` to `old_to_new[d]`. Fails
    /// with `IllegalArgument` exactly when `old_to_new` is not a
    /// permutation of fewer than 2^31 docs.
    pub fn new(old_to_new: Vec<DocId>) -> (r: Result<SorterDocMap, Error>)
        ensures
            r is Ok <==> is_permutation(old_to_new@) && old_to_new@.len() <= i32::MAX,
            r matches Ok(map) ==> map.wf() && map@ == old_to_new@,
            r matches Err(e) ==> e is IllegalArgument,
    {
        let n = old_to_new.len();
        if n > 0x7fff_ffff {
            return Err(Error::IllegalArgument(String::from_str("too many docs")));
        }
        let mut new_to_old: Vec<DocId> = Vec::new();
        let mut e: usize = 0;
        while e < n
            invariant
                e <= n,
                new_to_old@.len() == e,
                forall|k: int| 0 <= k < e ==> new_to_old@[k] == -1,
            decreases n - e,
        {
            new_to_old.push(-1);
            e += 1;
        }
        let ghost filled = |s: Seq<DocId>| s.map_values(|v: DocId| v != -1);
        proof {
            lemma_count_set_bound(filled(new_to_old@));
        }
        let mut d: usize = 0;
        while d < n
            invariant
                d <= n,
                n == old_to_new@.len(),
                n <= i32::MAX,
                new_to_old@.len() == n,
                filled == |s: Seq<DocId>| s.map_values(|v: DocId| v != -1),
                count_set(filled(new_to_old@)) == d,
                forall|k: int| 0 <= k < d ==> 0 <= #[trigger] old_to_new@[k] < n && new_to_old@[old_to_new@[k] as int] == k,
                forall|e: int|
                    0 <= e < n ==> -1 <= #[trigger] new_to_old@[e] < d && (new_to_old@[e] != -1
                        ==> old_to_new@[new_to_old@[e] as int] == e),
            decreases n - d,
        {
            let target = old_to_new[d];
            if target < 0 || target as usize >= n {
                return Err(Error::IllegalArgument(String::from_str("doc map out of range")));
            }
            if new_to_old[target as usize] != -1 {
                proof {
                    let first = new_to_old@[target as int] as int;
                    assert(old_to_new@[first] == old_to_new@[d as int]);
                }
                return Err(Error::IllegalArgument(String::from_str("doc map is not one to one")));
            }
            let ghost before = new_to_old@;
            new_to_old[target as usize] = d as DocId;
            proof {
                assert(filled(new_to_old@) =~= filled(before).update(target as int, true));
                lemma_count_set_update(filled(before), target as int);
            }
            d += 1;
        }
        proof {
            lemma_count_set_bound(filled(new_to_old@));
            assert forall|e: int| 0 <= e < n implies new_to_old@[e] != -1 by {
                assert(filled(new_to_old@)[e]);
            }
            assert forall|a: int, b: int| 0 <= a < b < n implies old_to_new@[a] != old_to_new@[b] by {
                assert(new_to_old@[old_to_new@[a] as int] == a);
                assert(new_to_old@[old_to_new@[b] as int] == b);
            }
        }
        Ok(SorterDocMap { old_to_new, new_to_old })
    }

    /// Number of docs.
    pub fn len(&self) -> (n: usize)
        ensures
            n == self@.len(),
    {
        self.old_to_new.len()
    }

    /// The new id of old doc `doc_id`.
    pub fn old_to_new(&self, doc_id: DocId) -> (new_id: DocId)
        requires
            self.wf(),
            0 <= doc_id < self@.len(),
        ensures
            new_id == self@[doc_id as int],
            0 <= new_id < self@.len(),
    {
        self.old_to_new[doc_id as usize]
    }

    /// The old id of new doc `doc_id`.
    pub fn new_to_old(&self, doc_id: DocId) -> (old_id: DocId)
        requires
            self.wf(),
            0 <= doc_id < self@.len(),
        ensures
            old_id == self.inverse()[doc_id as int],
            0 <= old_id < self@.len(),
            self@[old_id as int] == doc_id,
    {
        self.new_to_old[doc_id as usize]
    }
}

} // verus!
