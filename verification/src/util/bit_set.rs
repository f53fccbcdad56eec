//! A growable bit set over 64-bit words.

use vstd::prelude::*;

use crate::util::bits::{
    all_bits, lemma_total_ones_counts, lemma_total_ones_prefix, total_ones, word_bit, Bits,
};

verus! {

/// Number of 64-bit words that hold `num_bits` bits.
pub open spec fn words_for(num_bits: int) -> int {
    (num_bits + 63) / 64
}

/// Number of words that hold `num_bits` bits.
pub fn bits2words(num_bits: usize) -> (n: usize)
    ensures
        n == words_for(num_bits as int),
{
    if num_bits == 0 {
        0
    } else {
        let last = num_bits - 1;
        assert(last >> 6 == last / 64) by (bit_vector);
        (last >> 6) + 1
    }
}

/// How many bits of `bits` are set.
pub open spec fn count_set(bits: Seq<bool>) -> nat
    decreases bits.len(),
{
    if bits.len() == 0 {
        0
    } else {
        count_set(bits.drop_last()) + if bits.last() {
            1nat
        } else {
            0nat
        }
    }
}

/// How many bits of `bits` are set before index `i`.
pub open spec fn rank(bits: Seq<bool>, i: int) -> nat {
    if i <= 0 {
        0
    } else if i >= bits.len() {
        count_set(bits)
    } else {
        count_set(bits.take(i))
    }
}

/// No more bits are set than there are, and all are set only if as many
/// are set as there are.
pub proof fn lemma_count_set_bound(bits: Seq<bool>)
    ensures
        count_set(bits) <= bits.len(),
        count_set(bits) == bits.len() ==> forall|i: int| 0 <= i < bits.len() ==> bits[i],
        count_set(bits) == 0 <==> forall|i: int| 0 <= i < bits.len() ==> !bits[i],
    decreases bits.len(),
{
    if bits.len() > 0 {
        let front = bits.drop_last();
        lemma_count_set_bound(front);
        assert(bits.last() == bits[bits.len() - 1]);
        assert forall|i: int| 0 <= i < front.len() implies front[i] == bits[i] by {}
        if count_set(bits) == bits.len() {
            assert forall|i: int| 0 <= i < bits.len() implies bits[i] by {
                if i < front.len() {
                    assert(front[i]);
                }
            }
        }
        if count_set(bits) == 0 {
            assert forall|i: int| 0 <= i < bits.len() implies !bits[i] by {
                if i < front.len() {
                    assert(!front[i]);
                }
            }
        }
        if forall|i: int| 0 <= i < bits.len() ==> !bits[i] {
            assert forall|i: int| 0 <= i < front.len() implies !front[i] by {
                assert(!bits[i]);
            }
        }
    }
}

/// Setting a clear bit adds one to the number of set bits.
pub proof fn lemma_count_set_update(bits: Seq<bool>, i: int)
    requires
        0 <= i < bits.len(),
        !bits[i],
    ensures
        count_set(bits.update(i, true)) == count_set(bits) + 1,
    decreases bits.len(),
{
    let changed = bits.update(i, true);
    if i == bits.len() - 1 {
        assert(changed.drop_last() =~= bits.drop_last());
    } else {
        assert(changed.drop_last() =~= bits.drop_last().update(i, true));
        lemma_count_set_update(bits.drop_last(), i);
    }
}

/// The rank grows by one over a set bit and not at all over a clear one,
/// and never beyond the number of set bits.
pub proof fn lemma_rank_step(bits: Seq<bool>, i: int)
    requires
        0 <= i < bits.len(),
    ensures
        rank(bits, i + 1) == rank(bits, i) + if bits[i] {
            1nat
        } else {
            0nat
        },
        rank(bits, i + 1) <= count_set(bits),
    decreases bits.len() - i,
{
    let upto = bits.take(i + 1);
    assert(upto.len() == i + 1);
    assert(upto.drop_last() =~= bits.take(i));
    assert(upto.last() == bits[i]);
    assert(count_set(upto) == count_set(bits.take(i)) + if bits[i] {
        1nat
    } else {
        0nat
    });
    assert(bits.take(0).len() == 0);
    assert(count_set(bits.take(0)) == 0);
    if i + 1 == bits.len() {
        assert(upto =~= bits);
    } else {
        lemma_rank_step(bits, i + 1);
    }
}

/// Where nothing is set from `k` on, all the set bits lie before `k`.
pub proof fn lemma_rank_clear_tail(bits: Seq<bool>, k: int)
    requires
        0 <= k <= bits.len(),
        forall|i: int| k <= i < bits.len() ==> !bits[i],
    ensures
        rank(bits, k) == count_set(bits),
    decreases bits.len() - k,
{
    if k < bits.len() {
        lemma_rank_step(bits, k);
        lemma_rank_clear_tail(bits, k + 1);
    }
}

/// Two sequences that agree before `k` have the same rank at `k`.
pub proof fn lemma_rank_agrees(a: Seq<bool>, b: Seq<bool>, k: int)
    requires
        0 <= k <= a.len(),
        k <= b.len(),
        forall|i: int| 0 <= i < k ==> a[i] == b[i],
    ensures
        rank(a, k) == rank(b, k),
{
    assert(a.take(k) =~= b.take(k));
    if k == a.len() {
        assert(a.take(k) =~= a);
    }
    if k == b.len() {
        assert(b.take(k) =~= b);
    }
    assert(a.take(0) =~= Seq::<bool>::empty());
}

/// Setting a bit of a word sets that bit and no other.
proof fn lemma_set_bit(word: i64, k: u64, j: u64)
    requires
        0 <= k < 64,
        0 <= j < 64,
    ensures
        word_bit(word | (1i64 << k), j as int) == (j == k || word_bit(word, j as int)),
{
    assert((word | (1i64 << k)) & (1i64 << j) != 0 <==> (j == k || word & (1i64 << j) != 0))
        by (bit_vector)
        requires
            0 <= k < 64,
            0 <= j < 64,
    ;
}

/// Clearing a bit of a word clears that bit and no other.
proof fn lemma_clear_bit(word: i64, k: u64, j: u64)
    requires
        0 <= k < 64,
        0 <= j < 64,
    ensures
        word_bit(word & !(1i64 << k), j as int) == (j != k && word_bit(word, j as int)),
{
    assert((word & !(1i64 << k)) & (1i64 << j) != 0 <==> (j != k && word & (1i64 << j) != 0))
        by (bit_vector)
        requires
            0 <= k < 64,
            0 <= j < 64,
    ;
}

/// No bit of the zero word is set.
proof fn lemma_zero_word(j: u64)
    requires
        0 <= j < 64,
    ensures
        !word_bit(0i64, j as int),
{
    assert(0i64 & (1i64 << j) == 0) by (bit_vector);
}

/// A bit set whose length can grow. Bits are numbered from zero; bit `i`
/// lives in word `i / 64` at place `i % 64`.
pub struct FixedBitSet {
    bits: Vec<i64>,
    num_bits: usize,
}

impl View for FixedBitSet {
    type V = Seq<bool>;

    closed spec fn view(&self) -> Seq<bool> {
        Seq::new(self.num_bits as nat, |i: int| word_bit(self.bits@[i / 64], i % 64))
    }
}

impl FixedBitSet {
    /// The words hold all the bits, and what they hold beyond the length is
    /// clear.
    pub closed spec fn wf(&self) -> bool {
        &&& self.bits@.len() == words_for(self.num_bits as int)
        &&& forall|i: int|
            self.num_bits <= i < 64 * self.bits@.len() ==> !#[trigger] all_bits(self.bits@)[i]
    }

    /// Number of set bits.
    pub fn cardinality(&self) -> (n: usize)
        requires
            self.wf(),
        ensures
            n == count_set(self@),
    {
        proof {
            let bits = all_bits(self.bits@);
            lemma_total_ones_counts(self.bits@);
            // Beyond the length nothing is set, so all the set bits of the
            // words are bits of the set.
            lemma_rank_clear_tail(bits, self.num_bits as int);
            assert(bits.take(self.num_bits as int) =~= self@);
            assert(bits.take(bits.len() as int) =~= bits);
            assert(self@.take(0) =~= Seq::<bool>::empty());
            assert(bits.take(0) =~= Seq::<bool>::empty());
            lemma_count_set_bound(self@);
        }
        let mut n: usize = 0;
        let count = self.bits.len();
        let mut i: usize = 0;
        while i < count
            invariant
                count == self.bits@.len(),
                i <= count,
                total_ones(self.bits@) <= usize::MAX,
                n == total_ones(self.bits@.take(i as int)),
            decreases count - i,
        {
            proof {
                assert(self.bits@.take(i + 1).drop_last() =~= self.bits@.take(i as int));
                lemma_total_ones_prefix(self.bits@, i + 1);
            }
            n += self.bits[i].count_ones() as usize;
            i += 1;
        }
        proof {
            assert(self.bits@.take(count as int) =~= self.bits@);
        }
        n
    }

    /// A set of `num_bits` bits, all clear.
    pub fn new(num_bits: usize) -> (set: FixedBitSet)
        ensures
            set.wf(),
            set@ == Seq::new(num_bits as nat, |i: int| false),
    {
        let num_words = bits2words(num_bits);
        let mut bits: Vec<i64> = Vec::new();
        let mut i: usize = 0;
        while i < num_words
            invariant
                i <= num_words,
                bits@.len() == i,
                forall|k: int| 0 <= k < i ==> bits@[k] == 0,
            decreases num_words - i,
        {
            bits.push(0i64);
            i += 1;
        }
        let set = FixedBitSet { bits, num_bits };
        proof {
            assert forall|i: int| 0 <= i < num_bits implies !set@[i] by {
                lemma_zero_word((i % 64) as u64);
            }
            assert forall|i: int| num_bits <= i < 64 * set.bits@.len() implies !#[trigger] all_bits(
                set.bits@,
            )[i] by {
                lemma_zero_word((i % 64) as u64);
            }
            assert(set@ =~= Seq::new(num_bits as nat, |i: int| false));
        }
        set
    }

    /// Number of bits.
    pub fn len(&self) -> (n: usize)
        ensures
            n == self@.len(),
    {
        self.num_bits
    }

    /// Whether the set has no bits.
    pub fn is_empty(&self) -> (b: bool)
        ensures
            b == (self@.len() == 0),
    {
        self.num_bits == 0
    }

    /// Whether bit `index` is set.
    pub fn get(&self, index: usize) -> (b: bool)
        requires
            self.wf(),
            index < self@.len(),
        ensures
            b == self@[index as int],
    {
        assert(index >> 6 == index / 64) by (bit_vector);
        let word = self.bits[index >> 6];
        let shift = (index % 64) as u64;
        word & (1i64 << shift) != 0
    }

    /// Sets bit `index`.
    pub fn set(&mut self, index: usize)
        requires
            old(self).wf(),
            index < old(self)@.len(),
        ensures
            final(self).wf(),
            final(self)@ == old(self)@.update(index as int, true),
    {
        assert(index >> 6 == index / 64) by (bit_vector);
        let word_num = index >> 6;
        let shift = (index % 64) as u64;
        let word = self.bits[word_num];
        self.bits[word_num] = word | (1i64 << shift);
        proof {
            assert forall|i: int| 0 <= i < self.num_bits implies self@[i] == old(self)@.update(
                index as int,
                true,
            )[i] by {
                if i / 64 == word_num {
                    lemma_set_bit(word, shift, (i % 64) as u64);
                }
            }
            assert forall|i: int| self.num_bits <= i < 64 * self.bits@.len() implies !#[trigger] all_bits(
                self.bits@,
            )[i] by {
                assert(!all_bits(old(self).bits@)[i]);
                if i / 64 == word_num {
                    lemma_set_bit(word, shift, (i % 64) as u64);
                }
            }
            assert(self@ =~= old(self)@.update(index as int, true));
        }
    }

    /// Clears bit `index`.
    pub fn clear(&mut self, index: usize)
        requires
            old(self).wf(),
            index < old(self)@.len(),
        ensures
            final(self).wf(),
            final(self)@ == old(self)@.update(index as int, false),
    {
        assert(index >> 6 == index / 64) by (bit_vector);
        let word_num = index >> 6;
        let shift = (index % 64) as u64;
        let word = self.bits[word_num];
        self.bits[word_num] = word & !(1i64 << shift);
        proof {
            assert forall|i: int| 0 <= i < self.num_bits implies self@[i] == old(self)@.update(
                index as int,
                false,
            )[i] by {
                if i / 64 == word_num {
                    lemma_clear_bit(word, shift, (i % 64) as u64);
                }
            }
            assert forall|i: int| self.num_bits <= i < 64 * self.bits@.len() implies !#[trigger] all_bits(
                self.bits@,
            )[i] by {
                assert(!all_bits(old(self).bits@)[i]);
                if i / 64 == word_num {
                    lemma_clear_bit(word, shift, (i % 64) as u64);
                }
            }
            assert(self@ =~= old(self)@.update(index as int, false));
        }
    }

    /// The length that `ensure_capacity(num_bits)` gives a set of `len`
    /// bits: unchanged where bit `num_bits` exists already, and otherwise
    /// the next multiple of 64 beyond `num_bits`.
    pub open spec fn grown_len(len: int, num_bits: int) -> int {
        if num_bits < len {
            len
        } else {
            64 * (num_bits / 64 + 1)
        }
    }

    /// Makes sure that bit `num_bits` exists, growing the set by whole
    /// words where it does not. The bits that were there keep their value;
    /// the new ones are clear.
    pub fn ensure_capacity(&mut self, num_bits: usize)
        requires
            old(self).wf(),
            num_bits + 64 <= usize::MAX,
        ensures
            final(self).wf(),
            final(self)@.len() == Self::grown_len(old(self)@.len() as int, num_bits as int),
            final(self)@.len() > num_bits,
            forall|i: int| 0 <= i < old(self)@.len() ==> final(self)@[i] == old(self)@[i],
            forall|i: int| old(self)@.len() <= i < final(self)@.len() ==> !final(self)@[i],
    {
        if num_bits >= self.num_bits {
            assert(num_bits >> 6 == num_bits / 64) by (bit_vector);
            let num_words = (num_bits >> 6) + 1;
            let ghost old_len = self.num_bits as int;
            // Clear what lies beyond the old length in the last word, so
            // that nothing stale shows up in the bits that are added.
            let mut i = self.num_bits;
            while i % 64 != 0
                invariant
                    self.bits@.len() == words_for(old_len),
                    old_len <= i <= 64 * self.bits@.len(),
                    self.num_bits == old_len,
                    old_len <= num_bits,
                    old_len == old(self)@.len(),
                    num_bits + 64 <= usize::MAX,
                    forall|k: int| 0 <= k < old_len ==> self@[k] == old(self)@[k],
                    forall|k: int|
                        old_len <= k < i ==> !word_bit(#[trigger] self.bits@[k / 64], k % 64),
                decreases 64 * self.bits@.len() - i,
            {
                assert(i >> 6 == i / 64) by (bit_vector);
                let word_num = i >> 6;
                let shift = (i % 64) as u64;
                let word = self.bits[word_num];
                let ghost before = self.bits@;
                self.bits[word_num] = word & !(1i64 << shift);
                proof {
                    assert forall|k: int| 0 <= k < old_len implies self@[k] == old(self)@[k] by {
                        if k / 64 == word_num {
                            lemma_clear_bit(word, shift, (k % 64) as u64);
                        }
                        assert(word_bit(before[k / 64], k % 64) == old(self)@[k]);
                    }
                    assert forall|k: int| old_len <= k < i + 1 implies !word_bit(
                        #[trigger] self.bits@[k / 64],
                        k % 64,
                    ) by {
                        if k / 64 == word_num {
                            lemma_clear_bit(word, shift, (k % 64) as u64);
                        }
                        if k < i {
                            assert(!word_bit(before[k / 64], k % 64));
                        }
                    }
                }
                i += 1;
            }
            while self.bits.len() < num_words
                invariant
                    old_len <= i,
                    old_len == old(self)@.len(),
                    self.num_bits == old_len,
                    i <= 64 * self.bits@.len(),
                    self.bits@.len() >= words_for(old_len),
                    self.bits@.len() <= num_words,
                    forall|k: int| 0 <= k < old_len ==> self@[k] == old(self)@[k],
                    forall|k: int|
                        old_len <= k < 64 * self.bits@.len() ==> !word_bit(
                            #[trigger] self.bits@[k / 64],
                            k % 64,
                        ),
                decreases num_words - self.bits@.len(),
            {
                let ghost before = self.bits@;
                self.bits.push(0i64);
                proof {
                    assert forall|k: int| 0 <= k < old_len implies self@[k] == old(self)@[k] by {
                        assert(self.bits@[k / 64] == before[k / 64]);
                    }
                    assert forall|k: int| old_len <= k < 64 * self.bits@.len() implies !word_bit(
                        #[trigger] self.bits@[k / 64],
                        k % 64,
                    ) by {
                        if k / 64 == before.len() {
                            lemma_zero_word((k % 64) as u64);
                        } else {
                            assert(self.bits@[k / 64] == before[k / 64]);
                        }
                    }
                }
            }
            self.num_bits = num_words * 64;
            proof {
                assert forall|k: int| 0 <= k < old_len implies self@[k] == old(self)@[k] by {
                    assert(word_bit(self.bits@[k / 64], k % 64) == old(self)@[k]);
                }
            }
        }
    }
}

impl Bits for FixedBitSet {
    open spec fn bits(&self) -> Seq<bool> {
        self@
    }

    open spec fn inv(&self) -> bool {
        self.wf()
    }

    fn get(&self, index: usize) -> (b: bool) {
        FixedBitSet::get(self, index)
    }

    fn len(&self) -> (n: usize) {
        FixedBitSet::len(self)
    }
}

} // verus!
