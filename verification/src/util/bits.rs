//! Read-only views of bit sets: all set, none set, packed in bytes or words,
//! or given as a sorted list of the set positions.

use std::sync::Arc;
use vstd::prelude::*;
use vstd::string::*;

use crate::error::Error;
use crate::util::bit_set::count_set;
use crate::util::string_util::{decimal, decimal_text};
use crate::util::{long_to_int_exact, LongValues};

verus! {

/// Something that answers whether the bit at an index is set.
pub trait Bits: Sized {
    /// The bits, by index.
    spec fn bits(&self) -> Seq<bool>;

    /// What the implementation needs to hold of its own fields.
    spec fn inv(&self) -> bool;

    /// Whether the bit at `index` is set.
    fn get(&self, index: usize) -> (b: bool)
        requires
            self.inv(),
            index < self.bits().len(),
        ensures
            b == self.bits()[index as int],
    ;

    /// Number of bits.
    fn len(&self) -> (n: usize)
        requires
            self.inv(),
        ensures
            n == self.bits().len(),
    ;

    /// Whether there is nothing to ask for. Unless a view says otherwise,
    /// that is so exactly when it has no bits. A view without bits always
    /// says so; one that gives the same answer for every index may say so
    /// too.
    fn is_empty(&self) -> (b: bool)
        requires
            self.inv(),
        ensures
            self.bits().len() == 0 ==> b,
        default_ensures
            b == (self.bits().len() == 0),
    {
        self.len() == 0
    }
}

/// Like `Bits`, for views that keep a cursor and so need a unique reference
/// to answer.
pub trait BitsMut: Sized {
    /// The bits, by index.
    spec fn bits(&self) -> Seq<bool>;

    /// What the implementation needs to hold of its own fields.
    spec fn inv(&self) -> bool;

    /// Whether the bit at `index` is set. The bits stay as they are.
    fn get(&mut self, index: usize) -> (b: bool)
        requires
            old(self).inv(),
            index < old(self).bits().len(),
        ensures
            b == old(self).bits()[index as int],
            final(self).inv(),
            final(self).bits() == old(self).bits(),
    ;

    /// Number of bits.
    fn len(&self) -> (n: usize)
        requires
            self.inv(),
        ensures
            n == self.bits().len(),
    ;
}

/// A view in which every bit is set.
#[derive(Clone)]
pub struct MatchAllBits {
    len: usize,
}

impl MatchAllBits {
    /// A view of `len` set bits.
    pub fn new(len: usize) -> (all: MatchAllBits)
        ensures
            Bits::bits(&all) == Seq::new(len as nat, |i: int| true),
    {
        MatchAllBits { len }
    }
}

impl Bits for MatchAllBits {
    closed spec fn bits(&self) -> Seq<bool> {
        Seq::new(self.len as nat, |i: int| true)
    }

    open spec fn inv(&self) -> bool {
        true
    }

    fn get(&self, _index: usize) -> (b: bool) {
        true
    }

    fn len(&self) -> (n: usize) {
        self.len
    }

    fn is_empty(&self) -> (b: bool)
        ensures
            b,
    {
        true
    }
}

impl BitsMut for MatchAllBits {
    closed spec fn bits(&self) -> Seq<bool> {
        Seq::new(self.len as nat, |i: int| true)
    }

    open spec fn inv(&self) -> bool {
        true
    }

    fn get(&mut self, _index: usize) -> (b: bool) {
        true
    }

    fn len(&self) -> (n: usize) {
        self.len
    }
}

/// A view in which no bit is set.
#[derive(Clone)]
pub struct MatchNoBits {
    len: usize,
}

impl MatchNoBits {
    /// A view of `len` clear bits.
    pub fn new(len: usize) -> (none: MatchNoBits)
        ensures
            Bits::bits(&none) == Seq::new(len as nat, |i: int| false),
    {
        MatchNoBits { len }
    }
}

impl Bits for MatchNoBits {
    closed spec fn bits(&self) -> Seq<bool> {
        Seq::new(self.len as nat, |i: int| false)
    }

    open spec fn inv(&self) -> bool {
        true
    }

    fn get(&self, _index: usize) -> (b: bool) {
        false
    }

    fn len(&self) -> (n: usize) {
        self.len
    }

    fn is_empty(&self) -> (b: bool)
        ensures
            b,
    {
        true
    }
}

impl BitsMut for MatchNoBits {
    closed spec fn bits(&self) -> Seq<bool> {
        Seq::new(self.len as nat, |i: int| false)
    }

    open spec fn inv(&self) -> bool {
        true
    }

    fn get(&mut self, _index: usize) -> (b: bool) {
        false
    }

    fn len(&self) -> (n: usize) {
        self.len
    }
}

/// Whether bit `k` of a byte is set, counting from the least significant.
pub open spec fn byte_bit(byte: u8, k: int) -> bool {
    byte & (1u8 << (k as u8)) != 0
}

/// Number of bytes that hold `count` bits.
pub open spec fn bytes_for(count: int) -> int {
    (count + 7) / 8
}

/// The live-docs mask of a segment: one bit per doc, eight to a byte, least
/// significant bit first.
#[derive(Clone)]
pub struct LiveBits {
    input: Vec<u8>,
    count: usize,
}

impl LiveBits {
    /// The bytes that hold the mask.
    pub closed spec fn bytes(&self) -> Seq<u8> {
        self.input@
    }

    /// A view of `count` bits held in `data` from byte `offset` on. Fails
    /// with `IllegalArgument` exactly when `data` does not hold the
    /// `bytes_for(count)` bytes from `offset` on.
    pub fn new(data: &[u8], offset: i64, count: usize) -> (r: Result<LiveBits, Error>)
        ensures
            r is Ok <==> 0 <= offset && offset + bytes_for(count as int) <= data@.len(),
            r matches Ok(live) ==> Bits::inv(&live) && live.bytes() == data@.subrange(
                offset as int,
                offset + bytes_for(count as int),
            ) && Bits::bits(&live) == Seq::new(
                count as nat,
                |i: int| byte_bit(data@[offset + i / 8], i % 8),
            ),
            r matches Err(e) ==> e is IllegalArgument,
    {
        let length: usize = if count % 8 == 0 {
            count / 8
        } else {
            count / 8 + 1
        };
        if offset < 0 || offset as u64 > data.len() as u64 || length > data.len() - offset as usize {
            return Err(Error::IllegalArgument(String::from_str("slice out of bounds")));
        }
        let start = offset as usize;
        let mut input: Vec<u8> = Vec::new();
        let mut i: usize = 0;
        while i < length
            invariant
                i <= length,
                start + length <= data@.len() <= usize::MAX,
                input@ == data@.subrange(start as int, start + i),
            decreases length - i,
        {
            input.push(data[start + i]);
            proof {
                assert(input@ =~= data@.subrange(start as int, start + i + 1));
            }
            i += 1;
        }
        let live = LiveBits { input, count };
        proof {
            assert(Bits::bits(&live) =~= Seq::new(
                count as nat,
                |i: int| byte_bit(data@[offset + i / 8], i % 8),
            ));
        }
        Ok(live)
    }
}

impl Bits for LiveBits {
    closed spec fn bits(&self) -> Seq<bool> {
        Seq::new(self.count as nat, |i: int| byte_bit(self.input@[i / 8], i % 8))
    }

    closed spec fn inv(&self) -> bool {
        self.input@.len() == bytes_for(self.count as int)
    }

    fn get(&self, index: usize) -> (b: bool) {
        assert(index >> 3 == index / 8 && index & 0x7 == index % 8) by (bit_vector);
        let bitset = self.input[index >> 3];
        (bitset & (1u8 << (index & 0x7))) != 0
    }

    fn len(&self) -> (n: usize) {
        self.count
    }
}

impl BitsMut for LiveBits {
    closed spec fn bits(&self) -> Seq<bool> {
        Seq::new(self.count as nat, |i: int| byte_bit(self.input@[i / 8], i % 8))
    }

    closed spec fn inv(&self) -> bool {
        self.input@.len() == bytes_for(self.count as int)
    }

    fn get(&mut self, index: usize) -> (b: bool) {
        assert(index >> 3 == index / 8 && index & 0x7 == index % 8) by (bit_vector);
        let bitset = self.input[index >> 3];
        (bitset & (1u8 << (index & 0x7))) != 0
    }

    fn len(&self) -> (n: usize) {
        self.count
    }
}

/// Whether bit `k` of a word is set, counting from the least significant.
pub open spec fn word_bit(word: i64, k: int) -> bool {
    word & (1i64 << (k as u64)) != 0
}

/// How many of the lowest `k` bits of a word are set.
pub open spec fn ones_below(word: i64, k: nat) -> nat
    decreases k,
{
    if k == 0 {
        0
    } else {
        ones_below(word, (k - 1) as nat) + if word_bit(word, k - 1) {
            1nat
        } else {
            0nat
        }
    }
}

/// How many bits are set in all of `words`.
pub open spec fn total_ones(words: Seq<i64>) -> nat
    decreases words.len(),
{
    if words.len() == 0 {
        0
    } else {
        total_ones(words.drop_last()) + ones_below(words.last(), 64)
    }
}

/// The bits of `words`, bit `i` being bit `i % 64` of word `i / 64`.
pub open spec fn all_bits(words: Seq<i64>) -> Seq<bool> {
    Seq::new((64 * words.len()) as nat, |i: int| word_bit(words[i / 64], i % 64))
}

/// The number of set bits among the lowest `k` of a word is the number of
/// set entries among its first `k` bits.
pub proof fn lemma_ones_below_counts(word: i64, k: nat)
    ensures
        ones_below(word, k) == count_set(Seq::new(k, |j: int| word_bit(word, j))),
    decreases k,
{
    let bits = Seq::new(k, |j: int| word_bit(word, j));
    if k > 0 {
        lemma_ones_below_counts(word, (k - 1) as nat);
        assert(bits.drop_last() =~= Seq::new((k - 1) as nat, |j: int| word_bit(word, j)));
    }
}

/// The set bits of two sequences, one after the other, are those of both.
pub proof fn lemma_count_set_concat(a: Seq<bool>, b: Seq<bool>)
    ensures
        count_set(a + b) == count_set(a) + count_set(b),
    decreases b.len(),
{
    if b.len() == 0 {
        assert(a + b =~= a);
    } else {
        assert((a + b).drop_last() =~= a + b.drop_last());
        lemma_count_set_concat(a, b.drop_last());
    }
}

/// `total_ones` counts the set bits of the words.
pub proof fn lemma_total_ones_counts(words: Seq<i64>)
    ensures
        total_ones(words) == count_set(all_bits(words)),
    decreases words.len(),
{
    if words.len() > 0 {
        let front = words.drop_last();
        let last = Seq::new(64, |j: int| word_bit(words.last(), j));
        lemma_total_ones_counts(front);
        lemma_ones_below_counts(words.last(), 64);
        lemma_count_set_concat(all_bits(front), last);
        assert(all_bits(words) =~= all_bits(front) + last) by {
            assert forall|i: int| 0 <= i < 64 * words.len() implies all_bits(words)[i] == (all_bits(
                front,
            ) + last)[i] by {
                if i < 64 * front.len() {
                    assert(front[i / 64] == words[i / 64]);
                } else {
                    assert(i / 64 == words.len() - 1);
                    assert(i - 64 * front.len() == i % 64);
                }
            }
        }
    } else {
        assert(all_bits(words) =~= Seq::<bool>::empty());
    }
}

/// A prefix holds no more set bits than the whole.
pub proof fn lemma_total_ones_prefix(words: Seq<i64>, n: int)
    requires
        0 <= n <= words.len(),
    ensures
        total_ones(words.take(n)) <= total_ones(words),
    decreases words.len(),
{
    if n == words.len() {
        assert(words.take(n) =~= words);
    } else {
        assert(words.drop_last().take(n) =~= words.take(n));
        lemma_total_ones_prefix(words.drop_last(), n);
    }
}

/// std's `i64::count_ones` returns the number of ones in the binary
/// representation of its argument: the number of set bits among all 64.
pub assume_specification[ i64::count_ones ](word: i64) -> (n: u32)
    ensures
        n == ones_below(word, 64),
        n <= 64,
;

/// A bit set of fixed length over shared 64-bit words, least significant
/// bit first.
pub struct FixedBits {
    len: usize,
    bits: Arc<Vec<i64>>,
}

impl FixedBits {
    /// The words that hold the bits.
    pub closed spec fn words(&self) -> Seq<i64> {
        self.bits@
    }

    /// The number of bits that the view answers for.
    pub closed spec fn num_bits(&self) -> nat {
        self.len as nat
    }

    /// A view of the first `len` bits of `bits`. It can answer for every
    /// index when the words hold that many bits.
    pub fn new(bits: Arc<Vec<i64>>, len: usize) -> (fixed: FixedBits)
        ensures
            fixed.words() == bits@,
            fixed.num_bits() == len,
            Bits::inv(&fixed) == (len <= 64 * bits@.len()),
            Bits::bits(&fixed) == Seq::new(len as nat, |i: int| word_bit(bits@[i / 64], i % 64)),
    {
        FixedBits { len, bits }
    }

    /// What the view answers: bit `i` is bit `i % 64` of word `i / 64`, for
    /// as many bits as the view was made for.
    pub proof fn lemma_bits(&self)
        ensures
            Bits::inv(self) == (self.num_bits() <= 64 * self.words().len()),
            Bits::bits(self) == Seq::new(
                self.num_bits(),
                |i: int| word_bit(self.words()[i / 64], i % 64),
            ),
    {
    }

    /// Number of set bits in all the words, also beyond the length.
    pub fn cardinality(&self) -> (n: usize)
        requires
            total_ones(self.words()) <= usize::MAX,
        ensures
            n == total_ones(self.words()),
            n == count_set(all_bits(self.words())),
    {
        proof {
            lemma_total_ones_counts(self.bits@);
        }
        let mut n: usize = 0;
        let count = self.bits.len();
        let mut i: usize = 0;
        while i < count
            invariant
                count == self.bits@.len(),
                i <= count,
                total_ones(self.bits@) <= usize::MAX,
                n == total_ones(self.bits@.take(i as int)),
            decreases count - i,
        {
            proof {
                assert(self.bits@.take(i + 1).drop_last() =~= self.bits@.take(i as int));
                lemma_total_ones_prefix(self.bits@, i + 1);
            }
            n += self.bits[i].count_ones() as usize;
            i += 1;
        }
        proof {
            assert(self.bits@.take(count as int) =~= self.bits@);
        }
        n
    }
}

impl Bits for FixedBits {
    closed spec fn bits(&self) -> Seq<bool> {
        Seq::new(self.len as nat, |i: int| word_bit(self.bits@[i / 64], i % 64))
    }

    closed spec fn inv(&self) -> bool {
        self.len <= 64 * self.bits@.len()
    }

    fn get(&self, index: usize) -> (b: bool) {
        let i = index >> 6;
        assert(index >> 6 == index / 64) by (bit_vector);
        let bit_mask = 1i64 << ((index % 64) as u64);
        self.bits[i] & bit_mask != 0
    }

    fn len(&self) -> (n: usize) {
        self.len
    }
}

/// Where a caller of `SparseBits` last looked: the index of a doc id at or
/// before the doc asked for, that doc id, and the one after it.
#[derive(Clone)]
pub struct SparseBitsContext {
    /// Index of `doc_id` among the doc ids, `-1` before the first.
    pub index: i64,
    /// The doc id at `index`, `-1` before the first.
    pub doc_id: i64,
    /// The doc id after `index`; the number of docs after the last.
    pub next_doc_id: i64,
}

impl SparseBitsContext {
    /// The index at which the context stands.
    pub open spec fn slot(&self) -> int {
        self.index as int
    }

    /// The doc id at `index`, `-1` before the first.
    pub open spec fn doc_id(&self) -> int {
        self.doc_id as int
    }

    /// The doc id after `index`; the number of docs after the last.
    pub open spec fn next_doc_id(&self) -> int {
        self.next_doc_id as int
    }

    /// A context that stands before the first doc id.
    pub fn new(first_doc_id: i64) -> (ctx: SparseBitsContext)
        ensures
            ctx.slot() == -1,
            ctx.doc_id() == -1,
            ctx.next_doc_id() == first_doc_id,
    {
        SparseBitsContext { index: -1, doc_id: -1, next_doc_id: first_doc_id }
    }

    /// Puts the context back before the first doc id.
    pub fn reset(&mut self, first_doc_id: i64)
        ensures
            final(self).slot() == -1,
            final(self).doc_id() == -1,
            final(self).next_doc_id() == first_doc_id,
    {
        self.index = -1;
        self.doc_id = -1;
        self.next_doc_id = first_doc_id;
    }
}

/// What `check_invariants` reports when the doc asked for does not lie
/// between the two doc ids of the context.
pub open spec fn bracket_message(doc_id: int, ctx_doc_id: int, ctx_next_doc_id: int) -> Seq<char> {
    "internal error a "@ + decimal_text(doc_id) + " "@ + decimal_text(ctx_doc_id) + " "@
        + decimal_text(ctx_next_doc_id)
}

/// What `check_invariants` reports when the doc id of the context is not
/// the one stored at its index.
pub open spec fn anchor_message(index: int, ctx_doc_id: int, stored: int) -> Seq<char> {
    "internal error b "@ + decimal_text(index) + " "@ + decimal_text(ctx_doc_id) + " "@
        + decimal_text(stored)
}

/// What `check_invariants` reports when the next doc id of the context is
/// not the one stored at the next index.
pub open spec fn next_anchor_message(
    next_index: int,
    length: int,
    ctx_next_doc_id: int,
    max_doc: int,
    stored: int,
) -> Seq<char> {
    "internal error c "@ + decimal_text(next_index) + " "@ + decimal_text(length) + " "@
        + decimal_text(ctx_next_doc_id) + " "@ + decimal_text(max_doc) + " "@ + decimal_text(
        stored,
    )
}

/// A bit set given by the sorted list of its set positions, for sets in
/// which few bits are set. Lookups start from where the caller's context
/// stands, so reading in ascending order costs little.
#[derive(Clone)]
pub struct SparseBits<T: LongValues> {
    max_doc: i64,
    doc_ids_length: i64,
    first_doc_id: i64,
    doc_ids: T,
    /// The context that `BitsMut::get` reads through.
    pub ctx: SparseBitsContext,
}

impl<T: LongValues> SparseBits<T> {
    /// Number of bits in the set.
    pub closed spec fn max_doc(&self) -> int {
        self.max_doc as int
    }

    /// Number of set positions.
    pub closed spec fn length(&self) -> int {
        self.doc_ids_length as int
    }

    /// The stored values; the set positions are the first `length` of them.
    pub closed spec fn stored(&self) -> Seq<i64> {
        self.doc_ids.values()
    }

    /// The context that the set keeps for itself.
    pub closed spec fn own_context(&self) -> SparseBitsContext {
        self.ctx
    }

    /// Whether reading the stored values can never fail.
    pub closed spec fn unfailing(&self) -> bool {
        self.doc_ids.unfailing()
    }

    /// What `new` has checked: the set positions are among the stored
    /// values, and the last of them lies below `max_doc`.
    pub closed spec fn wf(&self) -> bool {
        &&& self.doc_ids.inv()
        &&& 0 <= self.doc_ids_length <= self.doc_ids.values().len()
        &&& self.doc_ids_length > 0 ==> self.doc_ids.values()[self.doc_ids_length - 1]
            < self.max_doc
        &&& self.first_doc_id == self.anchor(0)
    }

    /// What `new` takes on trust: the set positions are doc ids in strictly
    /// ascending order, and few enough for the search to count in 64 bits.
    pub open spec fn searchable(&self) -> bool {
        &&& forall|i: int, j: int|
            0 <= i < j < self.length() ==> self.stored()[i] < self.stored()[j]
        &&& self.length() > 0 ==> self.stored()[0] >= 0
        &&& self.max_doc() >= 0
        &&& 3 * self.length() <= i64::MAX
    }

    /// Whether `doc_id` is one of the set positions.
    pub open spec fn contains(&self, doc_id: int) -> bool {
        exists|k: int| 0 <= k < self.length() && #[trigger] self.stored()[k] == doc_id
    }

    /// The set position at `index`, with `-1` before the first and
    /// `max_doc` after the last.
    pub open spec fn anchor(&self, index: int) -> int {
        if index < 0 {
            -1
        } else if index < self.length() {
            self.stored()[index] as int
        } else {
            self.max_doc()
        }
    }

    /// `ctx` belongs to this set: it stands at an index of it, or before
    /// the first, and holds the positions stored there and after.
    pub open spec fn tracks(&self, ctx: SparseBitsContext) -> bool {
        &&& -1 <= ctx.slot() < self.length()
        &&& ctx.doc_id() == self.anchor(ctx.slot())
        &&& ctx.next_doc_id() == self.anchor(ctx.slot() + 1)
    }

    /// What the set answers as a view of bits, and when it can be asked:
    /// bit `i` is set when `i` is a set position, and the view is in order
    /// when the set is sound and searchable, its reads cannot fail, and
    /// `max_doc` fits in 32 bits; as a view that keeps its own context, also
    /// when that context belongs to it.
    pub proof fn lemma_bits(&self)
        ensures
            Bits::bits(self) == Seq::new(self.max_doc() as nat, |i: int| self.contains(i)),
            BitsMut::bits(self) == Seq::new(self.max_doc() as nat, |i: int| self.contains(i)),
            Bits::inv(self) == (self.wf() && self.searchable() && self.unfailing()
                && self.max_doc() <= i32::MAX),
            BitsMut::inv(self) == (self.wf() && self.searchable() && self.unfailing()
                && self.max_doc() <= i32::MAX && self.tracks(self.own_context())),
    {
    }

    /// The anchors ascend strictly.
    pub proof fn lemma_anchors_ascend(&self, i: int, j: int)
        requires
            self.wf(),
            self.searchable(),
            -1 <= i < j <= self.length(),
        ensures
            self.anchor(i) < self.anchor(j),
    {
        if i >= 0 {
            assert(self.stored()[0] <= self.stored()[i]);
        }
        if j < self.length() {
            if i >= 0 {
            } else {
                assert(self.stored()[0] <= self.stored()[j]);
            }
        } else if i >= 0 {
            assert(self.stored()[i] <= self.stored()[self.length() - 1]);
        }
    }

    /// A doc that lies between two neighbouring anchors is a set position
    /// only if it is the lower anchor.
    pub proof fn lemma_between_anchors(&self, index: int, doc_id: int)
        requires
            self.wf(),
            self.searchable(),
            -1 <= index < self.length(),
            self.anchor(index) <= doc_id < self.anchor(index + 1),
        ensures
            self.contains(doc_id) <==> index >= 0 && doc_id == self.anchor(index),
    {
        if self.contains(doc_id) {
            let k = choose|k: int| 0 <= k < self.length() && #[trigger] self.stored()[k] == doc_id;
            if k < index {
                self.lemma_anchors_ascend(k, index);
            }
            if k > index {
                if k > index + 1 {
                    self.lemma_anchors_ascend(index + 1, k);
                }
            }
        }
        if index >= 0 && doc_id == self.anchor(index) {
            assert(self.stored()[index] == doc_id);
        }
    }

    /// A set of `max_doc` bits whose set positions are the first
    /// `doc_ids_length` values of `doc_ids`. Fails with `IllegalArgument`
    /// when the last position is not below `max_doc`, and with the error
    /// of the read when reading the first or the last position fails.
    pub fn new(max_doc: i64, doc_ids_length: i64, doc_ids: T) -> (r: Result<SparseBits<T>, Error>)
        requires
            doc_ids.inv(),
        ensures
            r matches Ok(bits) ==> {
                &&& bits.max_doc() == max_doc
                &&& bits.length() == doc_ids_length
                &&& bits.stored() == doc_ids.values()
                &&& bits.unfailing() == doc_ids.unfailing()
                &&& doc_ids_length <= doc_ids.values().len()
                &&& doc_ids_length > 0 ==> doc_ids.values()[doc_ids_length - 1] < max_doc
                &&& doc_ids_length >= 0 ==> bits.wf() && bits.tracks(bits.own_context())
                &&& bits.own_context().slot() == -1
                &&& Bits::bits(&bits) == Seq::new(max_doc as nat, |i: int| bits.contains(i))
                &&& BitsMut::bits(&bits) == Seq::new(max_doc as nat, |i: int| bits.contains(i))
                &&& doc_ids_length >= 0 && bits.searchable() && doc_ids.unfailing() && max_doc
                    <= i32::MAX ==> Bits::inv(&bits) && BitsMut::inv(&bits)
            },
            doc_ids_length == 0 ==> r is Ok,
            doc_ids.unfailing() && 0 <= doc_ids_length <= doc_ids.values().len() ==> (r is Ok
                <==> doc_ids_length == 0 || doc_ids.values()[doc_ids_length - 1] < max_doc),
            doc_ids.unfailing() && 0 <= doc_ids_length <= doc_ids.values().len() ==> (r matches Err(
                e,
            ) ==> e is IllegalArgument && e.message()
                == "max_doc must be > the last element of doc_ids"@),
    {
        if doc_ids_length > 0 {
            let last = doc_ids.get64(doc_ids_length - 1);
            match last {
                Err(e) => {
                    return Err(e);
                },
                Ok(last) => {
                    if max_doc <= last {
                        return Err(
                            Error::IllegalArgument(
                                String::from_str("max_doc must be > the last element of doc_ids"),
                            ),
                        );
                    }
                },
            }
        }
        let first_doc_id = if doc_ids_length == 0 {
            max_doc
        } else {
            let first = doc_ids.get64(0);
            match first {
                Err(e) => {
                    return Err(e);
                },
                Ok(first) => first,
            }
        };
        Ok(
            SparseBits {
                max_doc,
                doc_ids_length,
                first_doc_id,
                doc_ids,
                ctx: SparseBitsContext::new(first_doc_id),
            },
        )
    }

    /// Gallops forward from the context, doubling the step, until it finds
    /// an index whose doc id is beyond `doc_id`, or the end. The context is
    /// left at an index whose doc id is not beyond `doc_id`; the index
    /// returned holds the context's next doc id.
    fn gallop(&self, ctx: &mut SparseBitsContext, doc_id: i64) -> (r: Result<i64, Error>)
        requires
            self.wf(),
            self.searchable(),
            self.tracks(*old(ctx)),
            old(ctx).next_doc_id() <= doc_id,
        ensures
            r matches Ok(hi_index) ==> {
                &&& 0 <= final(ctx).index <= hi_index <= self.length()
                &&& final(ctx).index < hi_index || final(ctx).index == self.length()
                &&& final(ctx).doc_id() == self.anchor(final(ctx).index as int)
                &&& final(ctx).next_doc_id() == self.anchor(hi_index as int)
                &&& final(ctx).doc_id() <= doc_id
                &&& hi_index < self.length() ==> doc_id < final(ctx).next_doc_id()
                &&& old(ctx).index < final(ctx).index
                &&& doc_id < self.max_doc() ==> final(ctx).index < hi_index && doc_id < final(
                    ctx).next_doc_id()
            },
            self.unfailing() ==> r is Ok,
    {
        ctx.index += 1;
        ctx.doc_id = ctx.next_doc_id;
        let mut hi_index = ctx.index + 1;
        loop
            invariant
                self.wf(),
                self.searchable(),
                0 <= ctx.index <= self.length(),
                old(ctx).index < ctx.index,
                ctx.index < hi_index <= 3 * self.length() + 1,
                hi_index - ctx.index <= 2 * self.length() + 1,
                ctx.doc_id() == self.anchor(ctx.index as int),
                ctx.doc_id() <= doc_id,
            decreases 3 * self.length() + 1 - hi_index,
        {
            if hi_index >= self.doc_ids_length {
                hi_index = self.doc_ids_length;
                ctx.next_doc_id = self.max_doc;
                return Ok(hi_index);
            }
            let hi_doc_id = match self.doc_ids.get64(hi_index) {
                Err(e) => {
                    return Err(e);
                },
                Ok(v) => v,
            };
            if hi_doc_id > doc_id {
                ctx.next_doc_id = hi_doc_id;
                return Ok(hi_index);
            }
            let delta = hi_index - ctx.index;
            ctx.index = hi_index;
            ctx.doc_id = hi_doc_id;
            assert(delta << 1 == 2 * delta) by (bit_vector)
                requires
                    0 <= delta < 0x4000_0000_0000_0000i64,
            ;
            hi_index += delta << 1;
        }
    }

    /// Narrows the gap between the context and `hi_index` by halving until
    /// the two are neighbours.
    fn binary_search(&self, ctx: &mut SparseBitsContext, mut hi_index: i64, doc_id: i64) -> (r:
        Result<(), Error>)
        requires
            self.wf(),
            self.searchable(),
            0 <= old(ctx).index < hi_index <= self.length(),
            old(ctx).doc_id() == self.anchor(old(ctx).index as int),
            old(ctx).next_doc_id() == self.anchor(hi_index as int),
            old(ctx).doc_id() <= doc_id < old(ctx).next_doc_id(),
        ensures
            r is Ok ==> self.tracks(*final(ctx)) && final(ctx).doc_id() <= doc_id < final(ctx).next_doc_id(),
            self.unfailing() ==> r is Ok,
    {
        while ctx.index + 1 < hi_index
            invariant
                self.wf(),
                self.searchable(),
                0 <= ctx.index < hi_index <= self.length(),
                ctx.doc_id() == self.anchor(ctx.index as int),
                ctx.next_doc_id() == self.anchor(hi_index as int),
                ctx.doc_id() <= doc_id < ctx.next_doc_id(),
            decreases hi_index - ctx.index,
        {
            let mid_index = ctx.index + (hi_index - ctx.index) / 2;
            let mid_doc_id = match self.doc_ids.get64(mid_index) {
                Err(e) => {
                    return Err(e);
                },
                Ok(v) => v,
            };
            if mid_doc_id > doc_id {
                hi_index = mid_index;
                ctx.next_doc_id = mid_doc_id;
            } else {
                ctx.index = mid_index;
                ctx.doc_id = mid_doc_id;
            }
        }
        Ok(())
    }

    /// The three facts that a context must meet after a search for
    /// `doc_id`, with `next_index` the index of its next doc id.
    pub open spec fn consistent(&self, ctx: SparseBitsContext, next_index: int, doc_id: int) -> bool {
        &&& ctx.doc_id() <= doc_id < ctx.next_doc_id()
        &&& (ctx.slot() == -1 && ctx.doc_id() == -1) || (0 <= ctx.slot() < self.stored().len()
            && ctx.doc_id() == self.stored()[ctx.slot()])
        &&& (next_index == self.length() && ctx.next_doc_id() == self.max_doc()) || (0
            <= next_index < self.stored().len() && ctx.next_doc_id()
            == self.stored()[next_index])
    }

    /// Checks that the doc asked for lies between the two doc ids of the
    /// context, and that these are the ones stored at the context's index
    /// and at `next_index`. Each check that fails reports `IllegalState`
    /// with the numbers involved; a read that fails reports its own error.
    pub fn check_invariants(&self, ctx: &SparseBitsContext, next_index: i64, doc_id: i64) -> (r:
        Result<(), Error>)
        requires
            self.wf(),
        ensures
            r is Ok ==> self.consistent(*ctx, next_index as int, doc_id as int),
            self.unfailing() && self.consistent(*ctx, next_index as int, doc_id as int) ==> r is Ok,
            !(ctx.doc_id() <= doc_id < ctx.next_doc_id()) ==> (r matches Err(e)
                && e is IllegalState && e.message() == bracket_message(
                doc_id as int,
                ctx.doc_id(),
                ctx.next_doc_id(),
            )),
            self.unfailing() && ctx.doc_id() <= doc_id < ctx.next_doc_id() && 0 <= ctx.slot()
                < self.stored().len() && ctx.doc_id() != self.stored()[ctx.slot()]
                ==> (r matches Err(e) && e is IllegalState && e.message() == anchor_message(
                ctx.slot(),
                ctx.doc_id(),
                self.stored()[ctx.slot()] as int,
            )),
            self.unfailing() && ctx.doc_id() <= doc_id < ctx.next_doc_id() && ((ctx.slot() == -1
                && ctx.doc_id() == -1) || (0 <= ctx.slot() < self.stored().len() && ctx.doc_id()
                == self.stored()[ctx.slot()])) && !(next_index == self.length()
                && ctx.next_doc_id() == self.max_doc()) && 0 <= next_index < self.stored().len()
                && ctx.next_doc_id() != self.stored()[next_index as int] ==> (r matches Err(e)
                && e is IllegalState && e.message() == next_anchor_message(
                next_index as int,
                self.length(),
                ctx.next_doc_id(),
                self.max_doc(),
                self.stored()[next_index as int] as int,
            )),
    {
        if ctx.doc_id > doc_id || ctx.next_doc_id <= doc_id {
            let mut m = String::from_str("internal error a ");
            m.append(decimal(doc_id).as_str());
            m.append(" ");
            m.append(decimal(ctx.doc_id).as_str());
            m.append(" ");
            m.append(decimal(ctx.next_doc_id).as_str());
            return Err(Error::IllegalState(m));
        }
        if !(ctx.index == -1 && ctx.doc_id == -1) {
            let stored = match self.doc_ids.get64(ctx.index) {
                Err(e) => {
                    return Err(e);
                },
                Ok(v) => v,
            };
            if ctx.doc_id != stored {
                let again = match self.doc_ids.get64(ctx.index) {
                    Err(e) => {
                        return Err(e);
                    },
                    Ok(v) => v,
                };
                let mut m = String::from_str("internal error b ");
                m.append(decimal(ctx.index).as_str());
                m.append(" ");
                m.append(decimal(ctx.doc_id).as_str());
                m.append(" ");
                m.append(decimal(again).as_str());
                return Err(Error::IllegalState(m));
            }
        }
        if !(next_index == self.doc_ids_length && ctx.next_doc_id == self.max_doc) {
            let stored = match self.doc_ids.get64(next_index) {
                Err(e) => {
                    return Err(e);
                },
                Ok(v) => v,
            };
            if ctx.next_doc_id != stored {
                let again = match self.doc_ids.get64(next_index) {
                    Err(e) => {
                        return Err(e);
                    },
                    Ok(v) => v,
                };
                let mut m = String::from_str("internal error c ");
                m.append(decimal(next_index).as_str());
                m.append(" ");
                m.append(decimal(self.doc_ids_length).as_str());
                m.append(" ");
                m.append(decimal(ctx.next_doc_id).as_str());
                m.append(" ");
                m.append(decimal(self.max_doc).as_str());
                m.append(" ");
                m.append(decimal(again).as_str());
                return Err(Error::IllegalState(m));
            }
        }
        Ok(())
    }

    /// Brings the context to the last set position that is not beyond
    /// `doc_id`: gallops forward by doubling steps, checks what it found,
    /// then bisects. Fails with `IllegalState` when `doc_id` is not below
    /// `max_doc`.
    fn exponential_search(&self, ctx: &mut SparseBitsContext, doc_id: i64) -> (r: Result<(), Error>)
        requires
            self.wf(),
            self.searchable(),
            self.tracks(*old(ctx)),
            old(ctx).next_doc_id() <= doc_id,
        ensures
            r is Ok ==> self.tracks(*final(ctx)) && final(ctx).doc_id() <= doc_id < final(
                ctx).next_doc_id(),
            self.unfailing() ==> (r is Ok <==> doc_id < self.max_doc()),
            self.unfailing() ==> (r matches Err(e) ==> e is IllegalState && e.message()
                == bracket_message(doc_id as int, final(ctx).doc_id(), final(ctx).next_doc_id())),
    {
        let hi_index = match self.gallop(ctx, doc_id) {
            Err(e) => {
                return Err(e);
            },
            Ok(hi) => hi,
        };
        proof {
            if ctx.index < hi_index {
                self.lemma_anchors_ascend(ctx.index as int, hi_index as int);
            }
        }
        match self.check_invariants(ctx, hi_index, doc_id) {
            Err(e) => {
                return Err(e);
            },
            Ok(()) => {},
        }
        self.binary_search(ctx, hi_index, doc_id)
    }

    /// Whether `doc_id` is a set position. The search starts from where
    /// `ctx` stands, or from the beginning when `doc_id` lies before that,
    /// and leaves `ctx` on the last set position that is not beyond
    /// `doc_id`. Asking for `-1` is answered with yes; anything else
    /// outside the set fails with `IllegalState`.
    pub fn get64(&self, ctx: &mut SparseBitsContext, doc_id: i64) -> (r: Result<bool, Error>)
        requires
            self.wf(),
            self.searchable(),
            self.tracks(*old(ctx)),
        ensures
            r matches Ok(b) ==> {
                &&& b == (doc_id == -1 || self.contains(doc_id as int))
                &&& -1 <= doc_id < self.max_doc()
                &&& self.tracks(*final(ctx))
                &&& final(ctx).doc_id() <= doc_id < final(ctx).next_doc_id()
            },
            self.unfailing() ==> (r is Ok <==> -1 <= doc_id < self.max_doc()),
            self.unfailing() ==> (r matches Err(e) ==> e is IllegalState && e.message()
                == bracket_message(doc_id as int, final(ctx).doc_id(), final(ctx).next_doc_id())),
    {
        if doc_id < ctx.doc_id {
            ctx.reset(self.first_doc_id);
        }
        if doc_id >= ctx.next_doc_id {
            match self.exponential_search(ctx, doc_id) {
                Err(e) => {
                    return Err(e);
                },
                Ok(()) => {},
            }
        }
        let next_index = ctx.index + 1;
        match self.check_invariants(ctx, next_index, doc_id) {
            Err(e) => {
                return Err(e);
            },
            Ok(()) => {},
        }
        proof {
            self.lemma_between_anchors(ctx.index as int, doc_id as int);
            self.lemma_anchors_ascend(-1, self.length());
        }
        Ok(doc_id == ctx.doc_id)
    }

    /// Number of bits in the set, which must fit in 32 bits.
    pub fn len(&self) -> (n: usize)
        requires
            0 <= self.max_doc() <= i32::MAX,
        ensures
            n == self.max_doc(),
    {
        let exact = long_to_int_exact(self.max_doc);
        assert(exact is Ok);
        self.max_doc as usize
    }

    /// A fresh context for this set, standing before the first position.
    pub fn context(&self) -> (ctx: SparseBitsContext)
        ensures
            ctx.slot() == -1,
            self.wf() ==> self.tracks(ctx),
    {
        SparseBitsContext::new(self.first_doc_id)
    }
}

impl<T: LongValues> Bits for SparseBits<T> {
    closed spec fn bits(&self) -> Seq<bool> {
        Seq::new(self.max_doc as nat, |i: int| self.contains(i))
    }

    closed spec fn inv(&self) -> bool {
        &&& self.wf()
        &&& self.searchable()
        &&& self.unfailing()
        &&& self.max_doc <= i32::MAX
    }

    fn get(&self, index: usize) -> (b: bool) {
        let mut ctx = self.context();
        match self.get64(&mut ctx, index as i64) {
            Ok(b) => b,
            Err(_) => {
                assert(false);
                false
            },
        }
    }

    fn len(&self) -> (n: usize) {
        SparseBits::len(self)
    }
}

impl<T: LongValues> BitsMut for SparseBits<T> {
    closed spec fn bits(&self) -> Seq<bool> {
        Seq::new(self.max_doc as nat, |i: int| self.contains(i))
    }

    closed spec fn inv(&self) -> bool {
        &&& self.wf()
        &&& self.searchable()
        &&& self.unfailing()
        &&& self.max_doc <= i32::MAX
        &&& self.tracks(self.ctx)
    }

    fn get(&mut self, index: usize) -> (b: bool) {
        let mut ctx = SparseBitsContext {
            index: self.ctx.index,
            doc_id: self.ctx.doc_id,
            next_doc_id: self.ctx.next_doc_id,
        };
        let r = self.get64(&mut ctx, index as i64);
        self.ctx = ctx;
        proof {
            assert(self.length() == old(self).length());
            assert(self.stored() == old(self).stored());
            assert(self.max_doc() == old(self).max_doc());
            assert forall|i: int| self.contains(i) == old(self).contains(i) by {}
            assert(BitsMut::bits(self) =~= BitsMut::bits(old(self)));
        }
        match r {
            Ok(b) => b,
            Err(_) => {
                assert(false);
                false
            },
        }
    }

    fn len(&self) -> (n: usize) {
        SparseBits::len(self)
    }
}

} // verus!
