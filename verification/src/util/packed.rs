//! Arrays of longs stored page by page as a base and bit-packed residuals.

use vstd::arithmetic::div_mod::lemma_fundamental_div_mod;
use vstd::arithmetic::div_mod::lemma_fundamental_div_mod_converse;
use vstd::prelude::*;
use vstd::string::*;

use crate::error::Error;
use crate::util::{CloneableLongValues, LongValues};

verus! {

/// Number of values in a page unless the caller asks for another.
pub const DEFAULT_PAGE_SIZE: usize = 1024;

/// The lowest `bits` bits set, for `bits` up to 64.
pub open spec fn low_mask(bits: u64) -> u64 {
    if bits >= 64 {
        0xffff_ffff_ffff_ffffu64
    } else {
        !(0xffff_ffff_ffff_ffffu64 << bits)
    }
}

/// The residual that a block holds in place `place`, at `bits` bits each.
pub open spec fn residual_in(block: u64, bits: u64, place: u64) -> u64 {
    (block >> ((place * bits) as u64)) & low_mask(bits)
}

/// Number of bits needed to write `value`: the position of its highest set
/// bit, counted from one, and zero for zero.
pub open spec fn bits_required(value: u64) -> u64
    decreases value,
{
    if value == 0 {
        0
    } else {
        (1 + bits_required(value / 2)) as u64
    }
}

/// A value that fits in `bits` bits needs no more than that.
proof fn lemma_bits_required_fits(value: u64, bits: u64)
    requires
        bits <= 64,
        value <= low_mask(bits),
    ensures
        bits_required(value) <= bits,
    decreases value,
{
    if value != 0 {
        assert(bits >= 1 && value / 2 <= low_mask((bits - 1) as u64)) by (bit_vector)
            requires
                bits <= 64,
                value <= low_mask(bits),
                value != 0,
        ;
        lemma_bits_required_fits(value / 2, (bits - 1) as u64);
    }
}

/// `bits_required` is the least number of bits in which the value fits.
proof fn lemma_bits_required(value: u64)
    ensures
        bits_required(value) <= 64,
        value <= low_mask(bits_required(value)),
        bits_required(value) > 0 ==> value > low_mask((bits_required(value) - 1) as u64),
    decreases value,
{
    assert(value <= low_mask(64u64)) by (bit_vector);
    lemma_bits_required_fits(value, 64);
    if value != 0 {
        let half = value / 2;
        assert(half <= low_mask(63u64)) by (bit_vector)
            requires
                half == value / 2,
        ;
        lemma_bits_required_fits(half, 63);
        lemma_bits_required(half);
        let b = bits_required(half);
        assert(value <= low_mask((b + 1) as u64)) by (bit_vector)
            requires
                b <= 63,
                half == value / 2,
                half <= low_mask(b),
        ;
        if b > 0 {
            assert(value > low_mask(b)) by (bit_vector)
                requires
                    0 < b <= 63,
                    half == value / 2,
                    half > low_mask((b - 1) as u64),
            ;
        } else {
            assert(low_mask(0u64) == 0) by (bit_vector);
        }
    } else {
        assert(low_mask(0u64) == 0) by (bit_vector);
    }
}

/// The number of bits needed to write `value`.
fn bits_for(value: u64) -> (bits: u64)
    ensures
        bits == bits_required(value),
        bits <= 64,
        value <= low_mask(bits),
{
    let mut bits: u64 = 0;
    let mut rest = value;
    proof {
        lemma_bits_required(value);
    }
    while rest != 0
        invariant
            bits + bits_required(rest) == bits_required(value),
            bits_required(value) <= 64,
        decreases rest,
    {
        proof {
            lemma_bits_required(rest / 2);
            lemma_bits_required(rest);
        }
        rest = rest / 2;
        bits += 1;
    }
    bits
}

/// Writing a residual into an empty place of a block puts it there and
/// leaves every other place as it was.
proof fn lemma_store(block: u64, residual: u64, bits: u64, shift: u64, other: u64)
    requires
        1 <= bits <= 64,
        shift + bits <= 64,
        other + bits <= 64,
        residual <= low_mask(bits),
        (block >> shift) & low_mask(bits) == 0,
    ensures
        ((block | (residual << shift)) >> shift) & low_mask(bits) == residual,
        other + bits <= shift || shift + bits <= other ==> ((block | (residual << shift))
            >> other) & low_mask(bits) == (block >> other) & low_mask(bits),
{
    assert(((block | (residual << shift)) >> shift) & low_mask(bits) == residual) by (bit_vector)
        requires
            1 <= bits <= 64,
            shift + bits <= 64,
            residual <= low_mask(bits),
            (block >> shift) & low_mask(bits) == 0,
    ;
    if other + bits <= shift || shift + bits <= other {
        assert(((block | (residual << shift)) >> other) & low_mask(bits) == (block >> other)
            & low_mask(bits)) by (bit_vector)
            requires
                1 <= bits <= 64,
                shift + bits <= 64,
                other + bits <= 64,
                residual <= low_mask(bits),
                other + bits <= shift || shift + bits <= other,
        ;
    }
}

/// Every place of an empty block holds zero.
proof fn lemma_empty_block(bits: u64, shift: u64)
    requires
        shift < 64,
    ensures
        (0u64 >> shift) & low_mask(bits) == 0,
{
    assert((0u64 >> shift) & low_mask(bits) == 0) by (bit_vector)
        requires
            shift < 64,
    ;
}

/// The places of a block lie inside it and do not overlap.
proof fn lemma_places(bits: int, place: int, other: int)
    requires
        1 <= bits <= 64,
        0 <= place < 64int / bits,
        0 <= other < 64int / bits,
    ensures
        0 <= place * bits,
        place * bits + bits <= 64,
        place < other ==> place * bits + bits <= other * bits,
{
    let per = 64int / bits;
    lemma_fundamental_div_mod(64, bits);
    assert(per * bits <= 64) by (nonlinear_arith)
        requires
            64 == bits * per + 64int % bits,
            0 <= 64int % bits,
    ;
    assert(place * bits + bits <= per * bits && 0 <= place * bits) by (nonlinear_arith)
        requires
            0 <= place < per,
            bits >= 1,
    ;
    if place < other {
        assert(place * bits + bits <= other * bits) by (nonlinear_arith)
            requires
                place + 1 <= other,
                bits >= 1,
        ;
    }
}

/// One page of values: the least of them, and for each the distance from
/// it, written with as many bits as the greatest distance needs. A block
/// holds as many whole residuals as fit in 64 bits.
pub struct DeltaPage {
    min: i64,
    bits_per_value: u64,
    count: usize,
    blocks: Vec<u64>,
}

impl DeltaPage {
    /// Residuals per block.
    spec fn per_block(&self) -> int {
        64int / (self.bits_per_value as int)
    }

    /// The distance of value `i` from the least value.
    spec fn residual(&self, i: int) -> u64 {
        if self.bits_per_value == 0 {
            0
        } else {
            residual_in(
                self.blocks@[i / self.per_block()],
                self.bits_per_value,
                (i % self.per_block()) as u64,
            )
        }
    }

    /// The blocks hold a residual for every value, and each value is a
    /// long.
    pub closed spec fn wf(&self) -> bool {
        &&& self.bits_per_value <= 64
        &&& self.bits_per_value > 0 ==> self.blocks@.len() * self.per_block() >= self.count
        &&& forall|i: int| 0 <= i < self.count ==> self.min + #[trigger] self.residual(i) <= i64::MAX
    }

    /// Number of bits that each residual takes.
    pub closed spec fn bits_per_value(&self) -> int {
        self.bits_per_value as int
    }

    /// Number of blocks in use.
    pub closed spec fn num_blocks(&self) -> int {
        self.blocks@.len() as int
    }

    /// Packs `values`, which must not be empty, into a page that uses no
    /// more bits for a residual than the widest of them needs.
    pub fn pack(values: &Vec<i64>) -> (page: DeltaPage)
        requires
            values@.len() > 0,
        ensures
            page.wf(),
            page@ == values@,
            exists|i: int, j: int|
                0 <= i < values@.len() && 0 <= j < values@.len() && page.bits_per_value()
                    == bits_required((values@[i] - values@[j]) as u64),
            forall|i: int, j: int|
                0 <= i < values@.len() && 0 <= j < values@.len() ==> values@[i] - values@[j]
                    <= low_mask(page.bits_per_value() as u64),
    {
        let count = values.len();
        let mut min = values[0];
        let mut max = values[0];
        let ghost mut at_min = 0int;
        let ghost mut at_max = 0int;
        let mut i: usize = 1;
        while i < count
            invariant
                count == values@.len(),
                1 <= i <= count,
                0 <= at_min < i && values@[at_min] == min,
                0 <= at_max < i && values@[at_max] == max,
                forall|k: int| 0 <= k < i ==> min <= #[trigger] values@[k] <= max,
            decreases count - i,
        {
            if values[i] < min {
                min = values[i];
                proof {
                    at_min = i as int;
                }
            }
            if values[i] > max {
                max = values[i];
                proof {
                    at_max = i as int;
                }
            }
            i += 1;
        }
        let widest: u64 = (max as i128 - min as i128) as u64;
        let bits = bits_for(widest);
        assert forall|a: int, b: int|
            0 <= a < values@.len() && 0 <= b < values@.len() implies values@[a] - values@[b]
            <= low_mask(bits) by {
            assert(min <= values@[a] <= max);
            assert(min <= values@[b] <= max);
        }
        if bits == 0 {
            let page = DeltaPage { min, bits_per_value: 0, count, blocks: Vec::new() };
            proof {
                assert(low_mask(0u64) == 0) by (bit_vector);
                assert forall|k: int| 0 <= k < count implies #[trigger] values@[k] == min by {
                    assert(min <= values@[k] <= max);
                }
                assert(page@ =~= values@);
            }
            return page;
        }
        assert(64int / (bits as int) >= 1) by (nonlinear_arith)
            requires
                1 <= bits <= 64,
        ;
        let per: usize = (64 / bits) as usize;
        let num_blocks: usize = (count - 1) / per + 1;
        let mut blocks: Vec<u64> = Vec::new();
        let mut b: usize = 0;
        while b < num_blocks
            invariant
                b <= num_blocks,
                blocks@.len() == b,
                forall|k: int| 0 <= k < b ==> blocks@[k] == 0,
            decreases num_blocks - b,
        {
            blocks.push(0u64);
            b += 1;
        }
        proof {
            lemma_fundamental_div_mod((count - 1) as int, per as int);
            assert(num_blocks * per >= count) by (nonlinear_arith)
                requires
                    count - 1 == per * ((count - 1) / (per as int)) + (count - 1) % (per as int),
                    (count - 1) % (per as int) < per,
                    num_blocks == (count - 1) / (per as int) + 1,
            ;
        }
        let mut block: usize = 0;
        let mut place: usize = 0;
        let mut i: usize = 0;
        proof {
            assert forall|w: int, p: int| 0 <= w < num_blocks && 0 <= p < per implies #[trigger] residual_in(
                blocks@[w],
                bits,
                p as u64,
            ) == 0 by {
                lemma_places(bits as int, p, p);
                lemma_empty_block(bits, ((p as u64) * bits) as u64);
            }
        }
        while i < count
            invariant
                count == values@.len(),
                1 <= bits <= 64,
                per == 64int / (bits as int),
                per >= 1,
                num_blocks * per >= count,
                blocks@.len() == num_blocks,
                i <= count,
                i == block * per + place,
                place < per,
                block <= num_blocks,
                widest <= low_mask(bits),
                widest == max - min,
                forall|k: int| 0 <= k < count ==> min <= #[trigger] values@[k] <= max,
                forall|w: int, p: int|
                    0 <= w < num_blocks && 0 <= p < per ==> #[trigger] residual_in(
                        blocks@[w],
                        bits,
                        p as u64,
                    ) == if w * per + p < i {
                        (values@[w * per + p] - min) as u64
                    } else {
                        0
                    },
            decreases count - i,
        {
            assert(block < num_blocks) by (nonlinear_arith)
                requires
                    i == block * per + place,
                    i < count,
                    count <= num_blocks * per,
                    place >= 0,
                    per >= 1,
            ;
            proof {
                lemma_places(bits as int, place as int, place as int);
            }
            let residual: u64 = (values[i] as i128 - min as i128) as u64;
            let shift: u64 = (place as u64) * bits;
            let ghost before = blocks@;
            let word = blocks[block];
            blocks[block] = word | (residual << shift);
            proof {
                assert(residual_in(before[block as int], bits, place as u64) == 0);
                assert forall|w: int, p: int| 0 <= w < num_blocks && 0 <= p < per implies #[trigger] residual_in(
                    blocks@[w],
                    bits,
                    p as u64,
                ) == if w * per + p < i + 1 {
                    (values@[w * per + p] - min) as u64
                } else {
                    0
                } by {
                    let was = residual_in(before[w], bits, p as u64);
                    assert(was == if w * per + p < i {
                        (values@[w * per + p] - min) as u64
                    } else {
                        0
                    });
                    if w == block {
                        lemma_places(bits as int, place as int, p);
                        lemma_places(bits as int, p, place as int);
                        lemma_store(word, residual, bits, shift, ((p as u64) * bits) as u64);
                    } else {
                        assert((w * per + p < i) == (w < block)) by (nonlinear_arith)
                            requires
                                w != block,
                                0 <= p < per,
                                0 <= place < per,
                                i == block * per + place,
                        ;
                        assert((w * per + p < i + 1) == (w < block)) by (nonlinear_arith)
                            requires
                                w != block,
                                0 <= p < per,
                                0 <= place < per,
                                i == block * per + place,
                        ;
                    }
                }
            }
            place += 1;
            if place == per {
                place = 0;
                assert((block + 1) * per + 0 == block * per + per) by (nonlinear_arith);
                block += 1;
            }
            i += 1;
        }
        let page = DeltaPage { min, bits_per_value: bits, count, blocks };
        proof {
            assert forall|k: int| 0 <= k < count implies page.residual(k) == (values@[k] - min) as u64 by {
                lemma_fundamental_div_mod(k, per as int);
                let w = k / (per as int);
                let p = k % (per as int);
                assert(w * per + p == k) by (nonlinear_arith)
                    requires
                        k == per * w + p,
                ;
                assert(w < num_blocks) by (nonlinear_arith)
                    requires
                        k == per * w + p,
                        k < count,
                        count <= num_blocks * per,
                        p >= 0,
                        per >= 1,
                ;
                assert(0 <= w) by (nonlinear_arith)
                    requires
                        k == per * w + p,
                        0 <= k,
                        0 <= p < per,
                ;
                assert(residual_in(page.blocks@[w], bits, p as u64) == (values@[w * per + p]
                    - min) as u64);
            }
            assert forall|k: int| 0 <= k < count implies #[trigger] page@[k] == values@[k] by {
                assert(page.residual(k) == (values@[k] - min) as u64);
                assert(min <= values@[k] <= max);
            }
            assert(page@ =~= values@);
            assert(page.bits_per_value() == bits_required((values@[at_max] - values@[at_min]) as u64));
        }
        page
    }

    /// Number of values in the page.
    pub fn len(&self) -> (n: usize)
        ensures
            n == self@.len(),
    {
        self.count
    }

    /// The value at `index`.
    pub fn get(&self, index: usize) -> (value: i64)
        requires
            self.wf(),
            index < self@.len(),
        ensures
            value == self@[index as int],
    {
        if self.bits_per_value == 0 {
            return self.min;
        }
        assert(64int / (self.bits_per_value as int) >= 1) by (nonlinear_arith)
            requires
                1 <= self.bits_per_value <= 64,
        ;
        let per: usize = (64 / self.bits_per_value) as usize;
        let block = index / per;
        let place = index % per;
        proof {
            lemma_places(self.bits_per_value as int, place as int, place as int);
            lemma_fundamental_div_mod(index as int, per as int);
            assert(block < self.blocks@.len()) by (nonlinear_arith)
                requires
                    index == per * block + place,
                    index < self.count,
                    self.count <= self.blocks@.len() * per,
                    place >= 0,
                    per >= 1,
            ;
            assert(self.min + self.residual(index as int) <= i64::MAX);
        }
        let shift: u64 = (place as u64) * self.bits_per_value;
        let mask: u64 = if self.bits_per_value >= 64 {
            0xffff_ffff_ffff_ffffu64
        } else {
            !(0xffff_ffff_ffff_ffffu64 << self.bits_per_value)
        };
        let residual = (self.blocks[block] >> shift) & mask;
        (self.min as i128 + residual as i128) as i64
    }
}

impl View for DeltaPage {
    type V = Seq<i64>;

    closed spec fn view(&self) -> Seq<i64> {
        Seq::new(self.count as nat, |i: int| (self.min + self.residual(i)) as i64)
    }
}

impl Clone for DeltaPage {
    fn clone(&self) -> (copy: DeltaPage)
        ensures
            copy@ == self@,
            copy.wf() == self.wf(),
    {
        let blocks = self.blocks.clone();
        assert(blocks@ =~= self.blocks@);
        let copy = DeltaPage {
            min: self.min,
            bits_per_value: self.bits_per_value,
            count: self.count,
            blocks,
        };
        proof {
            assert forall|i: int| copy.residual(i) == self.residual(i) by {}
            assert(copy@ =~= self@);
        }
        copy
    }
}

/// The values of `pages`, one page after the other.
pub open spec fn flatten(pages: Seq<DeltaPage>) -> Seq<i64>
    decreases pages.len(),
{
    if pages.len() == 0 {
        Seq::empty()
    } else {
        flatten(pages.drop_last()) + pages.last()@
    }
}

/// Every page is in order and holds `page_size` values, but for the last,
/// which may hold fewer.
pub open spec fn paged(pages: Seq<DeltaPage>, page_size: int) -> bool {
    &&& page_size > 0
    &&& forall|k: int| 0 <= k < pages.len() ==> (#[trigger] pages[k]).wf()
    &&& forall|k: int| 0 <= k < pages.len() - 1 ==> (#[trigger] pages[k])@.len() == page_size
    &&& pages.len() > 0 ==> 1 <= pages.last()@.len() <= page_size
}

/// In a paged sequence, value `i` is value `i % page_size` of page
/// `i / page_size`.
pub proof fn lemma_flatten_index(pages: Seq<DeltaPage>, page_size: int, i: int)
    requires
        paged(pages, page_size),
        0 <= i < flatten(pages).len(),
    ensures
        0 <= i / page_size < pages.len(),
        0 <= i % page_size < pages[i / page_size]@.len(),
        flatten(pages)[i] == pages[i / page_size]@[i % page_size],
        pages.len() > 0 ==> flatten(pages).len() == (pages.len() - 1) * page_size
            + pages.last()@.len(),
    decreases pages.len(),
{
    let n = pages.len() as int;
    let front = pages.drop_last();
    lemma_flatten_len(pages, page_size);
    let start = (n - 1) * page_size;
    if i >= start {
        lemma_fundamental_div_mod_converse(i, page_size, n - 1, i - start);
    } else {
        // The pages before the last are all full.
        let full = Seq::new((n - 1) as nat, |k: int| pages[k]);
        assert(full =~= front);
        lemma_flatten_full(front, page_size, i);
        assert(front[i / page_size] == pages[i / page_size]);
    }
}

/// The length of a paged sequence.
pub proof fn lemma_flatten_len(pages: Seq<DeltaPage>, page_size: int)
    requires
        page_size > 0,
        forall|k: int| 0 <= k < pages.len() - 1 ==> (#[trigger] pages[k])@.len() == page_size,
    ensures
        pages.len() > 0 ==> flatten(pages).len() == (pages.len() - 1) * page_size
            + pages.last()@.len(),
        pages.len() == 0 ==> flatten(pages).len() == 0,
    decreases pages.len(),
{
    if pages.len() > 0 {
        let front = pages.drop_last();
        assert forall|k: int| 0 <= k < front.len() - 1 implies (#[trigger] front[k])@.len()
            == page_size by {
            assert(front[k] == pages[k]);
        }
        lemma_flatten_len(front, page_size);
        if front.len() > 0 {
            assert(front.last() == pages[pages.len() - 2]);
            assert((pages.len() - 1) * page_size == (front.len() - 1) * page_size + page_size)
                by (nonlinear_arith)
                requires
                    front.len() == pages.len() - 1,
            ;
        }
    }
}

/// In a sequence of full pages, value `i` is value `i % page_size` of page
/// `i / page_size`.
proof fn lemma_flatten_full(pages: Seq<DeltaPage>, page_size: int, i: int)
    requires
        page_size > 0,
        forall|k: int| 0 <= k < pages.len() ==> (#[trigger] pages[k])@.len() == page_size,
        0 <= i < pages.len() * page_size,
    ensures
        flatten(pages).len() == pages.len() * page_size,
        0 <= i / page_size < pages.len(),
        0 <= i % page_size < page_size,
        flatten(pages)[i] == pages[i / page_size]@[i % page_size],
    decreases pages.len(),
{
    let n = pages.len() as int;
    assert(n > 0) by (nonlinear_arith)
        requires
            0 <= i < n * page_size,
            n >= 0,
    ;
    lemma_flatten_len(pages, page_size);
    assert(n * page_size == (n - 1) * page_size + page_size) by (nonlinear_arith);
    let start = (n - 1) * page_size;
    if i >= start {
        lemma_fundamental_div_mod_converse(i, page_size, n - 1, i - start);
    } else {
        let front = pages.drop_last();
        assert forall|k: int| 0 <= k < front.len() implies (#[trigger] front[k])@.len()
            == page_size by {
            assert(front[k] == pages[k]);
        }
        lemma_flatten_full(front, page_size, i);
        assert(front[i / page_size] == pages[i / page_size]);
    }
}

/// An array of longs, packed page by page. It is read by index or walked by
/// an iterator.
pub struct PackedLongValues {
    page_size: usize,
    pages: Vec<DeltaPage>,
    size: usize,
}

impl View for PackedLongValues {
    type V = Seq<i64>;

    closed spec fn view(&self) -> Seq<i64> {
        flatten(self.pages@)
    }
}

impl PackedLongValues {
    /// The values of `values`, packed `page_size` to a page. Reading them
    /// back gives `values` again.
    pub fn pack(values: &[i64], page_size: usize) -> (packed: PackedLongValues)
        requires
            page_size > 0,
        ensures
            packed.wf(),
            packed@ == values@,
    {
        let mut builder = PackedLongValuesBuilder::new(page_size);
        let n = values.len();
        assert(values@.len() == n);
        builder.add_all(values);
        builder.build()
    }

    /// The pages are in order and the size is the number of values.
    pub closed spec fn wf(&self) -> bool {
        &&& paged(self.pages@, self.page_size as int)
        &&& self.size == flatten(self.pages@).len()
    }

    /// Number of values.
    pub fn size(&self) -> (n: usize)
        requires
            self.wf(),
        ensures
            n == self@.len(),
    {
        self.size
    }

    /// The value at `index`.
    pub fn get(&self, index: usize) -> (value: i64)
        requires
            self.wf(),
            index < self@.len(),
        ensures
            value == self@[index as int],
    {
        proof {
            lemma_flatten_index(self.pages@, self.page_size as int, index as int);
        }
        let page = index / self.page_size;
        let within = index % self.page_size;
        self.pages[page].get(within)
    }

    /// All the values, in order.
    pub fn to_vec(&self) -> (values: Vec<i64>)
        requires
            self.wf(),
        ensures
            values@ == self@,
    {
        let mut values: Vec<i64> = Vec::new();
        let mut iter = self.iterator();
        loop
            invariant
                iter.wf(),
                iter.values() == self@,
                values@ == self@.take(iter.position()),
                iter.position() <= self@.len(),
            ensures
                values@ == self@,
            decreases self@.len() - iter.position(),
        {
            match iter.next() {
                Some(v) => {
                    values.push(v);
                    proof {
                        assert(values@ =~= self@.take(iter.position()));
                    }
                },
                None => {
                    proof {
                        assert(self@.take(self@.len() as int) =~= self@);
                    }
                    break ;
                },
            }
        }
        values
    }

    /// An iterator over the values, from the first.
    pub fn iterator(&self) -> (iter: LongValuesIterator<'_>)
        requires
            self.wf(),
        ensures
            iter.wf(),
            iter.values() == self@,
            iter.position() == 0,
    {
        LongValuesIterator { values: self, pos: 0 }
    }
}

impl LongValues for PackedLongValues {
    open spec fn values(&self) -> Seq<i64> {
        self@
    }

    open spec fn inv(&self) -> bool {
        self.wf()
    }

    open spec fn unfailing(&self) -> bool {
        true
    }

    /// Fails with `IllegalArgument` exactly when `index` is outside the
    /// array.
    fn get64(&self, index: i64) -> (r: Result<i64, Error>)
        ensures
            r matches Err(e) ==> e is IllegalArgument,
    {
        if index < 0 || index as u64 >= self.size as u64 {
            Err(Error::IllegalArgument(String::from_str("index out of bounds")))
        } else {
            Ok(self.get(index as usize))
        }
    }
}

/// Pages with the same values, one by one, flatten to the same values.
proof fn lemma_flatten_same(a: Seq<DeltaPage>, b: Seq<DeltaPage>)
    requires
        a.len() == b.len(),
        forall|k: int| 0 <= k < a.len() ==> (#[trigger] a[k])@ == b[k]@,
    ensures
        flatten(a) == flatten(b),
    decreases a.len(),
{
    if a.len() > 0 {
        assert forall|k: int| 0 <= k < a.len() - 1 implies (#[trigger] a.drop_last()[k])@
            == b.drop_last()[k]@ by {
            assert(a[k]@ == b[k]@);
        }
        lemma_flatten_same(a.drop_last(), b.drop_last());
        assert(a.last()@ == b.last()@) by {
            assert(a[a.len() - 1]@ == b[a.len() - 1]@);
        }
    }
}

impl Clone for PackedLongValues {
    fn clone(&self) -> (copy: PackedLongValues)
        ensures
            copy@ == self@,
            self.wf() ==> copy.wf(),
    {
        let mut pages: Vec<DeltaPage> = Vec::new();
        let n = self.pages.len();
        let mut i: usize = 0;
        while i < n
            invariant
                n == self.pages@.len(),
                i <= n,
                pages@.len() == i,
                forall|k: int|
                    0 <= k < i ==> (#[trigger] pages@[k])@ == self.pages@[k]@ && pages@[k].wf()
                        == self.pages@[k].wf(),
            decreases n - i,
        {
            pages.push(self.pages[i].clone());
            i += 1;
        }
        let copy = PackedLongValues { page_size: self.page_size, pages, size: self.size };
        proof {
            lemma_flatten_same(copy.pages@, self.pages@);
            if self.wf() {
                assert forall|k: int| 0 <= k < copy.pages@.len() implies (
                #[trigger] copy.pages@[k]).wf() by {
                    assert(self.pages@[k].wf());
                }
                assert forall|k: int| 0 <= k < copy.pages@.len() - 1 implies (
                #[trigger] copy.pages@[k])@.len() == copy.page_size by {
                    assert(self.pages@[k]@.len() == self.page_size);
                }
                if n > 0 {
                    assert(copy.pages@.last()@ == self.pages@[n - 1]@);
                }
            }
        }
        copy
    }
}

impl CloneableLongValues for PackedLongValues {
    fn cloned(&self) -> (copy: PackedLongValues) {
        self.clone()
    }

    fn cloned_lv(&self) -> (copy: PackedLongValues) {
        self.clone()
    }
}

/// Walks the values of a `PackedLongValues` in order.
pub struct LongValuesIterator<'a> {
    values: &'a PackedLongValues,
    pos: usize,
}

impl<'a> LongValuesIterator<'a> {
    /// All the values that the iterator walks over.
    pub closed spec fn values(&self) -> Seq<i64> {
        self.values@
    }

    /// Number of values handed out so far.
    pub closed spec fn position(&self) -> int {
        self.pos as int
    }

    /// The iterator stands inside its values.
    pub closed spec fn wf(&self) -> bool {
        &&& self.values.wf()
        &&& self.pos <= self.values@.len()
    }

    /// The next value, or `None` when all have been handed out.
    pub fn next(&mut self) -> (item: Option<i64>)
        requires
            old(self).wf(),
        ensures
            final(self).wf(),
            final(self).values() == old(self).values(),
            old(self).position() < old(self).values().len() ==> item == Some(
                old(self).values()[old(self).position()],
            ) && final(self).position() == old(self).position() + 1,
            old(self).position() >= old(self).values().len() ==> item is None && final(
                self).position() == old(self).position(),
    {
        if self.pos < self.values.size() {
            let value = self.values.get(self.pos);
            self.pos += 1;
            Some(value)
        } else {
            None
        }
    }

    /// Goes back to the first value.
    pub fn reset(&mut self)
        requires
            old(self).wf(),
        ensures
            final(self).wf(),
            final(self).values() == old(self).values(),
            final(self).position() == 0,
    {
        self.pos = 0;
    }
}

/// Collects longs and packs them page by page: whenever a page is full it
/// is packed as its least value and the distances from it.
pub struct PackedLongValuesBuilder {
    page_size: usize,
    pages: Vec<DeltaPage>,
    pending: Vec<i64>,
    size: usize,
}

impl View for PackedLongValuesBuilder {
    type V = Seq<i64>;

    closed spec fn view(&self) -> Seq<i64> {
        flatten(self.pages@) + self.pending@
    }
}

impl PackedLongValuesBuilder {
    /// The packed pages are full, and fewer values than a page are waiting.
    pub closed spec fn wf(&self) -> bool {
        &&& self.page_size > 0
        &&& forall|k: int| 0 <= k < self.pages@.len() ==> (#[trigger] self.pages@[k]).wf()
        &&& forall|k: int|
            0 <= k < self.pages@.len() ==> (#[trigger] self.pages@[k])@.len() == self.page_size
        &&& self.pending@.len() < self.page_size
        &&& self.size == flatten(self.pages@).len() + self.pending@.len()
    }

    /// Number of values in a page.
    pub closed spec fn page_size(&self) -> int {
        self.page_size as int
    }

    /// An empty builder that packs `page_size` values to a page.
    pub fn new(page_size: usize) -> (builder: PackedLongValuesBuilder)
        requires
            page_size > 0,
        ensures
            builder.wf(),
            builder@ == Seq::<i64>::empty(),
            builder.page_size() == page_size,
    {
        let builder = PackedLongValuesBuilder {
            page_size,
            pages: Vec::new(),
            pending: Vec::new(),
            size: 0,
        };
        assert(builder@ =~= Seq::<i64>::empty());
        builder
    }

    /// Number of values added.
    pub fn size(&self) -> (n: usize)
        requires
            self.wf(),
        ensures
            n == self@.len(),
    {
        self.size
    }

    /// Adds each of `values` at the end, in order.
    pub fn add_all(&mut self, values: &[i64])
        requires
            old(self).wf(),
            old(self)@.len() + values@.len() <= usize::MAX,
        ensures
            final(self).wf(),
            final(self)@ == old(self)@ + values@,
            final(self).page_size() == old(self).page_size(),
    {
        let n = values.len();
        let mut i: usize = 0;
        while i < n
            invariant
                n == values@.len(),
                i <= n,
                self.wf(),
                self.page_size() == old(self).page_size(),
                old(self)@.len() + values@.len() <= usize::MAX,
                self@ == old(self)@ + values@.take(i as int),
            decreases n - i,
        {
            self.add(values[i]);
            proof {
                assert(self@ =~= old(self)@ + values@.take(i + 1));
            }
            i += 1;
        }
        proof {
            assert(values@.take(n as int) =~= values@);
        }
    }

    /// Adds `value` at the end.
    pub fn add(&mut self, value: i64)
        requires
            old(self).wf(),
            old(self)@.len() < usize::MAX,
        ensures
            final(self).wf(),
            final(self)@ == old(self)@.push(value),
            final(self).page_size() == old(self).page_size(),
    {
        self.pending.push(value);
        self.size += 1;
        if self.pending.len() == self.page_size {
            let ghost waiting = self.pending@;
            let ghost packed = self.pages@;
            let page = DeltaPage::pack(&self.pending);
            self.pages.push(page);
            self.pending = Vec::new();
            proof {
                assert(self.pages@.drop_last() =~= packed);
                assert(flatten(self.pages@) =~= flatten(packed) + waiting);
                assert(self@ =~= old(self)@.push(value));
            }
        } else {
            assert(self@ =~= old(self)@.push(value));
        }
    }

    /// Packs what is waiting and hands out all the values that were added,
    /// in the order in which they were added. The builder is empty
    /// afterwards.
    pub fn build(&mut self) -> (values: PackedLongValues)
        requires
            old(self).wf(),
        ensures
            values.wf(),
            values@ == old(self)@,
            final(self).wf(),
            final(self)@ == Seq::<i64>::empty(),
            final(self).page_size() == old(self).page_size(),
    {
        let ghost packed = self.pages@;
        let ghost waiting = self.pending@;
        if self.pending.len() > 0 {
            let page = DeltaPage::pack(&self.pending);
            self.pages.push(page);
            self.pending = Vec::new();
            proof {
                assert(self.pages@.drop_last() =~= packed);
                assert(flatten(self.pages@) =~= flatten(packed) + waiting);
            }
        } else {
            assert(flatten(packed) + waiting =~= flatten(packed));
        }
        let mut pages: Vec<DeltaPage> = Vec::new();
        std::mem::swap(&mut pages, &mut self.pages);
        let size = self.size;
        self.size = 0;
        let values = PackedLongValues { page_size: self.page_size, pages, size };
        proof {
            assert(self@ =~= Seq::<i64>::empty());
            assert forall|k: int| 0 <= k < values.pages@.len() - 1 implies (
            #[trigger] values.pages@[k])@.len() == values.page_size by {
                if k < packed.len() {
                    assert(values.pages@[k] == packed[k]);
                }
            }
            assert forall|k: int| 0 <= k < values.pages@.len() implies (
            #[trigger] values.pages@[k]).wf() by {
                if k < packed.len() {
                    assert(values.pages@[k] == packed[k]);
                }
            }
            if values.pages@.len() > 0 {
                if waiting.len() == 0 {
                    assert(values.pages@.last() == packed[packed.len() - 1]);
                }
            }
        }
        values
    }
}

} // verus!
