//! Bit sets, packed integers and small helpers shared by the engine.

use std::ops::Deref;
use vstd::prelude::*;
use vstd::string::*;

pub mod bit_set;
pub mod bits;
pub mod disi;
pub mod packed;
pub mod string_util;

use crate::error::Error;

verus! {

/// Identifier of a document inside one segment.
pub type DocId = i32;

/// The headroom that `over_size` adds to a requested capacity: an eighth of
/// the request, and never less than three slots.
pub open spec fn growth_for(size: int) -> int {
    if size / 8 < 3 {
        3
    } else {
        size / 8
    }
}

/// Capacity to allocate for `size` elements so that repeated growth is
/// amortised: the request plus `growth_for` of it.
pub fn over_size(size: usize) -> (grown: usize)
    requires
        size + growth_for(size as int) <= usize::MAX,
    ensures
        grown == size + growth_for(size as int),
{
    let mut extra: usize = size >> 3;
    assert(size >> 3 == size / 8) by (bit_vector);
    if extra < 3 {
        extra = 3;
    }
    size + extra
}

/// Fills `array` with copies of `value`.
pub fn fill_slice<T: Copy>(array: &mut [T], value: T)
    ensures
        final(array)@.len() == old(array)@.len(),
        forall|i: int| 0 <= i < final(array)@.len() ==> final(array)@[i] == value,
{
    let n = array.len();
    let mut i: usize = 0;
    while i < n
        invariant
            n == array@.len(),
            n == old(array)@.len(),
            i <= n,
            forall|k: int| 0 <= k < i ==> array@[k] == value,
        decreases n - i,
    {
        array[i] = value;
        i += 1;
    }
}

/// An iterator that can be sent back to its start.
pub trait ReusableIterator: Iterator {
    /// Goes back to the first item.
    fn reset(&mut self);
}

/// Name under which doc-value formats look up the inverse document
/// frequency of a similarity.
pub const BM25_SIMILARITY_IDF: &'static str = "idf";

/// A value that is used through a reference to it.
pub struct DerefWrapper<T>(pub T);

impl<T> Deref for DerefWrapper<T> {
    type Target = T;

    fn deref(&self) -> (target: &T)
        ensures
            *target == self.0,
    {
        &self.0
    }
}

/// Read access to an array of longs.
///
/// The model of an implementation is the sequence `values`; `unfailing`
/// says whether reads inside the array always succeed, as they do for
/// values held in memory.
pub trait LongValues {
    /// The values of the array, by index.
    spec fn values(&self) -> Seq<i64>;

    /// What the implementation needs to hold of its own fields.
    spec fn inv(&self) -> bool;

    /// Whether a read inside the array can never report an error.
    spec fn unfailing(&self) -> bool;

    /// The value at `index`. A read that succeeds was inside the array and
    /// returns what is stored there.
    fn get64(&self, index: i64) -> (r: Result<i64, Error>)
        requires
            self.inv(),
        ensures
            r matches Ok(v) ==> 0 <= index < self.values().len() && v == self.values()[index as int],
            self.unfailing() && 0 <= index < self.values().len() ==> r is Ok,
    ;

    /// The same read through a unique reference; nothing is changed.
    fn get64_mut(&mut self, index: i64) -> (r: Result<i64, Error>)
        requires
            old(self).inv(),
        ensures
            final(self).inv(),
            final(self).values() == old(self).values(),
            final(self).unfailing() == old(self).unfailing(),
            r matches Ok(v) ==> 0 <= index < old(self).values().len() && v == old(self).values()[index as int],
            old(self).unfailing() && 0 <= index < old(self).values().len() ==> r is Ok,
    {
        self.get64(index)
    }
}

/// Long values that can hand out a copy of themselves.
pub trait CloneableLongValues: LongValues + Sized {
    /// A copy of these values: it holds the same values and is as
    /// reliable.
    fn cloned(&self) -> (copy: Self)
        requires
            self.inv(),
        ensures
            copy.inv(),
            copy.values() == self.values(),
            copy.unfailing() == self.unfailing(),
    ;

    /// A copy of these values, to be read only.
    fn cloned_lv(&self) -> (copy: Self)
        requires
            self.inv(),
        ensures
            copy.inv(),
            copy.values() == self.values(),
            copy.unfailing() == self.unfailing(),
    ;
}

/// `value` as a 32-bit integer, or `IllegalArgument` when it does not fit.
pub fn long_to_int_exact(value: i64) -> (r: Result<i32, Error>)
    ensures
        r is Ok <==> i32::MIN <= value <= i32::MAX,
        r matches Ok(v) ==> v == value,
        r matches Err(e) ==> e is IllegalArgument,
{
    if value < -0x8000_0000 || value > 0x7fff_ffff {
        Err(Error::IllegalArgument(String::from_str("integer overflow")))
    } else {
        Ok(value as i32)
    }
}

} // verus!
