//! A short list of numbers that is copied as a whole: the fixed-size
//! buffer that the sections of the setup header keep their lists in.

use copiablebuf::CopiableBuffer;
use vstd::prelude::*;

verus! {

/// The most numbers that a buffer holds.
pub const BUFFER_LIMIT: usize = 512;

/// A list of at most `BUFFER_LIMIT` numbers, held in a `CopiableBuffer`
/// of the crate copiablebuf. What it holds is known to the verifier only
/// through `buffer_items`.
#[verifier::external_body]
#[derive(Debug, PartialEq, Eq)]
pub struct IntBuffer {
    inner: CopiableBuffer<i32, 512>,
}

pub uninterp spec fn buffer_items(b: IntBuffer) -> Seq<i32>;

impl Clone for IntBuffer {
    /// `Clone` of a `CopiableBuffer`: a buffer that holds the same items.
    #[verifier::external_body]
    fn clone(&self) -> (b: Self)
        ensures
            buffer_items(b) == buffer_items(*self),
    {
        IntBuffer { inner: self.inner }
    }
}

impl View for IntBuffer {
    type V = Seq<i32>;

    open spec fn view(&self) -> Seq<i32> {
        buffer_items(*self)
    }
}

/// `CopiableBuffer::new`: a buffer that holds nothing.
#[verifier::external_body]
fn buffer_new() -> (b: IntBuffer)
    ensures
        buffer_items(b) == Seq::<i32>::empty(),
{
    IntBuffer { inner: CopiableBuffer::new() }
}

/// `CopiableBuffer::len`: the number of items that the buffer holds.
#[verifier::external_body]
fn buffer_len(b: &IntBuffer) -> (n: usize)
    ensures
        n == buffer_items(*b).len(),
        n <= BUFFER_LIMIT,
{
    b.inner.len()
}

/// `CopiableBuffer::push`: the item is put behind the items that the
/// buffer holds. The call panics on a full buffer, which is left out.
#[verifier::external_body]
fn buffer_push(b: &mut IntBuffer, value: i32)
    requires
        buffer_items(*old(b)).len() < BUFFER_LIMIT,
    ensures
        buffer_items(*final(b)) == buffer_items(*old(b)).push(value),
{
    b.inner.push(value)
}

/// `CopiableBuffer::resize`: the buffer keeps its first `new_len` items,
/// and where it held fewer, copies of `value` follow them. The call
/// panics on a length above the capacity, which is left out.
#[verifier::external_body]
fn buffer_resize(b: &mut IntBuffer, new_len: usize, value: i32)
    requires
        new_len <= BUFFER_LIMIT,
    ensures
        buffer_items(*final(b)) == (if new_len <= buffer_items(*old(b)).len() {
            buffer_items(*old(b)).take(new_len as int)
        } else {
            buffer_items(*old(b)) + Seq::new(
                (new_len - buffer_items(*old(b)).len()) as nat,
                |i: int| value,
            )
        }),
{
    b.inner.resize(new_len, value)
}

/// Indexing of a `CopiableBuffer`: the item at the index. The call panics
/// on an index that is not below the length, which is left out.
#[verifier::external_body]
fn buffer_get(b: &IntBuffer, index: usize) -> (value: i32)
    requires
        index < buffer_items(*b).len(),
    ensures
        value == buffer_items(*b)[index as int],
{
    b.inner[index]
}

/// Assignment to an index of a `CopiableBuffer`: the item at the index is
/// replaced. The call panics on an index that is not below the length,
/// which is left out.
#[verifier::external_body]
fn buffer_set(b: &mut IntBuffer, index: usize, value: i32)
    requires
        index < buffer_items(*old(b)).len(),
    ensures
        buffer_items(*final(b)) == buffer_items(*old(b)).update(index as int, value),
{
    b.inner[index] = value;
}

impl IntBuffer {
    /// A buffer that holds nothing.
    pub fn new() -> (b: Self)
        ensures
            b@ == Seq::<i32>::empty(),
    {
        buffer_new()
    }

    /// The number of items.
    pub fn len(&self) -> (n: usize)
        ensures
            n == self@.len(),
            n <= BUFFER_LIMIT,
    {
        buffer_len(self)
    }

    /// The item at `index`, if there is one.
    pub fn get(&self, index: usize) -> (r: Option<i32>)
        ensures
            r == (if index < self@.len() {
                Some(self@[index as int])
            } else {
                None
            }),
    {
        if index < buffer_len(self) {
            Some(buffer_get(self, index))
        } else {
            None
        }
    }

    /// The item at `index`, which must be below the length.
    pub fn at(&self, index: usize) -> (value: i32)
        requires
            index < self@.len(),
        ensures
            value == self@[index as int],
    {
        buffer_get(self, index)
    }

    /// Replaces the item at `index`, which must be below the length.
    pub fn set(&mut self, index: usize, value: i32)
        requires
            index < old(self)@.len(),
        ensures
            final(self)@ == old(self)@.update(index as int, value),
    {
        buffer_set(self, index, value)
    }

    /// Puts an item behind the others, if the buffer is not full, and
    /// says whether it did.
    pub fn push(&mut self, value: i32) -> (done: bool)
        ensures
            done == (old(self)@.len() < BUFFER_LIMIT),
            done ==> final(self)@ == old(self)@.push(value),
            !done ==> final(self)@ == old(self)@,
    {
        if buffer_len(self) < BUFFER_LIMIT {
            buffer_push(self, value);
            true
        } else {
            false
        }
    }

    /// Brings the buffer to `new_len` items, which must be at most
    /// `BUFFER_LIMIT`: it keeps its first items, and copies of `value`
    /// follow them if it held fewer.
    pub fn resize(&mut self, new_len: usize, value: i32)
        requires
            new_len <= BUFFER_LIMIT,
        ensures
            final(self)@.len() == new_len,
            forall|i: int|
                0 <= i < new_len ==> #[trigger] final(self)@[i] == (if i < old(self)@.len() {
                    old(self)@[i]
                } else {
                    value
                }),
    {
        buffer_resize(self, new_len, value)
    }

    /// The buffer of the items of `items`, of which there must be at most
    /// `BUFFER_LIMIT`.
    pub fn from_slice(items: &[i32]) -> (b: Self)
        requires
            items@.len() <= BUFFER_LIMIT,
        ensures
            b@ == items@,
    {
        let mut b = buffer_new();
        let mut i: usize = 0;
        while i < items.len()
            invariant
                i <= items@.len() <= BUFFER_LIMIT,
                b@ == items@.take(i as int),
            decreases items@.len() - i,
        {
            buffer_push(&mut b, items[i]);
            assert(b@ =~= items@.take(i + 1));
            i += 1;
        }
        assert(items@.take(items@.len() as int) =~= items@);
        b
    }

    /// The items as a vector.
    pub fn to_vec(&self) -> (v: Vec<i32>)
        ensures
            v@ == self@,
    {
        let n = buffer_len(self);
        let mut v: Vec<i32> = Vec::new();
        let mut i: usize = 0;
        while i < n
            invariant
                i <= n,
                n == self@.len(),
                v@ == self@.take(i as int),
            decreases n - i,
        {
            v.push(buffer_get(self, i));
            assert(v@ =~= self@.take(i + 1));
            i += 1;
        }
        assert(self@.take(n as int) =~= self@);
        v
    }
}

impl Default for IntBuffer {
    /// A buffer that holds nothing.
    fn default() -> (b: Self)
        ensures
            b@ == Seq::<i32>::empty(),
    {
        buffer_new()
    }
}

} // verus!
