//! Sequential reading of bit fields from a byte slice.

use crate::bits::{
    all_bits, bit32, bit8, bit_at, bits_value, lemma_bits_determine_value, lemma_bits_value_bit,
    lemma_bits_value_masked, lemma_masked_range, low_mask,
};
use crate::error::Error;
use vstd::prelude::*;
use vstd::slice::*;

verus! {

/// Reads fields of 0 to 32 bits from a borrowed byte slice, least
/// significant bit first, keeping its own position.
#[derive(Clone, Copy)]
pub struct BitReader<'a> {
    /// How many bits of the byte under the cursor are consumed (0 to 7).
    endbit: i32,
    /// How many bits were read in total.
    total_bits: usize,
    /// The bytes that are read.
    data: &'a [u8],
    /// The index of the byte that holds the next bit.
    cursor: usize,
}

/// What reading a field of `w` bits from the remaining bits `s` gives: the
/// value and the bits that remain after it, or the reason for the failure.
pub open spec fn spec_read(s: Seq<bool>, w: int) -> Result<(i32, Seq<bool>), Error> {
    if w < 0 || w > 32 {
        Err(Error::InvalidInput)
    } else if w > s.len() {
        Err(Error::UnexpectedEof)
    } else {
        Ok((bits_value(s.take(w)) as i32, s.skip(w)))
    }
}

proof fn lemma_window_bit(b0: u8, b1: u8, b2: u8, b3: u8, b4: u8, e: u64, w: u32, t: u32)
    by (bit_vector)
    requires
        e < 8,
        w <= 32,
        t < 32,
    ensures
        ({
            let acc = (b0 as u64) | ((b1 as u64) << 8) | ((b2 as u64) << 16) | ((b3 as u64) << 24)
                | ((b4 as u64) << 32);
            let val = ((acc >> e) & (low_mask(w) as u64)) as u32;
            let j = (t as u64 + e) as u64;
            let b = if j < 8 {
                b0
            } else if j < 16 {
                b1
            } else if j < 24 {
                b2
            } else if j < 32 {
                b3
            } else {
                b4
            };
            bit32(val, t) == (t < w && bit8(b, (j % 8) as u8))
        }),
{
}

/// The value of a field of at most 31 bits is not negative and below two
/// to the power of the width.
pub proof fn lemma_read_range(s: Seq<bool>, w: int)
    requires
        0 <= w <= 31,
        w <= s.len(),
    ensures
        ({
            let v = bits_value(s.take(w));
            &&& spec_read(s, w) == Ok::<(i32, Seq<bool>), Error>((v as i32, s.skip(w)))
            &&& v as i32 == v
            &&& v & low_mask(w as u32) == v
            &&& v < (1u32 << (w as u32))
            &&& w <= 24 ==> v <= 0xff_ffff
            &&& w <= 16 ==> v <= 0xffff
            &&& w <= 8 ==> v <= 0xff
            &&& w <= 6 ==> v <= 63
            &&& w <= 5 ==> v <= 31
            &&& w <= 4 ==> v <= 15
            &&& w <= 3 ==> v <= 7
            &&& w <= 2 ==> v <= 3
            &&& w <= 1 ==> v <= 1
        }),
{
    let v = bits_value(s.take(w));
    lemma_bits_value_masked(s.take(w));
    lemma_masked_range(v, w as u32);
}

impl<'a> BitReader<'a> {
    #[verifier::type_invariant]
    spec fn well_formed(self) -> bool {
        &&& 0 <= self.endbit < 8
        &&& self.cursor <= self.data@.len()
        &&& self.endbit != 0 ==> self.cursor < self.data@.len()
        &&& 8 * self.data@.len() <= usize::MAX
        &&& self.total_bits == 8 * self.cursor + self.endbit
    }

    /// The bits that are still to be read, in stream order.
    pub closed spec fn view(&self) -> Seq<bool> {
        all_bits(self.data@).skip(self.total_bits as int)
    }

    /// The bytes that the reader was made on.
    pub closed spec fn source(&self) -> Seq<u8> {
        self.data@
    }

    /// How many bits were read since the reader was made.
    pub closed spec fn consumed(&self) -> nat {
        self.total_bits as nat
    }

    /// A reader at the first bit of `data`.
    pub fn new(data: &'a [u8]) -> (r: Self)
        requires
            8 * data@.len() <= usize::MAX,
        ensures
            r@ == all_bits(data@),
            r.source() == data@,
            r.consumed() == 0,
    {
        let r = Self { endbit: 0, total_bits: 0, cursor: 0, data };
        assert(r@ =~= all_bits(data@));
        r
    }

    /// Reads the next `bits` bits (0 to 32) as an integer whose bit 0 is the
    /// first bit read. A field of 32 bits with its last bit set comes out
    /// negative. On failure the reader is unchanged.
    pub fn read(&mut self, bits: i32) -> (r: Result<i32, Error>)
        ensures
            final(self).source() == old(self).source(),
            match spec_read(old(self)@, bits as int) {
                Ok((value, rest)) => r == Ok::<i32, Error>(value) && final(self)@ == rest
                    && final(self).consumed() == old(self).consumed() + bits,
                Err(e) => r == Err::<i32, Error>(e) && final(self)@ == old(self)@
                    && final(self).consumed() == old(self).consumed(),
            },
    {
        proof {
            use_type_invariant(&*self);
        }
        if bits < 0 || bits > 32 {
            return Err(Error::InvalidInput);
        }
        let ghost stream = all_bits(self.data@);
        let ghost pos = self.total_bits as int;
        let e: u64 = self.endbit as u64;
        let w: u32 = bits as u32;
        let end: usize = self.endbit as usize + bits as usize;
        let need: usize = (end + 7) / 8;
        if need > self.data.len() - self.cursor {
            return Err(Error::UnexpectedEof);
        }
        if end == 0 {
            assert(self@.take(0).len() == 0);
            assert(self@.skip(0) =~= self@);
            assert(bits_value(self@.take(0)) == 0);
            assert(0u32 as i32 == 0i32) by (bit_vector);
            return Ok(0);
        }
        let c = self.cursor;
        let b0: u8 = self.data[c];
        let b1: u8 = if need > 1 { self.data[c + 1] } else { 0 };
        let b2: u8 = if need > 2 { self.data[c + 2] } else { 0 };
        let b3: u8 = if need > 3 { self.data[c + 3] } else { 0 };
        let b4: u8 = if need > 4 { self.data[c + 4] } else { 0 };
        let acc: u64 = (b0 as u64) | ((b1 as u64) << 8) | ((b2 as u64) << 16) | ((b3 as u64) << 24)
            | ((b4 as u64) << 32);
        let mask: u32 = if w == 0 { 0 } else { 0xffff_ffffu32 >> (32 - w) };
        let val: u32 = #[verifier::truncate] (((acc >> e) & (mask as u64)) as u32);
        let ghost window = self@.take(bits as int);
        proof {
            assert forall|t: u32| t < 32 implies bit32(val, t) == bit32(bits_value(window), t) by {
                lemma_window_bit(b0, b1, b2, b3, b4, e, w, t);
                lemma_bits_value_bit(window, t);
                if t < w {
                    let j = t as int + e as int;
                    assert(window[t as int] == stream[pos + t]);
                    assert(stream[pos + t] == bit_at(self.data@, pos + t));
                    assert((pos + t) / 8 == c + j / 8);
                    assert((pos + t) % 8 == j % 8);
                }
            }
            lemma_bits_determine_value(val, bits_value(window));
        }
        let ghost before = self@;
        let new_cursor = c + end / 8;
        let new_endbit = (end % 8) as i32;
        let new_total = self.total_bits + bits as usize;
        *self = Self { endbit: new_endbit, total_bits: new_total, data: self.data, cursor: new_cursor };
        assert(self@ =~= before.skip(bits as int));
        Ok(#[verifier::truncate] (val as i32))
    }

    /// How many bits are still to be read. Every bit of the source is
    /// either read or still to be read.
    pub fn remaining_bits(&self) -> (n: usize)
        ensures
            n == self@.len(),
            self.consumed() + n == 8 * self.source().len(),
            self@ == all_bits(self.source()).skip(self.consumed() as int),
    {
        proof {
            use_type_invariant(self);
        }
        8 * self.data.len() - self.total_bits
    }

    /// How many bits were read since the reader was made.
    pub fn total_bits(&self) -> (n: usize)
        ensures
            n == self.consumed(),
    {
        self.total_bits
    }

    /// The index of the byte that holds the next bit to read.
    pub fn cursor(&self) -> (n: usize)
        ensures
            n == self.consumed() / 8,
    {
        proof {
            use_type_invariant(self);
        }
        self.cursor
    }

    /// How many bits of the byte under the cursor are already read.
    pub fn endbit(&self) -> (n: i32)
        ensures
            n == self.consumed() % 8,
    {
        proof {
            use_type_invariant(self);
        }
        self.endbit
    }
}

} // verus!
