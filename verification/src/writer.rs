//! Sequential writing of bit fields into a growing byte buffer.

use crate::bits::{
    bit32, bit8, bit_at, bits_of_bytes, bytes_for, bytes_of_bits, canonical,
    lemma_canonical_is_bytes_of_bits, lemma_canonical_len, lemma_canonical_all_bits,
    lemma_whole_bytes_canonical, low_mask, padding, value_bits, zero_bits,
};
use crate::error::Error;
use vstd::prelude::*;

verus! {

/// The number of cached bytes from which a write hands the complete bytes
/// on to the sink.
pub const CACHE_SIZE: usize = 1024;

/// Writes fields of 0 to 32 bits, least significant bit first. Bytes are
/// gathered in a cache and handed on to the sink, a byte vector, whole
/// bytes at a time.
pub struct BitWriter {
    /// How many bits of the last cached byte are in use (0: the cache ends
    /// on a byte boundary).
    endbit: i32,
    /// How many bits were written in total.
    total_bits: usize,
    /// The sink: the bytes that were handed on.
    writer: Vec<u8>,
    /// The bytes that are not yet handed on; the last one may be partial.
    cache: Vec<u8>,
}

proof fn lemma_write_byte_bit(value: u32, w: u32, e: u64, k: u64, t: u8)
    by (bit_vector)
    requires
        w <= 32,
        e < 8,
        k < 5,
        t < 8,
    ensures
        ({
            let v = (value & low_mask(w)) as u64;
            let byte = ((v << e) >> (8 * k)) as u8;
            let j = (8 * k + t as u64) as u64;
            bit8(byte, t) == (j >= e && j - e < w as u64 && bit32(value, (j - e) as u32))
        }),
{
}

proof fn lemma_or_byte_bit(a: u8, b: u8, t: u8)
    by (bit_vector)
    requires
        t < 8,
    ensures
        bit8(a | b, t) == (bit8(a, t) || bit8(b, t)),
{
}

/// The bytes of a stream of `len` bits held in `bytes`, after a field of the
/// `w` low bits of `value` is appended to it.
#[verifier::opaque]
spec fn appended_bytes(bytes: Seq<u8>, len: nat, value: u32, w: u32) -> Seq<u8> {
    let e = (len % 8) as u64;
    let base = (len / 8) as int;
    let shifted = ((value & low_mask(w)) as u64) << e;
    Seq::new(
        bytes_for(len + w) as nat,
        |q: int|
            if q < base {
                bytes[q]
            } else {
                let c = (shifted >> ((8 * (q - base)) as u64)) as u8;
                if q == base && e != 0 {
                    bytes[base] | c
                } else {
                    c
                }
            },
    )
}

proof fn lemma_appended_bit(bytes: Seq<u8>, len: nat, value: u32, w: u32, i: int)
    requires
        canonical(bytes, len),
        w <= 32,
        0 <= i < 8 * bytes_for(len + w),
    ensures
        bit_at(appended_bytes(bytes, len, value, w), i) == (if i < len {
            bit_at(bytes, i)
        } else {
            i < len + w && bit32(value, (i - len) as u32)
        }),
{
    reveal(canonical);
    reveal(appended_bytes);
    let e = (len % 8) as u64;
    let base = (len / 8) as int;
    let q = i / 8;
    let t = (i % 8) as u8;
    let shifted = ((value & low_mask(w)) as u64) << e;
    if q >= base {
        let k = (q - base) as u64;
        assert(k < 5);
        let c = (shifted >> ((8 * k) as u64)) as u8;
        lemma_write_byte_bit(value, w, e, k, t);
        if q == base && e != 0 {
            lemma_or_byte_bit(bytes[base], c, t);
            assert(bit_at(bytes, i) == bit8(bytes[base], t));
        }
    }
}

proof fn lemma_appended(bytes: Seq<u8>, len: nat, value: u32, w: u32)
    requires
        canonical(bytes, len),
        w <= 32,
    ensures
        canonical(appended_bytes(bytes, len, value, w), len + w as nat),
        bits_of_bytes(appended_bytes(bytes, len, value, w), len + w as nat) == bits_of_bytes(bytes, len)
            + value_bits(value, w as nat),
{
    reveal(canonical);
    reveal(appended_bytes);
    let new_bytes = appended_bytes(bytes, len, value, w);
    let expected = bits_of_bytes(bytes, len) + value_bits(value, w as nat);
    assert forall|i: int| len + w <= i < 8 * new_bytes.len() implies !#[trigger] bit_at(new_bytes, i) by {
        lemma_appended_bit(bytes, len, value, w, i);
    }
    assert forall|i: int| 0 <= i < len + w implies bits_of_bytes(new_bytes, len + w as nat)[i] == expected[i] by {
        lemma_appended_bit(bytes, len, value, w, i);
    }
    assert(bits_of_bytes(new_bytes, len + w as nat) =~= expected);
}

/// Puts a field of the `bits` low bits of `value` behind the `endbit` bits
/// in use in the last byte of `cache`.
fn append_field(cache: &mut Vec<u8>, Ghost(flushed): Ghost<Seq<u8>>, endbit: i32, value: u32, bits: i32)
    requires
        0 <= endbit < 8,
        0 <= bits <= 32,
        endbit != 0 ==> old(cache)@.len() >= 1,
    ensures
        ({
            let bytes = flushed + old(cache)@;
            let len = (8 * bytes.len() - if endbit != 0 { 8 - endbit } else { 0 }) as nat;
            flushed + final(cache)@ == appended_bytes(bytes, len, value, bits as u32)
        }),
{
    reveal(appended_bytes);
    let ghost bytes = flushed + cache@;
    let ghost len = (8 * bytes.len() - if endbit != 0 { 8 - endbit } else { 0 }) as nat;
    let ghost base = bytes.len() - if endbit != 0 { 1int } else { 0int };
    let ghost target = appended_bytes(bytes, len, value, bits as u32);
    let w: u32 = bits as u32;
    let mask: u32 = if w == 0 {
        0
    } else {
        0xffff_ffffu32 >> (32 - w)
    };
    let shifted: u64 = ((value & mask) as u64) << (endbit as u64);
    let n: usize = (endbit as usize + bits as usize + 7) / 8;
    proof {
        assert(len / 8 == base && len % 8 == endbit as int);
        assert(shifted >> 0 == shifted) by (bit_vector);
        assert(target.len() == base + n);
    }
    let mut k: usize = 0;
    if endbit != 0 {
        let last = cache.pop().unwrap();
        let c: u8 = #[verifier::truncate] (shifted as u8);
        cache.push(last | c);
        k = 1;
        assert(target[base] == bytes[base] | c);
        assert(flushed + cache@ =~= target.take(base + 1));
    } else {
        assert(flushed + cache@ =~= target.take(base));
    }
    while k < n
        invariant
            k <= n <= 5,
            0 <= base,
            base + n == target.len(),
            k == 0 ==> endbit == 0,
            flushed + cache@ == target.take(base + k),
            target == appended_bytes(bytes, len, value, w),
            len / 8 == base && len % 8 == endbit as int,
            0 <= endbit < 8,
            shifted == ((value & low_mask(w)) as u64) << (endbit as u64),
        decreases n - k,
    {
        reveal(appended_bytes);
        let c: u8 = #[verifier::truncate] ((shifted >> (8 * k as u64)) as u8);
        cache.push(c);
        proof {
            let q = base + k;
            let prev = target.take(q);
            assert((8 * (q - base)) as u64 == 8 * k as u64);
            assert(target[q] == c);
            assert(flushed + cache@ =~= prev.push(c));
            assert(prev.push(c) =~= target.take(q + 1));
        }
        k += 1;
    }
    assert(flushed + cache@ =~= target);
}

/// The bit writer by the name that tells where its bytes go: into memory.
pub type BitWriterCursor = BitWriter;

impl BitWriter {
    spec fn bytes(self) -> Seq<u8> {
        self.writer@ + self.cache@
    }

    spec fn bit_len(self) -> int {
        8 * self.bytes().len() - if self.endbit != 0 {
            8 - self.endbit
        } else {
            0
        }
    }

    #[verifier::type_invariant]
    spec fn well_formed(self) -> bool {
        &&& 0 <= self.endbit < 8
        &&& self.endbit != 0 ==> self.cache@.len() >= 1
        &&& 8 * self.bytes().len() <= usize::MAX
        &&& canonical(self.bytes(), self.bit_len() as nat)
        &&& self.total_bits <= self.bit_len()
    }

    /// The bits of the stream so far, in stream order. It holds what was
    /// written and the padding that `force_flush` added.
    pub closed spec fn view(&self) -> Seq<bool> {
        bits_of_bytes(self.bytes(), self.bit_len() as nat)
    }

    /// How many bits were written since the writer was made, padding not
    /// counted.
    pub closed spec fn written(&self) -> nat {
        self.total_bits as nat
    }

    /// The bytes that were handed on to the sink.
    pub closed spec fn flushed(&self) -> Seq<u8> {
        self.writer@
    }

    /// The bytes that wait in the cache.
    pub closed spec fn pending(&self) -> Seq<u8> {
        self.cache@
    }

    /// The stream can take `n` more bits within the machine's limits.
    pub open spec fn has_room(&self, n: nat) -> bool {
        self@.len() + n + 7 <= usize::MAX
    }

    /// A writer with an empty stream and an empty sink.
    pub fn new() -> (r: Self)
        ensures
            r@ == Seq::<bool>::empty(),
            r.written() == 0,
            r.flushed() == Seq::<u8>::empty(),
            r.pending() == Seq::<u8>::empty(),
    {
        let writer: Vec<u8> = Vec::new();
        let cache: Vec<u8> = Vec::new();
        proof {
            assert(writer@ + cache@ =~= Seq::<u8>::empty());
            lemma_whole_bytes_canonical(writer@ + cache@);
        }
        let r = Self { endbit: 0, total_bits: 0, writer, cache };
        assert(r@ =~= Seq::<bool>::empty());
        r
    }

    /// Appends the `bits` low bits of `value` (0 to 32 of them), lowest
    /// first. Once the cache holds `CACHE_SIZE` bytes, the complete ones
    /// are handed on to the sink.
    pub fn write(&mut self, value: u32, bits: i32) -> (r: Result<(), Error>)
        requires
            0 <= bits <= 32 ==> old(self).has_room(bits as nat),
        ensures
            0 <= bits <= 32 ==> r == Ok::<(), Error>(())
                && final(self)@ == old(self)@ + value_bits(value, bits as nat)
                && final(self).written() == old(self).written() + bits,
            !(0 <= bits <= 32) ==> r == Err::<(), Error>(Error::InvalidInput)
                && final(self)@ == old(self)@
                && final(self).written() == old(self).written(),
            final(self).flushed() + final(self).pending() == bytes_of_bits(final(self)@),
    {
        proof {
            use_type_invariant(&*self);
        }
        if bits < 0 || bits > 32 {
            proof {
                lemma_canonical_is_bytes_of_bits(self.bytes(), self.bit_len() as nat);
            }
            return Err(Error::InvalidInput);
        }
        let ghost old_bytes = self.bytes();
        let ghost old_len = self.bit_len() as nat;
        let mut taken = BitWriter::new();
        std::mem::swap(self, &mut taken);
        let BitWriter { endbit, total_bits, writer, mut cache } = taken;
        append_field(&mut cache, Ghost(writer@), endbit, value, bits);
        let end: usize = endbit as usize + bits as usize;
        proof {
            lemma_appended(old_bytes, old_len, value, bits as u32);
            lemma_canonical_len(writer@ + cache@, old_len + bits as nat);
        }
        *self = BitWriter { endbit: (end % 8) as i32, total_bits: total_bits + bits as usize, writer, cache };
        if self.cache.len() >= CACHE_SIZE {
            self.flush();
        }
        proof {
            use_type_invariant(&*self);
            lemma_canonical_is_bytes_of_bits(self.bytes(), self.bit_len() as nat);
        }
        Ok(())
    }

    /// Hands all complete bytes of the cache on to the sink. A partial last
    /// byte stays in the cache, so that later writes go on in it.
    pub fn flush(&mut self)
        ensures
            final(self)@ == old(self)@,
            final(self).written() == old(self).written(),
            final(self).flushed() + final(self).pending() == bytes_of_bits(final(self)@),
            final(self).pending().len() == (if old(self)@.len() % 8 == 0 {
                0int
            } else {
                1int
            }),
    {
        proof {
            use_type_invariant(&*self);
        }
        let mut taken = BitWriter::new();
        std::mem::swap(self, &mut taken);
        let BitWriter { endbit, total_bits, mut writer, mut cache } = taken;
        let ghost before = writer@ + cache@;
        let complete: usize = if endbit != 0 {
            cache.len() - 1
        } else {
            cache.len()
        };
        let mut rest = cache.split_off(complete);
        writer.append(&mut cache);
        assert(writer@ + rest@ =~= before);
        *self = BitWriter { endbit, total_bits, writer, cache: rest };
        proof {
            lemma_canonical_is_bytes_of_bits(self.bytes(), self.bit_len() as nat);
        }
    }

    /// Hands the whole cache on to the sink, a partial last byte included,
    /// and goes on at the next byte boundary: the stream is padded with
    /// zero bits. Meant for the end of a stream.
    pub fn force_flush(&mut self)
        ensures
            final(self)@ == old(self)@ + zero_bits(padding(old(self)@.len())),
            final(self).written() == old(self).written(),
            final(self).flushed() == old(self).flushed() + old(self).pending(),
            final(self).pending() == Seq::<u8>::empty(),
            final(self).flushed() == bytes_of_bits(old(self)@),
    {
        proof {
            use_type_invariant(&*self);
            lemma_canonical_is_bytes_of_bits(self.bytes(), self.bit_len() as nat);
        }
        let mut taken = BitWriter::new();
        std::mem::swap(self, &mut taken);
        let BitWriter { endbit, total_bits, mut writer, mut cache } = taken;
        let ghost before = writer@ + cache@;
        let ghost old_len = (8 * before.len() - if endbit != 0 { 8 - endbit } else { 0 }) as nat;
        writer.append(&mut cache);
        proof {
            assert(writer@ + cache@ =~= before);
            assert(writer@ =~= before);
            lemma_whole_bytes_canonical(before);
            lemma_canonical_all_bits(before, old_len);
        }
        *self = BitWriter { endbit: 0, total_bits, writer, cache };
    }

    /// Ends the stream and returns its bytes, the last one padded with zero
    /// bits.
    pub fn into_bytes(self) -> (bytes: Vec<u8>)
        ensures
            bytes@ == bytes_of_bits(self@),
    {
        let mut this = self;
        this.force_flush();
        let BitWriter { endbit, total_bits, writer, cache } = this;
        writer
    }

    /// How many bits were written since the writer was made.
    pub fn total_bits(&self) -> (n: usize)
        ensures
            n == self.written(),
    {
        self.total_bits
    }

    /// How many bits of the last cached byte are in use.
    pub fn endbit(&self) -> (n: i32)
        ensures
            n == self@.len() % 8,
    {
        proof {
            use_type_invariant(self);
        }
        self.endbit
    }
}

} // verus!
