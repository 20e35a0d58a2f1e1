//! The mathematical model of a bitstream: a `Seq<bool>` in stream order.
//!
//! Bit 0 of a byte is the first bit of that byte in the stream, and bit 0 of
//! an integer field is the first bit of that field (least significant bit
//! first throughout).

use vstd::prelude::*;

verus! {

/// Bit `t` of the byte `b`, bit 0 being the least significant.
pub open spec fn bit8(b: u8, t: u8) -> bool {
    (b >> t) & 1 == 1
}

/// Bit `t` of the word `v`, bit 0 being the least significant.
pub open spec fn bit32(v: u32, t: u32) -> bool {
    (v >> t) & 1 == 1
}

/// Bit `i` of a byte string read as a bitstream.
pub open spec fn bit_at(bytes: Seq<u8>, i: int) -> bool {
    bit8(bytes[i / 8], (i % 8) as u8)
}

/// The first `n` bits of a byte string.
pub open spec fn bits_of_bytes(bytes: Seq<u8>, n: nat) -> Seq<bool> {
    Seq::new(n, |i: int| bit_at(bytes, i))
}

/// All the bits of a byte string.
pub open spec fn all_bits(bytes: Seq<u8>) -> Seq<bool> {
    bits_of_bytes(bytes, 8 * bytes.len())
}

/// The `w` low bits of `v`, lowest first: what writing `v` in a field of
/// `w` bits appends to a stream.
pub open spec fn value_bits(v: u32, w: nat) -> Seq<bool> {
    Seq::new(w, |i: int| bit32(v, i as u32))
}

/// The integer whose bits are `s`, lowest first: what reading a field of
/// `s.len()` bits (at most 32) yields.
pub open spec fn bits_value(s: Seq<bool>) -> u32
    decreases s.len(),
{
    if s.len() == 0 {
        0
    } else if s.last() {
        bits_value(s.drop_last()) | (1u32 << ((s.len() - 1) as u32))
    } else {
        bits_value(s.drop_last())
    }
}

/// The word with the `w` low bits set (`w` at most 32).
pub open spec fn low_mask(w: u32) -> u32 {
    if w == 0 {
        0
    } else {
        0xffff_ffffu32 >> ((32 - w) as u32)
    }
}

/// The number of bytes that hold `n` bits.
pub open spec fn bytes_for(n: int) -> int {
    (n + 7) / 8
}

/// The byte whose eight bits are bits `8 * j ..` of `s`, with zeros past
/// the end of `s`.
pub open spec fn byte_of_bits(s: Seq<bool>, j: int) -> u8 {
    let b = |t: int| if 8 * j + t < s.len() && s[8 * j + t] { 1u8 << (t as u8) } else { 0u8 };
    b(0) | b(1) | b(2) | b(3) | b(4) | b(5) | b(6) | b(7)
}

/// The bytes that hold the bits `s`, the last byte padded with zeros.
#[verifier::opaque]
pub open spec fn bytes_of_bits(s: Seq<bool>) -> Seq<u8> {
    Seq::new(bytes_for(s.len() as int) as nat, |j: int| byte_of_bits(s, j))
}

proof fn lemma_or_bit(x: u32, k: u32, t: u32)
    by (bit_vector)
    requires
        k < 32,
        t < 32,
    ensures
        bit32(x | (1u32 << k), t) == (t == k || bit32(x, t)),
{
}

proof fn lemma_zero_bit(t: u32)
    by (bit_vector)
    requires
        t < 32,
    ensures
        !bit32(0u32, t),
{
}

/// Each bit of `bits_value(s)` is the bit of `s` at that place, and zero
/// past the end of `s`.
pub proof fn lemma_bits_value_bit(s: Seq<bool>, t: u32)
    requires
        s.len() <= 32,
        t < 32,
    ensures
        bit32(bits_value(s), t) == (t < s.len() && s[t as int]),
    decreases s.len(),
{
    if s.len() == 0 {
        lemma_zero_bit(t);
    } else {
        let r = s.drop_last();
        lemma_bits_value_bit(r, t);
        let k = (s.len() - 1) as u32;
        if s.last() {
            lemma_or_bit(bits_value(r), k, t);
        }
    }
}

proof fn lemma_mask_step(v: u32, n: u32)
    by (bit_vector)
    requires
        n < 32,
    ensures
        bit32(v, n) ==> (v & low_mask(n)) | (1u32 << n) == v & low_mask((n + 1) as u32),
        !bit32(v, n) ==> v & low_mask(n) == v & low_mask((n + 1) as u32),
        v & low_mask(0) == 0,
        v & low_mask(32) == v,
{
}

/// Reading back the `w` low bits of `v` gives `v` masked to `w` bits.
pub proof fn lemma_value_of_value_bits(v: u32, w: nat)
    requires
        w <= 32,
    ensures
        bits_value(value_bits(v, w)) == v & low_mask(w as u32),
    decreases w,
{
    let s = value_bits(v, w);
    if w == 0 {
        lemma_mask_step(v, 0);
    } else {
        let n = (w - 1) as u32;
        assert(s.drop_last() =~= value_bits(v, n as nat));
        lemma_value_of_value_bits(v, n as nat);
        lemma_mask_step(v, n);
        assert(s.last() == bit32(v, n));
    }
}

/// A word is determined by its 32 bits.
pub proof fn lemma_bits_determine_value(a: u32, b: u32)
    requires
        forall|t: u32| t < 32 ==> bit32(a, t) == bit32(b, t),
    ensures
        a == b,
{
    assert(value_bits(a, 32) =~= value_bits(b, 32)) by {
        assert forall|i: int| 0 <= i < 32 implies value_bits(a, 32)[i] == value_bits(b, 32)[i] by {
            assert(bit32(a, i as u32) == bit32(b, i as u32));
        }
    }
    lemma_value_of_value_bits(a, 32);
    lemma_value_of_value_bits(b, 32);
    lemma_mask_step(a, 0);
    lemma_mask_step(b, 0);
}

/// The bits of a field are the bits of the value read from it.
pub proof fn lemma_value_bits_of_bits_value(s: Seq<bool>)
    requires
        s.len() <= 32,
    ensures
        value_bits(bits_value(s), s.len()) == s,
{
    assert forall|i: int| 0 <= i < s.len() implies value_bits(bits_value(s), s.len())[i] == s[i] by {
        lemma_bits_value_bit(s, i as u32);
    }
    assert(value_bits(bits_value(s), s.len()) =~= s);
}

/// `bytes` holds exactly the `n` bits of a stream: it is as long as `n`
/// bits need, and the bits of its last byte past bit `n` are zero.
#[verifier::opaque]
pub open spec fn canonical(bytes: Seq<u8>, n: nat) -> bool {
    &&& bytes.len() == bytes_for(n as int)
    &&& forall|i: int| n <= i < 8 * bytes.len() ==> !#[trigger] bit_at(bytes, i)
}

proof fn lemma_byte_from_its_bits(x: u8)
    by (bit_vector)
    ensures
        x == (if bit8(x, 0) { 1u8 << 0u8 } else { 0u8 }) | (if bit8(x, 1) { 1u8 << 1u8 } else { 0u8 })
            | (if bit8(x, 2) { 1u8 << 2u8 } else { 0u8 }) | (if bit8(x, 3) { 1u8 << 3u8 } else { 0u8 })
            | (if bit8(x, 4) { 1u8 << 4u8 } else { 0u8 }) | (if bit8(x, 5) { 1u8 << 5u8 } else { 0u8 })
            | (if bit8(x, 6) { 1u8 << 6u8 } else { 0u8 }) | (if bit8(x, 7) { 1u8 << 7u8 } else { 0u8 }),
{
}

proof fn lemma_bits_of_assembled_byte(
    b0: bool,
    b1: bool,
    b2: bool,
    b3: bool,
    b4: bool,
    b5: bool,
    b6: bool,
    b7: bool,
    t: u8,
)
    by (bit_vector)
    requires
        t < 8,
    ensures
        ({
            let x = (if b0 { 1u8 << 0u8 } else { 0u8 }) | (if b1 { 1u8 << 1u8 } else { 0u8 }) | (if b2 {
                1u8 << 2u8
            } else {
                0u8
            }) | (if b3 { 1u8 << 3u8 } else { 0u8 }) | (if b4 { 1u8 << 4u8 } else { 0u8 }) | (if b5 {
                1u8 << 5u8
            } else {
                0u8
            }) | (if b6 { 1u8 << 6u8 } else { 0u8 }) | (if b7 { 1u8 << 7u8 } else { 0u8 });
            bit8(x, t) == (if t == 0 {
                b0
            } else if t == 1 {
                b1
            } else if t == 2 {
                b2
            } else if t == 3 {
                b3
            } else if t == 4 {
                b4
            } else if t == 5 {
                b5
            } else if t == 6 {
                b6
            } else {
                b7
            })
        }),
{
}

/// The bytes made from `s` are as many as its bits need.
pub proof fn lemma_bytes_of_bits_len(s: Seq<bool>)
    ensures
        bytes_of_bits(s).len() == bytes_for(s.len() as int),
{
    reveal(bytes_of_bits);
}

/// Bit `i` of the bytes made from `s` is bit `i` of `s`, and zero past its
/// end.
pub proof fn lemma_bytes_of_bits_bit(s: Seq<bool>, i: int)
    requires
        0 <= i < 8 * bytes_for(s.len() as int),
    ensures
        bit_at(bytes_of_bits(s), i) == (i < s.len() && s[i]),
{
    reveal(bytes_of_bits);
    let j = i / 8;
    let t = (i % 8) as u8;
    let b = |t: int| 8 * j + t < s.len() && s[8 * j + t];
    lemma_bits_of_assembled_byte(b(0), b(1), b(2), b(3), b(4), b(5), b(6), b(7), t);
}

/// The bytes made from a stream hold exactly that stream.
pub proof fn lemma_bytes_of_bits_canonical(s: Seq<bool>)
    ensures
        canonical(bytes_of_bits(s), s.len()),
        bits_of_bytes(bytes_of_bits(s), s.len()) == s,
{
    reveal(canonical);
    let bytes = bytes_of_bits(s);
    lemma_bytes_of_bits_len(s);
    assert forall|i: int| s.len() <= i < 8 * bytes.len() implies !#[trigger] bit_at(bytes, i) by {
        lemma_bytes_of_bits_bit(s, i);
    }
    assert forall|i: int| 0 <= i < s.len() implies bits_of_bytes(bytes, s.len())[i] == s[i] by {
        lemma_bytes_of_bits_bit(s, i);
    }
    assert(bits_of_bytes(bytes, s.len()) =~= s);
}

proof fn lemma_canonical_byte_bit(bytes: Seq<u8>, n: nat, j: int, t: u8)
    requires
        canonical(bytes, n),
        0 <= j < bytes.len(),
        t < 8,
    ensures
        bit8(bytes[j], t) == (8 * j + t < n && bits_of_bytes(bytes, n)[8 * j + t]),
{
    reveal(canonical);
    let i = 8 * j + t;
    assert(i / 8 == j && i % 8 == t as int);
    assert(bit_at(bytes, i) == bit8(bytes[j], t));
}

/// Bytes that hold exactly `n` bits are the bytes made from those bits: a
/// stream has one canonical byte form.
pub proof fn lemma_canonical_is_bytes_of_bits(bytes: Seq<u8>, n: nat)
    requires
        canonical(bytes, n),
    ensures
        bytes == bytes_of_bits(bits_of_bytes(bytes, n)),
{
    reveal(bytes_of_bits);
    let s = bits_of_bytes(bytes, n);
    let made = bytes_of_bits(s);
    assert(bytes.len() == made.len()) by {
        reveal(canonical);
    }
    assert forall|j: int| 0 <= j < bytes.len() implies bytes[j] == made[j] by {
        let x = bytes[j];
        lemma_byte_from_its_bits(x);
        lemma_canonical_byte_bit(bytes, n, j, 0);
        lemma_canonical_byte_bit(bytes, n, j, 1);
        lemma_canonical_byte_bit(bytes, n, j, 2);
        lemma_canonical_byte_bit(bytes, n, j, 3);
        lemma_canonical_byte_bit(bytes, n, j, 4);
        lemma_canonical_byte_bit(bytes, n, j, 5);
        lemma_canonical_byte_bit(bytes, n, j, 6);
        lemma_canonical_byte_bit(bytes, n, j, 7);
    }
    assert(bytes =~= made);
}

/// Canonical bytes are as long as their bits need.
pub proof fn lemma_canonical_len(bytes: Seq<u8>, n: nat)
    requires
        canonical(bytes, n),
    ensures
        bytes.len() == bytes_for(n as int),
{
    reveal(canonical);
}

/// Whole bytes are canonical for all their bits.
pub proof fn lemma_whole_bytes_canonical(bytes: Seq<u8>)
    ensures
        canonical(bytes, 8 * bytes.len()),
{
    reveal(canonical);
}

/// The run of `n` zero bits.
pub open spec fn zero_bits(n: nat) -> Seq<bool> {
    Seq::new(n, |i: int| false)
}

/// How many zero bits bring a stream of `n` bits to a byte boundary.
pub open spec fn padding(n: nat) -> nat {
    ((8 - n % 8) % 8) as nat
}

/// All the bits of canonical bytes are their stream and its padding.
pub proof fn lemma_canonical_all_bits(bytes: Seq<u8>, n: nat)
    requires
        canonical(bytes, n),
    ensures
        all_bits(bytes) == bits_of_bytes(bytes, n) + zero_bits(padding(n)),
{
    reveal(canonical);
    let whole = all_bits(bytes);
    let padded = bits_of_bytes(bytes, n) + zero_bits(padding(n));
    assert(whole.len() == padded.len());
    assert forall|i: int| 0 <= i < whole.len() implies whole[i] == padded[i] by {
        if i >= n {
            assert(!bit_at(bytes, i));
        }
    }
    assert(whole =~= padded);
}

/// Two bytes with the same eight bits are equal.
pub proof fn lemma_byte_ext(x: u8, y: u8)
    requires
        forall|t: u8| t < 8 ==> bit8(x, t) == bit8(y, t),
    ensures
        x == y,
{
    lemma_byte_from_its_bits(x);
    lemma_byte_from_its_bits(y);
    assert(bit8(x, 0) == bit8(y, 0));
    assert(bit8(x, 1) == bit8(y, 1));
    assert(bit8(x, 2) == bit8(y, 2));
    assert(bit8(x, 3) == bit8(y, 3));
    assert(bit8(x, 4) == bit8(y, 4));
    assert(bit8(x, 5) == bit8(y, 5));
    assert(bit8(x, 6) == bit8(y, 6));
    assert(bit8(x, 7) == bit8(y, 7));
}

/// Bytes whose bits are those of `s`, and zero past its end, are the
/// bytes made from `s`.
pub proof fn lemma_bytes_from_bits(bytes: Seq<u8>, s: Seq<bool>)
    requires
        bytes.len() == bytes_for(s.len() as int),
        forall|i: int| 0 <= i < 8 * bytes.len() ==> #[trigger] bit_at(bytes, i) == (i < s.len() && s[i]),
    ensures
        bytes == bytes_of_bits(s),
        canonical(bytes, s.len()),
{
    reveal(canonical);
    assert(bits_of_bytes(bytes, s.len()) =~= s);
    lemma_canonical_is_bytes_of_bits(bytes, s.len());
}

/// Bit `i` of canonical bytes is bit `i` of their stream, and zero past
/// its end.
pub proof fn lemma_canonical_bit(bytes: Seq<u8>, n: nat, i: int)
    requires
        canonical(bytes, n),
        0 <= i < 8 * bytes.len(),
    ensures
        bit_at(bytes, i) == (i < n && bits_of_bytes(bytes, n)[i]),
{
    reveal(canonical);
}

/// The value of a field has no bits past the width of the field.
pub proof fn lemma_bits_value_masked(s: Seq<bool>)
    requires
        s.len() <= 32,
    ensures
        bits_value(s) & low_mask(s.len() as u32) == bits_value(s),
{
    lemma_value_bits_of_bits_value(s);
    lemma_value_of_value_bits(bits_value(s), s.len());
}

/// The range of a value that has no bits past bit `w`.
pub proof fn lemma_masked_range(v: u32, w: u32)
    by (bit_vector)
    requires
        w <= 32,
        v & low_mask(w) == v,
    ensures
        w < 32 ==> v < (1u32 << w),
        w <= 31 ==> v <= 0x7fff_ffff,
        w <= 24 ==> v <= 0xff_ffff,
        w <= 16 ==> v <= 0xffff,
        w <= 8 ==> v <= 0xff,
        w <= 6 ==> v <= 63,
        w <= 5 ==> v <= 31,
        w <= 4 ==> v <= 15,
        w <= 3 ==> v <= 7,
        w <= 2 ==> v <= 3,
        w <= 1 ==> v <= 1,
        w == 0 ==> v == 0,
        w <= 31 ==> (v as i32) as u32 == v && (v as i32) >= 0 && v as i32 == v,
{
}

/// A value below two to the power `w` has no bits past bit `w`.
pub proof fn lemma_small_is_masked(v: u32, w: u32)
    by (bit_vector)
    requires
        w <= 32,
        w < 32 ==> v < (1u32 << w),
    ensures
        v & low_mask(w) == v,
{
}

/// A word and the signed integer with the same bits stand for each other.
pub proof fn lemma_signed_pattern(v: u32, x: i32)
    by (bit_vector)
    ensures
        (v as i32) as u32 == v,
        (x as u32) as i32 == x,
        x >= 0 ==> x as u32 == x,
{
}

/// The range of a value below two to the power `w`.
pub proof fn lemma_small_range(v: u32, w: u32)
    by (bit_vector)
    requires
        w <= 31,
        v < (1u32 << w),
    ensures
        w <= 24 ==> v <= 0xff_ffff,
        w <= 16 ==> v <= 0xffff,
        w <= 8 ==> v <= 0xff,
        w <= 6 ==> v <= 63,
        w <= 5 ==> v <= 31,
        w <= 4 ==> v <= 15,
        w <= 3 ==> v <= 7,
        w <= 2 ==> v <= 3,
        w <= 1 ==> v <= 1,
{
}

} // verus!
