//! An owned string of bits that can be split and joined at any bit.

use crate::bits::{
    all_bits, bit8, bit_at, bits_of_bytes, bytes_for, bytes_of_bits, canonical, lemma_bytes_from_bits,
    lemma_bytes_of_bits_bit, lemma_canonical_bit, lemma_canonical_is_bytes_of_bits,
    lemma_bytes_of_bits_len, lemma_canonical_len, lemma_whole_bytes_canonical,
};
use crate::shift::{aligned, lemma_aligned_bits_in_bytes, shift_data_to_front, shifted_to_front};
use vstd::prelude::*;
use vstd::slice::{slice_subrange, slice_to_vec};

verus! {

/// A string of bits held in bytes, low bits first. The bytes are exactly
/// as many as the bits need, and the unused high bits of the last byte are
/// zero, so that equal bit strings have equal bytes.
#[derive(Debug, PartialEq, Eq)]
pub struct BitwiseData {
    /// The bits, eight to a byte.
    data: Vec<u8>,
    /// How many bits the string holds.
    total_bits: usize,
}

proof fn lemma_mask_low(x: u8, r: u8, t: u8)
    by (bit_vector)
    requires
        0 < r < 8,
        t < 8,
    ensures
        bit8(x & (0xffu8 >> ((8 - r) as u8)), t) == (t < r && bit8(x, t)),
{
}

proof fn lemma_join_byte_bit(a: u8, c: u8, s: u8, t: u8)
    by (bit_vector)
    requires
        0 < s < 8,
        t < 8,
    ensures
        bit8(a | (c << s), t) == (bit8(a, t) || (t >= s && bit8(c, (t - s) as u8))),
{
}

/// The first `n` bits of `data`, in the bytes that they need: the last
/// byte that is kept loses its bits from bit `n` on.
fn leading_bits(data: &[u8], n: usize) -> (r: Vec<u8>)
    requires
        n <= 8 * data@.len(),
    ensures
        r@ == bytes_of_bits(all_bits(data@).take(n as int)),
        canonical(r@, n as nat),
{
    let whole: usize = n / 8;
    let residue: usize = n % 8;
    let ghost s = all_bits(data@).take(n as int);
    let mut r = slice_to_vec(slice_subrange(data, 0, whole));
    if residue != 0 {
        let last: u8 = data[whole] & (0xffu8 >> (8 - residue));
        r.push(last);
        proof {
            assert forall|t: u8| t < 8 implies bit8(last, t) == (t < residue && bit8(
                data@[whole as int],
                t,
            )) by {
                lemma_mask_low(data@[whole as int], residue as u8, t);
            }
        }
    }
    proof {
        assert forall|i: int| 0 <= i < 8 * r@.len() implies #[trigger] bit_at(r@, i) == (i < s.len()
            && s[i]) by {
            let q = i / 8;
            let t = (i % 8) as u8;
            if q < whole {
                assert(r@[q] == data@[q]);
            } else {
                assert(bit8(r@[q], t) == (t < residue && bit8(data@[whole as int], t)));
            }
        }
        lemma_bytes_from_bits(r@, s);
    }
    r
}

/// The back part of a split, as the shift computes it, is the canonical
/// form of the bits from the split position on.
proof fn lemma_split_back(data: Seq<u8>, total: nat, at: int)
    requires
        canonical(data, total),
        0 < at < total,
    ensures
        shifted_to_front(data, at, total as int) == bytes_of_bits(bits_of_bytes(data, total).skip(at)),
{
    let back = bits_of_bytes(data, total).skip(at);
    let moved = all_bits(data).skip(at);
    let tail = shifted_to_front(data, at, total as int);
    lemma_canonical_len(data, total);
    lemma_bytes_of_bits_len(moved);
    assert(tail.len() == bytes_for(back.len() as int));
    assert forall|i: int| 0 <= i < 8 * tail.len() implies #[trigger] bit_at(tail, i) == (i < back.len()
        && back[i]) by {
        assert(tail[i / 8] == bytes_of_bits(moved)[i / 8]);
        lemma_bytes_of_bits_bit(moved, i);
        if i + at < 8 * data.len() {
            lemma_canonical_bit(data, total, i + at);
        }
    }
    lemma_bytes_from_bits(tail, back);
}

/// Behind a whole number of bytes, the bytes of the second string follow
/// as they are.
proof fn lemma_concat_aligned(a: Seq<u8>, na: nat, b: Seq<u8>, nb: nat)
    requires
        canonical(a, na),
        canonical(b, nb),
        na % 8 == 0,
    ensures
        a + b == bytes_of_bits(bits_of_bytes(a, na) + bits_of_bytes(b, nb)),
{
    let joined = bits_of_bytes(a, na) + bits_of_bytes(b, nb);
    let data = a + b;
    lemma_canonical_len(a, na);
    lemma_canonical_len(b, nb);
    assert forall|i: int| 0 <= i < 8 * data.len() implies #[trigger] bit_at(data, i) == (i < joined.len()
        && joined[i]) by {
        let q = i / 8;
        if q < a.len() {
            assert(data[q] == a[q]);
            lemma_canonical_bit(a, na, i);
        } else {
            let k = i - na;
            assert(k / 8 == q - a.len() && k % 8 == i % 8);
            assert(data[q] == b[k / 8]);
            lemma_canonical_bit(b, nb, k);
        }
    }
    lemma_bytes_from_bits(data, joined);
}

/// The bytes of two strings joined where the first ends inside a byte:
/// that byte takes the first bits of the second string, and the rest of
/// the second string follows, shifted to the front.
spec fn joined_unaligned(a: Seq<u8>, na: nat, b: Seq<u8>, nb: nat) -> Seq<u8> {
    let s = (na % 8) as u8;
    a.drop_last().push(a.last() | (b[0] << s)) + shifted_to_front(b, 8 - s, nb as int)
}

/// The bits of the second string that do not fit into the last byte of
/// the first.
spec fn overflow_bits(na: nat, right: Seq<bool>) -> Seq<bool> {
    let room = 8 - na % 8;
    if room < right.len() {
        right.skip(room)
    } else {
        Seq::empty()
    }
}

proof fn lemma_merged_byte_bit(a: Seq<u8>, na: nat, b: Seq<u8>, nb: nat, t: u8)
    requires
        canonical(a, na),
        canonical(b, nb),
        na % 8 != 0,
        nb > 0,
        t < 8,
    ensures
        ({
            let s = (na % 8) as u8;
            let i = 8 * (a.len() - 1) + t;
            bit8(a.last() | (b[0] << s), t) == (if i < na {
                bits_of_bytes(a, na)[i]
            } else {
                i < na + nb && bits_of_bytes(b, nb)[i - na]
            })
        }),
{
    let s = (na % 8) as u8;
    let i = 8 * (a.len() - 1) + t;
    lemma_canonical_len(a, na);
    lemma_canonical_len(b, nb);
    lemma_join_byte_bit(a.last(), b[0], s, t);
    assert(i / 8 == a.len() - 1 && i % 8 == t as int);
    lemma_canonical_bit(a, na, i);
    if t >= s {
        let k = (t - s) as int;
        assert(k / 8 == 0 && k % 8 == k);
        lemma_canonical_bit(b, nb, k);
    }
}

proof fn lemma_concat_unaligned(a: Seq<u8>, na: nat, b: Seq<u8>, nb: nat)
    requires
        canonical(a, na),
        canonical(b, nb),
        na % 8 != 0,
        nb > 0,
    ensures
        joined_unaligned(a, na, b, nb) == bytes_of_bits(bits_of_bytes(a, na) + bits_of_bytes(b, nb)),
{
    let s = (na % 8) as u8;
    let n = a.len() as int;
    let left = bits_of_bytes(a, na);
    let right = bits_of_bytes(b, nb);
    let joined = left + right;
    let merged = a.last() | (b[0] << s);
    let kept = a.drop_last().push(merged);
    let moved = shifted_to_front(b, 8 - s, nb as int);
    let over = overflow_bits(na, right);
    lemma_canonical_len(a, na);
    lemma_canonical_len(b, nb);
    lemma_bytes_of_bits_len(over);
    assert(moved == bytes_of_bits(over)) by {
        if 8 - s < nb {
            lemma_split_back(b, nb, 8 - s);
        } else {
            assert(bytes_of_bits(over) =~= Seq::<u8>::empty());
        }
    }
    let data = kept + moved;
    assert(data.len() == bytes_for(joined.len() as int));
    assert forall|i: int| 0 <= i < 8 * data.len() implies #[trigger] bit_at(data, i) == (i < joined.len()
        && joined[i]) by {
        let q = i / 8;
        let t = (i % 8) as u8;
        if q < n - 1 {
            assert(data[q] == a[q]);
            lemma_canonical_bit(a, na, i);
        } else if q == n - 1 {
            assert(data[q] == merged);
            lemma_merged_byte_bit(a, na, b, nb, t);
        } else {
            let j = i - 8 * n;
            assert(j / 8 == q - n && j % 8 == t as int);
            assert(data[q] == moved[q - n]);
            lemma_bytes_of_bits_bit(over, j);
        }
    }
    lemma_bytes_from_bits(data, joined);
}

impl BitwiseData {
    #[verifier::type_invariant]
    spec fn well_formed(self) -> bool {
        &&& canonical(self.data@, self.total_bits as nat)
        &&& self.total_bits + 7 <= usize::MAX
    }

    /// The bits of the string, in order.
    pub closed spec fn view(&self) -> Seq<bool> {
        bits_of_bytes(self.data@, self.total_bits as nat)
    }

    /// The bytes that hold the string.
    pub closed spec fn bytes(&self) -> Seq<u8> {
        self.data@
    }

    /// The empty bit string.
    pub fn empty() -> (r: Self)
        ensures
            r@ == Seq::<bool>::empty(),
            r.bytes() == Seq::<u8>::empty(),
            r.bytes() == bytes_of_bits(r@),
    {
        let data: Vec<u8> = Vec::new();
        proof {
            lemma_whole_bytes_canonical(data@);
            lemma_bytes_of_bits_len(Seq::<bool>::empty());
            assert(bytes_of_bits(Seq::<bool>::empty()) =~= data@);
        }
        let r = Self { data, total_bits: 0 };
        assert(r@ =~= Seq::<bool>::empty());
        r
    }

    /// The first `total_bits` bits of `data`. Bytes of `data` that these
    /// bits do not need are dropped, and so are the bits of the last byte
    /// past the end of the string.
    pub fn new(data: &[u8], total_bits: usize) -> (r: Self)
        requires
            total_bits <= 8 * data@.len(),
            total_bits + 7 <= usize::MAX,
        ensures
            r@ == all_bits(data@).take(total_bits as int),
            r.bytes() == bytes_of_bits(r@),
    {
        let bytes = leading_bits(data, total_bits);
        let ghost s = all_bits(data@).take(total_bits as int);
        proof {
            crate::bits::lemma_bytes_of_bits_canonical(s);
        }
        Self { data: bytes, total_bits }
    }

    /// The bit string of all the bits of `data`.
    pub fn from_bytes(data: &[u8]) -> (r: Self)
        requires
            8 * data@.len() <= usize::MAX,
        ensures
            r@ == all_bits(data@),
            r.bytes() == data@,
    {
        proof {
            lemma_whole_bytes_canonical(data@);
        }
        Self { data: slice_to_vec(data), total_bits: data.len() * 8 }
    }

    /// How many bits the string holds.
    pub fn get_total_bits(&self) -> (n: usize)
        ensures
            n == self@.len(),
    {
        self.total_bits
    }

    /// How many bytes hold the string.
    pub fn get_total_bytes(&self) -> (n: usize)
        ensures
            n == bytes_for(self@.len() as int),
            n == self.bytes().len(),
    {
        proof {
            use_type_invariant(self);
            lemma_canonical_len(self.data@, self.total_bits as nat);
        }
        Self::calc_total_bytes(self.total_bits)
    }

    /// How many bytes `total_bits` bits need.
    pub fn calc_total_bytes(total_bits: usize) -> (n: usize)
        ensures
            n == bytes_for(total_bits as int),
    {
        if total_bits % 8 == 0 {
            total_bits / 8
        } else {
            total_bits / 8 + 1
        }
    }

    /// Brings the byte buffer to a whole number of working units: to the
    /// bytes of the bits rounded up to whole units, with zeros past the
    /// bits. The working unit is one byte, and the buffer is always kept
    /// so, so that it is left as it is.
    pub fn fit_to_aligned_size(&mut self)
        ensures
            final(self)@ == old(self)@,
            final(self).bytes() == old(self).bytes(),
            final(self).bytes().len() == aligned(final(self)@.len() as int, 8) / 8,
            final(self).bytes() == bytes_of_bits(final(self)@),
    {
        proof {
            use_type_invariant(&*self);
            lemma_canonical_len(self.data@, self.total_bits as nat);
            lemma_canonical_is_bytes_of_bits(self.data@, self.total_bits as nat);
            lemma_aligned_bits_in_bytes(self.total_bits as int);
        }
    }

    /// Brings the byte buffer to the bytes that the bits need, and clears
    /// the bits of the last byte past the end of the string. The buffer is
    /// always kept so, so that it is left as it is.
    pub fn shrink_to_fit(&mut self)
        ensures
            final(self)@ == old(self)@,
            final(self).bytes() == old(self).bytes(),
            final(self).bytes().len() == bytes_for(final(self)@.len() as int),
            final(self).bytes() == bytes_of_bits(final(self)@),
    {
        proof {
            use_type_invariant(&*self);
            lemma_canonical_len(self.data@, self.total_bits as nat);
            lemma_canonical_is_bytes_of_bits(self.data@, self.total_bits as nat);
        }
    }

    /// Whether the byte buffer is a whole number of working units, which
    /// are bytes.
    pub fn is_aligned_size(&self) -> (b: bool)
        ensures
            b,
    {
        true
    }

    /// The two parts of the string before and from bit `split_at_bit`. A
    /// position past the end gives the whole string and an empty one.
    pub fn split(&self, split_at_bit: usize) -> (parts: (Self, Self))
        ensures
            parts.0@ == spec_split(self@, split_at_bit as int).0,
            parts.1@ == spec_split(self@, split_at_bit as int).1,
            parts.0.bytes() == bytes_of_bits(parts.0@),
            parts.1.bytes() == bytes_of_bits(parts.1@),
    {
        proof {
            use_type_invariant(self);
            lemma_canonical_is_bytes_of_bits(self.data@, self.total_bits as nat);
            lemma_canonical_len(self.data@, self.total_bits as nat);
        }
        if split_at_bit == 0 {
            let front = Self::empty();
            let back = self.clone();
            assert(self@.take(0) =~= front@);
            assert(self@.skip(0) =~= self@);
            (front, back)
        } else if split_at_bit >= self.total_bits {
            let front = self.clone();
            let back = Self::empty();
            assert(self@.take(self@.len() as int) =~= self@);
            assert(self@.skip(self@.len() as int) =~= back@);
            (front, back)
        } else {
            (self.front_part(split_at_bit), self.back_part(split_at_bit))
        }
    }

    /// The bits before bit `at`.
    fn front_part(&self, at: usize) -> (r: Self)
        requires
            0 < at < self@.len(),
        ensures
            r@ == self@.take(at as int),
            r.bytes() == bytes_of_bits(r@),
    {
        proof {
            use_type_invariant(self);
            lemma_canonical_len(self.data@, self.total_bits as nat);
        }
        let head = leading_bits(self.data.as_slice(), at);
        proof {
            assert(all_bits(self.data@).take(at as int) =~= self@.take(at as int));
            crate::bits::lemma_bytes_of_bits_canonical(self@.take(at as int));
        }
        Self { data: head, total_bits: at }
    }

    /// The bits from bit `at` on.
    fn back_part(&self, at: usize) -> (r: Self)
        requires
            0 < at < self@.len(),
        ensures
            r@ == self@.skip(at as int),
            r.bytes() == bytes_of_bits(r@),
    {
        proof {
            use_type_invariant(self);
            lemma_canonical_len(self.data@, self.total_bits as nat);
        }
        let tail = shift_data_to_front(self.data.as_slice(), at, self.total_bits);
        proof {
            lemma_split_back(self.data@, self.total_bits as nat, at as int);
            crate::bits::lemma_bytes_of_bits_canonical(self@.skip(at as int));
        }
        Self { data: tail, total_bits: self.total_bits - at }
    }

    /// Appends the bits of `rhs` directly behind the bits of the string,
    /// with no padding between them.
    pub fn concat(&mut self, rhs: &Self)
        requires
            old(self)@.len() + rhs@.len() + 7 <= usize::MAX,
        ensures
            final(self)@ == spec_concat(old(self)@, rhs@),
            final(self).bytes() == bytes_of_bits(final(self)@),
    {
        proof {
            use_type_invariant(&*self);
            use_type_invariant(rhs);
            lemma_canonical_is_bytes_of_bits(self.data@, self.total_bits as nat);
            lemma_canonical_len(self.data@, self.total_bits as nat);
            lemma_canonical_len(rhs.data@, rhs.total_bits as nat);
        }
        if rhs.total_bits == 0 {
            assert(self@ + rhs@ =~= self@);
            return ;
        }
        let ghost left = self@;
        let ghost right = rhs@;
        let ghost joined = left + right;
        let ghost old_data = self.data@;
        let mut taken = Self::empty();
        std::mem::swap(self, &mut taken);
        let BitwiseData { mut data, total_bits } = taken;
        let shifts: usize = total_bits & 7;
        assert(total_bits & 7 == total_bits % 8) by (bit_vector);
        if shifts == 0 {
            data.extend_from_slice(rhs.data.as_slice());
            proof {
                assert(data@ =~= old_data + rhs.data@);
                lemma_concat_aligned(old_data, total_bits as nat, rhs.data@, rhs.total_bits as nat);
            }
        } else {
            let shift_left: usize = 8 - shifts;
            let last: u8 = data.pop().unwrap();
            let first: u8 = rhs.data[0];
            data.push(last | (first << shifts));
            let moved = shift_data_to_front(rhs.data.as_slice(), shift_left, rhs.total_bits);
            let ghost kept = data@;
            data.extend_from_slice(moved.as_slice());
            proof {
                assert(data@ =~= kept + moved@);
                assert(kept =~= old_data.drop_last().push(last | (first << shifts)));
                assert(data@ == joined_unaligned(
                    old_data,
                    total_bits as nat,
                    rhs.data@,
                    rhs.total_bits as nat,
                ));
                lemma_concat_unaligned(old_data, total_bits as nat, rhs.data@, rhs.total_bits as nat);
            }
        }
        proof {
            crate::bits::lemma_bytes_of_bits_canonical(joined);
        }
        *self = Self { data, total_bits: total_bits + rhs.total_bits };
        assert(self@ =~= joined);
    }

    /// The bytes that hold the string, the unused bits of the last byte
    /// zero.
    pub fn into_bytes(self) -> (bytes: Vec<u8>)
        ensures
            bytes@ == bytes_of_bits(self@),
    {
        proof {
            use_type_invariant(&self);
            lemma_canonical_is_bytes_of_bits(self.data@, self.total_bits as nat);
        }
        let BitwiseData { data, total_bits } = self;
        data
    }

    /// The bytes that hold the string.
    pub fn as_bytes(&self) -> (bytes: &[u8])
        ensures
            bytes@ == bytes_of_bits(self@),
            bytes@ == self.bytes(),
            8 * bytes@.len() <= usize::MAX,
    {
        proof {
            use_type_invariant(self);
            lemma_canonical_is_bytes_of_bits(self.data@, self.total_bits as nat);
            lemma_canonical_len(self.data@, self.total_bits as nat);
        }
        self.data.as_slice()
    }
}

/// The two parts of the bit string `s` before and from bit `at`; a
/// position past the end gives the whole string and an empty one.
pub open spec fn spec_split(s: Seq<bool>, at: int) -> (Seq<bool>, Seq<bool>) {
    if at >= s.len() {
        (s, Seq::empty())
    } else {
        (s.take(at), s.skip(at))
    }
}

/// The bit string `a` followed directly by the bit string `b`.
pub open spec fn spec_concat(a: Seq<bool>, b: Seq<bool>) -> Seq<bool> {
    a + b
}

/// Splitting a bit string at any bit and joining the two parts gives the
/// string back, bit for bit.
pub proof fn lemma_split_concat_roundtrip(d: Seq<bool>, k: int)
    requires
        0 <= k <= d.len(),
    ensures
        spec_concat(spec_split(d, k).0, spec_split(d, k).1) == d,
{
    assert(spec_concat(spec_split(d, k).0, spec_split(d, k).1) =~= d);
}

impl Clone for BitwiseData {
    fn clone(&self) -> (r: Self)
        ensures
            r@ == self@,
            r.bytes() == self.bytes(),
            r.bytes() == bytes_of_bits(r@),
    {
        proof {
            use_type_invariant(self);
            lemma_canonical_is_bytes_of_bits(self.data@, self.total_bits as nat);
        }
        Self { data: slice_to_vec(self.data.as_slice()), total_bits: self.total_bits }
    }
}

impl Default for BitwiseData {
    fn default() -> (r: Self)
        ensures
            r@ == Seq::<bool>::empty(),
    {
        Self::empty()
    }
}

} // verus!
