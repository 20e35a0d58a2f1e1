//! Moving the bits of a byte string towards its front or its back by any
//! number of bits.

use crate::bits::{
    all_bits, bit8, bytes_for, bytes_of_bits, lemma_byte_ext, lemma_bytes_of_bits_bit,
    lemma_bytes_of_bits_len, zero_bits,
};
use vstd::prelude::*;
use vstd::slice::{slice_subrange, slice_to_vec};

verus! {

/// `size` rounded up to a multiple of `alignment`.
pub open spec fn aligned(size: int, alignment: int) -> int {
    if size != 0 {
        ((size - 1) / alignment + 1) * alignment
    } else {
        0
    }
}

/// `aligned(size, alignment)` is the least multiple of `alignment` that is
/// not below `size`.
pub proof fn lemma_aligned_is_least_multiple(size: int, alignment: int)
    requires
        0 <= size,
        0 < alignment,
    ensures
        aligned(size, alignment) % alignment == 0,
        size <= aligned(size, alignment) < size + alignment,
{
    if size != 0 {
        let q = (size - 1) / alignment;
        assert(((q + 1) * alignment) % alignment == 0) by (nonlinear_arith)
            requires
                alignment > 0,
        ;
        assert(q * alignment <= size - 1 < q * alignment + alignment) by (nonlinear_arith)
            requires
                q == (size - 1) / alignment,
                alignment > 0,
        ;
        assert((q + 1) * alignment == q * alignment + alignment) by (nonlinear_arith);
    } else {
        assert(0int % alignment == 0);
    }
}

/// The bytes of `n` bits rounded up to whole bytes are the bytes that the
/// bits need.
pub proof fn lemma_aligned_bits_in_bytes(n: int)
    requires
        0 <= n,
    ensures
        aligned(n, 8) / 8 == bytes_for(n),
{
    if n != 0 {
        let q = (n - 1) / 8;
        assert((q + 1) * 8 / 8 == q + 1) by (nonlinear_arith);
    }
}

/// Rounds `size` up to a multiple of `alignment`.
pub fn align(size: usize, alignment: usize) -> (r: usize)
    requires
        size != 0 ==> alignment != 0,
        aligned(size as int, alignment as int) <= usize::MAX,
    ensures
        r == aligned(size as int, alignment as int),
{
    if size != 0 {
        let q = (size - 1) / alignment;
        assert(0 <= q * alignment) by (nonlinear_arith)
            requires
                q >= 0,
                alignment > 0,
        ;
        assert((q + 1) * alignment == q * alignment + alignment) by (nonlinear_arith);
        (q + 1) * alignment
    } else {
        0
    }
}

/// What shifting `data` to the front by `bits` bits gives, for a stream of
/// `total_bits` bits: the bytes made from bit `bits` of `data` on. A shift
/// by whole bytes keeps all the bytes that follow; any other shift keeps as
/// many bytes as the `total_bits - bits` bits left need, if there are that
/// many.
pub open spec fn shifted_to_front(data: Seq<u8>, bits: int, total_bits: int) -> Seq<u8> {
    if bits == 0 {
        data
    } else if bits >= total_bits {
        Seq::empty()
    } else {
        let rest = bytes_of_bits(all_bits(data).skip(bits));
        if bits % 8 == 0 || rest.len() <= bytes_for(total_bits - bits) {
            rest
        } else {
            rest.take(bytes_for(total_bits - bits))
        }
    }
}

/// What shifting `data` to the back by `bits` bits gives, for a stream of
/// `total_bits` bits: the bytes made from `bits` zero bits followed by the
/// bits of `data`. A shift by whole bytes keeps all the bytes; any other
/// shift keeps as many bytes as `total_bits + bits` bits need, if there
/// are that many.
pub open spec fn shifted_to_back(data: Seq<u8>, bits: int, total_bits: int) -> Seq<u8> {
    if bits == 0 {
        data
    } else {
        let moved = bytes_of_bits(zero_bits(bits as nat) + all_bits(data));
        if bits % 8 == 0 || moved.len() <= bytes_for(total_bits + bits) {
            moved
        } else {
            moved.take(bytes_for(total_bits + bits))
        }
    }
}

proof fn lemma_combine_bit(x: u8, y: u8, b: u8, t: u8)
    by (bit_vector)
    requires
        0 < b < 8,
        t < 8,
    ensures
        bit8((x >> b) | (y << ((8 - b) as u8)), t) == (if t + b < 8 {
            bit8(x, (t + b) as u8)
        } else {
            bit8(y, (t + b - 8) as u8)
        }),
{
}

proof fn lemma_zero_byte_bit(t: u8)
    by (bit_vector)
    requires
        t < 8,
    ensures
        !bit8(0u8, t),
{
}

/// A byte of the bits of `data` from bit `bits` on is made of the high
/// bits of one byte of `data` and the low bits of the next.
proof fn lemma_shifted_byte(data: Seq<u8>, bits: int, q: int)
    requires
        bits % 8 != 0,
        0 <= bits,
        0 <= q,
        bits / 8 + q < data.len(),
    ensures
        ({
            let x = data[bits / 8 + q];
            let y = if bits / 8 + q + 1 < data.len() {
                data[bits / 8 + q + 1]
            } else {
                0u8
            };
            let b = (bits % 8) as u8;
            bytes_of_bits(all_bits(data).skip(bits))[q] == (x >> b) | (y << ((8 - b) as u8))
        }),
{
    let m = bits / 8;
    let b = (bits % 8) as u8;
    let x = data[m + q];
    let y = if m + q + 1 < data.len() {
        data[m + q + 1]
    } else {
        0u8
    };
    let s = all_bits(data).skip(bits);
    let made = bytes_of_bits(s)[q];
    let got = (x >> b) | (y << ((8 - b) as u8));
    assert forall|t: u8| t < 8 implies bit8(made, t) == bit8(got, t) by {
        let i = 8 * q + t;
        assert(i / 8 == q && i % 8 == t as int);
        lemma_bytes_of_bits_bit(s, i);
        lemma_combine_bit(x, y, b, t);
        let j = i + bits;
        if t + b < 8 {
            assert(j / 8 == m + q && j % 8 == t + b);
        } else {
            lemma_zero_byte_bit((t + b - 8) as u8);
            assert(j / 8 == m + q + 1 && j % 8 == t + b - 8);
        }
    }
    lemma_byte_ext(made, got);
}

/// A byte of the bits of `data` from a byte boundary on is a byte of
/// `data`.
proof fn lemma_skipped_byte(data: Seq<u8>, m: int, q: int)
    requires
        0 <= m,
        0 <= q,
        m + q < data.len(),
    ensures
        bytes_of_bits(all_bits(data).skip(8 * m))[q] == data[m + q],
{
    let s = all_bits(data).skip(8 * m);
    let made = bytes_of_bits(s)[q];
    assert forall|t: u8| t < 8 implies bit8(made, t) == bit8(data[m + q], t) by {
        let i = 8 * q + t;
        assert(i / 8 == q && i % 8 == t as int);
        lemma_bytes_of_bits_bit(s, i);
        let j = i + 8 * m;
        assert(j / 8 == m + q && j % 8 == t as int);
    }
    lemma_byte_ext(made, data[m + q]);
}

/// Shifts the bits of `data` to the front by `bits` bits: bit `bits` of
/// `data` becomes bit 0 of the result. In a byte, the low bits come first.
pub fn shift_data_to_front(data: &[u8], bits: usize, total_bits: usize) -> (r: Vec<u8>)
    requires
        0 < bits < total_bits ==> bits <= 8 * data@.len(),
    ensures
        r@ == shifted_to_front(data@, bits as int, total_bits as int),
{
    if bits == 0 {
        slice_to_vec(data)
    } else if bits >= total_bits {
        let r: Vec<u8> = Vec::new();
        assert(r@ =~= Seq::<u8>::empty());
        r
    } else {
        let m: usize = bits >> 3;
        let b: usize = bits & 7;
        assert(bits >> 3 == bits / 8 && bits & 7 == bits % 8) by (bit_vector);
        let len = data.len();
        let rest_len: usize = len - m;
        let ghost s = all_bits(data@).skip(bits as int);
        let ghost rest = bytes_of_bits(s);
        proof {
            lemma_bytes_of_bits_len(s);
        }
        assert(rest.len() == rest_len);
        if b == 0 {
            let r = slice_to_vec(slice_subrange(data, m, len));
            assert(r@ =~= rest) by {
                assert forall|q: int| 0 <= q < rest_len implies r@[q] == rest[q] by {
                    lemma_skipped_byte(data@, m as int, q);
                }
            }
            r
        } else {
            let left: usize = total_bits - bits;
            let need: usize = (left - 1) / 8 + 1;
            assert(need == bytes_for(left as int));
            let out_len: usize = if rest_len <= need {
                rest_len
            } else {
                need
            };
            let mut r: Vec<u8> = Vec::with_capacity(out_len);
            let mut q: usize = 0;
            while q < out_len
                invariant
                    q <= out_len <= rest_len,
                    rest_len == len - m,
                    len == data@.len(),
                    m == bits / 8,
                    b == bits % 8,
                    0 < b < 8,
                    rest == bytes_of_bits(all_bits(data@).skip(bits as int)),
                    rest.len() == rest_len,
                    r@ == rest.take(q as int),
                decreases out_len - q,
            {
                let x: u8 = data[m + q];
                let y: u8 = if m + q + 1 < len {
                    data[m + q + 1]
                } else {
                    0
                };
                let c: u8 = (x >> b) | (y << (8 - b));
                proof {
                    lemma_shifted_byte(data@, bits as int, q as int);
                    assert(c == rest[q as int]);
                    assert(r@.push(c) =~= rest.take(q + 1));
                }
                r.push(c);
                q += 1;
            }
            assert(rest.take(rest_len as int) =~= rest);
            r
        }
    }
}

/// The bits of `zeros` zero bytes followed by `data` are zero bits
/// followed by the bits of `data`.
proof fn lemma_all_bits_after_zero_bytes(zeros: Seq<u8>, data: Seq<u8>)
    requires
        forall|i: int| 0 <= i < zeros.len() ==> zeros[i] == 0u8,
    ensures
        all_bits(zeros + data) == zero_bits(8 * zeros.len()) + all_bits(data),
{
    let joined = zeros + data;
    let expected = zero_bits(8 * zeros.len()) + all_bits(data);
    assert forall|i: int| 0 <= i < 8 * joined.len() implies all_bits(joined)[i] == expected[i] by {
        let j = i / 8;
        let t = (i % 8) as u8;
        if j < zeros.len() {
            lemma_zero_byte_bit(t);
        } else {
            let k = i - 8 * zeros.len();
            assert(k / 8 == j - zeros.len() && k % 8 == t as int);
        }
    }
    assert(all_bits(joined) =~= expected);
}

/// Shifts the bits of `data` to the back by `bits` bits: bit 0 of `data`
/// becomes bit `bits` of the result, behind `bits` zero bits. In a byte,
/// the high bits come last.
pub fn shift_data_to_back(data: &[u8], bits: usize, total_bits: usize) -> (r: Vec<u8>)
    requires
        bits != 0 ==> total_bits + bits + 8 <= usize::MAX,
        bits != 0 ==> data@.len() + bits / 8 + 1 <= usize::MAX,
    ensures
        r@ == shifted_to_back(data@, bits as int, total_bits as int),
{
    if bits == 0 {
        slice_to_vec(data)
    } else {
        let shifted_total_bits: usize = total_bits + bits;
        let bytes_added: usize = (bits - 1) / 8 + 1;
        let mut padded: Vec<u8> = Vec::with_capacity(bytes_added + data.len());
        let mut k: usize = 0;
        while k < bytes_added
            invariant
                k <= bytes_added,
                padded@.len() == k,
                forall|i: int| 0 <= i < k ==> padded@[i] == 0u8,
            decreases bytes_added - k,
        {
            padded.push(0u8);
            k += 1;
        }
        let ghost zeros = padded@;
        padded.extend_from_slice(data);
        assert(padded@ =~= zeros + data@);
        let b: usize = bits & 7;
        assert(bits & 7 == bits % 8) by (bit_vector);
        proof {
            lemma_all_bits_after_zero_bytes(zeros, data@);
        }
        if b == 0 {
            proof {
                let s = zero_bits(bits as nat) + all_bits(data@);
                assert(all_bits(padded@) == s);
                assert(all_bits(padded@).skip(0) =~= s);
                lemma_skipped_whole(padded@);
            }
            padded
        } else {
            let lsh: usize = 8 - b;
            proof {
                let s = zero_bits(bits as nat) + all_bits(data@);
                assert(8 * bytes_added == bits + lsh);
                assert(all_bits(padded@).skip(lsh as int) =~= s);
                lemma_bytes_of_bits_len(s);
                assert(bytes_of_bits(s).len() == padded@.len());
            }
            shift_data_to_front(padded.as_slice(), lsh, shifted_total_bits + lsh)
        }
    }
}

/// The bytes made from all the bits of `data` are `data`.
proof fn lemma_skipped_whole(data: Seq<u8>)
    ensures
        bytes_of_bits(all_bits(data)) == data,
{
    let made = bytes_of_bits(all_bits(data));
    lemma_bytes_of_bits_len(all_bits(data));
    assert(all_bits(data).skip(0) =~= all_bits(data));
    assert forall|q: int| 0 <= q < data.len() implies made[q] == data[q] by {
        lemma_skipped_byte(data, 0, q);
    }
    assert(made =~= data);
}

} // verus!
