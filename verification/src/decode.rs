//! Finding the entry that the next bits of a stream stand for, with the
//! tables of a decoding book.

use crate::bits::low_mask;
use crate::book::CodeBook;
use crate::huffman::{bitreverse, spec_bitreverse};
use vstd::prelude::*;

verus! {

/// The last position from `lo` up to but not `hi` whose codeword is at
/// most `test`, found by halving the range; `lo` if there is none.
pub open spec fn search(codes: Seq<u32>, lo: int, hi: int, test: u32) -> int
    decreases hi - lo,
{
    if hi - lo > 1 {
        let p = (hi - lo) / 2;
        if codes[lo + p] > test {
            search(codes, lo, hi - p, test)
        } else {
            search(codes, lo + p, hi, test)
        }
    } else {
        lo
    }
}

/// The sorted position that the table and the search give for the next
/// 32 bits `lookahead` of a stream, or nothing where the tables of the
/// book do not fit together.
pub open spec fn spec_position(b: CodeBook, lookahead: u32) -> Option<int> {
    let n = b.code_list@.len() as int;
    let bits = b.dec_firsttablen as int;
    if bits < 1 || bits > 8 || b.dec_firsttable@.len() != (1u32 << (bits as u32)) {
        None
    } else {
        let entry = b.dec_firsttable@[(lookahead & low_mask(bits as u32)) as int];
        if entry & 0x8000_0000 == 0 {
            if 1 <= entry <= n {
                Some(entry - 1)
            } else {
                None
            }
        } else {
            let lo = ((entry >> 15) & 0x7fff) as int;
            let hi = n - (entry & 0x7fff);
            if lo < hi {
                Some(search(b.code_list@, lo, hi, spec_bitreverse(lookahead)))
            } else {
                None
            }
        }
    }
}

/// The entry that the next 32 bits `lookahead` of a stream start with,
/// and the length of its codeword.
pub open spec fn spec_decode_entry(b: CodeBook, lookahead: u32) -> Option<(i32, i8)> {
    match spec_position(b, lookahead) {
        None => None,
        Some(p) => if p < b.dec_index@.len() && p < b.dec_codelengths@.len() {
            Some((b.dec_index@[p], b.dec_codelengths@[p]))
        } else {
            None
        },
    }
}

proof fn lemma_table_mask(w: u32, bits: u32)
    by (bit_vector)
    requires
        1 <= bits <= 8,
    ensures
        (w & low_mask(bits)) < (1u32 << bits),
        (1u32 << bits) <= 256,
{
}

impl CodeBook {
    /// The sorted position of the codeword that the next 32 bits
    /// `lookahead` of a stream start with: the table gives it at once for
    /// a short codeword, and for a long one the bounds between which it
    /// is searched for.
    pub fn position(&self, lookahead: u32) -> (r: Option<usize>)
        ensures
            spec_position(*self, lookahead) matches Some(p) ==> 0 <= p < self.code_list@.len() && r
                == Some(p as usize),
            spec_position(*self, lookahead).is_none() ==> r.is_none(),
            r matches Some(q) ==> spec_position(*self, lookahead) == Some(q as int),
    {
        let n = self.code_list.len();
        if self.dec_firsttablen < 1 || self.dec_firsttablen > 8 {
            return None;
        }
        let bits = self.dec_firsttablen as u32;
        proof {
            lemma_table_mask(lookahead, bits);
        }
        let tabn: u32 = 1u32 << bits;
        if self.dec_firsttable.len() != tabn as usize {
            return None;
        }
        let mask: u32 = 0xffff_ffffu32 >> (32 - bits);
        let entry = self.dec_firsttable[(lookahead & mask) as usize];
        if entry & 0x8000_0000 == 0 {
            if 1 <= entry && entry as usize <= n {
                return Some((entry - 1) as usize);
            } else {
                return None;
            }
        }
        let first: usize = ((entry >> 15) & 0x7fff) as usize;
        let back: usize = (entry & 0x7fff) as usize;
        assert((entry >> 15) & 0x7fff <= 0x7fff && entry & 0x7fff <= 0x7fff) by (bit_vector);
        if back > n || first >= n - back {
            return None;
        }
        let testword = bitreverse(lookahead);
        let mut lo: usize = first;
        let mut hi: usize = n - back;
        while hi - lo > 1
            invariant
                lo < hi <= n,
                n == self.code_list@.len(),
                search(self.code_list@, lo as int, hi as int, testword) == search(
                    self.code_list@,
                    first as int,
                    (n - back) as int,
                    testword,
                ),
            decreases hi - lo,
        {
            let p = (hi - lo) / 2;
            if self.code_list[lo + p] > testword {
                hi = hi - p;
            } else {
                lo = lo + p;
            }
        }
        Some(lo)
    }

    /// The entry that the next 32 bits `lookahead` of a stream start
    /// with, and the number of bits of its codeword.
    pub fn decode_entry(&self, lookahead: u32) -> (r: Option<(i32, i8)>)
        ensures
            r == spec_decode_entry(*self, lookahead),
    {
        let found = self.position(lookahead);
        match found {
            None => {
                assert(spec_position(*self, lookahead).is_none());
                None
            },
            Some(p) => {
                assert(spec_position(*self, lookahead) == Some(p as int));
                if p < self.dec_index.len() && p < self.dec_codelengths.len() {
                    Some((self.dec_index[p], self.dec_codelengths[p]))
                } else {
                    None
                }
            },
        }
    }
}

} // verus!
