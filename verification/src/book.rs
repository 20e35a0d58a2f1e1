//! The codebook as a codec session uses it: the table of words for
//! encoding, or the sorted list of codewords with its lookup table for
//! decoding.

use crate::bits::low_mask;
use crate::codebook::{BookSpec, StaticCodeBook};
use crate::error::Error;
use crate::huffman::{
    bitreverse, make_words, spec_bitreverse, spec_make_words, swap_network, used_count,
};
use crate::numeric::{ilog, lattice_quantvals, lattice_root, spec_ilog};
use vstd::prelude::*;
use vstd::slice::slice_to_vec;

verus! {

/// A codebook made ready for encoding or for decoding.
#[derive(Debug, Clone, PartialEq, Eq)]
pub struct CodeBook {
    /// The number of values that an entry stands for.
    pub dim: i32,
    /// The number of entries of the static codebook.
    pub entries: i32,
    /// The number of entries that have a codeword.
    pub used_entries: i32,
    /// The static codebook that an encoding book was made from.
    pub static_codebook: Option<StaticCodeBook>,
    /// For encoding, the word of each entry; for decoding, the codewords
    /// of the used entries, first bit on top, in ascending order.
    pub code_list: Vec<u32>,
    /// For decoding, the entry that each sorted codeword belongs to.
    pub dec_index: Vec<i32>,
    /// For decoding, the length of each sorted codeword.
    pub dec_codelengths: Vec<i8>,
    /// For decoding, the number of bits that the lookup table is indexed
    /// by.
    pub dec_firsttablen: i8,
    /// For decoding, the lookup table: for each value of the next bits of
    /// the stream either the sorted position of the codeword that they
    /// start with, plus one, or a hint at where to search for it.
    pub dec_firsttable: Vec<u32>,
    /// For decoding, the greatest codeword length.
    pub dec_maxlength: i8,
    /// For encoding, the number of quantized values per dimension of a
    /// lattice codebook.
    pub quantvals: i32,
    /// For encoding, the least value, as the bit pattern of a 32-bit float.
    pub minval: u32,
    /// For encoding, the step between values, as the bit pattern of a
    /// 32-bit float.
    pub delta: u32,
}

impl Clone for StaticCodeBook {
    fn clone(&self) -> (r: Self)
        ensures
            r@ == self@,
    {
        StaticCodeBook {
            dim: self.dim,
            entries: self.entries,
            lengthlist: slice_to_vec(self.lengthlist.as_slice()),
            maptype: self.maptype,
            q_min: self.q_min,
            q_delta: self.q_delta,
            q_quant: self.q_quant,
            q_sequencep: self.q_sequencep,
            quantlist: slice_to_vec(self.quantlist.as_slice()),
        }
    }
}

/// The code lengths that the words are made from: the first `entries`
/// lengths of the list, if the list has that many.
pub open spec fn book_lengths(b: BookSpec) -> Option<Seq<i8>> {
    if b.entries < 0 || b.lengthlist.len() < b.entries {
        None
    } else {
        Some(b.lengthlist.take(b.entries as int))
    }
}

/// The words of an encoding book: one for every entry.
pub open spec fn encode_words(b: BookSpec) -> Result<Seq<u32>, Error> {
    match book_lengths(b) {
        None => Err(Error::InvalidData),
        Some(l) => spec_make_words(l, 0),
    }
}

/// The codewords of the used entries, first bit on top, in the order of
/// the entries.
pub open spec fn decode_keys(b: BookSpec) -> Result<Seq<u32>, Error> {
    match book_lengths(b) {
        None => Err(Error::InvalidData),
        Some(l) => if used_count(l, l.len() as int) == 0 {
            Ok(Seq::empty())
        } else {
            match spec_make_words(l, used_count(l, l.len() as int)) {
                Err(e) => Err(e),
                Ok(words) => Ok(Seq::new(words.len(), |i: int| spec_bitreverse(words[i]))),
            }
        },
    }
}

/// The numbers of those of the first `k` entries that are used.
pub open spec fn used_entries(l: Seq<i8>, k: int) -> Seq<i32>
    decreases k,
{
    if k <= 0 {
        Seq::empty()
    } else if l[k - 1] != 0 {
        used_entries(l, k - 1).push((k - 1) as i32)
    } else {
        used_entries(l, k - 1)
    }
}

/// Whether the codeword at `j` comes before the codeword at `i` in the
/// sorted list: it is smaller, or it is equal and stands earlier.
pub open spec fn sorts_before(keys: Seq<u32>, j: int, i: int) -> bool {
    keys[j] < keys[i] || (keys[j] == keys[i] && j < i)
}

/// How many of the first `k` codewords come before the codeword at `i`.
pub open spec fn count_before(keys: Seq<u32>, i: int, k: int) -> int
    decreases k,
{
    if k <= 0 {
        0
    } else {
        count_before(keys, i, k - 1) + if sorts_before(keys, k - 1, i) {
            1int
        } else {
            0int
        }
    }
}

/// The place of the codeword at `i` in the sorted list.
pub open spec fn rank_of(keys: Seq<u32>, i: int) -> int {
    count_before(keys, i, keys.len() as int)
}

/// The greatest of the first `k` lengths, and 0 if there is none.
pub open spec fn max_length(l: Seq<i8>, k: int) -> int
    decreases k,
{
    if k <= 0 {
        0
    } else if l[k - 1] > max_length(l, k - 1) {
        l[k - 1] as int
    } else {
        max_length(l, k - 1)
    }
}

/// The number of bits that index the lookup table of a book of `n`
/// codewords.
pub open spec fn table_bits(n: int) -> int {
    let wish = spec_ilog(n) - 4;
    if wish < 5 {
        5
    } else if wish > 8 {
        8
    } else {
        wish
    }
}

proof fn lemma_count_before_bound(keys: Seq<u32>, i: int, k: int)
    requires
        0 <= k,
    ensures
        0 <= count_before(keys, i, k) <= k,
        0 <= i < k ==> count_before(keys, i, k) < k,
    decreases k,
{
    if k > 0 {
        lemma_count_before_bound(keys, i, k - 1);
    }
}

proof fn lemma_count_before_monotone(keys: Seq<u32>, i: int, j: int, k: int)
    requires
        0 <= i < keys.len(),
        0 <= j < keys.len(),
        0 <= k <= keys.len(),
        sorts_before(keys, i, j),
    ensures
        count_before(keys, i, k) <= count_before(keys, j, k),
        i < k ==> count_before(keys, i, k) < count_before(keys, j, k),
    decreases k,
{
    if k > 0 {
        lemma_count_before_monotone(keys, i, j, k - 1);
    }
}

/// The place of a codeword is a place of the list.
pub proof fn lemma_rank_in_range(keys: Seq<u32>, i: int)
    requires
        0 <= i < keys.len(),
    ensures
        0 <= rank_of(keys, i) < keys.len(),
{
    lemma_count_before_bound(keys, i, keys.len() as int);
}

/// Two codewords do not share a place in the sorted list.
pub proof fn lemma_rank_injective(keys: Seq<u32>, i: int, j: int)
    requires
        0 <= i < keys.len(),
        0 <= j < keys.len(),
        i != j,
    ensures
        rank_of(keys, i) != rank_of(keys, j),
        0 <= rank_of(keys, i) < keys.len(),
        sorts_before(keys, i, j) ==> rank_of(keys, i) < rank_of(keys, j),
{
    lemma_count_before_bound(keys, i, keys.len() as int);
    if sorts_before(keys, i, j) {
        lemma_count_before_monotone(keys, i, j, keys.len() as int);
    } else {
        assert(sorts_before(keys, j, i));
        lemma_count_before_monotone(keys, j, i, keys.len() as int);
    }
}

/// The place of each codeword in the sorted list.
pub(crate) fn ranks(keys: &Vec<u32>) -> (r: Vec<usize>)
    ensures
        r@.len() == keys@.len(),
        forall|i: int| 0 <= i < keys@.len() ==> #[trigger] r@[i] == rank_of(keys@, i),
        forall|i: int| 0 <= i < keys@.len() ==> (#[trigger] r@[i]) < keys@.len(),
{
    let n = keys.len();
    let mut r: Vec<usize> = Vec::new();
    let mut i: usize = 0;
    while i < n
        invariant
            i <= n,
            n == keys@.len(),
            r@.len() == i,
            forall|k: int| 0 <= k < i ==> #[trigger] r@[k] == rank_of(keys@, k),
            forall|k: int| 0 <= k < i ==> (#[trigger] r@[k]) < n,
        decreases n - i,
    {
        let mut count: usize = 0;
        let mut j: usize = 0;
        while j < n
            invariant
                j <= n,
                i < n,
                n == keys@.len(),
                count == count_before(keys@, i as int, j as int),
                count <= j,
            decreases n - j,
        {
            if keys[j] < keys[i] || (keys[j] == keys[i] && j < i) {
                count += 1;
            }
            j += 1;
        }
        proof {
            lemma_count_before_bound(keys@, i as int, n as int);
        }
        r.push(count);
        i += 1;
    }
    r
}

/// The sorted position, plus one, of the last of the first `k` codewords
/// that has at most `bits` bits and that the table index `s` starts with;
/// 0 if there is none.
pub open spec fn direct_hit(codes: Seq<u32>, lens: Seq<i8>, bits: int, s: u32, k: int) -> u32
    decreases k,
{
    if k <= 0 {
        0
    } else if 0 <= lens[k - 1] <= bits && (s & low_mask(lens[k - 1] as u32)) == spec_bitreverse(
        codes[k - 1],
    ) {
        k as u32
    } else {
        direct_hit(codes, lens, bits, s, k - 1)
    }
}

/// The table index that stands for the `i`-th smallest run of `bits`
/// leading bits.
pub open spec fn slot_of(i: u32, bits: u32) -> u32 {
    swap_network(i << ((32 - bits) as u32))
}

/// Which run of leading bits, counted from the smallest, the table index
/// `s` stands for.
pub open spec fn run_of(s: u32, bits: u32) -> u32 {
    swap_network(s) >> ((32 - bits) as u32)
}

/// The mask of the `bits` leading bits of a codeword.
pub open spec fn prefix_mask(bits: u32) -> u32 {
    0xffff_fffeu32 << ((31 - bits) as u32)
}

/// The lower bound of the search moved on for the codeword `word`: the
/// last position from `lo` on whose codeword is below `word`, or `lo`.
pub open spec fn advance_lo(codes: Seq<u32>, lo: int, word: u32) -> int
    decreases codes.len() - lo,
{
    if 0 <= lo && lo + 1 < codes.len() && codes[lo + 1] < word {
        advance_lo(codes, lo + 1, word)
    } else {
        lo
    }
}

/// The upper bound of the search moved on for the codeword `word`: the
/// first position from `hi` on whose codeword starts with more than the
/// leading bits of `word`.
pub open spec fn advance_hi(codes: Seq<u32>, hi: int, word: u32, mask: u32) -> int
    decreases codes.len() - hi,
{
    if 0 <= hi < codes.len() && word >= (codes[hi] & mask) {
        advance_hi(codes, hi + 1, word, mask)
    } else {
        hi
    }
}

/// The bounds of the search after the first `i` runs of leading bits, in
/// ascending order, are dealt with. A run that a short codeword answers
/// leaves the bounds as they are.
pub open spec fn search_bounds(codes: Seq<u32>, direct: Seq<u32>, bits: u32, i: int) -> (int, int)
    decreases i,
{
    if i <= 0 {
        (0, 0)
    } else {
        let (lo, hi) = search_bounds(codes, direct, bits, i - 1);
        let word = ((i - 1) as u32) << ((32 - bits) as u32);
        if direct[slot_of((i - 1) as u32, bits) as int] != 0 {
            (lo, hi)
        } else {
            (advance_lo(codes, lo, word), advance_hi(codes, hi, word, prefix_mask(bits)))
        }
    }
}

/// A search hint: the flag bit, the lower bound in 15 bits and the
/// distance of the upper bound from the end of the list in 15 bits, each
/// kept at most 0x7fff.
pub open spec fn hint(n: int, lo: int, hi: int) -> u32 {
    0x8000_0000u32 | (((if lo > 0x7fff {
        0x7fff
    } else {
        lo
    }) as u32) << 15) | ((if n - hi > 0x7fff {
        0x7fff
    } else {
        n - hi
    }) as u32)
}

/// The table of the short codewords alone.
pub open spec fn direct_table(codes: Seq<u32>, lens: Seq<i8>, bits: u32) -> Seq<u32> {
    Seq::new(
        (1u32 << bits) as nat,
        |s: int| direct_hit(codes, lens, bits as int, s as u32, codes.len() as int),
    )
}

/// The lookup table of a decoding book: an index that starts with a
/// codeword of at most `bits` bits holds the sorted position of that
/// codeword plus one, and any other index holds a search hint.
pub open spec fn first_table(codes: Seq<u32>, lens: Seq<i8>, bits: u32) -> Seq<u32> {
    let direct = direct_table(codes, lens, bits);
    Seq::new(
        (1u32 << bits) as nat,
        |s: int|
            if direct[s] != 0 {
                direct[s]
            } else {
                let (lo, hi) = search_bounds(codes, direct, bits, run_of(s as u32, bits) + 1);
                hint(codes.len() as int, lo, hi)
            },
    )
}

proof fn lemma_slots(i: u32, bits: u32)
    by (bit_vector)
    requires
        1 <= bits <= 8,
        i < (1u32 << bits),
    ensures
        slot_of(i, bits) < (1u32 << bits),
        run_of(i, bits) < (1u32 << bits),
        run_of(slot_of(i, bits), bits) == i,
        slot_of(run_of(i, bits), bits) == i,
        (1u32 << bits) <= 256,
{
}

/// An index of the table lies in the table.
pub proof fn lemma_table_index(s: u32, bits: u32)
    requires
        1 <= bits <= 8,
        s < (1u32 << bits),
    ensures
        0 <= s < first_table(Seq::<u32>::empty(), Seq::<i8>::empty(), bits).len(),
        forall|codes: Seq<u32>, lens: Seq<i8>| #[trigger]
            first_table(codes, lens, bits).len() == (1u32 << bits),
        forall|codes: Seq<u32>, lens: Seq<i8>| #[trigger]
            direct_table(codes, lens, bits).len() == (1u32 << bits),
{
}

/// The table index of the run of a table index is that index.
pub proof fn lemma_table_slots(s: u32, bits: u32)
    requires
        1 <= bits <= 8,
        s < (1u32 << bits),
    ensures
        slot_of(run_of(s, bits), bits) == s,
        run_of(s, bits) < (1u32 << bits),
{
    lemma_slots(s, bits);
}

proof fn lemma_table_size(bits: u32)
    by (bit_vector)
    requires
        1 <= bits <= 8,
    ensures
        2 <= (1u32 << bits) <= 256,
{
}

proof fn lemma_hint_is_set(a: u32, b: u32)
    by (bit_vector)
    ensures
        0x8000_0000u32 | (a << 15) | b != 0,
{
}

fn fill_direct(table: &mut Vec<u32>, codes: &Vec<u32>, lens: &Vec<i8>, bits: u32)
    requires
        1 <= bits <= 8,
        old(table)@.len() == (1u32 << bits),
        forall|s: int| 0 <= s < old(table)@.len() ==> old(table)@[s] == 0,
        codes@.len() == lens@.len(),
        codes@.len() <= 0x7fff_ffff,
    ensures
        final(table)@ == direct_table(codes@, lens@, bits),
{
    let n = codes.len();
    let tabn = table.len();
    proof {
        lemma_table_size(bits);
    }
    let mut k: usize = 0;
    while k < n
        invariant
            k <= n,
            n == codes@.len(),
            n == lens@.len(),
            n <= 0x7fff_ffff,
            1 <= bits <= 8,
            tabn == table@.len(),
            tabn == (1u32 << bits),
            tabn <= 256,
            forall|s: int|
                0 <= s < tabn ==> #[trigger] table@[s] == direct_hit(
                    codes@,
                    lens@,
                    bits as int,
                    s as u32,
                    k as int,
                ),
        decreases n - k,
    {
        let len = lens[k];
        if 0 <= len && len as u32 <= bits {
            let orig = bitreverse(codes[k]);
            let mask: u32 = if len == 0 {
                0
            } else {
                0xffff_ffffu32 >> (32 - len as u32)
            };
            let mut s: usize = 0;
            while s < tabn
                invariant
                    s <= tabn,
                    k < n,
                    n == codes@.len(),
                    n == lens@.len(),
                    n <= 0x7fff_ffff,
                    tabn == table@.len(),
                    tabn <= 256,
                    len == lens@[k as int],
                    0 <= len <= bits,
                    orig == spec_bitreverse(codes@[k as int]),
                    mask == low_mask(len as u32),
                    forall|t: int|
                        0 <= t < s ==> #[trigger] table@[t] == direct_hit(
                            codes@,
                            lens@,
                            bits as int,
                            t as u32,
                            k + 1,
                        ),
                    forall|t: int|
                        s <= t < tabn ==> #[trigger] table@[t] == direct_hit(
                            codes@,
                            lens@,
                            bits as int,
                            t as u32,
                            k as int,
                        ),
                decreases tabn - s,
            {
                if (s as u32) & mask == orig {
                    table.set(s, (k + 1) as u32);
                }
                s += 1;
            }
        }
        k += 1;
    }
    assert(table@ =~= direct_table(codes@, lens@, bits));
}

fn fill_hints(table: &mut Vec<u32>, codes: &Vec<u32>, Ghost(lens): Ghost<Seq<i8>>, bits: u32)
    requires
        1 <= bits <= 8,
        old(table)@ == direct_table(codes@, lens, bits),
        codes@.len() <= 0x7fff_ffff,
    ensures
        final(table)@ == first_table(codes@, lens, bits),
{
    let n = codes.len();
    let tabn = table.len();
    let ghost direct = table@;
    let mask: u32 = 0xffff_fffeu32 << (31 - bits);
    let mut lo: usize = 0;
    let mut hi: usize = 0;
    let mut i: usize = 0;
    proof {
        lemma_table_size(bits);
    }
    while i < tabn
        invariant
            i <= tabn,
            n == codes@.len(),
            n <= 0x7fff_ffff,
            1 <= bits <= 8,
            tabn == table@.len(),
            tabn == (1u32 << bits),
            tabn <= 256,
            direct == direct_table(codes@, lens, bits),
            mask == prefix_mask(bits),
            lo < n || lo == 0,
            hi <= n,
            (lo as int, hi as int) == search_bounds(codes@, direct, bits, i as int),
            forall|s: int|
                0 <= s < tabn ==> #[trigger] table@[s] == (if direct[s] != 0 {
                    direct[s]
                } else if run_of(s as u32, bits) < i {
                    hint(
                        n as int,
                        search_bounds(codes@, direct, bits, run_of(s as u32, bits) + 1).0,
                        search_bounds(codes@, direct, bits, run_of(s as u32, bits) + 1).1,
                    )
                } else {
                    0
                }),
        decreases tabn - i,
    {
        let word: u32 = (i as u32) << (32 - bits);
        let slot = bitreverse(word) as usize;
        proof {
            lemma_slots(i as u32, bits);
            assert forall|s: int| 0 <= s < tabn implies (#[trigger] run_of(s as u32, bits) == i) == (s
                == slot) by {
                lemma_slots(s as u32, bits);
            }
        }
        if table[slot] == 0 {
            while lo + 1 < n && codes[lo + 1] < word
                invariant
                    lo < n || lo == 0,
                    lo <= n,
                    n == codes@.len(),
                    advance_lo(codes@, lo as int, word) == advance_lo(
                        codes@,
                        search_bounds(codes@, direct, bits, i as int).0,
                        word,
                    ),
                decreases n - lo,
            {
                lo += 1;
            }
            while hi < n && word >= (codes[hi] & mask)
                invariant
                    hi <= n,
                    n == codes@.len(),
                    advance_hi(codes@, hi as int, word, mask) == advance_hi(
                        codes@,
                        search_bounds(codes@, direct, bits, i as int).1,
                        word,
                        mask,
                    ),
                decreases n - hi,
            {
                hi += 1;
            }
            let loval: u32 = if lo > 0x7fff {
                0x7fff
            } else {
                lo as u32
            };
            let hival: u32 = if n - hi > 0x7fff {
                0x7fff
            } else {
                (n - hi) as u32
            };
            proof {
                lemma_hint_is_set(loval, hival);
            }
            table.set(slot, 0x8000_0000u32 | (loval << 15) | hival);
        } else {
            proof {
                lemma_hint_is_set(0, 0);
                assert(direct[slot as int] != 0);
            }
        }
        i += 1;
    }
    proof {
        assert forall|s: int| 0 <= s < tabn implies #[trigger] table@[s] == first_table(
            codes@,
            lens,
            bits,
        )[s] by {
            lemma_slots(s as u32, bits);
        }
        assert(table@ =~= first_table(codes@, lens, bits));
    }
}

/// Puts each value at the place that `places` gives for it. Places that
/// no value is put at hold `fill`.
pub(crate) fn place<T: Copy>(values: &Vec<T>, places: &Vec<usize>, fill: T) -> (out: Vec<T>)
    requires
        values@.len() == places@.len(),
        forall|i: int| 0 <= i < places@.len() ==> (#[trigger] places@[i]) < places@.len(),
        forall|i: int, j: int|
            0 <= i < places@.len() && 0 <= j < places@.len() && i != j ==> #[trigger] places@[i]
                != #[trigger] places@[j],
    ensures
        out@.len() == values@.len(),
        forall|i: int| 0 <= i < values@.len() ==> out@[#[trigger] places@[i] as int] == values@[i],
{
    let n = values.len();
    let mut out: Vec<T> = Vec::new();
    let mut k: usize = 0;
    while k < n
        invariant
            k <= n,
            out@.len() == k,
        decreases n - k,
    {
        out.push(fill);
        k += 1;
    }
    let mut i: usize = 0;
    while i < n
        invariant
            i <= n,
            n == values@.len(),
            n == places@.len(),
            out@.len() == n,
            forall|k: int| 0 <= k < n ==> (#[trigger] places@[k]) < n,
            forall|a: int, b: int|
                0 <= a < n && 0 <= b < n && a != b ==> #[trigger] places@[a] != #[trigger] places@[b],
            forall|k: int| 0 <= k < i ==> out@[#[trigger] places@[k] as int] == values@[k],
        decreases n - i,
    {
        let at = places[i];
        out.set(at, values[i]);
        i += 1;
    }
    out
}

/// What a decoding book made from the static codebook `src` holds, `keys`
/// being the codewords of its used entries in the order of the entries.
pub open spec fn is_decoding_book(src: BookSpec, keys: Seq<u32>, b: CodeBook) -> bool {
    let l = src.lengthlist.take(src.entries as int);
    let n = keys.len() as int;
    let idx = used_entries(l, src.entries as int);
    &&& b.dim == src.dim
    &&& b.entries == src.entries
    &&& b.used_entries == n
    &&& b.static_codebook.is_none()
    &&& b.quantvals == 0
    &&& b.minval == 0
    &&& b.delta == 0
    &&& b.code_list@.len() == n
    &&& b.dec_index@.len() == n
    &&& b.dec_codelengths@.len() == n
    &&& forall|i: int|
        0 <= i < n ==> {
            &&& b.code_list@[#[trigger] rank_of(keys, i)] == keys[i]
            &&& b.dec_index@[rank_of(keys, i)] == idx[i]
            &&& b.dec_codelengths@[rank_of(keys, i)] == l[idx[i] as int]
        }
    &&& if n == 0 {
        &&& b.dec_maxlength == 0
        &&& b.dec_firsttablen == 0
        &&& b.dec_firsttable@.len() == 0
    } else {
        &&& b.dec_maxlength == max_length(l, src.entries as int)
        &&& if n == 1 && b.dec_maxlength == 1 {
            &&& b.dec_firsttablen == 1
            &&& b.dec_firsttable@ == seq![1u32, 1u32]
        } else {
            &&& b.dec_firsttablen == table_bits(n)
            &&& b.dec_firsttable@ == first_table(
                b.code_list@,
                b.dec_codelengths@,
                b.dec_firsttablen as u32,
            )
        }
    }
}

/// What an encoding book made from the static codebook `src` holds,
/// `words` being the words of its entries.
pub open spec fn is_encoding_book(src: BookSpec, words: Seq<u32>, b: CodeBook) -> bool {
    &&& b.dim == src.dim
    &&& b.entries == src.entries
    &&& b.used_entries == src.entries
    &&& b.static_codebook matches Some(s) && s@ == src
    &&& b.code_list@ == words
    &&& b.quantvals == lattice_quantvals(src.entries as int, src.dim as int)
    &&& b.minval == src.q_min
    &&& b.delta == src.q_delta
    &&& b.dec_index@.len() == 0
    &&& b.dec_codelengths@.len() == 0
    &&& b.dec_firsttablen == 0
    &&& b.dec_firsttable@.len() == 0
    &&& b.dec_maxlength == 0
}

proof fn lemma_used_entries(l: Seq<i8>, k: int)
    requires
        0 <= k <= l.len(),
        k <= 0x7fff_ffff,
    ensures
        used_entries(l, k).len() == used_count(l, k),
        used_count(l, k) <= k,
        forall|i: int|
            0 <= i < used_entries(l, k).len() ==> 0 <= #[trigger] used_entries(l, k)[i] < k && l[used_entries(
                l,
                k,
            )[i] as int] != 0,
    decreases k,
{
    if k > 0 {
        lemma_used_entries(l, k - 1);
        let prev = used_entries(l, k - 1);
        let cur = used_entries(l, k);
        assert forall|i: int| 0 <= i < cur.len() implies 0 <= #[trigger] cur[i] < k && l[cur[i] as int]
            != 0 by {
            if i < prev.len() {
                assert(cur[i] == prev[i]);
            }
        }
    }
}

proof fn lemma_sparse_words_len(l: Seq<i8>, codes: Seq<int>, k: int)
    requires
        0 <= k,
    ensures
        crate::huffman::sparse_words(l, codes, k).len() == used_count(l, k),
    decreases k,
{
    if k > 0 {
        lemma_sparse_words_len(l, codes, k - 1);
    }
}

/// Sparse words are as many as asked for.
proof fn lemma_make_words_len(l: Seq<i8>, sparsecount: int)
    requires
        sparsecount >= used_count(l, l.len() as int),
        sparsecount > 0,
        spec_make_words(l, sparsecount).is_ok(),
    ensures
        spec_make_words(l, sparsecount).unwrap().len() == sparsecount,
{
    let n = l.len() as int;
    let (codes, m) = crate::huffman::assign_codewords(l, n).unwrap();
    lemma_sparse_words_len(l, codes, n);
}

fn empty_book(dim: i32, entries: i32) -> (b: CodeBook)
    ensures
        b.dim == dim,
        b.entries == entries,
        b.used_entries == 0,
        b.static_codebook.is_none(),
        b.code_list@.len() == 0,
        b.dec_index@.len() == 0,
        b.dec_codelengths@.len() == 0,
        b.dec_firsttablen == 0,
        b.dec_firsttable@.len() == 0,
        b.dec_maxlength == 0,
        b.quantvals == 0,
        b.minval == 0,
        b.delta == 0,
{
    CodeBook {
        dim,
        entries,
        used_entries: 0,
        static_codebook: None,
        code_list: Vec::new(),
        dec_index: Vec::new(),
        dec_codelengths: Vec::new(),
        dec_firsttablen: 0,
        dec_firsttable: Vec::new(),
        dec_maxlength: 0,
        quantvals: 0,
        minval: 0,
        delta: 0,
    }
}

/// The numbers of the used entries among the first `n`, their lengths and
/// the greatest length.
fn used_of(lengthlist: &Vec<i8>, n: usize) -> (r: (Vec<i32>, Vec<i8>, i8))
    requires
        n <= lengthlist@.len(),
        n <= 0x7fff_ffff,
    ensures
        r.0@ == used_entries(lengthlist@.take(n as int), n as int),
        r.1@.len() == r.0@.len(),
        forall|k: int| 0 <= k < r.0@.len() ==> #[trigger] r.1@[k] == lengthlist@[r.0@[k] as int],
        r.2 == max_length(lengthlist@.take(n as int), n as int),
        r.0@.len() == used_count(lengthlist@.take(n as int), n as int),
{
    let ghost l = lengthlist@.take(n as int);
    let mut idx: Vec<i32> = Vec::new();
    let mut lens: Vec<i8> = Vec::new();
    let mut longest: i8 = 0;
    let mut i: usize = 0;
    while i < n
        invariant
            i <= n <= lengthlist@.len(),
            n <= 0x7fff_ffff,
            l == lengthlist@.take(n as int),
            idx@ == used_entries(l, i as int),
            lens@.len() == idx@.len(),
            forall|k: int| 0 <= k < idx@.len() ==> #[trigger] lens@[k] == lengthlist@[idx@[k] as int],
            longest == max_length(l, i as int),
        decreases n - i,
    {
        let length = lengthlist[i];
        assert(l[i as int] == length);
        if length != 0 {
            idx.push(i as i32);
            lens.push(length);
        }
        if length > longest {
            longest = length;
        }
        i += 1;
    }
    proof {
        lemma_used_entries(l, n as int);
    }
    (idx, lens, longest)
}

impl CodeBook {
    /// Makes the book for encoding or for decoding.
    pub fn new(for_encode: bool, src: &StaticCodeBook) -> (r: Result<Self, Error>)
        ensures
            for_encode ==> match encode_words(src@) {
                Ok(words) => r matches Ok(b) && is_encoding_book(src@, words, b),
                Err(e) => r matches Err(x) && x == e,
            },
            !for_encode ==> match decode_keys(src@) {
                Ok(keys) => r matches Ok(b) && is_decoding_book(src@, keys, b),
                Err(e) => r matches Err(x) && x == e,
            },
    {
        if for_encode {
            Self::new_for_encode(src)
        } else {
            Self::new_for_decode(src)
        }
    }

    /// Makes the book for encoding: every entry gets its word, in the
    /// order of the entries. A static codebook whose list of code lengths
    /// is shorter than its number of entries, or whose code lengths do not
    /// fill a tree, is refused.
    pub fn new_for_encode(src: &StaticCodeBook) -> (r: Result<Self, Error>)
        ensures
            match encode_words(src@) {
                Ok(words) => r matches Ok(b) && is_encoding_book(src@, words, b),
                Err(e) => r matches Err(x) && x == e,
            },
    {
        if src.entries < 0 || src.lengthlist.len() < src.entries as usize {
            return Err(Error::InvalidData);
        }
        let words = match make_words(src.lengthlist.as_slice(), src.entries, 0) {
            Ok(w) => w,
            Err(e) => {
                return Err(e);
            },
        };
        Ok(
            CodeBook {
                dim: src.dim,
                entries: src.entries,
                used_entries: src.entries,
                static_codebook: Some(src.clone()),
                code_list: words,
                dec_index: Vec::new(),
                dec_codelengths: Vec::new(),
                dec_firsttablen: 0,
                dec_firsttable: Vec::new(),
                dec_maxlength: 0,
                quantvals: lattice_root(src.entries, src.dim),
                minval: src.q_min,
                delta: src.q_delta,
            },
        )
    }

    /// Makes the book for decoding: the codewords of the used entries are
    /// sorted, and a table is made that finds short codewords at once and
    /// bounds the search for long ones. A static codebook without used
    /// entries gives an empty book.
    pub fn new_for_decode(src: &StaticCodeBook) -> (r: Result<Self, Error>)
        ensures
            match decode_keys(src@) {
                Ok(keys) => r matches Ok(b) && is_decoding_book(src@, keys, b),
                Err(e) => r matches Err(x) && x == e,
            },
    {
        if src.entries < 0 || src.lengthlist.len() < src.entries as usize {
            return Err(Error::InvalidData);
        }
        let entries = src.entries as usize;
        let ghost l = src.lengthlist@.take(entries as int);
        let (idx, lens, longest) = used_of(&src.lengthlist, entries);
        let n = idx.len();
        proof {
            lemma_used_entries(l, entries as int);
        }
        if n == 0 {
            return Ok(empty_book(src.dim, src.entries));
        }
        let words = match make_words(src.lengthlist.as_slice(), src.entries, n as i32) {
            Ok(w) => w,
            Err(e) => {
                return Err(e);
            },
        };
        proof {
            lemma_make_words_len(l, n as int);
            lemma_used_entries(l, entries as int);
        }
        let mut keys: Vec<u32> = Vec::new();
        let mut i: usize = 0;
        while i < n
            invariant
                i <= n,
                n == words@.len(),
                keys@.len() == i,
                forall|k: int| 0 <= k < i ==> #[trigger] keys@[k] == spec_bitreverse(words@[k]),
            decreases n - i,
        {
            keys.push(bitreverse(words[i]));
            i += 1;
        }
        assert(keys@ =~= decode_keys(src@).unwrap());
        let places = ranks(&keys);
        proof {
            assert forall|a: int, b: int|
                0 <= a < n && 0 <= b < n && a != b implies #[trigger] places@[a] != #[trigger] places@[b] by {
                lemma_rank_injective(keys@, a, b);
            }
        }
        let code_list = place(&keys, &places, 0u32);
        let dec_index = place(&idx, &places, 0i32);
        let dec_codelengths = place(&lens, &places, 0i8);
        let dec_firsttablen: i8;
        let mut dec_firsttable: Vec<u32> = Vec::new();
        if n == 1 && longest == 1 {
            dec_firsttablen = 1;
            dec_firsttable.push(1);
            dec_firsttable.push(1);
            assert(dec_firsttable@ =~= seq![1u32, 1u32]);
        } else {
            let wish = ilog(n as u64) - 4;
            let bits: i32 = if wish < 5 {
                5
            } else if wish > 8 {
                8
            } else {
                wish
            };
            dec_firsttablen = bits as i8;
            let tabn: usize = 1usize << (bits as u32);
            assert(1usize << (bits as u32) == 1u32 << (bits as u32) && (1u32 << (bits as u32)) <= 256)
                by (bit_vector)
                requires
                    5 <= bits <= 8,
            ;
            let mut k: usize = 0;
            while k < tabn
                invariant
                    k <= tabn,
                    dec_firsttable@.len() == k,
                    forall|s: int| 0 <= s < k ==> dec_firsttable@[s] == 0,
                decreases tabn - k,
            {
                dec_firsttable.push(0);
                k += 1;
            }
            fill_direct(&mut dec_firsttable, &code_list, &dec_codelengths, bits as u32);
            fill_hints(&mut dec_firsttable, &code_list, Ghost(dec_codelengths@), bits as u32);
        }
        let b = CodeBook {
            dim: src.dim,
            entries: src.entries,
            used_entries: n as i32,
            static_codebook: None,
            code_list,
            dec_index,
            dec_codelengths,
            dec_firsttablen,
            dec_firsttable,
            dec_maxlength: longest,
            quantvals: 0,
            minval: 0,
            delta: 0,
        };
        proof {
            let ks = keys@;
            assert(src@.lengthlist.take(src.entries as int) == l);
            assert(idx@ == used_entries(l, src.entries as int));
            assert forall|i: int| 0 <= i < n implies {
                &&& b.code_list@[#[trigger] rank_of(ks, i)] == ks[i]
                &&& b.dec_index@[rank_of(ks, i)] == idx@[i]
                &&& b.dec_codelengths@[rank_of(ks, i)] == l[idx@[i] as int]
            } by {
                assert(places@[i] == rank_of(ks, i));
                assert(lens@[i] == src.lengthlist@[idx@[i] as int]);
            }
            assert(b.dec_maxlength == max_length(l, src.entries as int));
            assert(is_decoding_book(src@, ks, b));
        }
        Ok(b)
    }
}

impl Default for CodeBook {
    /// The book without entries.
    fn default() -> (r: Self)
        ensures
            r.dim == 0,
            r.entries == 0,
            r.used_entries == 0,
            r.static_codebook.is_none(),
            r.code_list@.len() == 0,
            r.dec_index@.len() == 0,
            r.dec_codelengths@.len() == 0,
            r.dec_firsttablen == 0,
            r.dec_firsttable@.len() == 0,
            r.dec_maxlength == 0,
            r.quantvals == 0,
            r.minval == 0,
            r.delta == 0,
    {
        CodeBook {
            dim: 0,
            entries: 0,
            used_entries: 0,
            static_codebook: None,
            code_list: Vec::new(),
            dec_index: Vec::new(),
            dec_codelengths: Vec::new(),
            dec_firsttablen: 0,
            dec_firsttable: Vec::new(),
            dec_maxlength: 0,
            quantvals: 0,
            minval: 0,
            delta: 0,
        }
    }
}

} // verus!
