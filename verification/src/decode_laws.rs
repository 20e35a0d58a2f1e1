//! Every codeword is found again: the tables of a decoding book lead from
//! the bits of a codeword back to the entry that it belongs to.

use crate::bits::{bit32, lemma_bits_determine_value, low_mask};
use crate::book::{
    advance_hi, advance_lo, decode_keys, direct_hit, direct_table, encode_words, first_table,
    hint, is_decoding_book, lemma_rank_injective, prefix_mask, rank_of, run_of, search_bounds,
    slot_of, sorts_before, used_entries, CodeBook,
};
use crate::codebook::BookSpec;
use crate::decode::{search, spec_decode_entry, spec_position};
use crate::error::Error;
use crate::huffman::{
    assign_codewords, lemma_bitreverse_bit, lemma_reversed_code_bit, reversed_code,
    sparse_words, spec_bitreverse, spec_make_words, swap_network, used_count,
};
use crate::huffman_laws::{code_fits, code_start, codes_apart, lemma_assign_well_placed, share};
use vstd::arithmetic::power2::{lemma2_to64, lemma_pow2_pos, lemma_pow2_strictly_increases, pow2};
use vstd::prelude::*;
use vstd::set_lib::{lemma_int_range, lemma_map_size, lemma_subset_equality, set_int_range};

verus! {

/// Every place of the sorted list is the place of a codeword.
pub proof fn lemma_rank_onto(keys: Seq<u32>, q: int)
    requires
        0 <= q < keys.len(),
    ensures
        exists|i: int| 0 <= i < keys.len() && #[trigger] rank_of(keys, i) == q,
{
    let n = keys.len() as int;
    let dom = set_int_range(0, n);
    let f = |i: int| rank_of(keys, i);
    let img = dom.map(f);
    lemma_int_range(0, n);
    assert(vstd::relations::injective_on(f, dom)) by {
        assert forall|a: int, b: int|
            dom.contains(a) && dom.contains(b) && #[trigger] f(a) == #[trigger] f(b) implies a == b by {
            if a != b {
                lemma_rank_injective(keys, a, b);
            }
        }
    }
    lemma_map_size(dom, img, f);
    assert(img.subset_of(dom)) by {
        assert forall|y: int| img.contains(y) implies dom.contains(y) by {
            let i = choose|i: int| dom.contains(i) && y == f(i);
            if n > 1 {
                lemma_rank_injective(keys, i, if i == 0 { 1 } else { 0 });
            } else {
                crate::book::lemma_rank_in_range(keys, i);
            }
        }
    }
    lemma_subset_equality(img, dom);
    assert(dom.contains(q));
    assert(img.contains(q));
    let i = choose|i: int| dom.contains(i) && q == f(i);
    assert(0 <= i < n && rank_of(keys, i) == q);
}

/// A codeword that sorts before another has an earlier place, and the
/// other way round.
pub proof fn lemma_rank_order(keys: Seq<u32>, i: int, j: int)
    requires
        0 <= i < keys.len(),
        0 <= j < keys.len(),
    ensures
        rank_of(keys, i) < rank_of(keys, j) <==> sorts_before(keys, i, j),
        rank_of(keys, i) == rank_of(keys, j) <==> i == j,
{
    if i != j {
        lemma_rank_injective(keys, i, j);
        lemma_rank_injective(keys, j, i);
        if !sorts_before(keys, i, j) {
            assert(sorts_before(keys, j, i));
        }
    }
}

proof fn lemma_shifted_bit(c: u32, sh: u32, t: u32)
    by (bit_vector)
    requires
        sh < 32,
        t < 32,
    ensures
        bit32(c << sh, t) == (t >= sh && bit32(c, (t - sh) as u32)),
{
}

proof fn lemma_one_shifted(sh: u32)
    ensures
        sh < 32 ==> (1u32 << sh) == pow2(sh as nat),
{
    if sh < 32 {
        lemma2_to64();
        if sh < 31 {
            lemma_pow2_strictly_increases(sh as nat, 31);
        }
        vstd::bits::lemma_u32_shl_is_mul(1, sh);
    }
}

/// The codeword with its first bit on top, as the sorted list holds it,
/// starts where the codeword starts in the tree.
pub proof fn lemma_key_is_start(c: int, length: int)
    requires
        1 <= length <= 32,
        0 <= c < pow2(length as nat),
    ensures
        spec_bitreverse(reversed_code(c, length)) as int == code_start(c, length),
        code_start(c, length) + share(length) <= 0x1_0000_0000,
        share(length) >= 1,
{
    lemma2_to64();
    let sh = (32 - length) as u32;
    let word = reversed_code(c, length);
    let key = spec_bitreverse(word);
    let p = pow2(sh as nat) as int;
    let q = pow2(length as nat) as int;
    vstd::arithmetic::power2::lemma_pow2_adds(length as nat, sh as nat);
    lemma_pow2_pos(sh as nat);
    if length < 32 {
        lemma_pow2_strictly_increases(length as nat, 32);
    }
    let c32 = c as u32;
    assert((c + 1) * p <= q * p) by (nonlinear_arith)
        requires
            c + 1 <= q,
            p > 0,
    ;
    assert((c + 1) * p == c * p + p) by (nonlinear_arith);
    assert(0 <= c * p) by (nonlinear_arith)
        requires
            0 <= c,
            0 <= p,
    ;
    assert forall|t: u32| t < 32 implies bit32(key, t) == bit32(c32 << sh, t) by {
        lemma_bitreverse_bit(word, t);
        lemma_reversed_code_bit(c, length, (31 - t) as u32);
        lemma_shifted_bit(c32, sh, t);
    }
    lemma_bits_determine_value(key, c32 << sh);
    vstd::bits::lemma_u32_shl_is_mul(c32, sh);
}

proof fn lemma_prefix_of_reverse(w: u32, len: u32)
    by (bit_vector)
    requires
        1 <= len <= 32,
    ensures
        swap_network(w & low_mask(len)) <= swap_network(w),
        len < 32 ==> swap_network(w) - swap_network(w & low_mask(len)) < (1u32 << ((32 - len) as u32)),
        len == 32 ==> swap_network(w) == swap_network(w & low_mask(len)),
{
}

/// A stream that starts with a codeword lies, with its first bit on top,
/// in the part of the tree that the codeword takes.
pub proof fn lemma_stream_in_part(c: int, length: int, w: u32)
    requires
        1 <= length <= 32,
        0 <= c < pow2(length as nat),
        w & low_mask(length as u32) == reversed_code(c, length),
    ensures
        code_start(c, length) <= spec_bitreverse(w) < code_start(c, length) + share(length),
{
    lemma2_to64();
    lemma_key_is_start(c, length);
    lemma_prefix_of_reverse(w, length as u32);
    lemma_bitreverse_bit(w, 0);
    lemma_bitreverse_bit(w & low_mask(length as u32), 0);
    lemma_one_shifted((32 - length) as u32);
}

/// The used entries come in the sparse list in the order of the entries:
/// the used entry `e` stands at the place that counts the used entries
/// before it.
pub proof fn lemma_sparse_place(l: Seq<i8>, codes: Seq<int>, k: int, e: int)
    requires
        0 <= e < k <= l.len(),
        k <= 0x7fff_ffff,
        l[e] != 0,
    ensures
        0 <= used_count(l, e) < used_count(l, k),
        used_entries(l, k).len() == used_count(l, k),
        sparse_words(l, codes, k).len() == used_count(l, k),
        used_entries(l, k)[used_count(l, e)] == e,
        sparse_words(l, codes, k)[used_count(l, e)] == reversed_code(codes[e], l[e] as int),
    decreases k,
{
    lemma_counts(l, codes, k);
    lemma_counts(l, codes, k - 1);
    lemma_counts(l, codes, e);
    if e < k - 1 {
        lemma_sparse_place(l, codes, k - 1, e);
    }
}

proof fn lemma_counts(l: Seq<i8>, codes: Seq<int>, k: int)
    requires
        0 <= k,
    ensures
        0 <= used_count(l, k) <= k,
        used_entries(l, k).len() == used_count(l, k),
        sparse_words(l, codes, k).len() == used_count(l, k),
    decreases k,
{
    if k > 0 {
        lemma_counts(l, codes, k - 1);
    }
}

/// Every place of the sparse list is the place of a used entry.
pub proof fn lemma_sparse_entry(l: Seq<i8>, k: int, u: int)
    requires
        0 <= k <= l.len(),
        k <= 0x7fff_ffff,
        0 <= u < used_count(l, k),
    ensures
        used_entries(l, k).len() == used_count(l, k),
        0 <= used_entries(l, k)[u] < k,
        l[used_entries(l, k)[u] as int] != 0,
        used_count(l, used_entries(l, k)[u] as int) == u,
    decreases k,
{
    lemma_counts(l, Seq::<int>::empty(), k);
    if k > 0 {
        lemma_counts(l, Seq::<int>::empty(), k - 1);
        if u < used_count(l, k - 1) {
            lemma_sparse_entry(l, k - 1, u);
        }
    }
}

/// Reversing the bits of a word twice gives the word.
pub proof fn lemma_bitreverse_twice(x: u32)
    ensures
        spec_bitreverse(spec_bitreverse(x)) == x,
{
    let y = spec_bitreverse(x);
    assert forall|t: u32| t < 32 implies bit32(spec_bitreverse(y), t) == bit32(x, t) by {
        lemma_bitreverse_bit(y, t);
        lemma_bitreverse_bit(x, (31 - t) as u32);
    }
    lemma_bits_determine_value(spec_bitreverse(y), x);
}

/// The codeword at the place `q` of the sorted list takes a part of the
/// tree of the size that its length gives.
pub open spec fn part_fits(codes: Seq<u32>, lens: Seq<i8>, q: int) -> bool {
    &&& 1 <= lens[q] <= 32
    &&& codes[q] + share(lens[q] as int) <= 0x1_0000_0000
    &&& share(lens[q] as int) >= 1
}

/// The part of the codeword at the place `a` lies before the codeword at
/// the later place `b`.
pub open spec fn part_before(codes: Seq<u32>, lens: Seq<i8>, a: int, b: int) -> bool {
    codes[a] + share(lens[a] as int) <= codes[b]
}

/// A stream `w` that starts with the codeword at the place `q` lies in
/// the part of that codeword.
pub open spec fn stream_in_part(codes: Seq<u32>, lens: Seq<i8>, q: int, w: u32) -> bool {
    (w & low_mask(lens[q] as u32)) == spec_bitreverse(codes[q]) ==> codes[q] <= spec_bitreverse(w)
        < codes[q] + share(lens[q] as int)
}

/// The sorted list holds codewords of which none starts with another, in
/// ascending order.
pub open spec fn sorted_apart(codes: Seq<u32>, lens: Seq<i8>) -> bool {
    &&& codes.len() == lens.len()
    &&& codes.len() <= 0x7fff_ffff
    &&& forall|q: int| 0 <= q < codes.len() ==> #[trigger] part_fits(codes, lens, q)
    &&& forall|a: int, b: int| 0 <= a < b < codes.len() ==> #[trigger] part_before(codes, lens, a, b)
    &&& forall|q: int, w: u32| 0 <= q < codes.len() ==> #[trigger] stream_in_part(codes, lens, q, w)
}

/// What is known of the used entry at a place of the sparse list.
pub open spec fn entry_facts(l: Seq<i8>, codes: Seq<int>, keys: Seq<u32>, u: int) -> bool {
    let e = used_entries(l, l.len() as int)[u] as int;
    &&& 0 <= e < l.len()
    &&& 1 <= l[e] <= 32
    &&& 0 <= codes[e] < pow2(l[e] as nat)
    &&& keys[u] as int == code_start(codes[e], l[e] as int)
    &&& spec_bitreverse(keys[u]) == reversed_code(codes[e], l[e] as int)
    &&& used_count(l, e) == u
}

/// The codewords of a decoding book, in the order of the entries, are
/// the starts of the parts that the codewords of the used entries take.
pub proof fn lemma_keys(l: Seq<i8>, keys: Seq<u32>, u: int)
    requires
        l.len() <= 0x7fff_ffff,
        used_count(l, l.len() as int) > 0,
        spec_make_words(l, used_count(l, l.len() as int)) matches Ok(words) && keys == Seq::new(
            words.len(),
            |i: int| spec_bitreverse(words[i]),
        ),
        0 <= u < used_count(l, l.len() as int),
    ensures
        keys.len() == used_count(l, l.len() as int),
        entry_facts(l, assign_codewords(l, l.len() as int).unwrap().0, keys, u),
{
    let n = l.len() as int;
    let (codes, m) = assign_codewords(l, n).unwrap();
    let words = spec_make_words(l, used_count(l, n)).unwrap();
    lemma_counts(l, codes, n);
    assert(words =~= sparse_words(l, codes, n));
    lemma_sparse_entry(l, n, u);
    let e = used_entries(l, n)[u] as int;
    lemma_sparse_place(l, codes, n, e);
    lemma_assign_well_placed(l, n);
    crate::huffman::lemma_assigned_lengths(l, n, e);
    assert(code_fits(l, codes, e));
    lemma_key_is_start(codes[e], l[e] as int);
    lemma_bitreverse_twice(reversed_code(codes[e], l[e] as int));
}

/// The sorted list of a decoding book holds codewords of which none
/// starts with another, in ascending order.
pub proof fn lemma_book_sorted_apart(src: BookSpec, keys: Seq<u32>, b: CodeBook)
    requires
        decode_keys(src) == Ok::<Seq<u32>, Error>(keys),
        is_decoding_book(src, keys, b),
        keys.len() > 0,
    ensures
        sorted_apart(b.code_list@, b.dec_codelengths@),
{
    let l = src.lengthlist.take(src.entries as int);
    let n = l.len() as int;
    let (codes, m) = assign_codewords(l, n).unwrap();
    let ks = b.code_list@;
    let ls = b.dec_codelengths@;
    let idx = used_entries(l, n);
    lemma_counts(l, codes, n);
    lemma_assign_well_placed(l, n);
    assert forall|q: int| 0 <= q < ks.len() implies #[trigger] part_fits(ks, ls, q) by {
        lemma_rank_onto(keys, q);
        let u = choose|u: int| 0 <= u < keys.len() && #[trigger] rank_of(keys, u) == q;
        lemma_keys(l, keys, u);
        let e = idx[u] as int;
        lemma_key_is_start(codes[e], l[e] as int);
    }
    assert forall|q: int, w: u32| 0 <= q < ks.len() implies #[trigger] stream_in_part(ks, ls, q, w) by {
        lemma_rank_onto(keys, q);
        let u = choose|u: int| 0 <= u < keys.len() && #[trigger] rank_of(keys, u) == q;
        lemma_keys(l, keys, u);
        let e = idx[u] as int;
        if (w & low_mask(ls[q] as u32)) == spec_bitreverse(ks[q]) {
            lemma_stream_in_part(codes[e], l[e] as int, w);
        }
    }
    assert forall|x: int, y: int| 0 <= x < y < ks.len() implies #[trigger] part_before(ks, ls, x, y) by {
        lemma_rank_onto(keys, x);
        lemma_rank_onto(keys, y);
        let u = choose|u: int| 0 <= u < keys.len() && #[trigger] rank_of(keys, u) == x;
        let v = choose|v: int| 0 <= v < keys.len() && #[trigger] rank_of(keys, v) == y;
        lemma_keys(l, keys, u);
        lemma_keys(l, keys, v);
        lemma_rank_order(keys, u, v);
        let e = idx[u] as int;
        let f = idx[v] as int;
        assert(codes_apart(l, codes, e, f));
        lemma_key_is_start(codes[e], l[e] as int);
        lemma_key_is_start(codes[f], l[f] as int);
    }
}

/// The search finds the last codeword that is not above the stream.
proof fn lemma_search(codes: Seq<u32>, lo: int, hi: int, test: u32, p: int)
    requires
        0 <= lo <= p < hi <= codes.len(),
        forall|q: int| 0 <= q <= p ==> #[trigger] codes[q] <= test,
        forall|q: int| p < q < codes.len() ==> #[trigger] codes[q] > test,
    ensures
        search(codes, lo, hi, test) == p,
    decreases hi - lo,
{
    if hi - lo > 1 {
        let half = (hi - lo) / 2;
        if codes[lo + half] > test {
            lemma_search(codes, lo, hi - half, test, p);
        } else {
            lemma_search(codes, lo + half, hi, test, p);
        }
    }
}

/// The table index `s` starts with the codeword at the place `q`, which
/// has at most `bits` bits.
pub open spec fn answers(codes: Seq<u32>, lens: Seq<i8>, bits: int, s: u32, q: int) -> bool {
    0 <= lens[q] <= bits && (s & low_mask(lens[q] as u32)) == spec_bitreverse(codes[q])
}

proof fn lemma_direct_none(codes: Seq<u32>, lens: Seq<i8>, bits: int, s: u32, k: int)
    requires
        0 <= k <= codes.len(),
        forall|q: int| 0 <= q < k ==> !#[trigger] answers(codes, lens, bits, s, q),
    ensures
        direct_hit(codes, lens, bits, s, k) == 0,
    decreases k,
{
    if k > 0 {
        assert(!answers(codes, lens, bits, s, k - 1));
        lemma_direct_none(codes, lens, bits, s, k - 1);
    }
}

proof fn lemma_direct_one(codes: Seq<u32>, lens: Seq<i8>, bits: int, s: u32, k: int, p: int)
    requires
        0 <= p < k <= codes.len(),
        k <= 0x7fff_ffff,
        answers(codes, lens, bits, s, p),
        forall|q: int| p < q < k ==> !#[trigger] answers(codes, lens, bits, s, q),
    ensures
        direct_hit(codes, lens, bits, s, k) == p + 1,
    decreases k,
{
    if k - 1 > p {
        assert(!answers(codes, lens, bits, s, k - 1));
        lemma_direct_one(codes, lens, bits, s, k - 1, p);
    }
}

proof fn lemma_advance_lo(codes: Seq<u32>, lo: int, word: u32)
    requires
        0 <= lo,
    ensures
        lo <= advance_lo(codes, lo, word),
        advance_lo(codes, lo, word) == lo || (advance_lo(codes, lo, word) < codes.len() && codes[advance_lo(
            codes,
            lo,
            word,
        )] < word),
    decreases codes.len() - lo,
{
    if lo + 1 < codes.len() && codes[lo + 1] < word {
        lemma_advance_lo(codes, lo + 1, word);
    }
}

proof fn lemma_advance_hi(codes: Seq<u32>, hi: int, word: u32, mask: u32, p: int)
    requires
        0 <= hi <= codes.len(),
        0 <= p < codes.len(),
        forall|q: int| 0 <= q <= p ==> (#[trigger] codes[q] & mask) <= word,
    ensures
        p < advance_hi(codes, hi, word, mask) <= codes.len(),
    decreases codes.len() - hi,
{
    if hi < codes.len() && word >= (codes[hi] & mask) {
        lemma_advance_hi(codes, hi + 1, word, mask, p);
    } else if hi <= p {
        assert((codes[hi] & mask) <= word);
    }
}

proof fn lemma_hi_in_range(codes: Seq<u32>, hi: int, word: u32, mask: u32)
    requires
        0 <= hi <= codes.len(),
    ensures
        hi <= advance_hi(codes, hi, word, mask) <= codes.len(),
    decreases codes.len() - hi,
{
    if hi < codes.len() && word >= (codes[hi] & mask) {
        lemma_hi_in_range(codes, hi + 1, word, mask);
    }
}

proof fn lemma_run_words(i: u32, j: u32, bits: u32)
    by (bit_vector)
    requires
        1 <= bits <= 8,
        i <= j,
        j < (1u32 << bits),
    ensures
        (i << ((32 - bits) as u32)) <= (j << ((32 - bits) as u32)),
{
}

/// The bounds of the search after any number of runs: the lower bound is
/// 0 or a place whose codeword lies below the last run.
proof fn lemma_bounds(codes: Seq<u32>, direct: Seq<u32>, bits: u32, i: int)
    requires
        1 <= bits <= 8,
        0 <= i <= (1u32 << bits),
    ensures
        ({
            let (lo, hi) = search_bounds(codes, direct, bits, i);
            &&& 0 <= lo
            &&& 0 <= hi <= codes.len()
            &&& lo == 0 || (i >= 1 && lo < codes.len() && codes[lo] < (((i - 1) as u32) << ((32
                - bits) as u32)))
        }),
    decreases i,
{
    if i > 0 {
        lemma_bounds(codes, direct, bits, i - 1);
        let (lo, hi) = search_bounds(codes, direct, bits, i - 1);
        let word = ((i - 1) as u32) << ((32 - bits) as u32);
        if i >= 2 {
            lemma_run_words((i - 2) as u32, (i - 1) as u32, bits);
        }
        if direct[slot_of((i - 1) as u32, bits) as int] == 0 {
            lemma_advance_lo(codes, lo, word);
            lemma_hi_in_range(codes, hi, word, prefix_mask(bits));
        }
    }
}

proof fn lemma_masks(w: u32, bits: u32, len: u32)
    by (bit_vector)
    requires
        1 <= bits <= 8,
        1 <= len <= 32,
    ensures
        len <= bits ==> (w & low_mask(bits)) & low_mask(len) == w & low_mask(len),
        (run_of(w & low_mask(bits), bits) << ((32 - bits) as u32)) == swap_network(w) & prefix_mask(bits),
        len > bits ==> swap_network(w & low_mask(len)) & prefix_mask(bits) == swap_network(w)
            & prefix_mask(bits),
        (w & low_mask(bits)) < (1u32 << bits),
{
}

proof fn lemma_mask_monotone(x: u32, y: u32, bits: u32)
    by (bit_vector)
    requires
        1 <= bits <= 8,
        x <= y,
    ensures
        (x & prefix_mask(bits)) <= (y & prefix_mask(bits)),
        (y & prefix_mask(bits)) <= y,
{
}

proof fn lemma_hint_fields(a: u32, b: u32, k: u32)
    by (bit_vector)
    requires
        a <= 0x7fff,
        b <= 0x7fff,
    ensures
        (0x8000_0000u32 | (a << 15) | b) & 0x8000_0000 != 0,
        ((0x8000_0000u32 | (a << 15) | b) >> 15) & 0x7fff == a,
        (0x8000_0000u32 | (a << 15) | b) & 0x7fff == b,
        k <= 0x7fff_ffff ==> k & 0x8000_0000 == 0,
{
}

/// The table and the search lead from a stream that starts with a
/// codeword to the place of that codeword in the sorted list.
pub proof fn lemma_lookup(b: CodeBook, w: u32, p: int)
    requires
        sorted_apart(b.code_list@, b.dec_codelengths@),
        1 <= b.dec_firsttablen <= 8,
        b.dec_firsttable@ == first_table(b.code_list@, b.dec_codelengths@, b.dec_firsttablen as u32),
        0 <= p < b.code_list@.len(),
        (w & low_mask(b.dec_codelengths@[p] as u32)) == spec_bitreverse(b.code_list@[p]),
    ensures
        spec_position(b, w) == Some(p),
{
    let codes = b.code_list@;
    let lens = b.dec_codelengths@;
    let n = codes.len() as int;
    let bits = b.dec_firsttablen as u32;
    let test = spec_bitreverse(w);
    let s = w & low_mask(bits);
    let len = lens[p];
    let direct = direct_table(codes, lens, bits);
    let table = first_table(codes, lens, bits);
    assert(part_fits(codes, lens, p));
    assert(stream_in_part(codes, lens, p, w));
    lemma_masks(w, bits, len as u32);
    lemma_bitreverse_bit(w, 0);
    crate::book::lemma_table_index(s, bits);
    // No other codeword is at the start of the stream.
    assert forall|q: int| 0 <= q < n && q != p implies !#[trigger] answers(codes, lens, bits as int, s, q) by {
        if answers(codes, lens, bits as int, s, q) {
            assert(part_fits(codes, lens, q));
            lemma_masks(w, bits, lens[q] as u32);
            assert(stream_in_part(codes, lens, q, w));
            if q < p {
                assert(part_before(codes, lens, q, p));
            } else {
                assert(part_before(codes, lens, p, q));
            }
        }
    }
    assert forall|q: int| 0 <= q <= p implies #[trigger] codes[q] <= test by {
        if q < p {
            assert(part_before(codes, lens, q, p));
            assert(part_fits(codes, lens, q));
        }
    }
    assert forall|q: int| p < q < n implies #[trigger] codes[q] > test by {
        assert(part_before(codes, lens, p, q));
    }
    if len <= bits {
        assert(answers(codes, lens, bits as int, s, p));
        lemma_direct_one(codes, lens, bits as int, s, n, p);
        lemma_hint_fields(0, 0, (p + 1) as u32);
        assert(table[s as int] == (p + 1) as u32);
    } else {
        assert forall|q: int| 0 <= q < n implies !#[trigger] answers(codes, lens, bits as int, s, q) by {}
        lemma_direct_none(codes, lens, bits as int, s, n);
        let r = run_of(s, bits);
        crate::book::lemma_table_slots(s, bits);
        let word = r << ((32 - bits) as u32);
        let (lo0, hi0) = search_bounds(codes, direct, bits, r as int);
        let (lo, hi) = search_bounds(codes, direct, bits, r + 1);
        lemma_bounds(codes, direct, bits, r as int);
        lemma_bounds(codes, direct, bits, r + 1);
        assert(direct[slot_of(r, bits) as int] == 0);
        assert(hi == advance_hi(codes, hi0, word, prefix_mask(bits)));
        // The run of the stream is the run of the codeword.
        lemma_bitreverse_twice(codes[p]);
        lemma_bitreverse_bit(w & low_mask(len as u32), 0);
        assert(codes[p] == swap_network(w & low_mask(len as u32)));
        lemma_mask_monotone(codes[p], codes[p], bits);
        assert(word <= codes[p]);
        assert forall|q: int| 0 <= q <= p implies (#[trigger] codes[q] & prefix_mask(bits)) <= word by {
            if q < p {
                assert(part_before(codes, lens, q, p));
                assert(part_fits(codes, lens, q));
            }
            lemma_mask_monotone(codes[q], codes[p], bits);
        }
        lemma_advance_hi(codes, hi0, word, prefix_mask(bits), p);
        assert(lo <= p) by {
            if lo > p {
                assert(part_before(codes, lens, p, lo));
            }
        }
        let a: u32 = (if lo > 0x7fff { 0x7fff } else { lo }) as u32;
        let c: u32 = (if n - hi > 0x7fff { 0x7fff } else { n - hi }) as u32;
        lemma_hint_fields(a, c, 0);
        assert(table[s as int] == hint(n, lo, hi));
        lemma_search(codes, a as int, n - c, test, p);
    }
}

proof fn lemma_single_slot(w: u32)
    by (bit_vector)
    ensures
        (w & low_mask(1)) < 2,
        (1u32 << 1u32) == 2,
        1u32 & 0x8000_0000 == 0,
{
}

/// The decoding book finds every used entry again: where a stream starts
/// with the word that the encoding book of a static codebook has for a
/// used entry, the decoding book of the same static codebook gives that
/// entry and the length of its codeword, through the table at once or
/// through the search between the bounds that the table hints at.
pub proof fn lemma_decode_finds_entry(src: BookSpec, b: CodeBook, e: int, w: u32)
    requires
        0 <= e < src.entries,
        src.lengthlist[e] != 0,
        encode_words(src) matches Ok(words) && (w & low_mask(src.lengthlist[e] as u32)) == words[e],
        decode_keys(src) matches Ok(keys) && is_decoding_book(src, keys, b),
    ensures
        spec_decode_entry(b, w) == Some((e as i32, src.lengthlist[e])),
{
    let l = src.lengthlist.take(src.entries as int);
    let n = l.len() as int;
    let keys = decode_keys(src).unwrap();
    let words = encode_words(src).unwrap();
    let (codes, m) = assign_codewords(l, n).unwrap();
    let u = used_count(l, e);
    lemma_sparse_place(l, codes, n, e);
    lemma_keys(l, keys, u);
    let p = rank_of(keys, u);
    crate::book::lemma_rank_in_range(keys, u);
    assert(b.code_list@[p] == keys[u]);
    assert(words[e] == reversed_code(codes[e], l[e] as int));
    if keys.len() == 1 && b.dec_maxlength == 1 {
        lemma_single_slot(w);
        assert(p == 0);
    } else {
        lemma_book_sorted_apart(src, keys, b);
        crate::numeric::lemma_ilog_is_bit_length(keys.len() as int);
        lemma_lookup(b, w, p);
    }
}

} // verus!
