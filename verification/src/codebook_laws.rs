//! Packing a valid codebook and loading it again gives the codebook back.

use crate::bits::value_bits;
use crate::codebook::{
    follows_in_order, has_unused, is_ordered, lemma_run_len_bound, length_field, load_header,
    load_lengths, load_mapping, load_quantization, magnitude, pack_header, pack_lengths,
    pack_mapping, pack_plain_lengths, pack_refusal, pack_runs, pack_tagged_lengths, pack_values,
    packed_book, quantlist_len, read_plain_lengths, read_runs, read_tagged_lengths, read_values,
    run_len, run_refused, spec_load, spec_pack, BookSpec, MappingSpec, BOOK_MAGIC,
};
use crate::error::Error;
use crate::fields::{fits, lemma_field_roundtrip, lemma_pattern_roundtrip};
use crate::huffman::spec_make_words;
use crate::huffman_laws::{
    kraft_sum, lemma_kraft_monotone, lemma_make_words_iff_tree_filled, lemma_share,
    lengths_in_range, share,
};
use crate::numeric::{lemma_ilog_monotone, lemma_ilog_of_small, spec_ilog};
use crate::reader::spec_read;
use vstd::arithmetic::power2::{lemma2_to64, lemma_pow2_adds, lemma_pow2_pos, lemma_pow2_unfold, pow2};
use vstd::prelude::*;

verus! {

/// Whether the loader takes the runs of the lengths from entry `i` on,
/// the first run being that of the length `length`: no length above 32 has
/// a run, and no run holds more entries than there are codewords of twice
/// its length.
pub open spec fn runs_loadable(l: Seq<i8>, i: int, length: int) -> bool
    decreases l.len() - i, 128 - length,
{
    if 0 <= i < l.len() && length <= 127 {
        proof {
            lemma_run_len_bound(l, i, length);
        }
        let num = run_len(l, i, length);
        !run_refused(num as i32, l.len() - i, length) && runs_loadable(l, i + num, length + 1)
    } else {
        true
    }
}

/// Whether a list of code lengths can stand on the wire: every length is
/// at most 32 and at least 0, or at least 1 in the forms that cannot mark
/// an entry as not used, and in the form of runs the loader takes every
/// run.
pub open spec fn lengths_valid(l: Seq<i8>) -> bool {
    &&& forall|i: int| 0 <= i < l.len() ==> 0 <= #[trigger] l[i] <= 32
    &&& is_ordered(l) ==> l[0] >= 1 && runs_loadable(l, 0, l[0] as int)
}

impl BookSpec {
    /// Whether the numbers and the quantized values of the codebook can
    /// stand on the wire as they are: the numbers fit their fields, the
    /// lists are as long as the numbers say, and what the map type does
    /// not use is zero or empty.
    pub open spec fn fits_wire(self) -> bool {
        &&& 0 <= self.dim <= 0xffff
        &&& 0 <= self.entries <= 0xff_ffff
        &&& spec_ilog(self.dim as int) + spec_ilog(self.entries as int) <= 24
        &&& self.lengthlist.len() == self.entries
        &&& 0 <= self.maptype <= 2
        &&& self.maptype == 0 ==> {
            &&& self.q_min == 0
            &&& self.q_delta == 0
            &&& self.q_quant == 0
            &&& !self.q_sequencep
            &&& self.quantlist.len() == 0
        }
        &&& self.maptype != 0 ==> {
            &&& 1 <= self.q_quant <= 16
            &&& self.quantlist.len() >= 1
            &&& self.quantlist.len() == quantlist_len(self.maptype, self.dim, self.entries)
            &&& forall|i: int|
                0 <= i < self.quantlist.len() ==> fits(
                    (#[trigger] self.quantlist[i]) as int,
                    self.q_quant as int,
                )
        }
    }

    /// Whether the codebook can stand on the wire as it is: its numbers
    /// and quantized values can, and so can its code lengths.
    pub open spec fn is_valid(self) -> bool {
        self.fits_wire() && lengths_valid(self.lengthlist)
    }
}

proof fn lemma_header_roundtrip(dim: i32, entries: i32, rest: Seq<bool>)
    requires
        0 <= dim <= 0xffff,
        0 <= entries <= 0xff_ffff,
        spec_ilog(dim as int) + spec_ilog(entries as int) <= 24,
    ensures
        load_header(pack_header(dim, entries) + rest) == Ok::<((i32, i32), Seq<bool>), Error>(
            ((dim, entries), rest),
        ),
{
    lemma2_to64();
    let s3 = rest;
    let s2 = value_bits(entries as u32, 24) + s3;
    let s1 = value_bits(dim as u32, 16) + s2;
    let s0 = value_bits(BOOK_MAGIC as u32, 24) + s1;
    assert(pack_header(dim, entries) + rest =~= s0);
    lemma_ilog_of_small(BOOK_MAGIC as int, 24);
    lemma_ilog_of_small(dim as int, 16);
    lemma_ilog_of_small(entries as int, 24);
    lemma_field_roundtrip(BOOK_MAGIC, 24, s1);
    lemma_field_roundtrip(dim, 16, s2);
    lemma_field_roundtrip(entries, 24, s3);
}

proof fn lemma_length_field_roundtrip(length: i8, rest: Seq<bool>)
    requires
        1 <= length <= 32,
    ensures
        spec_read(length_field(length) + rest, 5) == Ok::<(i32, Seq<bool>), Error>(
            ((length - 1) as i32, rest),
        ),
{
    lemma2_to64();
    lemma_ilog_of_small(length - 1, 5);
    lemma_field_roundtrip((length - 1) as i32, 5, rest);
}

proof fn lemma_flag_roundtrip(flag: i32, rest: Seq<bool>)
    requires
        0 <= flag <= 1,
    ensures
        spec_read(value_bits(flag as u32, 1) + rest, 1) == Ok::<(i32, Seq<bool>), Error>((flag, rest)),
{
    lemma2_to64();
    lemma_ilog_of_small(flag as int, 1);
    lemma_field_roundtrip(flag, 1, rest);
}

proof fn lemma_plain_roundtrip(l: Seq<i8>, i: int, rest: Seq<bool>)
    requires
        0 <= i <= l.len(),
        forall|k: int| 0 <= k < l.len() ==> 1 <= #[trigger] l[k] <= 32,
    ensures
        read_plain_lengths(pack_plain_lengths(l, i) + rest, (l.len() - i) as nat) == Ok::<
            (Seq<i8>, Seq<bool>),
            Error,
        >((l.skip(i), rest)),
    decreases l.len() - i,
{
    if i < l.len() {
        let after = pack_plain_lengths(l, i + 1) + rest;
        lemma_plain_roundtrip(l, i + 1, rest);
        lemma_length_field_roundtrip(l[i], after);
        assert(pack_plain_lengths(l, i) + rest =~= length_field(l[i]) + after);
        assert(seq![((l[i] - 1) as i32 + 1) as i8] + l.skip(i + 1) =~= l.skip(i));
    } else {
        assert(pack_plain_lengths(l, i) + rest =~= rest);
        assert(l.skip(i) =~= Seq::<i8>::empty());
    }
}

proof fn lemma_tagged_roundtrip(l: Seq<i8>, i: int, rest: Seq<bool>)
    requires
        0 <= i <= l.len(),
        forall|k: int| 0 <= k < l.len() ==> 0 <= #[trigger] l[k] <= 32,
    ensures
        read_tagged_lengths(pack_tagged_lengths(l, i) + rest, (l.len() - i) as nat) == Ok::<
            (Seq<i8>, Seq<bool>),
            Error,
        >((l.skip(i), rest)),
    decreases l.len() - i,
{
    if i < l.len() {
        let after = pack_tagged_lengths(l, i + 1) + rest;
        lemma_tagged_roundtrip(l, i + 1, rest);
        if l[i] == 0 {
            lemma_flag_roundtrip(0, after);
            assert(pack_tagged_lengths(l, i) + rest =~= value_bits(0, 1) + after);
            assert(seq![0i8] + l.skip(i + 1) =~= l.skip(i));
        } else {
            let inner = length_field(l[i]) + after;
            lemma_flag_roundtrip(1, inner);
            lemma_length_field_roundtrip(l[i], after);
            assert(pack_tagged_lengths(l, i) + rest =~= value_bits(1, 1) + inner);
            assert(seq![((l[i] - 1) as i32 + 1) as i8] + l.skip(i + 1) =~= l.skip(i));
        }
    } else {
        assert(pack_tagged_lengths(l, i) + rest =~= rest);
        assert(l.skip(i) =~= Seq::<i8>::empty());
    }
}

/// The entries of a run have the length of the run, and the entry behind
/// the run has another length.
proof fn lemma_run_values(l: Seq<i8>, i: int, length: int)
    requires
        0 <= i <= l.len(),
    ensures
        forall|k: int| i <= k < i + run_len(l, i, length) ==> #[trigger] l[k] == length,
        i + run_len(l, i, length) < l.len() ==> l[i + run_len(l, i, length)] != length,
    decreases l.len() - i,
{
    if i < l.len() && l[i] == length {
        lemma_run_values(l, i + 1, length);
    }
}

proof fn lemma_ordered_from(l: Seq<i8>, a: int, b: int)
    requires
        is_ordered(l),
        0 <= a <= b < l.len(),
    ensures
        l[a] <= l[b],
    decreases b - a,
{
    if a < b {
        lemma_ordered_from(l, a, b - 1);
        assert(follows_in_order(l, b));
    }
}

proof fn lemma_runs_roundtrip(l: Seq<i8>, i: int, length: int, rest: Seq<bool>)
    requires
        is_ordered(l),
        l.len() <= 0xff_ffff,
        0 <= i <= l.len(),
        1 <= length,
        i < l.len() ==> l[i] >= length,
        forall|k: int| 0 <= k < l.len() ==> 0 <= #[trigger] l[k] <= 32,
        runs_loadable(l, i, length),
    ensures
        read_runs(pack_runs(l, i, length) + rest, l.len() as int, i, length) == Ok::<
            (Seq<i8>, Seq<bool>),
            Error,
        >((l.skip(i), rest)),
    decreases l.len() - i, 128 - length,
{
    if i < l.len() {
        let n = l.len() as int;
        let num = run_len(l, i, length);
        lemma_run_len_bound(l, i, length);
        lemma_run_values(l, i, length);
        let j = i + num;
        if j < n {
            lemma_ordered_from(l, i, j);
            if num > 0 {
                lemma_ordered_from(l, j - 1, j);
            }
        }
        let after = pack_runs(l, j, length + 1) + rest;
        lemma_runs_roundtrip(l, j, length + 1, rest);
        let w = spec_ilog(n - i);
        lemma2_to64();
        lemma_ilog_of_small(n - i, 24);
        lemma_ilog_monotone(num, n - i);
        crate::numeric::lemma_ilog_is_bit_length(n - i);
        lemma_field_roundtrip(num as i32, w, after);
        assert(pack_runs(l, i, length) + rest =~= value_bits(num as u32, w as nat) + after);
        assert(Seq::new(num as nat, |k: int| length as i8) + l.skip(j) =~= l.skip(i));
    } else {
        assert(pack_runs(l, i, length) + rest =~= rest);
        assert(l.skip(i) =~= Seq::<i8>::empty());
    }
}

proof fn lemma_lengths_roundtrip(l: Seq<i8>, rest: Seq<bool>)
    requires
        l.len() <= 0xff_ffff,
        lengths_valid(l),
    ensures
        load_lengths(pack_lengths(l) + rest, l.len() as int) == Ok::<(Seq<i8>, Seq<bool>), Error>(
            (l, rest),
        ),
{
    assert(l.skip(0) =~= l);
    if is_ordered(l) {
        let runs = pack_runs(l, 0, l[0] as int) + rest;
        let inner = length_field(l[0]) + runs;
        assert(pack_lengths(l) + rest =~= value_bits(1, 1) + inner);
        lemma_flag_roundtrip(1, inner);
        lemma_length_field_roundtrip(l[0], runs);
        lemma_runs_roundtrip(l, 0, l[0] as int, rest);
    } else if has_unused(l) {
        let list = pack_tagged_lengths(l, 0) + rest;
        let inner = value_bits(1, 1) + list;
        assert(pack_lengths(l) + rest =~= value_bits(0, 1) + inner);
        lemma_flag_roundtrip(0, inner);
        lemma_flag_roundtrip(1, list);
        lemma_tagged_roundtrip(l, 0, rest);
    } else {
        let list = pack_plain_lengths(l, 0) + rest;
        let inner = value_bits(0, 1) + list;
        assert(pack_lengths(l) + rest =~= value_bits(0, 1) + inner);
        lemma_flag_roundtrip(0, inner);
        lemma_flag_roundtrip(0, list);
        assert forall|k: int| 0 <= k < l.len() implies 1 <= #[trigger] l[k] <= 32 by {
            if l[k] == 0 {
                assert(has_unused(l));
            }
        }
        lemma_plain_roundtrip(l, 0, rest);
    }
}

proof fn lemma_values_roundtrip(q: Seq<i32>, i: int, w: int, rest: Seq<bool>)
    requires
        0 <= i <= q.len(),
        1 <= w <= 16,
        forall|k: int| 0 <= k < q.len() ==> fits((#[trigger] q[k]) as int, w),
    ensures
        read_values(pack_values(q, i, q.len() as int, w) + rest, (q.len() - i) as nat, w) == Ok::<
            (Seq<i32>, Seq<bool>),
            Error,
        >((q.skip(i), rest)),
    decreases q.len() - i,
{
    let n = q.len() as int;
    if i < n {
        let after = pack_values(q, i + 1, n, w) + rest;
        lemma_values_roundtrip(q, i + 1, w, rest);
        assert(fits(q[i] as int, w));
        assert(magnitude(q[i]) == q[i] as u32);
        lemma_field_roundtrip(q[i], w, after);
        assert(pack_values(q, i, n, w) + rest =~= value_bits(magnitude(q[i]), w as nat) + after);
        assert(seq![q[i]] + q.skip(i + 1) =~= q.skip(i));
    } else {
        assert(pack_values(q, i, n, w) + rest =~= rest);
        assert(q.skip(i) =~= Seq::<i32>::empty());
    }
}

proof fn lemma_mapping_roundtrip(b: BookSpec, rest: Seq<bool>)
    requires
        b.is_valid(),
    ensures
        load_mapping(pack_mapping(b) + rest, b.dim, b.entries) == Ok::<(MappingSpec, Seq<bool>), Error>(
            (
                MappingSpec {
                    maptype: b.maptype,
                    q_min: b.q_min,
                    q_delta: b.q_delta,
                    q_quant: b.q_quant,
                    q_sequencep: b.q_sequencep,
                    quantlist: b.quantlist,
                },
                rest,
            ),
        ),
{
    lemma2_to64();
    lemma_ilog_of_small(b.maptype as int, 4);
    if b.maptype == 0 {
        assert(pack_mapping(b) + rest =~= value_bits(0, 4) + rest);
        lemma_field_roundtrip(0, 4, rest);
        assert(b.quantlist =~= Seq::<i32>::empty());
    } else {
        let n = quantlist_len(b.maptype, b.dim, b.entries);
        let flag: i32 = if b.q_sequencep {
            1
        } else {
            0
        };
        let s5 = rest;
        let s4 = pack_values(b.quantlist, 0, n, b.q_quant as int) + s5;
        let s3 = value_bits(flag as u32, 1) + s4;
        let s2 = value_bits((b.q_quant - 1) as u32, 4) + s3;
        let s1 = value_bits(b.q_delta, 32) + s2;
        let s0 = value_bits(b.q_min, 32) + s1;
        assert(pack_mapping(b) + rest =~= value_bits(b.maptype as u32, 4) + s0);
        lemma_field_roundtrip(b.maptype, 4, s0);
        lemma_pattern_roundtrip(b.q_min, s1);
        lemma_pattern_roundtrip(b.q_delta, s2);
        lemma_ilog_of_small(b.q_quant - 1, 4);
        lemma_field_roundtrip((b.q_quant - 1) as i32, 4, s3);
        lemma_flag_roundtrip(flag, s4);
        lemma_values_roundtrip(b.quantlist, 0, b.q_quant as int, rest);
        assert(b.quantlist.skip(0) =~= b.quantlist);
        assert(load_quantization(s0, b.maptype, b.dim, b.entries) == Ok::<
            (MappingSpec, Seq<bool>),
            Error,
        >(
            (
                MappingSpec {
                    maptype: b.maptype,
                    q_min: b.q_min,
                    q_delta: b.q_delta,
                    q_quant: b.q_quant,
                    q_sequencep: b.q_sequencep,
                    quantlist: b.quantlist,
                },
                rest,
            ),
        ));
    }
}

/// Packing and loading are inverse on valid codebooks: a valid codebook
/// can be packed, and a stream that starts with its packed form loads as
/// the same codebook, the loader consuming exactly the bits that packing
/// produced.
pub proof fn lemma_pack_load_roundtrip(b: BookSpec, rest: Seq<bool>)
    requires
        b.is_valid(),
    ensures
        spec_pack(b) == Ok::<Seq<bool>, Error>(packed_book(b)),
        spec_load(packed_book(b) + rest) == Ok::<(BookSpec, Seq<bool>), Error>((b, rest)),
{
    reveal(spec_load);
    assert(pack_refusal(b).is_none());
    let s2 = pack_mapping(b) + rest;
    let s1 = pack_lengths(b.lengthlist) + s2;
    assert(packed_book(b) + rest =~= pack_header(b.dim, b.entries) + s1);
    lemma_header_roundtrip(b.dim, b.entries, s1);
    lemma_lengths_roundtrip(b.lengthlist, s2);
    lemma_mapping_roundtrip(b, rest);
}

/// The entries of a run have its length, and the entry behind a run has
/// another.
proof fn lemma_run_entries(l: Seq<i8>, i: int, length: int)
    requires
        0 <= i <= l.len(),
    ensures
        forall|k: int| i <= k < i + run_len(l, i, length) ==> #[trigger] l[k] == length,
        i + run_len(l, i, length) < l.len() ==> l[i + run_len(l, i, length)] != length,
    decreases l.len() - i,
{
    if i < l.len() && l[i] == length {
        lemma_run_entries(l, i + 1, length);
    }
}

/// The space that is taken grows from entry `a` to entry `b`.
proof fn lemma_kraft_grows(l: Seq<i8>, a: int, b: int)
    requires
        0 <= a <= b,
    ensures
        0 <= kraft_sum(l, a) <= kraft_sum(l, b),
    decreases b - a,
{
    if a < b {
        lemma_kraft_grows(l, a, b - 1);
        lemma_kraft_monotone(l, b);
    } else if a >= 1 {
        lemma_kraft_monotone(l, a);
    }
}

/// A run of codewords takes the share of its length for each of its
/// entries.
proof fn lemma_kraft_of_run(l: Seq<i8>, i: int, length: int)
    requires
        0 <= i <= l.len(),
        1 <= length <= 32,
    ensures
        kraft_sum(l, i + run_len(l, i, length)) == kraft_sum(l, i) + run_len(l, i, length) * share(length),
    decreases l.len() - i,
{
    if i < l.len() && l[i] == length {
        lemma_kraft_of_run(l, i + 1, length);
        let rest = run_len(l, i + 1, length);
        let s = share(length);
        assert(kraft_sum(l, i + 1) == kraft_sum(l, i) + s);
        assert((1 + rest) * s == s + rest * s) by (nonlinear_arith);
    } else {
        assert(run_len(l, i, length) == 0);
    }
}

/// In a tree that is not overfull, a run is one that the loader takes:
/// it has no more entries than there are codewords of its length.
proof fn lemma_run_of_tree_fits(l: Seq<i8>, i: int, length: int)
    requires
        0 <= i <= l.len() <= 0x7fff_ffff,
        1 <= length <= 32,
        kraft_sum(l, l.len() as int) <= share(0),
    ensures
        !run_refused(run_len(l, i, length) as i32, l.len() - i, length),
{
    let num = run_len(l, i, length);
    lemma_run_len_bound(l, i, length);
    lemma_kraft_of_run(l, i, length);
    lemma_kraft_grows(l, 0, i);
    lemma_kraft_grows(l, i + num, l.len() as int);
    lemma_share(length);
    lemma_share(0);
    lemma2_to64();
    let s = share(length);
    let whole = pow2(length as nat) as int;
    assert(share(0) == whole * s) by {
        lemma_pow2_adds(length as nat, (32 - length) as nat);
    }
    assert(num <= whole) by (nonlinear_arith)
        requires
            num * s <= whole * s,
            s >= 1,
    ;
    if num > 0 {
        let half = pow2((length - 1) as nat) as int;
        lemma_pow2_unfold(length as nat);
        lemma_pow2_pos((length - 1) as nat);
        vstd::bits::lemma_u32_shr_is_div((num - 1) as u32, (length - 1) as u32);
        assert((num - 1) / half <= 1) by (nonlinear_arith)
            requires
                0 <= num - 1 < 2 * half,
                half > 0,
        ;
    }
}

/// The runs of an ordered list of code lengths that form a tree are runs
/// that the loader takes.
proof fn lemma_runs_of_tree(l: Seq<i8>, i: int, length: int)
    requires
        is_ordered(l),
        l.len() <= 0x7fff_ffff,
        lengths_in_range(l, l.len() as int),
        kraft_sum(l, l.len() as int) <= share(0),
        0 <= i <= l.len(),
        1 <= length,
        i < l.len() ==> l[i] >= length,
    ensures
        runs_loadable(l, i, length),
    decreases l.len() - i, 128 - length,
{
    if i < l.len() && length <= 127 {
        assert(0 <= l[i] <= 32);
        let num = run_len(l, i, length);
        lemma_run_len_bound(l, i, length);
        lemma_run_entries(l, i, length);
        lemma_run_of_tree_fits(l, i, length);
        if i + num < l.len() {
            if num > 0 {
                assert(follows_in_order(l, i + num));
                assert(l[i + num - 1] == length);
            }
        }
        lemma_runs_of_tree(l, i + num, length + 1);
    }
}

/// Code lengths that form a tree can stand on the wire: lengths between 0
/// and 32 whose codewords take no more than the tree holds are valid, but
/// for the list of a single entry that is not used, which the form of
/// runs cannot hold.
pub proof fn lemma_tree_lengths_valid(l: Seq<i8>)
    requires
        l.len() <= 0x7fff_ffff,
        lengths_in_range(l, l.len() as int),
        kraft_sum(l, l.len() as int) <= share(0),
        !(l.len() == 1 && l[0] == 0),
    ensures
        lengths_valid(l),
{
    if is_ordered(l) {
        if l.len() >= 2 {
            assert(follows_in_order(l, 1));
        }
        assert(0 <= l[0] <= 32);
        lemma_runs_of_tree(l, 0, l[0] as int);
    }
}

/// Packing and loading are inverse on the codebooks whose code lengths
/// form a tree: such a codebook of at least one entry and one dimension
/// can be packed, and a stream that starts with its packed form loads as
/// the same codebook, the loader consuming exactly the bits that packing
/// produced. The codebook of a single entry that is not used is left
/// out: the form of runs, which a list of one entry is packed in, cannot
/// hold it.
pub proof fn lemma_tree_book_roundtrip(b: BookSpec, rest: Seq<bool>)
    requires
        b.entries >= 1,
        b.dim >= 1,
        b.fits_wire(),
        spec_make_words(b.lengthlist, 0).is_ok(),
        !(b.entries == 1 && b.lengthlist[0] == 0),
    ensures
        spec_pack(b) == Ok::<Seq<bool>, Error>(packed_book(b)),
        spec_load(packed_book(b) + rest) == Ok::<(BookSpec, Seq<bool>), Error>((b, rest)),
{
    lemma_make_words_iff_tree_filled(b.lengthlist, 0);
    lemma_share(0);
    lemma_share(1);
    lemma_tree_lengths_valid(b.lengthlist);
    lemma_pack_load_roundtrip(b, rest);
}

} // verus!
