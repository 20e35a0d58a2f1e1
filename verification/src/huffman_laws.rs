//! What the filling of the tree guarantees: the space that is left in the
//! tree is what the codewords have not taken, and the words are made
//! exactly when the code lengths fill the tree.

use crate::huffman::{
    assign_codewords, bounded_at, break_depth, can_claim, even_at, even_between,
    lemma_break_depth, lemma_claim_keeps_shape, lemma_even_chain, lemma_even_chain_below,
    lemma_fresh_markers_ok, lemma_raise_markers, lemma_zero_chain, lone_codeword,
    markers_after_claim, markers_ok, prune_markers, raised, shaped_at, spec_make_words,
    tree_incomplete, used_count,
};
use vstd::arithmetic::power2::{
    lemma2_to64, lemma_pow2_pos, lemma_pow2_strictly_increases, lemma_pow2_unfold, pow2,
};
use vstd::prelude::*;

verus! {

/// The part of the tree that a codeword of length `j` takes, the whole
/// tree being two to the power 32.
pub open spec fn share(j: int) -> int {
    pow2((32 - j) as nat) as int
}

/// A codeword of length `j` is free and lies under no shorter free
/// codeword: the marker of that length ends in a one bit.
pub open spec fn free_at(m: Seq<int>, j: int) -> bool {
    m[j] % 2 == 1
}

/// The shares of the free codewords of the lengths `a` to `b`.
pub open spec fn free_between(m: Seq<int>, a: int, b: int) -> int
    decreases b - a + 1,
{
    if a > b {
        0
    } else {
        free_between(m, a, b - 1) + if free_at(m, b) {
            share(b)
        } else {
            0
        }
    }
}

/// The space that is left in the tree: all of it before a codeword is
/// claimed, and the shares of the free codewords after that.
pub open spec fn free_space(m: Seq<int>) -> int {
    if m[1] == 0 {
        share(0)
    } else {
        free_between(m, 1, 32)
    }
}

/// The space that the used ones of the first `k` entries take.
pub open spec fn kraft_sum(l: Seq<i8>, k: int) -> int
    decreases k,
{
    if k <= 0 {
        0
    } else {
        kraft_sum(l, k - 1) + if l[k - 1] != 0 {
            share(l[k - 1] as int)
        } else {
            0
        }
    }
}

/// Every one of the first `k` lengths is between 0 and 32.
pub open spec fn lengths_in_range(l: Seq<i8>, k: int) -> bool {
    forall|i: int| 0 <= i < k ==> 0 <= #[trigger] l[i] <= 32
}

/// The shares of the lengths: each is at least one, a length takes twice
/// what the next takes, and the whole tree is the share of the length 0.
pub proof fn lemma_share(j: int)
    requires
        0 <= j <= 32,
    ensures
        share(j) >= 1,
        j < 32 ==> share(j) == 2 * share(j + 1),
        share(32) == 1,
        share(0) == 0x1_0000_0000,
{
    lemma2_to64();
    lemma_pow2_pos((32 - j) as nat);
    if j < 32 {
        lemma_pow2_unfold((32 - j) as nat);
    }
}

/// Splitting the range of lengths.
proof fn lemma_free_split(m: Seq<int>, a: int, mid: int, b: int)
    requires
        a <= mid + 1,
        mid <= b,
    ensures
        free_between(m, a, b) == free_between(m, a, mid) + free_between(m, mid + 1, b),
    decreases b - mid,
{
    if mid < b {
        lemma_free_split(m, a, mid, b - 1);
    }
}

/// Markers with the same last bits have the same free codewords.
proof fn lemma_free_same(m: Seq<int>, r: Seq<int>, a: int, b: int)
    requires
        forall|i: int| a <= i <= b ==> #[trigger] free_at(m, i) == free_at(r, i),
    ensures
        free_between(m, a, b) == free_between(r, a, b),
    decreases b - a + 1,
{
    if a <= b {
        assert(free_at(m, b) == free_at(r, b));
        lemma_free_same(m, r, a, b - 1);
    }
}

/// Where no codeword of the lengths `a` to `b` is free, they hold no
/// space.
proof fn lemma_free_none(m: Seq<int>, a: int, b: int)
    requires
        forall|i: int| a <= i <= b ==> !#[trigger] free_at(m, i),
    ensures
        free_between(m, a, b) == 0,
    decreases b - a + 1,
{
    if a <= b {
        assert(!free_at(m, b));
        lemma_free_none(m, a, b - 1);
    }
}

/// Where a codeword of every length from `a` to `b` is free, they hold
/// what a codeword one shorter than `a` holds, less the share of `b`.
proof fn lemma_free_all(m: Seq<int>, a: int, b: int)
    requires
        1 <= a,
        a <= b + 1,
        b <= 32,
        forall|i: int| a <= i <= b ==> #[trigger] free_at(m, i),
    ensures
        free_between(m, a, b) == share(a - 1) - share(b),
    decreases b - a + 1,
{
    if a <= b {
        assert(free_at(m, b));
        lemma_free_all(m, a, b - 1);
        lemma_share(b - 1);
    }
}

/// The free codewords of the lengths from `a` on hold less than a
/// codeword one shorter than `a`.
proof fn lemma_free_bound(m: Seq<int>, a: int, b: int)
    requires
        1 <= a,
        a <= b + 1,
        b <= 32,
    ensures
        0 <= free_between(m, a, b) <= share(a - 1) - share(b),
    decreases b - a + 1,
{
    if a <= b {
        lemma_free_bound(m, a, b - 1);
        lemma_share(b - 1);
        lemma_share(b);
    }
}

/// Pruning leaves the markers below `j` as they are.
proof fn lemma_prune_below(s: Seq<int>, chain: int, j: int, i: int)
    requires
        s.len() == 33,
        0 <= i < j,
        1 <= j,
    ensures
        prune_markers(s, chain, j)[i] == s[i],
        prune_markers(s, chain, j).len() == 33,
    decreases 33 - j,
{
    if j < 33 && s[j] / 2 == chain {
        lemma_prune_below(s.update(j, 2 * s[j - 1]), s[j], j + 1, i);
    }
}

/// Pruning leaves the last bits of the markers from `j` on as they are.
proof fn lemma_prune_parity(m: Seq<int>, s: Seq<int>, j: int, i: int)
    requires
        markers_ok(m),
        2 <= j <= 33,
        s.len() == 33,
        forall|k: int| j <= k < 33 ==> #[trigger] s[k] == m[k],
        j <= i <= 32,
    ensures
        free_at(prune_markers(s, m[j - 1], j), i) == free_at(m, i),
    decreases 33 - j,
{
    if j < 33 {
        assert(shaped_at(m, j));
        assert(s[j] == m[j]);
        if s[j] / 2 == m[j - 1] {
            let s2 = s.update(j, 2 * s[j - 1]);
            assert(m[j] % 2 == 0);
            if i == j {
                lemma_prune_below(s2, s[j], j + 1, i);
            } else {
                assert forall|k: int| j + 1 <= k < 33 implies #[trigger] s2[k] == m[k] by {
                    assert(s[k] == m[k]);
                }
                lemma_prune_parity(m, s2, j + 1, i);
            }
        } else {
            assert(s[i] == m[i]);
        }
    }
}

/// Which codewords are free after a codeword of length `top` is claimed:
/// the one that the claimed codeword was taken from is not free any more,
/// one of every length below it down to the claimed length is free, and
/// the others are as before.
proof fn lemma_free_after_claim(m: Seq<int>, top: int, i: int)
    requires
        markers_ok(m),
        1 <= top <= 32,
        can_claim(m, top),
        1 <= i <= 32,
    ensures
        free_at(markers_after_claim(m, top), i) == (if break_depth(m, top) < i <= top {
            true
        } else if i == break_depth(m, top) {
            false
        } else {
            free_at(m, i)
        }),
        markers_after_claim(m, top).len() == 33,
{
    let d = break_depth(m, top);
    let r = raised(m, top);
    lemma_raise_markers(m, top);
    lemma_break_depth(m, top);
    if i <= top {
        lemma_prune_below(r, m[top], top + 1, i);
        if d < i {
            assert(even_at(m, i));
        }
        if i == d && d == 1 {
            assert(bounded_at(m, 1));
            lemma2_to64();
        }
    } else {
        lemma_prune_below(r, m[top], top + 1, 0);
        lemma_prune_parity(m, r, top + 1, i);
    }
}

/// Before a codeword is claimed every marker is zero.
proof fn lemma_untouched(m: Seq<int>, i: int)
    requires
        markers_ok(m),
        m[1] == 0,
        1 <= i <= 32,
    ensures
        m[i] == 0,
    decreases i,
{
    if i > 1 {
        lemma_untouched(m, i - 1);
        assert(shaped_at(m, i));
        assert(bounded_at(m, i));
    }
}

/// A codeword of length `top` is left exactly if the space that is left
/// is at least its share.
pub proof fn lemma_can_claim_iff_space(m: Seq<int>, top: int)
    requires
        markers_ok(m),
        1 <= top <= 32,
    ensures
        can_claim(m, top) <==> free_space(m) >= share(top),
        0 <= free_space(m) <= share(0),
{
    lemma2_to64();
    lemma_share(top);
    lemma_share(0);
    lemma_free_bound(m, 1, 32);
    lemma_share(32);
    let d = break_depth(m, top);
    lemma_break_depth(m, top);
    assert(bounded_at(m, top));
    assert(bounded_at(m, 1));
    if m[1] == 0 {
        lemma_untouched(m, top);
        lemma_pow2_pos(top as nat);
    } else if d >= 1 {
        // A free codeword of a length up to `top` is left.
        lemma_free_split(m, 1, d, 32);
        lemma_free_split(m, 1, d - 1, d);
        lemma_free_bound(m, 1, d - 1);
        lemma_free_bound(m, d + 1, 32);
        assert(free_between(m, d, d) == share(d)) by {
            assert(free_between(m, d, d - 1) == 0);
        }
        lemma_share_monotone(d, top);
        lemma_even_chain(m, d, top);
        assert(bounded_at(m, d));
        lemma_odd_chain_claimable(m, d, top);
    } else {
        // No codeword of a length up to `top` is free, and the tree is in use.
        assert(even_between(m, 2, top)) by {
            assert forall|k: int| 2 <= k <= top implies #[trigger] even_at(m, k) by {
                assert(even_at(m, k));
            }
        }
        lemma_even_chain(m, 1, top);
        assert(even_at(m, 1));
        assert(m[1] == 2);
        lemma_pow2_unfold(top as nat);
        assert(m[top] == pow2(top as nat)) by {
            let p = pow2((top - 1) as nat) as int;
            assert(p * 2 == 2 * p);
        }
        lemma_free_split(m, 1, top, 32);
        assert(free_between(m, 1, top) == 0) by {
            assert forall|k: int| 1 <= k <= top implies !#[trigger] free_at(m, k) by {
                assert(even_at(m, k));
            }
            lemma_free_none(m, 1, top);
        }
        lemma_free_bound(m, top + 1, 32);
    }
}

proof fn lemma_share_monotone(a: int, b: int)
    requires
        0 <= a <= b <= 32,
    ensures
        share(a) >= share(b),
{
    if a < b {
        lemma_pow2_strictly_increases((32 - b) as nat, (32 - a) as nat);
    }
}

/// A marker that ends in a one bit, with zeros behind it, is a codeword
/// that is left.
proof fn lemma_odd_chain_claimable(m: Seq<int>, d: int, top: int)
    requires
        markers_ok(m),
        1 <= d <= top <= 32,
        m[d] % 2 == 1,
        m[top] == pow2((top - d) as nat) * m[d],
    ensures
        can_claim(m, top),
{
    assert(bounded_at(m, d));
    let p = pow2((top - d) as nat) as int;
    let q = pow2(d as nat) as int;
    let x = m[d];
    lemma_pow2_unfold(d as nat);
    assert(x < q) by {
        // `q` is even and `x` is odd.
        assert(q == 2 * pow2((d - 1) as nat));
    }
    vstd::arithmetic::power2::lemma_pow2_adds((top - d) as nat, d as nat);
    lemma_pow2_pos((top - d) as nat);
    assert(p * x < p * q) by (nonlinear_arith)
        requires
            x < q,
            p > 0,
    ;
}

/// Claiming a codeword takes its share from the space that is left.
pub proof fn lemma_claim_takes_share(m: Seq<int>, top: int)
    requires
        markers_ok(m),
        1 <= top <= 32,
        can_claim(m, top),
    ensures
        free_space(markers_after_claim(m, top)) == free_space(m) - share(top),
        markers_ok(markers_after_claim(m, top)),
{
    lemma2_to64();
    let r = markers_after_claim(m, top);
    let d = break_depth(m, top);
    lemma_claim_keeps_shape(m, top);
    lemma_break_depth(m, top);
    lemma_share(top);
    assert forall|i: int| 1 <= i <= 32 implies #[trigger] free_at(r, i) == (if d < i <= top {
        true
    } else if i == d {
        false
    } else {
        free_at(m, i)
    }) by {
        lemma_free_after_claim(m, top, i);
    }
    lemma_free_after_claim(m, top, 1);
    // The markers behind the claimed length keep their free codewords.
    lemma_free_split(m, 1, top, 32);
    lemma_free_split(r, 1, top, 32);
    lemma_free_same(m, r, top + 1, 32);
    // A codeword of every length below the old one down to the claimed length is free.
    lemma_free_split(r, 1, d, top);
    lemma_free_split(m, 1, d, top);
    lemma_free_all(r, d + 1, top);
    assert(free_between(m, d + 1, top) == 0) by {
        assert forall|k: int| d + 1 <= k <= top implies !#[trigger] free_at(m, k) by {
            assert(even_at(m, k));
        }
        lemma_free_none(m, d + 1, top);
    }
    assert(r[1] != 0) by {
        if d == 1 {
            lemma_prune_below_first(m, top);
        } else if d >= 2 {
            lemma_raise_markers(m, top);
            lemma_prune_below(raised(m, top), m[top], top + 1, 1);
            assert(r[1] == m[1]);
            if m[1] == 0 {
                lemma_untouched(m, d);
            }
        } else {
            assert(free_at(r, 1));
        }
    }
    if d == 0 {
        // The tree was not in use.
        lemma_zero_chain(m, top, 1);
        assert(free_between(r, 1, 0) == 0);
        assert(free_between(m, top + 1, 32) == 0) by {
            assert forall|k: int| top + 1 <= k <= 32 implies !#[trigger] free_at(m, k) by {
                lemma_untouched(m, k);
            }
            lemma_free_none(m, top + 1, 32);
        }
    } else {
        assert(m[1] != 0) by {
            if m[1] == 0 {
                lemma_untouched(m, d);
            }
        }
        lemma_free_split(r, 1, d - 1, d);
        lemma_free_split(m, 1, d - 1, d);
        lemma_free_same(m, r, 1, d - 1);
        assert(free_between(m, d, d) == share(d)) by {
            assert(free_between(m, d, d - 1) == 0);
        }
        assert(free_between(r, d, d) == 0) by {
            assert(free_between(r, d, d - 1) == 0);
        }
    }
}

/// After a claim that ends at length 1, the marker of length 1 says that
/// no codeword of one bit is left.
proof fn lemma_prune_below_first(m: Seq<int>, top: int)
    requires
        markers_ok(m),
        1 <= top <= 32,
        can_claim(m, top),
        break_depth(m, top) == 1,
    ensures
        markers_after_claim(m, top)[1] == 2,
{
    lemma2_to64();
    lemma_raise_markers(m, top);
    lemma_prune_below(raised(m, top), m[top], top + 1, 1);
    lemma_break_depth(m, top);
    assert(bounded_at(m, 1));
}

/// The space that is taken grows with the entries.
pub proof fn lemma_kraft_monotone(l: Seq<i8>, k: int)
    requires
        1 <= k,
    ensures
        0 <= kraft_sum(l, k - 1) <= kraft_sum(l, k),
    decreases k,
{
    if k > 1 {
        lemma_kraft_monotone(l, k - 1);
    }
}

/// Every one of the first `k` entries gets its codeword exactly if the
/// lengths are between 0 and 32 and the codewords do not take more than
/// the tree holds. The space that is left is then what they have not
/// taken.
pub proof fn lemma_assign_iff_fits(l: Seq<i8>, k: int)
    requires
        0 <= k <= l.len(),
    ensures
        assign_codewords(l, k).is_some() <==> lengths_in_range(l, k) && kraft_sum(l, k) <= share(0),
        assign_codewords(l, k) matches Some(t) ==> {
            &&& markers_ok(t.1)
            &&& free_space(t.1) == share(0) - kraft_sum(l, k)
            &&& t.0.len() == k
        },
        0 <= kraft_sum(l, k),
    decreases k,
{
    lemma_share(0);
    if k == 0 {
        lemma_fresh_markers_ok();
    } else {
        lemma_assign_iff_fits(l, k - 1);
        lemma_kraft_monotone(l, k);
        let length = l[k - 1] as int;
        match assign_codewords(l, k - 1) {
            None => {
                if lengths_in_range(l, k) {
                    assert forall|i: int| 0 <= i < k - 1 implies 0 <= #[trigger] l[i] <= 32 by {}
                }
            },
            Some((codes, m)) => {
                assert forall|i: int| 0 <= i < k - 1 implies 0 <= #[trigger] l[i] <= 32 by {}
                if length == 0 {
                    assert(lengths_in_range(l, k)) by {
                        assert forall|i: int| 0 <= i < k implies 0 <= #[trigger] l[i] <= 32 by {
                            if i < k - 1 {
                                assert(0 <= l[i] <= 32);
                            }
                        }
                    }
                } else if length < 0 || length > 32 {
                    assert(!lengths_in_range(l, k)) by {
                        if lengths_in_range(l, k) {
                            assert(0 <= l[k - 1] <= 32);
                        }
                    }
                } else {
                    assert(lengths_in_range(l, k)) by {
                        assert forall|i: int| 0 <= i < k implies 0 <= #[trigger] l[i] <= 32 by {
                            if i < k - 1 {
                                assert(0 <= l[i] <= 32);
                            }
                        }
                    }
                    lemma_can_claim_iff_space(m, length);
                    if can_claim(m, length) {
                        lemma_claim_takes_share(m, length);
                    }
                }
            },
        }
    }
}

/// The tree has a place left exactly if a codeword is free.
proof fn lemma_incomplete_iff_free(m: Seq<int>)
    requires
        markers_ok(m),
    ensures
        tree_incomplete(m) <==> free_between(m, 1, 32) > 0,
{
    lemma2_to64();
    if exists|j: int| 1 <= j <= 32 && #[trigger] free_at(m, j) {
        let j = choose|j: int| 1 <= j <= 32 && #[trigger] free_at(m, j);
        lemma_free_split(m, 1, j, 32);
        lemma_free_split(m, 1, j - 1, j);
        lemma_free_bound(m, 1, j - 1);
        lemma_free_bound(m, j + 1, 32);
        assert(free_between(m, j, j) == share(j)) by {
            assert(free_between(m, j, j - 1) == 0);
        }
        lemma_share(j);
        lemma_pow2_unfold(j as nat);
        let p = pow2(j as nat) as int;
        assert(m[j] % p != 0) by {
            lemma_odd_mod_even(m[j], pow2((j - 1) as nat) as int);
        }
    } else {
        assert forall|k: int| 1 <= k <= 32 implies !#[trigger] free_at(m, k) by {}
        lemma_free_none(m, 1, 32);
        assert forall|i: int| 1 <= i <= 32 implies #[trigger] m[i] % (pow2(i as nat) as int) == 0 by {
            lemma_all_even(m, i);
        }
    }
}

proof fn lemma_odd_mod_even(x: int, h: int)
    requires
        x % 2 == 1,
        h >= 1,
    ensures
        x % (2 * h) != 0,
{
    if x % (2 * h) == 0 {
        let q = x / (2 * h);
        assert(x == (2 * h) * q + x % (2 * h)) by {
            vstd::arithmetic::div_mod::lemma_fundamental_div_mod(x, 2 * h);
        }
        assert(x == 2 * (h * q)) by (nonlinear_arith)
            requires
                x == (2 * h) * q,
        ;
    }
}

/// Where no codeword is free, every marker is zero or two to the power
/// of its length.
proof fn lemma_all_even(m: Seq<int>, i: int)
    requires
        markers_ok(m),
        1 <= i <= 32,
        forall|k: int| 1 <= k <= 32 ==> !#[trigger] free_at(m, k),
    ensures
        m[i] == 0 || m[i] == pow2(i as nat),
        m[i] % (pow2(i as nat) as int) == 0,
    decreases i,
{
    lemma2_to64();
    lemma_pow2_pos(i as nat);
    assert(!free_at(m, i));
    assert(bounded_at(m, i));
    if i == 1 {
        assert(m[1] == 0 || m[1] == 2);
    } else {
        lemma_all_even(m, i - 1);
        assert(shaped_at(m, i));
        lemma_pow2_unfold(i as nat);
    }
    let p = pow2(i as nat) as int;
    if m[i] == p {
        assert(p % p == 0) by (nonlinear_arith)
            requires
                p > 0,
        ;
    } else {
        assert(m[i] == 0);
        assert(0int % p == 0) by (nonlinear_arith)
            requires
                p > 0,
        ;
    }
}

/// How many words the list has a place for: one for every entry, or one
/// for every used entry.
pub open spec fn word_slots(l: Seq<i8>, sparsecount: int) -> int {
    if sparsecount == 0 {
        l.len() as int
    } else {
        used_count(l, l.len() as int)
    }
}

/// The code lengths fill the tree: each is between 0 and 32, and the
/// codewords take all of the tree, or none of it, or, where the list has
/// a place for one word only, half of it.
pub open spec fn lengths_fill_tree(l: Seq<i8>, sparsecount: int) -> bool {
    let n = l.len() as int;
    &&& lengths_in_range(l, n)
    &&& {
        ||| kraft_sum(l, n) == share(0)
        ||| kraft_sum(l, n) == 0
        ||| word_slots(l, sparsecount) == 1 && kraft_sum(l, n) == share(1)
    }
}

/// With at most one used entry, the codewords take nothing or the share
/// of one codeword.
proof fn lemma_kraft_of_one(l: Seq<i8>, k: int)
    requires
        0 <= k <= l.len(),
        used_count(l, k) <= 1,
        lengths_in_range(l, k),
    ensures
        0 <= used_count(l, k),
        used_count(l, k) == 0 ==> kraft_sum(l, k) == 0,
        used_count(l, k) == 1 ==> exists|x: int| 1 <= x <= 32 && kraft_sum(l, k) == #[trigger] share(x),
    decreases k,
{
    if k > 0 {
        lemma_used_nonneg(l, k - 1);
        assert(0 <= l[k - 1] <= 32);
        assert forall|i: int| 0 <= i < k - 1 implies 0 <= #[trigger] l[i] <= 32 by {
            assert(0 <= l[i] <= 32);
        }
        lemma_kraft_of_one(l, k - 1);
        if l[k - 1] != 0 {
            assert(kraft_sum(l, k) == share(l[k - 1] as int));
        }
    }
}

proof fn lemma_used_nonneg(l: Seq<i8>, k: int)
    ensures
        0 <= used_count(l, k),
    decreases k,
{
    if k > 0 {
        lemma_used_nonneg(l, k - 1);
    }
}

proof fn lemma_used_at_most_len(l: Seq<i8>, k: int)
    requires
        0 <= k,
    ensures
        0 <= used_count(l, k) <= k,
    decreases k,
{
    if k > 0 {
        lemma_used_at_most_len(l, k - 1);
    }
}

/// The codebook of a single codeword of one bit is the one whose
/// codewords take half of the tree.
proof fn lemma_lone_iff_half(l: Seq<i8>, sparsecount: int, m: Seq<int>)
    requires
        markers_ok(m),
        lengths_in_range(l, l.len() as int),
        free_space(m) == share(0) - kraft_sum(l, l.len() as int),
        0 <= kraft_sum(l, l.len() as int),
    ensures
        lone_codeword(word_slots(l, sparsecount), m) <==> word_slots(l, sparsecount) == 1 && kraft_sum(
            l,
            l.len() as int,
        ) == share(1),
{
    lemma2_to64();
    let n = l.len() as int;
    let k = kraft_sum(l, n);
    lemma_share(0);
    lemma_share(1);
    lemma_share(2);
    lemma_share(32);
    assert(bounded_at(m, 1));
    assert(bounded_at(m, 2));
    assert(shaped_at(m, 2));
    lemma_free_split(m, 1, 1, 32);
    lemma_free_split(m, 2, 2, 32);
    lemma_free_bound(m, 3, 32);
    lemma_free_bound(m, 2, 32);
    assert(free_between(m, 1, 1) == if free_at(m, 1) { share(1) } else { 0 }) by {
        assert(free_between(m, 1, 0) == 0);
    }
    assert(free_between(m, 2, 2) == if free_at(m, 2) { share(2) } else { 0 }) by {
        assert(free_between(m, 2, 1) == 0);
    }
    if word_slots(l, sparsecount) == 1 {
        lemma_used_at_most_len(l, n);
        lemma_kraft_of_one(l, n);
        if m[2] == 2 {
            // Half of the tree is free and more, so that one codeword took at most half.
            assert(m[1] == 1);
            assert(k > share(2));
            if used_count(l, n) == 1 {
                let x = choose|x: int| 1 <= x <= 32 && k == #[trigger] share(x);
                if x >= 2 {
                    lemma_share_monotone(2, x);
                }
            }
        }
    }
}

/// The words of a list of code lengths are made exactly if the lengths
/// fill the tree. Lengths that ask for more than the tree holds are
/// refused, and so are lengths that leave a part of the tree empty, but
/// for the codebook of a single codeword of one bit.
pub proof fn lemma_make_words_iff_tree_filled(l: Seq<i8>, sparsecount: int)
    ensures
        spec_make_words(l, sparsecount).is_ok() <==> lengths_fill_tree(l, sparsecount),
        kraft_sum(l, l.len() as int) > share(0) ==> spec_make_words(l, sparsecount).is_err(),
{
    let n = l.len() as int;
    lemma_assign_iff_fits(l, n);
    lemma_share(0);
    lemma_share(1);
    lemma_share(32);
    match assign_codewords(l, n) {
        None => {},
        Some((codes, m)) => {
            lemma_incomplete_iff_free(m);
            lemma_lone_iff_half(l, sparsecount, m);
            lemma_free_bound(m, 1, 32);
            if m[1] == 0 {
                assert forall|k: int| 1 <= k <= 32 implies !#[trigger] free_at(m, k) by {
                    lemma_untouched(m, k);
                }
                lemma_free_none(m, 1, 32);
            }
        },
    }
}

/// Where the codewords under the marker of length `j` start in the tree,
/// the whole tree being two to the power 32.
pub open spec fn marker_start(m: Seq<int>, j: int) -> int {
    m[j] * share(j)
}

/// Where the codeword `c` of length `length` starts in the tree.
pub open spec fn code_start(c: int, length: int) -> int {
    c * share(length)
}

/// The part `[a, a + s)` of the tree and the codewords under the marker of
/// length `j` have nothing in common.
pub open spec fn marker_clear_of(m: Seq<int>, j: int, a: int, s: int) -> bool {
    m[j] >= pow2(j as nat) || marker_start(m, j) + share(j) <= a || a + s <= marker_start(m, j)
}

proof fn lemma_start_step(m: Seq<int>, j: int)
    requires
        markers_ok(m),
        2 <= j <= 32,
    ensures
        m[j] % 2 == 0 ==> marker_start(m, j) == marker_start(m, j - 1),
        m[j] % 2 == 1 ==> marker_start(m, j) + share(j) <= marker_start(m, j - 1),
        marker_start(m, j) + share(j) <= marker_start(m, j - 1) + share(j - 1),
        0 <= marker_start(m, j),
{
    assert(shaped_at(m, j));
    assert(bounded_at(m, j));
    assert(bounded_at(m, j - 1));
    lemma_share(j - 1);
    lemma_share(j);
    let x = m[j];
    let y = m[j - 1];
    let t = share(j);
    assert(share(j - 1) == 2 * t);
    assert(y * (2 * t) == (2 * y) * t) by (nonlinear_arith);
    if x % 2 == 0 {
        assert(x == 2 * y);
    } else {
        assert(x + 1 <= 2 * y);
        assert((x + 1) * t <= (2 * y) * t) by (nonlinear_arith)
            requires
                x + 1 <= 2 * y,
                t >= 0,
        ;
        assert((x + 1) * t == x * t + t) by (nonlinear_arith);
    }
    assert(0 <= x * t) by (nonlinear_arith)
        requires
            0 <= x,
            0 <= t,
    ;
}

/// A shorter marker starts no earlier than a longer one.
proof fn lemma_start_monotone(m: Seq<int>, a: int, b: int)
    requires
        markers_ok(m),
        1 <= a <= b <= 32,
    ensures
        marker_start(m, b) <= marker_start(m, a),
        marker_start(m, b) + share(b) <= marker_start(m, a) + share(a),
        a < b && m[b] % 2 == 1 ==> marker_start(m, b) + share(b) <= marker_start(m, a),
    decreases b - a,
{
    if a < b {
        lemma_start_monotone(m, a, b - 1);
        lemma_start_step(m, b);
    }
}

/// Between two lengths whose markers in between end in a zero bit, the
/// markers start at the same place.
proof fn lemma_start_chain(m: Seq<int>, a: int, b: int)
    requires
        markers_ok(m),
        1 <= a <= b <= 32,
        even_between(m, a + 1, b),
    ensures
        marker_start(m, b) == marker_start(m, a),
    decreases b - a,
{
    if a < b {
        assert(even_between(m, a + 1, b - 1)) by {
            assert forall|i: int| a + 1 <= i <= b - 1 implies #[trigger] even_at(m, i) by {
                assert(even_at(m, i));
            }
        }
        lemma_start_chain(m, a, b - 1);
        assert(even_at(m, b));
        lemma_start_step(m, b);
    }
}

/// The first length above `top` whose marker ends in a one bit, or 33.
pub open spec fn next_free_above(m: Seq<int>, top: int) -> int
    decreases 33 - top,
{
    if top >= 32 {
        33
    } else if m[top + 1] % 2 != 0 {
        top + 1
    } else {
        next_free_above(m, top + 1)
    }
}

proof fn lemma_next_free_above(m: Seq<int>, top: int)
    requires
        0 <= top <= 32,
    ensures
        top < next_free_above(m, top) <= 33,
        next_free_above(m, top) <= 32 ==> m[next_free_above(m, top)] % 2 == 1,
        even_between(m, top + 1, next_free_above(m, top) - 1),
    decreases 33 - top,
{
    if top < 32 && m[top + 1] % 2 == 0 {
        lemma_next_free_above(m, top + 1);
        let e = next_free_above(m, top + 1);
        assert forall|i: int| top + 1 <= i <= e - 1 implies #[trigger] even_at(m, i) by {
            if i > top + 1 {
                assert(even_at(m, i));
            }
        }
    }
}

/// What pruning gives for a marker behind the claimed length.
proof fn lemma_prune_value(m: Seq<int>, s: Seq<int>, j: int, top: int, i: int)
    requires
        markers_ok(m),
        1 <= top < j <= 33,
        s.len() == 33,
        forall|k: int| j <= k < 33 ==> #[trigger] s[k] == m[k],
        even_between(m, top + 1, j - 1),
        j <= i <= 32,
        s[j - 1] == pow2((j - 1 - top) as nat) * s[top],
    ensures
        prune_markers(s, m[j - 1], j)[i] == (if i < next_free_above(m, top) {
            pow2((i - top) as nat) * s[top]
        } else {
            m[i]
        }),
        prune_markers(s, m[j - 1], j)[top] == s[top],
    decreases 33 - j,
{
    lemma_next_free_above(m, top);
    let e = next_free_above(m, top);
    lemma_prune_below(s, m[j - 1], j, top);
    if j < 33 {
        assert(shaped_at(m, j));
        assert(s[j] == m[j]);
        if s[j] / 2 == m[j - 1] {
            assert(m[j] % 2 == 0);
            // The first marker that ends in a one bit lies behind `j`.
            assert(e > j) by {
                if e <= j {
                    if e < j {
                        assert(even_at(m, e));
                    }
                }
            }
            let s2 = s.update(j, 2 * s[j - 1]);
            lemma_pow2_unfold((j - top) as nat);
            let p = pow2((j - 1 - top) as nat) as int;
            let q = pow2((j - top) as nat) as int;
            let x = s[top];
            assert(q * x == 2 * (p * x)) by (nonlinear_arith)
                requires
                    q == 2 * p,
            ;
            assert(even_between(m, top + 1, j)) by {
                assert forall|k: int| top + 1 <= k <= j implies #[trigger] even_at(m, k) by {
                    if k < j {
                        assert(even_at(m, k));
                    }
                }
            }
            if i == j {
                lemma_prune_below(s2, s[j], j + 1, i);
            } else {
                assert forall|k: int| j + 1 <= k < 33 implies #[trigger] s2[k] == m[k] by {
                    assert(s[k] == m[k]);
                }
                lemma_prune_value(m, s2, j + 1, top, i);
            }
        } else {
            assert(m[j] % 2 != 0);
            assert(e == j) by {
                lemma_first_free(m, top, j);
            }
        }
    }
}

/// The first marker above `top` that ends in a one bit is the one behind
/// markers that end in a zero bit.
proof fn lemma_first_free(m: Seq<int>, top: int, j: int)
    requires
        0 <= top < j <= 32,
        even_between(m, top + 1, j - 1),
        m[j] % 2 != 0,
    ensures
        next_free_above(m, top) == j,
    decreases j - top,
{
    if top + 1 < j {
        assert(even_at(m, top + 1));
        assert(even_between(m, top + 2, j - 1)) by {
            assert forall|k: int| top + 2 <= k <= j - 1 implies #[trigger] even_at(m, k) by {
                assert(even_at(m, k));
            }
        }
        lemma_first_free(m, top + 1, j);
    }
}

/// The markers after a claim, said at once: up to the claimed length
/// they are the raised markers; behind it, up to the first marker that
/// ends in a one bit, they are the new marker of the claimed length with
/// zeros behind it; from there on they are as before.
pub proof fn lemma_markers_after_claim(m: Seq<int>, top: int, i: int)
    requires
        markers_ok(m),
        1 <= top <= 32,
        can_claim(m, top),
        1 <= i <= 32,
    ensures
        markers_after_claim(m, top)[i] == (if i <= top {
            raised(m, top)[i]
        } else if i < next_free_above(m, top) {
            pow2((i - top) as nat) * raised(m, top)[top]
        } else {
            m[i]
        }),
{
    lemma2_to64();
    lemma_raise_markers(m, top);
    let r = raised(m, top);
    if i <= top {
        lemma_prune_below(r, m[top], top + 1, i);
    } else {
        assert(r[top] == pow2(0) * r[top]);
        lemma_break_depth(m, top);
        assert forall|k: int| top + 1 <= k < 33 implies #[trigger] r[k] == m[k] by {}
        lemma_prune_value(m, r, top + 1, top, i);
    }
}

proof fn lemma_start_double(x: int, j: int)
    requires
        1 <= j <= 32,
    ensures
        (2 * x) * share(j) == x * share(j - 1),
        (x + 1) * share(j) == x * share(j) + share(j),
{
    lemma_share(j - 1);
    let t = share(j);
    assert((2 * x) * t == x * (2 * t)) by (nonlinear_arith);
    assert((x + 1) * t == x * t + t) by (nonlinear_arith);
}

proof fn lemma_start_shift(x: int, top: int, i: int)
    requires
        1 <= top <= i <= 32,
    ensures
        (pow2((i - top) as nat) * x) * share(i) == x * share(top),
        x >= pow2(top as nat) ==> pow2((i - top) as nat) * x >= pow2(i as nat),
        share(i) <= share(top),
{
    let p = pow2((i - top) as nat) as int;
    let t = share(i);
    vstd::arithmetic::power2::lemma_pow2_adds((i - top) as nat, (32 - i) as nat);
    vstd::arithmetic::power2::lemma_pow2_adds((i - top) as nat, top as nat);
    lemma_pow2_pos((i - top) as nat);
    lemma_share_monotone(top, i);
    assert(p * t == share(top));
    assert((p * x) * t == x * (p * t)) by (nonlinear_arith);
    let q = pow2(top as nat) as int;
    if x >= q {
        assert(p * x >= p * q) by (nonlinear_arith)
            requires
                x >= q,
                p > 0,
        ;
    }
}

/// After a claim in a tree that is in use, a part of the tree that was
/// clear of all markers is clear of the markers up to the claimed length.
proof fn lemma_raised_clear_of_old(m: Seq<int>, top: int, i: int, a: int, s: int)
    requires
        markers_ok(m),
        1 <= top <= 32,
        can_claim(m, top),
        m[1] != 0,
        1 <= i <= top,
        forall|j: int| 1 <= j <= 32 ==> #[trigger] marker_clear_of(m, j, a, s),
    ensures
        marker_clear_of(raised(m, top), i, a, s),
        break_depth(m, top) >= 1,
{
    lemma2_to64();
    let d = break_depth(m, top);
    lemma_break_depth(m, top);
    assert(bounded_at(m, 1));
    if d == 0 {
        lemma_zero_chain(m, top, 1);
    }
    assert(marker_clear_of(m, i, a, s));
    lemma_share(i);
    if i == d {
        if d >= 2 {
            assert(marker_clear_of(m, d - 1, a, s));
            lemma_start_double(m[d - 1], d);
            lemma_pow2_unfold(d as nat);
            lemma_share(d - 1);
        }
    } else if i > d {
        assert(marker_clear_of(m, i - 1, a, s));
        assert(even_at(m, i));
        assert(shaped_at(m, i));
        assert(even_between(m, i, top)) by {
            assert forall|k: int| i <= k <= top implies #[trigger] even_at(m, k) by {
                assert(even_at(m, k));
            }
        }
        lemma_even_chain_below(m, i - 1, top);
        lemma_start_double(m[i - 1], i);
        lemma_start_double(m[i], i);
        lemma_share(i - 1);
    }
}

/// After a claim, the claimed codeword is clear of the markers up to the
/// claimed length.
proof fn lemma_raised_clear_of_new(m: Seq<int>, top: int, i: int)
    requires
        markers_ok(m),
        1 <= top <= 32,
        can_claim(m, top),
        1 <= i <= top,
    ensures
        marker_clear_of(raised(m, top), i, marker_start(m, top), share(top)),
{
    lemma2_to64();
    let d = break_depth(m, top);
    lemma_break_depth(m, top);
    lemma_share(i);
    lemma_share(top);
    lemma_share_monotone(i, top);
    assert(bounded_at(m, i));
    if d >= 1 {
        lemma_start_chain(m, d, top);
        lemma_share_monotone(d, top);
    }
    if i < d {
        lemma_start_monotone(m, i, d);
    } else if i == d {
        if d >= 2 {
            lemma_start_double(m[d - 1], d);
            lemma_start_step(m, d);
        } else {
            assert(bounded_at(m, 1));
        }
    } else {
        assert(even_at(m, i));
        lemma_start_double(m[i], i);
        assert(even_between(m, i + 1, top)) by {
            assert forall|k: int| i + 1 <= k <= top implies #[trigger] even_at(m, k) by {
                assert(even_at(m, k));
            }
        }
        lemma_start_chain(m, i, top);
    }
}

/// After a claim in a tree that is in use, a part of the tree that was
/// clear of all markers is still clear of all markers.
proof fn lemma_claim_clear_of_old(m: Seq<int>, top: int, i: int, a: int, s: int)
    requires
        markers_ok(m),
        1 <= top <= 32,
        can_claim(m, top),
        m[1] != 0,
        1 <= i <= 32,
        forall|j: int| 1 <= j <= 32 ==> #[trigger] marker_clear_of(m, j, a, s),
    ensures
        marker_clear_of(markers_after_claim(m, top), i, a, s),
{
    let r = raised(m, top);
    let e = next_free_above(m, top);
    lemma_markers_after_claim(m, top, i);
    if i <= top {
        lemma_raised_clear_of_old(m, top, i, a, s);
    } else if i < e {
        lemma_raised_clear_of_old(m, top, top, a, s);
        lemma_start_shift(r[top], top, i);
    } else {
        assert(marker_clear_of(m, i, a, s));
    }
}

/// After a claim, the claimed codeword is clear of all markers.
proof fn lemma_claim_clear_of_new(m: Seq<int>, top: int, i: int)
    requires
        markers_ok(m),
        1 <= top <= 32,
        can_claim(m, top),
        1 <= i <= 32,
    ensures
        marker_clear_of(markers_after_claim(m, top), i, marker_start(m, top), share(top)),
{
    let r = raised(m, top);
    let e = next_free_above(m, top);
    lemma_markers_after_claim(m, top, i);
    lemma_next_free_above(m, top);
    if i <= top {
        lemma_raised_clear_of_new(m, top, i);
    } else if i < e {
        lemma_raised_clear_of_new(m, top, top);
        lemma_start_shift(r[top], top, i);
    } else {
        // The markers from the first one that ends in a one bit on lie before the codeword.
        lemma_start_monotone(m, e, i);
        lemma_start_step(m, e);
        if top + 1 <= e - 1 {
            lemma_start_chain(m, top, e - 1);
        }
    }
}

/// The codeword of the used entry `i` has as many bits as its length
/// says.
pub open spec fn code_fits(l: Seq<i8>, codes: Seq<int>, i: int) -> bool {
    l[i] != 0 ==> 0 <= codes[i] < pow2(l[i] as nat)
}

/// The codeword of the used entry `i` is clear of the marker of length
/// `j`.
pub open spec fn code_clear(l: Seq<i8>, codes: Seq<int>, m: Seq<int>, i: int, j: int) -> bool {
    l[i] != 0 ==> marker_clear_of(m, j, code_start(codes[i], l[i] as int), share(l[i] as int))
}

/// The codewords of two used entries take parts of the tree that have
/// nothing in common: neither codeword starts with the other.
pub open spec fn codes_apart(l: Seq<i8>, codes: Seq<int>, a: int, b: int) -> bool {
    l[a] != 0 && l[b] != 0 && a != b ==> {
        ||| code_start(codes[a], l[a] as int) + share(l[a] as int) <= code_start(codes[b], l[b] as int)
        ||| code_start(codes[b], l[b] as int) + share(l[b] as int) <= code_start(codes[a], l[a] as int)
    }
}

/// The codewords of the first `k` entries are placed well: each has the
/// bits of its length, is clear of all markers, and no two of them take a
/// common part of the tree.
pub open spec fn well_placed(l: Seq<i8>, codes: Seq<int>, m: Seq<int>, k: int) -> bool {
    &&& forall|i: int| 0 <= i < k ==> #[trigger] code_fits(l, codes, i)
    &&& forall|i: int, j: int| 0 <= i < k && 1 <= j <= 32 ==> #[trigger] code_clear(l, codes, m, i, j)
    &&& forall|a: int, b: int| 0 <= a < k && 0 <= b < k ==> #[trigger] codes_apart(l, codes, a, b)
}

proof fn lemma_kraft_at_least(l: Seq<i8>, k: int, i: int)
    requires
        0 <= i < k,
        l[i] != 0,
        0 <= l[i] <= 32,
    ensures
        kraft_sum(l, k) >= share(l[i] as int),
        share(l[i] as int) >= 1,
    decreases k,
{
    lemma_share(l[i] as int);
    lemma_kraft_monotone(l, k);
    if i < k - 1 {
        lemma_kraft_at_least(l, k - 1, i);
    }
}

/// The codewords that the entries get are placed well.
pub proof fn lemma_assign_well_placed(l: Seq<i8>, k: int)
    requires
        0 <= k <= l.len(),
        assign_codewords(l, k).is_some(),
    ensures
        well_placed(l, assign_codewords(l, k).unwrap().0, assign_codewords(l, k).unwrap().1, k),
    decreases k,
{
    let (codes, m) = assign_codewords(l, k).unwrap();
    if k > 0 {
        let (pc, pm) = assign_codewords(l, k - 1).unwrap();
        lemma_assign_well_placed(l, k - 1);
        lemma_assign_iff_fits(l, k - 1);
        lemma_assign_iff_fits(l, k);
        let top = l[k - 1] as int;
        assert(pc.len() == k - 1);
        if top == 0 {
            assert forall|i: int| 0 <= i < k implies #[trigger] code_fits(l, codes, i) by {
                if i < k - 1 {
                    assert(code_fits(l, pc, i));
                }
            }
            assert forall|i: int, j: int| 0 <= i < k && 1 <= j <= 32 implies #[trigger] code_clear(
                l,
                codes,
                m,
                i,
                j,
            ) by {
                if i < k - 1 {
                    assert(code_clear(l, pc, pm, i, j));
                }
            }
            assert forall|a: int, b: int| 0 <= a < k && 0 <= b < k implies #[trigger] codes_apart(
                l,
                codes,
                a,
                b,
            ) by {
                if a < k - 1 && b < k - 1 {
                    assert(codes_apart(l, pc, a, b));
                }
            }
        } else {
            assert(bounded_at(pm, top));
            assert forall|i: int| 0 <= i < k implies #[trigger] code_fits(l, codes, i) by {
                if i < k - 1 {
                    assert(code_fits(l, pc, i));
                }
            }
            assert forall|i: int, j: int| 0 <= i < k && 1 <= j <= 32 implies #[trigger] code_clear(
                l,
                codes,
                m,
                i,
                j,
            ) by {
                if i < k - 1 {
                    if l[i] != 0 {
                        let a = code_start(pc[i], l[i] as int);
                        let s = share(l[i] as int);
                        assert forall|q: int| 1 <= q <= 32 implies #[trigger] marker_clear_of(
                            pm,
                            q,
                            a,
                            s,
                        ) by {
                            assert(code_clear(l, pc, pm, i, q));
                        }
                        assert(pm[1] != 0) by {
                            if pm[1] == 0 {
                                assert(0 <= l[i] <= 32);
                                lemma_kraft_at_least(l, k - 1, i);
                            }
                        }
                        lemma_claim_clear_of_old(pm, top, j, a, s);
                    }
                } else {
                    lemma_claim_clear_of_new(pm, top, j);
                }
            }
            assert forall|a: int, b: int| 0 <= a < k && 0 <= b < k implies #[trigger] codes_apart(
                l,
                codes,
                a,
                b,
            ) by {
                if a < k - 1 && b < k - 1 {
                    assert(codes_apart(l, pc, a, b));
                } else if a < k - 1 {
                    assert(code_clear(l, pc, pm, a, top));
                } else if b < k - 1 {
                    assert(code_clear(l, pc, pm, b, top));
                }
            }
        }
    }
}

} // verus!
