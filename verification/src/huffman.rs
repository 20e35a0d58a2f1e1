//! Canonical codewords from code lengths: the tree of codewords is filled
//! from the left, one entry after the other, whatever the order of the
//! lengths.
//!
//! A marker is kept for every length from 1 to 32: the next codeword that
//! an entry of that length gets, read as a number with the first bit of the
//! codeword on top. A marker of length `j` that has reached two to the
//! power `j` says that no codeword of that length is left.

use crate::bits::{bit32, bits_value, lemma_bits_determine_value, lemma_bits_value_bit};
use crate::error::Error;
use vstd::arithmetic::power2::{lemma2_to64, lemma_pow2_strictly_increases, lemma_pow2_unfold, pow2};
use vstd::prelude::*;

verus! {

/// The markers before any codeword is claimed: every length starts at the
/// codeword of all zeros.
pub open spec fn fresh_markers() -> Seq<int> {
    Seq::new(33, |i: int| 0int)
}

/// The markers of the lengths `j` down to 1 after a codeword is claimed
/// above them. A marker that ends in a zero bit moves on to its sibling,
/// and the walk goes on with the next shorter length. A marker that ends
/// in a one bit has used up its pair: it moves to the first child of the
/// marker one shorter, and the walk ends.
pub open spec fn raise_markers(m: Seq<int>, j: int) -> Seq<int>
    decreases j,
{
    if j < 1 {
        m
    } else if m[j] % 2 != 0 {
        if j == 1 {
            m.update(1, m[1] + 1)
        } else {
            m.update(j, 2 * m[j - 1])
        }
    } else {
        raise_markers(m.update(j, m[j] + 1), j - 1)
    }
}

/// The markers of the lengths `j` up to 32 after the codeword `chain` one
/// shorter is claimed: as long as a marker is the first child of the
/// claimed codeword above it, it hangs from the marker one shorter.
pub open spec fn prune_markers(m: Seq<int>, chain: int, j: int) -> Seq<int>
    decreases 33 - j,
{
    if 1 <= j < 33 && m[j] / 2 == chain {
        prune_markers(m.update(j, 2 * m[j - 1]), m[j], j + 1)
    } else {
        m
    }
}

/// The markers after the codeword of length `length` is claimed.
pub open spec fn markers_after_claim(m: Seq<int>, length: int) -> Seq<int> {
    prune_markers(raise_markers(m, length), m[length], length + 1)
}

/// Whether a codeword of length `length` is left.
pub open spec fn can_claim(m: Seq<int>, length: int) -> bool {
    m[length] < pow2(length as nat)
}

/// The marker of length `j` is at most two to the power `j`.
pub open spec fn bounded_at(m: Seq<int>, j: int) -> bool {
    0 <= m[j] <= pow2(j as nat)
}

/// The marker of length `j` fits the marker one shorter: if it ends in a
/// zero bit, it is the first child of that marker, and if it ends in a one
/// bit, it lies before that child.
pub open spec fn shaped_at(m: Seq<int>, j: int) -> bool {
    if m[j] % 2 == 0 {
        m[j] == 2 * m[j - 1]
    } else {
        m[j] < 2 * m[j - 1]
    }
}

/// The markers describe a tree that is filled from the left.
pub open spec fn markers_ok(m: Seq<int>) -> bool {
    &&& m.len() == 33
    &&& forall|j: int| 1 <= j <= 32 ==> #[trigger] bounded_at(m, j)
    &&& forall|j: int| 2 <= j <= 32 ==> #[trigger] shaped_at(m, j)
}

/// The marker of length `j` ends in a zero bit.
pub open spec fn even_at(m: Seq<int>, j: int) -> bool {
    m[j] % 2 == 0
}

/// The markers of all lengths from `j` to `top` end in a zero bit.
pub open spec fn even_between(m: Seq<int>, j: int, top: int) -> bool {
    forall|i: int| j <= i <= top ==> #[trigger] even_at(m, i)
}

/// Where all markers above `j` up to `top` end in a zero bit, the marker
/// of `top` is the marker of `j` with zeros behind it.
pub proof fn lemma_even_chain(m: Seq<int>, j: int, top: int)
    requires
        markers_ok(m),
        1 <= j <= top <= 32,
        even_between(m, j + 1, top),
    ensures
        m[top] == pow2((top - j) as nat) * m[j],
    decreases top - j,
{
    lemma2_to64();
    if j < top {
        assert(even_between(m, j + 1, top - 1)) by {
            assert forall|i: int| j + 1 <= i <= top - 1 implies #[trigger] even_at(m, i) by {
                assert(even_at(m, i));
            }
        }
        lemma_even_chain(m, j, top - 1);
        assert(even_at(m, top));
        assert(shaped_at(m, top));
        lemma_pow2_unfold((top - j) as nat);
        let p = pow2((top - j - 1) as nat) as int;
        let q = pow2((top - j) as nat) as int;
        let x = m[j];
        assert(q == 2 * p);
        assert(m[top - 1] == p * x);
        assert(q * x == 2 * (p * x)) by (nonlinear_arith)
            requires
                q == 2 * p,
        ;
        assert(m[top] == q * x);
    } else {
        assert(pow2(0) == 1);
        assert(m[top] == 1 * m[j]);
        assert(m[top] == pow2(0) * m[j]);
    }
}

/// Where a codeword of length `top` is left and all markers above `j` up
/// to `top` end in a zero bit, a codeword of length `j` is left too.
pub proof fn lemma_even_chain_below(m: Seq<int>, j: int, top: int)
    requires
        markers_ok(m),
        1 <= j <= top <= 32,
        even_between(m, j + 1, top),
        can_claim(m, top),
    ensures
        can_claim(m, j),
        m[top] == pow2((top - j) as nat) * m[j],
{
    lemma_even_chain(m, j, top);
    let p = pow2((top - j) as nat) as int;
    let x = m[j];
    let y = pow2(j as nat) as int;
    vstd::arithmetic::power2::lemma_pow2_adds((top - j) as nat, j as nat);
    vstd::arithmetic::power2::lemma_pow2_pos((top - j) as nat);
    if x >= y {
        assert(p * x >= p * y) by (nonlinear_arith)
            requires
                x >= y,
                p > 0,
        ;
    }
}

/// The length at which raising ends: the greatest length up to `top`
/// whose marker ends in a one bit, or 0 if there is none.
pub open spec fn break_depth(m: Seq<int>, top: int) -> int
    decreases top,
{
    if top < 1 {
        0
    } else if m[top] % 2 != 0 {
        top
    } else {
        break_depth(m, top - 1)
    }
}

pub proof fn lemma_break_depth(m: Seq<int>, top: int)
    requires
        0 <= top <= 32,
    ensures
        0 <= break_depth(m, top) <= top,
        break_depth(m, top) >= 1 ==> m[break_depth(m, top)] % 2 != 0,
        even_between(m, break_depth(m, top) + 1, top),
    decreases top,
{
    if top >= 1 && m[top] % 2 == 0 {
        lemma_break_depth(m, top - 1);
        let d = break_depth(m, top - 1);
        assert forall|i: int| d + 1 <= i <= top implies #[trigger] even_at(m, i) by {
            if i < top {
                assert(even_at(m, i));
            }
        }
    }
}

/// The markers after raising, said at once: the markers above the length
/// at which raising ends move on to their siblings, and the marker of that
/// length moves to the first child of the marker one shorter.
pub open spec fn raised(m: Seq<int>, top: int) -> Seq<int> {
    let d = break_depth(m, top);
    Seq::new(
        33,
        |i: int|
            if d < i <= top {
                m[i] + 1
            } else if i == d && d >= 2 {
                2 * m[d - 1]
            } else if i == d && d == 1 {
                m[1] + 1
            } else {
                m[i]
            },
    )
}

pub proof fn lemma_raise_is_raised(m: Seq<int>, s: Seq<int>, j: int, top: int)
    requires
        m.len() == 33,
        s.len() == 33,
        0 <= j <= top <= 32,
        even_between(m, j + 1, top),
        forall|i: int| 0 <= i < 33 ==> #[trigger] s[i] == (if j < i <= top {
            m[i] + 1
        } else {
            m[i]
        }),
    ensures
        raise_markers(s, j) == raised(m, top),
        break_depth(m, top) == break_depth(m, j),
    decreases j,
{
    assert(break_depth(m, top) == break_depth(m, j)) by {
        lemma_break_skips_even(m, j, top);
    }
    if j < 1 {
        assert(s =~= raised(m, top));
    } else if s[j] % 2 != 0 {
        assert(s[j] == m[j]);
        assert(s[j - 1] == m[j - 1]);
        assert(raise_markers(s, j) =~= raised(m, top));
    } else {
        let s2 = s.update(j, s[j] + 1);
        assert(s[j] == m[j]);
        assert(even_between(m, j, top)) by {
            assert forall|i: int| j <= i <= top implies #[trigger] even_at(m, i) by {
                if i > j {
                    assert(even_at(m, i));
                }
            }
        }
        lemma_raise_is_raised(m, s2, j - 1, top);
    }
}

pub proof fn lemma_break_skips_even(m: Seq<int>, j: int, top: int)
    requires
        0 <= j <= top <= 32,
        even_between(m, j + 1, top),
    ensures
        break_depth(m, top) == break_depth(m, j),
    decreases top - j,
{
    if j < top {
        assert(even_at(m, top));
        assert forall|i: int| j + 1 <= i <= top - 1 implies #[trigger] even_at(m, i) by {
            assert(even_at(m, i));
        }
        lemma_break_skips_even(m, j, top - 1);
    }
}

/// Raising gives the markers said at once.
pub proof fn lemma_raise_markers(m: Seq<int>, top: int)
    requires
        m.len() == 33,
        0 <= top <= 32,
    ensures
        raise_markers(m, top) == raised(m, top),
{
    lemma_raise_is_raised(m, m, top, top);
}

/// After raising, the marker of a length up to the claimed one is at most
/// two to the power of that length and fits the marker one shorter, and
/// the marker of the claimed length has moved on.
pub proof fn lemma_raised_at(m: Seq<int>, top: int, i: int)
    requires
        markers_ok(m),
        1 <= top <= 32,
        can_claim(m, top),
        1 <= i <= top,
    ensures
        bounded_at(raised(m, top), i),
        i >= 2 ==> shaped_at(raised(m, top), i),
        m[top] < raised(m, top)[top],
{
    lemma2_to64();
    let d = break_depth(m, top);
    lemma_break_depth(m, top);
    assert(bounded_at(m, i));
    assert(bounded_at(m, top));
    if i >= 2 {
        assert(shaped_at(m, i));
        assert(bounded_at(m, i - 1));
    }
    if top >= 2 {
        assert(shaped_at(m, top));
    }
    if d >= 1 {
        assert(bounded_at(m, d));
    }
    if d >= 2 {
        assert(shaped_at(m, d));
        assert(bounded_at(m, d - 1));
        lemma_pow2_unfold(d as nat);
    }
    lemma_pow2_unfold(i as nat);
    if d == 0 {
        // No marker ends in a one bit: the tree is empty and the markers are zero.
        lemma_zero_chain(m, top, i);
        lemma_zero_chain(m, top, top);
        if i >= 2 {
            lemma_zero_chain(m, top, i - 1);
        }
        vstd::arithmetic::power2::lemma_pow2_pos(i as nat);
    } else {
        // The markers above `d` end in a zero bit and are not used up.
        if i > d {
            assert(even_between(m, i + 1, top)) by {
                assert forall|k: int| i + 1 <= k <= top implies #[trigger] even_at(m, k) by {
                    assert(even_at(m, k));
                }
            }
            lemma_even_chain_below(m, i, top);
            assert(even_at(m, i));
            if i - 1 > d {
                assert(even_at(m, i - 1));
            }
        }
        if top > d {
            assert(even_at(m, top));
        }
        if d == 1 {
            assert(m[1] == 1) by {
                assert(pow2(1) == 2);
            }
        }
    }
}

/// Where no marker up to `top` ends in a one bit and a codeword of length
/// `top` is left, the markers up to `top` are zero.
pub proof fn lemma_zero_chain(m: Seq<int>, top: int, i: int)
    requires
        markers_ok(m),
        1 <= i <= top <= 32,
        can_claim(m, top),
        even_between(m, 1, top),
    ensures
        m[i] == 0,
{
    lemma2_to64();
    assert(even_between(m, 2, top)) by {
        assert forall|k: int| 2 <= k <= top implies #[trigger] even_at(m, k) by {
            assert(even_at(m, k));
        }
    }
    lemma_even_chain_below(m, 1, top);
    assert(even_at(m, 1));
    assert(bounded_at(m, 1));
    assert(m[1] == 0);
    assert(even_between(m, 2, i)) by {
        assert forall|k: int| 2 <= k <= i implies #[trigger] even_at(m, k) by {
            assert(even_at(m, k));
        }
    }
    lemma_even_chain(m, 1, i);
    assert(pow2((i - 1) as nat) * 0 == 0) by (nonlinear_arith);
}

/// Pruning keeps the shape of the markers of the lengths above the
/// claimed one.
pub proof fn lemma_prune(m: Seq<int>, s: Seq<int>, j: int)
    requires
        markers_ok(m),
        2 <= j <= 33,
        s.len() == 33,
        forall|i: int| j <= i < 33 ==> #[trigger] s[i] == m[i],
        forall|i: int| 1 <= i < j ==> #[trigger] bounded_at(s, i),
        forall|i: int| 2 <= i < j ==> #[trigger] shaped_at(s, i),
        m[j - 1] < s[j - 1],
    ensures
        markers_ok(prune_markers(s, m[j - 1], j)),
    decreases 33 - j,
{
    lemma2_to64();
    if j < 33 {
        lemma_pow2_unfold(j as nat);
        assert(bounded_at(m, j));
        assert(shaped_at(m, j));
        assert(bounded_at(s, j - 1));
        if s[j] / 2 == m[j - 1] {
            let s2 = s.update(j, 2 * s[j - 1]);
            assert(m[j] % 2 == 0);
            assert forall|i: int| 1 <= i < j + 1 implies #[trigger] bounded_at(s2, i) by {
                if i < j {
                    assert(bounded_at(s, i));
                }
            }
            assert forall|i: int| 2 <= i < j + 1 implies #[trigger] shaped_at(s2, i) by {
                if i < j {
                    assert(shaped_at(s, i));
                }
            }
            lemma_prune(m, s2, j + 1);
        } else {
            assert(m[j] % 2 != 0);
            lemma_shape_joined(m, s, j);
        }
    } else {
        assert(markers_ok(s));
    }
}

/// Markers that have the right shape below `j`, are unchanged from `j` on
/// and fit at `j` have the right shape.
pub proof fn lemma_shape_joined(m: Seq<int>, s: Seq<int>, j: int)
    requires
        markers_ok(m),
        2 <= j <= 32,
        s.len() == 33,
        forall|i: int| j <= i < 33 ==> #[trigger] s[i] == m[i],
        forall|i: int| 1 <= i < j ==> #[trigger] bounded_at(s, i),
        forall|i: int| 2 <= i < j ==> #[trigger] shaped_at(s, i),
        m[j] % 2 != 0,
        m[j - 1] < s[j - 1],
    ensures
        markers_ok(s),
{
    assert forall|i: int| 1 <= i <= 32 implies #[trigger] bounded_at(s, i) by {
        if i >= j {
            assert(bounded_at(m, i));
        }
    }
    assert forall|i: int| 2 <= i <= 32 implies #[trigger] shaped_at(s, i) by {
        if i >= j {
            assert(shaped_at(m, i));
        }
    }
}

/// Claiming a codeword that is left keeps the shape of the markers.
pub proof fn lemma_claim_keeps_shape(m: Seq<int>, length: int)
    requires
        markers_ok(m),
        1 <= length <= 32,
        can_claim(m, length),
    ensures
        markers_ok(markers_after_claim(m, length)),
{
    lemma_raise_markers(m, length);
    let r = raised(m, length);
    assert forall|i: int| 1 <= i < length + 1 implies #[trigger] bounded_at(r, i) by {
        lemma_raised_at(m, length, i);
    }
    assert forall|i: int| 2 <= i < length + 1 implies #[trigger] shaped_at(r, i) by {
        lemma_raised_at(m, length, i);
    }
    lemma_raised_at(m, length, length);
    lemma_prune(m, r, length + 1);
}

/// The fresh markers have the shape of a tree filled from the left.
pub proof fn lemma_fresh_markers_ok()
    ensures
        markers_ok(fresh_markers()),
{
    assert forall|j: int| 1 <= j <= 32 implies #[trigger] bounded_at(fresh_markers(), j) by {
        vstd::arithmetic::power2::lemma_pow2_pos(j as nat);
    }
    assert forall|j: int| 2 <= j <= 32 implies #[trigger] shaped_at(fresh_markers(), j) by {
    }
}

/// The codewords and the markers after the first `k` entries of `l` got
/// their codewords, or nothing if one of them has a length outside 0 to 32
/// or finds no codeword of its length left. An entry of length 0 gets no
/// codeword; the list holds a zero in its place.
pub open spec fn assign_codewords(l: Seq<i8>, k: int) -> Option<(Seq<int>, Seq<int>)>
    decreases k,
{
    if k <= 0 {
        Some((Seq::empty(), fresh_markers()))
    } else {
        match assign_codewords(l, k - 1) {
            None => None,
            Some((codes, m)) => {
                let length = l[k - 1] as int;
                if length == 0 {
                    Some((codes.push(0), m))
                } else if length < 0 || length > 32 || !can_claim(m, length) {
                    None
                } else {
                    Some((codes.push(m[length]), markers_after_claim(m, length)))
                }
            },
        }
    }
}

/// How many of the first `k` entries of `l` are used.
pub open spec fn used_count(l: Seq<i8>, k: int) -> int
    decreases k,
{
    if k <= 0 {
        0
    } else {
        used_count(l, k - 1) + if l[k - 1] != 0 {
            1int
        } else {
            0int
        }
    }
}

/// Whether the tree has a place for a codeword left: a marker has a one
/// bit among as many low bits as it is long.
pub open spec fn tree_incomplete(m: Seq<int>) -> bool {
    exists|i: int| 1 <= i <= 32 && #[trigger] m[i] % (pow2(i as nat) as int) != 0
}

/// Whether the codebook is the one that may leave half of its tree empty:
/// a single codeword, which has one bit.
pub open spec fn lone_codeword(count: int, m: Seq<int>) -> bool {
    count == 1 && m[2] == 2
}

/// The codeword `c` of `length` bits as the bit packer wants it: with its
/// bits in reverse order, the first bit of the codeword lowest.
pub open spec fn reversed_code(c: int, length: int) -> u32 {
    bits_value(Seq::new(length as nat, |t: int| bit32(c as u32, (length - 1 - t) as u32)))
}

/// The words of all the first `k` entries, a zero for an entry that is
/// not used.
pub open spec fn dense_words(l: Seq<i8>, codes: Seq<int>, k: int) -> Seq<u32> {
    Seq::new(k as nat, |i: int| reversed_code(codes[i], l[i] as int))
}

/// The words of those of the first `k` entries that are used.
pub open spec fn sparse_words(l: Seq<i8>, codes: Seq<int>, k: int) -> Seq<u32>
    decreases k,
{
    if k <= 0 {
        Seq::empty()
    } else if l[k - 1] != 0 {
        sparse_words(l, codes, k - 1).push(reversed_code(codes[k - 1], l[k - 1] as int))
    } else {
        sparse_words(l, codes, k - 1)
    }
}

/// What making the words of the code lengths `l` gives. With a
/// `sparsecount` of 0 every entry has a word, in the order of the entries.
/// Otherwise only the used entries have one, and the list is filled up
/// with zeros to `sparsecount` words.
pub open spec fn spec_make_words(l: Seq<i8>, sparsecount: int) -> Result<Seq<u32>, Error> {
    let n = l.len() as int;
    match assign_codewords(l, n) {
        None => Err(Error::InvalidData),
        Some((codes, m)) => {
            let count = if sparsecount == 0 {
                n
            } else {
                used_count(l, n)
            };
            if !lone_codeword(count, m) && tree_incomplete(m) {
                Err(Error::InvalidData)
            } else if sparsecount == 0 {
                Ok(dense_words(l, codes, n))
            } else {
                Ok(
                    sparse_words(l, codes, n) + Seq::new(
                        (sparsecount - used_count(l, n)) as nat,
                        |i: int| 0u32,
                    ),
                )
            }
        },
    }
}

/// The markers as numbers.
pub open spec fn markers_view(v: Seq<u64>) -> Seq<int> {
    Seq::new(v.len(), |i: int| v[i] as int)
}

/// Two to the power `e`.
fn pow2_u64(e: usize) -> (r: u64)
    requires
        e <= 32,
    ensures
        r == pow2(e as nat),
        r <= 0x1_0000_0000,
{
    proof {
        lemma2_to64();
        if e < 32 {
            lemma_pow2_strictly_increases(e as nat, 32);
        }
        vstd::bits::lemma_u64_shl_is_mul(1, e as u64);
    }
    1u64 << e
}

/// Moves the markers of the lengths up to `length` on after a codeword of
/// that length is claimed.
fn raise(marker: &mut Vec<u64>, length: usize)
    requires
        markers_ok(markers_view(old(marker)@)),
        1 <= length <= 32,
        can_claim(markers_view(old(marker)@), length as int),
    ensures
        final(marker)@.len() == 33,
        markers_view(final(marker)@) == raise_markers(markers_view(old(marker)@), length as int),
{
    let ghost m0 = markers_view(marker@);
    let mut j: usize = length;
    let mut done = false;
    proof {
        lemma2_to64();
    }
    while j >= 1 && !done
        invariant
            0 <= j <= length <= 32,
            marker@.len() == 33,
            m0.len() == 33,
            markers_ok(m0),
            !done ==> forall|i: int| 0 <= i <= j ==> (#[trigger] marker@[i]) as int == m0[i],
            !done ==> raise_markers(m0, length as int) == raise_markers(markers_view(marker@), j as int),
            done ==> raise_markers(m0, length as int) == markers_view(marker@),
        decreases j + if done { 0int } else { 1int },
    {
        let ghost cur = markers_view(marker@);
        proof {
            lemma2_to64();
        }
        assert(marker@[j as int] as int == m0[j as int]);
        assert(marker@[j - 1] as int == m0[j - 1]);
        assert(bounded_at(m0, j as int));
        assert(pow2(j as nat) <= pow2(32)) by {
            if j < 32 {
                lemma_pow2_strictly_increases(j as nat, 32);
            }
        }
        if marker[j] % 2 != 0 {
            if j == 1 {
                let v = marker[1] + 1;
                marker.set(1, v);
                assert(markers_view(marker@) =~= cur.update(1, cur[1] + 1));
            } else {
                assert(bounded_at(m0, j - 1));
                assert(pow2((j - 1) as nat) <= pow2(32)) by {
                    lemma_pow2_strictly_increases((j - 1) as nat, 32);
                }
                let v = 2 * marker[j - 1];
                marker.set(j, v);
                assert(markers_view(marker@) =~= cur.update(j as int, 2 * cur[j - 1]));
            }
            done = true;
        } else {
            let v = marker[j] + 1;
            marker.set(j, v);
            assert(markers_view(marker@) =~= cur.update(j as int, cur[j as int] + 1));
            j -= 1;
        }
    }
}

/// Lets the markers of the lengths above `length` hang from the marker of
/// that length after the codeword `entry` of that length is claimed.
fn prune(marker: &mut Vec<u64>, Ghost(m0): Ghost<Seq<int>>, entry: u64, length: usize)
    requires
        markers_ok(m0),
        1 <= length <= 32,
        can_claim(m0, length as int),
        entry == m0[length as int],
        markers_view(old(marker)@) == raise_markers(m0, length as int),
        old(marker)@.len() == 33,
    ensures
        final(marker)@.len() == 33,
        markers_view(final(marker)@) == markers_after_claim(m0, length as int),
        markers_ok(markers_view(final(marker)@)),
{
    let ghost r0 = markers_view(marker@);
    let mut j: usize = length + 1;
    let mut chain: u64 = entry;
    let mut done = false;
    proof {
        lemma2_to64();
        lemma_claim_keeps_shape(m0, length as int);
        lemma_raise_markers(m0, length as int);
        assert forall|i: int| 1 <= i < length + 1 implies #[trigger] bounded_at(r0, i) by {
            lemma_raised_at(m0, length as int, i);
        }
    }
    while j < 33 && !done
        invariant
            length + 1 <= j <= 33,
            1 <= length <= 32,
            marker@.len() == 33,
            m0.len() == 33,
            r0.len() == 33,
            forall|i: int| 1 <= i < j ==> #[trigger] bounded_at(markers_view(marker@), i),
            !done ==> prune_markers(r0, m0[length as int], length + 1) == prune_markers(
                markers_view(marker@),
                chain as int,
                j as int,
            ),
            done ==> prune_markers(r0, m0[length as int], length + 1) == markers_view(marker@),
        decreases 33 - j + if done { 0int } else { 1int },
    {
        let ghost cur = markers_view(marker@);
        proof {
            lemma2_to64();
        }
        if marker[j] / 2 == chain {
            assert(bounded_at(markers_view(marker@), j - 1));
            assert(pow2((j - 1) as nat) <= pow2(32)) by {
                if j - 1 < 32 {
                    lemma_pow2_strictly_increases((j - 1) as nat, 32);
                }
            }
            chain = marker[j];
            let v = 2 * marker[j - 1];
            marker.set(j, v);
            proof {
                let next = markers_view(marker@);
                assert(next =~= cur.update(j as int, 2 * cur[j - 1]));
                lemma_pow2_unfold(j as nat);
                assert forall|i: int| 1 <= i < j + 1 implies #[trigger] bounded_at(next, i) by {
                    if i < j {
                        assert(bounded_at(cur, i));
                    }
                }
            }
            j += 1;
        } else {
            done = true;
        }
    }
}

/// Claims the next codeword of length `length`, if one is left.
fn claim(marker: &mut Vec<u64>, length: usize) -> (r: Option<u32>)
    requires
        markers_ok(markers_view(old(marker)@)),
        1 <= length <= 32,
    ensures
        final(marker)@.len() == 33,
        can_claim(markers_view(old(marker)@), length as int) ==> {
            &&& r == Some(markers_view(old(marker)@)[length as int] as u32)
            &&& markers_view(final(marker)@) == markers_after_claim(
                markers_view(old(marker)@),
                length as int,
            )
            &&& markers_ok(markers_view(final(marker)@))
            &&& markers_view(old(marker)@)[length as int] < pow2(32)
        },
        !can_claim(markers_view(old(marker)@), length as int) ==> r.is_none() && final(marker)@ == old(
            marker,
        )@,
{
    let ghost m0 = markers_view(marker@);
    let entry: u64 = marker[length];
    let limit = pow2_u64(length);
    if entry >= limit {
        return None;
    }
    proof {
        lemma2_to64();
        if length < 32 {
            lemma_pow2_strictly_increases(length as nat, 32);
        }
    }
    raise(marker, length);
    prune(marker, Ghost(m0), entry, length);
    Some(entry as u32)
}

/// The word `x` with its 32 bits in reverse order.
pub open spec fn spec_bitreverse(x: u32) -> u32 {
    reversed_code(x as int, 32)
}

proof fn lemma_swap_network_bit(x: u32, t: u32)
    by (bit_vector)
    requires
        t < 32,
    ensures
        ({
            let a = ((x >> 16) & 0x0000ffff) | ((x << 16) & 0xffff0000);
            let b = ((a >> 8) & 0x00ff00ff) | ((a << 8) & 0xff00ff00);
            let c = ((b >> 4) & 0x0f0f0f0f) | ((b << 4) & 0xf0f0f0f0);
            let d = ((c >> 2) & 0x33333333) | ((c << 2) & 0xcccccccc);
            let e = ((d >> 1) & 0x55555555) | ((d << 1) & 0xaaaaaaaa);
            bit32(e, t) == bit32(x, (31 - t) as u32)
        }),
{
}

/// The bits of `x` in reverse order, by exchanging halves, then bytes,
/// then smaller and smaller groups of bits.
pub open spec fn swap_network(x: u32) -> u32 {
    let a = ((x >> 16) & 0x0000ffff) | ((x << 16) & 0xffff0000);
    let b = ((a >> 8) & 0x00ff00ff) | ((a << 8) & 0xff00ff00);
    let c = ((b >> 4) & 0x0f0f0f0f) | ((b << 4) & 0xf0f0f0f0);
    let d = ((c >> 2) & 0x33333333) | ((c << 2) & 0xcccccccc);
    ((d >> 1) & 0x55555555) | ((d << 1) & 0xaaaaaaaa)
}

/// Bit `t` of the reversed word is bit `31 - t` of the word, and the
/// exchanges of groups of bits reverse a word.
pub proof fn lemma_bitreverse_bit(x: u32, t: u32)
    requires
        t < 32,
    ensures
        bit32(spec_bitreverse(x), t) == bit32(x, (31 - t) as u32),
        spec_bitreverse(x) == swap_network(x),
{
    let bits = Seq::new(32, |t: int| bit32((x as int) as u32, (32 - 1 - t) as u32));
    lemma_bits_value_bit(bits, t);
    assert forall|k: u32| k < 32 implies bit32(swap_network(x), k) == bit32(bits_value(bits), k) by {
        lemma_swap_network_bit(x, k);
        lemma_bits_value_bit(bits, k);
    }
    lemma_bits_determine_value(swap_network(x), bits_value(bits));
}

/// Bit `t` of the reversed codeword of `length` bits is bit
/// `length - 1 - t` of the codeword, and zero from bit `length` on.
pub proof fn lemma_reversed_code_bit(c: int, length: int, t: u32)
    requires
        0 <= length <= 32,
        t < 32,
    ensures
        bit32(reversed_code(c, length), t) == (t < length && bit32(c as u32, (length - 1 - t) as u32)),
{
    let bits = Seq::new(length as nat, |t: int| bit32(c as u32, (length - 1 - t) as u32));
    lemma_bits_value_bit(bits, t);
}

/// Reverses the order of the 32 bits of `x`.
pub fn bitreverse(x: u32) -> (r: u32)
    ensures
        r == spec_bitreverse(x),
        r == swap_network(x),
{
    let a = ((x >> 16) & 0x0000ffff) | ((x << 16) & 0xffff0000);
    let b = ((a >> 8) & 0x00ff00ff) | ((a << 8) & 0xff00ff00);
    let c = ((b >> 4) & 0x0f0f0f0f) | ((b << 4) & 0xf0f0f0f0);
    let d = ((c >> 2) & 0x33333333) | ((c << 2) & 0xcccccccc);
    let e = ((d >> 1) & 0x55555555) | ((d << 1) & 0xaaaaaaaa);
    proof {
        let bits = Seq::new(32, |t: int| bit32((x as int) as u32, (32 - 1 - t) as u32));
        assert forall|t: u32| t < 32 implies bit32(e, t) == bit32(bits_value(bits), t) by {
            lemma_swap_network_bit(x, t);
            lemma_bits_value_bit(bits, t);
        }
        lemma_bits_determine_value(e, bits_value(bits));
    }
    e
}

proof fn lemma_push_bit(x: u32, c: u32, j: u32, t: u32)
    by (bit_vector)
    requires
        j < 32,
        t < 32,
    ensures
        bit32((x << 1) | ((c >> j) & 1), t) == (if t == 0 {
            bit32(c, j)
        } else {
            bit32(x, (t - 1) as u32)
        }),
        !bit32(0u32, t),
{
}

/// Reverses the order of the `length` low bits of `c`.
fn reverse_code(c: u32, length: usize) -> (r: u32)
    requires
        length <= 32,
    ensures
        r == reversed_code(c as int, length as int),
{
    let mut temp: u32 = 0;
    let mut j: usize = 0;
    proof {
        assert forall|t: u32| t < 32 implies !bit32(0u32, t) by {
            lemma_push_bit(0, 0, 0, t);
        }
    }
    while j < length
        invariant
            j <= length <= 32,
            forall|t: u32| t < 32 ==> bit32(temp, t) == (t < j && bit32(c, (j - 1 - t) as u32)),
        decreases length - j,
    {
        let next = (temp << 1) | ((c >> j) & 1);
        proof {
            assert forall|t: u32| t < 32 implies bit32(next, t) == (t < j + 1 && bit32(
                c,
                (j - t) as u32,
            )) by {
                lemma_push_bit(temp, c, j as u32, t);
                if t > 0 {
                    assert(bit32(temp, (t - 1) as u32) == ((t - 1) < j && bit32(
                        c,
                        (j - 1 - (t - 1)) as u32,
                    )));
                }
            }
        }
        temp = next;
        j += 1;
    }
    proof {
        let bits = Seq::new(length as nat, |t: int| bit32((c as int) as u32, (length - 1 - t) as u32));
        assert forall|t: u32| t < 32 implies bit32(temp, t) == bit32(bits_value(bits), t) by {
            lemma_bits_value_bit(bits, t);
        }
        lemma_bits_determine_value(temp, bits_value(bits));
    }
    temp
}

/// The codewords as numbers.
pub open spec fn codes_view(v: Seq<u32>) -> Seq<int> {
    Seq::new(v.len(), |i: int| v[i] as int)
}

/// Once an entry finds no codeword, no later entry changes that.
pub proof fn lemma_assign_fails_on(l: Seq<i8>, k: int, n: int)
    requires
        0 <= k <= n,
        assign_codewords(l, k).is_none(),
    ensures
        assign_codewords(l, n).is_none(),
    decreases n - k,
{
    if k < n {
        lemma_assign_fails_on(l, k, n - 1);
    }
}

/// Hands out the codewords of the first `n` entries of `l`, and returns
/// them with the markers and the number of used entries.
fn assign(l: &[i8], n: usize) -> (r: Option<(Vec<u32>, Vec<u64>, usize)>)
    requires
        n <= l@.len(),
    ensures
        match assign_codewords(l@.take(n as int), n as int) {
            Some((codes, m)) => r matches Some((c, v, used)) && codes_view(c@) == codes && markers_view(
                v@,
            ) == m && v@.len() == 33 && c@.len() == n && used == used_count(l@.take(n as int), n as int)
                && markers_ok(m),
            None => r.is_none(),
        },
{
    let ghost list = l@.take(n as int);
    let mut marker: Vec<u64> = Vec::new();
    let mut z: usize = 0;
    while z < 33
        invariant
            z <= 33,
            marker@.len() == z,
            forall|i: int| 0 <= i < z ==> marker@[i] == 0,
        decreases 33 - z,
    {
        marker.push(0);
        z += 1;
    }
    let mut codes: Vec<u32> = Vec::new();
    let mut used: usize = 0;
    let mut i: usize = 0;
    proof {
        assert(markers_view(marker@) =~= fresh_markers());
        assert(codes_view(codes@) =~= Seq::<int>::empty());
        lemma_fresh_markers_ok();
    }
    while i < n
        invariant
            i <= n <= l@.len(),
            list == l@.take(n as int),
            marker@.len() == 33,
            codes@.len() == i,
            used == used_count(list, i as int),
            used <= i,
            markers_ok(markers_view(marker@)),
            assign_codewords(list, i as int) == Some((codes_view(codes@), markers_view(marker@))),
        decreases n - i,
    {
        let ghost before = codes_view(codes@);
        let ghost m = markers_view(marker@);
        let length: i8 = l[i];
        assert(list[i as int] == length);
        if length == 0 {
            codes.push(0);
            proof {
                assert(codes_view(codes@) =~= before.push(0));
            }
        } else if length < 0 || length > 32 {
            proof {
                assert(assign_codewords(list, i + 1).is_none());
                lemma_assign_fails_on(list, i + 1, n as int);
            }
            return None;
        } else {
            match claim(&mut marker, length as usize) {
                Some(c) => {
                    codes.push(c);
                    proof {
                        lemma2_to64();
                        assert(codes_view(codes@) =~= before.push(m[length as int]));
                    }
                    used += 1;
                },
                None => {
                    proof {
                        assert(assign_codewords(list, i + 1).is_none());
                        lemma_assign_fails_on(list, i + 1, n as int);
                    }
                    return None;
                },
            }
        }
        i += 1;
    }
    Some((codes, marker, used))
}

/// Whether a marker has a one bit among as many low bits as it is long.
fn incomplete(marker: &Vec<u64>) -> (b: bool)
    requires
        marker@.len() == 33,
    ensures
        b == tree_incomplete(markers_view(marker@)),
{
    let mut i: usize = 1;
    while i < 33
        invariant
            1 <= i <= 33,
            marker@.len() == 33,
            forall|k: int|
                1 <= k < i ==> #[trigger] markers_view(marker@)[k] % (pow2(k as nat) as int) == 0,
        decreases 33 - i,
    {
        let p = pow2_u64(i);
        proof {
            vstd::arithmetic::power2::lemma_pow2_pos(i as nat);
        }
        if marker[i] % p != 0 {
            assert(markers_view(marker@)[i as int] % (pow2(i as nat) as int) != 0);
            return true;
        }
        i += 1;
    }
    false
}

/// Makes the words of a list of code lengths: each used entry gets the
/// first codeword of its length that is left in the tree, and its word is
/// that codeword with the bits in reverse order. The lengths must fill
/// the tree exactly, but for a codebook of a single codeword of one bit.
///
/// With a `sparsecount` of 0 every one of the first `n` entries has a
/// word; otherwise only the used ones have, and the list is filled up
/// with zeros to `sparsecount` words.
pub fn make_words(lengthlist: &[i8], n: i32, sparsecount: i32) -> (r: Result<Vec<u32>, Error>)
    requires
        0 <= n <= lengthlist@.len(),
        0 <= sparsecount,
        sparsecount != 0 ==> used_count(lengthlist@.take(n as int), n as int) <= sparsecount,
    ensures
        match spec_make_words(lengthlist@.take(n as int), sparsecount as int) {
            Ok(words) => r matches Ok(v) && v@ == words,
            Err(e) => r matches Err(x) && x == e,
        },
{
    let ghost list = lengthlist@.take(n as int);
    let count = n as usize;
    let (codes, marker, used) = match assign(lengthlist, count) {
        Some(t) => t,
        None => {
            return Err(Error::InvalidData);
        },
    };
    let ghost raw = codes_view(codes@);
    let slots: usize = if sparsecount == 0 {
        count
    } else {
        used
    };
    if !(slots == 1 && marker[2] == 2) && incomplete(&marker) {
        return Err(Error::InvalidData);
    }
    let mut ret: Vec<u32> = Vec::new();
    let mut i: usize = 0;
    if sparsecount == 0 {
        while i < count
            invariant
                i <= count <= lengthlist@.len(),
                codes@.len() == count,
                list == lengthlist@.take(count as int),
                raw == codes_view(codes@),
                assign_codewords(list, count as int).is_some(),
                ret@ == dense_words(list, raw, i as int),
            decreases count - i,
        {
            let length = lengthlist[i];
            proof {
                lemma_assigned_lengths(list, count as int, i as int);
            }
            ret.push(reverse_code(codes[i], length as usize));
            assert(ret@ =~= dense_words(list, raw, i + 1));
            i += 1;
        }
        Ok(ret)
    } else {
        while i < count
            invariant
                i <= count <= lengthlist@.len(),
                codes@.len() == count,
                list == lengthlist@.take(count as int),
                raw == codes_view(codes@),
                assign_codewords(list, count as int).is_some(),
                ret@ == sparse_words(list, raw, i as int),
                ret@.len() == used_count(list, i as int),
            decreases count - i,
        {
            let length = lengthlist[i];
            proof {
                lemma_assigned_lengths(list, count as int, i as int);
            }
            if length != 0 {
                ret.push(reverse_code(codes[i], length as usize));
            }
            i += 1;
        }
        let ghost words = ret@;
        let target = sparsecount as usize;
        while ret.len() < target
            invariant
                words.len() <= ret@.len() <= target,
                ret@ == words + Seq::new((ret@.len() - words.len()) as nat, |k: int| 0u32),
            decreases target - ret@.len(),
        {
            ret.push(0);
            assert(ret@ =~= words + Seq::new((ret@.len() - words.len()) as nat, |k: int| 0u32));
        }
        Ok(ret)
    }
}

/// Where every entry got its codeword, every length is between 0 and 32.
pub proof fn lemma_assigned_lengths(l: Seq<i8>, n: int, i: int)
    requires
        0 <= i < n,
        assign_codewords(l, n).is_some(),
    ensures
        0 <= l[i] <= 32,
    decreases n - i,
{
    if i < n - 1 {
        lemma_assigned_lengths(l, n - 1, i);
    }
}

} // verus!
