//! Small integer functions of the bitstream format: bit lengths, bit
//! counts and integer roots.

use vstd::arithmetic::power::pow;
use vstd::prelude::*;

verus! {

/// The number of bits that `v` needs: 0 for 0, and one more than the
/// position of the highest set bit otherwise.
pub open spec fn spec_ilog(v: int) -> int
    decreases v,
{
    if v <= 0 {
        0
    } else {
        1 + spec_ilog(v / 2)
    }
}

/// The number of set bits of `v`.
pub open spec fn spec_icount(v: int) -> int
    decreases v,
{
    if v <= 0 {
        0
    } else {
        v % 2 + spec_icount(v / 2)
    }
}

/// A number of at most `n` bits has a bit length of at most `n`.
pub proof fn lemma_ilog_bound(v: int, n: nat)
    requires
        0 <= v < pow(2, n),
    ensures
        0 <= spec_ilog(v) <= n,
    decreases v,
{
    if v > 0 {
        if n == 0 {
            assert(pow(2, 0) == 1) by {
                vstd::arithmetic::power::lemma_pow0(2);
            }
        } else {
            assert(pow(2, n) == 2 * pow(2, (n - 1) as nat)) by {
                reveal(pow);
            }
            lemma_ilog_bound(v / 2, (n - 1) as nat);
        }
    }
}

/// A number is below two to the power of its bit length, and, if it is
/// positive, not below half of that.
pub proof fn lemma_ilog_is_bit_length(v: int)
    requires
        0 <= v,
    ensures
        v < pow(2, spec_ilog(v) as nat),
        v > 0 ==> pow(2, (spec_ilog(v) - 1) as nat) <= v,
        0 <= spec_ilog(v),
    decreases v,
{
    if v <= 0 {
        assert(pow(2, 0) == 1) by {
            vstd::arithmetic::power::lemma_pow0(2);
        }
    } else {
        lemma_ilog_is_bit_length(v / 2);
        let k = spec_ilog(v / 2);
        assert(pow(2, (k + 1) as nat) == 2 * pow(2, k as nat)) by {
            reveal(pow);
        }
        if v / 2 > 0 {
            assert(pow(2, k as nat) == 2 * pow(2, (k - 1) as nat)) by {
                reveal(pow);
            }
        } else {
            assert(pow(2, 0) == 1) by {
                vstd::arithmetic::power::lemma_pow0(2);
            }
        }
    }
}

proof fn lemma_halving(x: u64, r: u32)
    by (bit_vector)
    requires
        x != 0,
        r <= 64,
        r < 64 ==> x <= (0xffff_ffff_ffff_ffffu64 >> r),
        r == 64 ==> x == 0,
    ensures
        r < 64,
        x >> 1 == x / 2,
        x & 1 == x % 2,
        r + 1 < 64 ==> (x >> 1) <= (0xffff_ffff_ffff_ffffu64 >> ((r + 1) as u32)),
        r + 1 == 64 ==> (x >> 1) == 0,
{
}

/// The number of bits that `v` needs.
pub fn ilog(v: u64) -> (r: i32)
    ensures
        r == spec_ilog(v as int),
        0 <= r <= 64,
{
    let mut ret: u32 = 0;
    let mut x: u64 = v;
    assert(v <= (0xffff_ffff_ffff_ffffu64 >> 0u32)) by (bit_vector);
    while x != 0
        invariant
            ret <= 64,
            ret < 64 ==> x <= (0xffff_ffff_ffff_ffffu64 >> ret),
            ret == 64 ==> x == 0,
            ret + spec_ilog(x as int) == spec_ilog(v as int),
        decreases x,
    {
        proof {
            lemma_halving(x, ret);
        }
        x = x >> 1;
        ret = ret + 1;
    }
    ret as i32
}

/// The number of set bits of `v`.
pub fn icount(v: u64) -> (r: usize)
    ensures
        r == spec_icount(v as int),
        r <= 64,
{
    let mut ret: usize = 0;
    let mut x: u64 = v;
    let mut steps: u32 = 0;
    assert(v <= (0xffff_ffff_ffff_ffffu64 >> 0u32)) by (bit_vector);
    while x != 0
        invariant
            steps <= 64,
            steps < 64 ==> x <= (0xffff_ffff_ffff_ffffu64 >> steps),
            steps == 64 ==> x == 0,
            ret <= steps,
            ret + spec_icount(x as int) == spec_icount(v as int),
        decreases x,
    {
        proof {
            lemma_halving(x, steps);
        }
        ret = ret + (x & 1) as usize;
        x = x >> 1;
        steps = steps + 1;
    }
    ret
}

/// A power grows with its base.
pub proof fn lemma_pow_base_increases(a: int, b: int, e: nat)
    requires
        0 <= a <= b,
    ensures
        0 <= pow(a, e) <= pow(b, e),
    decreases e,
{
    reveal(pow);
    if e > 0 {
        lemma_pow_base_increases(a, b, (e - 1) as nat);
        let x = pow(a, (e - 1) as nat);
        let y = pow(b, (e - 1) as nat);
        assert(0 <= a * x <= b * y) by (nonlinear_arith)
            requires
                0 <= a <= b,
                0 <= x <= y,
        ;
    }
}

/// A power with a positive exponent of a base of at least one is at least
/// the base.
pub proof fn lemma_pow_at_least_base(b: int, e: nat)
    requires
        1 <= b,
        1 <= e,
    ensures
        b <= pow(b, e),
    decreases e,
{
    reveal(pow);
    if e == 1 {
        assert(pow(b, 0) == 1);
    } else {
        lemma_pow_at_least_base(b, (e - 1) as nat);
        let x = pow(b, (e - 1) as nat);
        assert(b <= b * x) by (nonlinear_arith)
            requires
                1 <= b <= x,
        ;
    }
}

/// `v` is the integer `dim`-th root of `entries`, rounded down.
pub open spec fn is_lattice_root(v: int, entries: int, dim: int) -> bool {
    &&& 1 <= v
    &&& 1 <= dim
    &&& pow(v, dim as nat) <= entries < pow(v + 1, dim as nat)
}

/// No number has two integer roots.
pub proof fn lemma_lattice_root_unique(v: int, w: int, entries: int, dim: int)
    requires
        is_lattice_root(v, entries, dim),
        is_lattice_root(w, entries, dim),
    ensures
        v == w,
{
    if v < w {
        lemma_pow_base_increases(v + 1, w, dim as nat);
    } else if w < v {
        lemma_pow_base_increases(w + 1, v, dim as nat);
    }
}

/// The number of quantized values per dimension of a lattice codebook of
/// `entries` entries of dimension `dim`: the integer `dim`-th root of
/// `entries`, and 0 where there is no entry or no dimension.
pub open spec fn lattice_quantvals(entries: int, dim: int) -> int {
    if entries < 1 || dim < 1 {
        0
    } else {
        choose|v: int| is_lattice_root(v, entries, dim)
    }
}

/// `base` to the power `dim`, or `cap + 1` if that power is above `cap`.
pub(crate) fn pow_capped(base: u64, dim: u32, cap: u64) -> (r: u64)
    requires
        1 <= base <= 0x8000_0000,
        cap < 0x8000_0000,
    ensures
        r == (if pow(base as int, dim as nat) <= cap {
            pow(base as int, dim as nat)
        } else {
            cap + 1
        }),
{
    if base == 1 {
        proof {
            vstd::arithmetic::power::lemma1_pow(dim as nat);
        }
        return if 1 <= cap {
            1
        } else {
            cap + 1
        };
    }
    let mut acc: u64 = 1;
    let mut i: u32 = 0;
    proof {
        vstd::arithmetic::power::lemma_pow0(base as int);
    }
    while i < dim
        invariant
            i <= dim,
            2 <= base <= 0x8000_0000,
            cap < 0x8000_0000,
            acc == pow(base as int, i as nat),
            acc <= cap || i == 0,
            acc <= 0x8000_0000,
        decreases dim - i,
    {
        assert(acc * base <= 0x8000_0000 * 0x8000_0000) by (nonlinear_arith)
            requires
                acc <= 0x8000_0000,
                base <= 0x8000_0000,
        ;
        let next: u64 = acc * base;
        proof {
            reveal(pow);
            assert(pow(base as int, (i + 1) as nat) == base * pow(base as int, i as nat));
            assert(base * pow(base as int, i as nat) == acc * base) by (nonlinear_arith)
                requires
                    acc == pow(base as int, i as nat),
            ;
        }
        if next > cap {
            proof {
                vstd::arithmetic::power::lemma_pow_increases(base as nat, (i + 1) as nat, dim as nat);
            }
            return cap + 1;
        }
        acc = next;
        i = i + 1;
    }
    acc
}

/// The integer `dim`-th root of `entries`, rounded down; 0 where
/// `entries` or `dim` is below 1.
pub fn lattice_root(entries: i32, dim: i32) -> (r: i32)
    ensures
        r == lattice_quantvals(entries as int, dim as int),
        entries >= 1 && dim >= 1 ==> is_lattice_root(r as int, entries as int, dim as int),
        entries < 1 || dim < 1 ==> r == 0,
{
    if entries < 1 || dim < 1 {
        return 0;
    }
    let cap: u64 = entries as u64;
    let d: u32 = dim as u32;
    let mut lo: u64 = 1;
    let mut hi: u64 = cap + 1;
    proof {
        vstd::arithmetic::power::lemma1_pow(d as nat);
        lemma_pow_at_least_base(hi as int, d as nat);
    }
    while hi - lo > 1
        invariant
            1 <= lo < hi <= cap + 1,
            cap == entries,
            d == dim,
            1 <= d,
            cap < 0x8000_0000,
            pow(lo as int, d as nat) <= cap < pow(hi as int, d as nat),
        decreases hi - lo,
    {
        let mid: u64 = lo + (hi - lo) / 2;
        let p = pow_capped(mid, d, cap);
        if p <= cap {
            lo = mid;
        } else {
            hi = mid;
        }
    }
    proof {
        assert(hi == lo + 1);
        assert(is_lattice_root(lo as int, entries as int, dim as int));
        let chosen = lattice_quantvals(entries as int, dim as int);
        lemma_lattice_root_unique(lo as int, chosen, entries as int, dim as int);
    }
    lo as i32
}

/// Two numbers whose bit lengths add up to at most 24 have a product
/// below two to the power 24.
pub proof fn lemma_product_of_bit_lengths(a: int, b: int)
    requires
        0 <= a,
        0 <= b,
        spec_ilog(a) + spec_ilog(b) <= 24,
    ensures
        a * b < 0x100_0000,
{
    lemma_ilog_is_bit_length(a);
    lemma_ilog_is_bit_length(b);
    let x = spec_ilog(a) as nat;
    let y = spec_ilog(b) as nat;
    vstd::arithmetic::power::lemma_pow_adds(2, x, y);
    vstd::arithmetic::power::lemma_pow_increases(2, x + y, 24);
    vstd::arithmetic::power2::lemma2_to64();
    vstd::arithmetic::power2::lemma_pow2(24);
    let px = pow(2, x);
    let py = pow(2, y);
    assert(a * b < px * py) by (nonlinear_arith)
        requires
            0 <= a < px,
            0 <= b < py,
    ;
}

/// A greater number needs no fewer bits.
pub proof fn lemma_ilog_monotone(a: int, b: int)
    requires
        a <= b,
    ensures
        spec_ilog(a) <= spec_ilog(b),
    decreases b,
{
    if a > 0 {
        lemma_ilog_monotone(a / 2, b / 2);
    } else if b > 0 {
        lemma_ilog_is_bit_length(b / 2);
    }
}

/// A number below two to the power `w` needs at most `w` bits.
pub proof fn lemma_ilog_of_small(v: int, w: nat)
    requires
        0 <= v < vstd::arithmetic::power2::pow2(w),
    ensures
        spec_ilog(v) <= w,
{
    vstd::arithmetic::power2::lemma_pow2(w);
    lemma_ilog_bound(v, w);
}

} // verus!
