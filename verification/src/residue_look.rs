//! What a codec session works out from a residue before the first block:
//! which codebook codes each pass of each class, and which classes each
//! entry of the codebook of the class numbers stands for.

use crate::book::CodeBook;
use crate::numeric::{icount, ilog, pow_capped, spec_icount, spec_ilog};
use crate::residue::{stage_count, ResidueView, VorbisResidue};
use vstd::arithmetic::div_mod::{lemma_div_denominator, lemma_div_multiples_vanish};
use vstd::arithmetic::power::{lemma_pow_positive, pow};
use vstd::arithmetic::power2::{lemma2_to64, lemma_pow2_pos, lemma_pow2_unfold, pow2};
use vstd::prelude::*;

verus! {

/// What a session keeps for a residue. Codebooks are named by their
/// number among the books of the session.
#[derive(Debug, Clone, PartialEq, Eq)]
pub struct VorbisLookResidue {
    /// The number of classes.
    pub parts: i32,
    /// The number of passes of the class that has the most.
    pub stages: i32,
    /// The codebook of the class numbers.
    pub phrasebook: i32,
    /// For each class and each of its passes the codebook of the pass,
    /// if the pass has one.
    pub partbooks: Vec<Vec<Option<i32>>>,
    /// The number of entries of the codebook of the class numbers that
    /// are in use.
    pub partvals: i32,
    /// For each such entry the classes that it stands for.
    pub decodemap: Vec<Vec<i32>>,
    /// The bits spent on values.
    pub postbits: i32,
    /// The bits spent on class numbers.
    pub phrasebits: i32,
    /// The frames coded with this residue.
    pub frames: i32,
}

/// Pass `k` of a class with the passes `v` has a codebook: bit `k` of
/// `v` is set.
pub open spec fn stage_bit(v: int, k: int) -> bool {
    k >= 0 && (v / (pow2(k as nat) as int)) % 2 == 1
}

/// The number of passes below pass `k` that have a codebook.
pub open spec fn passes_below(v: int, k: int) -> int
    decreases k,
{
    if k <= 0 {
        0
    } else {
        passes_below(v, k - 1) + if stage_bit(v, k - 1) {
            1int
        } else {
            0int
        }
    }
}

/// The number of passes of that of the first `k` classes that has the
/// most: a class has as many passes as its greatest pass with a codebook
/// says.
pub open spec fn max_stage(stages: Seq<i32>, k: int) -> int
    decreases k,
{
    if k <= 0 {
        0
    } else if spec_ilog(stages[k - 1] as int) > max_stage(stages, k - 1) {
        spec_ilog(stages[k - 1] as int)
    } else {
        max_stage(stages, k - 1)
    }
}

/// The codebook of pass `k` of class `j`, if the pass has one: the
/// codebooks stand in the list class by class and pass by pass.
pub open spec fn part_book(v: ResidueView, j: int, k: int) -> Option<i32> {
    if stage_bit(v.secondstages[j] as int, k) {
        Some(v.booklist[stage_count(v.secondstages, j) + passes_below(v.secondstages[j] as int, k)])
    } else {
        None
    }
}

/// The codebooks of the passes of class `j`.
pub open spec fn class_books(v: ResidueView, j: int) -> Seq<Option<i32>> {
    Seq::new(spec_ilog(v.secondstages[j] as int) as nat, |k: int| part_book(v, j, k))
}

/// The class at place `k` of the `dim` classes that entry `j` of the
/// codebook of the class numbers stands for: the entry number is read as
/// a number of `dim` digits to the base `parts`, the highest digit
/// first.
pub open spec fn decode_digit(parts: int, dim: int, j: int, k: int) -> int {
    (j / pow(parts, (dim - 1 - k) as nat)) % parts
}

/// The classes that entry `j` stands for.
pub open spec fn decode_row(parts: int, dim: int, j: int) -> Seq<i32> {
    Seq::new(dim as nat, |k: int| decode_digit(parts, dim, j, k) as i32)
}

/// The passes of the first `k` classes are sets of bits.
pub open spec fn stages_plain(stages: Seq<i32>, k: int) -> bool {
    forall|j: int| 0 <= j < k ==> #[trigger] stages[j] >= 0
}

/// The first `k` codebooks of the list are books of the session.
pub open spec fn books_known(booklist: Seq<i32>, k: int, books: int) -> bool {
    forall|a: int| 0 <= a < k ==> 0 <= #[trigger] booklist[a] < books
}

/// A session with the books `books` can be set up for the residue: the
/// codebook of the class numbers and the codebooks of the passes are
/// books of the session, there is a class, the residue holds the passes
/// of each class and a codebook for each pass that has one, and the
/// number of combinations of classes is a number of 31 bits.
pub open spec fn can_look(v: ResidueView, books: Seq<CodeBook>) -> bool {
    &&& 0 <= v.groupbook < books.len()
    &&& books[v.groupbook as int].dim >= 0
    &&& 1 <= v.partitions <= v.secondstages.len()
    &&& stages_plain(v.secondstages, v.partitions as int)
    &&& stage_count(v.secondstages, v.partitions as int) <= v.booklist.len()
    &&& books_known(v.booklist, stage_count(v.secondstages, v.partitions as int), books.len() as int)
    &&& pow(v.partitions as int, books[v.groupbook as int].dim as nat) <= 0x7fff_ffff
}

/// What a session keeps for the residue `v`, the codebook of the class
/// numbers having the dimension `dim`.
pub open spec fn is_residue_look(v: ResidueView, dim: int, r: VorbisLookResidue) -> bool {
    &&& r.parts == v.partitions
    &&& r.stages == max_stage(v.secondstages, v.partitions as int)
    &&& r.phrasebook == v.groupbook
    &&& r.partvals == pow(v.partitions as int, dim as nat)
    &&& r.partbooks@.len() == v.partitions
    &&& forall|j: int| 0 <= j < v.partitions ==> (#[trigger] r.partbooks@[j])@ == class_books(v, j)
    &&& r.decodemap@.len() == r.partvals
    &&& forall|j: int|
        0 <= j < r.partvals ==> (#[trigger] r.decodemap@[j])@ == decode_row(v.partitions as int, dim, j)
    &&& r.postbits == 0
    &&& r.phrasebits == 0
    &&& r.frames == 0
}

/// The count of the set bits of a number is not negative.
proof fn lemma_icount_nonneg(v: int)
    ensures
        0 <= spec_icount(v),
    decreases v,
{
    if v > 0 {
        lemma_icount_nonneg(v / 2);
    }
}

/// The number of passes with a codebook grows with the classes.
proof fn lemma_stage_count_grows(stages: Seq<i32>, a: int, b: int)
    requires
        0 <= a <= b,
    ensures
        stage_count(stages, a) <= stage_count(stages, b),
    decreases b - a,
{
    if a < b {
        lemma_stage_count_grows(stages, a, b - 1);
        lemma_icount_nonneg(stages[b - 1] as int);
    }
}

/// The number of passes with a codebook grows with the passes.
proof fn lemma_passes_grow(v: int, a: int, b: int)
    requires
        a <= b,
    ensures
        passes_below(v, a) <= passes_below(v, b),
    decreases b - a,
{
    if a < b {
        lemma_passes_grow(v, a, b - 1);
    }
}

/// The passes of a class are those of its lowest bit and those of the
/// bits above it.
proof fn lemma_passes_split(v: int, k: int)
    requires
        0 <= v,
        1 <= k,
    ensures
        passes_below(v, k) == v % 2 + passes_below(v / 2, k - 1),
    decreases k,
{
    lemma2_to64();
    assert(passes_below(v, k) == passes_below(v, k - 1) + if stage_bit(v, k - 1) {
        1int
    } else {
        0int
    });
    if k == 1 {
        assert(passes_below(v, 0) == 0);
        assert(passes_below(v / 2, 0) == 0);
        assert(pow2(0) == 1);
        assert(v / 1 == v);
        assert(stage_bit(v, 0) == (v % 2 == 1));
    } else {
        lemma_passes_split(v, k - 1);
        lemma_pow2_unfold((k - 1) as nat);
        lemma_pow2_pos((k - 2) as nat);
        let d = pow2((k - 2) as nat) as int;
        lemma_div_denominator(v, 2, d);
        assert(pow2((k - 1) as nat) as int == 2 * d);
        assert(v / (pow2((k - 1) as nat) as int) == (v / 2) / d);
        assert(stage_bit(v, k - 1) == stage_bit(v / 2, k - 2));
        assert(passes_below(v / 2, k - 1) == passes_below(v / 2, k - 2) + if stage_bit(v / 2, k - 2) {
            1int
        } else {
            0int
        });
    }
}

/// The passes with a codebook below the highest are all of them.
proof fn lemma_passes_all(v: int)
    requires
        0 <= v,
    ensures
        passes_below(v, spec_ilog(v)) == spec_icount(v),
    decreases v,
{
    if v > 0 {
        lemma_passes_all(v / 2);
        crate::numeric::lemma_ilog_is_bit_length(v / 2);
        lemma_passes_split(v, spec_ilog(v));
    }
}

/// The codebooks of the passes of class `j`, `acc` codebooks being passed
/// over for the classes before it; and the number of codebooks passed
/// over with it.
fn books_of_class(residue: &VorbisResidue, j: usize, acc: usize) -> (r: (Vec<Option<i32>>, usize, i32))
    requires
        j < residue.secondstages@.len(),
        residue.secondstages@[j as int] >= 0,
        acc == stage_count(residue.secondstages@, j as int),
        stage_count(residue.secondstages@, j + 1) <= residue.booklist@.len(),
    ensures
        r.0@ == class_books(residue@, j as int),
        r.1 == stage_count(residue.secondstages@, j + 1),
        r.2 == spec_ilog(residue.secondstages@[j as int] as int),
{
    let ghost view = residue@;
    let v = residue.secondstages.at(j);
    let stages = ilog(v as u64);
    let limit = residue.booklist.len();
    let mut out: Vec<Option<i32>> = Vec::new();
    let mut rest: i32 = v;
    let mut count: usize = 0;
    let mut k: i32 = 0;
    proof {
        lemma2_to64();
        lemma_passes_all(v as int);
        lemma_icount_nonneg(v as int);
        assert(pow2(0) == 1);
        assert((v as int) / 1 == v);
    }
    while k < stages
        invariant
            0 <= k <= stages,
            stages == spec_ilog(v as int),
            0 <= v,
            j < residue.secondstages@.len(),
            v == residue.secondstages@[j as int],
            view == residue@,
            limit == residue.booklist@.len(),
            0 <= rest,
            rest == (v as int) / (pow2(k as nat) as int),
            count == passes_below(v as int, k as int),
            acc == stage_count(view.secondstages, j as int),
            acc + passes_below(v as int, stages as int) <= limit,
            out@.len() == k,
            forall|i: int| 0 <= i < k ==> #[trigger] out@[i] == part_book(view, j as int, i),
        decreases stages - k,
    {
        proof {
            lemma_passes_grow(v as int, k + 1, stages as int);
            lemma_pow2_pos(k as nat);
            lemma_pow2_unfold((k + 1) as nat);
            lemma_div_denominator(v as int, pow2(k as nat) as int, 2);
            assert(pow2(k as nat) * 2 == pow2((k + 1) as nat));
        }
        if rest % 2 == 1 {
            assert(stage_bit(v as int, k as int));
            out.push(Some(residue.booklist.at(acc + count)));
            count = count + 1;
        } else {
            assert(!stage_bit(v as int, k as int));
            out.push(None);
        }
        rest = rest / 2;
        k = k + 1;
    }
    assert(out@ =~= class_books(view, j as int));
    (out, acc + count, stages)
}

/// The classes that entry `j` stands for, `top` being `parts` to the
/// power `dim - 1`.
fn digits_of(parts: i32, dim: i32, top: i32, j: i32) -> (row: Vec<i32>)
    requires
        1 <= parts,
        0 <= dim,
        0 <= j,
        dim >= 1 ==> top == pow(parts as int, (dim - 1) as nat),
    ensures
        row@ == decode_row(parts as int, dim as int, j as int),
{
    let mut row: Vec<i32> = Vec::new();
    let mut mult: i32 = top;
    let mut k: i32 = 0;
    while k < dim
        invariant
            0 <= k <= dim,
            1 <= parts,
            0 <= j,
            k < dim ==> mult == pow(parts as int, (dim - 1 - k) as nat),
            row@.len() == k,
            forall|i: int| 0 <= i < k ==> #[trigger] row@[i] == decode_digit(parts as int, dim as int, j as int, i),
        decreases dim - k,
    {
        proof {
            lemma_pow_positive(parts as int, (dim - 1 - k) as nat);
        }
        let deco = (j / mult) % parts;
        row.push(deco);
        if k + 1 < dim {
            proof {
                let rest = pow(parts as int, (dim - 2 - k) as nat);
                assert(pow(parts as int, (dim - 1 - k) as nat) == parts * rest) by {
                    reveal(pow);
                }
                lemma_div_multiples_vanish(rest, parts as int);
            }
            mult = mult / parts;
        }
        k = k + 1;
    }
    assert(row@ =~= decode_row(parts as int, dim as int, j as int));
    row
}

impl VorbisLookResidue {
    /// Whether a session with the books `fullbooks` can be set up for the
    /// residue.
    pub fn can_look(residue: &VorbisResidue, fullbooks: &Vec<CodeBook>) -> (b: bool)
        ensures
            b == can_look(residue@, fullbooks@),
    {
        let ghost v = residue@;
        if residue.groupbook < 0 || residue.groupbook as usize >= fullbooks.len() {
            return false;
        }
        let dim = fullbooks[residue.groupbook as usize].dim;
        if dim < 0 || residue.partitions < 1 || residue.partitions as usize > residue.secondstages.len() {
            return false;
        }
        let parts = residue.partitions as usize;
        let mut total: usize = 0;
        let mut j: usize = 0;
        while j < parts
            invariant
                j <= parts,
                parts == residue.partitions,
                parts <= residue.secondstages@.len(),
                v == residue@,
                stages_plain(v.secondstages, j as int),
                total == stage_count(v.secondstages, j as int),
                total <= 64 * j,
                parts <= 512,
            decreases parts - j,
        {
            let s = residue.secondstages.at(j);
            if s < 0 {
                return false;
            }
            total = total + icount(s as u64);
            j += 1;
        }
        if total > residue.booklist.len() {
            return false;
        }
        let mut a: usize = 0;
        while a < total
            invariant
                a <= total <= residue.booklist@.len(),
                v == residue@,
                total == stage_count(v.secondstages, v.partitions as int),
                books_known(v.booklist, a as int, fullbooks@.len() as int),
            decreases total - a,
        {
            let book = residue.booklist.at(a);
            if book < 0 || book as usize >= fullbooks.len() {
                assert(!(0 <= v.booklist[a as int] < fullbooks@.len()));
                return false;
            }
            a += 1;
        }
        pow_capped(residue.partitions as u64, dim as u32, 0x7fff_ffff) <= 0x7fff_ffff
    }

    /// What a session with the books `fullbooks` starts with for the
    /// residue: for each class the codebooks of its passes, and for each
    /// entry of the codebook of the class numbers the classes that it
    /// stands for.
    pub fn look(residue: &VorbisResidue, fullbooks: &Vec<CodeBook>) -> (r: Self)
        requires
            can_look(residue@, fullbooks@),
        ensures
            is_residue_look(residue@, fullbooks@[residue.groupbook as int].dim as int, r),
    {
        let ghost v = residue@;
        let dim = fullbooks[residue.groupbook as usize].dim;
        let parts = residue.partitions;
        let mut maxstage: i32 = 0;
        let mut acc: usize = 0;
        let mut partbooks: Vec<Vec<Option<i32>>> = Vec::new();
        let mut j: usize = 0;
        while j < parts as usize
            invariant
                j <= parts,
                1 <= parts <= v.secondstages.len(),
                v == residue@,
                stages_plain(v.secondstages, parts as int),
                stage_count(v.secondstages, parts as int) <= v.booklist.len(),
                acc == stage_count(v.secondstages, j as int),
                maxstage == max_stage(v.secondstages, j as int),
                partbooks@.len() == j,
                forall|i: int| 0 <= i < j ==> (#[trigger] partbooks@[i])@ == class_books(v, i),
            decreases parts - j,
        {
            proof {
                lemma_stage_count_grows(v.secondstages, j + 1, parts as int);
            }
            let (books, next, stages) = books_of_class(residue, j, acc);
            if stages > maxstage {
                maxstage = stages;
            }
            partbooks.push(books);
            acc = next;
            j += 1;
        }
        let partvals = pow_capped(parts as u64, dim as u32, 0x7fff_ffff) as i32;
        let top: i32 = if dim >= 1 {
            proof {
                let rest = pow(parts as int, (dim - 1) as nat);
                assert(pow(parts as int, dim as nat) == parts * rest) by {
                    reveal(pow);
                }
                lemma_div_multiples_vanish(rest, parts as int);
            }
            partvals / parts
        } else {
            1
        };
        let mut decodemap: Vec<Vec<i32>> = Vec::new();
        let mut j: i32 = 0;
        proof {
            lemma_pow_positive(parts as int, dim as nat);
        }
        while j < partvals
            invariant
                0 <= j <= partvals,
                1 <= parts,
                0 <= dim,
                dim >= 1 ==> top == pow(parts as int, (dim - 1) as nat),
                decodemap@.len() == j,
                forall|i: int|
                    0 <= i < j ==> (#[trigger] decodemap@[i])@ == decode_row(parts as int, dim as int, i),
            decreases partvals - j,
        {
            decodemap.push(digits_of(parts, dim, top, j));
            j = j + 1;
        }
        VorbisLookResidue {
            parts,
            stages: maxstage,
            phrasebook: residue.groupbook,
            partbooks,
            partvals,
            decodemap,
            postbits: 0,
            phrasebits: 0,
            frames: 0,
        }
    }
}

} // verus!
