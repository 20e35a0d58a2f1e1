//! The residue of a setup header: how the spectrum that remains above the
//! floor is cut into parts and which codebooks code them.

use crate::bits::value_bits;
use crate::books::books_view;
use crate::buffer::{IntBuffer, BUFFER_LIMIT};
use crate::codebook::{put, read_field, BookSpec, StaticCodeBook};
use crate::error::Error;
use crate::fields::read_fields;
use crate::headers::take_fields;
use crate::mapping::{packed_numbers, put_numbers};
use crate::numeric::{icount, ilog, spec_icount, spec_ilog};
use crate::reader::{spec_read, BitReader};
use crate::writer::BitWriter;
use vstd::prelude::*;

verus! {

/// A residue.
#[derive(Debug, Clone, PartialEq, Eq)]
pub struct VorbisResidue {
    /// The type of the residue: 0, 1 or 2.
    pub residue_type: i32,
    pub begin: i32,
    pub end: i32,
    /// The number of values of a part.
    pub grouping: i32,
    /// The number of classes that a part can be of.
    pub partitions: i32,
    /// The number of classifications that a codeword of the group book
    /// stands for: `partitions` to the power of the dimension of that
    /// book.
    pub partvals: i32,
    /// The codebook of the classifications.
    pub groupbook: i32,
    /// For each class, the passes that have a codebook, one bit each.
    pub secondstages: IntBuffer,
    /// The codebooks of the passes, class by class.
    pub booklist: IntBuffer,
    pub classmetric1: [i32; 64],
    pub classmetric2: [i32; 64],
}

/// The mathematical content of a residue, without the metrics of the
/// encoder.
pub struct ResidueView {
    pub residue_type: i32,
    pub begin: i32,
    pub end: i32,
    pub grouping: i32,
    pub partitions: i32,
    pub partvals: i32,
    pub groupbook: i32,
    pub secondstages: Seq<i32>,
    pub booklist: Seq<i32>,
}

impl View for VorbisResidue {
    type V = ResidueView;

    open spec fn view(&self) -> ResidueView {
        ResidueView {
            residue_type: self.residue_type,
            begin: self.begin,
            end: self.end,
            grouping: self.grouping,
            partitions: self.partitions,
            partvals: self.partvals,
            groupbook: self.groupbook,
            secondstages: self.secondstages@,
            booklist: self.booklist@,
        }
    }
}

/// Reads the passes of `n` classes: three bits, and five more where a
/// flag bit says so.
pub open spec fn read_cascades(s: Seq<bool>, n: nat) -> Result<(Seq<i32>, Seq<bool>), Error>
    decreases n,
{
    if n == 0 {
        Ok((Seq::empty(), s))
    } else {
        match spec_read(s, 3) {
            Err(e) => Err(e),
            Ok((low, s1)) => match spec_read(s1, 1) {
                Err(e) => Err(e),
                Ok((flag, s2)) => if flag != 0 {
                    match spec_read(s2, 5) {
                        Err(e) => Err(e),
                        Ok((high, s3)) => match read_cascades(s3, (n - 1) as nat) {
                            Err(e) => Err(e),
                            Ok((tail, end)) => Ok((seq![(low + 8 * high) as i32] + tail, end)),
                        },
                    }
                } else {
                    match read_cascades(s2, (n - 1) as nat) {
                        Err(e) => Err(e),
                        Ok((tail, end)) => Ok((seq![low] + tail, end)),
                    }
                },
            },
        }
    }
}

/// The number of passes with a codebook of the first `k` classes.
pub open spec fn stage_count(stages: Seq<i32>, k: int) -> int
    decreases k,
{
    if k <= 0 {
        0
    } else {
        stage_count(stages, k - 1) + spec_icount(stages[k - 1] as int)
    }
}

/// Reads the numbers of `n` codebooks, which must be codebooks of the
/// setup header that map their entries to values.
pub open spec fn read_booklist(s: Seq<bool>, n: nat, books: Seq<BookSpec>) -> Result<
    (Seq<i32>, Seq<bool>),
    Error,
>
    decreases n,
{
    if n == 0 {
        Ok((Seq::empty(), s))
    } else {
        match spec_read(s, 8) {
            Err(e) => Err(e),
            Ok((book, rest)) => if book >= books.len() || books[book as int].maptype == 0 {
                Err(Error::InvalidData)
            } else {
                match read_booklist(rest, (n - 1) as nat, books) {
                    Err(e) => Err(e),
                    Ok((tail, end)) => Ok((seq![book] + tail, end)),
                }
            },
        }
    }
}

/// `acc` times `partitions` to the power `dim`, if no product on the way
/// is above `entries`.
pub open spec fn part_values(partitions: int, entries: int, dim: int, acc: int) -> Option<int>
    decreases dim,
{
    if dim <= 0 {
        Some(acc)
    } else if acc * partitions > entries {
        None
    } else {
        part_values(partitions, entries, dim - 1, acc * partitions)
    }
}

/// What loading a residue gives, for a setup header with the codebooks
/// `books`.
pub open spec fn load_residue(s: Seq<bool>, books: Seq<BookSpec>) -> Result<
    (ResidueView, Seq<bool>),
    Error,
> {
    match spec_read(s, 16) {
        Err(e) => Err(e),
        Ok((residue_type, s1)) => if residue_type < 0 || residue_type >= 3 {
            Err(Error::InvalidData)
        } else {
            match read_fields(s1, seq![24, 24, 24, 6, 8]) {
                Err(e) => Err(e),
                Ok((v, s2)) => if v[4] >= books.len() {
                    Err(Error::InvalidData)
                } else {
                    match read_cascades(s2, (v[3] + 1) as nat) {
                        Err(e) => Err(e),
                        Ok((stages, s3)) => match read_booklist(
                            s3,
                            stage_count(stages, stages.len() as int) as nat,
                            books,
                        ) {
                            Err(e) => Err(e),
                            Ok((booklist, rest)) => {
                                let group = books[v[4] as int];
                                if group.dim < 1 {
                                    Err(Error::InvalidData)
                                } else {
                                    match part_values(
                                        v[3] + 1,
                                        group.entries as int,
                                        group.dim as int,
                                        1,
                                    ) {
                                        None => Err(Error::InvalidData),
                                        Some(partvals) => Ok(
                                            (
                                                ResidueView {
                                                    residue_type,
                                                    begin: v[0],
                                                    end: v[1],
                                                    grouping: (v[2] + 1) as i32,
                                                    partitions: (v[3] + 1) as i32,
                                                    partvals: partvals as i32,
                                                    groupbook: v[4],
                                                    secondstages: stages,
                                                    booklist,
                                                },
                                                rest,
                                            ),
                                        ),
                                    }
                                }
                            },
                        },
                    }
                },
            }
        },
    }
}

proof fn lemma_icount_byte(v: int)
    requires
        0 <= v <= 255,
    ensures
        0 <= spec_icount(v) <= 8,
{
    reveal_with_fuel(spec_icount, 10);
}

fn take_cascades(reader: &mut BitReader, n: usize) -> (r: Result<(IntBuffer, usize), Error>)
    requires
        n <= 64,
    ensures
        final(reader).source() == old(reader).source(),
        final(reader).consumed() >= old(reader).consumed(),
        match read_cascades(old(reader)@, n as nat) {
            Ok((list, rest)) => r matches Ok(t) && t.0@ == list && final(reader)@ == rest && t.1
                == stage_count(list, list.len() as int) && t.1 <= 512 && list.len() == n,
            Err(e) => r matches Err(x) && x == e,
        },
{
    let ghost start = reader@;
    let mut list = IntBuffer::new();
    let mut acc: usize = 0;
    let mut i: usize = 0;
    while i < n
        invariant
            i <= n <= 64,
            list@.len() == i,
            acc == stage_count(list@, i as int),
            acc <= 8 * i,
            forall|k: int| 0 <= k < i ==> 0 <= #[trigger] list@[k] <= 255,
            start == old(reader)@,
            reader.source() == old(reader).source(),
            reader.consumed() >= old(reader).consumed(),
            read_cascades(start, n as nat) == (match read_cascades(reader@, (n - i) as nat) {
                Ok((tail, end)) => Ok::<(Seq<i32>, Seq<bool>), Error>((list@ + tail, end)),
                Err(e) => Err(e),
            }),
        decreases n - i,
    {
        let ghost had = list@;
        let ghost cur = reader@;
        let ghost left = (n - i) as nat;
        let low = match read_field(reader, 3) {
            Ok(v) => v,
            Err(e) => {
                assert(read_cascades(cur, left) == Err::<(Seq<i32>, Seq<bool>), Error>(e));
                return Err(e);
            },
        };
        let flag = match read_field(reader, 1) {
            Ok(v) => v,
            Err(e) => {
                assert(read_cascades(cur, left) == Err::<(Seq<i32>, Seq<bool>), Error>(e));
                return Err(e);
            },
        };
        let cascade: i32 = if flag != 0 {
            match read_field(reader, 5) {
                Ok(v) => low + 8 * v,
                Err(e) => {
                    assert(read_cascades(cur, left) == Err::<(Seq<i32>, Seq<bool>), Error>(e));
                    return Err(e);
                },
            }
        } else {
            low
        };
        proof {
            lemma_icount_byte(cascade as int);
        }
        list.push(cascade);
        acc = acc + icount(cascade as u64);
        i += 1;
        proof {
            assert(read_cascades(cur, left) == (match read_cascades(reader@, (n - i) as nat) {
                Err(e) => Err::<(Seq<i32>, Seq<bool>), Error>(e),
                Ok((tail, end)) => Ok((seq![cascade] + tail, end)),
            }));
            match read_cascades(reader@, (n - i) as nat) {
                Ok((tail, end)) => {
                    assert(had + (seq![cascade] + tail) =~= list@ + tail);
                },
                Err(e) => {},
            }
            assert(stage_count(list@, i - 1) == stage_count(had, i - 1)) by {
                lemma_stage_count_prefix(had, list@, i - 1);
            }
        }
    }
    proof {
        assert(list@ + Seq::<i32>::empty() =~= list@);
    }
    Ok((list, acc))
}

proof fn lemma_stage_count_prefix(a: Seq<i32>, b: Seq<i32>, k: int)
    requires
        0 <= k <= a.len(),
        k <= b.len(),
        forall|i: int| 0 <= i < k ==> a[i] == b[i],
    ensures
        stage_count(a, k) == stage_count(b, k),
    decreases k,
{
    if k > 0 {
        lemma_stage_count_prefix(a, b, k - 1);
    }
}

fn take_booklist(reader: &mut BitReader, n: usize, books: &Vec<StaticCodeBook>) -> (r: Result<
    IntBuffer,
    Error,
>)
    requires
        n <= 512,
    ensures
        final(reader).source() == old(reader).source(),
        final(reader).consumed() >= old(reader).consumed(),
        match read_booklist(old(reader)@, n as nat, books_view(books@)) {
            Ok((list, rest)) => r matches Ok(b) && b@ == list && final(reader)@ == rest,
            Err(e) => r matches Err(x) && x == e,
        },
{
    let ghost start = reader@;
    let ghost all = books_view(books@);
    let mut list = IntBuffer::new();
    let mut i: usize = 0;
    while i < n
        invariant
            i <= n <= 512,
            list@.len() == i,
            all == books_view(books@),
            start == old(reader)@,
            reader.source() == old(reader).source(),
            reader.consumed() >= old(reader).consumed(),
            read_booklist(start, n as nat, all) == (match read_booklist(reader@, (n - i) as nat, all) {
                Ok((tail, end)) => Ok::<(Seq<i32>, Seq<bool>), Error>((list@ + tail, end)),
                Err(e) => Err(e),
            }),
        decreases n - i,
    {
        let ghost had = list@;
        let ghost cur = reader@;
        let ghost left = (n - i) as nat;
        let book = match read_field(reader, 8) {
            Ok(v) => v,
            Err(e) => {
                assert(read_booklist(cur, left, all) == Err::<(Seq<i32>, Seq<bool>), Error>(e));
                return Err(e);
            },
        };
        if book as usize >= books.len() {
            assert(read_booklist(cur, left, all) == Err::<(Seq<i32>, Seq<bool>), Error>(
                Error::InvalidData,
            ));
            return Err(Error::InvalidData);
        }
        assert(all[book as int] == books@[book as int]@);
        if books[book as usize].maptype == 0 {
            assert(read_booklist(cur, left, all) == Err::<(Seq<i32>, Seq<bool>), Error>(
                Error::InvalidData,
            ));
            return Err(Error::InvalidData);
        }
        list.push(book);
        i += 1;
        proof {
            assert(read_booklist(cur, left, all) == (match read_booklist(reader@, (n - i) as nat, all) {
                Err(e) => Err::<(Seq<i32>, Seq<bool>), Error>(e),
                Ok((tail, end)) => Ok((seq![book] + tail, end)),
            }));
            match read_booklist(reader@, (n - i) as nat, all) {
                Ok((tail, end)) => {
                    assert(had + (seq![book] + tail) =~= list@ + tail);
                },
                Err(e) => {},
            }
        }
    }
    proof {
        assert(list@ + Seq::<i32>::empty() =~= list@);
    }
    Ok(list)
}

/// `partitions` to the power `dim`, if no product on the way is above
/// `entries`.
fn count_part_values(partitions: i32, entries: i32, dim: i32) -> (r: Option<i32>)
    requires
        1 <= partitions <= 64,
        1 <= dim,
    ensures
        match part_values(partitions as int, entries as int, dim as int, 1) {
            Some(v) => r == Some(v as i32) && 0 <= v <= entries,
            None => r.is_none(),
        },
{
    let mut partvals: i32 = 1;
    let mut left: i32 = dim;
    if entries < 1 {
        assert(part_values(partitions as int, entries as int, dim as int, 1).is_none());
        return None;
    }
    while left > 0
        invariant
            0 <= left <= dim,
            1 <= partitions <= 64,
            1 <= partvals <= entries,
            part_values(partitions as int, entries as int, dim as int, 1) == part_values(
                partitions as int,
                entries as int,
                left as int,
                partvals as int,
            ),
        decreases left,
    {
        assert(partvals * partitions <= 0x7fff_ffff * 64) by (nonlinear_arith)
            requires
                1 <= partvals <= 0x7fff_ffff,
                1 <= partitions <= 64,
        ;
        assert(partvals * partitions >= 1) by (nonlinear_arith)
            requires
                1 <= partvals,
                1 <= partitions,
        ;
        let next: i64 = partvals as i64 * partitions as i64;
        if next > entries as i64 {
            return None;
        }
        partvals = next as i32;
        left -= 1;
    }
    Some(partvals)
}

impl VorbisResidue {
    /// Reads a residue of a setup header with the codebooks `books`.
    pub fn load_for(bitreader: &mut BitReader, books: &Vec<StaticCodeBook>) -> (r: Result<Self, Error>)
        ensures
            final(bitreader).source() == old(bitreader).source(),
            final(bitreader).consumed() >= old(bitreader).consumed(),
            match load_residue(old(bitreader)@, books_view(books@)) {
                Ok((v, rest)) => r matches Ok(x) && x@ == v && final(bitreader)@ == rest,
                Err(e) => r matches Err(x) && x == e,
            },
    {
        let ghost all = books_view(books@);
        let residue_type = read_field(bitreader, 16)?;
        if residue_type >= 3 {
            return Err(Error::InvalidData);
        }
        let widths: [i32; 5] = [24, 24, 24, 6, 8];
        assert(widths@.map_values(|w: i32| w as int) =~= seq![24int, 24, 24, 6, 8]);
        let v = take_fields(bitreader, widths.as_slice())?;
        proof {
            crate::bits::lemma_small_range(v[3] as u32, 6);
            crate::bits::lemma_small_range(v[2] as u32, 24);
        }
        let begin = v[0];
        let end = v[1];
        let grouping = v[2] + 1;
        let partitions = v[3] + 1;
        let groupbook = v[4];
        if groupbook as usize >= books.len() {
            return Err(Error::InvalidData);
        }
        let (secondstages, acc) = take_cascades(bitreader, partitions as usize)?;
        let booklist = take_booklist(bitreader, acc, books)?;
        assert(all[groupbook as int] == books@[groupbook as int]@);
        let group = &books[groupbook as usize];
        if group.dim < 1 {
            return Err(Error::InvalidData);
        }
        let partvals = match count_part_values(partitions, group.entries, group.dim) {
            Some(v) => v,
            None => {
                return Err(Error::InvalidData);
            },
        };
        Ok(
            VorbisResidue {
                residue_type,
                begin,
                end,
                grouping,
                partitions,
                partvals,
                groupbook,
                secondstages,
                booklist,
                classmetric1: [0; 64],
                classmetric2: [0; 64],
            },
        )
    }
}

/// The passes of a class as they stand on the wire: where they need more
/// than three bits, three bits, a set flag and five more bits; otherwise
/// three bits and a flag that is not set.
pub open spec fn packed_stage(stage: i32) -> Seq<bool> {
    if spec_ilog(stage as int) > 3 {
        value_bits(stage as u32, 3) + value_bits(1, 1) + value_bits((stage / 8) as u32, 5)
    } else {
        value_bits(stage as u32, 4)
    }
}

/// The passes of the classes from class `i` on as they stand on the wire.
pub open spec fn packed_stages(stages: Seq<i32>, i: int) -> Seq<bool>
    decreases stages.len() - i,
{
    if 0 <= i < stages.len() {
        packed_stage(stages[i]) + packed_stages(stages, i + 1)
    } else {
        Seq::empty()
    }
}

/// A class of the first `k` has passes that are no set of bits.
pub open spec fn has_negative_stage(stages: Seq<i32>, k: int) -> bool {
    exists|i: int| 0 <= i < k && #[trigger] stages[i] < 0
}

/// Why a residue cannot be packed, if it cannot: the passes of a class
/// are negative, or the list of codebooks is shorter than the passes ask
/// for.
pub open spec fn residue_refusal(v: ResidueView) -> Option<Error> {
    if has_negative_stage(v.secondstages, v.secondstages.len() as int) || v.booklist.len()
        < stage_count(v.secondstages, v.secondstages.len() as int) {
        Some(Error::InvalidData)
    } else {
        None
    }
}

/// The residue as it stands on the wire.
pub open spec fn packed_residue(v: ResidueView) -> Seq<bool> {
    value_bits(v.residue_type as u32, 16) + value_bits(v.begin as u32, 24) + value_bits(
        v.end as u32,
        24,
    ) + value_bits((v.grouping - 1) as u32, 24) + value_bits((v.partitions - 1) as u32, 6) + value_bits(
        v.groupbook as u32,
        8,
    ) + packed_stages(v.secondstages, 0) + packed_numbers(
        v.booklist,
        0,
        stage_count(v.secondstages, v.secondstages.len() as int),
        8,
    )
}

/// What packing a residue gives.
pub open spec fn pack_residue(v: ResidueView) -> Result<Seq<bool>, Error> {
    match residue_refusal(v) {
        Some(e) => Err(e),
        None => Ok(packed_residue(v)),
    }
}

proof fn lemma_icount_nonneg(v: int)
    ensures
        0 <= spec_icount(v),
    decreases v,
{
    if v > 0 {
        lemma_icount_nonneg(v / 2);
    }
}

impl VorbisResidue {
    /// The number of codebooks that the passes ask for, if the residue
    /// can be packed.
    fn check_packable(&self) -> (r: Result<usize, Error>)
        ensures
            match residue_refusal(self@) {
                Some(e) => r == Err::<usize, Error>(e),
                None => r matches Ok(n) && n == stage_count(
                    self.secondstages@,
                    self.secondstages@.len() as int,
                ) && n <= self.booklist@.len(),
            },
    {
        let n = self.secondstages.len();
        let mut acc: usize = 0;
        let mut i: usize = 0;
        while i < n
            invariant
                i <= n,
                n == self.secondstages@.len(),
                n <= BUFFER_LIMIT,
                acc == stage_count(self.secondstages@, i as int),
                acc <= 64 * i,
                !has_negative_stage(self.secondstages@, i as int),
            decreases n - i,
        {
            let stage = self.secondstages.at(i);
            if stage < 0 {
                assert(has_negative_stage(self.secondstages@, n as int));
                return Err(Error::InvalidData);
            }
            acc = acc + icount(stage as u64);
            i += 1;
        }
        if self.booklist.len() < acc {
            return Err(Error::InvalidData);
        }
        Ok(acc)
    }

    /// Why the residue cannot be packed, if it cannot.
    pub(crate) fn refusal(&self) -> (r: Option<Error>)
        ensures
            r == residue_refusal(self@),
    {
        match self.check_packable() {
            Ok(n) => None,
            Err(e) => Some(e),
        }
    }

    fn put_stages(&self, writer: &mut BitWriter)
        requires
            !has_negative_stage(self.secondstages@, self.secondstages@.len() as int),
            old(writer).has_room(packed_stages(self.secondstages@, 0).len()),
        ensures
            final(writer)@ == old(writer)@ + packed_stages(self.secondstages@, 0),
            final(writer).written() == old(writer).written() + packed_stages(self.secondstages@, 0).len(),
    {
        let ghost stages = self.secondstages@;
        let ghost target = writer@ + packed_stages(stages, 0);
        let ghost goal = writer.written() + packed_stages(stages, 0).len();
        let n = self.secondstages.len();
        let mut i: usize = 0;
        while i < n
            invariant
                i <= n,
                n == stages.len(),
                stages == self.secondstages@,
                !has_negative_stage(stages, n as int),
                writer@ + packed_stages(stages, i as int) == target,
                writer.written() + packed_stages(stages, i as int).len() == goal,
                target.len() + 7 <= usize::MAX,
            decreases n - i,
        {
            let ghost before = writer@;
            let stage = self.secondstages.at(i);
            assert(stage >= 0) by {
                if stages[i as int] < 0 {
                    assert(has_negative_stage(stages, n as int));
                }
            }
            if ilog(stage as u64) > 3 {
                put(writer, stage as u32, 3);
                put(writer, 1, 1);
                put(writer, (stage / 8) as u32, 5);
            } else {
                put(writer, stage as u32, 4);
            }
            proof {
                assert(before + (packed_stage(stage) + packed_stages(stages, i + 1)) =~= writer@
                    + packed_stages(stages, i + 1));
            }
            i += 1;
        }
        proof {
            assert(writer@ + Seq::<bool>::empty() =~= writer@);
        }
    }

    /// Appends the residue to the stream and returns the number of bits
    /// that it takes. A residue that cannot be packed is refused before
    /// anything is written.
    pub fn pack(&self, bitwriter: &mut BitWriter) -> (r: Result<usize, Error>)
        requires
            pack_residue(self@).is_ok() ==> old(bitwriter).has_room(packed_residue(self@).len()),
        ensures
            match pack_residue(self@) {
                Ok(bits) => {
                    &&& r == Ok::<usize, Error>(bits.len() as usize)
                    &&& final(bitwriter)@ == old(bitwriter)@ + bits
                    &&& final(bitwriter).written() == old(bitwriter).written() + bits.len()
                },
                Err(e) => {
                    &&& r == Err::<usize, Error>(e)
                    &&& final(bitwriter)@ == old(bitwriter)@
                    &&& final(bitwriter).written() == old(bitwriter).written()
                },
            },
    {
        let acc = match self.check_packable() {
            Ok(n) => n,
            Err(e) => {
                return Err(e);
            },
        };
        let ghost before = bitwriter@;
        let begin_bits = bitwriter.total_bits();
        put(bitwriter, #[verifier::truncate] (self.residue_type as u32), 16);
        put(bitwriter, #[verifier::truncate] (self.begin as u32), 24);
        put(bitwriter, #[verifier::truncate] (self.end as u32), 24);
        put(bitwriter, #[verifier::truncate] ((self.grouping as i64 - 1) as u32), 24);
        put(bitwriter, #[verifier::truncate] ((self.partitions as i64 - 1) as u32), 6);
        put(bitwriter, #[verifier::truncate] (self.groupbook as u32), 8);
        self.put_stages(bitwriter);
        put_numbers(bitwriter, &self.booklist, acc, 8);
        assert(bitwriter@ =~= before + packed_residue(self@));
        Ok(bitwriter.total_bits() - begin_bits)
    }
}

} // verus!
