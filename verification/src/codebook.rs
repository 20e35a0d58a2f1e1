//! The static codebook: the description of a codebook as it stands in a
//! setup header, and its wire format.

use crate::bits::value_bits;
use crate::error::Error;
use crate::numeric::{ilog, lattice_quantvals, lattice_root, spec_ilog};
use crate::reader::{lemma_read_range, spec_read, BitReader};
use crate::writer::BitWriter;
use vstd::prelude::*;

verus! {

/// The 24 bits that every packed codebook starts with.
pub const BOOK_MAGIC: i32 = 0x564342;

/// A codebook as the setup header describes it.
#[derive(Debug, PartialEq, Eq)]
pub struct StaticCodeBook {
    /// The number of values that an entry stands for.
    pub dim: i32,
    /// The number of entries.
    pub entries: i32,
    /// The length of each entry's codeword in bits; 0 marks an entry that
    /// is not used.
    pub lengthlist: Vec<i8>,
    /// How entries map to values: 0 not at all, 1 through a lattice, 2
    /// through a list of one value per entry and dimension.
    pub maptype: i32,
    /// The least value, as the bit pattern of a 32-bit float.
    pub q_min: u32,
    /// The step between values, as the bit pattern of a 32-bit float.
    pub q_delta: u32,
    /// The number of bits of a quantized value.
    pub q_quant: i32,
    /// Whether each value of an entry adds to the value before it.
    pub q_sequencep: bool,
    /// The quantized values.
    pub quantlist: Vec<i32>,
}

/// The mathematical content of a `StaticCodeBook`.
pub struct BookSpec {
    pub dim: i32,
    pub entries: i32,
    pub lengthlist: Seq<i8>,
    pub maptype: i32,
    pub q_min: u32,
    pub q_delta: u32,
    pub q_quant: i32,
    pub q_sequencep: bool,
    pub quantlist: Seq<i32>,
}

/// The value mapping of a codebook: what follows the code lengths on the
/// wire.
pub struct MappingSpec {
    pub maptype: i32,
    pub q_min: u32,
    pub q_delta: u32,
    pub q_quant: i32,
    pub q_sequencep: bool,
    pub quantlist: Seq<i32>,
}

impl View for StaticCodeBook {
    type V = BookSpec;

    open spec fn view(&self) -> BookSpec {
        BookSpec {
            dim: self.dim,
            entries: self.entries,
            lengthlist: self.lengthlist@,
            maptype: self.maptype,
            q_min: self.q_min,
            q_delta: self.q_delta,
            q_quant: self.q_quant,
            q_sequencep: self.q_sequencep,
            quantlist: self.quantlist@,
        }
    }
}

/// How many quantized values a codebook holds: for a lattice (map type 1)
/// as many as the lattice has points in one dimension, for a value list
/// (map type 2) one for each entry and dimension.
pub open spec fn quantlist_len(maptype: i32, dim: i32, entries: i32) -> int {
    if maptype == 1 {
        lattice_quantvals(entries as int, dim as int)
    } else if maptype == 2 {
        entries * dim
    } else {
        0
    }
}

/// Reads the magic value, the dimension and the number of entries.
pub open spec fn load_header(s: Seq<bool>) -> Result<((i32, i32), Seq<bool>), Error> {
    match spec_read(s, 24) {
        Err(e) => Err(e),
        Ok((magic, s1)) => if magic != BOOK_MAGIC {
            Err(Error::InvalidData)
        } else {
            match spec_read(s1, 16) {
                Err(e) => Err(e),
                Ok((dim, s2)) => match spec_read(s2, 24) {
                    Err(e) => Err(e),
                    Ok((entries, s3)) => if spec_ilog(dim as int) + spec_ilog(entries as int) > 24 {
                        Err(Error::InvalidData)
                    } else {
                        Ok(((dim, entries), s3))
                    },
                },
            }
        },
    }
}

/// Reads `n` code lengths of 5 bits each, stored less one.
pub open spec fn read_plain_lengths(s: Seq<bool>, n: nat) -> Result<(Seq<i8>, Seq<bool>), Error>
    decreases n,
{
    if n == 0 {
        Ok((Seq::empty(), s))
    } else {
        match spec_read(s, 5) {
            Err(e) => Err(e),
            Ok((v, rest)) => match read_plain_lengths(rest, (n - 1) as nat) {
                Err(e) => Err(e),
                Ok((tail, end)) => Ok((seq![(v + 1) as i8] + tail, end)),
            },
        }
    }
}

/// Reads `n` code lengths, each behind a bit that says whether the entry
/// is used; an entry that is not used has length 0 and no length field.
pub open spec fn read_tagged_lengths(s: Seq<bool>, n: nat) -> Result<(Seq<i8>, Seq<bool>), Error>
    decreases n,
{
    if n == 0 {
        Ok((Seq::empty(), s))
    } else {
        match spec_read(s, 1) {
            Err(e) => Err(e),
            Ok((used, s1)) => if used != 0 {
                match spec_read(s1, 5) {
                    Err(e) => Err(e),
                    Ok((v, s2)) => match read_tagged_lengths(s2, (n - 1) as nat) {
                        Err(e) => Err(e),
                        Ok((tail, end)) => Ok((seq![(v + 1) as i8] + tail, end)),
                    },
                }
            } else {
                match read_tagged_lengths(s1, (n - 1) as nat) {
                    Err(e) => Err(e),
                    Ok((tail, end)) => Ok((seq![0i8] + tail, end)),
                }
            },
        }
    }
}

/// Whether a run of `num` entries of length `length` is refused: the
/// length is above 32, there are fewer than `num` entries left, or more
/// entries than there are codewords of twice that length.
pub open spec fn run_refused(num: i32, left: int, length: int) -> bool {
    length > 32 || num > left || (num > 0 && ((num - 1) as u32 >> ((length - 1) as u32)) > 1)
}

/// Reads the code lengths of entries `i ..` of `entries`, stored as the
/// number of entries of length `length`, then of `length + 1`, and so on.
/// Each number is stored in as many bits as the number of entries left
/// needs.
pub open spec fn read_runs(s: Seq<bool>, entries: int, i: int, length: int) -> Result<
    (Seq<i8>, Seq<bool>),
    Error,
>
    decreases entries - i, 33 - length,
{
    if i >= entries {
        Ok((Seq::empty(), s))
    } else {
        match spec_read(s, spec_ilog(entries - i)) {
            Err(e) => Err(e),
            Ok((num, rest)) => if run_refused(num, entries - i, length) || num < 0 {
                Err(Error::InvalidData)
            } else {
                match read_runs(rest, entries, i + num, length + 1) {
                    Err(e) => Err(e),
                    Ok((tail, end)) => Ok((Seq::new(num as nat, |k: int| length as i8) + tail, end)),
                }
            },
        }
    }
}

/// Reads the code lengths of `entries` entries, in one of the three forms
/// that the first bits announce.
pub open spec fn load_lengths(s: Seq<bool>, entries: int) -> Result<(Seq<i8>, Seq<bool>), Error> {
    match spec_read(s, 1) {
        Err(e) => Err(e),
        Ok((ordered, s1)) => if ordered == 0 {
            match spec_read(s1, 1) {
                Err(e) => Err(e),
                Ok((unused, s2)) => if unused != 0 {
                    read_tagged_lengths(s2, entries as nat)
                } else {
                    read_plain_lengths(s2, entries as nat)
                },
            }
        } else {
            match spec_read(s1, 5) {
                Err(e) => Err(e),
                Ok((first, s2)) => read_runs(s2, entries, 0, first + 1),
            }
        },
    }
}

/// Reads `n` quantized values of `w` bits each.
pub open spec fn read_values(s: Seq<bool>, n: nat, w: int) -> Result<(Seq<i32>, Seq<bool>), Error>
    decreases n,
{
    if n == 0 {
        Ok((Seq::empty(), s))
    } else {
        match spec_read(s, w) {
            Err(e) => Err(e),
            Ok((v, rest)) => match read_values(rest, (n - 1) as nat, w) {
                Err(e) => Err(e),
                Ok((tail, end)) => Ok((seq![v] + tail, end)),
            },
        }
    }
}

/// The mapping of a codebook without values.
pub open spec fn no_mapping() -> MappingSpec {
    MappingSpec {
        maptype: 0,
        q_min: 0,
        q_delta: 0,
        q_quant: 0,
        q_sequencep: false,
        quantlist: Seq::empty(),
    }
}

/// Reads the quantization parameters and the quantized values of a
/// codebook of map type 1 or 2.
pub open spec fn load_quantization(s: Seq<bool>, maptype: i32, dim: i32, entries: i32) -> Result<
    (MappingSpec, Seq<bool>),
    Error,
> {
    match spec_read(s, 32) {
        Err(e) => Err(e),
        Ok((q_min, s1)) => match spec_read(s1, 32) {
            Err(e) => Err(e),
            Ok((q_delta, s2)) => match spec_read(s2, 4) {
                Err(e) => Err(e),
                Ok((quant, s3)) => match spec_read(s3, 1) {
                    Err(e) => Err(e),
                    Ok((sequencep, s4)) => match read_values(
                        s4,
                        quantlist_len(maptype, dim, entries) as nat,
                        quant + 1,
                    ) {
                        Err(e) => Err(e),
                        Ok((quantlist, s5)) => Ok(
                            (
                                MappingSpec {
                                    maptype,
                                    q_min: q_min as u32,
                                    q_delta: q_delta as u32,
                                    q_quant: (quant + 1) as i32,
                                    q_sequencep: sequencep != 0,
                                    quantlist,
                                },
                                s5,
                            ),
                        ),
                    },
                },
            },
        },
    }
}

/// Reads the map type and, for map types 1 and 2, what belongs to it.
pub open spec fn load_mapping(s: Seq<bool>, dim: i32, entries: i32) -> Result<
    (MappingSpec, Seq<bool>),
    Error,
> {
    match spec_read(s, 4) {
        Err(e) => Err(e),
        Ok((maptype, s1)) => if maptype == 0 {
            Ok((no_mapping(), s1))
        } else if maptype == 1 || maptype == 2 {
            load_quantization(s1, maptype, dim, entries)
        } else {
            Err(Error::InvalidData)
        },
    }
}

/// What loading a codebook from the bits `s` gives: the codebook and the
/// bits that follow it, or the reason for which `s` does not start with a
/// codebook.
#[verifier::opaque]
pub open spec fn spec_load(s: Seq<bool>) -> Result<(BookSpec, Seq<bool>), Error> {
    match load_header(s) {
        Err(e) => Err(e),
        Ok(((dim, entries), s1)) => match load_lengths(s1, entries as int) {
            Err(e) => Err(e),
            Ok((lengthlist, s2)) => match load_mapping(s2, dim, entries) {
                Err(e) => Err(e),
                Ok((m, s3)) => Ok(
                    (
                        BookSpec {
                            dim,
                            entries,
                            lengthlist,
                            maptype: m.maptype,
                            q_min: m.q_min,
                            q_delta: m.q_delta,
                            q_quant: m.q_quant,
                            q_sequencep: m.q_sequencep,
                            quantlist: m.quantlist,
                        },
                        s3,
                    ),
                ),
            },
        },
    }
}

/// Reads a field of at most 31 bits, which is never negative.
pub(crate) fn read_field(reader: &mut BitReader, w: i32) -> (r: Result<i32, Error>)
    requires
        0 <= w <= 31,
    ensures
        final(reader).source() == old(reader).source(),
        final(reader).consumed() >= old(reader).consumed(),
        match spec_read(old(reader)@, w as int) {
            Ok((v, rest)) => {
                &&& r == Ok::<i32, Error>(v)
                &&& final(reader)@ == rest
                &&& final(reader).consumed() == old(reader).consumed() + w
                &&& 0 <= v
                &&& (v as u32) < (1u32 << (w as u32))
                &&& w <= 24 ==> v <= 0xff_ffff
                &&& w <= 16 ==> v <= 0xffff
                &&& w <= 8 ==> v <= 0xff
                &&& w <= 6 ==> v <= 63
                &&& w <= 5 ==> v <= 31
                &&& w <= 4 ==> v <= 15
                &&& w <= 3 ==> v <= 7
                &&& w <= 2 ==> v <= 3
                &&& w <= 1 ==> v <= 1
            },
            Err(e) => r == Err::<i32, Error>(e),
        },
{
    let ghost s = reader@;
    let r = reader.read(w);
    proof {
        if w <= s.len() {
            lemma_read_range(s, w as int);
        }
    }
    r
}

fn load_plain_lengths(reader: &mut BitReader, entries: i32) -> (r: Result<Vec<i8>, Error>)
    requires
        0 <= entries,
    ensures
        final(reader).source() == old(reader).source(),
        final(reader).consumed() >= old(reader).consumed(),
        match read_plain_lengths(old(reader)@, entries as nat) {
            Ok((list, rest)) => r.is_ok() && r.unwrap()@ == list && final(reader)@ == rest,
            Err(e) => r == Err::<Vec<i8>, Error>(e),
        },
{
    let ghost start = reader@;
    let mut list: Vec<i8> = Vec::new();
    let mut i: i32 = 0;
    while i < entries
        invariant
            0 <= i <= entries,
            list@.len() == i,
            start == old(reader)@,
            reader.source() == old(reader).source(),
            reader.consumed() >= old(reader).consumed(),
            read_plain_lengths(start, entries as nat) == (match read_plain_lengths(
                reader@,
                (entries - i) as nat,
            ) {
                Ok((tail, end)) => Ok::<(Seq<i8>, Seq<bool>), Error>((list@ + tail, end)),
                Err(e) => Err(e),
            }),
        decreases entries - i,
    {
        let ghost before = list@;
        let ghost cur = reader@;
        let v = match read_field(reader, 5) {
            Ok(v) => v,
            Err(e) => {
                assert(read_plain_lengths(cur, (entries - i) as nat) == Err::<(Seq<i8>, Seq<bool>), Error>(e));
                return Err(e);
            },
        };
        list.push((v + 1) as i8);
        i += 1;
        proof {
            assert(read_plain_lengths(cur, (entries - i + 1) as nat) == (match read_plain_lengths(
                reader@,
                (entries - i) as nat,
            ) {
                Err(e) => Err::<(Seq<i8>, Seq<bool>), Error>(e),
                Ok((tail, end)) => Ok((seq![(v + 1) as i8] + tail, end)),
            }));
            match read_plain_lengths(reader@, (entries - i) as nat) {
                Ok((tail, end)) => {
                    assert(before + (seq![(v + 1) as i8] + tail) =~= list@ + tail);
                },
                Err(e) => {},
            }
        }
    }
    proof {
        assert(list@ + Seq::<i8>::empty() =~= list@);
    }
    Ok(list)
}

fn load_tagged_lengths(reader: &mut BitReader, entries: i32) -> (r: Result<Vec<i8>, Error>)
    requires
        0 <= entries,
    ensures
        final(reader).source() == old(reader).source(),
        final(reader).consumed() >= old(reader).consumed(),
        match read_tagged_lengths(old(reader)@, entries as nat) {
            Ok((list, rest)) => r.is_ok() && r.unwrap()@ == list && final(reader)@ == rest,
            Err(e) => r == Err::<Vec<i8>, Error>(e),
        },
{
    let ghost start = reader@;
    let mut list: Vec<i8> = Vec::new();
    let mut i: i32 = 0;
    while i < entries
        invariant
            0 <= i <= entries,
            list@.len() == i,
            start == old(reader)@,
            reader.source() == old(reader).source(),
            reader.consumed() >= old(reader).consumed(),
            read_tagged_lengths(start, entries as nat) == (match read_tagged_lengths(
                reader@,
                (entries - i) as nat,
            ) {
                Ok((tail, end)) => Ok::<(Seq<i8>, Seq<bool>), Error>((list@ + tail, end)),
                Err(e) => Err(e),
            }),
        decreases entries - i,
    {
        let ghost before = list@;
        let ghost cur = reader@;
        let used = match read_field(reader, 1) {
            Ok(v) => v,
            Err(e) => {
                assert(read_tagged_lengths(cur, (entries - i) as nat) == Err::<(Seq<i8>, Seq<bool>), Error>(e));
                return Err(e);
            },
        };
        let length: i8 = if used != 0 {
            match read_field(reader, 5) {
                Ok(v) => (v + 1) as i8,
                Err(e) => {
                    assert(read_tagged_lengths(cur, (entries - i) as nat) == Err::<
                        (Seq<i8>, Seq<bool>),
                        Error,
                    >(e));
                    return Err(e);
                },
            }
        } else {
            0
        };
        list.push(length);
        i += 1;
        proof {
            assert(read_tagged_lengths(cur, (entries - i + 1) as nat) == (match read_tagged_lengths(
                reader@,
                (entries - i) as nat,
            ) {
                Err(e) => Err::<(Seq<i8>, Seq<bool>), Error>(e),
                Ok((tail, end)) => Ok((seq![length] + tail, end)),
            }));
            match read_tagged_lengths(reader@, (entries - i) as nat) {
                Ok((tail, end)) => {
                    assert(before + (seq![length] + tail) =~= list@ + tail);
                },
                Err(e) => {},
            }
        }
    }
    proof {
        assert(list@ + Seq::<i8>::empty() =~= list@);
    }
    Ok(list)
}

fn load_runs(reader: &mut BitReader, entries: i32, first: i32) -> (r: Result<Vec<i8>, Error>)
    requires
        0 <= entries <= 0xff_ffff,
        1 <= first <= 32,
    ensures
        final(reader).source() == old(reader).source(),
        final(reader).consumed() >= old(reader).consumed(),
        match read_runs(old(reader)@, entries as int, 0, first as int) {
            Ok((list, rest)) => r.is_ok() && r.unwrap()@ == list && final(reader)@ == rest,
            Err(e) => r == Err::<Vec<i8>, Error>(e),
        },
{
    let ghost start = reader@;
    let mut list: Vec<i8> = Vec::new();
    let mut i: i32 = 0;
    let mut length: i32 = first;
    while i < entries
        invariant
            0 <= i <= entries <= 0xff_ffff,
            1 <= length <= 33,
            list@.len() == i,
            start == old(reader)@,
            reader.source() == old(reader).source(),
            reader.consumed() >= old(reader).consumed(),
            read_runs(start, entries as int, 0, first as int) == (match read_runs(
                reader@,
                entries as int,
                i as int,
                length as int,
            ) {
                Ok((tail, end)) => Ok::<(Seq<i8>, Seq<bool>), Error>((list@ + tail, end)),
                Err(e) => Err(e),
            }),
        decreases entries - i, 33 - length,
    {
        let ghost before = list@;
        let left: i32 = entries - i;
        let width = ilog(left as u64);
        proof {
            assert(vstd::arithmetic::power::pow(2, 24) == 0x100_0000) by {
                vstd::arithmetic::power2::lemma2_to64();
                vstd::arithmetic::power2::lemma_pow2(24);
            }
            crate::numeric::lemma_ilog_bound(left as int, 24);
        }
        let ghost cur = reader@;
        let num = match read_field(reader, width) {
            Ok(v) => v,
            Err(e) => {
                assert(read_runs(cur, entries as int, i as int, length as int) == Err::<
                    (Seq<i8>, Seq<bool>),
                    Error,
                >(e));
                return Err(e);
            },
        };
        if length > 32 || num > left || (num > 0 && (((num - 1) as u32) >> ((length - 1) as u32))
            > 1) {
            assert(run_refused(num, left as int, length as int));
            assert(read_runs(cur, entries as int, i as int, length as int) == Err::<
                (Seq<i8>, Seq<bool>),
                Error,
            >(Error::InvalidData));
            return Err(Error::InvalidData);
        }
        assert(!run_refused(num, left as int, length as int));
        let mut k: i32 = 0;
        while k < num
            invariant
                0 <= k <= num,
                1 <= length <= 32,
                list@ == before + Seq::new(k as nat, |j: int| length as i8),
            decreases num - k,
        {
            list.push(length as i8);
            k += 1;
            assert(list@ =~= before + Seq::new(k as nat, |j: int| length as i8));
        }
        i += num;
        length += 1;
        proof {
            let run = Seq::new(num as nat, |j: int| (length - 1) as i8);
            assert(read_runs(cur, entries as int, i - num, length - 1) == (match read_runs(
                reader@,
                entries as int,
                i as int,
                length as int,
            ) {
                Err(e) => Err::<(Seq<i8>, Seq<bool>), Error>(e),
                Ok((tail, end)) => Ok((run + tail, end)),
            }));
            match read_runs(reader@, entries as int, i as int, length as int) {
                Ok((tail, end)) => {
                    assert(before + (run + tail) =~= list@ + tail);
                },
                Err(e) => {},
            }
        }
    }
    proof {
        assert(list@ + Seq::<i8>::empty() =~= list@);
    }
    Ok(list)
}

pub(crate) fn load_values(reader: &mut BitReader, n: usize, w: i32) -> (r: Result<Vec<i32>, Error>)
    requires
        0 <= w <= 31,
    ensures
        final(reader).source() == old(reader).source(),
        final(reader).consumed() >= old(reader).consumed(),
        match read_values(old(reader)@, n as nat, w as int) {
            Ok((list, rest)) => r.is_ok() && r.unwrap()@ == list && final(reader)@ == rest && list.len()
                == n && forall|k: int|
                0 <= k < n ==> 0 <= #[trigger] list[k] && (list[k] as u32) < (1u32 << (w as u32)),
            Err(e) => r == Err::<Vec<i32>, Error>(e),
        },
{
    let ghost start = reader@;
    let mut list: Vec<i32> = Vec::new();
    let mut i: usize = 0;
    while i < n
        invariant
            0 <= i <= n,
            0 <= w <= 31,
            list@.len() == i,
            start == old(reader)@,
            reader.source() == old(reader).source(),
            reader.consumed() >= old(reader).consumed(),
            read_values(start, n as nat, w as int) == (match read_values(
                reader@,
                (n - i) as nat,
                w as int,
            ) {
                Ok((tail, end)) => Ok::<(Seq<i32>, Seq<bool>), Error>((list@ + tail, end)),
                Err(e) => Err(e),
            }),
            forall|k: int|
                0 <= k < i ==> 0 <= #[trigger] list@[k] && (list@[k] as u32) < (1u32 << (w as u32)),
        decreases n - i,
    {
        let ghost before = list@;
        let ghost cur = reader@;
        let v = match read_field(reader, w) {
            Ok(v) => v,
            Err(e) => {
                assert(read_values(cur, (n - i) as nat, w as int) == Err::<(Seq<i32>, Seq<bool>), Error>(e));
                return Err(e);
            },
        };
        list.push(v);
        i += 1;
        proof {
            assert(read_values(cur, (n - i + 1) as nat, w as int) == (match read_values(
                reader@,
                (n - i) as nat,
                w as int,
            ) {
                Err(e) => Err::<(Seq<i32>, Seq<bool>), Error>(e),
                Ok((tail, end)) => Ok((seq![v] + tail, end)),
            }));
            match read_values(reader@, (n - i) as nat, w as int) {
                Ok((tail, end)) => {
                    assert(before + (seq![v] + tail) =~= list@ + tail);
                },
                Err(e) => {},
            }
        }
    }
    proof {
        assert(list@ + Seq::<i32>::empty() =~= list@);
    }
    Ok(list)
}

fn load_header_fields(reader: &mut BitReader) -> (r: Result<(i32, i32), Error>)
    ensures
        final(reader).source() == old(reader).source(),
        final(reader).consumed() >= old(reader).consumed(),
        match load_header(old(reader)@) {
            Ok(((dim, entries), rest)) => {
                &&& r == Ok::<(i32, i32), Error>((dim, entries))
                &&& final(reader)@ == rest
                &&& 0 <= dim <= 0xffff
                &&& 0 <= entries <= 0xff_ffff
                &&& spec_ilog(dim as int) + spec_ilog(entries as int) <= 24
            },
            Err(e) => r == Err::<(i32, i32), Error>(e),
        },
{
    let magic = read_field(reader, 24)?;
    if magic != BOOK_MAGIC {
        return Err(Error::InvalidData);
    }
    let dim = read_field(reader, 16)?;
    let entries = read_field(reader, 24)?;
    if ilog(dim as u64) + ilog(entries as u64) > 24 {
        return Err(Error::InvalidData);
    }
    Ok((dim, entries))
}

fn load_length_list(reader: &mut BitReader, entries: i32) -> (r: Result<Vec<i8>, Error>)
    requires
        0 <= entries <= 0xff_ffff,
    ensures
        final(reader).source() == old(reader).source(),
        final(reader).consumed() >= old(reader).consumed(),
        match load_lengths(old(reader)@, entries as int) {
            Ok((list, rest)) => r.is_ok() && r.unwrap()@ == list && final(reader)@ == rest,
            Err(e) => r == Err::<Vec<i8>, Error>(e),
        },
{
    let ordered = read_field(reader, 1)?;
    if ordered == 0 {
        let unused = read_field(reader, 1)?;
        if unused != 0 {
            load_tagged_lengths(reader, entries)
        } else {
            load_plain_lengths(reader, entries)
        }
    } else {
        let first = read_field(reader, 5)?;
        load_runs(reader, entries, first + 1)
    }
}

/// The value mapping of a codebook, as it is read.
struct Mapping {
    maptype: i32,
    q_min: u32,
    q_delta: u32,
    q_quant: i32,
    q_sequencep: bool,
    quantlist: Vec<i32>,
}

impl View for Mapping {
    type V = MappingSpec;

    closed spec fn view(&self) -> MappingSpec {
        MappingSpec {
            maptype: self.maptype,
            q_min: self.q_min,
            q_delta: self.q_delta,
            q_quant: self.q_quant,
            q_sequencep: self.q_sequencep,
            quantlist: self.quantlist@,
        }
    }
}

fn load_quantization_fields(reader: &mut BitReader, maptype: i32, dim: i32, entries: i32) -> (r: Result<
    Mapping,
    Error,
>)
    requires
        maptype == 1 || maptype == 2,
        0 <= dim <= 0xffff,
        0 <= entries <= 0xff_ffff,
        spec_ilog(dim as int) + spec_ilog(entries as int) <= 24,
    ensures
        final(reader).source() == old(reader).source(),
        final(reader).consumed() >= old(reader).consumed(),
        match load_quantization(old(reader)@, maptype, dim, entries) {
            Ok((m, rest)) => r.is_ok() && r.unwrap()@ == m && final(reader)@ == rest,
            Err(e) => r matches Err(x) && x == e,
        },
{
    let q_min = reader.read(32)?;
    let q_delta = reader.read(32)?;
    let quant = read_field(reader, 4)?;
    let sequencep = read_field(reader, 1)?;
    let quantvals: usize = if maptype == 1 {
        lattice_root(entries, dim) as usize
    } else {
        proof {
            crate::numeric::lemma_product_of_bit_lengths(entries as int, dim as int);
            assert(0 <= entries * dim) by (nonlinear_arith)
                requires
                    0 <= entries,
                    0 <= dim,
            ;
        }
        (entries as usize) * (dim as usize)
    };
    let quantlist = load_values(reader, quantvals, quant + 1)?;
    Ok(
        Mapping {
            maptype,
            q_min: #[verifier::truncate] (q_min as u32),
            q_delta: #[verifier::truncate] (q_delta as u32),
            q_quant: quant + 1,
            q_sequencep: sequencep != 0,
            quantlist,
        },
    )
}

fn load_mapping_fields(reader: &mut BitReader, dim: i32, entries: i32) -> (r: Result<Mapping, Error>)
    requires
        0 <= dim <= 0xffff,
        0 <= entries <= 0xff_ffff,
        spec_ilog(dim as int) + spec_ilog(entries as int) <= 24,
    ensures
        final(reader).source() == old(reader).source(),
        final(reader).consumed() >= old(reader).consumed(),
        match load_mapping(old(reader)@, dim, entries) {
            Ok((m, rest)) => r.is_ok() && r.unwrap()@ == m && final(reader)@ == rest,
            Err(e) => r matches Err(x) && x == e,
        },
{
    let maptype = read_field(reader, 4)?;
    if maptype == 0 {
        Ok(
            Mapping {
                maptype: 0,
                q_min: 0,
                q_delta: 0,
                q_quant: 0,
                q_sequencep: false,
                quantlist: Vec::new(),
            },
        )
    } else if maptype == 1 || maptype == 2 {
        load_quantization_fields(reader, maptype, dim, entries)
    } else {
        Err(Error::InvalidData)
    }
}

fn load_book(reader: &mut BitReader) -> (r: Result<StaticCodeBook, Error>)
    ensures
        final(reader).source() == old(reader).source(),
        final(reader).consumed() >= old(reader).consumed(),
        match spec_load(old(reader)@) {
            Ok((book, rest)) => r.is_ok() && r.unwrap()@ == book && final(reader)@ == rest,
            Err(e) => r matches Err(x) && x == e,
        },
{
    reveal(spec_load);
    let (dim, entries) = load_header_fields(reader)?;
    let lengthlist = load_length_list(reader, entries)?;
    let m = load_mapping_fields(reader, dim, entries)?;
    Ok(
        StaticCodeBook {
            dim,
            entries,
            lengthlist,
            maptype: m.maptype,
            q_min: m.q_min,
            q_delta: m.q_delta,
            q_quant: m.q_quant,
            q_sequencep: m.q_sequencep,
            quantlist: m.quantlist,
        },
    )
}

impl StaticCodeBook {
    /// Reads a codebook from the stream. On failure the reader stays
    /// where it was.
    pub fn load(bitreader: &mut BitReader) -> (r: Result<Self, Error>)
        ensures
            final(bitreader).source() == old(bitreader).source(),
            match spec_load(old(bitreader)@) {
                Ok((book, rest)) => {
                    &&& r.is_ok()
                    &&& r.unwrap()@ == book
                    &&& final(bitreader)@ == rest
                    &&& final(bitreader).consumed() + rest.len() == old(bitreader).consumed() + old(
                        bitreader,
                    )@.len()
                    &&& rest.len() <= old(bitreader)@.len()
                },
                Err(e) => {
                    &&& r matches Err(x) && x == e
                    &&& final(bitreader)@ == old(bitreader)@
                    &&& final(bitreader).consumed() == old(bitreader).consumed()
                },
            },
    {
        let saved: BitReader = *bitreader;
        // Asking for the bits that are left tells how many have been read.
        let _ = bitreader.remaining_bits();
        match load_book(bitreader) {
            Ok(book) => {
                let _ = bitreader.remaining_bits();
                Ok(book)
            },
            Err(e) => {
                *bitreader = saved;
                Err(e)
            },
        }
    }

    /// The number of quantized values per dimension of a lattice codebook
    /// with this number of entries and this dimension: the greatest
    /// `vals` with `vals` to the power `dim` at most `entries`. It is 0
    /// where `entries` or `dim` is below 1.
    pub fn book_maptype1_quantvals(&self) -> (vals: i32)
        ensures
            vals == lattice_quantvals(self.entries as int, self.dim as int),
            self.entries >= 1 && self.dim >= 1 ==> crate::numeric::is_lattice_root(
                vals as int,
                self.entries as int,
                self.dim as int,
            ),
            self.entries < 1 || self.dim < 1 ==> vals == 0,
    {
        lattice_root(self.entries, self.dim)
    }
}

/// The magic value, the dimension and the number of entries as they
/// stand on the wire.
pub open spec fn pack_header(dim: i32, entries: i32) -> Seq<bool> {
    value_bits(BOOK_MAGIC as u32, 24) + value_bits(dim as u32, 16) + value_bits(entries as u32, 24)
}

/// A code length on the wire: 5 bits that hold the length less one.
pub open spec fn length_field(length: i8) -> Seq<bool> {
    value_bits((length - 1) as u32, 5)
}

/// The code lengths from entry `i` on, each in a field of its own.
pub open spec fn pack_plain_lengths(l: Seq<i8>, i: int) -> Seq<bool>
    decreases l.len() - i,
{
    if 0 <= i < l.len() {
        length_field(l[i]) + pack_plain_lengths(l, i + 1)
    } else {
        Seq::empty()
    }
}

/// The code lengths from entry `i` on, each behind a bit that says
/// whether the entry is used; an entry of length 0 has no length field.
pub open spec fn pack_tagged_lengths(l: Seq<i8>, i: int) -> Seq<bool>
    decreases l.len() - i,
{
    if 0 <= i < l.len() {
        (if l[i] == 0 {
            value_bits(0, 1)
        } else {
            value_bits(1, 1) + length_field(l[i])
        }) + pack_tagged_lengths(l, i + 1)
    } else {
        Seq::empty()
    }
}

/// How many entries in a row, from entry `i` on, have the length
/// `length`.
pub open spec fn run_len(l: Seq<i8>, i: int, length: int) -> int
    decreases l.len() - i,
{
    if 0 <= i < l.len() && l[i] == length {
        1 + run_len(l, i + 1, length)
    } else {
        0
    }
}

/// A run does not go past the end of the list.
pub proof fn lemma_run_len_bound(l: Seq<i8>, i: int, length: int)
    ensures
        0 <= run_len(l, i, length),
        0 <= i <= l.len() ==> i + run_len(l, i, length) <= l.len(),
    decreases l.len() - i,
{
    if 0 <= i < l.len() && l[i] == length {
        lemma_run_len_bound(l, i + 1, length);
    }
}

/// The code lengths from entry `i` on as runs: the number of entries of
/// length `length`, then of `length + 1`, and so on until no entry is
/// left, each number in as many bits as the number of entries left needs.
pub open spec fn pack_runs(l: Seq<i8>, i: int, length: int) -> Seq<bool>
    decreases l.len() - i, 128 - length,
{
    if 0 <= i < l.len() && length <= 127 {
        proof {
            lemma_run_len_bound(l, i, length);
        }
        let num = run_len(l, i, length);
        value_bits(num as u32, spec_ilog(l.len() - i) as nat) + pack_runs(l, i + num, length + 1)
    } else {
        Seq::empty()
    }
}

/// Whether the code lengths are packed as runs: there is an entry, no
/// length is below the one before it, and no entry but the last has
/// length 0.
pub open spec fn is_ordered(l: Seq<i8>) -> bool {
    &&& l.len() >= 1
    &&& forall|i: int| 1 <= i < l.len() ==> #[trigger] follows_in_order(l, i)
}

/// Entry `i` can follow entry `i - 1` in a list packed as runs.
pub open spec fn follows_in_order(l: Seq<i8>, i: int) -> bool {
    l[i - 1] != 0 && l[i] >= l[i - 1]
}

/// Whether an entry is not used.
pub open spec fn has_unused(l: Seq<i8>) -> bool {
    exists|i: int| 0 <= i < l.len() && #[trigger] l[i] == 0
}

/// The code lengths as they stand on the wire, in the most compact of the
/// three forms that can hold them.
pub open spec fn pack_lengths(l: Seq<i8>) -> Seq<bool> {
    if is_ordered(l) {
        value_bits(1, 1) + length_field(l[0]) + pack_runs(l, 0, l[0] as int)
    } else if has_unused(l) {
        value_bits(0, 1) + value_bits(1, 1) + pack_tagged_lengths(l, 0)
    } else {
        value_bits(0, 1) + value_bits(0, 1) + pack_plain_lengths(l, 0)
    }
}

/// The magnitude of a quantized value.
pub open spec fn magnitude(q: i32) -> u32 {
    if q < 0 {
        (-q) as u32
    } else {
        q as u32
    }
}

/// The magnitudes of the quantized values `i .. n`, in `w` bits each.
pub open spec fn pack_values(q: Seq<i32>, i: int, n: int, w: int) -> Seq<bool>
    decreases n - i,
{
    if 0 <= i < n {
        value_bits(magnitude(q[i]), w as nat) + pack_values(q, i + 1, n, w)
    } else {
        Seq::empty()
    }
}

/// The map type and, for map types 1 and 2, the quantization parameters
/// and the quantized values as they stand on the wire.
pub open spec fn pack_mapping(b: BookSpec) -> Seq<bool> {
    value_bits(b.maptype as u32, 4) + (if b.maptype == 0 {
        Seq::empty()
    } else {
        value_bits(b.q_min, 32) + value_bits(b.q_delta, 32) + value_bits((b.q_quant - 1) as u32, 4)
            + value_bits(if b.q_sequencep { 1 } else { 0 }, 1) + pack_values(
            b.quantlist,
            0,
            quantlist_len(b.maptype, b.dim, b.entries),
            b.q_quant as int,
        )
    })
}

/// Why a codebook cannot be packed, if it cannot: its list of code
/// lengths is not as long as it has entries, its map type is none of 0, 1
/// and 2, or it has a map type other than 0 and a negative dimension, a
/// width of the quantized values outside 0 to 32, no quantized values or
/// fewer than its map type asks for.
pub open spec fn pack_refusal(b: BookSpec) -> Option<Error> {
    if b.entries < 0 || b.lengthlist.len() != b.entries {
        Some(Error::InvalidData)
    } else if b.maptype == 0 {
        None
    } else if b.maptype != 1 && b.maptype != 2 {
        Some(Error::InvalidData)
    } else if b.quantlist.len() == 0 || b.dim < 0 || b.quantlist.len() < quantlist_len(
        b.maptype,
        b.dim,
        b.entries,
    ) {
        Some(Error::InvalidData)
    } else if b.q_quant < 0 || b.q_quant > 32 {
        Some(Error::InvalidInput)
    } else {
        None
    }
}

/// The codebook as it stands on the wire.
pub open spec fn packed_book(b: BookSpec) -> Seq<bool> {
    pack_header(b.dim, b.entries) + pack_lengths(b.lengthlist) + pack_mapping(b)
}

/// What packing a codebook gives: its bits, or the reason for which it
/// cannot be packed.
pub open spec fn spec_pack(b: BookSpec) -> Result<Seq<bool>, Error> {
    match pack_refusal(b) {
        Some(e) => Err(e),
        None => Ok(packed_book(b)),
    }
}

/// Appends a field whose width is known to be one that the writer takes.
pub(crate) fn put(writer: &mut BitWriter, value: u32, bits: i32)
    requires
        0 <= bits <= 32,
        old(writer).has_room(bits as nat),
    ensures
        final(writer)@ == old(writer)@ + value_bits(value, bits as nat),
        final(writer).written() == old(writer).written() + bits,
{
    let _ = writer.write(value, bits);
}

/// In an ordered list no entry is shorter than an earlier one.
proof fn lemma_ordered_monotone(l: Seq<i8>, a: int, b: int)
    requires
        is_ordered(l),
        0 <= a <= b < l.len(),
    ensures
        l[a] <= l[b],
    decreases b - a,
{
    if a < b {
        lemma_ordered_monotone(l, a, b - 1);
        assert(follows_in_order(l, b));
    }
}

fn lengths_ordered(l: &Vec<i8>) -> (b: bool)
    ensures
        b == is_ordered(l@),
{
    let n = l.len();
    let mut i: usize = 1;
    while i < n
        invariant
            1 <= i,
            i <= n || n == 0,
            n == l@.len(),
            forall|k: int| 1 <= k < i && k < n ==> #[trigger] follows_in_order(l@, k),
        decreases n - i,
    {
        if l[i - 1] == 0 || l[i] < l[i - 1] {
            assert(!follows_in_order(l@, i as int));
            return false;
        }
        i += 1;
    }
    i == n
}

fn lengths_have_unused(l: &Vec<i8>) -> (b: bool)
    ensures
        b == has_unused(l@),
{
    let n = l.len();
    let mut i: usize = 0;
    while i < n
        invariant
            i <= n,
            n == l@.len(),
            forall|k: int| 0 <= k < i ==> #[trigger] l@[k] != 0,
        decreases n - i,
    {
        if l[i] == 0 {
            return true;
        }
        i += 1;
    }
    false
}

fn put_length(writer: &mut BitWriter, length: i8)
    requires
        old(writer).has_room(5),
    ensures
        final(writer)@ == old(writer)@ + length_field(length),
        final(writer).written() == old(writer).written() + 5,
{
    put(writer, #[verifier::truncate] ((length as i32 - 1) as u32), 5);
}

fn put_plain_lengths(writer: &mut BitWriter, l: &Vec<i8>)
    requires
        old(writer).has_room(pack_plain_lengths(l@, 0).len()),
    ensures
        final(writer)@ == old(writer)@ + pack_plain_lengths(l@, 0),
        final(writer).written() == old(writer).written() + pack_plain_lengths(l@, 0).len(),
{
    let ghost target = writer@ + pack_plain_lengths(l@, 0);
    let ghost goal = writer.written() + pack_plain_lengths(l@, 0).len();
    let n = l.len();
    let mut i: usize = 0;
    while i < n
        invariant
            i <= n,
            n == l@.len(),
            writer@ + pack_plain_lengths(l@, i as int) == target,
            writer.written() + pack_plain_lengths(l@, i as int).len() == goal,
            target.len() + 7 <= usize::MAX,
        decreases n - i,
    {
        let ghost before = writer@;
        put_length(writer, l[i]);
        proof {
            assert(before + (length_field(l@[i as int]) + pack_plain_lengths(l@, i + 1)) =~= writer@
                + pack_plain_lengths(l@, i + 1));
        }
        i += 1;
    }
    proof {
        assert(writer@ + Seq::<bool>::empty() =~= writer@);
    }
}

fn put_tagged_lengths(writer: &mut BitWriter, l: &Vec<i8>)
    requires
        old(writer).has_room(pack_tagged_lengths(l@, 0).len()),
    ensures
        final(writer)@ == old(writer)@ + pack_tagged_lengths(l@, 0),
        final(writer).written() == old(writer).written() + pack_tagged_lengths(l@, 0).len(),
{
    let ghost target = writer@ + pack_tagged_lengths(l@, 0);
    let ghost goal = writer.written() + pack_tagged_lengths(l@, 0).len();
    let n = l.len();
    let mut i: usize = 0;
    while i < n
        invariant
            i <= n,
            n == l@.len(),
            writer@ + pack_tagged_lengths(l@, i as int) == target,
            writer.written() + pack_tagged_lengths(l@, i as int).len() == goal,
            target.len() + 7 <= usize::MAX,
        decreases n - i,
    {
        let ghost before = writer@;
        if l[i] == 0 {
            put(writer, 0, 1);
            proof {
                assert(before + (value_bits(0, 1) + pack_tagged_lengths(l@, i + 1)) =~= writer@
                    + pack_tagged_lengths(l@, i + 1));
            }
        } else {
            put(writer, 1, 1);
            put_length(writer, l[i]);
            proof {
                assert(before + ((value_bits(1, 1) + length_field(l@[i as int])) + pack_tagged_lengths(
                    l@,
                    i + 1,
                )) =~= writer@ + pack_tagged_lengths(l@, i + 1));
            }
        }
        i += 1;
    }
    proof {
        assert(writer@ + Seq::<bool>::empty() =~= writer@);
    }
}

fn put_runs(writer: &mut BitWriter, l: &Vec<i8>)
    requires
        is_ordered(l@),
        l@.len() <= 0x7fff_ffff,
        old(writer).has_room(pack_runs(l@, 0, l@[0] as int).len()),
    ensures
        final(writer)@ == old(writer)@ + pack_runs(l@, 0, l@[0] as int),
        final(writer).written() == old(writer).written() + pack_runs(l@, 0, l@[0] as int).len(),
{
    let ghost target = writer@ + pack_runs(l@, 0, l@[0] as int);
    let ghost goal = writer.written() + pack_runs(l@, 0, l@[0] as int).len();
    let n = l.len();
    let mut i: usize = 0;
    let mut length: i32 = l[0] as i32;
    while i < n
        invariant
            i <= n,
            n == l@.len(),
            n <= 0x7fff_ffff,
            is_ordered(l@),
            -128 <= length <= 128,
            i < n ==> l@[i as int] >= length,
            writer@ + pack_runs(l@, i as int, length as int) == target,
            writer.written() + pack_runs(l@, i as int, length as int).len() == goal,
            target.len() + 7 <= usize::MAX,
        decreases n - i, 128 - length,
    {
        let ghost before = writer@;
        let mut j: usize = i;
        while j < n && l[j] as i32 == length
            invariant
                i <= j <= n,
                n == l@.len(),
                j - i + run_len(l@, j as int, length as int) == run_len(l@, i as int, length as int),
            decreases n - j,
        {
            j += 1;
        }
        let width = ilog((n - i) as u64);
        proof {
            assert(vstd::arithmetic::power::pow(2, 31) == 0x8000_0000) by {
                vstd::arithmetic::power2::lemma2_to64();
                vstd::arithmetic::power2::lemma_pow2(31);
            }
            crate::numeric::lemma_ilog_bound((n - i) as int, 31);
            lemma_run_len_bound(l@, i as int, length as int);
            if j < n {
                lemma_ordered_monotone(l@, i as int, j as int);
            }
        }
        put(writer, (j - i) as u32, width);
        proof {
            let num = run_len(l@, i as int, length as int);
            assert(before + (value_bits(num as u32, spec_ilog(n - i) as nat) + pack_runs(
                l@,
                i + num,
                length + 1,
            )) =~= writer@ + pack_runs(l@, j as int, length + 1));
        }
        i = j;
        length += 1;
    }
    proof {
        assert(writer@ + Seq::<bool>::empty() =~= writer@);
    }
}

fn put_lengths(writer: &mut BitWriter, l: &Vec<i8>)
    requires
        l@.len() <= 0x7fff_ffff,
        old(writer).has_room(pack_lengths(l@).len()),
    ensures
        final(writer)@ == old(writer)@ + pack_lengths(l@),
        final(writer).written() == old(writer).written() + pack_lengths(l@).len(),
{
    let ghost before = writer@;
    if lengths_ordered(l) {
        put(writer, 1, 1);
        put_length(writer, l[0]);
        put_runs(writer, l);
        assert(writer@ =~= before + pack_lengths(l@));
    } else if lengths_have_unused(l) {
        put(writer, 0, 1);
        put(writer, 1, 1);
        put_tagged_lengths(writer, l);
        assert(writer@ =~= before + pack_lengths(l@));
    } else {
        put(writer, 0, 1);
        put(writer, 0, 1);
        put_plain_lengths(writer, l);
        assert(writer@ =~= before + pack_lengths(l@));
    }
}

fn put_values(writer: &mut BitWriter, q: &Vec<i32>, n: usize, w: i32)
    requires
        0 <= w <= 32,
        n <= q@.len(),
        old(writer).has_room(pack_values(q@, 0, n as int, w as int).len()),
    ensures
        final(writer)@ == old(writer)@ + pack_values(q@, 0, n as int, w as int),
        final(writer).written() == old(writer).written() + pack_values(q@, 0, n as int, w as int).len(),
{
    let ghost target = writer@ + pack_values(q@, 0, n as int, w as int);
    let ghost goal = writer.written() + pack_values(q@, 0, n as int, w as int).len();
    let mut i: usize = 0;
    while i < n
        invariant
            i <= n <= q@.len(),
            0 <= w <= 32,
            writer@ + pack_values(q@, i as int, n as int, w as int) == target,
            writer.written() + pack_values(q@, i as int, n as int, w as int).len() == goal,
            target.len() + 7 <= usize::MAX,
        decreases n - i,
    {
        let ghost before = writer@;
        let v: i32 = q[i];
        let m: u32 = if v < 0 {
            (-(v as i64)) as u32
        } else {
            v as u32
        };
        put(writer, m, w);
        proof {
            assert(before + (value_bits(magnitude(v), w as nat) + pack_values(
                q@,
                i + 1,
                n as int,
                w as int,
            )) =~= writer@ + pack_values(q@, i + 1, n as int, w as int));
        }
        i += 1;
    }
    proof {
        assert(writer@ + Seq::<bool>::empty() =~= writer@);
    }
}

impl StaticCodeBook {
    /// How many quantized values the map type asks for, if the codebook
    /// can be packed; else the reason for which it cannot.
    fn check_packable(&self) -> (r: Result<usize, Error>)
        ensures
            match pack_refusal(self@) {
                Some(e) => r == Err::<usize, Error>(e),
                None => r matches Ok(n) && n == quantlist_len(self.maptype, self.dim, self.entries)
                    && n <= self.quantlist@.len(),
            },
    {
        if self.entries < 0 || self.lengthlist.len() != self.entries as usize {
            return Err(Error::InvalidData);
        }
        if self.maptype == 0 {
            return Ok(0);
        }
        if self.maptype != 1 && self.maptype != 2 {
            return Err(Error::InvalidData);
        }
        if self.quantlist.len() == 0 || self.dim < 0 {
            return Err(Error::InvalidData);
        }
        let quantvals: u64 = if self.maptype == 1 {
            lattice_root(self.entries, self.dim) as u64
        } else {
            assert(0 <= self.entries * self.dim <= 0x7fff_ffff * 0x7fff_ffff) by (nonlinear_arith)
                requires
                    0 <= self.entries <= 0x7fff_ffff,
                    0 <= self.dim <= 0x7fff_ffff,
            ;
            (self.entries as u64) * (self.dim as u64)
        };
        if (self.quantlist.len() as u64) < quantvals {
            return Err(Error::InvalidData);
        }
        if self.q_quant < 0 || self.q_quant > 32 {
            return Err(Error::InvalidInput);
        }
        Ok(quantvals as usize)
    }

    /// Why the codebook cannot be packed, if it cannot.
    pub(crate) fn refusal(&self) -> (r: Option<Error>)
        ensures
            r == pack_refusal(self@),
    {
        match self.check_packable() {
            Ok(n) => None,
            Err(e) => Some(e),
        }
    }

    fn put_mapping(&self, writer: &mut BitWriter, quantvals: usize)
        requires
            pack_refusal(self@).is_none(),
            quantvals == quantlist_len(self.maptype, self.dim, self.entries),
            quantvals <= self.quantlist@.len(),
            old(writer).has_room(pack_mapping(self@).len()),
        ensures
            final(writer)@ == old(writer)@ + pack_mapping(self@),
            final(writer).written() == old(writer).written() + pack_mapping(self@).len(),
    {
        let ghost before = writer@;
        put(writer, #[verifier::truncate] (self.maptype as u32), 4);
        if self.maptype != 0 {
            put(writer, self.q_min, 32);
            put(writer, self.q_delta, 32);
            put(writer, #[verifier::truncate] ((self.q_quant - 1) as u32), 4);
            put(writer, if self.q_sequencep { 1 } else { 0 }, 1);
            put_values(writer, &self.quantlist, quantvals, self.q_quant);
        }
        assert(writer@ =~= before + pack_mapping(self@));
    }

    /// Appends the codebook to the stream and returns the number of bits
    /// that it takes. A codebook that cannot be packed is refused before
    /// anything is written.
    pub fn pack(&self, bitwriter: &mut BitWriter) -> (r: Result<usize, Error>)
        requires
            spec_pack(self@).is_ok() ==> old(bitwriter).has_room(packed_book(self@).len()),
        ensures
            match spec_pack(self@) {
                Ok(bits) => {
                    &&& r == Ok::<usize, Error>(bits.len() as usize)
                    &&& final(bitwriter)@ == old(bitwriter)@ + bits
                    &&& final(bitwriter).written() == old(bitwriter).written() + bits.len()
                },
                Err(e) => {
                    &&& r == Err::<usize, Error>(e)
                    &&& final(bitwriter)@ == old(bitwriter)@
                    &&& final(bitwriter).written() == old(bitwriter).written()
                },
            },
    {
        let quantvals = match self.check_packable() {
            Ok(n) => n,
            Err(e) => {
                return Err(e);
            },
        };
        let ghost before = bitwriter@;
        let begin_bits = bitwriter.total_bits();
        put(bitwriter, BOOK_MAGIC as u32, 24);
        put(bitwriter, #[verifier::truncate] (self.dim as u32), 16);
        put(bitwriter, #[verifier::truncate] (self.entries as u32), 24);
        assert(bitwriter@ =~= before + pack_header(self.dim, self.entries));
        put_lengths(bitwriter, &self.lengthlist);
        self.put_mapping(bitwriter, quantvals);
        assert(bitwriter@ =~= before + packed_book(self@));
        Ok(bitwriter.total_bits() - begin_bits)
    }
}

impl Default for StaticCodeBook {
    /// The codebook without entries.
    fn default() -> (r: Self)
        ensures
            r@ == (BookSpec {
                dim: 0,
                entries: 0,
                lengthlist: Seq::empty(),
                maptype: 0,
                q_min: 0,
                q_delta: 0,
                q_quant: 0,
                q_sequencep: false,
                quantlist: Seq::empty(),
            }),
    {
        StaticCodeBook {
            dim: 0,
            entries: 0,
            lengthlist: Vec::new(),
            maptype: 0,
            q_min: 0,
            q_delta: 0,
            q_quant: 0,
            q_sequencep: false,
            quantlist: Vec::new(),
        }
    }
}

} // verus!
