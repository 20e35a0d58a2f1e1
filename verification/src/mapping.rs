//! The channel mapping of a setup header: which channels are coupled and
//! which floor and residue each channel uses.

use crate::bits::value_bits;
use crate::buffer::IntBuffer;
use crate::codebook::{put, read_field};
use crate::error::Error;
use crate::numeric::{ilog, spec_ilog};
use crate::reader::{spec_read, BitReader};
use crate::writer::BitWriter;
use vstd::prelude::*;

verus! {

/// A channel mapping.
#[derive(Debug, Clone, PartialEq, Eq)]
pub struct VorbisMapping {
    /// The type of the mapping, which is 0.
    pub mapping_type: i32,
    /// The number of submaps, at most 16.
    pub submaps: i32,
    /// The submap of each channel, where there is more than one submap.
    pub chmuxlist: IntBuffer,
    /// The floor of each submap.
    pub floorsubmap: IntBuffer,
    /// The residue of each submap.
    pub residuesubmap: IntBuffer,
    /// The number of pairs of coupled channels.
    pub coupling_steps: i32,
    /// The magnitude channel of each pair.
    pub coupling_mag: IntBuffer,
    /// The angle channel of each pair.
    pub coupling_ang: IntBuffer,
}

/// The mathematical content of a channel mapping.
pub struct MappingView {
    pub mapping_type: i32,
    pub submaps: i32,
    pub chmuxlist: Seq<i32>,
    pub floorsubmap: Seq<i32>,
    pub residuesubmap: Seq<i32>,
    pub coupling_steps: i32,
    pub coupling_mag: Seq<i32>,
    pub coupling_ang: Seq<i32>,
}

impl View for VorbisMapping {
    type V = MappingView;

    open spec fn view(&self) -> MappingView {
        MappingView {
            mapping_type: self.mapping_type,
            submaps: self.submaps,
            chmuxlist: self.chmuxlist@,
            floorsubmap: self.floorsubmap@,
            residuesubmap: self.residuesubmap@,
            coupling_steps: self.coupling_steps,
            coupling_mag: self.coupling_mag@,
            coupling_ang: self.coupling_ang@,
        }
    }
}

/// The number of bits of a channel number: as many as the greatest
/// channel number needs. Without channels it is 64, which no field has.
pub open spec fn channel_bits(channels: i32) -> int {
    if channels >= 1 {
        spec_ilog(channels - 1)
    } else {
        64
    }
}

/// Reads `n` pairs of coupled channels, which must be two channels of the
/// stream.
pub open spec fn read_couplings(s: Seq<bool>, n: nat, channels: i32) -> Result<
    (Seq<i32>, Seq<i32>, Seq<bool>),
    Error,
>
    decreases n,
{
    if n == 0 {
        Ok((Seq::empty(), Seq::empty(), s))
    } else {
        match spec_read(s, channel_bits(channels)) {
            Err(e) => Err(e),
            Ok((mag, s1)) => match spec_read(s1, channel_bits(channels)) {
                Err(e) => Err(e),
                Ok((ang, s2)) => if mag == ang || mag >= channels || ang >= channels {
                    Err(Error::InvalidData)
                } else {
                    match read_couplings(s2, (n - 1) as nat, channels) {
                        Err(e) => Err(e),
                        Ok((mags, angs, end)) => Ok((seq![mag] + mags, seq![ang] + angs, end)),
                    }
                },
            },
        }
    }
}

/// Reads the submap of each of `n` channels, in 4 bits, which must be one
/// of the `submaps` submaps.
pub open spec fn read_chmux(s: Seq<bool>, n: nat, submaps: i32) -> Result<(Seq<i32>, Seq<bool>), Error>
    decreases n,
{
    if n == 0 {
        Ok((Seq::empty(), s))
    } else {
        match spec_read(s, 4) {
            Err(e) => Err(e),
            Ok((v, rest)) => if v >= submaps {
                Err(Error::InvalidData)
            } else {
                match read_chmux(rest, (n - 1) as nat, submaps) {
                    Err(e) => Err(e),
                    Ok((tail, end)) => Ok((seq![v] + tail, end)),
                }
            },
        }
    }
}

/// Reads the floor and the residue of each of `n` submaps, each behind 8
/// bits that are not used; they must be among the floors and the residues
/// of the setup header.
pub open spec fn read_submaps(s: Seq<bool>, n: nat, floors: int, residues: int) -> Result<
    (Seq<i32>, Seq<i32>, Seq<bool>),
    Error,
>
    decreases n,
{
    if n == 0 {
        Ok((Seq::empty(), Seq::empty(), s))
    } else {
        match spec_read(s, 8) {
            Err(e) => Err(e),
            Ok((unused, s1)) => match spec_read(s1, 8) {
                Err(e) => Err(e),
                Ok((floor, s2)) => if floor >= floors {
                    Err(Error::InvalidData)
                } else {
                    match spec_read(s2, 8) {
                        Err(e) => Err(e),
                        Ok((residue, s3)) => if residue >= residues {
                            Err(Error::InvalidData)
                        } else {
                            match read_submaps(s3, (n - 1) as nat, floors, residues) {
                                Err(e) => Err(e),
                                Ok((fs, rs, end)) => Ok((seq![floor] + fs, seq![residue] + rs, end)),
                            }
                        },
                    }
                },
            },
        }
    }
}

/// Reads a number that is there only if a flag bit says so: the number is
/// stored less one in `w` bits, and `absent` stands for it where the flag
/// is not set.
pub open spec fn read_optional(s: Seq<bool>, w: int, absent: i32) -> Result<(i32, Seq<bool>), Error> {
    match spec_read(s, 1) {
        Err(e) => Err(e),
        Ok((flag, s1)) => if flag != 0 {
            match spec_read(s1, w) {
                Err(e) => Err(e),
                Ok((v, s2)) => Ok(((v + 1) as i32, s2)),
            }
        } else {
            Ok((absent, s1))
        },
    }
}

/// What loading a mapping gives, for a stream of `channels` channels and
/// a setup header of `floors` floors and `residues` residues.
pub open spec fn load_mapping(s: Seq<bool>, channels: i32, floors: int, residues: int) -> Result<
    (MappingView, Seq<bool>),
    Error,
> {
    match spec_read(s, 16) {
        Err(e) => Err(e),
        Ok((mapping_type, s1)) => if mapping_type != 0 {
            Err(Error::InvalidData)
        } else {
            match read_optional(s1, 4, 1) {
                Err(e) => Err(e),
                Ok((submaps, s2)) => match read_optional(s2, 8, 0) {
                    Err(e) => Err(e),
                    Ok((steps, s3)) => match read_couplings(s3, steps as nat, channels) {
                        Err(e) => Err(e),
                        Ok((mags, angs, s4)) => match spec_read(s4, 2) {
                            Err(e) => Err(e),
                            Ok((reserved, s5)) => if reserved != 0 {
                                Err(Error::InvalidData)
                            } else {
                                load_mapping_lists(s5, channels, floors, residues, submaps, steps, mags, angs)
                            },
                        },
                    },
                },
            }
        },
    }
}

/// The second half of loading a mapping: the submap of each channel,
/// where there is more than one submap and the stream has at most 256
/// channels, and the floor and the residue of each submap.
pub open spec fn load_mapping_lists(
    s: Seq<bool>,
    channels: i32,
    floors: int,
    residues: int,
    submaps: i32,
    steps: i32,
    mags: Seq<i32>,
    angs: Seq<i32>,
) -> Result<(MappingView, Seq<bool>), Error> {
    if submaps > 1 && (channels < 0 || channels > 256) {
        Err(Error::InvalidData)
    } else {
        match read_chmux(
            s,
            if submaps > 1 {
                channels as nat
            } else {
                0
            },
            submaps,
        ) {
            Err(e) => Err(e),
            Ok((chmux, s1)) => match read_submaps(s1, submaps as nat, floors, residues) {
                Err(e) => Err(e),
                Ok((fs, rs, rest)) => Ok(
                    (
                        MappingView {
                            mapping_type: 0,
                            submaps,
                            chmuxlist: chmux,
                            floorsubmap: fs,
                            residuesubmap: rs,
                            coupling_steps: steps,
                            coupling_mag: mags,
                            coupling_ang: angs,
                        },
                        rest,
                    ),
                ),
            },
        }
    }
}

/// The number of bits of a channel number.
fn bits_of_channels(channels: i32) -> (w: i32)
    ensures
        w == channel_bits(channels),
        0 <= w <= 64,
{
    if channels >= 1 {
        ilog((channels - 1) as u64)
    } else {
        64
    }
}

fn take_optional(reader: &mut BitReader, w: i32, absent: i32) -> (r: Result<i32, Error>)
    requires
        1 <= w <= 8,
        0 <= absent <= 1,
    ensures
        final(reader).source() == old(reader).source(),
        final(reader).consumed() >= old(reader).consumed(),
        match read_optional(old(reader)@, w as int, absent) {
            Ok((v, rest)) => r == Ok::<i32, Error>(v) && final(reader)@ == rest && 0 <= v <= 256 && (w
                <= 4 ==> v <= 16),
            Err(e) => r matches Err(x) && x == e,
        },
{
    let flag = read_field(reader, 1)?;
    if flag != 0 {
        let v = read_field(reader, w)?;
        Ok(v + 1)
    } else {
        Ok(absent)
    }
}

fn take_couplings(reader: &mut BitReader, n: usize, channels: i32) -> (r: Result<
    (IntBuffer, IntBuffer),
    Error,
>)
    requires
        n <= 256,
    ensures
        final(reader).source() == old(reader).source(),
        final(reader).consumed() >= old(reader).consumed(),
        match read_couplings(old(reader)@, n as nat, channels) {
            Ok((mags, angs, rest)) => r matches Ok(t) && t.0@ == mags && t.1@ == angs && final(reader)@
                == rest,
            Err(e) => r matches Err(x) && x == e,
        },
{
    let ghost start = reader@;
    let w = bits_of_channels(channels);
    let mut mags = IntBuffer::new();
    let mut angs = IntBuffer::new();
    let mut i: usize = 0;
    while i < n
        invariant
            i <= n <= 256,
            mags@.len() == i,
            angs@.len() == i,
            w == channel_bits(channels),
            start == old(reader)@,
            reader.source() == old(reader).source(),
            reader.consumed() >= old(reader).consumed(),
            read_couplings(start, n as nat, channels) == (match read_couplings(
                reader@,
                (n - i) as nat,
                channels,
            ) {
                Ok((ms, az, end)) => Ok::<(Seq<i32>, Seq<i32>, Seq<bool>), Error>(
                    (mags@ + ms, angs@ + az, end),
                ),
                Err(e) => Err(e),
            }),
        decreases n - i,
    {
        let ghost had_m = mags@;
        let ghost had_a = angs@;
        let ghost cur = reader@;
        let mag = match reader.read(w) {
            Ok(v) => v,
            Err(e) => {
                assert(read_couplings(cur, (n - i) as nat, channels) == Err::<
                    (Seq<i32>, Seq<i32>, Seq<bool>),
                    Error,
                >(e));
                return Err(e);
            },
        };
        let ang = match reader.read(w) {
            Ok(v) => v,
            Err(e) => {
                assert(read_couplings(cur, (n - i) as nat, channels) == Err::<
                    (Seq<i32>, Seq<i32>, Seq<bool>),
                    Error,
                >(e));
                return Err(e);
            },
        };
        if mag == ang || mag >= channels || ang >= channels {
            assert(read_couplings(cur, (n - i) as nat, channels) == Err::<
                (Seq<i32>, Seq<i32>, Seq<bool>),
                Error,
            >(Error::InvalidData));
            return Err(Error::InvalidData);
        }
        mags.push(mag);
        angs.push(ang);
        i += 1;
        proof {
            assert(read_couplings(cur, (n - i + 1) as nat, channels) == (match read_couplings(
                reader@,
                (n - i) as nat,
                channels,
            ) {
                Err(e) => Err::<(Seq<i32>, Seq<i32>, Seq<bool>), Error>(e),
                Ok((ms, az, end)) => Ok((seq![mag] + ms, seq![ang] + az, end)),
            }));
            match read_couplings(reader@, (n - i) as nat, channels) {
                Ok((ms, az, end)) => {
                    assert(had_m + (seq![mag] + ms) =~= mags@ + ms);
                    assert(had_a + (seq![ang] + az) =~= angs@ + az);
                },
                Err(e) => {},
            }
        }
    }
    proof {
        assert(mags@ + Seq::<i32>::empty() =~= mags@);
        assert(angs@ + Seq::<i32>::empty() =~= angs@);
    }
    Ok((mags, angs))
}

fn take_chmux(reader: &mut BitReader, n: usize, submaps: i32) -> (r: Result<IntBuffer, Error>)
    requires
        n <= 256,
    ensures
        final(reader).source() == old(reader).source(),
        final(reader).consumed() >= old(reader).consumed(),
        match read_chmux(old(reader)@, n as nat, submaps) {
            Ok((list, rest)) => r matches Ok(b) && b@ == list && final(reader)@ == rest,
            Err(e) => r matches Err(x) && x == e,
        },
{
    let ghost start = reader@;
    let mut list = IntBuffer::new();
    let mut i: usize = 0;
    while i < n
        invariant
            i <= n <= 256,
            list@.len() == i,
            start == old(reader)@,
            reader.source() == old(reader).source(),
            reader.consumed() >= old(reader).consumed(),
            read_chmux(start, n as nat, submaps) == (match read_chmux(reader@, (n - i) as nat, submaps) {
                Ok((tail, end)) => Ok::<(Seq<i32>, Seq<bool>), Error>((list@ + tail, end)),
                Err(e) => Err(e),
            }),
        decreases n - i,
    {
        let ghost had = list@;
        let ghost cur = reader@;
        let v = match read_field(reader, 4) {
            Ok(v) => v,
            Err(e) => {
                assert(read_chmux(cur, (n - i) as nat, submaps) == Err::<(Seq<i32>, Seq<bool>), Error>(e));
                return Err(e);
            },
        };
        if v >= submaps {
            assert(read_chmux(cur, (n - i) as nat, submaps) == Err::<(Seq<i32>, Seq<bool>), Error>(
                Error::InvalidData,
            ));
            return Err(Error::InvalidData);
        }
        list.push(v);
        i += 1;
        proof {
            assert(read_chmux(cur, (n - i + 1) as nat, submaps) == (match read_chmux(
                reader@,
                (n - i) as nat,
                submaps,
            ) {
                Err(e) => Err::<(Seq<i32>, Seq<bool>), Error>(e),
                Ok((tail, end)) => Ok((seq![v] + tail, end)),
            }));
            match read_chmux(reader@, (n - i) as nat, submaps) {
                Ok((tail, end)) => {
                    assert(had + (seq![v] + tail) =~= list@ + tail);
                },
                Err(e) => {},
            }
        }
    }
    proof {
        assert(list@ + Seq::<i32>::empty() =~= list@);
    }
    Ok(list)
}

fn take_submaps(reader: &mut BitReader, n: usize, floors: usize, residues: usize) -> (r: Result<
    (IntBuffer, IntBuffer),
    Error,
>)
    requires
        n <= 16,
    ensures
        final(reader).source() == old(reader).source(),
        final(reader).consumed() >= old(reader).consumed(),
        match read_submaps(old(reader)@, n as nat, floors as int, residues as int) {
            Ok((fs, rs, rest)) => r matches Ok(t) && t.0@ == fs && t.1@ == rs && final(reader)@ == rest,
            Err(e) => r matches Err(x) && x == e,
        },
{
    let ghost start = reader@;
    let mut fs = IntBuffer::new();
    let mut rs = IntBuffer::new();
    let mut i: usize = 0;
    while i < n
        invariant
            i <= n <= 16,
            fs@.len() == i,
            rs@.len() == i,
            start == old(reader)@,
            reader.source() == old(reader).source(),
            reader.consumed() >= old(reader).consumed(),
            read_submaps(start, n as nat, floors as int, residues as int) == (match read_submaps(
                reader@,
                (n - i) as nat,
                floors as int,
                residues as int,
            ) {
                Ok((f, r, end)) => Ok::<(Seq<i32>, Seq<i32>, Seq<bool>), Error>((fs@ + f, rs@ + r, end)),
                Err(e) => Err(e),
            }),
        decreases n - i,
    {
        let ghost had_f = fs@;
        let ghost had_r = rs@;
        let ghost cur = reader@;
        let ghost left = (n - i) as nat;
        let _unused = match read_field(reader, 8) {
            Ok(v) => v,
            Err(e) => {
                assert(read_submaps(cur, left, floors as int, residues as int) == Err::<
                    (Seq<i32>, Seq<i32>, Seq<bool>),
                    Error,
                >(e));
                return Err(e);
            },
        };
        let floor = match read_field(reader, 8) {
            Ok(v) => v,
            Err(e) => {
                assert(read_submaps(cur, left, floors as int, residues as int) == Err::<
                    (Seq<i32>, Seq<i32>, Seq<bool>),
                    Error,
                >(e));
                return Err(e);
            },
        };
        if floor as usize >= floors {
            assert(read_submaps(cur, left, floors as int, residues as int) == Err::<
                (Seq<i32>, Seq<i32>, Seq<bool>),
                Error,
            >(Error::InvalidData));
            return Err(Error::InvalidData);
        }
        let residue = match read_field(reader, 8) {
            Ok(v) => v,
            Err(e) => {
                assert(read_submaps(cur, left, floors as int, residues as int) == Err::<
                    (Seq<i32>, Seq<i32>, Seq<bool>),
                    Error,
                >(e));
                return Err(e);
            },
        };
        if residue as usize >= residues {
            assert(read_submaps(cur, left, floors as int, residues as int) == Err::<
                (Seq<i32>, Seq<i32>, Seq<bool>),
                Error,
            >(Error::InvalidData));
            return Err(Error::InvalidData);
        }
        fs.push(floor);
        rs.push(residue);
        i += 1;
        proof {
            assert(read_submaps(cur, left, floors as int, residues as int) == (match read_submaps(
                reader@,
                (n - i) as nat,
                floors as int,
                residues as int,
            ) {
                Err(e) => Err::<(Seq<i32>, Seq<i32>, Seq<bool>), Error>(e),
                Ok((f, r, end)) => Ok((seq![floor] + f, seq![residue] + r, end)),
            }));
            match read_submaps(reader@, (n - i) as nat, floors as int, residues as int) {
                Ok((f, r, end)) => {
                    assert(had_f + (seq![floor] + f) =~= fs@ + f);
                    assert(had_r + (seq![residue] + r) =~= rs@ + r);
                },
                Err(e) => {},
            }
        }
    }
    proof {
        assert(fs@ + Seq::<i32>::empty() =~= fs@);
        assert(rs@ + Seq::<i32>::empty() =~= rs@);
    }
    Ok((fs, rs))
}

impl VorbisMapping {
    /// Reads a mapping of a stream of `channels` channels, for a setup
    /// header that holds `floors` floors and `residues` residues.
    pub fn load_for(bitreader: &mut BitReader, channels: i32, floors: usize, residues: usize) -> (r: Result<
        Self,
        Error,
    >)
        ensures
            final(bitreader).source() == old(bitreader).source(),
            final(bitreader).consumed() >= old(bitreader).consumed(),
            match load_mapping(old(bitreader)@, channels, floors as int, residues as int) {
                Ok((m, rest)) => r matches Ok(v) && v@ == m && final(bitreader)@ == rest,
                Err(e) => r matches Err(x) && x == e,
            },
    {
        let mapping_type = read_field(bitreader, 16)?;
        if mapping_type != 0 {
            return Err(Error::InvalidData);
        }
        let submaps = take_optional(bitreader, 4, 1)?;
        let coupling_steps = take_optional(bitreader, 8, 0)?;
        let (coupling_mag, coupling_ang) = take_couplings(bitreader, coupling_steps as usize, channels)?;
        let reserved = read_field(bitreader, 2)?;
        if reserved != 0 {
            return Err(Error::InvalidData);
        }
        if submaps > 1 && (channels < 0 || channels > 256) {
            return Err(Error::InvalidData);
        }
        let muxed: usize = if submaps > 1 {
            channels as usize
        } else {
            0
        };
        let chmuxlist = take_chmux(bitreader, muxed, submaps)?;
        let (floorsubmap, residuesubmap) = take_submaps(bitreader, submaps as usize, floors, residues)?;
        Ok(
            VorbisMapping {
                mapping_type: 0,
                submaps,
                chmuxlist,
                floorsubmap,
                residuesubmap,
                coupling_steps,
                coupling_mag,
                coupling_ang,
            },
        )
    }
}

/// The pairs of coupled channels from pair `i` on to pair `n` as they
/// stand on the wire, each channel number in `w` bits.
pub open spec fn packed_couplings(mags: Seq<i32>, angs: Seq<i32>, i: int, n: int, w: int) -> Seq<bool>
    decreases n - i,
{
    if 0 <= i < n {
        value_bits(mags[i] as u32, w as nat) + value_bits(angs[i] as u32, w as nat) + packed_couplings(
            mags,
            angs,
            i + 1,
            n,
            w,
        )
    } else {
        Seq::empty()
    }
}

/// The numbers `i` to `n` of a list as they stand on the wire, each in
/// `w` bits.
pub open spec fn packed_numbers(list: Seq<i32>, i: int, n: int, w: int) -> Seq<bool>
    decreases n - i,
{
    if 0 <= i < n {
        value_bits(list[i] as u32, w as nat) + packed_numbers(list, i + 1, n, w)
    } else {
        Seq::empty()
    }
}

/// The floor and the residue of the submaps `i` to `n` as they stand on
/// the wire, each pair behind 8 zero bits.
pub open spec fn packed_submaps(fs: Seq<i32>, rs: Seq<i32>, i: int, n: int) -> Seq<bool>
    decreases n - i,
{
    if 0 <= i < n {
        value_bits(0, 8) + value_bits(fs[i] as u32, 8) + value_bits(rs[i] as u32, 8) + packed_submaps(
            fs,
            rs,
            i + 1,
            n,
        )
    } else {
        Seq::empty()
    }
}

/// Why a mapping cannot be packed, if it cannot: a list is shorter than
/// the number that it goes with, or the channel numbers of the pairs have
/// a width that no field has.
pub open spec fn mapping_refusal(m: MappingView, channels: i32) -> Option<Error> {
    if m.coupling_steps > 0 && (m.coupling_mag.len() < m.coupling_steps || m.coupling_ang.len()
        < m.coupling_steps) {
        Some(Error::InvalidData)
    } else if m.coupling_steps > 0 && channel_bits(channels) > 32 {
        Some(Error::InvalidInput)
    } else if m.submaps > 1 && (channels < 0 || m.chmuxlist.len() < channels) {
        Some(Error::InvalidData)
    } else if m.submaps > 0 && (m.floorsubmap.len() < m.submaps || m.residuesubmap.len() < m.submaps) {
        Some(Error::InvalidData)
    } else {
        None
    }
}

/// The first part of a packed mapping: its type, the number of its
/// submaps and its pairs of coupled channels.
pub open spec fn packed_mapping_head(m: MappingView, channels: i32) -> Seq<bool> {
    value_bits(m.mapping_type as u32, 16) + (if m.submaps > 1 {
        value_bits(1, 1) + value_bits((m.submaps - 1) as u32, 4)
    } else {
        value_bits(0, 1)
    }) + (if m.coupling_steps > 0 {
        value_bits(1, 1) + value_bits((m.coupling_steps - 1) as u32, 8) + packed_couplings(
            m.coupling_mag,
            m.coupling_ang,
            0,
            m.coupling_steps as int,
            channel_bits(channels),
        )
    } else {
        value_bits(0, 1)
    })
}

/// The second part of a packed mapping: two bits that are not used, the
/// submap of each channel where there is more than one submap, and the
/// floor and the residue of each submap.
pub open spec fn packed_mapping_tail(m: MappingView, channels: i32) -> Seq<bool> {
    value_bits(0, 2) + (if m.submaps > 1 {
        packed_numbers(m.chmuxlist, 0, channels as int, 4)
    } else {
        Seq::empty()
    }) + packed_submaps(m.floorsubmap, m.residuesubmap, 0, m.submaps as int)
}

/// The mapping as it stands on the wire.
pub open spec fn packed_mapping(m: MappingView, channels: i32) -> Seq<bool> {
    packed_mapping_head(m, channels) + packed_mapping_tail(m, channels)
}

/// What packing a mapping gives.
pub open spec fn pack_mapping(m: MappingView, channels: i32) -> Result<Seq<bool>, Error> {
    match mapping_refusal(m, channels) {
        Some(e) => Err(e),
        None => Ok(packed_mapping(m, channels)),
    }
}

/// Writes the numbers `0` to `n` of a buffer, each in `w` bits.
pub(crate) fn put_numbers(writer: &mut BitWriter, list: &IntBuffer, n: usize, w: i32)
    requires
        0 <= w <= 32,
        n <= list@.len(),
        old(writer).has_room(packed_numbers(list@, 0, n as int, w as int).len()),
    ensures
        final(writer)@ == old(writer)@ + packed_numbers(list@, 0, n as int, w as int),
        final(writer).written() == old(writer).written() + packed_numbers(
            list@,
            0,
            n as int,
            w as int,
        ).len(),
{
    let ghost target = writer@ + packed_numbers(list@, 0, n as int, w as int);
    let ghost goal = writer.written() + packed_numbers(list@, 0, n as int, w as int).len();
    let mut i: usize = 0;
    while i < n
        invariant
            i <= n <= list@.len(),
            0 <= w <= 32,
            writer@ + packed_numbers(list@, i as int, n as int, w as int) == target,
            writer.written() + packed_numbers(list@, i as int, n as int, w as int).len() == goal,
            target.len() + 7 <= usize::MAX,
        decreases n - i,
    {
        let ghost before = writer@;
        let v = list.at(i);
        put(writer, #[verifier::truncate] (v as u32), w);
        proof {
            assert(before + (value_bits(v as u32, w as nat) + packed_numbers(
                list@,
                i + 1,
                n as int,
                w as int,
            )) =~= writer@ + packed_numbers(list@, i + 1, n as int, w as int));
        }
        i += 1;
    }
    proof {
        assert(writer@ + Seq::<bool>::empty() =~= writer@);
    }
}

fn put_couplings(writer: &mut BitWriter, mags: &IntBuffer, angs: &IntBuffer, n: usize, w: i32)
    requires
        0 <= w <= 32,
        n <= mags@.len(),
        n <= angs@.len(),
        old(writer).has_room(packed_couplings(mags@, angs@, 0, n as int, w as int).len()),
    ensures
        final(writer)@ == old(writer)@ + packed_couplings(mags@, angs@, 0, n as int, w as int),
        final(writer).written() == old(writer).written() + packed_couplings(
            mags@,
            angs@,
            0,
            n as int,
            w as int,
        ).len(),
{
    let ghost target = writer@ + packed_couplings(mags@, angs@, 0, n as int, w as int);
    let ghost goal = writer.written() + packed_couplings(mags@, angs@, 0, n as int, w as int).len();
    let mut i: usize = 0;
    while i < n
        invariant
            i <= n,
            n <= mags@.len(),
            n <= angs@.len(),
            0 <= w <= 32,
            writer@ + packed_couplings(mags@, angs@, i as int, n as int, w as int) == target,
            writer.written() + packed_couplings(mags@, angs@, i as int, n as int, w as int).len()
                == goal,
            target.len() + 7 <= usize::MAX,
        decreases n - i,
    {
        let ghost before = writer@;
        let m = mags.at(i);
        let a = angs.at(i);
        put(writer, #[verifier::truncate] (m as u32), w);
        put(writer, #[verifier::truncate] (a as u32), w);
        proof {
            assert(before + (value_bits(m as u32, w as nat) + value_bits(a as u32, w as nat)
                + packed_couplings(mags@, angs@, i + 1, n as int, w as int)) =~= writer@
                + packed_couplings(mags@, angs@, i + 1, n as int, w as int));
        }
        i += 1;
    }
    proof {
        assert(writer@ + Seq::<bool>::empty() =~= writer@);
    }
}

fn put_submaps(writer: &mut BitWriter, fs: &IntBuffer, rs: &IntBuffer, n: usize)
    requires
        n <= fs@.len(),
        n <= rs@.len(),
        old(writer).has_room(packed_submaps(fs@, rs@, 0, n as int).len()),
    ensures
        final(writer)@ == old(writer)@ + packed_submaps(fs@, rs@, 0, n as int),
        final(writer).written() == old(writer).written() + packed_submaps(fs@, rs@, 0, n as int).len(),
{
    let ghost target = writer@ + packed_submaps(fs@, rs@, 0, n as int);
    let ghost goal = writer.written() + packed_submaps(fs@, rs@, 0, n as int).len();
    let mut i: usize = 0;
    while i < n
        invariant
            i <= n,
            n <= fs@.len(),
            n <= rs@.len(),
            writer@ + packed_submaps(fs@, rs@, i as int, n as int) == target,
            writer.written() + packed_submaps(fs@, rs@, i as int, n as int).len() == goal,
            target.len() + 7 <= usize::MAX,
        decreases n - i,
    {
        let ghost before = writer@;
        let f = fs.at(i);
        let r = rs.at(i);
        put(writer, 0, 8);
        put(writer, #[verifier::truncate] (f as u32), 8);
        put(writer, #[verifier::truncate] (r as u32), 8);
        proof {
            assert(before + (value_bits(0, 8) + value_bits(f as u32, 8) + value_bits(r as u32, 8)
                + packed_submaps(fs@, rs@, i + 1, n as int)) =~= writer@ + packed_submaps(
                fs@,
                rs@,
                i + 1,
                n as int,
            ));
        }
        i += 1;
    }
    proof {
        assert(writer@ + Seq::<bool>::empty() =~= writer@);
    }
}

impl VorbisMapping {
    /// Why the mapping cannot be packed, if it cannot.
    pub(crate) fn refusal(&self, channels: i32) -> (r: Option<Error>)
        ensures
            r == mapping_refusal(self@, channels),
    {
        if self.coupling_steps > 0 && (self.coupling_mag.len() < self.coupling_steps as usize
            || self.coupling_ang.len() < self.coupling_steps as usize) {
            return Some(Error::InvalidData);
        }
        if self.coupling_steps > 0 && bits_of_channels(channels) > 32 {
            return Some(Error::InvalidInput);
        }
        if self.submaps > 1 && (channels < 0 || self.chmuxlist.len() < channels as usize) {
            return Some(Error::InvalidData);
        }
        if self.submaps > 0 && (self.floorsubmap.len() < self.submaps as usize
            || self.residuesubmap.len() < self.submaps as usize) {
            return Some(Error::InvalidData);
        }
        None
    }

    /// Appends the mapping to the stream, for a stream of `channels`
    /// channels, and returns the number of bits that it takes. A mapping
    /// that cannot be packed is refused before anything is written.
    pub fn pack(&self, bitwriter: &mut BitWriter, channels: i32) -> (r: Result<usize, Error>)
        requires
            pack_mapping(self@, channels).is_ok() ==> old(bitwriter).has_room(
                packed_mapping(self@, channels).len(),
            ),
        ensures
            match pack_mapping(self@, channels) {
                Ok(bits) => {
                    &&& r == Ok::<usize, Error>(bits.len() as usize)
                    &&& final(bitwriter)@ == old(bitwriter)@ + bits
                    &&& final(bitwriter).written() == old(bitwriter).written() + bits.len()
                },
                Err(e) => {
                    &&& r == Err::<usize, Error>(e)
                    &&& final(bitwriter)@ == old(bitwriter)@
                    &&& final(bitwriter).written() == old(bitwriter).written()
                },
            },
    {
        match self.refusal(channels) {
            Some(e) => {
                return Err(e);
            },
            None => {},
        }
        let ghost before = bitwriter@;
        let begin_bits = bitwriter.total_bits();
        self.put_head(bitwriter, channels);
        self.put_tail(bitwriter, channels);
        assert(bitwriter@ =~= before + packed_mapping(self@, channels));
        Ok(bitwriter.total_bits() - begin_bits)
    }

    /// Appends the first part of the packed mapping.
    fn put_head(&self, writer: &mut BitWriter, channels: i32)
        requires
            mapping_refusal(self@, channels).is_none(),
            old(writer).has_room(packed_mapping_head(self@, channels).len()),
        ensures
            final(writer)@ == old(writer)@ + packed_mapping_head(self@, channels),
            final(writer).written() == old(writer).written() + packed_mapping_head(self@, channels).len(),
    {
        let ghost before = writer@;
        put(writer, #[verifier::truncate] (self.mapping_type as u32), 16);
        if self.submaps > 1 {
            put(writer, 1, 1);
            put(writer, #[verifier::truncate] ((self.submaps - 1) as u32), 4);
        } else {
            put(writer, 0, 1);
        }
        if self.coupling_steps > 0 {
            put(writer, 1, 1);
            put(writer, #[verifier::truncate] ((self.coupling_steps - 1) as u32), 8);
            put_couplings(
                writer,
                &self.coupling_mag,
                &self.coupling_ang,
                self.coupling_steps as usize,
                bits_of_channels(channels),
            );
        } else {
            put(writer, 0, 1);
        }
        assert(writer@ =~= before + packed_mapping_head(self@, channels));
    }

    /// Appends the second part of the packed mapping.
    fn put_tail(&self, writer: &mut BitWriter, channels: i32)
        requires
            mapping_refusal(self@, channels).is_none(),
            old(writer).has_room(packed_mapping_tail(self@, channels).len()),
        ensures
            final(writer)@ == old(writer)@ + packed_mapping_tail(self@, channels),
            final(writer).written() == old(writer).written() + packed_mapping_tail(self@, channels).len(),
    {
        let ghost before = writer@;
        put(writer, 0, 2);
        if self.submaps > 1 {
            put_numbers(writer, &self.chmuxlist, channels as usize, 4);
        }
        let count: usize = if self.submaps > 0 {
            self.submaps as usize
        } else {
            0
        };
        proof {
            if self.submaps <= 0 {
                assert(packed_submaps(self.floorsubmap@, self.residuesubmap@, 0, self.submaps as int)
                    =~= packed_submaps(self.floorsubmap@, self.residuesubmap@, 0, 0));
            }
        }
        put_submaps(writer, &self.floorsubmap, &self.residuesubmap, count);
        assert(writer@ =~= before + packed_mapping_tail(self@, channels));
    }
}

impl Default for VorbisMapping {
    /// The mapping without submaps and without coupled channels.
    fn default() -> (r: Self)
        ensures
            r@ == (MappingView {
                mapping_type: 0,
                submaps: 0,
                chmuxlist: Seq::empty(),
                floorsubmap: Seq::empty(),
                residuesubmap: Seq::empty(),
                coupling_steps: 0,
                coupling_mag: Seq::empty(),
                coupling_ang: Seq::empty(),
            }),
    {
        VorbisMapping {
            mapping_type: 0,
            submaps: 0,
            chmuxlist: IntBuffer::new(),
            floorsubmap: IntBuffer::new(),
            residuesubmap: IntBuffer::new(),
            coupling_steps: 0,
            coupling_mag: IntBuffer::new(),
            coupling_ang: IntBuffer::new(),
        }
    }
}

} // verus!
