//! The setup header of a Vorbis stream: the codebooks, the floors, the
//! residues, the mappings and the modes.

use crate::bits::value_bits;
use crate::books::{
    books_view, count_field, first_refusal, load_section, packed_books, packed_section,
    StaticCodeBooks,
};
use crate::codebook::{packed_book, put, read_field, BookSpec, StaticCodeBook};
use crate::error::Error;
use crate::book::{decode_keys, encode_words, is_decoding_book, is_encoding_book, CodeBook};
use crate::floor::{load_floor0, load_floor1, FloorView, VorbisFloor, VorbisFloor0, VorbisFloor1};
use crate::headers::{
    header_magic, is_magic, load_mode, packed_bytes, packed_mode, put_magic, read_bytes, take_bytes,
    VorbisIdentificationHeader, VorbisMode,
};
use crate::mapping::{load_mapping, mapping_refusal, packed_mapping, MappingView, VorbisMapping};
use crate::reader::{spec_read, BitReader};
use crate::residue::{load_residue, packed_residue, residue_refusal, ResidueView, VorbisResidue};
use crate::writer::BitWriter;
use vstd::prelude::*;

verus! {

/// The third header of a Vorbis stream.
#[derive(Debug, Clone, PartialEq, Eq)]
pub struct VorbisSetupHeader {
    pub static_codebooks: Vec<StaticCodeBook>,
    pub floors: Vec<VorbisFloor>,
    pub residues: Vec<VorbisResidue>,
    pub maps: Vec<VorbisMapping>,
    pub modes: Vec<VorbisMode>,
}

/// The mathematical content of a setup header.
pub struct SetupView {
    pub static_codebooks: Seq<BookSpec>,
    pub floors: Seq<FloorView>,
    pub residues: Seq<ResidueView>,
    pub maps: Seq<MappingView>,
    pub modes: Seq<VorbisMode>,
}

/// The contents of the floors of a list.
pub open spec fn floors_view(v: Seq<VorbisFloor>) -> Seq<FloorView> {
    Seq::new(v.len(), |i: int| v[i]@)
}

/// The contents of the residues of a list.
pub open spec fn residues_view(v: Seq<VorbisResidue>) -> Seq<ResidueView> {
    Seq::new(v.len(), |i: int| v[i]@)
}

/// The contents of the mappings of a list.
pub open spec fn maps_view(v: Seq<VorbisMapping>) -> Seq<MappingView> {
    Seq::new(v.len(), |i: int| v[i]@)
}

impl View for VorbisSetupHeader {
    type V = SetupView;

    open spec fn view(&self) -> SetupView {
        SetupView {
            static_codebooks: books_view(self.static_codebooks@),
            floors: floors_view(self.floors@),
            residues: residues_view(self.residues@),
            maps: maps_view(self.maps@),
            modes: self.modes@,
        }
    }
}

/// Reads `n` time types of 16 bits, which must be 0.
pub open spec fn read_times(s: Seq<bool>, n: nat) -> Result<Seq<bool>, Error>
    decreases n,
{
    if n == 0 {
        Ok(s)
    } else {
        match spec_read(s, 16) {
            Err(e) => Err(e),
            Ok((t, rest)) => if t != 0 {
                Err(Error::InvalidData)
            } else {
                read_times(rest, (n - 1) as nat)
            },
        }
    }
}

/// Reads `n` floors.
pub open spec fn read_floors(s: Seq<bool>, n: nat, books: Seq<BookSpec>) -> Result<
    (Seq<FloorView>, Seq<bool>),
    Error,
>
    decreases n,
{
    if n == 0 {
        Ok((Seq::empty(), s))
    } else {
        match VorbisFloor::spec_load(s, books) {
            Err(e) => Err(e),
            Ok((f, rest)) => match read_floors(rest, (n - 1) as nat, books) {
                Err(e) => Err(e),
                Ok((tail, end)) => Ok((seq![f] + tail, end)),
            },
        }
    }
}

/// Reads `n` residues.
pub open spec fn read_residues(s: Seq<bool>, n: nat, books: Seq<BookSpec>) -> Result<
    (Seq<ResidueView>, Seq<bool>),
    Error,
>
    decreases n,
{
    if n == 0 {
        Ok((Seq::empty(), s))
    } else {
        match load_residue(s, books) {
            Err(e) => Err(e),
            Ok((r, rest)) => match read_residues(rest, (n - 1) as nat, books) {
                Err(e) => Err(e),
                Ok((tail, end)) => Ok((seq![r] + tail, end)),
            },
        }
    }
}

/// Reads `n` mappings.
pub open spec fn read_mappings(s: Seq<bool>, n: nat, channels: i32, floors: int, residues: int) -> Result<
    (Seq<MappingView>, Seq<bool>),
    Error,
>
    decreases n,
{
    if n == 0 {
        Ok((Seq::empty(), s))
    } else {
        match load_mapping(s, channels, floors, residues) {
            Err(e) => Err(e),
            Ok((m, rest)) => match read_mappings(rest, (n - 1) as nat, channels, floors, residues) {
                Err(e) => Err(e),
                Ok((tail, end)) => Ok((seq![m] + tail, end)),
            },
        }
    }
}

/// Reads `n` modes.
pub open spec fn read_modes(s: Seq<bool>, n: nat, maps: int) -> Result<(Seq<VorbisMode>, Seq<bool>), Error>
    decreases n,
{
    if n == 0 {
        Ok((Seq::empty(), s))
    } else {
        match load_mode(s, maps) {
            Err(e) => Err(e),
            Ok((m, rest)) => match read_modes(rest, (n - 1) as nat, maps) {
                Err(e) => Err(e),
                Ok((tail, end)) => Ok((seq![m] + tail, end)),
            },
        }
    }
}

/// Reads a count that is stored less one in 6 bits.
pub open spec fn read_count(s: Seq<bool>) -> Result<(nat, Seq<bool>), Error> {
    match spec_read(s, 6) {
        Err(e) => Err(e),
        Ok((v, rest)) => Ok(((v + 1) as nat, rest)),
    }
}

/// What loading a setup header of a stream of `channels` channels gives.
pub open spec fn load_setup(s: Seq<bool>, channels: i32) -> Result<(SetupView, Seq<bool>), Error> {
    match read_bytes(s, 7) {
        Err(e) => Err(e),
        Ok((magic, s1)) => if magic != header_magic(5) {
            Err(Error::InvalidData)
        } else {
            match load_section(s1) {
                Err(e) => Err(e),
                Ok((books, sizes, s2)) => match read_count(s2) {
                    Err(e) => Err(e),
                    Ok((times, s3)) => match read_times(s3, times) {
                        Err(e) => Err(e),
                        Ok(s4) => load_setup_sections(s4, channels, books),
                    },
                },
            }
        },
    }
}

/// The second half of loading a setup header: the floors, the residues,
/// the mappings, the modes and the end mark.
pub open spec fn load_setup_sections(s: Seq<bool>, channels: i32, books: Seq<BookSpec>) -> Result<
    (SetupView, Seq<bool>),
    Error,
> {
    match read_count(s) {
        Err(e) => Err(e),
        Ok((nf, s1)) => match read_floors(s1, nf, books) {
            Err(e) => Err(e),
            Ok((floors, s2)) => match read_count(s2) {
                Err(e) => Err(e),
                Ok((nr, s3)) => match read_residues(s3, nr, books) {
                    Err(e) => Err(e),
                    Ok((residues, s4)) => match read_count(s4) {
                        Err(e) => Err(e),
                        Ok((nm, s5)) => match read_mappings(
                            s5,
                            nm,
                            channels,
                            floors.len() as int,
                            residues.len() as int,
                        ) {
                            Err(e) => Err(e),
                            Ok((maps, s6)) => match read_count(s6) {
                                Err(e) => Err(e),
                                Ok((nmodes, s7)) => match read_modes(s7, nmodes, maps.len() as int) {
                                    Err(e) => Err(e),
                                    Ok((modes, s8)) => match spec_read(s8, 1) {
                                        Err(e) => Err(e),
                                        Ok((end_mark, rest)) => if end_mark != 1 {
                                            Err(Error::InvalidData)
                                        } else {
                                            Ok(
                                                (
                                                    SetupView {
                                                        static_codebooks: books,
                                                        floors,
                                                        residues,
                                                        maps,
                                                        modes,
                                                    },
                                                    rest,
                                                ),
                                            )
                                        },
                                    },
                                },
                            },
                        },
                    },
                },
            },
        },
    }
}

fn take_count(reader: &mut BitReader) -> (r: Result<usize, Error>)
    ensures
        final(reader).source() == old(reader).source(),
        final(reader).consumed() >= old(reader).consumed(),
        match read_count(old(reader)@) {
            Ok((n, rest)) => r == Ok::<usize, Error>(n as usize) && final(reader)@ == rest && 1 <= n
                <= 64,
            Err(e) => r matches Err(x) && x == e,
        },
{
    let v = read_field(reader, 6)?;
    Ok((v + 1) as usize)
}

fn take_times(reader: &mut BitReader, n: usize) -> (r: Result<(), Error>)
    ensures
        final(reader).source() == old(reader).source(),
        final(reader).consumed() >= old(reader).consumed(),
        match read_times(old(reader)@, n as nat) {
            Ok(rest) => r.is_ok() && final(reader)@ == rest,
            Err(e) => r matches Err(x) && x == e,
        },
{
    let ghost start = reader@;
    let mut i: usize = 0;
    while i < n
        invariant
            i <= n,
            start == old(reader)@,
            reader.source() == old(reader).source(),
            reader.consumed() >= old(reader).consumed(),
            read_times(start, n as nat) == read_times(reader@, (n - i) as nat),
        decreases n - i,
    {
        let t = read_field(reader, 16)?;
        if t != 0 {
            return Err(Error::InvalidData);
        }
        i += 1;
    }
    Ok(())
}

fn take_floors(reader: &mut BitReader, n: usize, books: &Vec<StaticCodeBook>) -> (r: Result<
    Vec<VorbisFloor>,
    Error,
>)
    ensures
        final(reader).source() == old(reader).source(),
        final(reader).consumed() >= old(reader).consumed(),
        match read_floors(old(reader)@, n as nat, books_view(books@)) {
            Ok((list, rest)) => r matches Ok(v) && floors_view(v@) == list && final(reader)@ == rest
                && list.len() == n,
            Err(e) => r matches Err(x) && x == e,
        },
{
    let ghost start = reader@;
    let ghost all = books_view(books@);
    let mut list: Vec<VorbisFloor> = Vec::new();
    let mut i: usize = 0;
    while i < n
        invariant
            i <= n,
            list@.len() == i,
            all == books_view(books@),
            start == old(reader)@,
            reader.source() == old(reader).source(),
            reader.consumed() >= old(reader).consumed(),
            read_floors(start, n as nat, all) == (match read_floors(reader@, (n - i) as nat, all) {
                Ok((tail, end)) => Ok::<(Seq<FloorView>, Seq<bool>), Error>(
                    (floors_view(list@) + tail, end),
                ),
                Err(e) => Err(e),
            }),
        decreases n - i,
    {
        let ghost had = floors_view(list@);
        let ghost cur = reader@;
        let ghost left = (n - i) as nat;
        let f = match VorbisFloor::load_for(reader, books) {
            Ok(f) => f,
            Err(e) => {
                assert(read_floors(cur, left, all) == Err::<(Seq<FloorView>, Seq<bool>), Error>(e));
                return Err(e);
            },
        };
        let ghost fv = f@;
        list.push(f);
        i += 1;
        proof {
            assert(read_floors(cur, left, all) == (match read_floors(reader@, (n - i) as nat, all) {
                Err(e) => Err::<(Seq<FloorView>, Seq<bool>), Error>(e),
                Ok((tail, end)) => Ok((seq![fv] + tail, end)),
            }));
            match read_floors(reader@, (n - i) as nat, all) {
                Ok((tail, end)) => {
                    assert(had + (seq![fv] + tail) =~= floors_view(list@) + tail);
                },
                Err(e) => {},
            }
        }
    }
    proof {
        assert(floors_view(list@) + Seq::<FloorView>::empty() =~= floors_view(list@));
    }
    Ok(list)
}

fn take_residues(reader: &mut BitReader, n: usize, books: &Vec<StaticCodeBook>) -> (r: Result<
    Vec<VorbisResidue>,
    Error,
>)
    ensures
        final(reader).source() == old(reader).source(),
        final(reader).consumed() >= old(reader).consumed(),
        match read_residues(old(reader)@, n as nat, books_view(books@)) {
            Ok((list, rest)) => r matches Ok(v) && residues_view(v@) == list && final(reader)@ == rest
                && list.len() == n,
            Err(e) => r matches Err(x) && x == e,
        },
{
    let ghost start = reader@;
    let ghost all = books_view(books@);
    let mut list: Vec<VorbisResidue> = Vec::new();
    let mut i: usize = 0;
    while i < n
        invariant
            i <= n,
            list@.len() == i,
            all == books_view(books@),
            start == old(reader)@,
            reader.source() == old(reader).source(),
            reader.consumed() >= old(reader).consumed(),
            read_residues(start, n as nat, all) == (match read_residues(reader@, (n - i) as nat, all) {
                Ok((tail, end)) => Ok::<(Seq<ResidueView>, Seq<bool>), Error>(
                    (residues_view(list@) + tail, end),
                ),
                Err(e) => Err(e),
            }),
        decreases n - i,
    {
        let ghost had = residues_view(list@);
        let ghost cur = reader@;
        let ghost left = (n - i) as nat;
        let x = match VorbisResidue::load_for(reader, books) {
            Ok(x) => x,
            Err(e) => {
                assert(read_residues(cur, left, all) == Err::<(Seq<ResidueView>, Seq<bool>), Error>(e));
                return Err(e);
            },
        };
        let ghost xv = x@;
        list.push(x);
        i += 1;
        proof {
            assert(read_residues(cur, left, all) == (match read_residues(reader@, (n - i) as nat, all) {
                Err(e) => Err::<(Seq<ResidueView>, Seq<bool>), Error>(e),
                Ok((tail, end)) => Ok((seq![xv] + tail, end)),
            }));
            match read_residues(reader@, (n - i) as nat, all) {
                Ok((tail, end)) => {
                    assert(had + (seq![xv] + tail) =~= residues_view(list@) + tail);
                },
                Err(e) => {},
            }
        }
    }
    proof {
        assert(residues_view(list@) + Seq::<ResidueView>::empty() =~= residues_view(list@));
    }
    Ok(list)
}

fn take_mappings(reader: &mut BitReader, n: usize, channels: i32, floors: usize, residues: usize) -> (r:
    Result<Vec<VorbisMapping>, Error>)
    ensures
        final(reader).source() == old(reader).source(),
        final(reader).consumed() >= old(reader).consumed(),
        match read_mappings(old(reader)@, n as nat, channels, floors as int, residues as int) {
            Ok((list, rest)) => r matches Ok(v) && maps_view(v@) == list && final(reader)@ == rest
                && list.len() == n,
            Err(e) => r matches Err(x) && x == e,
        },
{
    let ghost start = reader@;
    let mut list: Vec<VorbisMapping> = Vec::new();
    let mut i: usize = 0;
    while i < n
        invariant
            i <= n,
            list@.len() == i,
            start == old(reader)@,
            reader.source() == old(reader).source(),
            reader.consumed() >= old(reader).consumed(),
            read_mappings(start, n as nat, channels, floors as int, residues as int) == (
            match read_mappings(reader@, (n - i) as nat, channels, floors as int, residues as int) {
                Ok((tail, end)) => Ok::<(Seq<MappingView>, Seq<bool>), Error>(
                    (maps_view(list@) + tail, end),
                ),
                Err(e) => Err(e),
            }),
        decreases n - i,
    {
        let ghost had = maps_view(list@);
        let ghost cur = reader@;
        let ghost left = (n - i) as nat;
        let m = match VorbisMapping::load_for(reader, channels, floors, residues) {
            Ok(m) => m,
            Err(e) => {
                assert(read_mappings(cur, left, channels, floors as int, residues as int) == Err::<
                    (Seq<MappingView>, Seq<bool>),
                    Error,
                >(e));
                return Err(e);
            },
        };
        let ghost mv = m@;
        list.push(m);
        i += 1;
        proof {
            assert(read_mappings(cur, left, channels, floors as int, residues as int) == (
            match read_mappings(reader@, (n - i) as nat, channels, floors as int, residues as int) {
                Err(e) => Err::<(Seq<MappingView>, Seq<bool>), Error>(e),
                Ok((tail, end)) => Ok((seq![mv] + tail, end)),
            }));
            match read_mappings(reader@, (n - i) as nat, channels, floors as int, residues as int) {
                Ok((tail, end)) => {
                    assert(had + (seq![mv] + tail) =~= maps_view(list@) + tail);
                },
                Err(e) => {},
            }
        }
    }
    proof {
        assert(maps_view(list@) + Seq::<MappingView>::empty() =~= maps_view(list@));
    }
    Ok(list)
}

fn take_modes(reader: &mut BitReader, n: usize, maps: usize) -> (r: Result<Vec<VorbisMode>, Error>)
    ensures
        final(reader).source() == old(reader).source(),
        final(reader).consumed() >= old(reader).consumed(),
        match read_modes(old(reader)@, n as nat, maps as int) {
            Ok((list, rest)) => r matches Ok(v) && v@ == list && final(reader)@ == rest,
            Err(e) => r matches Err(x) && x == e,
        },
{
    let ghost start = reader@;
    let mut list: Vec<VorbisMode> = Vec::new();
    let mut i: usize = 0;
    while i < n
        invariant
            i <= n,
            list@.len() == i,
            start == old(reader)@,
            reader.source() == old(reader).source(),
            reader.consumed() >= old(reader).consumed(),
            read_modes(start, n as nat, maps as int) == (match read_modes(
                reader@,
                (n - i) as nat,
                maps as int,
            ) {
                Ok((tail, end)) => Ok::<(Seq<VorbisMode>, Seq<bool>), Error>((list@ + tail, end)),
                Err(e) => Err(e),
            }),
        decreases n - i,
    {
        let ghost had = list@;
        let ghost cur = reader@;
        let ghost left = (n - i) as nat;
        let m = match VorbisMode::load_for_maps(reader, maps) {
            Ok(m) => m,
            Err(e) => {
                assert(read_modes(cur, left, maps as int) == Err::<(Seq<VorbisMode>, Seq<bool>), Error>(
                    e,
                ));
                return Err(e);
            },
        };
        list.push(m);
        i += 1;
        proof {
            assert(read_modes(cur, left, maps as int) == (match read_modes(
                reader@,
                (n - i) as nat,
                maps as int,
            ) {
                Err(e) => Err::<(Seq<VorbisMode>, Seq<bool>), Error>(e),
                Ok((tail, end)) => Ok((seq![m] + tail, end)),
            }));
            match read_modes(reader@, (n - i) as nat, maps as int) {
                Ok((tail, end)) => {
                    assert(had + (seq![m] + tail) =~= list@ + tail);
                },
                Err(e) => {},
            }
        }
    }
    proof {
        assert(list@ + Seq::<VorbisMode>::empty() =~= list@);
    }
    Ok(list)
}

fn load_setup_fields(reader: &mut BitReader, channels: i32) -> (r: Result<VorbisSetupHeader, Error>)
    ensures
        final(reader).source() == old(reader).source(),
        final(reader).consumed() >= old(reader).consumed(),
        match load_setup(old(reader)@, channels) {
            Ok((v, rest)) => r matches Ok(h) && h@ == v && final(reader)@ == rest,
            Err(e) => r matches Err(x) && x == e,
        },
{
    let magic = take_bytes(reader, 7)?;
    if !is_magic(&magic, 5) {
        return Err(Error::InvalidData);
    }
    let section = StaticCodeBooks::load(reader)?;
    let static_codebooks = section.books;
    let times = take_count(reader)?;
    take_times(reader, times)?;
    let nf = take_count(reader)?;
    let floors = take_floors(reader, nf, &static_codebooks)?;
    let nr = take_count(reader)?;
    let residues = take_residues(reader, nr, &static_codebooks)?;
    let nm = take_count(reader)?;
    let maps = take_mappings(reader, nm, channels, floors.len(), residues.len())?;
    let nmodes = take_count(reader)?;
    let modes = take_modes(reader, nmodes, maps.len())?;
    let end_mark = read_field(reader, 1)?;
    if end_mark != 1 {
        return Err(Error::InvalidData);
    }
    Ok(VorbisSetupHeader { static_codebooks, floors, residues, maps, modes })
}

impl VorbisSetupHeader {
    /// Reads a setup header of the stream that `ident_header` describes.
    /// On failure the reader stays where it was.
    pub fn load(bitreader: &mut BitReader, ident_header: &VorbisIdentificationHeader) -> (r: Result<
        Self,
        Error,
    >)
        ensures
            final(bitreader).source() == old(bitreader).source(),
            match load_setup(old(bitreader)@, ident_header.channels) {
                Ok((v, rest)) => r matches Ok(h) && h@ == v && final(bitreader)@ == rest,
                Err(e) => r matches Err(x) && x == e && final(bitreader)@ == old(bitreader)@
                    && final(bitreader).consumed() == old(bitreader).consumed(),
            },
    {
        let saved: BitReader = *bitreader;
        match load_setup_fields(bitreader, ident_header.channels) {
            Ok(h) => Ok(h),
            Err(e) => {
                *bitreader = saved;
                Err(e)
            },
        }
    }
}

/// A count as it is stored: less one, in 6 bits.
pub open spec fn count6(n: int) -> u32 {
    if n <= 0 {
        63
    } else {
        ((n - 1) % 64) as u32
    }
}

/// The bits of a floor, and none where the floor cannot be packed.
pub open spec fn floor_bits(f: FloorView) -> Seq<bool> {
    match VorbisFloor::spec_pack(f) {
        Ok(bits) => bits,
        Err(e) => Seq::empty(),
    }
}

/// The floors from floor `i` on as they stand on the wire.
pub open spec fn packed_floors(floors: Seq<FloorView>, i: int) -> Seq<bool>
    decreases floors.len() - i,
{
    if 0 <= i < floors.len() {
        floor_bits(floors[i]) + packed_floors(floors, i + 1)
    } else {
        Seq::empty()
    }
}

/// The residues from residue `i` on as they stand on the wire.
pub open spec fn packed_residues(residues: Seq<ResidueView>, i: int) -> Seq<bool>
    decreases residues.len() - i,
{
    if 0 <= i < residues.len() {
        packed_residue(residues[i]) + packed_residues(residues, i + 1)
    } else {
        Seq::empty()
    }
}

/// The mappings from mapping `i` on as they stand on the wire.
pub open spec fn packed_maps(maps: Seq<MappingView>, i: int, channels: i32) -> Seq<bool>
    decreases maps.len() - i,
{
    if 0 <= i < maps.len() {
        packed_mapping(maps[i], channels) + packed_maps(maps, i + 1, channels)
    } else {
        Seq::empty()
    }
}

/// The modes from mode `i` on as they stand on the wire.
pub open spec fn packed_modes(modes: Seq<VorbisMode>, i: int) -> Seq<bool>
    decreases modes.len() - i,
{
    if 0 <= i < modes.len() {
        packed_mode(modes[i]) + packed_modes(modes, i + 1)
    } else {
        Seq::empty()
    }
}

/// The first of the floors from `i` on that cannot be packed, and why.
pub open spec fn floors_refusal(floors: Seq<FloorView>, i: int) -> Option<Error>
    decreases floors.len() - i,
{
    if 0 <= i < floors.len() {
        match VorbisFloor::spec_pack(floors[i]) {
            Err(e) => Some(e),
            Ok(bits) => floors_refusal(floors, i + 1),
        }
    } else {
        None
    }
}

/// The first of the residues from `i` on that cannot be packed, and why.
pub open spec fn residues_refusal(residues: Seq<ResidueView>, i: int) -> Option<Error>
    decreases residues.len() - i,
{
    if 0 <= i < residues.len() {
        match residue_refusal(residues[i]) {
            Some(e) => Some(e),
            None => residues_refusal(residues, i + 1),
        }
    } else {
        None
    }
}

/// The first of the mappings from `i` on that cannot be packed, and why.
pub open spec fn maps_refusal(maps: Seq<MappingView>, i: int, channels: i32) -> Option<Error>
    decreases maps.len() - i,
{
    if 0 <= i < maps.len() {
        match mapping_refusal(maps[i], channels) {
            Some(e) => Some(e),
            None => maps_refusal(maps, i + 1, channels),
        }
    } else {
        None
    }
}

/// Why a setup header cannot be packed, if it cannot: the reason of the
/// first codebook, floor, residue or mapping that cannot.
pub open spec fn setup_refusal(v: SetupView, channels: i32) -> Option<Error> {
    match first_refusal(v.static_codebooks, 0) {
        Some(e) => Some(e),
        None => match floors_refusal(v.floors, 0) {
            Some(e) => Some(e),
            None => match residues_refusal(v.residues, 0) {
                Some(e) => Some(e),
                None => maps_refusal(v.maps, 0, channels),
            },
        },
    }
}

/// The setup header as it stands on the wire: its seven first bytes, the
/// codebooks, one time type, the floors, the residues, the mappings and
/// the modes, each list behind its count, and the end mark.
pub open spec fn packed_setup(v: SetupView, channels: i32) -> Seq<bool> {
    packed_setup_front(v) + packed_setup_back(v, channels)
}

/// The first part of a packed setup header: its seven first bytes, the
/// codebooks, one time type and the floors.
pub open spec fn packed_setup_front(v: SetupView) -> Seq<bool> {
    packed_bytes(header_magic(5), 0) + packed_section(v.static_codebooks) + value_bits(0, 6)
        + value_bits(0, 16) + value_bits(count6(v.floors.len() as int), 6) + packed_floors(v.floors, 0)
}

/// The second part of a packed setup header: the residues, the mappings,
/// the modes and the end mark.
pub open spec fn packed_setup_back(v: SetupView, channels: i32) -> Seq<bool> {
    value_bits(count6(v.residues.len() as int), 6) + packed_residues(v.residues, 0) + value_bits(
        count6(v.maps.len() as int),
        6,
    ) + packed_maps(v.maps, 0, channels) + value_bits(count6(v.modes.len() as int), 6) + packed_modes(
        v.modes,
        0,
    ) + value_bits(1, 1)
}

/// What packing a setup header gives.
pub open spec fn pack_setup(v: SetupView, channels: i32) -> Result<Seq<bool>, Error> {
    match setup_refusal(v, channels) {
        Some(e) => Err(e),
        None => Ok(packed_setup(v, channels)),
    }
}

fn put_count(writer: &mut BitWriter, n: usize)
    requires
        old(writer).has_room(6),
    ensures
        final(writer)@ == old(writer)@ + value_bits(count6(n as int), 6),
        final(writer).written() == old(writer).written() + 6,
{
    let v: u32 = if n == 0 {
        63
    } else {
        ((n - 1) % 64) as u32
    };
    put(writer, v, 6);
}

impl VorbisSetupHeader {
    /// Why the setup header cannot be packed, if it cannot.
    fn refusal(&self, channels: i32) -> (r: Option<Error>)
        ensures
            r == setup_refusal(self@, channels),
    {
        let ghost v = self@;
        let mut i: usize = 0;
        while i < self.static_codebooks.len()
            invariant
                i <= self.static_codebooks@.len(),
                v == self@,
                first_refusal(v.static_codebooks, 0) == first_refusal(v.static_codebooks, i as int),
            decreases self.static_codebooks@.len() - i,
        {
            assert(v.static_codebooks[i as int] == self.static_codebooks@[i as int]@);
            match self.static_codebooks[i].refusal() {
                Some(e) => {
                    return Some(e);
                },
                None => {},
            }
            i += 1;
        }
        i = 0;
        while i < self.floors.len()
            invariant
                i <= self.floors@.len(),
                v == self@,
                first_refusal(v.static_codebooks, 0).is_none(),
                floors_refusal(v.floors, 0) == floors_refusal(v.floors, i as int),
            decreases self.floors@.len() - i,
        {
            assert(v.floors[i as int] == self.floors@[i as int]@);
            match self.floors[i].refusal() {
                Some(e) => {
                    return Some(e);
                },
                None => {},
            }
            i += 1;
        }
        i = 0;
        while i < self.residues.len()
            invariant
                i <= self.residues@.len(),
                v == self@,
                first_refusal(v.static_codebooks, 0).is_none(),
                floors_refusal(v.floors, 0).is_none(),
                residues_refusal(v.residues, 0) == residues_refusal(v.residues, i as int),
            decreases self.residues@.len() - i,
        {
            assert(v.residues[i as int] == self.residues@[i as int]@);
            match self.residues[i].refusal() {
                Some(e) => {
                    return Some(e);
                },
                None => {},
            }
            i += 1;
        }
        i = 0;
        while i < self.maps.len()
            invariant
                i <= self.maps@.len(),
                v == self@,
                first_refusal(v.static_codebooks, 0).is_none(),
                floors_refusal(v.floors, 0).is_none(),
                residues_refusal(v.residues, 0).is_none(),
                maps_refusal(v.maps, 0, channels) == maps_refusal(v.maps, i as int, channels),
            decreases self.maps@.len() - i,
        {
            assert(v.maps[i as int] == self.maps@[i as int]@);
            match self.maps[i].refusal(channels) {
                Some(e) => {
                    return Some(e);
                },
                None => {},
            }
            i += 1;
        }
        None
    }

    fn put_books(&self, writer: &mut BitWriter)
        requires
            first_refusal(self@.static_codebooks, 0).is_none(),
            old(writer).has_room(packed_section(self@.static_codebooks).len()),
        ensures
            final(writer)@ == old(writer)@ + packed_section(self@.static_codebooks),
            final(writer).written() == old(writer).written() + packed_section(
                self@.static_codebooks,
            ).len(),
    {
        let ghost all = self@.static_codebooks;
        let ghost start = writer@;
        let ghost target = writer@ + packed_section(all);
        let ghost goal = writer.written() + packed_section(all).len();
        let n = self.static_codebooks.len();
        let count: u32 = if n == 0 {
            255
        } else {
            ((n - 1) % 256) as u32
        };
        put(writer, count, 8);
        proof {
            assert(start + (value_bits(count_field(n as int), 8) + packed_books(all, 0)) =~= writer@
                + packed_books(all, 0));
        }
        let mut i: usize = 0;
        while i < n
            invariant
                i <= n,
                n == self.static_codebooks@.len(),
                all == self@.static_codebooks,
                first_refusal(all, i as int).is_none(),
                writer@ + packed_books(all, i as int) == target,
                writer.written() + packed_books(all, i as int).len() == goal,
                target.len() + 7 <= usize::MAX,
            decreases n - i,
        {
            let ghost before = writer@;
            assert(all[i as int] == self.static_codebooks@[i as int]@);
            let _ = self.static_codebooks[i].pack(writer);
            proof {
                assert(before + (packed_book(all[i as int]) + packed_books(all, i + 1)) =~= writer@
                    + packed_books(all, i + 1));
            }
            i += 1;
        }
        proof {
            assert(writer@ + Seq::<bool>::empty() =~= writer@);
        }
    }

    fn put_floors(&self, writer: &mut BitWriter)
        requires
            floors_refusal(self@.floors, 0).is_none(),
            old(writer).has_room(packed_floors(self@.floors, 0).len()),
        ensures
            final(writer)@ == old(writer)@ + packed_floors(self@.floors, 0),
            final(writer).written() == old(writer).written() + packed_floors(self@.floors, 0).len(),
    {
        let ghost all = self@.floors;
        let ghost target = writer@ + packed_floors(all, 0);
        let ghost goal = writer.written() + packed_floors(all, 0).len();
        let n = self.floors.len();
        let mut i: usize = 0;
        while i < n
            invariant
                i <= n,
                n == self.floors@.len(),
                all == self@.floors,
                floors_refusal(all, i as int).is_none(),
                writer@ + packed_floors(all, i as int) == target,
                writer.written() + packed_floors(all, i as int).len() == goal,
                target.len() + 7 <= usize::MAX,
            decreases n - i,
        {
            let ghost before = writer@;
            assert(all[i as int] == self.floors@[i as int]@);
            let _ = self.floors[i].pack(writer);
            proof {
                assert(before + (floor_bits(all[i as int]) + packed_floors(all, i + 1)) =~= writer@
                    + packed_floors(all, i + 1));
            }
            i += 1;
        }
        proof {
            assert(writer@ + Seq::<bool>::empty() =~= writer@);
        }
    }

    fn put_residues(&self, writer: &mut BitWriter)
        requires
            residues_refusal(self@.residues, 0).is_none(),
            old(writer).has_room(packed_residues(self@.residues, 0).len()),
        ensures
            final(writer)@ == old(writer)@ + packed_residues(self@.residues, 0),
            final(writer).written() == old(writer).written() + packed_residues(self@.residues, 0).len(),
    {
        let ghost all = self@.residues;
        let ghost target = writer@ + packed_residues(all, 0);
        let ghost goal = writer.written() + packed_residues(all, 0).len();
        let n = self.residues.len();
        let mut i: usize = 0;
        while i < n
            invariant
                i <= n,
                n == self.residues@.len(),
                all == self@.residues,
                residues_refusal(all, i as int).is_none(),
                writer@ + packed_residues(all, i as int) == target,
                writer.written() + packed_residues(all, i as int).len() == goal,
                target.len() + 7 <= usize::MAX,
            decreases n - i,
        {
            let ghost before = writer@;
            assert(all[i as int] == self.residues@[i as int]@);
            let _ = self.residues[i].pack(writer);
            proof {
                assert(before + (packed_residue(all[i as int]) + packed_residues(all, i + 1))
                    =~= writer@ + packed_residues(all, i + 1));
            }
            i += 1;
        }
        proof {
            assert(writer@ + Seq::<bool>::empty() =~= writer@);
        }
    }

    fn put_maps(&self, writer: &mut BitWriter, channels: i32)
        requires
            maps_refusal(self@.maps, 0, channels).is_none(),
            old(writer).has_room(packed_maps(self@.maps, 0, channels).len()),
        ensures
            final(writer)@ == old(writer)@ + packed_maps(self@.maps, 0, channels),
            final(writer).written() == old(writer).written() + packed_maps(self@.maps, 0, channels).len(),
    {
        let ghost all = self@.maps;
        let ghost target = writer@ + packed_maps(all, 0, channels);
        let ghost goal = writer.written() + packed_maps(all, 0, channels).len();
        let n = self.maps.len();
        let mut i: usize = 0;
        while i < n
            invariant
                i <= n,
                n == self.maps@.len(),
                all == self@.maps,
                maps_refusal(all, i as int, channels).is_none(),
                writer@ + packed_maps(all, i as int, channels) == target,
                writer.written() + packed_maps(all, i as int, channels).len() == goal,
                target.len() + 7 <= usize::MAX,
            decreases n - i,
        {
            let ghost before = writer@;
            assert(all[i as int] == self.maps@[i as int]@);
            let _ = self.maps[i].pack(writer, channels);
            proof {
                assert(before + (packed_mapping(all[i as int], channels) + packed_maps(
                    all,
                    i + 1,
                    channels,
                )) =~= writer@ + packed_maps(all, i + 1, channels));
            }
            i += 1;
        }
        proof {
            assert(writer@ + Seq::<bool>::empty() =~= writer@);
        }
    }

    fn put_modes(&self, writer: &mut BitWriter)
        requires
            old(writer).has_room(packed_modes(self@.modes, 0).len()),
        ensures
            final(writer)@ == old(writer)@ + packed_modes(self@.modes, 0),
            final(writer).written() == old(writer).written() + packed_modes(self@.modes, 0).len(),
    {
        let ghost all = self@.modes;
        let ghost target = writer@ + packed_modes(all, 0);
        let ghost goal = writer.written() + packed_modes(all, 0).len();
        let n = self.modes.len();
        let mut i: usize = 0;
        while i < n
            invariant
                i <= n,
                n == self.modes@.len(),
                all == self@.modes,
                writer@ + packed_modes(all, i as int) == target,
                writer.written() + packed_modes(all, i as int).len() == goal,
                target.len() + 7 <= usize::MAX,
            decreases n - i,
        {
            let ghost before = writer@;
            assert(packed_modes(all, i as int).len() >= 41) by {
                assert(packed_mode(all[i as int]).len() == 41);
            }
            let _ = self.modes[i].pack(writer);
            proof {
                assert(before + (packed_mode(all[i as int]) + packed_modes(all, i + 1)) =~= writer@
                    + packed_modes(all, i + 1));
            }
            i += 1;
        }
        proof {
            assert(writer@ + Seq::<bool>::empty() =~= writer@);
        }
    }

    /// Appends the setup header to the stream, for the stream that
    /// `ident_header` describes, and returns the number of bits that it
    /// takes. A setup header that cannot be packed is refused before
    /// anything is written.
    pub fn pack(&self, bitwriter: &mut BitWriter, ident_header: &VorbisIdentificationHeader) -> (r:
        Result<usize, Error>)
        requires
            pack_setup(self@, ident_header.channels).is_ok() ==> old(bitwriter).has_room(
                packed_setup(self@, ident_header.channels).len(),
            ),
        ensures
            match pack_setup(self@, ident_header.channels) {
                Ok(bits) => {
                    &&& r == Ok::<usize, Error>(bits.len() as usize)
                    &&& final(bitwriter)@ == old(bitwriter)@ + bits
                    &&& final(bitwriter).written() == old(bitwriter).written() + bits.len()
                },
                Err(e) => {
                    &&& r == Err::<usize, Error>(e)
                    &&& final(bitwriter)@ == old(bitwriter)@
                    &&& final(bitwriter).written() == old(bitwriter).written()
                },
            },
    {
        let channels = ident_header.channels;
        match self.refusal(channels) {
            Some(e) => {
                return Err(e);
            },
            None => {},
        }
        let ghost before = bitwriter@;
        let begin_bits = bitwriter.total_bits();
        self.put_front(bitwriter);
        self.put_back(bitwriter, channels);
        assert(bitwriter@ =~= before + packed_setup(self@, channels));
        Ok(bitwriter.total_bits() - begin_bits)
    }

    fn put_front(&self, writer: &mut BitWriter)
        requires
            first_refusal(self@.static_codebooks, 0).is_none(),
            floors_refusal(self@.floors, 0).is_none(),
            old(writer).has_room(packed_setup_front(self@).len()),
        ensures
            final(writer)@ == old(writer)@ + packed_setup_front(self@),
            final(writer).written() == old(writer).written() + packed_setup_front(self@).len(),
    {
        let ghost before = writer@;
        proof {
            crate::headers::lemma_packed_bytes_len(header_magic(5), 0);
        }
        put_magic(writer, 5);
        self.put_books(writer);
        put(writer, 0, 6);
        put(writer, 0, 16);
        put_count(writer, self.floors.len());
        self.put_floors(writer);
        assert(writer@ =~= before + packed_setup_front(self@));
    }

    fn put_back(&self, writer: &mut BitWriter, channels: i32)
        requires
            residues_refusal(self@.residues, 0).is_none(),
            maps_refusal(self@.maps, 0, channels).is_none(),
            old(writer).has_room(packed_setup_back(self@, channels).len()),
        ensures
            final(writer)@ == old(writer)@ + packed_setup_back(self@, channels),
            final(writer).written() == old(writer).written() + packed_setup_back(self@, channels).len(),
    {
        let ghost before = writer@;
        put_count(writer, self.residues.len());
        self.put_residues(writer);
        put_count(writer, self.maps.len());
        self.put_maps(writer, channels);
        put_count(writer, self.modes.len());
        self.put_modes(writer);
        put(writer, 1, 1);
        assert(writer@ =~= before + packed_setup_back(self@, channels));
    }
}

impl VorbisFloor {
    /// Reads a floor of the setup header `vorbis_info`, whose codebooks
    /// are read already.
    pub fn load(bitreader: &mut BitReader, vorbis_info: &VorbisSetupHeader) -> (r: Result<Self, Error>)
        ensures
            final(bitreader).source() == old(bitreader).source(),
            match Self::spec_load(old(bitreader)@, vorbis_info@.static_codebooks) {
                Ok((v, rest)) => r matches Ok(f) && f@ == v && final(bitreader)@ == rest,
                Err(e) => r matches Err(x) && x == e,
            },
    {
        Self::load_for(bitreader, &vorbis_info.static_codebooks)
    }
}

impl VorbisFloor0 {
    /// Reads a floor of type 0 of the setup header `vorbis_info`, behind
    /// its type.
    pub fn load(bitreader: &mut BitReader, vorbis_info: &VorbisSetupHeader) -> (r: Result<
        VorbisFloor,
        Error,
    >)
        ensures
            final(bitreader).source() == old(bitreader).source(),
            match load_floor0(old(bitreader)@, vorbis_info@.static_codebooks) {
                Ok((v, rest)) => r matches Ok(f) && f@ == FloorView::Floor0(v) && final(bitreader)@
                    == rest,
                Err(e) => r matches Err(x) && x == e,
            },
    {
        Self::load_for(bitreader, &vorbis_info.static_codebooks)
    }
}

impl VorbisFloor1 {
    /// Reads a floor of type 1 of the setup header `vorbis_info`, behind
    /// its type.
    pub fn load(bitreader: &mut BitReader, vorbis_info: &VorbisSetupHeader) -> (r: Result<
        VorbisFloor,
        Error,
    >)
        ensures
            final(bitreader).source() == old(bitreader).source(),
            match load_floor1(old(bitreader)@, vorbis_info@.static_codebooks.len() as int) {
                Ok((v, rest)) => r matches Ok(f) && f@ == FloorView::Floor1(v) && final(bitreader)@
                    == rest,
                Err(e) => r matches Err(x) && x == e,
            },
    {
        Self::load_for(bitreader, vorbis_info.static_codebooks.len())
    }
}

impl VorbisResidue {
    /// Reads a residue of the setup header `vorbis_info`, whose codebooks
    /// are read already.
    pub fn load(bitreader: &mut BitReader, vorbis_info: &VorbisSetupHeader) -> (r: Result<Self, Error>)
        ensures
            final(bitreader).source() == old(bitreader).source(),
            match load_residue(old(bitreader)@, vorbis_info@.static_codebooks) {
                Ok((v, rest)) => r matches Ok(x) && x@ == v && final(bitreader)@ == rest,
                Err(e) => r matches Err(x) && x == e,
            },
    {
        Self::load_for(bitreader, &vorbis_info.static_codebooks)
    }
}

impl VorbisMapping {
    /// Reads a mapping of the setup header `vorbis_info`, whose floors
    /// and residues are read already, for the stream that `ident_header`
    /// describes.
    pub fn load(
        bitreader: &mut BitReader,
        vorbis_info: &VorbisSetupHeader,
        ident_header: &VorbisIdentificationHeader,
    ) -> (r: Result<Self, Error>)
        ensures
            final(bitreader).source() == old(bitreader).source(),
            match load_mapping(
                old(bitreader)@,
                ident_header.channels,
                vorbis_info@.floors.len() as int,
                vorbis_info@.residues.len() as int,
            ) {
                Ok((m, rest)) => r matches Ok(v) && v@ == m && final(bitreader)@ == rest,
                Err(e) => r matches Err(x) && x == e,
            },
    {
        Self::load_for(
            bitreader,
            ident_header.channels,
            vorbis_info.floors.len(),
            vorbis_info.residues.len(),
        )
    }
}

impl VorbisMode {
    /// Reads a mode of the setup header `vorbis_info`, whose mappings are
    /// read already.
    pub fn load(bitreader: &mut BitReader, vorbis_info: &VorbisSetupHeader) -> (r: Result<Self, Error>)
        ensures
            final(bitreader).source() == old(bitreader).source(),
            match load_mode(old(bitreader)@, vorbis_info@.maps.len() as int) {
                Ok((m, rest)) => r == Ok::<Self, Error>(m) && final(bitreader)@ == rest,
                Err(e) => r matches Err(x) && x == e,
            },
    {
        Self::load_for_maps(bitreader, vorbis_info.maps.len())
    }
}

impl VorbisSetupHeader {
    /// Makes the books of a session from the static codebooks, all for
    /// encoding or all for decoding. The first static codebook that gives
    /// no book decides the failure.
    pub fn init_codebooks(&self, for_encode: bool) -> (r: Result<Vec<CodeBook>, Error>)
        ensures
            r matches Ok(books) ==> books@.len() == self.static_codebooks@.len() && forall|i: int|
                0 <= i < books@.len() ==> #[trigger] session_book(
                    self.static_codebooks@[i]@,
                    for_encode,
                    books@[i],
                ),
            r matches Err(e) ==> exists|i: int|
                0 <= i < self.static_codebooks@.len() && #[trigger] first_failure(
                    self.static_codebooks@,
                    for_encode,
                    i,
                ) && book_failure(self.static_codebooks@[i]@, for_encode) == Some(e),
            r.is_ok() <==> forall|i: int|
                0 <= i < self.static_codebooks@.len() ==> (#[trigger] book_failure(
                    self.static_codebooks@[i]@,
                    for_encode,
                )).is_none(),
    {
        let n = self.static_codebooks.len();
        let mut books: Vec<CodeBook> = Vec::new();
        let mut i: usize = 0;
        while i < n
            invariant
                i <= n,
                n == self.static_codebooks@.len(),
                books@.len() == i,
                forall|k: int|
                    0 <= k < i ==> #[trigger] session_book(
                        self.static_codebooks@[k]@,
                        for_encode,
                        books@[k],
                    ),
                forall|k: int|
                    0 <= k < i ==> (#[trigger] book_failure(self.static_codebooks@[k]@, for_encode)).is_none(),
            decreases n - i,
        {
            let book = match CodeBook::new(for_encode, &self.static_codebooks[i]) {
                Ok(b) => b,
                Err(e) => {
                    assert(book_failure(self.static_codebooks@[i as int]@, for_encode) == Some(e));
                    assert(first_failure(self.static_codebooks@, for_encode, i as int));
                    return Err(e);
                },
            };
            books.push(book);
            i += 1;
        }
        Ok(books)
    }
}

/// The static codebook `i` is the first that gives no book.
pub open spec fn first_failure(books: Seq<StaticCodeBook>, for_encode: bool, i: int) -> bool {
    &&& book_failure(books[i]@, for_encode).is_some()
    &&& forall|k: int| 0 <= k < i ==> (#[trigger] book_failure(books[k]@, for_encode)).is_none()
}

/// Why the static codebook gives no book for encoding or for decoding, if
/// it gives none.
pub open spec fn book_failure(src: BookSpec, for_encode: bool) -> Option<Error> {
    if for_encode {
        match encode_words(src) {
            Ok(words) => None,
            Err(e) => Some(e),
        }
    } else {
        match decode_keys(src) {
            Ok(keys) => None,
            Err(e) => Some(e),
        }
    }
}

/// The book is the book of the static codebook for encoding or for
/// decoding.
pub open spec fn session_book(src: BookSpec, for_encode: bool, b: CodeBook) -> bool {
    if for_encode {
        encode_words(src) matches Ok(words) && is_encoding_book(src, words, b)
    } else {
        decode_keys(src) matches Ok(keys) && is_decoding_book(src, keys, b)
    }
}

impl Default for VorbisSetupHeader {
    /// The setup header that holds nothing.
    fn default() -> (r: Self)
        ensures
            r.static_codebooks@.len() == 0,
            r.floors@.len() == 0,
            r.residues@.len() == 0,
            r.maps@.len() == 0,
            r.modes@.len() == 0,
    {
        VorbisSetupHeader {
            static_codebooks: Vec::new(),
            floors: Vec::new(),
            residues: Vec::new(),
            maps: Vec::new(),
            modes: Vec::new(),
        }
    }
}

} // verus!
