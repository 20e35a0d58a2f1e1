use vorbis_bits::book::CodeBook;
use vorbis_bits::buffer::IntBuffer;
use vorbis_bits::codebook::StaticCodeBook;
use vorbis_bits::floor::{VorbisFloor, VorbisFloor0, VorbisFloor1};
use vorbis_bits::headers::{VorbisCommentHeader, VorbisIdentificationHeader, VorbisMode};
use vorbis_bits::mapping::VorbisMapping;
use vorbis_bits::reader::BitReader;
use vorbis_bits::residue::VorbisResidue;
use vorbis_bits::setup::VorbisSetupHeader;
use vorbis_bits::utils::{parse_vorbis_headers, remove_codebook_from_setup_header, vorbis_headers_from_segments};
use vorbis_bits::writer::BitWriter;
use vorbis_bits::Error;

fn put(w: &mut BitWriter, fields: &[(u32, i32)]) {
    for (value, bits) in fields.iter() {
        w.write(*value, *bits).unwrap();
    }
}

fn put_magic(w: &mut BitWriter, kind: u8) {
    w.write(kind as u32, 8).unwrap();
    for b in b"vorbis".iter() {
        w.write(*b as u32, 8).unwrap();
    }
}

fn ident(channels: i32) -> VorbisIdentificationHeader {
    VorbisIdentificationHeader {
        version: 0,
        channels,
        sample_rate: 44100,
        bitrate_upper: 0,
        bitrate_nominal: 128000,
        bitrate_lower: -1,
        block_size: [256, 2048],
    }
}

fn trivial_book() -> StaticCodeBook {
    StaticCodeBook {
        dim: 1,
        entries: 1,
        lengthlist: vec![1],
        maptype: 0,
        q_min: 0,
        q_delta: 0,
        q_quant: 0,
        q_sequencep: false,
        quantlist: Vec::new(),
    }
}

/// The smallest setup header: one codebook of one entry, and one floor,
/// residue, mapping and mode that use as little as they can.
fn smallest_setup_bytes() -> Vec<u8> {
    let mut w = BitWriter::new();
    put_magic(&mut w, 5);
    put(&mut w, &[(0, 8)]);
    put(&mut w, &[(0x564342, 24), (1, 16), (1, 24), (1, 1), (0, 5), (1, 1), (0, 4)]);
    put(&mut w, &[(0, 6), (0, 16)]);
    put(&mut w, &[(0, 6), (1, 16), (0, 5), (0, 2), (7, 4)]);
    put(&mut w, &[(0, 6), (0, 16), (0, 24), (0, 24), (0, 24), (0, 6), (0, 8), (0, 3), (0, 1)]);
    put(&mut w, &[(0, 6), (0, 16), (0, 1), (0, 1), (0, 2), (0, 8), (0, 8), (0, 8)]);
    put(&mut w, &[(0, 6), (0, 1), (0, 16), (0, 16), (0, 8)]);
    put(&mut w, &[(1, 1)]);
    w.into_bytes()
}

#[test]
fn smallest_setup_header() {
    let bytes = smallest_setup_bytes();
    let mut r = BitReader::new(&bytes);
    let setup = VorbisSetupHeader::load(&mut r, &ident(1)).unwrap();
    assert_eq!(setup.static_codebooks.len(), 1);
    assert_eq!(setup.floors.len(), 1);
    assert_eq!(setup.residues.len(), 1);
    assert_eq!(setup.maps.len(), 1);
    assert_eq!(setup.modes.len(), 1);
    assert_eq!(setup.static_codebooks[0].dim, 1);
    assert_eq!(setup.static_codebooks[0].entries, 1);
    assert_eq!(setup.static_codebooks[0], trivial_book());
    assert_eq!(setup.floors[0].get_type(), 1);
    match &setup.floors[0] {
        VorbisFloor::Floor1(f) => {
            assert_eq!(f.partitions, 0);
            assert_eq!(f.mult, 1);
            assert_eq!(f.postlist.to_vec(), vec![0, 128]);
            assert_eq!(f.class_dim.len(), 0);
        }
        VorbisFloor::Floor0(_) => panic!("the floor is of type 1"),
    }
    assert_eq!(setup.residues[0].residue_type, 0);
    assert_eq!(setup.residues[0].grouping, 1);
    assert_eq!(setup.residues[0].partitions, 1);
    assert_eq!(setup.residues[0].partvals, 1);
    assert_eq!(setup.residues[0].secondstages.to_vec(), vec![0]);
    assert_eq!(setup.residues[0].booklist.len(), 0);
    assert_eq!(setup.maps[0].submaps, 1);
    assert_eq!(setup.maps[0].coupling_steps, 0);
    assert_eq!(setup.maps[0].floorsubmap.to_vec(), vec![0]);
    assert_eq!(setup.maps[0].residuesubmap.to_vec(), vec![0]);
    assert_eq!(
        setup.modes[0],
        VorbisMode { block_flag: false, window_type: 0, transform_type: 0, mapping: 0 }
    );

    let mut w = BitWriter::new();
    let bits = setup.pack(&mut w, &ident(1)).unwrap();
    assert_eq!(bits, r.total_bits());
    assert_eq!(w.total_bits(), bits);
    assert_eq!(w.into_bytes(), bytes);
}

fn floor0() -> VorbisFloor {
    VorbisFloor::Floor0(VorbisFloor0 {
        order: 8,
        rate: 16,
        barkmap: 10,
        ampbits: 6,
        ampdB: 40,
        books: IntBuffer::from_slice(&[1]),
    })
}

fn full_setup() -> VorbisSetupHeader {
    let pair = StaticCodeBook {
        dim: 1,
        entries: 2,
        lengthlist: vec![1, 1],
        maptype: 0,
        q_min: 0,
        q_delta: 0,
        q_quant: 0,
        q_sequencep: false,
        quantlist: Vec::new(),
    };
    let lattice = StaticCodeBook {
        dim: 2,
        entries: 4,
        lengthlist: vec![2, 2, 2, 2],
        maptype: 1,
        q_min: 0xc000_0000,
        q_delta: 0x3f80_0000,
        q_quant: 2,
        q_sequencep: true,
        quantlist: vec![0, 3],
    };
    let floor1 = VorbisFloor1 {
        partitions: 2,
        partitions_class: IntBuffer::from_slice(&[0, 1]),
        class_dim: IntBuffer::from_slice(&[1, 2]),
        class_subs: IntBuffer::from_slice(&[0, 1]),
        class_book: IntBuffer::from_slice(&[0, 0]),
        class_subbook: vec![IntBuffer::from_slice(&[1]), IntBuffer::from_slice(&[0, -1])],
        mult: 2,
        postlist: IntBuffer::from_slice(&[0, 128, 64, 32, 96]),
        n: 0,
    };
    let residue = VorbisResidue {
        residue_type: 1,
        begin: 0,
        end: 128,
        grouping: 8,
        partitions: 2,
        partvals: 2,
        groupbook: 0,
        secondstages: IntBuffer::from_slice(&[1, 10]),
        booklist: IntBuffer::from_slice(&[1, 1, 1]),
        classmetric1: [0; 64],
        classmetric2: [0; 64],
    };
    let map = VorbisMapping {
        mapping_type: 0,
        submaps: 2,
        chmuxlist: IntBuffer::from_slice(&[0, 1]),
        floorsubmap: IntBuffer::from_slice(&[0, 0]),
        residuesubmap: IntBuffer::from_slice(&[0, 0]),
        coupling_steps: 1,
        coupling_mag: IntBuffer::from_slice(&[0]),
        coupling_ang: IntBuffer::from_slice(&[1]),
    };
    VorbisSetupHeader {
        static_codebooks: vec![pair, lattice],
        floors: vec![VorbisFloor::Floor1(floor1)],
        residues: vec![residue],
        maps: vec![map],
        modes: vec![
            VorbisMode { block_flag: false, window_type: 0, transform_type: 0, mapping: 0 },
            VorbisMode { block_flag: true, window_type: 0, transform_type: 0, mapping: 0 },
        ],
    }
}

fn full_setup_bytes() -> Vec<u8> {
    let mut w = BitWriter::new();
    put_magic(&mut w, 5);
    put(&mut w, &[(1, 8)]);
    put(&mut w, &[(0x564342, 24), (1, 16), (2, 24), (1, 1), (0, 5), (2, 2), (0, 4)]);
    put(&mut w, &[(0x564342, 24), (2, 16), (4, 24), (1, 1), (1, 5), (4, 3), (1, 4)]);
    put(&mut w, &[(0xc000_0000, 32), (0x3f80_0000, 32), (1, 4), (1, 1), (0, 2), (3, 2)]);
    // One time, which says nothing.
    put(&mut w, &[(0, 6), (0, 16)]);
    // One floor.
    put(&mut w, &[(0, 6)]);
    put(&mut w, &[(1, 16), (2, 5), (0, 4), (1, 4)]);
    put(&mut w, &[(0, 3), (0, 2), (2, 8)]);
    put(&mut w, &[(1, 3), (1, 2), (0, 8), (1, 8), (0, 8)]);
    put(&mut w, &[(1, 2), (7, 4), (64, 7), (32, 7), (96, 7)]);
    // One residue.
    put(&mut w, &[(0, 6), (1, 16), (0, 24), (128, 24), (7, 24), (1, 6), (0, 8)]);
    put(&mut w, &[(1, 3), (0, 1), (2, 3), (1, 1), (1, 5), (1, 8), (1, 8), (1, 8)]);
    // One mapping.
    put(&mut w, &[(0, 6), (0, 16), (1, 1), (1, 4), (1, 1), (0, 8), (0, 1), (1, 1), (0, 2)]);
    put(&mut w, &[(0, 4), (1, 4), (0, 8), (0, 8), (0, 8), (0, 8), (0, 8), (0, 8)]);
    // Two modes.
    put(&mut w, &[(1, 6), (0, 1), (0, 16), (0, 16), (0, 8), (1, 1), (0, 16), (0, 16), (0, 8)]);
    put(&mut w, &[(1, 1)]);
    w.into_bytes()
}

#[test]
fn setup_header_with_every_section() {
    let bytes = full_setup_bytes();
    let mut r = BitReader::new(&bytes);
    let setup = VorbisSetupHeader::load(&mut r, &ident(2)).unwrap();
    assert_eq!(setup, full_setup());
    assert_eq!(setup.floors[0].get_type(), 1);
    assert_eq!(floor0().get_type(), 0);
    let mut w = BitWriter::new();
    let bits = full_setup().pack(&mut w, &ident(2)).unwrap();
    assert_eq!(bits, r.total_bits());
    assert_eq!(w.into_bytes(), bytes);
}

#[test]
fn truncated_setup_header_is_refused() {
    let bytes = full_setup_bytes();
    for cut in 0..bytes.len() - 1 {
        let mut r = BitReader::new(&bytes[..cut]);
        assert_eq!(VorbisSetupHeader::load(&mut r, &ident(2)), Err(Error::UnexpectedEof));
        assert_eq!(r.total_bits(), 0);
    }
}

#[test]
fn setup_header_must_fit_the_stream() {
    let bytes = full_setup_bytes();
    // With one channel the coupled channels are not of the stream.
    let mut r = BitReader::new(&bytes);
    assert_eq!(VorbisSetupHeader::load(&mut r, &ident(1)), Err(Error::InvalidData));
    assert_eq!(r.total_bits(), 0);
    // Without channels a channel number has no width.
    let mut w = BitWriter::new();
    assert_eq!(full_setup().pack(&mut w, &ident(0)), Err(Error::InvalidInput));
    assert_eq!(w.total_bits(), 0);
}

#[test]
fn setup_header_refuses_a_bad_magic() {
    let mut bytes = smallest_setup_bytes();
    bytes[0] = 1;
    let mut r = BitReader::new(&bytes);
    assert_eq!(VorbisSetupHeader::load(&mut r, &ident(1)), Err(Error::InvalidData));
}

#[test]
fn setup_header_refuses_a_missing_end_mark() {
    let mut bytes = smallest_setup_bytes();
    let last = bytes.len() - 1;
    bytes[last] = 0;
    let mut r = BitReader::new(&bytes);
    assert_eq!(VorbisSetupHeader::load(&mut r, &ident(1)), Err(Error::InvalidData));
}

#[test]
fn setup_header_refuses_what_cannot_be_written() {
    let good = full_setup();
    let mut w = BitWriter::new();

    let mut setup = full_setup();
    setup.residues[0].booklist = IntBuffer::from_slice(&[1, 1]);
    assert_eq!(setup.pack(&mut w, &ident(2)), Err(Error::InvalidData));

    let mut setup = full_setup();
    setup.maps[0].floorsubmap = IntBuffer::from_slice(&[0]);
    assert_eq!(setup.pack(&mut w, &ident(2)), Err(Error::InvalidData));

    let mut setup = full_setup();
    if let VorbisFloor::Floor1(f) = &mut setup.floors[0] {
        f.postlist = IntBuffer::from_slice(&[0, 128, 64]);
    }
    assert_eq!(setup.pack(&mut w, &ident(2)), Err(Error::InvalidData));

    let mut setup = full_setup();
    setup.static_codebooks[1].maptype = 7;
    assert_eq!(setup.pack(&mut w, &ident(2)), Err(Error::InvalidData));

    assert_eq!(w.total_bits(), 0);
    assert!(good.pack(&mut w, &ident(2)).is_ok());
}

#[test]
fn sections_load_for_a_setup_header() {
    let info = full_setup();
    let mut w = BitWriter::new();
    put(&mut w, &[(1, 16), (0, 5), (1, 2), (6, 4)]);
    put(&mut w, &[(0, 16), (8, 8), (16, 16), (10, 16), (6, 8), (40, 8), (0, 4), (1, 8)]);
    put(&mut w, &[(8, 8), (16, 16), (10, 16), (6, 8), (40, 8), (0, 4), (1, 8)]);
    put(&mut w, &[(0, 5), (3, 2), (10, 4)]);
    put(&mut w, &[(1, 16), (0, 24), (128, 24), (7, 24), (1, 6), (0, 8)]);
    put(&mut w, &[(1, 3), (0, 1), (2, 3), (1, 1), (1, 5), (1, 8), (1, 8), (1, 8)]);
    put(&mut w, &[(0, 16), (0, 1), (0, 1), (0, 2), (9, 8), (0, 8), (0, 8)]);
    put(&mut w, &[(1, 1), (0, 16), (0, 16), (0, 8)]);
    let bytes = w.into_bytes();
    let mut r = BitReader::new(&bytes);

    let f = VorbisFloor::load(&mut r, &info).unwrap();
    match &f {
        VorbisFloor::Floor1(f) => {
            assert_eq!(f.mult, 2);
            assert_eq!(f.postlist.to_vec(), vec![0, 64]);
        }
        VorbisFloor::Floor0(_) => panic!("the floor is of type 1"),
    }
    assert_eq!(VorbisFloor::load(&mut r, &info), Ok(floor0()));
    assert_eq!(VorbisFloor0::load(&mut r, &info), Ok(floor0()));
    match VorbisFloor1::load(&mut r, &info).unwrap() {
        VorbisFloor::Floor1(f) => {
            assert_eq!(f.mult, 4);
            assert_eq!(f.postlist.to_vec(), vec![0, 1024]);
        }
        VorbisFloor::Floor0(_) => panic!("the floor is of type 1"),
    }
    assert_eq!(VorbisResidue::load(&mut r, &info).as_ref(), Ok(&info.residues[0]));
    let m = VorbisMapping::load(&mut r, &info, &ident(2)).unwrap();
    assert_eq!(m.submaps, 1);
    assert_eq!(m.chmuxlist.len(), 0);
    assert_eq!(m.floorsubmap.to_vec(), vec![0]);
    assert_eq!(m.residuesubmap.to_vec(), vec![0]);
    assert_eq!(VorbisMode::load(&mut r, &info), Ok(info.modes[1]));
    assert_eq!(VorbisMode::load(&mut r, &info), Err(Error::UnexpectedEof));
}

#[test]
fn sections_are_checked_when_they_load() {
    let info = full_setup();
    let load_floor = |fields: &[(u32, i32)]| {
        let mut w = BitWriter::new();
        put(&mut w, fields);
        put(&mut w, &[(0, 32), (0, 32)]);
        let bytes = w.into_bytes();
        let mut r = BitReader::new(&bytes);
        VorbisFloor::load(&mut r, &info)
    };
    // An unknown type.
    assert_eq!(load_floor(&[(2, 16)]), Err(Error::InvalidData));
    // A floor 0 without an order.
    assert_eq!(load_floor(&[(0, 16), (0, 8), (16, 16), (10, 16), (6, 8), (40, 8), (0, 4), (1, 8)]), Err(Error::InvalidData));
    // A floor 0 with a codebook that maps to no values.
    assert_eq!(load_floor(&[(0, 16), (8, 8), (16, 16), (10, 16), (6, 8), (40, 8), (0, 4), (0, 8)]), Err(Error::InvalidData));
    // A floor 1 with two posts at one place.
    assert_eq!(load_floor(&[(1, 16), (1, 5), (0, 4), (0, 3), (0, 2), (0, 8), (0, 2), (7, 4), (0, 7)]), Err(Error::InvalidData));
    // A floor 1 with a codebook that the header does not have.
    assert_eq!(load_floor(&[(1, 16), (1, 5), (0, 4), (0, 3), (0, 2), (3, 8), (0, 2), (7, 4), (5, 7)]), Err(Error::InvalidData));
    assert!(load_floor(&[(1, 16), (1, 5), (0, 4), (0, 3), (0, 2), (2, 8), (0, 2), (7, 4), (5, 7)]).is_ok());

    let load_residue = |fields: &[(u32, i32)]| {
        let mut w = BitWriter::new();
        put(&mut w, fields);
        put(&mut w, &[(0, 32)]);
        let bytes = w.into_bytes();
        let mut r = BitReader::new(&bytes);
        VorbisResidue::load(&mut r, &info)
    };
    assert_eq!(load_residue(&[(3, 16)]), Err(Error::InvalidData));
    // More classes than the codebook of the classes has entries.
    assert_eq!(
        load_residue(&[(0, 16), (0, 24), (8, 24), (0, 24), (2, 6), (0, 8), (0, 3), (0, 1), (0, 3), (0, 1), (0, 3), (0, 1)]),
        Err(Error::InvalidData)
    );
    // A pass with a codebook that maps to no values.
    assert_eq!(
        load_residue(&[(0, 16), (0, 24), (8, 24), (0, 24), (0, 6), (0, 8), (1, 3), (0, 1), (0, 8)]),
        Err(Error::InvalidData)
    );

    let load_mapping = |channels: i32, fields: &[(u32, i32)]| {
        let mut w = BitWriter::new();
        put(&mut w, fields);
        put(&mut w, &[(0, 32)]);
        let bytes = w.into_bytes();
        let mut r = BitReader::new(&bytes);
        VorbisMapping::load(&mut r, &info, &ident(channels))
    };
    assert_eq!(load_mapping(2, &[(1, 16)]), Err(Error::InvalidData));
    // A channel coupled with itself.
    assert_eq!(load_mapping(2, &[(0, 16), (0, 1), (1, 1), (0, 8), (1, 1), (1, 1)]), Err(Error::InvalidData));
    // The reserved bits are set.
    assert_eq!(load_mapping(2, &[(0, 16), (0, 1), (0, 1), (1, 2)]), Err(Error::InvalidData));
    // A residue that the header does not have.
    assert_eq!(load_mapping(2, &[(0, 16), (0, 1), (0, 1), (0, 2), (0, 8), (0, 8), (1, 8)]), Err(Error::InvalidData));

    let load_mode = |fields: &[(u32, i32)]| {
        let mut w = BitWriter::new();
        put(&mut w, fields);
        let bytes = w.into_bytes();
        let mut r = BitReader::new(&bytes);
        VorbisMode::load(&mut r, &info)
    };
    assert_eq!(load_mode(&[(0, 1), (1, 16), (0, 16), (0, 8)]), Err(Error::InvalidData));
    assert_eq!(load_mode(&[(0, 1), (0, 16), (1, 16), (0, 8)]), Err(Error::InvalidData));
    assert_eq!(load_mode(&[(0, 1), (0, 16), (0, 16), (1, 8)]), Err(Error::InvalidData));
}

#[test]
fn sections_pack_to_their_sizes() {
    let info = full_setup();
    let mut w = BitWriter::new();
    assert_eq!(info.floors[0].pack(&mut w), Ok(16 + 5 + 2 * 4 + (3 + 2 + 8) + (3 + 2 + 8 + 2 * 8) + 2 + 4 + 3 * 7));
    // A floor of type 0 has no packed form.
    assert_eq!(floor0().pack(&mut w), Ok(0));
    assert_eq!(info.residues[0].pack(&mut w), Ok(16 + 3 * 24 + 6 + 8 + 4 + 9 + 3 * 8));
    assert_eq!(info.maps[0].pack(&mut w, 2), Ok(16 + 5 + 9 + 2 + 2 + 2 * 4 + 2 * 24));
    assert_eq!(info.modes[0].pack(&mut w), Ok(41));
    let mut bad = info.residues[0].clone();
    bad.secondstages.set(0, -1);
    let before = w.total_bits();
    assert_eq!(bad.pack(&mut w), Err(Error::InvalidData));
    assert_eq!(w.total_bits(), before);
}

#[test]
fn session_books_of_a_setup_header() {
    let info = full_setup();
    let enc = info.init_codebooks(true).unwrap();
    assert_eq!(enc.len(), 2);
    assert_eq!(enc[0], CodeBook::new_for_encode(&info.static_codebooks[0]).unwrap());
    assert_eq!(enc[1].code_list, vec![0, 2, 1, 3]);
    assert_eq!(enc[1].quantvals, 2);
    assert_eq!(enc[1].minval, 0xc000_0000);
    assert_eq!(enc[1].delta, 0x3f80_0000);
    let dec = info.init_codebooks(false).unwrap();
    assert_eq!(dec[1], CodeBook::new_for_decode(&info.static_codebooks[1]).unwrap());
    assert_eq!(dec[0].decode_entry(1), Some((1, 1)));
    let mut bad = full_setup();
    bad.static_codebooks[1].lengthlist = vec![1, 1, 1, 1];
    assert_eq!(bad.init_codebooks(true), Err(Error::InvalidData));
    assert_eq!(bad.init_codebooks(false), Err(Error::InvalidData));
}

#[test]
fn identification_header_on_the_wire() {
    let h = ident(2);
    let mut w = BitWriter::new();
    assert_eq!(h.pack(&mut w), Ok(233));
    let bytes = w.into_bytes();
    let expected: Vec<u8> = vec![
        1, b'v', b'o', b'r', b'b', b'i', b's', 0, 0, 0, 0, 2, 0x44, 0xac, 0, 0, 0, 0, 0, 0, 0x00, 0xf4, 0x01, 0x00,
        0xff, 0xff, 0xff, 0xff, 0xb8, 0x01,
    ];
    assert_eq!(bytes, expected);
    assert_eq!(VorbisIdentificationHeader::load_from_slice(&bytes), Ok(ident(2)));
    let mut r = BitReader::new(&bytes);
    assert_eq!(VorbisIdentificationHeader::load(&mut r), Ok(ident(2)));
    assert_eq!(r.total_bits(), 233);
}

#[test]
fn identification_header_is_checked() {
    let good = {
        let mut w = BitWriter::new();
        ident(2).pack(&mut w).unwrap();
        w.into_bytes()
    };
    let with = |at: usize, value: u8| {
        let mut bytes = good.clone();
        bytes[at] = value;
        VorbisIdentificationHeader::load_from_slice(&bytes)
    };
    assert_eq!(with(0, 3), Err(Error::InvalidData));
    assert_eq!(with(6, b'z'), Err(Error::InvalidData));
    assert_eq!(with(11, 0), Err(Error::InvalidData));
    assert_eq!(with(15, 0x80), Err(Error::InvalidData));
    // A short block of 32 samples.
    assert_eq!(with(28, 0xb5), Err(Error::InvalidData));
    // A long block that is shorter than the short one.
    assert_eq!(with(28, 0x78), Err(Error::InvalidData));
    // A long block of 16384 samples.
    assert_eq!(with(28, 0xe8), Err(Error::InvalidData));
    assert_eq!(with(29, 0), Err(Error::InvalidData));
    assert_eq!(with(28, 0xd6).map(|h| h.block_size), Ok([64, 8192]));
    assert_eq!(VorbisIdentificationHeader::load_from_slice(&good[..29]), Err(Error::UnexpectedEof));
    assert_eq!(VorbisIdentificationHeader::load_from_slice(&[]), Err(Error::UnexpectedEof));
    let mut r = BitReader::new(&good[..29]);
    r.read(3).unwrap();
    assert!(VorbisIdentificationHeader::load(&mut r).is_err());
    assert_eq!(r.total_bits(), 3);
}

fn comment_header() -> VorbisCommentHeader {
    VorbisCommentHeader {
        comments: vec![String::from("TITLE=Für Elise"), String::new(), String::from("ARTIST=雅樂 \u{1F3B5}")],
        vendor: String::from("bits 1.0"),
    }
}

#[test]
fn comment_header_roundtrip() {
    let h = comment_header();
    let mut w = BitWriter::new();
    let bits = h.pack(&mut w).unwrap();
    let text_bytes: usize = h.vendor.len() + h.comments.iter().map(|c| c.len()).sum::<usize>();
    assert_eq!(bits, 56 + 32 + 32 + 3 * 32 + 8 * text_bytes + 1);
    let bytes = w.into_bytes();
    assert_eq!(&bytes[..7], b"\x03vorbis");
    assert_eq!(&bytes[7..11], &[8, 0, 0, 0]);
    assert_eq!(&bytes[11..19], b"bits 1.0");
    assert_eq!(&bytes[19..23], &[3, 0, 0, 0]);
    assert_eq!(&bytes[23..27], &[16, 0, 0, 0]);
    assert_eq!(&bytes[27..43], "TITLE=Für Elise".as_bytes());
    assert_eq!(bytes[bytes.len() - 1], 1);
    let mut r = BitReader::new(&bytes);
    assert_eq!(VorbisCommentHeader::load(&mut r), Ok(comment_header()));
    assert_eq!(r.total_bits(), bits);
}

#[test]
fn comment_header_is_checked() {
    let good = {
        let mut w = BitWriter::new();
        comment_header().pack(&mut w).unwrap();
        w.into_bytes()
    };
    let with = |at: usize, value: u8| {
        let mut bytes = good.clone();
        bytes[at] = value;
        let mut r = BitReader::new(&bytes);
        let h = VorbisCommentHeader::load(&mut r);
        assert!(h.is_ok() || r.total_bits() == 0);
        h
    };
    assert_eq!(with(0, 1), Err(Error::InvalidData));
    // The second byte of a character of two bytes is not one.
    assert_eq!(with(35, b'u'), Err(Error::InvalidData));
    // A byte that no character starts with.
    assert_eq!(with(12, 0xff), Err(Error::InvalidData));
    // A length with its highest bit set.
    assert_eq!(with(10, 0x80), Err(Error::InvalidData));
    assert_eq!(with(22, 0xff), Err(Error::InvalidData));
    // A vendor that is longer than the header.
    assert_eq!(with(8, 1), Err(Error::UnexpectedEof));
    assert_eq!(with(good.len() - 1, 0), Err(Error::InvalidData));
    for cut in 0..good.len() {
        let mut r = BitReader::new(&good[..cut]);
        assert_eq!(VorbisCommentHeader::load(&mut r), Err(Error::UnexpectedEof));
    }
    assert_eq!(with(11, b'B').map(|h| h.vendor), Ok(String::from("Bits 1.0")));
}

#[test]
fn mode_on_the_wire() {
    let m = VorbisMode { block_flag: true, window_type: 0, transform_type: 0, mapping: 5 };
    let mut w = BitWriter::new();
    assert_eq!(m.pack(&mut w), Ok(41));
    let bytes = w.into_bytes();
    assert_eq!(bytes, vec![1, 0, 0, 0, 0x0a, 0]);
    let mut r = BitReader::new(&bytes);
    assert_eq!(VorbisMode::load_for_maps(&mut r, 6), Ok(m));
    assert_eq!(r.total_bits(), 41);
    let mut r = BitReader::new(&bytes);
    assert_eq!(VorbisMode::load_for_maps(&mut r, 5), Err(Error::InvalidData));
}

#[test]
fn codebooks_leave_a_setup_header() {
    let bytes = smallest_setup_bytes();
    let out = remove_codebook_from_setup_header(&bytes).unwrap();
    let mut w = BitWriter::new();
    put_magic(&mut w, 5);
    put(&mut w, &[(255, 8)]);
    put(&mut w, &[(0, 6), (0, 16)]);
    put(&mut w, &[(0, 6), (1, 16), (0, 5), (0, 2), (7, 4)]);
    put(&mut w, &[(0, 6), (0, 16), (0, 24), (0, 24), (0, 24), (0, 6), (0, 8), (0, 3), (0, 1)]);
    put(&mut w, &[(0, 6), (0, 16), (0, 1), (0, 1), (0, 2), (0, 8), (0, 8), (0, 8)]);
    put(&mut w, &[(0, 6), (0, 1), (0, 16), (0, 16), (0, 8)]);
    put(&mut w, &[(1, 1)]);
    // The codebook took 75 bits, and what follows it ended 5 bits into
    // the last byte.
    put(&mut w, &[(0, 5)]);
    assert_eq!(out, w.into_bytes());

    let full = remove_codebook_from_setup_header(&full_setup_bytes()).unwrap();
    assert_eq!(&full[..8], b"\x05vorbis\xff");
    assert!(full.len() < full_setup_bytes().len());
}

#[test]
fn codebooks_leave_only_a_setup_header() {
    assert_eq!(remove_codebook_from_setup_header(&[]), Err(Error::InvalidData));
    assert_eq!(remove_codebook_from_setup_header(b"\x05vorbi"), Err(Error::InvalidData));
    assert_eq!(remove_codebook_from_setup_header(b"\x01vorbis\x00"), Err(Error::InvalidData));
    assert_eq!(remove_codebook_from_setup_header(b"\x05vorbis"), Err(Error::UnexpectedEof));
    assert_eq!(remove_codebook_from_setup_header(b"\x05vorbis\x00BCW"), Err(Error::InvalidData));
    assert_eq!(remove_codebook_from_setup_header(b"\x05vorbis\x00BCV\x01"), Err(Error::UnexpectedEof));
    // The count is stored less one: 255 stands for 256 codebooks.
    assert_eq!(remove_codebook_from_setup_header(b"\x05vorbis\xffrest"), Err(Error::InvalidData));
}

#[test]
fn segments_are_sorted_into_headers() {
    let segments: Vec<Vec<u8>> = vec![
        b"\x01vorbis-one".to_vec(),
        b"\x03vorbis-two".to_vec(),
        b"more of two".to_vec(),
        b"\x05vorbis-three".to_vec(),
        b"\x05vorbi".to_vec(),
        b"\x02vorbis".to_vec(),
        Vec::new(),
    ];
    let (one, two, three) = vorbis_headers_from_segments(&segments).unwrap();
    assert_eq!(one, b"\x01vorbis-one".to_vec());
    assert_eq!(two, b"\x03vorbis-twomore of two".to_vec());
    assert_eq!(three, b"\x05vorbis-three\x05vorbi\x02vorbis".to_vec());
    assert_eq!(
        vorbis_headers_from_segments(&Vec::new()),
        Ok((Vec::new(), Vec::new(), Vec::new()))
    );
    assert_eq!(vorbis_headers_from_segments(&vec![b"stray".to_vec()]), Err(Error::InvalidData));
    let again: Vec<Vec<u8>> = vec![b"\x05vorbisA".to_vec(), b"\x01vorbisB".to_vec(), b"\x05vorbisC".to_vec()];
    assert_eq!(
        vorbis_headers_from_segments(&again),
        Ok((b"\x01vorbisB".to_vec(), Vec::new(), b"\x05vorbisA\x05vorbisC".to_vec()))
    );
}

#[test]
fn three_headers_are_parsed() {
    let mut w = BitWriter::new();
    ident(2).pack(&mut w).unwrap();
    let b1 = w.into_bytes();
    let mut w = BitWriter::new();
    comment_header().pack(&mut w).unwrap();
    let b2 = w.into_bytes();
    let b3 = full_setup_bytes();
    let (h1, h2, h3) = parse_vorbis_headers(&b1, &b2, &b3).unwrap();
    assert_eq!(h1, ident(2));
    assert_eq!(h2, comment_header());
    assert_eq!(h3, full_setup());
    assert_eq!(parse_vorbis_headers(&b2, &b2, &b3), Err(Error::InvalidData));
    assert_eq!(parse_vorbis_headers(&b1, &b2[..20], &b3), Err(Error::UnexpectedEof));
    assert_eq!(parse_vorbis_headers(&b1, &b2, &b1), Err(Error::InvalidData));
}
