use vorbis_bits::bitwise::BitwiseData;
use vorbis_bits::book::CodeBook;
use vorbis_bits::books::{StaticCodeBooks, StaticCodeBooksPacked};
use vorbis_bits::buffer::IntBuffer;
use vorbis_bits::codebook::StaticCodeBook;
use vorbis_bits::floor::VorbisFloor0;
use vorbis_bits::headers::{VorbisCommentHeader, VorbisIdentificationHeader, VorbisMode};
use vorbis_bits::mapping::VorbisMapping;
use vorbis_bits::setup::VorbisSetupHeader;
use vorbis_bits::writer::{BitWriter, BitWriterCursor};

#[test]
fn defaults_hold_nothing() {
    let ident = VorbisIdentificationHeader::default();
    assert_eq!((ident.version, ident.channels, ident.sample_rate), (0, 0, 0));
    assert_eq!((ident.bitrate_upper, ident.bitrate_nominal, ident.bitrate_lower), (0, 0, 0));
    assert_eq!(ident.block_size, [0, 0]);
    let comment = VorbisCommentHeader::default();
    assert_eq!(comment.vendor, "");
    assert!(comment.comments.is_empty());
    assert_eq!(
        VorbisMode::default(),
        VorbisMode { block_flag: false, window_type: 0, transform_type: 0, mapping: 0 }
    );
    let setup = VorbisSetupHeader::default();
    assert!(setup.static_codebooks.is_empty() && setup.floors.is_empty() && setup.residues.is_empty());
    assert!(setup.maps.is_empty() && setup.modes.is_empty());
    let book = StaticCodeBook::default();
    assert_eq!((book.dim, book.entries, book.maptype, book.q_quant), (0, 0, 0, 0));
    assert!(book.lengthlist.is_empty() && book.quantlist.is_empty() && !book.q_sequencep);
    assert_eq!(StaticCodeBooks::default(), StaticCodeBooks::empty());
    assert_eq!(StaticCodeBooksPacked::default(), StaticCodeBooksPacked::empty());
    assert_eq!(StaticCodeBooksPacked::default().get_total_bits(), 0);
    let session = CodeBook::default();
    assert_eq!((session.dim, session.entries, session.used_entries), (0, 0, 0));
    assert!(session.static_codebook.is_none() && session.code_list.is_empty());
    assert_eq!(session.decode_entry(0), None);
    let map = VorbisMapping::default();
    assert_eq!((map.mapping_type, map.submaps, map.coupling_steps), (0, 0, 0));
    assert_eq!(map.chmuxlist.len() + map.floorsubmap.len() + map.residuesubmap.len(), 0);
    assert_eq!(map.coupling_mag.len() + map.coupling_ang.len(), 0);
    let floor = VorbisFloor0::default();
    assert_eq!((floor.order, floor.rate, floor.barkmap, floor.ampbits, floor.ampdB), (0, 0, 0, 0, 0));
    assert_eq!(floor.books, IntBuffer::new());
    assert_eq!(IntBuffer::default(), IntBuffer::new());
    assert_eq!(BitwiseData::default(), BitwiseData::empty());
}

#[test]
fn copies_are_equal() {
    let book = StaticCodeBook {
        dim: 2,
        entries: 4,
        lengthlist: vec![2, 2, 2, 2],
        maptype: 1,
        q_min: 7,
        q_delta: 9,
        q_quant: 2,
        q_sequencep: true,
        quantlist: vec![0, 3],
    };
    assert_eq!(book.clone(), book);
    let session = CodeBook::new_for_decode(&book).unwrap();
    assert_eq!(session.clone(), session);
    let mut setup = VorbisSetupHeader::default();
    setup.static_codebooks.push(book.clone());
    setup.maps.push(VorbisMapping::default());
    let copy = setup.clone();
    assert_eq!(copy, setup);
    setup.static_codebooks[0].dim = 3;
    assert_ne!(copy, setup);
    let data = BitwiseData::new(&[0xff, 0xff], 11);
    assert_eq!(data.clone(), data);
    assert_eq!(data.clone().into_bytes(), vec![0xff, 0x07]);
}

#[test]
fn writer_into_memory() {
    let mut w: BitWriterCursor = BitWriter::new();
    w.write(0x1ff, 9).unwrap();
    assert_eq!(w.total_bits(), 9);
    assert_eq!(w.endbit(), 1);
    assert_eq!(w.into_bytes(), vec![0xff, 0x01]);
}
