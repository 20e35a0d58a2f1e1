use vorbis_bits::books::{StaticCodeBooks, StaticCodeBooksPacked};
use vorbis_bits::bitwise::BitwiseData;
use vorbis_bits::codebook::StaticCodeBook;
use vorbis_bits::reader::BitReader;
use vorbis_bits::writer::BitWriter;
use vorbis_bits::Error;

fn plain_book(dim: i32, lengthlist: Vec<i8>) -> StaticCodeBook {
    StaticCodeBook {
        dim,
        entries: lengthlist.len() as i32,
        lengthlist,
        maptype: 0,
        q_min: 0,
        q_delta: 0,
        q_quant: 0,
        q_sequencep: false,
        quantlist: Vec::new(),
    }
}

fn packed(book: &StaticCodeBook) -> (Vec<u8>, usize) {
    let mut w = BitWriter::new();
    let bits = book.pack(&mut w).unwrap();
    assert_eq!(w.total_bits(), bits);
    (w.into_bytes(), bits)
}

fn roundtrip(book: &StaticCodeBook) -> usize {
    let (bytes, bits) = packed(book);
    let mut r = BitReader::new(&bytes);
    let loaded = StaticCodeBook::load(&mut r).unwrap();
    assert_eq!(&loaded, book);
    assert_eq!(r.total_bits(), bits);
    bits
}

#[test]
fn trivial_book_on_the_wire() {
    let book = plain_book(1, vec![1]);
    let (bytes, bits) = packed(&book);
    assert_eq!(bits, 75);
    assert_eq!(bytes, vec![0x42u8, 0x43, 0x56, 0x01, 0x00, 0x01, 0x00, 0x00, 0x41, 0x00]);
    assert_eq!(roundtrip(&book), 75);
}

#[test]
fn lengths_in_each_form() {
    // Runs, with a length that no entry has.
    assert_eq!(roundtrip(&plain_book(1, vec![1, 3, 3, 3, 3])), 24 + 16 + 24 + 1 + 5 + 3 + 3 + 3 + 4);
    // One field for each entry.
    assert_eq!(roundtrip(&plain_book(2, vec![2, 2, 1])), 24 + 16 + 24 + 2 + 3 * 5 + 4);
    // A flag and a field for each used entry.
    assert_eq!(roundtrip(&plain_book(1, vec![1, 0, 2, 2])), 24 + 16 + 24 + 2 + 4 + 3 * 5 + 4);
    // No entries at all.
    assert_eq!(roundtrip(&plain_book(3, vec![])), 24 + 16 + 24 + 2 + 4);
    // The longest codewords.
    assert_eq!(roundtrip(&plain_book(1, vec![32, 32])), 24 + 16 + 24 + 1 + 5 + 2 + 4);
}

#[test]
fn lattice_book_roundtrip() {
    let book = StaticCodeBook {
        dim: 2,
        entries: 4,
        lengthlist: vec![2, 2, 2, 2],
        maptype: 1,
        q_min: 0xc000_0000,
        q_delta: 0x3f80_0000,
        q_quant: 2,
        q_sequencep: true,
        quantlist: vec![0, 3],
    };
    assert_eq!(book.book_maptype1_quantvals(), 2);
    assert_eq!(roundtrip(&book), 24 + 16 + 24 + 1 + 5 + 3 + 4 + 32 + 32 + 4 + 1 + 2 * 2);
}

#[test]
fn listed_values_roundtrip() {
    let book = StaticCodeBook {
        dim: 2,
        entries: 2,
        lengthlist: vec![1, 1],
        maptype: 2,
        q_min: 1,
        q_delta: 0xffff_ffff,
        q_quant: 16,
        q_sequencep: false,
        quantlist: vec![0, 65535, 7, 1],
    };
    assert_eq!(roundtrip(&book), 24 + 16 + 24 + 1 + 5 + 2 + 4 + 32 + 32 + 4 + 1 + 4 * 16);
}

#[test]
fn load_refuses_a_bad_magic() {
    let mut bytes = packed(&plain_book(1, vec![1])).0;
    bytes[0] = 0x43;
    let mut r = BitReader::new(&bytes);
    assert_eq!(StaticCodeBook::load(&mut r), Err(Error::InvalidData));
    assert_eq!(r.total_bits(), 0);
}

#[test]
fn load_refuses_a_truncated_book() {
    let bytes = packed(&plain_book(1, vec![1, 3, 3, 3, 3])).0;
    for cut in 0..bytes.len() {
        let mut r = BitReader::new(&bytes[..cut]);
        assert_eq!(StaticCodeBook::load(&mut r), Err(Error::UnexpectedEof));
        assert_eq!(r.total_bits(), 0);
    }
}

#[test]
fn load_refuses_too_many_values() {
    // A dimension of 16 bits and 512 entries: 16 + 10 bits are more than 24.
    let mut w = BitWriter::new();
    w.write(0x564342, 24).unwrap();
    w.write(0x8000, 16).unwrap();
    w.write(512, 24).unwrap();
    w.write(0, 32).unwrap();
    let bytes = w.into_bytes();
    let mut r = BitReader::new(&bytes);
    assert_eq!(StaticCodeBook::load(&mut r), Err(Error::InvalidData));
}

#[test]
fn load_refuses_an_unknown_map_type() {
    let mut w = BitWriter::new();
    w.write(0x564342, 24).unwrap();
    w.write(1, 16).unwrap();
    w.write(1, 24).unwrap();
    w.write(1, 1).unwrap();
    w.write(0, 5).unwrap();
    w.write(1, 1).unwrap();
    w.write(3, 4).unwrap();
    w.write(0, 32).unwrap();
    let bytes = w.into_bytes();
    let mut r = BitReader::new(&bytes);
    assert_eq!(StaticCodeBook::load(&mut r), Err(Error::InvalidData));
}

#[test]
fn load_refuses_a_run_that_is_too_long() {
    // Four entries of length 1, where only two codewords of one bit exist.
    let mut w = BitWriter::new();
    w.write(0x564342, 24).unwrap();
    w.write(1, 16).unwrap();
    w.write(4, 24).unwrap();
    w.write(1, 1).unwrap();
    w.write(0, 5).unwrap();
    w.write(4, 3).unwrap();
    w.write(0, 4).unwrap();
    let bytes = w.into_bytes();
    let mut r = BitReader::new(&bytes);
    assert_eq!(StaticCodeBook::load(&mut r), Err(Error::InvalidData));
    // A run of more entries than are left.
    let mut w = BitWriter::new();
    w.write(0x564342, 24).unwrap();
    w.write(1, 16).unwrap();
    w.write(2, 24).unwrap();
    w.write(1, 1).unwrap();
    w.write(1, 5).unwrap();
    w.write(3, 2).unwrap();
    w.write(0, 4).unwrap();
    let bytes = w.into_bytes();
    let mut r = BitReader::new(&bytes);
    assert_eq!(StaticCodeBook::load(&mut r), Err(Error::InvalidData));
}

#[test]
fn pack_refuses_what_cannot_be_packed() {
    let mut w = BitWriter::new();
    let mut book = plain_book(1, vec![1]);
    book.maptype = 5;
    assert_eq!(book.pack(&mut w), Err(Error::InvalidData));
    book.maptype = 1;
    assert_eq!(book.pack(&mut w), Err(Error::InvalidData));
    book.quantlist = vec![1];
    book.q_quant = 40;
    assert_eq!(book.pack(&mut w), Err(Error::InvalidInput));
    book.q_quant = 4;
    book.entries = 2;
    assert_eq!(book.pack(&mut w), Err(Error::InvalidData));
    assert_eq!(w.total_bits(), 0);
    assert_eq!(w.into_bytes(), Vec::<u8>::new());
}

#[test]
fn quantvals_is_the_integer_root() {
    let mut book = plain_book(2, vec![]);
    let cases: [(i32, i32, i32); 14] = [
        (256, 2, 16),
        (125, 3, 5),
        (1, 1, 1),
        (100, 1, 100),
        (8, 3, 2),
        (7, 3, 1),
        (26, 3, 2),
        (27, 3, 3),
        (16777215, 1, 16777215),
        (16777215, 24, 1),
        (16777216, 24, 2),
        (0, 3, 0),
        (-4, 2, 0),
        (5, 0, 0),
    ];
    for (entries, dim, vals) in cases.iter() {
        book.entries = *entries;
        book.dim = *dim;
        let v = book.book_maptype1_quantvals();
        assert_eq!(v, *vals);
        if *entries >= 1 && *dim >= 1 {
            let (e, v) = (*entries as i128, v as i128);
            assert!(v.pow(*dim as u32) <= e && e < (v + 1).pow(*dim as u32));
        }
    }
}

#[test]
fn books_section_roundtrip() {
    let books = vec![plain_book(1, vec![1]), plain_book(2, vec![2, 2, 1, 3, 3]), plain_book(1, vec![1, 0, 1])];
    let mut w = BitWriter::new();
    w.write(2, 8).unwrap();
    let mut sizes = Vec::new();
    for b in books.iter() {
        sizes.push(b.pack(&mut w).unwrap());
    }
    let total = w.total_bits();
    let bytes = w.into_bytes();
    let section = StaticCodeBooks::load_from_slice(&bytes).unwrap();
    assert_eq!(section.len(), 3);
    assert!(!section.is_empty());
    assert_eq!(section.books, books);
    assert_eq!(section.bits_of_books, sizes);
    assert_eq!(section.get_total_bits(), total);
    assert_eq!(section.get_total_bytes(), (total + 7) / 8);

    let packed = section.to_packed_codebooks().unwrap();
    assert_eq!(packed.get_total_bits(), total);
    assert_eq!(packed.get_total_bytes(), bytes.len());
    assert_eq!(packed.bits_of_books, sizes);
    assert_eq!(packed.books.as_bytes(), &bytes[..]);
    assert!(packed.is_aligned_size());
    assert_eq!(packed.unpack().unwrap(), section);

    let mut w = BitWriter::new();
    assert_eq!(section.pack(&mut w), Ok(total));
    assert_eq!(w.into_bytes(), bytes);

    // The pieces are the packed books.
    let pieces = packed.split();
    assert_eq!(pieces.len(), 3);
    let mut again = StaticCodeBooksPacked::empty();
    again.concat(&BitwiseData::from_bytes(&[2]));
    again.bits_of_books.clear();
    for (piece, book) in pieces.iter().zip(books.iter()) {
        let mut w = BitWriter::new();
        let bits = book.pack(&mut w).unwrap();
        assert_eq!(piece, &BitwiseData::new(&w.into_bytes(), bits));
        again.concat(piece);
    }
    assert_eq!(again, packed);
    assert_eq!(again.into_bytes(), bytes);
}

#[test]
fn empty_section_is_one_byte() {
    let empty = StaticCodeBooks::empty();
    let packed = empty.to_packed_codebooks().unwrap();
    assert_eq!(packed.get_total_bits(), 8);
    assert_eq!(packed.split(), Vec::<BitwiseData>::new());
    assert_eq!(packed.into_bytes(), vec![0xffu8]);
}

#[test]
fn section_fails_with_its_first_bad_book() {
    let good = packed(&plain_book(1, vec![1])).0;
    let mut bytes = vec![1u8];
    bytes.extend_from_slice(&good);
    let mut r = BitReader::new(&bytes);
    assert_eq!(StaticCodeBooks::load(&mut r), Err(Error::UnexpectedEof));
    assert_eq!(r.total_bits(), 0);
    let mut section = StaticCodeBooks::empty();
    let mut bad = plain_book(1, vec![1]);
    bad.maptype = 9;
    section.books.push(plain_book(1, vec![1]));
    section.books.push(bad);
    assert_eq!(section.to_packed_codebooks(), Err(Error::InvalidData));
}

#[test]
fn a_single_unused_entry_does_not_come_back() {
    // The form of runs stores the first length less one in 5 bits, and
    // has no way to say that the only entry is not used.
    let book = plain_book(1, vec![0]);
    let (bytes, bits) = packed(&book);
    assert_eq!(bits, 75);
    let mut r = BitReader::new(&bytes);
    let loaded = StaticCodeBook::load(&mut r).unwrap();
    assert_eq!(loaded.lengthlist, vec![32]);
    assert_eq!(r.total_bits(), 75);
}

#[test]
fn fitting_a_packed_section_keeps_its_bytes() {
    let mut section = StaticCodeBooks::empty();
    section.books.push(plain_book(1, vec![1]));
    section.books.push(plain_book(2, vec![2, 2, 1, 3, 3]));
    let mut packed = section.to_packed_codebooks().unwrap();
    let bits = packed.get_total_bits();
    assert_eq!(bits, 8 + 75 + 95);
    assert_eq!(bits % 8, 2);
    let bytes = packed.books.as_bytes().to_vec();
    assert_eq!(bytes.len(), (bits + 7) / 8);
    assert_eq!(bytes[bytes.len() - 1] >> 2, 0);

    packed.fit_to_aligned_size();
    assert_eq!(packed.books.as_bytes(), &bytes[..]);
    assert_eq!(packed.books.as_bytes().len(), (bits + 7) / 8);
    assert_eq!(packed.get_total_bits(), bits);
    assert!(packed.is_aligned_size());

    packed.shrink_to_fit();
    assert_eq!(packed.books.as_bytes(), &bytes[..]);
    assert_eq!(packed.get_total_bytes(), bytes.len());
    assert_eq!(packed.get_total_bits(), bits);
    assert_eq!(packed.bits_of_books, vec![75, bits - 8 - 75]);
    assert!(packed.is_aligned_size());
    assert_eq!(packed.unpack().unwrap().books, section.books);
}
