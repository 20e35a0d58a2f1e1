use vorbis_bits::reader::BitReader;
use vorbis_bits::writer::{BitWriter, CACHE_SIZE};
use vorbis_bits::Error;

#[test]
fn read_fields_across_bytes() {
    let data = [0b1010_0101u8, 0xff, 0x01];
    let mut r = BitReader::new(&data);
    assert_eq!(r.read(4), Ok(0b0101));
    assert_eq!(r.read(8), Ok(0xfa));
    assert_eq!(r.read(0), Ok(0));
    assert_eq!(r.read(12), Ok(0x01f));
    assert_eq!(r.total_bits(), 24);
    assert_eq!(r.remaining_bits(), 0);
    assert_eq!(r.read(1), Err(Error::UnexpectedEof));
    assert_eq!(r.read(0), Ok(0));
}

#[test]
fn read_refuses_bad_widths() {
    let data = [0u8; 8];
    let mut r = BitReader::new(&data);
    assert_eq!(r.read(33), Err(Error::InvalidInput));
    assert_eq!(r.read(-1), Err(Error::InvalidInput));
    assert_eq!(r.total_bits(), 0);
    assert_eq!(r.read(32), Ok(0));
}

#[test]
fn read_is_least_significant_bit_first() {
    let data = [0b0000_0001u8, 0b1000_0000];
    let mut r = BitReader::new(&data);
    assert_eq!(r.read(1), Ok(1));
    assert_eq!(r.read(14), Ok(0));
    assert_eq!(r.read(1), Ok(1));
    assert_eq!(r.cursor(), 2);
    assert_eq!(r.endbit(), 0);
}

#[test]
fn read_thirty_two_bits_at_an_offset_takes_five_bytes() {
    let data = [0xf0u8, 0xff, 0xff, 0xff, 0x0f];
    let mut r = BitReader::new(&data);
    assert_eq!(r.read(4), Ok(0));
    assert_eq!(r.read(32), Ok(-1));
    assert_eq!(r.read(4), Ok(0));
    assert_eq!(r.cursor(), 5);
}

#[test]
fn failed_read_leaves_the_reader_in_place() {
    let data = [0xabu8, 0xcd];
    let mut r = BitReader::new(&data);
    assert_eq!(r.read(12), Ok(0xdab));
    assert_eq!(r.read(5), Err(Error::UnexpectedEof));
    assert_eq!(r.total_bits(), 12);
    assert_eq!(r.read(4), Ok(0xc));
}

#[test]
fn write_then_read_back() {
    let fields: [(u32, i32); 7] =
        [(1, 1), (0x564342, 24), (0, 0), (0xffff_ffff, 32), (5, 3), (0x1234, 16), (1, 1)];
    let mut w = BitWriter::new();
    for (v, bits) in fields.iter() {
        assert_eq!(w.write(*v, *bits), Ok(()));
    }
    let total = w.total_bits();
    assert_eq!(total, 77);
    let bytes = w.into_bytes();
    assert_eq!(bytes.len(), 10);
    let mut r = BitReader::new(&bytes);
    for (v, bits) in fields.iter() {
        assert_eq!(r.read(*bits), Ok(*v as i32));
    }
    assert_eq!(r.total_bits(), total);
}

#[test]
fn write_masks_the_value_to_its_width() {
    let mut w = BitWriter::new();
    assert_eq!(w.write(0xffff_ffff, 3), Ok(()));
    assert_eq!(w.write(0, 5), Ok(()));
    assert_eq!(w.into_bytes(), vec![0b0000_0111u8]);
}

#[test]
fn write_refuses_bad_widths() {
    let mut w = BitWriter::new();
    assert_eq!(w.write(1, 33), Err(Error::InvalidInput));
    assert_eq!(w.write(1, -1), Err(Error::InvalidInput));
    assert_eq!(w.total_bits(), 0);
    assert_eq!(w.into_bytes(), Vec::<u8>::new());
}

#[test]
fn whole_bytes_give_no_extra_byte() {
    let mut w = BitWriter::new();
    assert_eq!(w.write(0xff, 8), Ok(()));
    w.flush();
    assert_eq!(w.write(0xaa, 8), Ok(()));
    assert_eq!(w.endbit(), 0);
    assert_eq!(w.into_bytes(), vec![0xffu8, 0xaa]);
}

#[test]
fn flush_keeps_the_partial_byte() {
    let mut w = BitWriter::new();
    assert_eq!(w.write(0b101, 3), Ok(()));
    w.flush();
    assert_eq!(w.write(0b11111, 5), Ok(()));
    w.flush();
    assert_eq!(w.write(1, 1), Ok(()));
    assert_eq!(w.total_bits(), 9);
    assert_eq!(w.into_bytes(), vec![0b1111_1101u8, 0b0000_0001]);
}

#[test]
fn force_flush_pads_to_a_byte() {
    let mut w = BitWriter::new();
    assert_eq!(w.write(1, 1), Ok(()));
    w.force_flush();
    assert_eq!(w.endbit(), 0);
    assert_eq!(w.total_bits(), 1);
    assert_eq!(w.write(1, 1), Ok(()));
    assert_eq!(w.into_bytes(), vec![1u8, 1]);
}

#[test]
fn long_streams_pass_the_cache() {
    let mut w = BitWriter::new();
    let n = 3 * CACHE_SIZE + 5;
    for i in 0..n {
        assert_eq!(w.write((i % 251) as u32, 7), Ok(()));
    }
    assert_eq!(w.total_bits(), 7 * n);
    let bytes = w.into_bytes();
    assert_eq!(bytes.len(), (7 * n + 7) / 8);
    let mut r = BitReader::new(&bytes);
    for i in 0..n {
        assert_eq!(r.read(7), Ok(((i % 251) & 0x7f) as i32));
    }
}

#[test]
fn error_messages() {
    assert_eq!(Error::InvalidData.message(), "invalid data");
    assert_eq!(Error::UnexpectedEof.message(), "unexpected end of data");
    assert_eq!(Error::InvalidInput.message(), "invalid input");
}
