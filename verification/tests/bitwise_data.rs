use vorbis_bits::bitwise::BitwiseData;
use vorbis_bits::shift::{align, shift_data_to_back, shift_data_to_front};

#[test]
fn align_rounds_up() {
    assert_eq!(align(0, 8), 0);
    assert_eq!(align(1, 8), 8);
    assert_eq!(align(8, 8), 8);
    assert_eq!(align(9, 8), 16);
    assert_eq!(align(17, 4), 20);
    assert_eq!(align(5, 1), 5);
}

#[test]
fn shift_to_front_by_bits() {
    let data = [0b1010_1100u8, 0b0000_0111];
    assert_eq!(shift_data_to_front(&data, 0, 16), data.to_vec());
    assert_eq!(shift_data_to_front(&data, 16, 16), Vec::<u8>::new());
    assert_eq!(shift_data_to_front(&data, 20, 16), Vec::<u8>::new());
    assert_eq!(shift_data_to_front(&data, 8, 16), vec![0b0000_0111u8]);
    assert_eq!(shift_data_to_front(&data, 2, 16), vec![0b1110_1011u8, 0b0000_0001]);
    assert_eq!(shift_data_to_front(&data, 2, 10), vec![0b1110_1011u8]);
    assert_eq!(shift_data_to_front(&data, 9, 16), vec![0b0000_0011u8]);
}

#[test]
fn shift_to_back_by_bits() {
    let data = [0b1010_1100u8, 0b0000_0111];
    assert_eq!(shift_data_to_back(&data, 0, 11), data.to_vec());
    assert_eq!(shift_data_to_back(&data, 8, 11), vec![0u8, 0b1010_1100, 0b0000_0111]);
    assert_eq!(shift_data_to_back(&data, 3, 11), vec![0b0110_0000u8, 0b0011_1101]);
    assert_eq!(shift_data_to_back(&data, 3, 16), vec![0b0110_0000u8, 0b0011_1101, 0]);
}

#[test]
fn new_drops_what_lies_past_the_bits() {
    let d = BitwiseData::new(&[0xff, 0xff, 0xff], 11);
    assert_eq!(d.get_total_bits(), 11);
    assert_eq!(d.get_total_bytes(), 2);
    assert_eq!(d.into_bytes(), vec![0xffu8, 0b0000_0111]);
    let e = BitwiseData::new(&[0xff], 0);
    assert_eq!(e.get_total_bytes(), 0);
    assert_eq!(e, BitwiseData::default());
}

#[test]
fn from_bytes_takes_all_bits() {
    let d = BitwiseData::from_bytes(&[1, 2, 3]);
    assert_eq!(d.get_total_bits(), 24);
    assert_eq!(d.as_bytes(), &[1u8, 2, 3]);
    assert!(d.is_aligned_size());
    assert_eq!(BitwiseData::calc_total_bytes(0), 0);
    assert_eq!(BitwiseData::calc_total_bytes(1), 1);
    assert_eq!(BitwiseData::calc_total_bytes(8), 1);
    assert_eq!(BitwiseData::calc_total_bytes(9), 2);
}

#[test]
fn split_at_the_ends() {
    let d = BitwiseData::new(&[0xa5, 0x01], 9);
    let (a, b) = d.split(0);
    assert_eq!(a.get_total_bits(), 0);
    assert_eq!(b, d);
    let (a, b) = d.split(9);
    assert_eq!(a, d);
    assert_eq!(b.get_total_bits(), 0);
    let (a, b) = d.split(100);
    assert_eq!(a, d);
    assert_eq!(b.get_total_bits(), 0);
}

#[test]
fn split_inside_a_byte() {
    let d = BitwiseData::new(&[0b1010_0101, 0b0000_0001], 9);
    let (a, b) = d.split(3);
    assert_eq!(a.get_total_bits(), 3);
    assert_eq!(a.as_bytes(), &[0b0000_0101u8]);
    assert_eq!(b.get_total_bits(), 6);
    assert_eq!(b.as_bytes(), &[0b0011_0100u8]);
}

#[test]
fn concat_without_a_gap() {
    let mut a = BitwiseData::new(&[0b0000_0101], 3);
    let b = BitwiseData::new(&[0b0011_0100], 6);
    a.concat(&b);
    assert_eq!(a.get_total_bits(), 9);
    assert_eq!(a.as_bytes(), &[0b1010_0101u8, 0b0000_0001]);
    let empty = BitwiseData::default();
    a.concat(&empty);
    assert_eq!(a.get_total_bits(), 9);
    let mut c = BitwiseData::from_bytes(&[0x12]);
    c.concat(&BitwiseData::from_bytes(&[0x34, 0x56]));
    assert_eq!(c.into_bytes(), vec![0x12u8, 0x34, 0x56]);
}

#[test]
fn split_then_concat_gives_the_string_back() {
    let bytes: Vec<u8> = (0..13u32).map(|i| (i * 37 + 11) as u8).collect();
    for total in [0usize, 1, 7, 8, 9, 50, 103, 104] {
        let d = BitwiseData::new(&bytes, total);
        for k in 0..=total {
            let (a, b) = d.split(k);
            assert_eq!(a.get_total_bits(), k);
            assert_eq!(b.get_total_bits(), total - k);
            let mut joined = a.clone();
            joined.concat(&b);
            assert_eq!(joined, d);
        }
    }
}

#[test]
fn fitting_leaves_the_string_as_it_is() {
    let mut d = BitwiseData::new(&[0xff, 0xff], 13);
    let before = d.clone();
    d.fit_to_aligned_size();
    assert_eq!(d, before);
    d.shrink_to_fit();
    assert_eq!(d, before);
    assert_eq!(d.into_bytes(), vec![0xffu8, 0x1f]);
}
