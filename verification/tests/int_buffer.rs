use vorbis_bits::buffer::{IntBuffer, BUFFER_LIMIT};
use vorbis_bits::utils::NestVecFormatter;

#[test]
fn buffer_starts_empty() {
    let b = IntBuffer::new();
    assert_eq!(b.len(), 0);
    assert_eq!(b.get(0), None);
    assert_eq!(b.to_vec(), Vec::<i32>::new());
    assert_eq!(b, IntBuffer::from_slice(&[]));
}

#[test]
fn buffer_keeps_what_is_pushed() {
    let mut b = IntBuffer::new();
    assert!(b.push(7));
    assert!(b.push(-3));
    assert!(b.push(i32::MAX));
    assert_eq!(b.len(), 3);
    assert_eq!(b.get(0), Some(7));
    assert_eq!(b.get(1), Some(-3));
    assert_eq!(b.get(2), Some(i32::MAX));
    assert_eq!(b.get(3), None);
    assert_eq!(b.at(1), -3);
    assert_eq!(b.to_vec(), vec![7, -3, i32::MAX]);
    b.set(1, 11);
    assert_eq!(b.to_vec(), vec![7, 11, i32::MAX]);
    assert_eq!(b.len(), 3);
}

#[test]
fn buffer_takes_no_more_than_its_limit() {
    let mut b = IntBuffer::new();
    for i in 0..BUFFER_LIMIT {
        assert!(b.push(i as i32));
    }
    assert_eq!(b.len(), 512);
    assert!(!b.push(1));
    assert_eq!(b.len(), 512);
    assert_eq!(b.at(511), 511);
    let all: Vec<i32> = (0..512).collect();
    let full = IntBuffer::from_slice(&all);
    assert_eq!(full.len(), 512);
    assert_eq!(full, b);
    assert_eq!(full.to_vec(), all);
}

#[test]
fn buffer_resize_fills_and_cuts() {
    let mut b = IntBuffer::from_slice(&[1, 2, 3]);
    b.resize(5, 9);
    assert_eq!(b.to_vec(), vec![1, 2, 3, 9, 9]);
    b.resize(2, 4);
    assert_eq!(b.to_vec(), vec![1, 2]);
    b.resize(3, 4);
    assert_eq!(b.to_vec(), vec![1, 2, 4]);
    b.resize(BUFFER_LIMIT, 0);
    assert_eq!(b.len(), 512);
    assert_eq!(b.at(2), 4);
    assert_eq!(b.at(511), 0);
    b.resize(0, 0);
    assert_eq!(b.len(), 0);
}

#[test]
fn buffer_copies_are_equal_and_apart() {
    let a = IntBuffer::from_slice(&[4, 5, 6]);
    let mut b = a.clone();
    assert_eq!(a, b);
    b.set(0, 0);
    assert_ne!(a, b);
    assert_eq!(a.to_vec(), vec![4, 5, 6]);
    assert_eq!(b.to_vec(), vec![0, 5, 6]);
    assert_ne!(IntBuffer::from_slice(&[1]), IntBuffer::from_slice(&[1, 0]));
}

#[test]
fn lists_are_wrapped_one_by_one() {
    let flat = vec![1, 2, 3];
    let _one = NestVecFormatter::new(&flat);
    let nested = vec![vec![1u8, 2], vec![], vec![3]];
    assert_eq!(NestVecFormatter::new_level1(&nested).len(), 3);
    let deep = vec![vec![vec![1i8], vec![2, 3]], vec![]];
    let wrapped = NestVecFormatter::new_level2(&deep);
    assert_eq!(wrapped.len(), 2);
    assert_eq!(wrapped[0].len(), 2);
    assert_eq!(wrapped[1].len(), 0);
}
