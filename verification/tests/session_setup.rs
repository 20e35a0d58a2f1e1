use vorbis_bits::book::CodeBook;
use vorbis_bits::buffer::IntBuffer;
use vorbis_bits::codebook::StaticCodeBook;
use vorbis_bits::floor::{VorbisFloor0, VorbisFloor1};
use vorbis_bits::residue::VorbisResidue;
use vorbis_bits::residue_look::VorbisLookResidue;
use vorbis_bits::Error;

fn book(dim: i32, lengthlist: Vec<i8>, maptype: i32, quantlist: Vec<i32>) -> StaticCodeBook {
    StaticCodeBook {
        dim,
        entries: lengthlist.len() as i32,
        lengthlist,
        maptype,
        q_min: 0,
        q_delta: 0,
        q_quant: 4,
        q_sequencep: false,
        quantlist,
    }
}

#[test]
fn lattice_values_count_through_the_list() {
    // Nine entries of two dimensions over three quantized values.
    let b = book(2, vec![4, 4, 4, 4, 4, 4, 4, 3, 3], 1, vec![10, 20, 30]);
    assert_eq!(b.book_maptype1_quantvals(), 3);
    assert_eq!(
        b.quantized_values(false),
        Ok(vec![10, 10, 20, 10, 30, 10, 10, 20, 20, 20, 30, 20, 10, 30, 20, 30, 30, 30])
    );
}

#[test]
fn lattice_values_of_the_entries_in_use() {
    let b = book(2, vec![2, 0, 2, 0, 0, 2, 0, 0, 2], 1, vec![10, 20, 30]);
    assert_eq!(b.quantized_values(true), Ok(vec![10, 10, 30, 10, 30, 20, 30, 30]));
    assert_eq!(b.quantized_values(false).map(|v| v.len()), Ok(18));
}

#[test]
fn lattice_with_entries_beyond_the_lattice() {
    // Five entries of two dimensions: two quantized values, and the
    // fifth entry starts over.
    let b = book(2, vec![3, 3, 3, 3, 3], 1, vec![7, -9]);
    assert_eq!(b.quantized_values(false), Ok(vec![7, 7, -9, 7, 7, -9, -9, -9, 7, 7]));
}

#[test]
fn listed_values_are_taken_row_by_row() {
    let b = book(3, vec![1, 0, 1], 2, vec![1, 2, 3, 4, 5, 6, 7, 8, 9]);
    assert_eq!(b.quantized_values(false), Ok(vec![1, 2, 3, 4, 5, 6, 7, 8, 9]));
    assert_eq!(b.quantized_values(true), Ok(vec![1, 2, 3, 7, 8, 9]));
}

#[test]
fn values_need_a_map_and_a_full_list() {
    assert_eq!(book(1, vec![1, 1], 0, vec![]).quantized_values(false), Err(Error::InvalidInput));
    assert_eq!(book(1, vec![1, 1], 3, vec![1, 2]).quantized_values(false), Err(Error::InvalidInput));
    assert_eq!(book(2, vec![1, 1], 2, vec![1, 2, 3]).quantized_values(false), Err(Error::InvalidData));
    // The values that are missing belong to an entry that is not in use.
    assert_eq!(book(2, vec![1, 0], 2, vec![1, 2, 3]).quantized_values(true), Ok(vec![1, 2]));
    assert_eq!(book(2, vec![2, 2, 2, 2], 1, vec![1]).quantized_values(false), Err(Error::InvalidData));
    let mut short = book(1, vec![1], 2, vec![1, 2]);
    short.entries = 2;
    assert_eq!(short.quantized_values(true), Err(Error::InvalidData));
    assert_eq!(short.quantized_values(false), Ok(vec![1, 2]));
    let mut none = book(1, vec![], 1, vec![]);
    none.entries = -3;
    assert_eq!(none.quantized_values(false), Ok(vec![]));
    assert_eq!(book(0, vec![1, 1], 2, vec![]).quantized_values(false), Ok(vec![]));
}

fn floor1(partitions_class: &[i32], class_dim: &[i32], mult: i32, postlist: &[i32]) -> VorbisFloor1 {
    VorbisFloor1 {
        partitions: partitions_class.len() as i32,
        partitions_class: IntBuffer::from_slice(partitions_class),
        class_dim: IntBuffer::from_slice(class_dim),
        class_subs: IntBuffer::from_slice(&vec![0; class_dim.len()]),
        class_book: IntBuffer::from_slice(&vec![0; class_dim.len()]),
        class_subbook: class_dim.iter().map(|_| IntBuffer::from_slice(&[-1])).collect(),
        mult,
        postlist: IntBuffer::from_slice(postlist),
        n: 0,
    }
}

#[test]
fn floor_posts_are_put_in_order() {
    let f = floor1(&[0, 1], &[1, 3], 2, &[0, 128, 64, 32, 96, 16]);
    assert!(f.can_look());
    let look = f.look();
    assert_eq!(look.posts, 6);
    assert_eq!(look.n, 128);
    assert_eq!(look.quant_q, 128);
    assert_eq!(look.forward_index.to_vec(), vec![0, 5, 3, 2, 4, 1]);
    assert_eq!(look.reverse_index.to_vec(), vec![0, 5, 3, 2, 4, 1]);
    assert_eq!(look.sorted_index.to_vec(), vec![0, 16, 32, 64, 96, 128]);
    assert_eq!(look.loneighbor.to_vec(), vec![0, 0, 2, 0]);
    assert_eq!(look.hineighbor.to_vec(), vec![1, 2, 1, 3]);
    assert_eq!((look.phrasebits, look.postbits, look.frames), (0, 0, 0));
}

#[test]
fn floor_posts_at_one_place_keep_their_order() {
    let f = floor1(&[0], &[4], 1, &[5, 9, 5, 9, 7, 5, 100]);
    let look = f.look();
    assert_eq!(look.posts, 6);
    assert_eq!(look.quant_q, 256);
    assert_eq!(look.sorted_index.to_vec(), vec![5, 5, 5, 7, 9, 9]);
    assert_eq!(look.forward_index.to_vec(), vec![0, 2, 5, 4, 1, 3]);
    assert_eq!(look.reverse_index.to_vec(), vec![0, 4, 1, 5, 3, 2]);
    // Below 5 there is nothing; below 9 the first 5; below 7 the first
    // 5; above 7 nothing that is below the second post.
    assert_eq!(look.loneighbor.to_vec(), vec![0, 0, 0, 0]);
    assert_eq!(look.hineighbor.to_vec(), vec![1, 1, 1, 4]);
}

#[test]
fn floor_without_partitions_has_two_posts() {
    let f = floor1(&[], &[], 4, &[0, 256]);
    let look = f.look();
    assert_eq!(look.posts, 2);
    assert_eq!(look.quant_q, 64);
    assert_eq!(look.sorted_index.to_vec(), vec![0, 256]);
    assert_eq!(look.loneighbor.len(), 0);
    assert_eq!(look.hineighbor.len(), 0);
    let three = floor1(&[], &[], 3, &[0, 256]);
    assert_eq!(three.look().quant_q, 86);
}

#[test]
fn floor_that_no_session_can_use() {
    assert!(!floor1(&[0], &[1], 0, &[0, 128, 64]).can_look());
    assert!(!floor1(&[0], &[1], 5, &[0, 128, 64]).can_look());
    assert!(!floor1(&[0], &[1], 1, &[0, 128]).can_look());
    assert!(!floor1(&[1], &[1], 1, &[0, 128, 64]).can_look());
    assert!(!floor1(&[-1], &[1], 1, &[0, 128, 64]).can_look());
    assert!(!floor1(&[0], &[-1], 1, &[0, 128, 64]).can_look());
    let posts: Vec<i32> = (0..80).collect();
    assert!(!floor1(&[0; 8], &[8], 1, &posts).can_look());
    assert!(floor1(&[0; 7], &[8], 1, &posts).can_look());
    let mut f = floor1(&[0], &[1], 1, &[0, 128, 64]);
    f.partitions = 2;
    assert!(!f.can_look());
    f.partitions = 0;
    assert!(f.can_look());
    assert_eq!(f.look().posts, 2);
}

#[test]
fn floor_of_type_0_starts_empty() {
    let f = VorbisFloor0 { order: 8, rate: 16, barkmap: 10, ampbits: 6, ampdB: 40, books: IntBuffer::from_slice(&[1]) };
    let look = f.look();
    assert_eq!(look.ln, 10);
    assert_eq!(look.m, 8);
    assert!(look.linearmap.is_empty());
    assert_eq!(look.n, [0, 0]);
    assert_eq!((look.bits, look.frames), (0, 0));
}

fn session_books() -> Vec<CodeBook> {
    let pair = book(2, vec![3, 3, 3, 3, 3, 3, 3, 4, 4], 0, vec![]);
    let single = book(1, vec![1, 1], 0, vec![]);
    let four = book(4, vec![1, 1], 0, vec![]);
    vec![
        CodeBook::new_for_decode(&pair).unwrap(),
        CodeBook::new_for_decode(&single).unwrap(),
        CodeBook::new_for_decode(&four).unwrap(),
    ]
}

fn residue(partitions: i32, groupbook: i32, stages: &[i32], booklist: &[i32]) -> VorbisResidue {
    VorbisResidue {
        residue_type: 1,
        begin: 0,
        end: 128,
        grouping: 8,
        partitions,
        partvals: 0,
        groupbook,
        secondstages: IntBuffer::from_slice(stages),
        booklist: IntBuffer::from_slice(booklist),
        classmetric1: [0; 64],
        classmetric2: [0; 64],
    }
}

#[test]
fn residue_passes_get_their_books() {
    let books = session_books();
    let r = residue(3, 0, &[0b101, 0, 0b10], &[1, 2, 1]);
    assert!(VorbisLookResidue::can_look(&r, &books));
    let look = VorbisLookResidue::look(&r, &books);
    assert_eq!(look.parts, 3);
    assert_eq!(look.stages, 3);
    assert_eq!(look.phrasebook, 0);
    assert_eq!(look.partbooks, vec![vec![Some(1), None, Some(2)], vec![], vec![None, Some(1)]]);
    assert_eq!(look.partvals, 9);
    assert_eq!(
        look.decodemap,
        vec![
            vec![0, 0],
            vec![0, 1],
            vec![0, 2],
            vec![1, 0],
            vec![1, 1],
            vec![1, 2],
            vec![2, 0],
            vec![2, 1],
            vec![2, 2]
        ]
    );
    assert_eq!((look.postbits, look.phrasebits, look.frames), (0, 0, 0));
}

#[test]
fn residue_with_one_class() {
    let books = session_books();
    let r = residue(1, 1, &[0xff], &[0, 1, 2, 0, 1, 2, 0, 1]);
    let look = VorbisLookResidue::look(&r, &books);
    assert_eq!(look.stages, 8);
    assert_eq!(
        look.partbooks,
        vec![vec![Some(0), Some(1), Some(2), Some(0), Some(1), Some(2), Some(0), Some(1)]]
    );
    assert_eq!(look.partvals, 1);
    assert_eq!(look.decodemap, vec![vec![0]]);
}

#[test]
fn residue_that_no_session_can_use() {
    let books = session_books();
    assert!(!VorbisLookResidue::can_look(&residue(3, 3, &[1, 0, 2], &[1, 2]), &books));
    assert!(!VorbisLookResidue::can_look(&residue(3, -1, &[1, 0, 2], &[1, 2]), &books));
    assert!(!VorbisLookResidue::can_look(&residue(0, 0, &[1, 0, 2], &[1, 2]), &books));
    assert!(!VorbisLookResidue::can_look(&residue(4, 0, &[1, 0, 2], &[1, 2]), &books));
    assert!(!VorbisLookResidue::can_look(&residue(3, 0, &[1, -1, 2], &[1, 2]), &books));
    assert!(!VorbisLookResidue::can_look(&residue(3, 0, &[1, 0, 3], &[1, 2]), &books));
    assert!(!VorbisLookResidue::can_look(&residue(3, 0, &[1, 0, 2], &[1, 3]), &books));
    assert!(!VorbisLookResidue::can_look(&residue(3, 0, &[1, 0, 2], &[-1, 2]), &books));
    assert!(VorbisLookResidue::can_look(&residue(3, 0, &[1, 0, 2], &[1, 2, 77]), &books));
    // 512 classes in four dimensions are more combinations than fit.
    let mut wide = residue(512, 2, &[0; 512], &[]);
    assert!(!VorbisLookResidue::can_look(&wide, &books));
    wide.groupbook = 0;
    assert!(VorbisLookResidue::can_look(&wide, &books));
    wide.groupbook = 2;
    wide.partitions = 215;
    assert!(VorbisLookResidue::can_look(&wide, &books));
    wide.partitions = 216;
    assert!(!VorbisLookResidue::can_look(&wide, &books));
}
