use vorbis_bits::book::CodeBook;
use vorbis_bits::codebook::StaticCodeBook;
use vorbis_bits::huffman::{bitreverse, make_words};
use vorbis_bits::Error;

fn book(lengthlist: Vec<i8>) -> StaticCodeBook {
    StaticCodeBook {
        dim: 1,
        entries: lengthlist.len() as i32,
        lengthlist,
        maptype: 0,
        q_min: 0,
        q_delta: 0,
        q_quant: 0,
        q_sequencep: false,
        quantlist: Vec::new(),
    }
}

#[test]
fn bitreverse_turns_a_word_around() {
    assert_eq!(bitreverse(0), 0);
    assert_eq!(bitreverse(1), 0x8000_0000);
    assert_eq!(bitreverse(0x8000_0000), 1);
    assert_eq!(bitreverse(0x1234_5678), 0x1e6a_2c48);
    assert_eq!(bitreverse(0xffff_ffff), 0xffff_ffff);
    assert_eq!(bitreverse(bitreverse(0xdead_beef)), 0xdead_beef);
}

#[test]
fn words_of_sorted_lengths() {
    assert_eq!(make_words(&[1, 2, 3, 3], 4, 0), Ok(vec![0, 1, 3, 7]));
    assert_eq!(make_words(&[2, 2, 2, 2], 4, 0), Ok(vec![0, 2, 1, 3]));
}

#[test]
fn words_of_lengths_in_any_order() {
    assert_eq!(make_words(&[3, 3, 1, 2], 4, 0), Ok(vec![0, 4, 1, 2]));
    assert_eq!(make_words(&[2, 1, 3, 3], 4, 0), Ok(vec![0, 1, 2, 6]));
}

#[test]
fn words_take_only_the_first_entries() {
    assert_eq!(make_words(&[1, 1, 5, 5, 5], 2, 0), Ok(vec![0, 1]));
}

#[test]
fn unused_entries_keep_or_lose_their_place() {
    assert_eq!(make_words(&[2, 0, 2, 2, 0, 2], 6, 0), Ok(vec![0, 0, 2, 1, 0, 3]));
    assert_eq!(make_words(&[2, 0, 2, 2, 0, 2], 6, 4), Ok(vec![0, 2, 1, 3]));
    assert_eq!(make_words(&[2, 0, 2, 2, 0, 2], 6, 6), Ok(vec![0, 2, 1, 3, 0, 0]));
    assert_eq!(make_words(&[0, 0], 2, 0), Ok(vec![0, 0]));
}

#[test]
fn overfull_trees_are_refused() {
    assert_eq!(make_words(&[1, 1, 1], 3, 0), Err(Error::InvalidData));
    assert_eq!(make_words(&[1, 2, 2, 3], 4, 0), Err(Error::InvalidData));
    assert_eq!(make_words(&[32, 1, 1], 3, 0), Err(Error::InvalidData));
}

#[test]
fn trees_with_gaps_are_refused() {
    assert_eq!(make_words(&[1, 0], 2, 0), Err(Error::InvalidData));
    assert_eq!(make_words(&[2, 2, 2], 3, 0), Err(Error::InvalidData));
    assert_eq!(make_words(&[1, 2], 2, 0), Err(Error::InvalidData));
    assert_eq!(make_words(&[2], 1, 0), Err(Error::InvalidData));
    assert_eq!(make_words(&[32], 1, 0), Err(Error::InvalidData));
}

#[test]
fn the_single_codeword_of_one_bit_is_allowed() {
    assert_eq!(make_words(&[1], 1, 0), Ok(vec![0]));
    assert_eq!(make_words(&[0, 1, 0], 3, 1), Ok(vec![0]));
}

#[test]
fn lengths_out_of_range_are_refused() {
    assert_eq!(make_words(&[33], 1, 0), Err(Error::InvalidData));
    assert_eq!(make_words(&[-1, 1], 2, 0), Err(Error::InvalidData));
}

#[test]
fn longest_codewords() {
    let mut lengths: Vec<i8> = (1..=31).collect();
    lengths.push(32);
    lengths.push(32);
    let words = make_words(&lengths, 33, 0).unwrap();
    assert_eq!(words[0], 0);
    assert_eq!(words[1], 0b01);
    assert_eq!(words[30], 0x3fff_ffff);
    assert_eq!(words[31], 0x7fff_ffff);
    assert_eq!(words[32], 0xffff_ffff);
}

#[test]
fn encoding_book() {
    let src = book(vec![1, 2, 3, 3]);
    let b = CodeBook::new_for_encode(&src).unwrap();
    assert_eq!(b.dim, 1);
    assert_eq!(b.entries, 4);
    assert_eq!(b.used_entries, 4);
    assert_eq!(b.code_list, vec![0, 1, 3, 7]);
    assert_eq!(b.quantvals, 4);
    assert_eq!(b.static_codebook, Some(src.clone()));
    assert!(b.dec_firsttable.is_empty());
    assert_eq!(CodeBook::new(true, &src), Ok(b));
    assert_eq!(CodeBook::new_for_encode(&book(vec![1, 1, 1])), Err(Error::InvalidData));
    let mut short = book(vec![1, 1]);
    short.entries = 3;
    assert_eq!(CodeBook::new_for_encode(&short), Err(Error::InvalidData));
    assert_eq!(CodeBook::new_for_decode(&short), Err(Error::InvalidData));
}

#[test]
fn decoding_book_of_short_codewords() {
    let src = book(vec![3, 1, 3, 2]);
    // The codewords are 000, 1, 001 and 01.
    let b = CodeBook::new_for_decode(&src).unwrap();
    assert_eq!(b.used_entries, 4);
    assert_eq!(b.code_list, vec![0x0000_0000, 0x2000_0000, 0x4000_0000, 0x8000_0000]);
    assert_eq!(b.dec_index, vec![0, 2, 3, 1]);
    assert_eq!(b.dec_codelengths, vec![3, 3, 2, 1]);
    assert_eq!(b.dec_maxlength, 3);
    assert_eq!(b.dec_firsttablen, 5);
    assert_eq!(b.dec_firsttable.len(), 32);
    for s in 0..32u32 {
        let expected = if s & 1 == 1 {
            4
        } else if s & 3 == 2 {
            3
        } else if s & 7 == 4 {
            2
        } else {
            1
        };
        assert_eq!(b.dec_firsttable[s as usize], expected);
    }
    assert_eq!(b.static_codebook, None);
    assert_eq!(CodeBook::new(false, &src), Ok(b));
}

#[test]
fn decoding_book_leaves_unused_entries_out() {
    let src = book(vec![2, 0, 2, 2, 0, 2]);
    let b = CodeBook::new_for_decode(&src).unwrap();
    assert_eq!(b.entries, 6);
    assert_eq!(b.used_entries, 4);
    assert_eq!(b.dec_index, vec![0, 2, 3, 5]);
    assert_eq!(b.dec_codelengths, vec![2, 2, 2, 2]);
    assert_eq!(b.code_list, vec![0, 0x4000_0000, 0x8000_0000, 0xc000_0000]);
}

#[test]
fn decoding_book_without_codewords() {
    let b = CodeBook::new_for_decode(&book(vec![0, 0, 0])).unwrap();
    assert_eq!(b.entries, 3);
    assert_eq!(b.used_entries, 0);
    assert!(b.code_list.is_empty());
    assert!(b.dec_firsttable.is_empty());
    assert_eq!(b.decode_entry(0), None);
    assert_eq!(b.position(1), None);
}

#[test]
fn decoding_book_of_a_single_codeword() {
    let b = CodeBook::new_for_decode(&book(vec![1])).unwrap();
    assert_eq!(b.dec_firsttablen, 1);
    assert_eq!(b.dec_firsttable, vec![1, 1]);
    assert_eq!(b.decode_entry(0), Some((0, 1)));
    assert_eq!(b.decode_entry(0xffff_fffe), Some((0, 1)));
    assert_eq!(b.decode_entry(1), Some((0, 1)));
    let sparse = CodeBook::new_for_decode(&book(vec![0, 1, 0])).unwrap();
    assert_eq!(sparse.decode_entry(0), Some((1, 1)));
}

fn every_codeword_is_found(lengths: Vec<i8>) {
    let src = book(lengths.clone());
    let enc = CodeBook::new_for_encode(&src).unwrap();
    let dec = CodeBook::new_for_decode(&src).unwrap();
    for (e, len) in lengths.iter().enumerate() {
        if *len == 0 {
            continue;
        }
        let word = enc.code_list[e];
        for tail in [0u32, 1, 0x5555_5555, 0xaaaa_aaaa, 0xffff_ffff, 0x0123_4567] {
            let lookahead = if *len == 32 { word } else { word | (tail << *len) };
            assert_eq!(dec.decode_entry(lookahead), Some((e as i32, *len)));
            let p = dec.position(lookahead).unwrap();
            assert_eq!(dec.dec_index[p], e as i32);
        }
    }
}

#[test]
fn every_codeword_is_found_again() {
    every_codeword_is_found(vec![8, 1, 7, 2, 6, 3, 5, 4, 8]);
    every_codeword_is_found(vec![3, 0, 3, 1, 0, 2]);
    every_codeword_is_found(vec![8; 256]);
    every_codeword_is_found(vec![10; 1024]);
    let mut long: Vec<i8> = (1..=31).collect();
    long.push(32);
    long.push(32);
    every_codeword_is_found(long);
    let mut mixed: Vec<i8> = vec![2, 2, 2];
    mixed.extend(std::iter::repeat(9).take(128));
    every_codeword_is_found(mixed);
}

#[test]
fn long_codewords_are_found_through_the_hints() {
    let lengths: Vec<i8> = vec![8, 1, 7, 2, 6, 3, 5, 4, 8];
    let dec = CodeBook::new_for_decode(&book(lengths)).unwrap();
    assert_eq!(dec.dec_firsttablen, 5);
    // The codewords of more than five bits all start with five zero bits.
    let hint = dec.dec_firsttable[0];
    assert_eq!(hint & 0x8000_0000, 0x8000_0000);
    let lo = ((hint >> 15) & 0x7fff) as usize;
    let hi = dec.code_list.len() - (hint & 0x7fff) as usize;
    for p in 0..dec.code_list.len() {
        if dec.dec_codelengths[p] > 5 {
            assert!(lo <= p && p < hi);
        }
    }
    for s in 1..32usize {
        assert_eq!(dec.dec_firsttable[s] & 0x8000_0000, 0);
        assert!(dec.dec_firsttable[s] >= 1);
    }
}
