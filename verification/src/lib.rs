//! Bit-exact building blocks of the Vorbis bitstream: an LSB-first bit reader
//! and writer, an owned bit string that can be split and joined at any bit,
//! the codebook layer (wire format, canonical Huffman codewords, decode
//! tables), the three headers of a stream with the floors, residues,
//! mappings and modes of the setup header, and what a codec session works
//! out from them before the first block.
//!
//! Every function states what it returns over a model of its data: a bit
//! stream is a sequence of bits, least significant bit of each byte first.
//! The modules whose names end in `_laws` hold what follows from these
//! statements: that packing and loading are inverse, that words are made
//! exactly for code lengths that fill the tree, and that a decoding book
//! finds every codeword again.

pub mod bits;
pub mod bitwise;
pub mod book;
pub mod books;
pub mod buffer;
pub mod codebook;
pub mod codebook_laws;
pub mod decode;
pub mod decode_laws;
pub mod error;
pub mod fields;
pub mod floor;
pub mod floor_look;
pub mod headers;
pub mod huffman;
pub mod huffman_laws;
pub mod mapping;
pub mod numeric;
pub mod quantize;
pub mod reader;
pub mod residue;
pub mod residue_look;
pub mod setup;
pub mod shift;
pub mod utils;
pub mod writer;

pub use error::Error;
