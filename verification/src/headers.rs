//! The identification header and the comment header of a Vorbis stream,
//! and the mode entries of its setup header.

use crate::bits::value_bits;
use crate::codebook::{put, read_field};
use crate::error::Error;
use crate::fields::read_fields;
use crate::numeric::{ilog, spec_ilog};
use crate::reader::{spec_read, BitReader};
use crate::writer::BitWriter;
use vstd::prelude::*;

use vstd::utf8::{decode_utf8, valid_utf8};

verus! {

/// The first header of a Vorbis stream: what the stream is.
#[derive(Debug, Clone, Copy, PartialEq, Eq)]
pub struct VorbisIdentificationHeader {
    pub version: i32,
    pub channels: i32,
    pub sample_rate: i32,
    pub bitrate_upper: i32,
    pub bitrate_nominal: i32,
    pub bitrate_lower: i32,
    /// The sizes of the short and of the long block.
    pub block_size: [i32; 2],
}

/// The second header of a Vorbis stream: the vendor and the comments.
#[derive(Debug, Clone, PartialEq, Eq)]
pub struct VorbisCommentHeader {
    pub comments: Vec<String>,
    pub vendor: String,
}

/// A mode of the setup header.
#[derive(Debug, Clone, Copy, PartialEq, Eq)]
pub struct VorbisMode {
    pub block_flag: bool,
    pub window_type: i32,
    pub transform_type: i32,
    pub mapping: i32,
}

/// The seven bytes that a header of the given type starts with: the type
/// and the word "vorbis".
pub open spec fn header_magic(header_type: u8) -> Seq<u8> {
    seq![header_type, 0x76u8, 0x6fu8, 0x72u8, 0x62u8, 0x69u8, 0x73u8]
}

/// Reads `n` bytes, each from a field of 8 bits.
pub open spec fn read_bytes(s: Seq<bool>, n: nat) -> Result<(Seq<u8>, Seq<bool>), Error>
    decreases n,
{
    if n == 0 {
        Ok((Seq::empty(), s))
    } else {
        match spec_read(s, 8) {
            Err(e) => Err(e),
            Ok((v, rest)) => match read_bytes(rest, (n - 1) as nat) {
                Err(e) => Err(e),
                Ok((tail, end)) => Ok((seq![v as u8] + tail, end)),
            },
        }
    }
}

/// The bytes from byte `i` on, each in a field of 8 bits.
pub open spec fn packed_bytes(bytes: Seq<u8>, i: int) -> Seq<bool>
    decreases bytes.len() - i,
{
    if 0 <= i < bytes.len() {
        value_bits(bytes[i] as u32, 8) + packed_bytes(bytes, i + 1)
    } else {
        Seq::empty()
    }
}

/// Bytes take 8 bits each on the wire.
pub proof fn lemma_packed_bytes_len(bytes: Seq<u8>, i: int)
    requires
        0 <= i <= bytes.len(),
    ensures
        packed_bytes(bytes, i).len() == 8 * (bytes.len() - i),
    decreases bytes.len() - i,
{
    if i < bytes.len() {
        lemma_packed_bytes_len(bytes, i + 1);
    }
}

/// Reads `n` bytes from the stream.
pub(crate) fn take_bytes(reader: &mut BitReader, n: usize) -> (r: Result<Vec<u8>, Error>)
    ensures
        final(reader).source() == old(reader).source(),
        final(reader).consumed() >= old(reader).consumed(),
        match read_bytes(old(reader)@, n as nat) {
            Ok((bytes, rest)) => r matches Ok(v) && v@ == bytes && final(reader)@ == rest && bytes.len()
                == n,
            Err(e) => r matches Err(x) && x == e,
        },
{
    let ghost start = reader@;
    let mut out: Vec<u8> = Vec::new();
    let mut i: usize = 0;
    while i < n
        invariant
            i <= n,
            out@.len() == i,
            start == old(reader)@,
            reader.source() == old(reader).source(),
            reader.consumed() >= old(reader).consumed(),
            read_bytes(start, n as nat) == (match read_bytes(reader@, (n - i) as nat) {
                Ok((tail, end)) => Ok::<(Seq<u8>, Seq<bool>), Error>((out@ + tail, end)),
                Err(e) => Err(e),
            }),
        decreases n - i,
    {
        let ghost before = out@;
        let ghost cur = reader@;
        let v = match read_field(reader, 8) {
            Ok(v) => v,
            Err(e) => {
                assert(read_bytes(cur, (n - i) as nat) == Err::<(Seq<u8>, Seq<bool>), Error>(e));
                return Err(e);
            },
        };
        out.push(v as u8);
        i += 1;
        proof {
            assert(read_bytes(cur, (n - i + 1) as nat) == (match read_bytes(reader@, (n - i) as nat) {
                Err(e) => Err::<(Seq<u8>, Seq<bool>), Error>(e),
                Ok((tail, end)) => Ok((seq![v as u8] + tail, end)),
            }));
            match read_bytes(reader@, (n - i) as nat) {
                Ok((tail, end)) => {
                    assert(before + (seq![v as u8] + tail) =~= out@ + tail);
                },
                Err(e) => {},
            }
        }
    }
    proof {
        assert(out@ + Seq::<u8>::empty() =~= out@);
    }
    Ok(out)
}

/// Reads fields of the given widths from the stream, one after the other.
pub(crate) fn take_fields(reader: &mut BitReader, widths: &[i32]) -> (r: Result<Vec<i32>, Error>)
    requires
        forall|i: int| 0 <= i < widths@.len() ==> 0 <= #[trigger] widths@[i] <= 32,
    ensures
        final(reader).source() == old(reader).source(),
        final(reader).consumed() >= old(reader).consumed(),
        match read_fields(old(reader)@, widths@.map_values(|w: i32| w as int)) {
            Ok((values, rest)) => {
                &&& r matches Ok(v)
                &&& v@ == values
                &&& final(reader)@ == rest
                &&& values.len() == widths@.len()
                &&& forall|i: int|
                    0 <= i < widths@.len() && widths@[i] <= 31 ==> 0 <= #[trigger] values[i] && (
                    values[i] as u32) < (1u32 << (widths@[i] as u32))
            },
            Err(e) => r matches Err(x) && x == e,
        },
{
    let ghost start = reader@;
    let ghost all = widths@.map_values(|w: i32| w as int);
    let n = widths.len();
    let mut out: Vec<i32> = Vec::new();
    let mut i: usize = 0;
    assert(all.skip(0) =~= all);
    while i < n
        invariant
            i <= n,
            n == widths@.len(),
            out@.len() == i,
            start == old(reader)@,
            all == widths@.map_values(|w: i32| w as int),
            forall|k: int| 0 <= k < widths@.len() ==> 0 <= #[trigger] widths@[k] <= 32,
            reader.source() == old(reader).source(),
            reader.consumed() >= old(reader).consumed(),
            read_fields(start, all) == (match read_fields(reader@, all.skip(i as int)) {
                Ok((tail, end)) => Ok::<(Seq<i32>, Seq<bool>), Error>((out@ + tail, end)),
                Err(e) => Err(e),
            }),
            forall|k: int|
                0 <= k < i && widths@[k] <= 31 ==> 0 <= #[trigger] out@[k] && (out@[k] as u32) < (1u32 << (
                widths@[k] as u32)),
        decreases n - i,
    {
        let ghost before = out@;
        let ghost cur = reader@;
        let w = widths[i];
        assert(all.skip(i as int)[0] == w);
        assert(all.skip(i as int).drop_first() =~= all.skip(i + 1));
        let v = match reader.read(w) {
            Ok(v) => v,
            Err(e) => {
                assert(read_fields(cur, all.skip(i as int)) == Err::<(Seq<i32>, Seq<bool>), Error>(e));
                return Err(e);
            },
        };
        proof {
            if w <= 31 {
                crate::reader::lemma_read_range(cur, w as int);
            }
        }
        out.push(v);
        i += 1;
        proof {
            assert(read_fields(cur, all.skip(i - 1)) == (match read_fields(reader@, all.skip(i as int)) {
                Err(e) => Err::<(Seq<i32>, Seq<bool>), Error>(e),
                Ok((tail, end)) => Ok((seq![v] + tail, end)),
            }));
            match read_fields(reader@, all.skip(i as int)) {
                Ok((tail, end)) => {
                    assert(before + (seq![v] + tail) =~= out@ + tail);
                },
                Err(e) => {},
            }
        }
    }
    proof {
        assert(all.skip(n as int) =~= Seq::<int>::empty());
        assert(out@ + Seq::<i32>::empty() =~= out@);
    }
    Ok(out)
}

/// Writes bytes to the stream, each in a field of 8 bits.
pub(crate) fn put_bytes(writer: &mut BitWriter, bytes: &[u8])
    requires
        old(writer).has_room(8 * bytes@.len()),
    ensures
        final(writer)@ == old(writer)@ + packed_bytes(bytes@, 0),
        final(writer).written() == old(writer).written() + 8 * bytes@.len(),
        packed_bytes(bytes@, 0).len() == 8 * bytes@.len(),
{
    let ghost target = writer@ + packed_bytes(bytes@, 0);
    let ghost begin = writer.written();
    let ghost start_len = writer@.len();
    let n = bytes.len();
    let mut i: usize = 0;
    while i < n
        invariant
            i <= n,
            n == bytes@.len(),
            writer@ + packed_bytes(bytes@, i as int) == target,
            writer.written() == begin + 8 * i,
            writer@.len() == start_len + 8 * i,
            start_len + 8 * n + 7 <= usize::MAX,
        decreases n - i,
    {
        let ghost before = writer@;
        put(writer, bytes[i] as u32, 8);
        proof {
            assert(before + (value_bits(bytes@[i as int] as u32, 8) + packed_bytes(bytes@, i + 1))
                =~= writer@ + packed_bytes(bytes@, i + 1));
        }
        i += 1;
    }
    proof {
        assert(writer@ + Seq::<bool>::empty() =~= writer@);
    }
}

/// Whether the bytes are the seven bytes that a header of the given type
/// starts with.
pub(crate) fn is_magic(bytes: &Vec<u8>, header_type: u8) -> (b: bool)
    ensures
        b == (bytes@ == header_magic(header_type)),
{
    let b = bytes.len() == 7 && bytes[0] == header_type && bytes[1] == 0x76 && bytes[2] == 0x6f
        && bytes[3] == 0x72 && bytes[4] == 0x62 && bytes[5] == 0x69 && bytes[6] == 0x73;
    proof {
        if b {
            assert(bytes@ =~= header_magic(header_type));
        }
    }
    b
}

/// Writes the seven bytes that a header of the given type starts with.
pub(crate) fn put_magic(writer: &mut BitWriter, header_type: u8)
    requires
        old(writer).has_room(56),
    ensures
        final(writer)@ == old(writer)@ + packed_bytes(header_magic(header_type), 0),
        final(writer).written() == old(writer).written() + 56,
        packed_bytes(header_magic(header_type), 0).len() == 56,
{
    let mut magic: Vec<u8> = Vec::new();
    magic.push(header_type);
    magic.push(0x76);
    magic.push(0x6f);
    magic.push(0x72);
    magic.push(0x62);
    magic.push(0x69);
    magic.push(0x73);
    assert(magic@ =~= header_magic(header_type));
    put_bytes(writer, magic.as_slice());
}

/// The widths of the fields of an identification header behind its first
/// seven bytes.
pub open spec fn ident_widths() -> Seq<int> {
    seq![32, 8, 32, 32, 32, 32, 4, 4, 1]
}

/// Whether the fields of an identification header are refused: no sample
/// rate, no channel, a short block below 64 or above the long block, a
/// long block above 8192, or no end mark.
pub open spec fn ident_refused(v: Seq<i32>) -> bool {
    let short = (1u32 << (v[6] as u32)) as i32;
    let long = (1u32 << (v[7] as u32)) as i32;
    v[2] < 1 || v[1] < 1 || short < 64 || long < short || long > 8192 || v[8] != 1
}

/// The identification header that the fields stand for.
pub open spec fn ident_of(v: Seq<i32>) -> VorbisIdentificationHeader {
    VorbisIdentificationHeader {
        version: v[0],
        channels: v[1],
        sample_rate: v[2],
        bitrate_upper: v[3],
        bitrate_nominal: v[4],
        bitrate_lower: v[5],
        block_size: [(1u32 << (v[6] as u32)) as i32, (1u32 << (v[7] as u32)) as i32],
    }
}

/// What loading an identification header from `s` gives.
pub open spec fn load_ident(s: Seq<bool>) -> Result<(VorbisIdentificationHeader, Seq<bool>), Error> {
    match read_bytes(s, 7) {
        Err(e) => Err(e),
        Ok((magic, s1)) => if magic != header_magic(1) {
            Err(Error::InvalidData)
        } else {
            match read_fields(s1, ident_widths()) {
                Err(e) => Err(e),
                Ok((v, rest)) => if ident_refused(v) {
                    Err(Error::InvalidData)
                } else {
                    Ok((ident_of(v), rest))
                },
            }
        },
    }
}

/// The number that stands for a block size on the wire: the number of
/// bits that the size less one needs.
pub open spec fn block_exponent(size: i32) -> int {
    if size <= 0 {
        64
    } else {
        spec_ilog(size - 1)
    }
}

/// The identification header as it stands on the wire.
pub open spec fn packed_ident(h: VorbisIdentificationHeader) -> Seq<bool> {
    packed_bytes(header_magic(1), 0) + value_bits(h.version as u32, 32) + value_bits(
        h.channels as u32,
        8,
    ) + value_bits(h.sample_rate as u32, 32) + value_bits(h.bitrate_upper as u32, 32) + value_bits(
        h.bitrate_nominal as u32,
        32,
    ) + value_bits(h.bitrate_lower as u32, 32) + value_bits(block_exponent(h.block_size[0]) as u32, 4)
        + value_bits(block_exponent(h.block_size[1]) as u32, 4) + value_bits(1, 1)
}

proof fn lemma_block_sizes(a: u32)
    by (bit_vector)
    requires
        a < (1u32 << 4u32),
    ensures
        a <= 15,
        1 <= (1u32 << a) <= 32768,
{
}

fn load_ident_fields(reader: &mut BitReader) -> (r: Result<VorbisIdentificationHeader, Error>)
    ensures
        final(reader).source() == old(reader).source(),
        final(reader).consumed() >= old(reader).consumed(),
        match load_ident(old(reader)@) {
            Ok((h, rest)) => r == Ok::<VorbisIdentificationHeader, Error>(h) && final(reader)@ == rest,
            Err(e) => r matches Err(x) && x == e,
        },
{
    let magic = take_bytes(reader, 7)?;
    if !is_magic(&magic, 1) {
        return Err(Error::InvalidData);
    }
    let widths: [i32; 9] = [32, 8, 32, 32, 32, 32, 4, 4, 1];
    assert(widths@.map_values(|w: i32| w as int) =~= ident_widths());
    let v = take_fields(reader, widths.as_slice())?;
    let bs_1 = v[6];
    let bs_2 = v[7];
    proof {
        lemma_block_sizes(bs_1 as u32);
        lemma_block_sizes(bs_2 as u32);
    }
    let short: i32 = (1u32 << (bs_1 as u32)) as i32;
    let long: i32 = (1u32 << (bs_2 as u32)) as i32;
    if v[2] < 1 || v[1] < 1 || short < 64 || long < short || long > 8192 || v[8] != 1 {
        return Err(Error::InvalidData);
    }
    Ok(
        VorbisIdentificationHeader {
            version: v[0],
            channels: v[1],
            sample_rate: v[2],
            bitrate_upper: v[3],
            bitrate_nominal: v[4],
            bitrate_lower: v[5],
            block_size: [short, long],
        },
    )
}

/// The number that stands for a block size on the wire.
fn exponent_of(size: i32) -> (r: u32)
    ensures
        r == block_exponent(size),
        r <= 64,
{
    if size <= 0 {
        64
    } else {
        ilog((size - 1) as u64) as u32
    }
}

impl VorbisIdentificationHeader {
    /// Reads an identification header from the stream. On failure the
    /// reader stays where it was.
    pub fn load(bitreader: &mut BitReader) -> (r: Result<Self, Error>)
        ensures
            final(bitreader).source() == old(bitreader).source(),
            match load_ident(old(bitreader)@) {
                Ok((h, rest)) => r == Ok::<Self, Error>(h) && final(bitreader)@ == rest,
                Err(e) => r matches Err(x) && x == e && final(bitreader)@ == old(bitreader)@
                    && final(bitreader).consumed() == old(bitreader).consumed(),
            },
    {
        let saved: BitReader = *bitreader;
        match load_ident_fields(bitreader) {
            Ok(h) => Ok(h),
            Err(e) => {
                *bitreader = saved;
                Err(e)
            },
        }
    }

    /// Reads an identification header from the first bit of `data`.
    pub fn load_from_slice(data: &[u8]) -> (r: Result<Self, Error>)
        requires
            8 * data@.len() <= usize::MAX,
        ensures
            match load_ident(crate::bits::all_bits(data@)) {
                Ok((h, rest)) => r == Ok::<Self, Error>(h),
                Err(e) => r matches Err(x) && x == e,
            },
    {
        let mut bitreader = BitReader::new(data);
        Self::load(&mut bitreader)
    }

    /// Appends the header to the stream and returns the number of bits
    /// that it takes.
    pub fn pack(&self, bitwriter: &mut BitWriter) -> (r: Result<usize, Error>)
        requires
            old(bitwriter).has_room(233),
        ensures
            r == Ok::<usize, Error>(233),
            packed_ident(*self).len() == 233,
            final(bitwriter)@ == old(bitwriter)@ + packed_ident(*self),
            final(bitwriter).written() == old(bitwriter).written() + 233,
    {
        let ghost before = bitwriter@;
        let bs_1 = exponent_of(self.block_size[0]);
        let bs_2 = exponent_of(self.block_size[1]);
        put_magic(bitwriter, 1);
        put(bitwriter, #[verifier::truncate] (self.version as u32), 32);
        put(bitwriter, #[verifier::truncate] (self.channels as u32), 8);
        put(bitwriter, #[verifier::truncate] (self.sample_rate as u32), 32);
        put(bitwriter, #[verifier::truncate] (self.bitrate_upper as u32), 32);
        put(bitwriter, #[verifier::truncate] (self.bitrate_nominal as u32), 32);
        put(bitwriter, #[verifier::truncate] (self.bitrate_lower as u32), 32);
        put(bitwriter, bs_1, 4);
        put(bitwriter, bs_2, 4);
        put(bitwriter, 1, 1);
        assert(bitwriter@ =~= before + packed_ident(*self));
        Ok(233)
    }
}

/// The mathematical content of a comment header: the vendor and the
/// comments as characters.
pub struct CommentSpec {
    pub vendor: Seq<char>,
    pub comments: Seq<Seq<char>>,
}

impl View for VorbisCommentHeader {
    type V = CommentSpec;

    open spec fn view(&self) -> CommentSpec {
        CommentSpec {
            vendor: self.vendor@,
            comments: texts_view(self.comments@),
        }
    }
}

/// Reads a string: its length in bytes in 32 bits, which must not come out
/// negative, and its bytes, which must be UTF-8.
pub open spec fn read_string(s: Seq<bool>) -> Result<(Seq<char>, Seq<bool>), Error> {
    match spec_read(s, 32) {
        Err(e) => Err(e),
        Ok((len, s1)) => if len < 0 {
            Err(Error::InvalidData)
        } else {
            match read_bytes(s1, len as nat) {
                Err(e) => Err(e),
                Ok((bytes, rest)) => if valid_utf8(bytes) {
                    Ok((decode_utf8(bytes), rest))
                } else {
                    Err(Error::InvalidData)
                },
            }
        },
    }
}

/// Reads `n` strings.
pub open spec fn read_strings(s: Seq<bool>, n: nat) -> Result<(Seq<Seq<char>>, Seq<bool>), Error>
    decreases n,
{
    if n == 0 {
        Ok((Seq::empty(), s))
    } else {
        match read_string(s) {
            Err(e) => Err(e),
            Ok((text, rest)) => match read_strings(rest, (n - 1) as nat) {
                Err(e) => Err(e),
                Ok((tail, end)) => Ok((seq![text] + tail, end)),
            },
        }
    }
}

/// What loading a comment header from `s` gives.
pub open spec fn load_comment(s: Seq<bool>) -> Result<(CommentSpec, Seq<bool>), Error> {
    match read_bytes(s, 7) {
        Err(e) => Err(e),
        Ok((magic, s1)) => if magic != header_magic(3) {
            Err(Error::InvalidData)
        } else {
            match read_string(s1) {
                Err(e) => Err(e),
                Ok((vendor, s2)) => match spec_read(s2, 32) {
                    Err(e) => Err(e),
                    Ok((count, s3)) => if count < 0 {
                        Err(Error::InvalidData)
                    } else {
                        match read_strings(s3, count as nat) {
                            Err(e) => Err(e),
                            Ok((comments, s4)) => match spec_read(s4, 1) {
                                Err(e) => Err(e),
                                Ok((end_mark, rest)) => if end_mark != 1 {
                                    Err(Error::InvalidData)
                                } else {
                                    Ok((CommentSpec { vendor, comments }, rest))
                                },
                            },
                        }
                    },
                },
            }
        },
    }
}

/// A string as it stands on the wire: the number of its bytes in 32 bits,
/// then its bytes.
pub open spec fn packed_string(text: Seq<char>) -> Seq<bool> {
    let bytes = vstd::utf8::encode_utf8(text);
    value_bits(bytes.len() as u32, 32) + packed_bytes(bytes, 0)
}

/// The strings from string `i` on as they stand on the wire.
pub open spec fn packed_strings(texts: Seq<Seq<char>>, i: int) -> Seq<bool>
    decreases texts.len() - i,
{
    if 0 <= i < texts.len() {
        packed_string(texts[i]) + packed_strings(texts, i + 1)
    } else {
        Seq::empty()
    }
}

/// The comment header as it stands on the wire.
pub open spec fn packed_comment(h: CommentSpec) -> Seq<bool> {
    packed_bytes(header_magic(3), 0) + packed_string(h.vendor) + value_bits(h.comments.len() as u32, 32)
        + packed_strings(h.comments, 0) + value_bits(1, 1)
}

/// `String::from_utf8` of std: the string of the bytes, if they are
/// UTF-8, and nothing if they are not.
#[verifier::external_body]
fn string_from_utf8(bytes: Vec<u8>) -> (r: Option<String>)
    ensures
        r.is_some() == valid_utf8(bytes@),
        r matches Some(text) ==> text@ == decode_utf8(bytes@),
{
    String::from_utf8(bytes).ok()
}

fn take_string(reader: &mut BitReader) -> (r: Result<String, Error>)
    ensures
        final(reader).source() == old(reader).source(),
        final(reader).consumed() >= old(reader).consumed(),
        match read_string(old(reader)@) {
            Ok((text, rest)) => r matches Ok(t) && t@ == text && final(reader)@ == rest,
            Err(e) => r matches Err(x) && x == e,
        },
{
    let len = reader.read(32)?;
    if len < 0 {
        return Err(Error::InvalidData);
    }
    let bytes = take_bytes(reader, len as usize)?;
    match string_from_utf8(bytes) {
        Some(text) => Ok(text),
        None => Err(Error::InvalidData),
    }
}

fn put_string(writer: &mut BitWriter, text: &String)
    requires
        old(writer).has_room(packed_string(text@).len()),
    ensures
        final(writer)@ == old(writer)@ + packed_string(text@),
        final(writer).written() == old(writer).written() + packed_string(text@).len(),
{
    let ghost before = writer@;
    let bytes = text.as_str().as_bytes();
    assert(bytes@ == vstd::utf8::encode_utf8(text@));
    proof {
        lemma_packed_bytes_len(bytes@, 0);
    }
    let len: u32 = #[verifier::truncate] (bytes.len() as u32);
    put(writer, len, 32);
    put_bytes(writer, bytes);
    assert(writer@ =~= before + packed_string(text@));
}

/// The characters of the strings of a list.
pub open spec fn texts_view(v: Seq<String>) -> Seq<Seq<char>> {
    Seq::new(v.len(), |k: int| v[k]@)
}

fn take_strings(reader: &mut BitReader, n: usize) -> (r: Result<Vec<String>, Error>)
    ensures
        final(reader).source() == old(reader).source(),
        final(reader).consumed() >= old(reader).consumed(),
        match read_strings(old(reader)@, n as nat) {
            Ok((texts, rest)) => r matches Ok(v) && texts_view(v@) == texts && final(reader)@ == rest,
            Err(e) => r matches Err(x) && x == e,
        },
{
    let ghost first = reader@;
    let mut comments: Vec<String> = Vec::new();
    let mut i: usize = 0;
    while i < n
        invariant
            i <= n,
            comments@.len() == i,
            first == old(reader)@,
            reader.source() == old(reader).source(),
            reader.consumed() >= old(reader).consumed(),
            read_strings(first, n as nat) == (match read_strings(reader@, (n - i) as nat) {
                Ok((tail, end)) => Ok::<(Seq<Seq<char>>, Seq<bool>), Error>(
                    (texts_view(comments@) + tail, end),
                ),
                Err(e) => Err(e),
            }),
        decreases n - i,
    {
        let ghost had = texts_view(comments@);
        let ghost cur = reader@;
        let text = match take_string(reader) {
            Ok(t) => t,
            Err(e) => {
                assert(read_strings(cur, (n - i) as nat) == Err::<(Seq<Seq<char>>, Seq<bool>), Error>(e));
                return Err(e);
            },
        };
        let ghost chars = text@;
        comments.push(text);
        i += 1;
        proof {
            assert(read_strings(cur, (n - i + 1) as nat) == (match read_strings(
                reader@,
                (n - i) as nat,
            ) {
                Err(e) => Err::<(Seq<Seq<char>>, Seq<bool>), Error>(e),
                Ok((tail, end)) => Ok((seq![chars] + tail, end)),
            }));
            match read_strings(reader@, (n - i) as nat) {
                Ok((tail, end)) => {
                    assert(had + (seq![chars] + tail) =~= texts_view(comments@) + tail);
                },
                Err(e) => {},
            }
        }
    }
    proof {
        assert(texts_view(comments@) + Seq::<Seq<char>>::empty() =~= texts_view(comments@));
    }
    Ok(comments)
}

fn load_comment_fields(reader: &mut BitReader) -> (r: Result<VorbisCommentHeader, Error>)
    ensures
        final(reader).source() == old(reader).source(),
        final(reader).consumed() >= old(reader).consumed(),
        match load_comment(old(reader)@) {
            Ok((h, rest)) => r matches Ok(c) && c@ == h && final(reader)@ == rest,
            Err(e) => r matches Err(x) && x == e,
        },
{
    let magic = take_bytes(reader, 7)?;
    if !is_magic(&magic, 3) {
        return Err(Error::InvalidData);
    }
    let vendor = take_string(reader)?;
    let count = reader.read(32)?;
    if count < 0 {
        return Err(Error::InvalidData);
    }
    let comments = take_strings(reader, count as usize)?;
    let end_mark = read_field(reader, 1)?;
    if end_mark != 1 {
        return Err(Error::InvalidData);
    }
    Ok(VorbisCommentHeader { comments, vendor })
}

impl VorbisCommentHeader {
    /// Reads a comment header from the stream. On failure the reader
    /// stays where it was.
    pub fn load(bitreader: &mut BitReader) -> (r: Result<Self, Error>)
        ensures
            final(bitreader).source() == old(bitreader).source(),
            match load_comment(old(bitreader)@) {
                Ok((h, rest)) => r matches Ok(c) && c@ == h && final(bitreader)@ == rest,
                Err(e) => r matches Err(x) && x == e && final(bitreader)@ == old(bitreader)@
                    && final(bitreader).consumed() == old(bitreader).consumed(),
            },
    {
        let saved: BitReader = *bitreader;
        match load_comment_fields(bitreader) {
            Ok(h) => Ok(h),
            Err(e) => {
                *bitreader = saved;
                Err(e)
            },
        }
    }

    /// Appends the header to the stream and returns the number of bits
    /// that it takes.
    pub fn pack(&self, bitwriter: &mut BitWriter) -> (r: Result<usize, Error>)
        requires
            old(bitwriter).has_room(packed_comment(self@).len()),
        ensures
            r == Ok::<usize, Error>(packed_comment(self@).len() as usize),
            final(bitwriter)@ == old(bitwriter)@ + packed_comment(self@),
            final(bitwriter).written() == old(bitwriter).written() + packed_comment(self@).len(),
    {
        let ghost before = bitwriter@;
        let ghost all = self@.comments;
        let begin_bits = bitwriter.total_bits();
        put_magic(bitwriter, 3);
        put_string(bitwriter, &self.vendor);
        let n = self.comments.len();
        put(bitwriter, #[verifier::truncate] (n as u32), 32);
        let ghost head = bitwriter@;
        let ghost target = head + packed_strings(all, 0);
        assert(before + packed_comment(self@) =~= target + value_bits(1, 1));
        let mut i: usize = 0;
        while i < n
            invariant
                i <= n,
                n == self.comments@.len(),
                all == self@.comments,
                bitwriter@ + packed_strings(all, i as int) == target,
                target.len() + 1 + 7 <= usize::MAX,
                bitwriter.written() - begin_bits == bitwriter@.len() - before.len(),
                begin_bits <= bitwriter.written(),
            decreases n - i,
        {
            let ghost cur = bitwriter@;
            assert(all[i as int] == self.comments@[i as int]@);
            put_string(bitwriter, &self.comments[i]);
            proof {
                assert(cur + (packed_string(all[i as int]) + packed_strings(all, i + 1)) =~= bitwriter@
                    + packed_strings(all, i + 1));
            }
            i += 1;
        }
        proof {
            assert(bitwriter@ + Seq::<bool>::empty() =~= bitwriter@);
        }
        put(bitwriter, 1, 1);
        Ok(bitwriter.total_bits() - begin_bits)
    }
}

/// What loading a mode from `s` gives, where the setup header has `maps`
/// mappings: the window type and the transform type must be 0, and the
/// mapping must be one of the header.
pub open spec fn load_mode(s: Seq<bool>, maps: int) -> Result<(VorbisMode, Seq<bool>), Error> {
    match read_fields(s, seq![1, 16, 16, 8]) {
        Err(e) => Err(e),
        Ok((v, rest)) => if v[1] != 0 || v[2] != 0 || v[3] >= maps {
            Err(Error::InvalidData)
        } else {
            Ok(
                (
                    VorbisMode {
                        block_flag: v[0] != 0,
                        window_type: v[1],
                        transform_type: v[2],
                        mapping: v[3],
                    },
                    rest,
                ),
            )
        },
    }
}

/// The mode as it stands on the wire.
pub open spec fn packed_mode(m: VorbisMode) -> Seq<bool> {
    value_bits(if m.block_flag { 1 } else { 0 }, 1) + value_bits(m.window_type as u32, 16) + value_bits(
        m.transform_type as u32,
        16,
    ) + value_bits(m.mapping as u32, 8)
}

impl VorbisMode {
    /// Reads a mode of a setup header that has `maps` mappings.
    pub fn load_for_maps(bitreader: &mut BitReader, maps: usize) -> (r: Result<Self, Error>)
        ensures
            final(bitreader).source() == old(bitreader).source(),
            final(bitreader).consumed() >= old(bitreader).consumed(),
            match load_mode(old(bitreader)@, maps as int) {
                Ok((m, rest)) => r == Ok::<Self, Error>(m) && final(bitreader)@ == rest,
                Err(e) => r matches Err(x) && x == e,
            },
    {
        let widths: [i32; 4] = [1, 16, 16, 8];
        assert(widths@.map_values(|w: i32| w as int) =~= seq![1int, 16, 16, 8]);
        let v = take_fields(bitreader, widths.as_slice())?;
        if v[1] != 0 || v[2] != 0 || v[3] as usize >= maps {
            return Err(Error::InvalidData);
        }
        Ok(
            VorbisMode {
                block_flag: v[0] != 0,
                window_type: v[1],
                transform_type: v[2],
                mapping: v[3],
            },
        )
    }

    /// Appends the mode to the stream and returns the number of bits that
    /// it takes.
    pub fn pack(&self, bitwriter: &mut BitWriter) -> (r: Result<usize, Error>)
        requires
            old(bitwriter).has_room(41),
        ensures
            r == Ok::<usize, Error>(41),
            packed_mode(*self).len() == 41,
            final(bitwriter)@ == old(bitwriter)@ + packed_mode(*self),
            final(bitwriter).written() == old(bitwriter).written() + 41,
    {
        let ghost before = bitwriter@;
        put(bitwriter, if self.block_flag { 1 } else { 0 }, 1);
        put(bitwriter, #[verifier::truncate] (self.window_type as u32), 16);
        put(bitwriter, #[verifier::truncate] (self.transform_type as u32), 16);
        put(bitwriter, #[verifier::truncate] (self.mapping as u32), 8);
        assert(bitwriter@ =~= before + packed_mode(*self));
        Ok(41)
    }
}

impl Default for VorbisIdentificationHeader {
    /// The header with every number zero.
    fn default() -> (r: Self)
        ensures
            r.version == 0,
            r.channels == 0,
            r.sample_rate == 0,
            r.bitrate_upper == 0,
            r.bitrate_nominal == 0,
            r.bitrate_lower == 0,
            r.block_size@ == seq![0i32, 0i32],
    {
        let block_size: [i32; 2] = [0, 0];
        assert(block_size@ =~= seq![0i32, 0i32]);
        VorbisIdentificationHeader {
            version: 0,
            channels: 0,
            sample_rate: 0,
            bitrate_upper: 0,
            bitrate_nominal: 0,
            bitrate_lower: 0,
            block_size,
        }
    }
}

impl Default for VorbisCommentHeader {
    /// The header without a vendor and without comments.
    fn default() -> (r: Self)
        ensures
            r.vendor@.len() == 0,
            r.comments@.len() == 0,
    {
        VorbisCommentHeader { comments: Vec::new(), vendor: String::new() }
    }
}

impl Default for VorbisMode {
    /// The mode of short blocks with the first mapping.
    fn default() -> (r: Self)
        ensures
            r == (VorbisMode { block_flag: false, window_type: 0, transform_type: 0, mapping: 0 }),
    {
        VorbisMode { block_flag: false, window_type: 0, transform_type: 0, mapping: 0 }
    }
}

} // verus!
