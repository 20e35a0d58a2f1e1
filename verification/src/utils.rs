//! Helpers around the headers: cutting the codebooks out of a setup header,
//! sorting the segments of the header packets, and a wrapper for nested
//! lists.

use crate::bits::{all_bits, bytes_of_bits, value_bits};
use crate::bitwise::BitwiseData;
use crate::books::{load_section, StaticCodeBooks};
use crate::error::Error;
use crate::headers::{
    load_comment, load_ident, CommentSpec, VorbisCommentHeader, VorbisIdentificationHeader, header_magic,
};
use crate::reader::BitReader;
use crate::setup::{load_setup, SetupView, VorbisSetupHeader};
use std::fmt::Display;
use vstd::prelude::*;
use vstd::slice::slice_subrange;

verus! {

/// A list seen as one value, so that a list of lists can be shown with one
/// line for each inner list.
#[derive(Debug)]
pub struct NestVecFormatter<'a, T> where T: Display + Copy {
    vec: &'a Vec<T>,
}

impl<'a, T> NestVecFormatter<'a, T> where T: Display + Copy {
    /// The items of the list that is wrapped.
    pub closed spec fn view(&self) -> Seq<T> {
        self.vec@
    }

    /// Wraps a list.
    pub fn new(vec: &'a Vec<T>) -> (r: Self)
        ensures
            r@ == vec@,
    {
        Self { vec }
    }

    /// The list that is wrapped.
    pub fn items(&self) -> (r: &'a Vec<T>)
        ensures
            r@ == self@,
    {
        self.vec
    }

    /// Wraps each list of a list of lists.
    pub fn new_level1(vec: &'a Vec<Vec<T>>) -> (r: Vec<Self>)
        ensures
            r@.len() == vec@.len(),
            forall|i: int| 0 <= i < vec@.len() ==> (#[trigger] r@[i])@ == vec@[i]@,
    {
        let mut ret: Vec<Self> = Vec::new();
        let mut i: usize = 0;
        while i < vec.len()
            invariant
                i <= vec@.len(),
                ret@.len() == i,
                forall|k: int| 0 <= k < i ==> (#[trigger] ret@[k])@ == vec@[k]@,
            decreases vec@.len() - i,
        {
            ret.push(Self::new(&vec[i]));
            i += 1;
        }
        ret
    }

    /// Wraps each innermost list of a list of lists of lists.
    pub fn new_level2(vec: &'a Vec<Vec<Vec<T>>>) -> (r: Vec<Vec<Self>>)
        ensures
            r@.len() == vec@.len(),
            forall|i: int| 0 <= i < vec@.len() ==> (#[trigger] r@[i])@.len() == vec@[i]@.len(),
            forall|i: int, j: int|
                0 <= i < vec@.len() && 0 <= j < vec@[i]@.len() ==> (#[trigger] r@[i]@[j])@
                    == vec@[i]@[j]@,
    {
        let mut ret: Vec<Vec<Self>> = Vec::new();
        let mut i: usize = 0;
        while i < vec.len()
            invariant
                i <= vec@.len(),
                ret@.len() == i,
                forall|k: int| 0 <= k < i ==> (#[trigger] ret@[k])@.len() == vec@[k]@.len(),
                forall|k: int, j: int|
                    0 <= k < i && 0 <= j < vec@[k]@.len() ==> (#[trigger] ret@[k]@[j])@ == vec@[k]@[j]@,
            decreases vec@.len() - i,
        {
            ret.push(Self::new_level1(&vec[i]));
            i += 1;
        }
        ret
    }
}

/// What a setup header is without its codebooks: its first seven bytes,
/// the count of a codebook section without codebooks, and what follows
/// the codebook section, all without a gap.
pub open spec fn without_codebooks(header: Seq<u8>) -> Result<Seq<u8>, Error> {
    if header.len() < 7 || header.take(7) != header_magic(5) {
        Err(Error::InvalidData)
    } else {
        let body = all_bits(header.skip(7));
        match load_section(body) {
            Err(e) => Err(e),
            Ok((books, sizes, rest)) => Ok(
                bytes_of_bits(all_bits(header.take(7)) + value_bits(255, 8) + rest),
            ),
        }
    }
}

/// Takes the codebooks out of a setup header. The codebooks are found by
/// loading them; a codebook section without codebooks takes their place,
/// and what follows them moves up to it bit by bit.
pub fn remove_codebook_from_setup_header(setup_header: &[u8]) -> (r: Result<Vec<u8>, Error>)
    requires
        8 * setup_header@.len() + 16 <= usize::MAX,
    ensures
        match without_codebooks(setup_header@) {
            Ok(bytes) => r matches Ok(v) && v@ == bytes,
            Err(e) => r matches Err(x) && x == e,
        },
{
    let len = setup_header.len();
    if len < 7 {
        return Err(Error::InvalidData);
    }
    let head = slice_subrange(setup_header, 0, 7);
    let body = slice_subrange(setup_header, 7, len);
    if !(head[0] == 5 && head[1] == 0x76 && head[2] == 0x6f && head[3] == 0x72 && head[4] == 0x62
        && head[5] == 0x69 && head[6] == 0x73) {
        assert(head@ != header_magic(5)) by {
            if head@ == header_magic(5) {
                assert(head@[0] == 5u8);
            }
        }
        return Err(Error::InvalidData);
    }
    assert(head@ =~= header_magic(5));
    let codebooks = StaticCodeBooks::load_from_slice(body)?;
    let bytes_before_codebook = BitwiseData::from_bytes(head);
    let whole = BitwiseData::new(body, (len - 7) * 8);
    let (codebook_bits, bits_after_codebook) = whole.split(codebooks.total_bits);
    let empty_codebooks = match StaticCodeBooks::empty().to_packed_codebooks() {
        Ok(p) => p.books,
        Err(e) => {
            return Err(e);
        },
    };
    proof {
        assert(crate::books::packed_books(Seq::<crate::codebook::BookSpec>::empty(), 0)
            =~= Seq::<bool>::empty());
        assert(empty_codebooks@ =~= value_bits(255, 8));
        assert(all_bits(body@).take(8 * (body@.len() as int)) =~= all_bits(body@));
    }
    let mut out = BitwiseData::empty();
    out.concat(&bytes_before_codebook);
    out.concat(&empty_codebooks);
    out.concat(&bits_after_codebook);
    proof {
        let rest = load_section(all_bits(body@)).unwrap().2;
        assert(bits_after_codebook@ =~= rest);
        assert(out@ =~= all_bits(head@) + value_bits(255, 8) + rest);
    }
    Ok(out.into_bytes())
}

/// The type of the header that a segment starts, if it starts one: its
/// first byte is 1, 3 or 5 and the word "vorbis" follows.
pub open spec fn header_start(segment: Seq<u8>) -> Option<u8> {
    if segment.len() >= 7 && (segment[0] == 1 || segment[0] == 3 || segment[0] == 5) && segment.subrange(
        1,
        7,
    ) == header_magic(0).skip(1) {
        Some(segment[0])
    } else {
        None
    }
}

/// The bytes of the three headers, as far as they are gathered.
pub struct HeaderBytes {
    pub identification: Seq<u8>,
    pub comment: Seq<u8>,
    pub setup: Seq<u8>,
}

/// The segments from segment `i` on sorted into the three headers, the
/// header `current` being the one that the last segment belonged to (0
/// for none): a segment that starts a header changes the header, and any
/// other segment goes on with the header of the segment before. A segment
/// before the first header is refused.
pub open spec fn sort_segments(segments: Seq<Seq<u8>>, i: int, current: u8, had: HeaderBytes) -> Result<
    HeaderBytes,
    Error,
>
    decreases segments.len() - i,
{
    if 0 <= i < segments.len() {
        let kind = match header_start(segments[i]) {
            Some(k) => k,
            None => current,
        };
        if kind == 1 {
            sort_segments(
                segments,
                i + 1,
                kind,
                HeaderBytes { identification: had.identification + segments[i], ..had },
            )
        } else if kind == 3 {
            sort_segments(segments, i + 1, kind, HeaderBytes { comment: had.comment + segments[i], ..had })
        } else if kind == 5 {
            sort_segments(segments, i + 1, kind, HeaderBytes { setup: had.setup + segments[i], ..had })
        } else {
            Err(Error::InvalidData)
        }
    } else {
        Ok(had)
    }
}

/// The byte strings of a list.
pub open spec fn segments_view(v: Seq<Vec<u8>>) -> Seq<Seq<u8>> {
    Seq::new(v.len(), |i: int| v[i]@)
}

/// The type of the header that a segment starts, if it starts one.
fn start_of_header(segment: &Vec<u8>) -> (r: Option<u8>)
    ensures
        r == header_start(segment@),
{
    if segment.len() >= 7 && (segment[0] == 1 || segment[0] == 3 || segment[0] == 5) && segment[1]
        == 0x76 && segment[2] == 0x6f && segment[3] == 0x72 && segment[4] == 0x62 && segment[5] == 0x69
        && segment[6] == 0x73 {
        assert(segment@.subrange(1, 7) =~= header_magic(0).skip(1));
        Some(segment[0])
    } else {
        proof {
            if segment@.len() >= 7 && segment@.subrange(1, 7) == header_magic(0).skip(1) {
                let word = segment@.subrange(1, 7);
                assert(word[0] == segment@[1] && word[1] == segment@[2] && word[2] == segment@[3]
                    && word[3] == segment@[4] && word[4] == segment@[5] && word[5] == segment@[6]);
            }
        }
        None
    }
}

/// Sorts the segments of the packets that carry the headers of a Vorbis
/// stream into the bytes of the identification header, of the comment
/// header and of the setup header.
pub fn vorbis_headers_from_segments(segments: &Vec<Vec<u8>>) -> (r: Result<
    (Vec<u8>, Vec<u8>, Vec<u8>),
    Error,
>)
    ensures
        match sort_segments(
            segments_view(segments@),
            0,
            0,
            HeaderBytes { identification: Seq::empty(), comment: Seq::empty(), setup: Seq::empty() },
        ) {
            Ok(h) => r matches Ok(t) && t.0@ == h.identification && t.1@ == h.comment && t.2@
                == h.setup,
            Err(e) => r matches Err(x) && x == e,
        },
{
    let ghost all = segments_view(segments@);
    let mut ident: Vec<u8> = Vec::new();
    let mut comment: Vec<u8> = Vec::new();
    let mut setup: Vec<u8> = Vec::new();
    let mut current: u8 = 0;
    let mut i: usize = 0;
    while i < segments.len()
        invariant
            i <= segments@.len(),
            all == segments_view(segments@),
            sort_segments(
                all,
                0,
                0,
                HeaderBytes { identification: Seq::empty(), comment: Seq::empty(), setup: Seq::empty() },
            ) == sort_segments(
                all,
                i as int,
                current,
                HeaderBytes { identification: ident@, comment: comment@, setup: setup@ },
            ),
        decreases segments@.len() - i,
    {
        let segment = &segments[i];
        assert(all[i as int] == segment@);
        match start_of_header(segment) {
            Some(k) => {
                current = k;
            },
            None => {},
        }
        let ghost a = ident@;
        let ghost b = comment@;
        let ghost c = setup@;
        if current == 1 {
            ident.extend_from_slice(segment.as_slice());
            assert(ident@ =~= a + segment@);
        } else if current == 3 {
            comment.extend_from_slice(segment.as_slice());
            assert(comment@ =~= b + segment@);
        } else if current == 5 {
            setup.extend_from_slice(segment.as_slice());
            assert(setup@ =~= c + segment@);
        } else {
            return Err(Error::InvalidData);
        }
        i += 1;
    }
    Ok((ident, comment, setup))
}

/// What parsing the three headers of a stream from their bytes gives:
/// each header is loaded from the first bit of its bytes, the setup
/// header for the channels of the identification header.
pub open spec fn parse_headers(b1: Seq<u8>, b2: Seq<u8>, b3: Seq<u8>) -> Result<
    (VorbisIdentificationHeader, CommentSpec, SetupView),
    Error,
> {
    match load_ident(all_bits(b1)) {
        Err(e) => Err(e),
        Ok((h1, r1)) => match load_comment(all_bits(b2)) {
            Err(e) => Err(e),
            Ok((h2, r2)) => match load_setup(all_bits(b3), h1.channels) {
                Err(e) => Err(e),
                Ok((h3, r3)) => Ok((h1, h2, h3)),
            },
        },
    }
}

/// Parses the three headers of a Vorbis stream from their bytes.
pub fn parse_vorbis_headers(b1: &[u8], b2: &[u8], b3: &[u8]) -> (r: Result<
    (VorbisIdentificationHeader, VorbisCommentHeader, VorbisSetupHeader),
    Error,
>)
    requires
        8 * b1@.len() <= usize::MAX,
        8 * b2@.len() <= usize::MAX,
        8 * b3@.len() <= usize::MAX,
    ensures
        match parse_headers(b1@, b2@, b3@) {
            Ok((h1, h2, h3)) => r matches Ok(t) && t.0 == h1 && t.1@ == h2 && t.2@ == h3,
            Err(e) => r matches Err(x) && x == e,
        },
{
    let mut br1 = BitReader::new(b1);
    let mut br2 = BitReader::new(b2);
    let mut br3 = BitReader::new(b3);
    let h1 = VorbisIdentificationHeader::load(&mut br1)?;
    let h2 = VorbisCommentHeader::load(&mut br2)?;
    let h3 = VorbisSetupHeader::load(&mut br3, &h1)?;
    Ok((h1, h2, h3))
}

} // verus!
