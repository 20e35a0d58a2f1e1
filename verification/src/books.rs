//! The codebook section of a setup header: a count and the codebooks, one
//! directly behind the other.

use crate::bits::{all_bits, bytes_for, bytes_of_bits, value_bits};
use crate::bitwise::{spec_concat, spec_split, BitwiseData};
use crate::shift::aligned;
use crate::codebook::{
    pack_refusal, packed_book, put, read_field, spec_load, BookSpec, StaticCodeBook,
};
use crate::error::Error;
use crate::reader::{spec_read, BitReader};
use crate::writer::BitWriter;
use vstd::prelude::*;

verus! {

/// The codebooks of a setup header, with the number of bits that each of
/// them takes on the wire.
#[derive(Debug, Clone, PartialEq, Eq)]
pub struct StaticCodeBooks {
    /// The codebooks.
    pub books: Vec<StaticCodeBook>,
    /// The number of bits of each packed codebook.
    pub bits_of_books: Vec<usize>,
    /// The number of bits of the whole section, the count included.
    pub total_bits: usize,
}

/// The codebook section in its packed form, with the number of bits of
/// each codebook.
#[derive(Debug, Clone, PartialEq, Eq)]
pub struct StaticCodeBooksPacked {
    /// The packed section: the count and the codebooks.
    pub books: BitwiseData,
    /// The number of bits of each packed codebook.
    pub bits_of_books: Vec<usize>,
}

/// The mathematical content of a list of codebooks.
pub open spec fn books_view(books: Seq<StaticCodeBook>) -> Seq<BookSpec> {
    Seq::new(books.len(), |i: int| books[i]@)
}

/// What loading `n` codebooks one after the other from `s` gives: the
/// codebooks, the number of bits of each and the bits that follow them.
pub open spec fn load_books(s: Seq<bool>, n: nat) -> Result<(Seq<BookSpec>, Seq<int>, Seq<bool>), Error>
    decreases n,
{
    if n == 0 {
        Ok((Seq::empty(), Seq::empty(), s))
    } else {
        match spec_load(s) {
            Err(e) => Err(e),
            Ok((book, rest)) => match load_books(rest, (n - 1) as nat) {
                Err(e) => Err(e),
                Ok((books, sizes, end)) => Ok(
                    (seq![book] + books, seq![s.len() - rest.len()] + sizes, end),
                ),
            },
        }
    }
}

/// What loading a codebook section from `s` gives: the count, stored less
/// one in 8 bits, says how many codebooks follow.
pub open spec fn load_section(s: Seq<bool>) -> Result<(Seq<BookSpec>, Seq<int>, Seq<bool>), Error> {
    match spec_read(s, 8) {
        Err(e) => Err(e),
        Ok((count, rest)) => load_books(rest, (count + 1) as nat),
    }
}

/// The first of the codebooks from `i` on that cannot be packed, and why.
pub open spec fn first_refusal(books: Seq<BookSpec>, i: int) -> Option<Error>
    decreases books.len() - i,
{
    if 0 <= i < books.len() {
        match pack_refusal(books[i]) {
            Some(e) => Some(e),
            None => first_refusal(books, i + 1),
        }
    } else {
        None
    }
}

/// The codebooks from `i` on as they stand on the wire, one directly
/// behind the other.
pub open spec fn packed_books(books: Seq<BookSpec>, i: int) -> Seq<bool>
    decreases books.len() - i,
{
    if 0 <= i < books.len() {
        packed_book(books[i]) + packed_books(books, i + 1)
    } else {
        Seq::empty()
    }
}

/// The number of codebooks as it is stored: less one, in 8 bits. No
/// codebooks are stored like 256 of them.
pub open spec fn count_field(n: int) -> u32 {
    if n <= 0 {
        255
    } else {
        ((n - 1) % 256) as u32
    }
}

/// The codebook section as it stands on the wire: the number of
/// codebooks, then the codebooks.
pub open spec fn packed_section(books: Seq<BookSpec>) -> Seq<bool> {
    value_bits(count_field(books.len() as int), 8) + packed_books(books, 0)
}

/// What packing a codebook section gives: its bits, or the reason for
/// which its first codebook that cannot be packed cannot.
pub open spec fn pack_section(books: Seq<BookSpec>) -> Result<Seq<bool>, Error> {
    match first_refusal(books, 0) {
        Some(e) => Err(e),
        None => Ok(packed_section(books)),
    }
}

/// The number of bits of each packed codebook from `i` on.
pub open spec fn packed_sizes(books: Seq<BookSpec>, i: int) -> Seq<int>
    decreases books.len() - i,
{
    if 0 <= i < books.len() {
        seq![packed_book(books[i]).len() as int] + packed_sizes(books, i + 1)
    } else {
        Seq::empty()
    }
}

/// The sizes as numbers.
pub open spec fn sizes_view(v: Seq<usize>) -> Seq<int> {
    Seq::new(v.len(), |i: int| v[i] as int)
}

fn load_all(reader: &mut BitReader) -> (r: Result<StaticCodeBooks, Error>)
    ensures
        final(reader).source() == old(reader).source(),
        match load_section(old(reader)@) {
            Ok((books, sizes, rest)) => {
                &&& r matches Ok(b)
                &&& books_view(b.books@) == books
                &&& sizes_view(b.bits_of_books@) == sizes
                &&& b.total_bits == old(reader)@.len() - rest.len()
                &&& final(reader)@ == rest
                &&& final(reader).consumed() == old(reader).consumed() + b.total_bits
            },
            Err(e) => r matches Err(x) && x == e,
        },
{
    let begin = reader.remaining_bits();
    let count = read_field(reader, 8)?;
    let num_books: usize = (count + 1) as usize;
    let ghost first = reader@;
    let mut books: Vec<StaticCodeBook> = Vec::new();
    let mut bits_of_books: Vec<usize> = Vec::new();
    let mut i: usize = 0;
    while i < num_books
        invariant
            i <= num_books,
            books@.len() == i,
            bits_of_books@.len() == i,
            reader.source() == old(reader).source(),
            load_section(old(reader)@) == load_books(first, num_books as nat),
            reader@.len() <= first.len(),
            first.len() + 8 == begin,
            begin == old(reader)@.len(),
            load_books(first, num_books as nat) == (match load_books(reader@, (num_books - i) as nat) {
                Ok((tail, sizes, end)) => Ok::<(Seq<BookSpec>, Seq<int>, Seq<bool>), Error>(
                    (books_view(books@) + tail, sizes_view(bits_of_books@) + sizes, end),
                ),
                Err(e) => Err(e),
            }),
        decreases num_books - i,
    {
        let ghost cur = reader@;
        let ghost had = books_view(books@);
        let ghost had_sizes = sizes_view(bits_of_books@);
        let before = reader.remaining_bits();
        let book = match StaticCodeBook::load(reader) {
            Ok(b) => b,
            Err(e) => {
                assert(load_books(cur, (num_books - i) as nat) == Err::<
                    (Seq<BookSpec>, Seq<int>, Seq<bool>),
                    Error,
                >(e));
                return Err(e);
            },
        };
        let after = reader.remaining_bits();
        let ghost spec_book = book@;
        books.push(book);
        bits_of_books.push(before - after);
        i += 1;
        proof {
            assert(load_books(cur, (num_books - i + 1) as nat) == (match load_books(
                reader@,
                (num_books - i) as nat,
            ) {
                Err(e) => Err::<(Seq<BookSpec>, Seq<int>, Seq<bool>), Error>(e),
                Ok((tail, sizes, end)) => Ok(
                    (seq![spec_book] + tail, seq![cur.len() - reader@.len()] + sizes, end),
                ),
            }));
            match load_books(reader@, (num_books - i) as nat) {
                Ok((tail, sizes, end)) => {
                    assert(had + (seq![spec_book] + tail) =~= books_view(books@) + tail);
                    assert(had_sizes + (seq![cur.len() - reader@.len()] + sizes) =~= sizes_view(
                        bits_of_books@,
                    ) + sizes);
                },
                Err(e) => {},
            }
        }
    }
    let end = reader.remaining_bits();
    proof {
        assert(books_view(books@) + Seq::<BookSpec>::empty() =~= books_view(books@));
        assert(sizes_view(bits_of_books@) + Seq::<int>::empty() =~= sizes_view(bits_of_books@));
    }
    Ok(StaticCodeBooks { books, bits_of_books, total_bits: begin - end })
}

impl StaticCodeBooks {
    /// The section of no codebooks.
    pub fn empty() -> (r: Self)
        ensures
            r.books@.len() == 0,
            r.bits_of_books@.len() == 0,
            r.total_bits == 0,
    {
        StaticCodeBooks { books: Vec::new(), bits_of_books: Vec::new(), total_bits: 0 }
    }

    /// Reads a codebook section from the stream. On failure the reader
    /// stays where it was.
    pub fn load(bitreader: &mut BitReader) -> (r: Result<Self, Error>)
        ensures
            final(bitreader).source() == old(bitreader).source(),
            match load_section(old(bitreader)@) {
                Ok((books, sizes, rest)) => {
                    &&& r matches Ok(b)
                    &&& books_view(b.books@) == books
                    &&& sizes_view(b.bits_of_books@) == sizes
                    &&& b.total_bits == old(bitreader)@.len() - rest.len()
                    &&& final(bitreader)@ == rest
                    &&& final(bitreader).consumed() == old(bitreader).consumed() + b.total_bits
                },
                Err(e) => {
                    &&& r matches Err(x) && x == e
                    &&& final(bitreader)@ == old(bitreader)@
                    &&& final(bitreader).consumed() == old(bitreader).consumed()
                },
            },
    {
        let saved: BitReader = *bitreader;
        match load_all(bitreader) {
            Ok(b) => Ok(b),
            Err(e) => {
                *bitreader = saved;
                Err(e)
            },
        }
    }

    /// Reads a codebook section from the first bit of `data`.
    pub fn load_from_slice(data: &[u8]) -> (r: Result<Self, Error>)
        requires
            8 * data@.len() <= usize::MAX,
        ensures
            match load_section(all_bits(data@)) {
                Ok((books, sizes, rest)) => {
                    &&& r matches Ok(b)
                    &&& books_view(b.books@) == books
                    &&& sizes_view(b.bits_of_books@) == sizes
                    &&& b.total_bits == 8 * data@.len() - rest.len()
                    &&& rest == all_bits(data@).skip(b.total_bits as int)
                },
                Err(e) => r matches Err(x) && x == e,
            },
    {
        let mut bitreader = BitReader::new(data);
        let r = Self::load(&mut bitreader);
        // Asking for the bits that are left tells how many have been read.
        let _ = bitreader.remaining_bits();
        r
    }

    /// The number of bits of the section.
    pub fn get_total_bits(&self) -> (n: usize)
        ensures
            n == self.total_bits,
    {
        self.total_bits
    }

    /// The number of bytes that hold the section.
    pub fn get_total_bytes(&self) -> (n: usize)
        ensures
            n == bytes_for(self.total_bits as int),
    {
        BitwiseData::calc_total_bytes(self.total_bits)
    }

    /// The number of codebooks.
    pub fn len(&self) -> (n: usize)
        ensures
            n == self.books@.len(),
    {
        self.books.len()
    }

    /// Whether there is no codebook.
    pub fn is_empty(&self) -> (b: bool)
        ensures
            b == (self.books@.len() == 0),
    {
        self.books.len() == 0
    }

    /// The first codebook that cannot be packed, if there is one, and why.
    fn check_packable(&self) -> (r: Option<Error>)
        ensures
            r == first_refusal(books_view(self.books@), 0),
    {
        let ghost all = books_view(self.books@);
        let n = self.books.len();
        let mut i: usize = 0;
        while i < n
            invariant
                i <= n,
                n == self.books@.len(),
                all == books_view(self.books@),
                first_refusal(all, 0) == first_refusal(all, i as int),
            decreases n - i,
        {
            let ghost b = self.books@[i as int]@;
            assert(all[i as int] == b);
            match self.books[i].refusal() {
                Some(e) => {
                    return Some(e);
                },
                None => {},
            }
            i += 1;
        }
        None
    }

    /// Appends the section to the stream: the number of codebooks less
    /// one, in 8 bits, and the codebooks. It returns the number of bits
    /// written and the number of bits of each codebook. If a codebook
    /// cannot be packed, nothing is written.
    fn pack_counted(&self, bitwriter: &mut BitWriter) -> (r: Result<(usize, Vec<usize>), Error>)
        requires
            pack_section(books_view(self.books@)).is_ok() ==> old(bitwriter).has_room(
                packed_section(books_view(self.books@)).len(),
            ),
        ensures
            match pack_section(books_view(self.books@)) {
                Ok(bits) => {
                    &&& r matches Ok(t)
                    &&& t.0 == bits.len()
                    &&& sizes_view(t.1@) == packed_sizes(books_view(self.books@), 0)
                    &&& final(bitwriter)@ == old(bitwriter)@ + bits
                    &&& final(bitwriter).written() == old(bitwriter).written() + bits.len()
                },
                Err(e) => {
                    &&& r matches Err(x) && x == e
                    &&& final(bitwriter)@ == old(bitwriter)@
                    &&& final(bitwriter).written() == old(bitwriter).written()
                },
            },
    {
        match self.check_packable() {
            Some(e) => {
                return Err(e);
            },
            None => {},
        }
        let ghost all = books_view(self.books@);
        let ghost start = bitwriter@;
        let ghost target = bitwriter@ + packed_section(all);
        let begin_bits = bitwriter.total_bits();
        let n = self.books.len();
        let count: u32 = if n == 0 {
            255
        } else {
            ((n - 1) % 256) as u32
        };
        put(bitwriter, count, 8);
        let mut sizes: Vec<usize> = Vec::new();
        let mut i: usize = 0;
        proof {
            assert(start + (value_bits(count, 8) + packed_books(all, 0)) =~= bitwriter@ + packed_books(
                all,
                0,
            ));
        }
        while i < n
            invariant
                i <= n,
                n == self.books@.len(),
                all == books_view(self.books@),
                sizes@.len() == i,
                first_refusal(all, i as int).is_none(),
                bitwriter@ + packed_books(all, i as int) == target,
                target.len() + 7 <= usize::MAX,
                bitwriter.written() + packed_books(all, i as int).len() == begin_bits + (target.len()
                    - start.len()),
                start.len() <= target.len(),
                packed_sizes(all, 0) =~= sizes_view(sizes@) + packed_sizes(all, i as int),
            decreases n - i,
        {
            let ghost before = bitwriter@;
            let ghost had = sizes_view(sizes@);
            assert(all[i as int] == self.books@[i as int]@);
            let size = match self.books[i].pack(bitwriter) {
                Ok(s) => s,
                Err(e) => {
                    // A codebook that can be packed is not refused.
                    return Err(e);
                },
            };
            sizes.push(size);
            proof {
                assert(before + (packed_book(all[i as int]) + packed_books(all, i + 1)) =~= bitwriter@
                    + packed_books(all, i + 1));
                assert(had + (seq![packed_book(all[i as int]).len() as int] + packed_sizes(all, i + 1))
                    =~= sizes_view(sizes@) + packed_sizes(all, i + 1));
            }
            i += 1;
        }
        proof {
            assert(bitwriter@ + Seq::<bool>::empty() =~= bitwriter@);
            assert(sizes_view(sizes@) + Seq::<int>::empty() =~= sizes_view(sizes@));
        }
        Ok((bitwriter.total_bits() - begin_bits, sizes))
    }

    /// Appends the section to the stream and returns the number of bits
    /// that it takes, which must be the number that the section is said
    /// to have. If a codebook cannot be packed, nothing is written.
    pub fn pack(&self, bitwriter: &mut BitWriter) -> (r: Result<usize, Error>)
        requires
            pack_section(books_view(self.books@)).is_ok() ==> old(bitwriter).has_room(
                packed_section(books_view(self.books@)).len(),
            ) && self.total_bits == packed_section(books_view(self.books@)).len(),
        ensures
            match pack_section(books_view(self.books@)) {
                Ok(bits) => {
                    &&& r == Ok::<usize, Error>(self.total_bits)
                    &&& final(bitwriter)@ == old(bitwriter)@ + bits
                    &&& final(bitwriter).written() == old(bitwriter).written() + bits.len()
                },
                Err(e) => {
                    &&& r == Err::<usize, Error>(e)
                    &&& final(bitwriter)@ == old(bitwriter)@
                    &&& final(bitwriter).written() == old(bitwriter).written()
                },
            },
    {
        match self.pack_counted(bitwriter) {
            Ok((total, sizes)) => Ok(total),
            Err(e) => Err(e),
        }
    }

    /// The section in its packed form, with the number of bits of each
    /// codebook.
    pub fn to_packed_codebooks(&self) -> (r: Result<StaticCodeBooksPacked, Error>)
        requires
            pack_section(books_view(self.books@)).is_ok() ==> packed_section(books_view(self.books@)).len()
                + 7 <= usize::MAX,
        ensures
            match pack_section(books_view(self.books@)) {
                Ok(bits) => {
                    &&& r matches Ok(p)
                    &&& p.books@ == bits
                    &&& sizes_view(p.bits_of_books@) == packed_sizes(books_view(self.books@), 0)
                },
                Err(e) => r matches Err(x) && x == e,
            },
    {
        let mut bitwriter = BitWriter::new();
        let (total_bits, bits_of_books) = match self.pack_counted(&mut bitwriter) {
            Ok(t) => t,
            Err(e) => {
                return Err(e);
            },
        };
        let ghost bits = bitwriter@;
        assert(bits =~= packed_section(books_view(self.books@)));
        let bytes = bitwriter.into_bytes();
        proof {
            crate::bits::lemma_bytes_of_bits_canonical(bits);
            crate::bits::lemma_bytes_of_bits_len(bits);
            assert(all_bits(bytes@).take(total_bits as int) =~= bits);
        }
        let books = BitwiseData::new(bytes.as_slice(), total_bits);
        Ok(StaticCodeBooksPacked { books, bits_of_books })
    }
}

/// The bit strings of a list.
pub open spec fn strings_view(v: Seq<BitwiseData>) -> Seq<Seq<bool>> {
    Seq::new(v.len(), |i: int| v[i]@)
}

/// The bit string `s` cut into pieces of the given sizes, from size `i`
/// on. A piece that would go past the end of the string takes what is
/// left of it.
pub open spec fn cut_books(s: Seq<bool>, sizes: Seq<usize>, i: int) -> Seq<Seq<bool>>
    decreases sizes.len() - i,
{
    if 0 <= i < sizes.len() {
        seq![spec_split(s, sizes[i] as int).0] + cut_books(spec_split(s, sizes[i] as int).1, sizes, i + 1)
    } else {
        Seq::empty()
    }
}

impl StaticCodeBooksPacked {
    /// The packed section of no codebooks: no bits at all.
    pub fn empty() -> (r: Self)
        ensures
            r.books@.len() == 0,
            r.bits_of_books@.len() == 0,
    {
        StaticCodeBooksPacked { books: BitwiseData::empty(), bits_of_books: Vec::new() }
    }

    /// Loads the codebooks from the packed section.
    pub fn unpack(&self) -> (r: Result<StaticCodeBooks, Error>)
        ensures
            match load_section(all_bits(self.books.bytes())) {
                Ok((books, sizes, rest)) => {
                    &&& r matches Ok(b)
                    &&& books_view(b.books@) == books
                    &&& sizes_view(b.bits_of_books@) == sizes
                    &&& b.total_bits == 8 * self.books.bytes().len() - rest.len()
                },
                Err(e) => r matches Err(x) && x == e,
            },
    {
        StaticCodeBooks::load_from_slice(self.books.as_bytes())
    }

    /// The number of bits of the packed section.
    pub fn get_total_bits(&self) -> (n: usize)
        ensures
            n == self.books@.len(),
    {
        self.books.get_total_bits()
    }

    /// The number of bytes that hold the packed section.
    pub fn get_total_bytes(&self) -> (n: usize)
        ensures
            n == bytes_for(self.books@.len() as int),
    {
        self.books.get_total_bytes()
    }

    /// Brings the byte buffer of the packed section to a whole number of
    /// working units: to the bytes of its bits rounded up to whole units,
    /// with zeros past the bits. The working unit is one byte and the
    /// buffer is always kept so, so that the section is left as it is.
    pub fn fit_to_aligned_size(&mut self)
        ensures
            final(self).books@ == old(self).books@,
            final(self).books.bytes() == old(self).books.bytes(),
            final(self).books.bytes().len() == aligned(final(self).books@.len() as int, 8) / 8,
            final(self).books.bytes() == bytes_of_bits(final(self).books@),
            final(self).bits_of_books@ == old(self).bits_of_books@,
    {
        self.books.fit_to_aligned_size()
    }

    /// Brings the byte buffer of the packed section to the bytes that its
    /// bits need, the bits of the last byte past the end of the section
    /// zero. The buffer is always kept so, so that the section is left as
    /// it is.
    pub fn shrink_to_fit(&mut self)
        ensures
            final(self).books@ == old(self).books@,
            final(self).books.bytes() == old(self).books.bytes(),
            final(self).books.bytes().len() == bytes_for(final(self).books@.len() as int),
            final(self).books.bytes() == bytes_of_bits(final(self).books@),
            final(self).bits_of_books@ == old(self).bits_of_books@,
    {
        self.books.shrink_to_fit()
    }

    /// Whether the byte buffer is a whole number of working units, which
    /// are bytes.
    pub fn is_aligned_size(&self) -> (b: bool)
        ensures
            b,
    {
        self.books.is_aligned_size()
    }

    /// The packed codebooks one by one: the section without its first 8
    /// bits, which hold the count, cut into pieces of the sizes of the
    /// codebooks.
    pub fn split(&self) -> (r: Vec<BitwiseData>)
        ensures
            strings_view(r@) == (if self.bits_of_books@.len() == 0 {
                Seq::<Seq<bool>>::empty()
            } else {
                cut_books(spec_split(self.books@, 8).1, self.bits_of_books@, 0)
            }),
    {
        let num_books = self.bits_of_books.len();
        let mut ret: Vec<BitwiseData> = Vec::new();
        if num_books == 0 {
            assert(strings_view(ret@) =~= Seq::<Seq<bool>>::empty());
            return ret;
        }
        let (count, rest) = self.books.split(8);
        let mut books = rest;
        let ghost whole = cut_books(books@, self.bits_of_books@, 0);
        let mut i: usize = 0;
        while i < num_books
            invariant
                i <= num_books,
                num_books == self.bits_of_books@.len(),
                ret@.len() == i,
                whole == strings_view(ret@) + cut_books(books@, self.bits_of_books@, i as int),
            decreases num_books - i,
        {
            let ghost had = strings_view(ret@);
            let cur_book_bits = self.bits_of_books[i];
            let (front, back) = books.split(cur_book_bits);
            let ghost piece = front@;
            ret.push(front);
            books = back;
            proof {
                assert(had + (seq![piece] + cut_books(books@, self.bits_of_books@, i + 1))
                    =~= strings_view(ret@) + cut_books(books@, self.bits_of_books@, i + 1));
            }
            i += 1;
        }
        proof {
            assert(strings_view(ret@) + Seq::<Seq<bool>>::empty() =~= strings_view(ret@));
        }
        ret
    }

    /// Appends a packed codebook directly behind the section and notes
    /// its size.
    pub fn concat(&mut self, book: &BitwiseData)
        requires
            old(self).books@.len() + book@.len() + 7 <= usize::MAX,
        ensures
            final(self).books@ == spec_concat(old(self).books@, book@),
            final(self).bits_of_books@ == old(self).bits_of_books@.push(book@.len() as usize),
    {
        self.books.concat(book);
        self.bits_of_books.push(book.get_total_bits());
    }

    /// The bytes of the packed section, the unused bits of the last byte
    /// zero.
    pub fn into_bytes(self) -> (bytes: Vec<u8>)
        ensures
            bytes@ == bytes_of_bits(self.books@),
    {
        self.books.into_bytes()
    }
}

impl Default for StaticCodeBooks {
    /// The section of no codebooks.
    fn default() -> (r: Self)
        ensures
            r.books@.len() == 0,
            r.bits_of_books@.len() == 0,
            r.total_bits == 0,
    {
        Self::empty()
    }
}

impl Default for StaticCodeBooksPacked {
    /// The packed section of no codebooks: no bits at all.
    fn default() -> (r: Self)
        ensures
            r.books@.len() == 0,
            r.bits_of_books@.len() == 0,
    {
        Self::empty()
    }
}

} // verus!
