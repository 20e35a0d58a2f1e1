//! The floors of a setup header: the coarse shape of the spectrum, as a
//! filter (floor 0) or as a line through posts (floor 1).

use crate::bits::value_bits;
use crate::books::books_view;
use crate::buffer::{IntBuffer, BUFFER_LIMIT};
use crate::codebook::{load_values, put, read_field, read_values, BookSpec, StaticCodeBook};
use crate::error::Error;
use crate::fields::read_fields;
use crate::headers::take_fields;
use crate::mapping::{packed_numbers, put_numbers};
use crate::numeric::{ilog, spec_ilog};
use crate::reader::{spec_read, BitReader};
use crate::writer::BitWriter;
use vstd::prelude::*;

verus! {

/// The most posts of a floor 1 behind its first two.
pub const VIF_POSIT: usize = 63;

/// The most classes of a floor 1.
pub const VIF_CLASS: usize = 16;

/// The most partitions of a floor 1.
pub const VIF_PARTS: usize = 31;

/// A floor of type 0.
#[derive(Debug, Clone, PartialEq, Eq)]
#[allow(non_snake_case)]
pub struct VorbisFloor0 {
    pub order: i32,
    pub rate: i32,
    pub barkmap: i32,
    pub ampbits: i32,
    pub ampdB: i32,
    /// The codebooks of the floor, at most 16.
    pub books: IntBuffer,
}

/// A floor of type 1.
#[derive(Debug, Clone, PartialEq, Eq)]
pub struct VorbisFloor1 {
    /// The number of partitions, 0 to 31.
    pub partitions: i32,
    /// The class of each partition, 0 to 15.
    pub partitions_class: IntBuffer,
    /// The number of posts of a partition of each class, 1 to 8.
    pub class_dim: IntBuffer,
    /// The number of bits that select the subclass, for each class.
    pub class_subs: IntBuffer,
    /// The codebook of the subclass numbers, for each class.
    pub class_book: IntBuffer,
    /// The codebook of each subclass, for each class; -1 for none.
    pub class_subbook: Vec<IntBuffer>,
    /// The step of the amplitudes, 1 to 4.
    pub mult: i32,
    /// The positions of the posts; the first two are 0 and the range.
    pub postlist: IntBuffer,
    pub n: i32,
}

/// A floor.
#[derive(Debug, Clone, PartialEq, Eq)]
pub enum VorbisFloor {
    Floor0(VorbisFloor0),
    Floor1(VorbisFloor1),
}

/// The mathematical content of a floor of type 0.
#[allow(non_snake_case)]
pub struct Floor0View {
    pub order: i32,
    pub rate: i32,
    pub barkmap: i32,
    pub ampbits: i32,
    pub ampdB: i32,
    pub books: Seq<i32>,
}

/// The mathematical content of a floor of type 1.
pub struct Floor1View {
    pub partitions: i32,
    pub partitions_class: Seq<i32>,
    pub class_dim: Seq<i32>,
    pub class_subs: Seq<i32>,
    pub class_book: Seq<i32>,
    pub class_subbook: Seq<Seq<i32>>,
    pub mult: i32,
    pub postlist: Seq<i32>,
    pub n: i32,
}

/// The mathematical content of a floor.
pub enum FloorView {
    Floor0(Floor0View),
    Floor1(Floor1View),
}

impl View for VorbisFloor0 {
    type V = Floor0View;

    open spec fn view(&self) -> Floor0View {
        Floor0View {
            order: self.order,
            rate: self.rate,
            barkmap: self.barkmap,
            ampbits: self.ampbits,
            ampdB: self.ampdB,
            books: self.books@,
        }
    }
}

/// The items of the buffers of a list.
pub open spec fn buffers_view(v: Seq<IntBuffer>) -> Seq<Seq<i32>> {
    Seq::new(v.len(), |i: int| v[i]@)
}

impl View for VorbisFloor1 {
    type V = Floor1View;

    open spec fn view(&self) -> Floor1View {
        Floor1View {
            partitions: self.partitions,
            partitions_class: self.partitions_class@,
            class_dim: self.class_dim@,
            class_subs: self.class_subs@,
            class_book: self.class_book@,
            class_subbook: buffers_view(self.class_subbook@),
            mult: self.mult,
            postlist: self.postlist@,
            n: self.n,
        }
    }
}

impl View for VorbisFloor {
    type V = FloorView;

    open spec fn view(&self) -> FloorView {
        match self {
            VorbisFloor::Floor0(f) => FloorView::Floor0(f@),
            VorbisFloor::Floor1(f) => FloorView::Floor1(f@),
        }
    }
}

/// Reads the numbers of `n` codebooks of a floor 0, which must be
/// codebooks of the setup header that map their entries to values of a
/// dimension of at least 1.
pub open spec fn read_floor0_books(s: Seq<bool>, n: nat, books: Seq<BookSpec>) -> Result<
    (Seq<i32>, Seq<bool>),
    Error,
>
    decreases n,
{
    if n == 0 {
        Ok((Seq::empty(), s))
    } else {
        match spec_read(s, 8) {
            Err(e) => Err(e),
            Ok((book, rest)) => if book >= books.len() || books[book as int].maptype == 0
                || books[book as int].dim < 1 {
                Err(Error::InvalidData)
            } else {
                match read_floor0_books(rest, (n - 1) as nat, books) {
                    Err(e) => Err(e),
                    Ok((tail, end)) => Ok((seq![book] + tail, end)),
                }
            },
        }
    }
}

/// What loading a floor of type 0 gives, behind the type.
pub open spec fn load_floor0(s: Seq<bool>, books: Seq<BookSpec>) -> Result<(Floor0View, Seq<bool>), Error> {
    match read_fields(s, seq![8, 16, 16, 8, 8, 4]) {
        Err(e) => Err(e),
        Ok((v, s1)) => if v[0] < 1 || v[1] < 1 || v[2] < 1 {
            Err(Error::InvalidData)
        } else {
            match read_floor0_books(s1, (v[5] + 1) as nat, books) {
                Err(e) => Err(e),
                Ok((list, rest)) => Ok(
                    (
                        Floor0View {
                            order: v[0],
                            rate: v[1],
                            barkmap: v[2],
                            ampbits: v[3],
                            ampdB: v[4],
                            books: list,
                        },
                        rest,
                    ),
                ),
            }
        },
    }
}

fn take_floor0_books(reader: &mut BitReader, n: usize, books: &Vec<StaticCodeBook>) -> (r: Result<
    IntBuffer,
    Error,
>)
    requires
        n <= 16,
    ensures
        final(reader).source() == old(reader).source(),
        final(reader).consumed() >= old(reader).consumed(),
        match read_floor0_books(old(reader)@, n as nat, books_view(books@)) {
            Ok((list, rest)) => r matches Ok(b) && b@ == list && final(reader)@ == rest,
            Err(e) => r matches Err(x) && x == e,
        },
{
    let ghost start = reader@;
    let ghost all = books_view(books@);
    let mut list = IntBuffer::new();
    let mut i: usize = 0;
    while i < n
        invariant
            i <= n <= 16,
            list@.len() == i,
            all == books_view(books@),
            start == old(reader)@,
            reader.source() == old(reader).source(),
            reader.consumed() >= old(reader).consumed(),
            read_floor0_books(start, n as nat, all) == (match read_floor0_books(
                reader@,
                (n - i) as nat,
                all,
            ) {
                Ok((tail, end)) => Ok::<(Seq<i32>, Seq<bool>), Error>((list@ + tail, end)),
                Err(e) => Err(e),
            }),
        decreases n - i,
    {
        let ghost had = list@;
        let ghost cur = reader@;
        let ghost left = (n - i) as nat;
        let book = match read_field(reader, 8) {
            Ok(v) => v,
            Err(e) => {
                assert(read_floor0_books(cur, left, all) == Err::<(Seq<i32>, Seq<bool>), Error>(e));
                return Err(e);
            },
        };
        if book as usize >= books.len() {
            assert(read_floor0_books(cur, left, all) == Err::<(Seq<i32>, Seq<bool>), Error>(
                Error::InvalidData,
            ));
            return Err(Error::InvalidData);
        }
        assert(all[book as int] == books@[book as int]@);
        if books[book as usize].maptype == 0 || books[book as usize].dim < 1 {
            assert(read_floor0_books(cur, left, all) == Err::<(Seq<i32>, Seq<bool>), Error>(
                Error::InvalidData,
            ));
            return Err(Error::InvalidData);
        }
        list.push(book);
        i += 1;
        proof {
            assert(read_floor0_books(cur, left, all) == (match read_floor0_books(
                reader@,
                (n - i) as nat,
                all,
            ) {
                Err(e) => Err::<(Seq<i32>, Seq<bool>), Error>(e),
                Ok((tail, end)) => Ok((seq![book] + tail, end)),
            }));
            match read_floor0_books(reader@, (n - i) as nat, all) {
                Ok((tail, end)) => {
                    assert(had + (seq![book] + tail) =~= list@ + tail);
                },
                Err(e) => {},
            }
        }
    }
    proof {
        assert(list@ + Seq::<i32>::empty() =~= list@);
    }
    Ok(list)
}

impl VorbisFloor0 {
    /// Reads a floor of type 0, behind its type, for a setup header with
    /// the codebooks `books`.
    pub fn load_for(bitreader: &mut BitReader, books: &Vec<StaticCodeBook>) -> (r: Result<
        VorbisFloor,
        Error,
    >)
        ensures
            final(bitreader).source() == old(bitreader).source(),
            final(bitreader).consumed() >= old(bitreader).consumed(),
            match load_floor0(old(bitreader)@, books_view(books@)) {
                Ok((v, rest)) => r matches Ok(f) && f@ == FloorView::Floor0(v) && final(bitreader)@
                    == rest,
                Err(e) => r matches Err(x) && x == e,
            },
    {
        let widths: [i32; 6] = [8, 16, 16, 8, 8, 4];
        assert(widths@.map_values(|w: i32| w as int) =~= seq![8int, 16, 16, 8, 8, 4]);
        let v = take_fields(bitreader, widths.as_slice())?;
        if v[0] < 1 || v[1] < 1 || v[2] < 1 {
            return Err(Error::InvalidData);
        }
        proof {
            crate::bits::lemma_small_range(v[5] as u32, 4);
        }
        let list = take_floor0_books(bitreader, (v[5] + 1) as usize, books)?;
        Ok(
            VorbisFloor::Floor0(
                VorbisFloor0 {
                    order: v[0],
                    rate: v[1],
                    barkmap: v[2],
                    ampbits: v[3],
                    ampdB: v[4],
                    books: list,
                },
            ),
        )
    }

    /// A floor of type 0 has no packed form: nothing is written.
    pub fn pack(&self, bitwriter: &mut BitWriter) -> (r: Result<usize, Error>)
        ensures
            r == Ok::<usize, Error>(0),
            final(bitwriter)@ == old(bitwriter)@,
            final(bitwriter).written() == old(bitwriter).written(),
    {
        Ok(0)
    }
}

/// The number of classes that the first `k` partitions ask for: one more
/// than their greatest class.
pub open spec fn class_count(classes: Seq<i32>, k: int) -> int
    decreases k,
{
    if k <= 0 {
        0
    } else if classes[k - 1] + 1 > class_count(classes, k - 1) {
        classes[k - 1] + 1
    } else {
        class_count(classes, k - 1)
    }
}

/// The number of subclasses that `subs` bits select.
pub open spec fn sub_count(subs: int) -> int {
    if subs <= 0 {
        1
    } else if subs == 1 {
        2
    } else if subs == 2 {
        4
    } else {
        8
    }
}

/// Reads the codebooks of `n` subclasses, each stored plus one in 8 bits,
/// 0 standing for none; they must be codebooks of the setup header.
pub open spec fn read_subbooks(s: Seq<bool>, n: nat, books: int) -> Result<(Seq<i32>, Seq<bool>), Error>
    decreases n,
{
    if n == 0 {
        Ok((Seq::empty(), s))
    } else {
        match spec_read(s, 8) {
            Err(e) => Err(e),
            Ok((v, rest)) => if v - 1 >= books {
                Err(Error::InvalidData)
            } else {
                match read_subbooks(rest, (n - 1) as nat, books) {
                    Err(e) => Err(e),
                    Ok((tail, end)) => Ok((seq![(v - 1) as i32] + tail, end)),
                }
            },
        }
    }
}

/// What is read for the classes of a floor 1.
pub struct ClassesView {
    pub dims: Seq<i32>,
    pub subs: Seq<i32>,
    pub books: Seq<i32>,
    pub subbooks: Seq<Seq<i32>>,
}

/// Reads one class: the number of its posts, the bits of its subclass
/// numbers, the codebook of the subclass numbers where there are such
/// bits, and the codebooks of its subclasses.
pub open spec fn read_class(s: Seq<bool>, books: int) -> Result<((i32, i32, i32, Seq<i32>), Seq<bool>), Error> {
    match spec_read(s, 3) {
        Err(e) => Err(e),
        Ok((dim, s1)) => match spec_read(s1, 2) {
            Err(e) => Err(e),
            Ok((subs, s2)) => match (if subs != 0 {
                spec_read(s2, 8)
            } else {
                Ok((0i32, s2))
            }) {
                Err(e) => Err(e),
                Ok((book, s3)) => if book >= books {
                    Err(Error::InvalidData)
                } else {
                    match read_subbooks(s3, sub_count(subs as int) as nat, books) {
                        Err(e) => Err(e),
                        Ok((list, rest)) => Ok((((dim + 1) as i32, subs, book, list), rest)),
                    }
                },
            },
        }
    }
}

/// Reads `n` classes.
pub open spec fn read_classes(s: Seq<bool>, n: nat, books: int) -> Result<(ClassesView, Seq<bool>), Error>
    decreases n,
{
    if n == 0 {
        Ok(
            (
                ClassesView {
                    dims: Seq::empty(),
                    subs: Seq::empty(),
                    books: Seq::empty(),
                    subbooks: Seq::empty(),
                },
                s,
            ),
        )
    } else {
        match read_class(s, books) {
            Err(e) => Err(e),
            Ok((c, rest)) => match read_classes(rest, (n - 1) as nat, books) {
                Err(e) => Err(e),
                Ok((tail, end)) => Ok(
                    (
                        ClassesView {
                            dims: seq![c.0] + tail.dims,
                            subs: seq![c.1] + tail.subs,
                            books: seq![c.2] + tail.books,
                            subbooks: seq![c.3] + tail.subbooks,
                        },
                        end,
                    ),
                ),
            },
        }
    }
}

/// Reads the posts of the partitions from partition `i` on, `count` posts
/// being read before: each partition has as many posts as its class says,
/// and no more than 63 posts are read in all.
pub open spec fn read_posts(
    s: Seq<bool>,
    classes: Seq<i32>,
    dims: Seq<i32>,
    i: int,
    count: int,
    w: int,
) -> Result<(Seq<i32>, Seq<bool>), Error>
    decreases classes.len() - i,
{
    if 0 <= i < classes.len() {
        let next = count + dims[classes[i] as int];
        if next > 63 {
            Err(Error::InvalidData)
        } else {
            match read_values(s, (next - count) as nat, w) {
                Err(e) => Err(e),
                Ok((vals, rest)) => match read_posts(rest, classes, dims, i + 1, next, w) {
                    Err(e) => Err(e),
                    Ok((tail, end)) => Ok((vals + tail, end)),
                },
            }
        }
    } else {
        Ok((Seq::empty(), s))
    }
}

/// Two posts are at the same position.
pub open spec fn has_duplicate(posts: Seq<i32>) -> bool {
    exists|i: int, j: int| 0 <= i < j < posts.len() && #[trigger] posts[i] == #[trigger] posts[j]
}

/// What loading a floor of type 1 gives, behind the type, for a setup
/// header with `books` codebooks.
pub open spec fn load_floor1(s: Seq<bool>, books: int) -> Result<(Floor1View, Seq<bool>), Error> {
    match spec_read(s, 5) {
        Err(e) => Err(e),
        Ok((partitions, s1)) => match read_values(s1, partitions as nat, 4) {
            Err(e) => Err(e),
            Ok((classes, s2)) => match read_classes(
                s2,
                class_count(classes, classes.len() as int) as nat,
                books,
            ) {
                Err(e) => Err(e),
                Ok((c, s3)) => match read_fields(s3, seq![2, 4]) {
                    Err(e) => Err(e),
                    Ok((v, s4)) => match read_posts(s4, classes, c.dims, 0, 0, v[1] as int) {
                        Err(e) => Err(e),
                        Ok((posts, rest)) => {
                            let postlist = seq![0i32, (1u32 << (v[1] as u32)) as i32] + posts;
                            if has_duplicate(postlist) {
                                Err(Error::InvalidData)
                            } else {
                                Ok(
                                    (
                                        Floor1View {
                                            partitions,
                                            partitions_class: classes,
                                            class_dim: c.dims,
                                            class_subs: c.subs,
                                            class_book: c.books,
                                            class_subbook: c.subbooks,
                                            mult: (v[0] + 1) as i32,
                                            postlist,
                                            n: 0,
                                        },
                                        rest,
                                    ),
                                )
                            }
                        },
                    },
                },
            },
        },
    }
}

/// The buffer of the numbers of a vector of at most `BUFFER_LIMIT`
/// numbers.
fn buffer_of(v: &Vec<i32>) -> (b: IntBuffer)
    requires
        v@.len() <= BUFFER_LIMIT,
    ensures
        b@ == v@,
{
    IntBuffer::from_slice(v.as_slice())
}

fn take_subbooks(reader: &mut BitReader, n: usize, books: usize) -> (r: Result<IntBuffer, Error>)
    requires
        n <= 8,
    ensures
        final(reader).source() == old(reader).source(),
        final(reader).consumed() >= old(reader).consumed(),
        match read_subbooks(old(reader)@, n as nat, books as int) {
            Ok((list, rest)) => r matches Ok(b) && b@ == list && final(reader)@ == rest,
            Err(e) => r matches Err(x) && x == e,
        },
{
    let ghost start = reader@;
    let mut list = IntBuffer::new();
    let mut i: usize = 0;
    while i < n
        invariant
            i <= n <= 8,
            list@.len() == i,
            start == old(reader)@,
            reader.source() == old(reader).source(),
            reader.consumed() >= old(reader).consumed(),
            read_subbooks(start, n as nat, books as int) == (match read_subbooks(
                reader@,
                (n - i) as nat,
                books as int,
            ) {
                Ok((tail, end)) => Ok::<(Seq<i32>, Seq<bool>), Error>((list@ + tail, end)),
                Err(e) => Err(e),
            }),
        decreases n - i,
    {
        let ghost had = list@;
        let ghost cur = reader@;
        let ghost left = (n - i) as nat;
        let v = match read_field(reader, 8) {
            Ok(v) => v,
            Err(e) => {
                assert(read_subbooks(cur, left, books as int) == Err::<(Seq<i32>, Seq<bool>), Error>(e));
                return Err(e);
            },
        };
        if v >= 1 && (v - 1) as usize >= books {
            assert(read_subbooks(cur, left, books as int) == Err::<(Seq<i32>, Seq<bool>), Error>(
                Error::InvalidData,
            ));
            return Err(Error::InvalidData);
        }
        list.push(v - 1);
        i += 1;
        proof {
            assert(read_subbooks(cur, left, books as int) == (match read_subbooks(
                reader@,
                (n - i) as nat,
                books as int,
            ) {
                Err(e) => Err::<(Seq<i32>, Seq<bool>), Error>(e),
                Ok((tail, end)) => Ok((seq![(v - 1) as i32] + tail, end)),
            }));
            match read_subbooks(reader@, (n - i) as nat, books as int) {
                Ok((tail, end)) => {
                    assert(had + (seq![(v - 1) as i32] + tail) =~= list@ + tail);
                },
                Err(e) => {},
            }
        }
    }
    proof {
        assert(list@ + Seq::<i32>::empty() =~= list@);
    }
    Ok(list)
}

fn take_class(reader: &mut BitReader, books: usize) -> (r: Result<(i32, i32, i32, IntBuffer), Error>)
    ensures
        final(reader).source() == old(reader).source(),
        final(reader).consumed() >= old(reader).consumed(),
        match read_class(old(reader)@, books as int) {
            Ok((c, rest)) => r matches Ok(t) && t.0 == c.0 && t.1 == c.1 && t.2 == c.2 && t.3@ == c.3
                && final(reader)@ == rest && 1 <= c.0 <= 8,
            Err(e) => r matches Err(x) && x == e,
        },
{
    let dim = read_field(reader, 3)?;
    let subs = read_field(reader, 2)?;
    let book = if subs != 0 {
        read_field(reader, 8)?
    } else {
        0
    };
    if book as usize >= books {
        return Err(Error::InvalidData);
    }
    let count: usize = if subs == 0 {
        1
    } else if subs == 1 {
        2
    } else if subs == 2 {
        4
    } else {
        8
    };
    let list = take_subbooks(reader, count, books)?;
    Ok((dim + 1, subs, book, list))
}

/// The classes of a floor 1 as they are read.
struct Classes {
    dims: IntBuffer,
    subs: IntBuffer,
    books: IntBuffer,
    subbooks: Vec<IntBuffer>,
}

impl View for Classes {
    type V = ClassesView;

    closed spec fn view(&self) -> ClassesView {
        ClassesView {
            dims: self.dims@,
            subs: self.subs@,
            books: self.books@,
            subbooks: buffers_view(self.subbooks@),
        }
    }
}

fn take_classes(reader: &mut BitReader, n: usize, books: usize) -> (r: Result<Classes, Error>)
    requires
        n <= 16,
    ensures
        final(reader).source() == old(reader).source(),
        final(reader).consumed() >= old(reader).consumed(),
        match read_classes(old(reader)@, n as nat, books as int) {
            Ok((c, rest)) => r matches Ok(t) && t@ == c && final(reader)@ == rest && c.dims.len() == n
                && forall|k: int| 0 <= k < n ==> 1 <= #[trigger] c.dims[k] <= 8,
            Err(e) => r matches Err(x) && x == e,
        },
{
    let ghost start = reader@;
    let mut dims = IntBuffer::new();
    let mut subs = IntBuffer::new();
    let mut class_books = IntBuffer::new();
    let mut subbooks: Vec<IntBuffer> = Vec::new();
    let mut i: usize = 0;
    while i < n
        invariant
            i <= n <= 16,
            dims@.len() == i,
            subs@.len() == i,
            class_books@.len() == i,
            subbooks@.len() == i,
            forall|k: int| 0 <= k < i ==> 1 <= #[trigger] dims@[k] <= 8,
            start == old(reader)@,
            reader.source() == old(reader).source(),
            reader.consumed() >= old(reader).consumed(),
            read_classes(start, n as nat, books as int) == (match read_classes(
                reader@,
                (n - i) as nat,
                books as int,
            ) {
                Ok((tail, end)) => Ok::<(ClassesView, Seq<bool>), Error>(
                    (
                        ClassesView {
                            dims: dims@ + tail.dims,
                            subs: subs@ + tail.subs,
                            books: class_books@ + tail.books,
                            subbooks: buffers_view(subbooks@) + tail.subbooks,
                        },
                        end,
                    ),
                ),
                Err(e) => Err(e),
            }),
        decreases n - i,
    {
        let ghost had_d = dims@;
        let ghost had_s = subs@;
        let ghost had_b = class_books@;
        let ghost had_x = buffers_view(subbooks@);
        let ghost cur = reader@;
        let ghost left = (n - i) as nat;
        let (dim, sub, book, list) = match take_class(reader, books) {
            Ok(t) => t,
            Err(e) => {
                assert(read_classes(cur, left, books as int) == Err::<(ClassesView, Seq<bool>), Error>(e));
                return Err(e);
            },
        };
        let ghost items = list@;
        dims.push(dim);
        subs.push(sub);
        class_books.push(book);
        subbooks.push(list);
        i += 1;
        proof {
            assert(read_classes(cur, left, books as int) == (match read_classes(
                reader@,
                (n - i) as nat,
                books as int,
            ) {
                Err(e) => Err::<(ClassesView, Seq<bool>), Error>(e),
                Ok((tail, end)) => Ok(
                    (
                        ClassesView {
                            dims: seq![dim] + tail.dims,
                            subs: seq![sub] + tail.subs,
                            books: seq![book] + tail.books,
                            subbooks: seq![items] + tail.subbooks,
                        },
                        end,
                    ),
                ),
            }));
            match read_classes(reader@, (n - i) as nat, books as int) {
                Ok((tail, end)) => {
                    assert(had_d + (seq![dim] + tail.dims) =~= dims@ + tail.dims);
                    assert(had_s + (seq![sub] + tail.subs) =~= subs@ + tail.subs);
                    assert(had_b + (seq![book] + tail.books) =~= class_books@ + tail.books);
                    assert(had_x + (seq![items] + tail.subbooks) =~= buffers_view(subbooks@)
                        + tail.subbooks);
                },
                Err(e) => {},
            }
        }
    }
    proof {
        assert(dims@ + Seq::<i32>::empty() =~= dims@);
        assert(subs@ + Seq::<i32>::empty() =~= subs@);
        assert(class_books@ + Seq::<i32>::empty() =~= class_books@);
        assert(buffers_view(subbooks@) + Seq::<Seq<i32>>::empty() =~= buffers_view(subbooks@));
    }
    Ok(Classes { dims, subs, books: class_books, subbooks })
}

/// One more than the greatest class of the partitions.
fn count_classes(classes: &Vec<i32>) -> (n: usize)
    requires
        forall|i: int| 0 <= i < classes@.len() ==> 0 <= #[trigger] classes@[i] <= 15,
    ensures
        n == class_count(classes@, classes@.len() as int),
        n <= 16,
        forall|i: int| 0 <= i < classes@.len() ==> (#[trigger] classes@[i]) < n,
{
    let mut n: usize = 0;
    let mut i: usize = 0;
    while i < classes.len()
        invariant
            i <= classes@.len(),
            n == class_count(classes@, i as int),
            n <= 16,
            forall|k: int| 0 <= k < classes@.len() ==> 0 <= #[trigger] classes@[k] <= 15,
            forall|k: int| 0 <= k < i ==> (#[trigger] classes@[k]) < n,
        decreases classes@.len() - i,
    {
        let c = classes[i];
        if c as usize + 1 > n {
            n = c as usize + 1;
        }
        i += 1;
    }
    n
}

fn take_posts(reader: &mut BitReader, classes: &Vec<i32>, dims: &IntBuffer, w: i32) -> (r: Result<
    Vec<i32>,
    Error,
>)
    requires
        0 <= w <= 15,
        forall|i: int| 0 <= i < classes@.len() ==> 0 <= #[trigger] classes@[i] < dims@.len(),
        forall|k: int| 0 <= k < dims@.len() ==> 1 <= #[trigger] dims@[k] <= 8,
    ensures
        final(reader).source() == old(reader).source(),
        final(reader).consumed() >= old(reader).consumed(),
        match read_posts(old(reader)@, classes@, dims@, 0, 0, w as int) {
            Ok((posts, rest)) => r matches Ok(v) && v@ == posts && final(reader)@ == rest && posts.len()
                <= 63,
            Err(e) => r matches Err(x) && x == e,
        },
{
    let ghost start = reader@;
    let mut posts: Vec<i32> = Vec::new();
    let mut count: usize = 0;
    let mut i: usize = 0;
    while i < classes.len()
        invariant
            i <= classes@.len(),
            0 <= w <= 15,
            count <= 63,
            posts@.len() == count,
            forall|k: int| 0 <= k < classes@.len() ==> 0 <= #[trigger] classes@[k] < dims@.len(),
            forall|k: int| 0 <= k < dims@.len() ==> 1 <= #[trigger] dims@[k] <= 8,
            start == old(reader)@,
            reader.source() == old(reader).source(),
            reader.consumed() >= old(reader).consumed(),
            read_posts(start, classes@, dims@, 0, 0, w as int) == (match read_posts(
                reader@,
                classes@,
                dims@,
                i as int,
                count as int,
                w as int,
            ) {
                Ok((tail, end)) => Ok::<(Seq<i32>, Seq<bool>), Error>((posts@ + tail, end)),
                Err(e) => Err(e),
            }),
        decreases classes@.len() - i,
    {
        let ghost had = posts@;
        let ghost cur = reader@;
        let class = classes[i];
        let dim = dims.at(class as usize);
        let next = count + dim as usize;
        if next > 63 {
            assert(read_posts(cur, classes@, dims@, i as int, count as int, w as int) == Err::<
                (Seq<i32>, Seq<bool>),
                Error,
            >(Error::InvalidData));
            return Err(Error::InvalidData);
        }
        let mut vals = match load_values(reader, next - count, w) {
            Ok(v) => v,
            Err(e) => {
                assert(read_posts(cur, classes@, dims@, i as int, count as int, w as int) == Err::<
                    (Seq<i32>, Seq<bool>),
                    Error,
                >(e));
                return Err(e);
            },
        };
        let ghost got = vals@;
        posts.append(&mut vals);
        proof {
            assert(read_posts(cur, classes@, dims@, i as int, count as int, w as int) == (
            match read_posts(reader@, classes@, dims@, i + 1, next as int, w as int) {
                Err(e) => Err::<(Seq<i32>, Seq<bool>), Error>(e),
                Ok((tail, end)) => Ok((got + tail, end)),
            }));
            match read_posts(reader@, classes@, dims@, i + 1, next as int, w as int) {
                Ok((tail, end)) => {
                    assert(had + (got + tail) =~= posts@ + tail);
                },
                Err(e) => {},
            }
        }
        count = next;
        i += 1;
    }
    proof {
        assert(posts@ + Seq::<i32>::empty() =~= posts@);
    }
    Ok(posts)
}

/// Whether two posts are at the same position.
fn posts_repeat(posts: &Vec<i32>) -> (b: bool)
    ensures
        b == has_duplicate(posts@),
{
    let n = posts.len();
    let mut j: usize = 0;
    while j < n
        invariant
            j <= n,
            n == posts@.len(),
            forall|a: int, b: int| 0 <= a < b < j ==> #[trigger] posts@[a] != #[trigger] posts@[b],
        decreases n - j,
    {
        let mut i: usize = 0;
        while i < j
            invariant
                i <= j < n,
                n == posts@.len(),
                forall|a: int| 0 <= a < i ==> #[trigger] posts@[a] != posts@[j as int],
            decreases j - i,
        {
            if posts[i] == posts[j] {
                return true;
            }
            i += 1;
        }
        j += 1;
    }
    false
}

impl VorbisFloor1 {
    /// Reads a floor of type 1, behind its type, for a setup header with
    /// `books` codebooks.
    pub fn load_for(bitreader: &mut BitReader, books: usize) -> (r: Result<VorbisFloor, Error>)
        ensures
            final(bitreader).source() == old(bitreader).source(),
            final(bitreader).consumed() >= old(bitreader).consumed(),
            match load_floor1(old(bitreader)@, books as int) {
                Ok((v, rest)) => r matches Ok(f) && f@ == FloorView::Floor1(v) && final(bitreader)@
                    == rest,
                Err(e) => r matches Err(x) && x == e,
            },
    {
        let partitions = read_field(bitreader, 5)?;
        let classes = load_values(bitreader, partitions as usize, 4)?;
        proof {
            assert forall|i: int| 0 <= i < classes@.len() implies 0 <= #[trigger] classes@[i] <= 15 by {
                crate::bits::lemma_small_range(classes@[i] as u32, 4);
            }
        }
        let maxclass = count_classes(&classes);
        let c = take_classes(bitreader, maxclass, books)?;
        let widths: [i32; 2] = [2, 4];
        assert(widths@.map_values(|w: i32| w as int) =~= seq![2int, 4]);
        let v = take_fields(bitreader, widths.as_slice())?;
        proof {
            crate::bits::lemma_small_range(v[1] as u32, 4);
            crate::bits::lemma_small_range(v[0] as u32, 2);
            lemma_range(v[1] as u32);
        }
        let rangebits = v[1];
        let maxrange: i32 = (1u32 << (rangebits as u32)) as i32;
        let mut posts = take_posts(bitreader, &classes, &c.dims, rangebits)?;
        let mut postlist: Vec<i32> = Vec::new();
        postlist.push(0);
        postlist.push(maxrange);
        let ghost tail = posts@;
        postlist.append(&mut posts);
        assert(postlist@ =~= seq![0i32, maxrange] + tail);
        if posts_repeat(&postlist) {
            return Err(Error::InvalidData);
        }
        Ok(
            VorbisFloor::Floor1(
                VorbisFloor1 {
                    partitions,
                    partitions_class: buffer_of(&classes),
                    class_dim: c.dims,
                    class_subs: c.subs,
                    class_book: c.books,
                    class_subbook: c.subbooks,
                    mult: v[0] + 1,
                    postlist: buffer_of(&postlist),
                    n: 0,
                },
            ),
        )
    }
}

proof fn lemma_range(bits: u32)
    by (bit_vector)
    requires
        bits <= 15,
    ensures
        1 <= (1u32 << bits) <= 32768,
{
}

/// The codebooks of the subclasses from subclass `i` on as they stand on
/// the wire: each plus one, in 8 bits.
pub open spec fn packed_subbooks(list: Seq<i32>, i: int) -> Seq<bool>
    decreases list.len() - i,
{
    if 0 <= i < list.len() {
        value_bits((list[i] + 1) as u32, 8) + packed_subbooks(list, i + 1)
    } else {
        Seq::empty()
    }
}

/// The class `i` as it stands on the wire.
pub open spec fn packed_class(f: Floor1View, i: int) -> Seq<bool> {
    value_bits((f.class_dim[i] - 1) as u32, 3) + value_bits(f.class_subs[i] as u32, 2) + (
    if f.class_subs[i] != 0 {
        value_bits(f.class_book[i] as u32, 8)
    } else {
        Seq::empty()
    }) + packed_subbooks(f.class_subbook[i], 0)
}

/// The classes `i` to `n` as they stand on the wire.
pub open spec fn packed_classes(f: Floor1View, i: int, n: int) -> Seq<bool>
    decreases n - i,
{
    if 0 <= i < n {
        packed_class(f, i) + packed_classes(f, i + 1, n)
    } else {
        Seq::empty()
    }
}

/// The number of posts of the first `k` partitions.
pub open spec fn post_total(classes: Seq<i32>, dims: Seq<i32>, k: int) -> int
    decreases k,
{
    if k <= 0 {
        0
    } else {
        post_total(classes, dims, k - 1) + dims[classes[k - 1] as int]
    }
}

/// The number of bits of a post: as many as the greatest position needs.
pub open spec fn post_bits(f: Floor1View) -> int {
    if f.postlist[1] >= 1 {
        spec_ilog(f.postlist[1] - 1)
    } else {
        64
    }
}

/// The class of a partition is none of the classes that all the lists
/// of the floor know, or has a negative number of posts.
pub open spec fn partition_unfit(f: Floor1View, i: int) -> bool {
    let c = f.partitions_class[i];
    c < 0 || c >= f.class_dim.len() || c >= f.class_subs.len() || c >= f.class_book.len() || c
        >= f.class_subbook.len() || f.class_dim[c as int] < 0
}

/// Why a floor of type 1 cannot be packed, if it cannot: it has no two
/// first posts, a partition of a class that the lists do not know, fewer
/// posts than the partitions ask for, or posts of a width that no field
/// has.
pub open spec fn floor1_refusal(f: Floor1View) -> Option<Error> {
    let total = post_total(f.partitions_class, f.class_dim, f.partitions_class.len() as int);
    if f.postlist.len() < 2 || (exists|i: int|
        0 <= i < f.partitions_class.len() && #[trigger] partition_unfit(f, i)) {
        Some(Error::InvalidData)
    } else if f.postlist.len() < 2 + total {
        Some(Error::InvalidData)
    } else if total > 0 && post_bits(f) > 32 {
        Some(Error::InvalidInput)
    } else {
        None
    }
}

/// The floor of type 1 as it stands on the wire, its type first.
pub open spec fn packed_floor1(f: Floor1View) -> Seq<bool> {
    let classes = f.partitions_class;
    value_bits(1, 16) + value_bits(f.partitions as u32, 5) + packed_numbers(
        classes,
        0,
        classes.len() as int,
        4,
    ) + packed_classes(f, 0, class_count(classes, classes.len() as int)) + value_bits(
        (f.mult - 1) as u32,
        2,
    ) + value_bits(post_bits(f) as u32, 4) + packed_numbers(
        f.postlist.skip(2),
        0,
        post_total(classes, f.class_dim, classes.len() as int),
        post_bits(f),
    )
}

/// What packing a floor of type 1 gives.
pub open spec fn pack_floor1(f: Floor1View) -> Result<Seq<bool>, Error> {
    match floor1_refusal(f) {
        Some(e) => Err(e),
        None => Ok(packed_floor1(f)),
    }
}

fn put_subbooks(writer: &mut BitWriter, list: &IntBuffer)
    requires
        old(writer).has_room(packed_subbooks(list@, 0).len()),
    ensures
        final(writer)@ == old(writer)@ + packed_subbooks(list@, 0),
        final(writer).written() == old(writer).written() + packed_subbooks(list@, 0).len(),
{
    let ghost target = writer@ + packed_subbooks(list@, 0);
    let ghost goal = writer.written() + packed_subbooks(list@, 0).len();
    let n = list.len();
    let mut i: usize = 0;
    while i < n
        invariant
            i <= n,
            n == list@.len(),
            writer@ + packed_subbooks(list@, i as int) == target,
            writer.written() + packed_subbooks(list@, i as int).len() == goal,
            target.len() + 7 <= usize::MAX,
        decreases n - i,
    {
        let ghost before = writer@;
        let v = list.at(i);
        put(writer, #[verifier::truncate] ((v as i64 + 1) as u32), 8);
        proof {
            assert(before + (value_bits((v + 1) as u32, 8) + packed_subbooks(list@, i + 1)) =~= writer@
                + packed_subbooks(list@, i + 1));
        }
        i += 1;
    }
    proof {
        assert(writer@ + Seq::<bool>::empty() =~= writer@);
    }
}

/// The posts of a vector from post 2 on.
fn later_posts(postlist: &IntBuffer) -> (b: IntBuffer)
    requires
        postlist@.len() >= 2,
    ensures
        b@ == postlist@.skip(2),
{
    // Asking for the length tells that it is within the limit of a buffer.
    let _ = postlist.len();
    let all = postlist.to_vec();
    let ghost items = all@;
    let rest = vstd::slice::slice_subrange(all.as_slice(), 2, all.len());
    assert(rest@ =~= items.skip(2));
    IntBuffer::from_slice(rest)
}

impl VorbisFloor1 {
    /// The number of classes and of posts that are packed, if the floor
    /// can be packed.
    fn check_packable(&self) -> (r: Result<(usize, usize, i32), Error>)
        ensures
            match floor1_refusal(self@) {
                Some(e) => r == Err::<(usize, usize, i32), Error>(e),
                None => r matches Ok(t) && t.0 == class_count(
                    self.partitions_class@,
                    self.partitions_class@.len() as int,
                ) && t.1 == post_total(
                    self.partitions_class@,
                    self.class_dim@,
                    self.partitions_class@.len() as int,
                ) && t.2 == post_bits(self@) && t.0 <= self.class_dim@.len() && t.0
                    <= self.class_subs@.len() && t.0 <= self.class_book@.len() && t.0
                    <= self.class_subbook@.len() && 2 + t.1 <= self.postlist@.len() && (t.1 > 0 ==> t.2
                    <= 32) && 0 <= t.2 <= 64,
            },
    {
        let ghost f = self@;
        if self.postlist.len() < 2 {
            return Err(Error::InvalidData);
        }
        let n = self.partitions_class.len();
        let known = self.class_dim.len();
        let mut maxclass: usize = 0;
        let mut total: u64 = 0;
        let mut i: usize = 0;
        while i < n
            invariant
                i <= n,
                n == self.partitions_class@.len(),
                n <= BUFFER_LIMIT,
                BUFFER_LIMIT == 512,
                f == self@,
                known == self.class_dim@.len(),
                maxclass == class_count(self.partitions_class@, i as int),
                total == post_total(self.partitions_class@, self.class_dim@, i as int),
                total <= 0x7fff_ffff * i,
                maxclass <= known,
                maxclass <= self.class_subs@.len(),
                maxclass <= self.class_book@.len(),
                maxclass <= self.class_subbook@.len(),
                forall|k: int| 0 <= k < i ==> !#[trigger] partition_unfit(f, k),
            decreases n - i,
        {
            let c = self.partitions_class.at(i);
            if c < 0 || c as usize >= known || c as usize >= self.class_subs.len() || c as usize
                >= self.class_book.len() || c as usize >= self.class_subbook.len() {
                assert(partition_unfit(f, i as int));
                return Err(Error::InvalidData);
            }
            let dim = self.class_dim.at(c as usize);
            if dim < 0 {
                assert(partition_unfit(f, i as int));
                return Err(Error::InvalidData);
            }
            assert(!partition_unfit(f, i as int));
            if c as usize + 1 > maxclass {
                maxclass = c as usize + 1;
            }
            total = total + dim as u64;
            i += 1;
        }
        if (self.postlist.len() as u64) < 2 + total {
            return Err(Error::InvalidData);
        }
        let top = self.postlist.at(1);
        let bits: i32 = if top >= 1 {
            ilog((top - 1) as u64)
        } else {
            64
        };
        if total > 0 && bits > 32 {
            return Err(Error::InvalidInput);
        }
        Ok((maxclass, total as usize, bits))
    }

    fn put_classes(&self, writer: &mut BitWriter, n: usize)
        requires
            n <= self.class_dim@.len(),
            n <= self.class_subs@.len(),
            n <= self.class_book@.len(),
            n <= self.class_subbook@.len(),
            old(writer).has_room(packed_classes(self@, 0, n as int).len()),
        ensures
            final(writer)@ == old(writer)@ + packed_classes(self@, 0, n as int),
            final(writer).written() == old(writer).written() + packed_classes(self@, 0, n as int).len(),
    {
        let ghost f = self@;
        let ghost target = writer@ + packed_classes(f, 0, n as int);
        let ghost goal = writer.written() + packed_classes(f, 0, n as int).len();
        let mut i: usize = 0;
        while i < n
            invariant
                i <= n,
                f == self@,
                n <= self.class_dim@.len(),
                n <= self.class_subs@.len(),
                n <= self.class_book@.len(),
                n <= self.class_subbook@.len(),
                writer@ + packed_classes(f, i as int, n as int) == target,
                writer.written() + packed_classes(f, i as int, n as int).len() == goal,
                target.len() + 7 <= usize::MAX,
            decreases n - i,
        {
            let ghost before = writer@;
            let dim = self.class_dim.at(i);
            let subs = self.class_subs.at(i);
            assert(f.class_subbook[i as int] == self.class_subbook@[i as int]@);
            put(writer, #[verifier::truncate] ((dim as i64 - 1) as u32), 3);
            put(writer, #[verifier::truncate] (subs as u32), 2);
            if subs != 0 {
                put(writer, #[verifier::truncate] (self.class_book.at(i) as u32), 8);
            }
            put_subbooks(writer, &self.class_subbook[i]);
            proof {
                assert(before + (packed_class(f, i as int) + packed_classes(f, i + 1, n as int))
                    =~= writer@ + packed_classes(f, i + 1, n as int));
            }
            i += 1;
        }
        proof {
            assert(writer@ + Seq::<bool>::empty() =~= writer@);
        }
    }

    /// Appends the floor to the stream, its type first, and returns the
    /// number of bits that it takes. A floor that cannot be packed is
    /// refused before anything is written.
    pub fn pack(&self, bitwriter: &mut BitWriter) -> (r: Result<usize, Error>)
        requires
            pack_floor1(self@).is_ok() ==> old(bitwriter).has_room(packed_floor1(self@).len()),
        ensures
            match pack_floor1(self@) {
                Ok(bits) => {
                    &&& r == Ok::<usize, Error>(bits.len() as usize)
                    &&& final(bitwriter)@ == old(bitwriter)@ + bits
                    &&& final(bitwriter).written() == old(bitwriter).written() + bits.len()
                },
                Err(e) => {
                    &&& r == Err::<usize, Error>(e)
                    &&& final(bitwriter)@ == old(bitwriter)@
                    &&& final(bitwriter).written() == old(bitwriter).written()
                },
            },
    {
        let (maxclass, total, rangebits) = match self.check_packable() {
            Ok(t) => t,
            Err(e) => {
                return Err(e);
            },
        };
        let ghost before = bitwriter@;
        let begin_bits = bitwriter.total_bits();
        put(bitwriter, 1, 16);
        put(bitwriter, #[verifier::truncate] (self.partitions as u32), 5);
        put_numbers(bitwriter, &self.partitions_class, self.partitions_class.len(), 4);
        self.put_classes(bitwriter, maxclass);
        put(bitwriter, #[verifier::truncate] ((self.mult as i64 - 1) as u32), 2);
        put(bitwriter, rangebits as u32, 4);
        let posts = later_posts(&self.postlist);
        let width: i32 = if total > 0 {
            rangebits
        } else {
            0
        };
        proof {
            if total == 0 {
                assert(packed_numbers(posts@, 0, 0, rangebits as int) =~= packed_numbers(posts@, 0, 0, 0));
            }
        }
        put_numbers(bitwriter, &posts, total, width);
        assert(bitwriter@ =~= before + packed_floor1(self@));
        Ok(bitwriter.total_bits() - begin_bits)
    }
}

impl VorbisFloor {
    /// Why the floor cannot be packed, if it cannot.
    pub(crate) fn refusal(&self) -> (r: Option<Error>)
        ensures
            r == (match Self::spec_pack(self@) {
                Ok(bits) => None::<Error>,
                Err(e) => Some(e),
            }),
    {
        match self {
            VorbisFloor::Floor0(f) => None,
            VorbisFloor::Floor1(f) => match f.check_packable() {
                Ok(t) => None,
                Err(e) => Some(e),
            },
        }
    }

    /// What loading a floor gives: its type in 16 bits, and the floor of
    /// that type.
    pub open spec fn spec_load(s: Seq<bool>, books: Seq<BookSpec>) -> Result<(FloorView, Seq<bool>), Error> {
        match spec_read(s, 16) {
            Err(e) => Err(e),
            Ok((floor_type, s1)) => if floor_type == 0 {
                match load_floor0(s1, books) {
                    Err(e) => Err(e),
                    Ok((v, rest)) => Ok((FloorView::Floor0(v), rest)),
                }
            } else if floor_type == 1 {
                match load_floor1(s1, books.len() as int) {
                    Err(e) => Err(e),
                    Ok((v, rest)) => Ok((FloorView::Floor1(v), rest)),
                }
            } else {
                Err(Error::InvalidData)
            },
        }
    }

    /// What packing a floor gives: nothing for a floor of type 0, and the
    /// packed form, behind its type, for a floor of type 1.
    pub open spec fn spec_pack(f: FloorView) -> Result<Seq<bool>, Error> {
        match f {
            FloorView::Floor0(v) => Ok(Seq::empty()),
            FloorView::Floor1(v) => pack_floor1(v),
        }
    }

    /// Reads a floor for a setup header with the codebooks `books`.
    pub fn load_for(bitreader: &mut BitReader, books: &Vec<StaticCodeBook>) -> (r: Result<Self, Error>)
        ensures
            final(bitreader).source() == old(bitreader).source(),
            final(bitreader).consumed() >= old(bitreader).consumed(),
            match Self::spec_load(old(bitreader)@, books_view(books@)) {
                Ok((v, rest)) => r matches Ok(f) && f@ == v && final(bitreader)@ == rest,
                Err(e) => r matches Err(x) && x == e,
            },
    {
        let floor_type = read_field(bitreader, 16)?;
        if floor_type == 0 {
            VorbisFloor0::load_for(bitreader, books)
        } else if floor_type == 1 {
            VorbisFloor1::load_for(bitreader, books.len())
        } else {
            Err(Error::InvalidData)
        }
    }

    /// The type of the floor.
    pub fn get_type(&self) -> (t: u16)
        ensures
            t == (match self@ {
                FloorView::Floor0(v) => 0u16,
                FloorView::Floor1(v) => 1u16,
            }),
    {
        match self {
            VorbisFloor::Floor0(f) => 0,
            VorbisFloor::Floor1(f) => 1,
        }
    }

    /// Appends the floor to the stream and returns the number of bits
    /// that it takes.
    pub fn pack(&self, bitwriter: &mut BitWriter) -> (r: Result<usize, Error>)
        requires
            Self::spec_pack(self@) matches Ok(bits) ==> old(bitwriter).has_room(bits.len()),
        ensures
            match Self::spec_pack(self@) {
                Ok(bits) => {
                    &&& r == Ok::<usize, Error>(bits.len() as usize)
                    &&& final(bitwriter)@ == old(bitwriter)@ + bits
                    &&& final(bitwriter).written() == old(bitwriter).written() + bits.len()
                },
                Err(e) => {
                    &&& r == Err::<usize, Error>(e)
                    &&& final(bitwriter)@ == old(bitwriter)@
                    &&& final(bitwriter).written() == old(bitwriter).written()
                },
            },
    {
        match self {
            VorbisFloor::Floor0(f) => {
                assert(bitwriter@ + Seq::<bool>::empty() =~= bitwriter@);
                f.pack(bitwriter)
            },
            VorbisFloor::Floor1(f) => f.pack(bitwriter),
        }
    }
}

impl Default for VorbisFloor0 {
    /// The floor with every number zero and without codebooks.
    fn default() -> (r: Self)
        ensures
            r@ == (Floor0View { order: 0, rate: 0, barkmap: 0, ampbits: 0, ampdB: 0, books: Seq::empty() }),
    {
        VorbisFloor0 { order: 0, rate: 0, barkmap: 0, ampbits: 0, ampdB: 0, books: IntBuffer::new() }
    }
}

} // verus!
