//! Runs of bit fields: what writing them yields and what reading them back
//! gives.

use crate::bits::{
    lemma_signed_pattern, lemma_small_is_masked, lemma_value_of_value_bits, low_mask,
    value_bits,
};
use crate::numeric::spec_ilog;
use crate::error::Error;
use crate::reader::spec_read;
use vstd::prelude::*;

verus! {

/// A bit field: a value and the number of bits it is written in.
pub struct Field {
    pub value: u32,
    pub width: int,
}

impl Field {
    /// The width is one that the reader and the writer accept, and the
    /// value fits in it.
    pub open spec fn fits(self) -> bool {
        &&& 0 <= self.width <= 32
        &&& self.value & low_mask(self.width as u32) == self.value
    }
}

/// The stream that writing the fields in order produces.
pub open spec fn written_fields(fields: Seq<Field>) -> Seq<bool>
    decreases fields.len(),
{
    if fields.len() == 0 {
        Seq::empty()
    } else {
        value_bits(fields[0].value, fields[0].width as nat) + written_fields(fields.drop_first())
    }
}

/// What reading fields of the given widths in order from `s` gives: the
/// values and the bits that remain, or the first failure.
pub open spec fn read_fields(s: Seq<bool>, widths: Seq<int>) -> Result<(Seq<i32>, Seq<bool>), Error>
    decreases widths.len(),
{
    if widths.len() == 0 {
        Ok((Seq::empty(), s))
    } else {
        match spec_read(s, widths[0]) {
            Err(e) => Err(e),
            Ok((v, rest)) => match read_fields(rest, widths.drop_first()) {
                Err(e) => Err(e),
                Ok((vs, end)) => Ok((seq![v] + vs, end)),
            },
        }
    }
}

/// The total width of the fields.
pub open spec fn total_width(fields: Seq<Field>) -> int
    decreases fields.len(),
{
    if fields.len() == 0 {
        0
    } else {
        fields[0].width + total_width(fields.drop_first())
    }
}

/// A field that was written is read back as it was: reading `w` bits from
/// a stream that starts with the `w` low bits of `v` gives `v` masked to
/// `w` bits and leaves what follows the field.
pub proof fn lemma_read_after_write(v: u32, w: int, rest: Seq<bool>)
    requires
        0 <= w <= 32,
    ensures
        spec_read(value_bits(v, w as nat) + rest, w) == Ok::<(i32, Seq<bool>), Error>(
            ((v & low_mask(w as u32)) as i32, rest),
        ),
{
    let s = value_bits(v, w as nat) + rest;
    assert(s.take(w) =~= value_bits(v, w as nat));
    assert(s.skip(w) =~= rest);
    lemma_value_of_value_bits(v, w as nat);
}

/// Reader and writer are inverse: fields that are written one after
/// another, each value fitting its width, are read back with the same
/// values in the same order; the reader consumes exactly the bits that the
/// writer produced, which are as many as the widths add up to.
pub proof fn lemma_read_written_fields(fields: Seq<Field>, rest: Seq<bool>)
    requires
        forall|i: int| 0 <= i < fields.len() ==> (#[trigger] fields[i]).fits(),
    ensures
        read_fields(written_fields(fields) + rest, fields.map_values(|f: Field| f.width))
            == Ok::<(Seq<i32>, Seq<bool>), Error>(
            (fields.map_values(|f: Field| f.value as i32), rest),
        ),
        written_fields(fields).len() == total_width(fields),
    decreases fields.len(),
{
    let widths = fields.map_values(|f: Field| f.width);
    let values = fields.map_values(|f: Field| f.value as i32);
    if fields.len() == 0 {
        assert(written_fields(fields) + rest =~= rest);
        assert(values =~= Seq::<i32>::empty());
    } else {
        let f = fields[0];
        let tail = fields.drop_first();
        assert(f.fits());
        assert forall|i: int| 0 <= i < tail.len() implies (#[trigger] tail[i]).fits() by {
            assert(fields[i + 1].fits());
        }
        lemma_read_written_fields(tail, rest);
        let after = written_fields(tail) + rest;
        lemma_read_after_write(f.value, f.width, after);
        assert(written_fields(fields) + rest =~= value_bits(f.value, f.width as nat) + after);
        assert(widths.drop_first() =~= tail.map_values(|f: Field| f.width));
        assert(values =~= seq![f.value as i32] + tail.map_values(|f: Field| f.value as i32));
    }
}

/// The value `v` is not negative and needs at most `w` bits.
pub open spec fn fits(v: int, w: int) -> bool {
    0 <= v && spec_ilog(v) <= w
}

proof fn lemma_double_is_small(v: u32, w: u32)
    by (bit_vector)
    requires
        w <= 31,
        v == 0 || (w > 0 && (v / 2) < (1u32 << ((w - 1) as u32))),
    ensures
        v < (1u32 << w),
{
}

/// A value that needs at most `w` bits is below two to the power `w`.
pub proof fn lemma_fits_is_small(v: u32, w: u32)
    requires
        spec_ilog(v as int) <= w <= 31,
    ensures
        v < (1u32 << w),
    decreases v,
{
    if v > 0 {
        crate::numeric::lemma_ilog_is_bit_length(v as int / 2);
        lemma_fits_is_small(v / 2, (w - 1) as u32);
    }
    lemma_double_is_small(v, w);
}

/// A value that fits its field is read back from it unchanged.
pub proof fn lemma_field_roundtrip(x: i32, w: int, rest: Seq<bool>)
    requires
        0 <= w <= 31,
        fits(x as int, w),
    ensures
        spec_read(value_bits(x as u32, w as nat) + rest, w) == Ok::<(i32, Seq<bool>), Error>((x, rest)),
{
    lemma_read_after_write(x as u32, w, rest);
    lemma_fits_is_small(x as u32, w as u32);
    lemma_small_is_masked(x as u32, w as u32);
    lemma_signed_pattern(x as u32, x);
}

/// A pattern of 32 bits is read back as the signed integer with the same
/// bits.
pub proof fn lemma_pattern_roundtrip(p: u32, rest: Seq<bool>)
    ensures
        spec_read(value_bits(p, 32) + rest, 32) == Ok::<(i32, Seq<bool>), Error>((p as i32, rest)),
        (p as i32) as u32 == p,
{
    lemma_read_after_write(p, 32, rest);
    lemma_small_is_masked(p, 32);
    lemma_signed_pattern(p, 0);
}

} // verus!
