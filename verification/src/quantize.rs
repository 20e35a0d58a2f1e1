//! Which quantized values stand for the entries of a codebook.
//!
//! An entry of a codebook stands for one value in each dimension, and each
//! of these values is made from a quantized value of the codebook's list.
//! Here it is decided which quantized value that is; the arithmetic that
//! makes the value from it works on floating-point numbers and is not part
//! of this library.

use crate::codebook::{BookSpec, StaticCodeBook};
use crate::error::Error;
use crate::numeric::{is_lattice_root, lattice_quantvals, lattice_root};
use vstd::arithmetic::power::pow;
use vstd::prelude::*;

verus! {

/// The place, in the list of quantized values, of the value that stands
/// for dimension `k` of entry `j`. In a lattice (map type 1) the entry
/// number is read as a number of `dim` digits to the base of the number
/// of quantized values, the lowest digit first, and the digit is the
/// place; in a value list each entry has `dim` places of its own.
pub open spec fn quant_index(b: BookSpec, j: int, k: int) -> int {
    if b.maptype == 1 {
        let q = lattice_quantvals(b.entries as int, b.dim as int);
        (j / pow(q, k as nat)) % q
    } else {
        j * b.dim + k
    }
}

/// Entry `j` has a place in the list for each of its dimensions.
pub open spec fn row_fits(b: BookSpec, j: int) -> bool {
    forall|k: int| 0 <= k < b.dim ==> 0 <= #[trigger] quant_index(b, j, k) < b.quantlist.len()
}

/// The quantized values of entry `j`, one for each dimension.
pub open spec fn quant_row(b: BookSpec, j: int) -> Seq<i32> {
    Seq::new(
        if b.dim >= 0 {
            b.dim as nat
        } else {
            0
        },
        |k: int| b.quantlist[quant_index(b, j, k)],
    )
}

/// Entry `j` is among those that values are made for: every entry, or,
/// where only the entries in use are wanted, those with a codeword.
pub open spec fn takes_part(b: BookSpec, sparse: bool, j: int) -> bool {
    !sparse || (0 <= j < b.lengthlist.len() && b.lengthlist[j] != 0)
}

/// The quantized values of those of the first `n` entries that take
/// part, entry by entry.
pub open spec fn quant_rows(b: BookSpec, sparse: bool, n: int) -> Seq<i32>
    decreases n,
{
    if n <= 0 {
        Seq::empty()
    } else if takes_part(b, sparse, n - 1) {
        quant_rows(b, sparse, n - 1) + quant_row(b, n - 1)
    } else {
        quant_rows(b, sparse, n - 1)
    }
}

/// Every entry that takes part has its places in the list.
pub open spec fn rows_fit(b: BookSpec, sparse: bool, n: int) -> bool {
    forall|j: int| 0 <= j < n && takes_part(b, sparse, j) ==> #[trigger] row_fits(b, j)
}

/// The quantized values of a codebook, entry by entry: they exist for the
/// map types 1 and 2, where the code lengths are there to tell which
/// entries are in use, and where the list holds every value that is asked
/// for.
pub open spec fn spec_quantized_values(b: BookSpec, sparse: bool) -> Result<Seq<i32>, Error> {
    if b.maptype != 1 && b.maptype != 2 {
        Err(Error::InvalidInput)
    } else if sparse && b.lengthlist.len() < b.entries {
        Err(Error::InvalidData)
    } else if !rows_fit(b, sparse, b.entries as int) {
        Err(Error::InvalidData)
    } else {
        Ok(quant_rows(b, sparse, b.entries as int))
    }
}

/// The values of one entry of a lattice.
fn lattice_row(book: &StaticCodeBook, j: i32, quantvals: i32) -> (r: Option<Vec<i32>>)
    requires
        book.maptype == 1,
        0 <= j < book.entries,
        quantvals == lattice_quantvals(book.entries as int, book.dim as int),
        book.dim >= 1 ==> is_lattice_root(quantvals as int, book.entries as int, book.dim as int),
    ensures
        r.is_some() == row_fits(book@, j as int),
        r matches Some(row) ==> row@ == quant_row(book@, j as int),
{
    let ghost b = book@;
    let mut row: Vec<i32> = Vec::new();
    let mut indexdiv: u64 = 1;
    let mut k: i32 = 0;
    proof {
        vstd::arithmetic::power::lemma_pow0(quantvals as int);
    }
    while k < book.dim
        invariant
            0 <= k,
            k <= book.dim || (book.dim < 0 && k == 0),
            b == book@,
            book.maptype == 1,
            0 <= j < book.entries,
            quantvals == lattice_quantvals(book.entries as int, book.dim as int),
            book.dim >= 1 ==> is_lattice_root(quantvals as int, book.entries as int, book.dim as int),
            indexdiv == pow(quantvals as int, k as nat),
            1 <= indexdiv <= book.entries,
            row@.len() == k,
            forall|i: int| 0 <= i < k ==> 0 <= #[trigger] quant_index(b, j as int, i) < b.quantlist.len(),
            forall|i: int| 0 <= i < k ==> #[trigger] row@[i] == b.quantlist[quant_index(b, j as int, i)],
        decreases book.dim - k,
    {
        let index: u64 = ((j as u64) / indexdiv) % (quantvals as u64);
        assert(index == quant_index(b, j as int, k as int));
        if index >= book.quantlist.len() as u64 {
            return None;
        }
        row.push(book.quantlist[index as usize]);
        proof {
            vstd::arithmetic::power::lemma_pow_increases(quantvals as nat, (k + 1) as nat, book.dim as nat);
            assert(pow(quantvals as int, (k + 1) as nat) == quantvals * pow(quantvals as int, k as nat)) by {
                reveal(pow);
            }
            assert(quantvals * pow(quantvals as int, k as nat) == indexdiv * quantvals) by (nonlinear_arith)
                requires
                    indexdiv == pow(quantvals as int, k as nat),
            ;
            assert(1 <= indexdiv * quantvals) by (nonlinear_arith)
                requires
                    1 <= indexdiv,
                    1 <= quantvals,
            ;
        }
        indexdiv = indexdiv * (quantvals as u64);
        k = k + 1;
    }
    assert(row@ =~= quant_row(b, j as int));
    Some(row)
}

/// The values of one entry of a value list.
fn listed_row(book: &StaticCodeBook, j: i32) -> (r: Option<Vec<i32>>)
    requires
        book.maptype != 1,
        0 <= j,
    ensures
        r.is_some() == row_fits(book@, j as int),
        r matches Some(row) ==> row@ == quant_row(book@, j as int),
{
    let ghost b = book@;
    let mut row: Vec<i32> = Vec::new();
    let mut k: i32 = 0;
    while k < book.dim
        invariant
            0 <= k,
            k <= book.dim || (book.dim < 0 && k == 0),
            0 <= j,
            b == book@,
            book.maptype != 1,
            row@.len() == k,
            forall|i: int| 0 <= i < k ==> 0 <= #[trigger] quant_index(b, j as int, i) < b.quantlist.len(),
            forall|i: int| 0 <= i < k ==> #[trigger] row@[i] == b.quantlist[quant_index(b, j as int, i)],
        decreases book.dim - k,
    {
        assert(0 <= j * book.dim <= 0x7fff_ffff * 0x7fff_ffff) by (nonlinear_arith)
            requires
                0 <= j <= 0x7fff_ffff,
                0 <= book.dim <= 0x7fff_ffff,
        ;
        let index: u64 = (j as u64) * (book.dim as u64) + (k as u64);
        assert(index == quant_index(b, j as int, k as int));
        if index >= book.quantlist.len() as u64 {
            return None;
        }
        row.push(book.quantlist[index as usize]);
        k = k + 1;
    }
    assert(row@ =~= quant_row(b, j as int));
    Some(row)
}

impl StaticCodeBook {
    /// The quantized values that stand for the entries, entry by entry
    /// and, for each entry, dimension by dimension: for every entry, or,
    /// with `sparse`, for the entries in use only. The value of a
    /// dimension is made from the quantized value, the least value and
    /// the step of the codebook.
    pub fn quantized_values(&self, sparse: bool) -> (r: Result<Vec<i32>, Error>)
        ensures
            match spec_quantized_values(self@, sparse) {
                Ok(values) => r matches Ok(v) && v@ == values,
                Err(e) => r matches Err(x) && x == e,
            },
    {
        if self.maptype != 1 && self.maptype != 2 {
            return Err(Error::InvalidInput);
        }
        if sparse && self.entries > 0 && self.lengthlist.len() < self.entries as usize {
            return Err(Error::InvalidData);
        }
        let quantvals = if self.maptype == 1 {
            lattice_root(self.entries, self.dim)
        } else {
            0
        };
        let mut out: Vec<i32> = Vec::new();
        let mut j: i32 = 0;
        while j < self.entries
            invariant
                0 <= j,
                j <= self.entries || (self.entries < 0 && j == 0),
                self.maptype == 1 || self.maptype == 2,
                sparse ==> self.lengthlist@.len() >= self.entries,
                self.maptype == 1 ==> quantvals == lattice_quantvals(self.entries as int, self.dim as int),
                self.maptype == 1 && self.entries >= 1 && self.dim >= 1 ==> is_lattice_root(
                    quantvals as int,
                    self.entries as int,
                    self.dim as int,
                ),
                rows_fit(self@, sparse, j as int),
                out@ == quant_rows(self@, sparse, j as int),
            decreases self.entries - j,
        {
            if !sparse || self.lengthlist[j as usize] != 0 {
                let row = if self.maptype == 1 {
                    lattice_row(self, j, quantvals)
                } else {
                    listed_row(self, j)
                };
                match row {
                    Some(mut row) => {
                        out.append(&mut row);
                    },
                    None => {
                        assert(takes_part(self@, sparse, j as int));
                        assert(!rows_fit(self@, sparse, self.entries as int));
                        return Err(Error::InvalidData);
                    },
                }
            }
            j = j + 1;
        }
        Ok(out)
    }
}

} // verus!
