use vstd::prelude::*;

verus! {

/// Why an operation on the bitstream failed.
#[derive(Clone, Copy, Debug, PartialEq, Eq, Structural)]
pub enum Error {
    /// The input is malformed: a bad magic value, inconsistent lengths, an
    /// index out of range, a code length list that is no valid tree.
    InvalidData,
    /// The input ends before the field that was asked for.
    UnexpectedEof,
    /// The caller passed an argument outside the accepted range.
    InvalidInput,
}

impl Error {
    /// A short description of the failure.
    pub fn message(&self) -> (s: &'static str)
        ensures
            s@ == (match *self {
                Error::InvalidData => "invalid data"@,
                Error::UnexpectedEof => "unexpected end of data"@,
                Error::InvalidInput => "invalid input"@,
            }),
    {
        match self {
            Error::InvalidData => "invalid data",
            Error::UnexpectedEof => "unexpected end of data",
            Error::InvalidInput => "invalid input",
        }
    }
}

} // verus!
