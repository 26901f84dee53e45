//! The error taxonomy shared by every encode and decode operation.

use vstd::prelude::*;

verus! {

/// Why an encode, decode, or narrowing conversion failed.
///
/// Every failure aborts the current call immediately; no partial value is
/// ever returned.
#[derive(Debug, Clone, Copy, PartialEq, Eq, Structural)]
pub enum Error {
    /// The input ended before the operation could complete.
    UnexpectedEnd,
    /// Malformed data: excess varint bits, an invalid boolean byte, an
    /// invalid Unicode scalar value, an out-of-range enum discriminant, or
    /// malformed UTF-8 text.
    InvalidEncoding,
    /// A decoded unsigned value does not fit the requested integer width.
    NarrowingOverflow,
}

impl Error {
    /// A short human-readable description of the error kind.
    pub fn describe(&self) -> (r: &'static str)
        ensures
            r@ == match *self {
                Error::UnexpectedEnd => "unexpected end of input"@,
                Error::InvalidEncoding => "invalid encoding"@,
                Error::NarrowingOverflow => "narrowing overflow"@,
            },
    {
        match *self {
            Error::UnexpectedEnd => "unexpected end of input",
            Error::InvalidEncoding => "invalid encoding",
            Error::NarrowingOverflow => "narrowing overflow",
        }
    }
}

} // verus!
