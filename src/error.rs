use vstd::prelude::*;

verus! {

/// What can go wrong while reading zone records.
#[derive(Debug, Clone, Copy, PartialEq, Eq, Structural)]
pub enum ParseError {
    /// An offset does not split into exactly three `:`-separated fields.
    MalformedOffset,
    /// A field of an offset is not a valid 32-bit integer.
    InvalidNumber,
    /// A row lacks one of the columns that a zone record is built from.
    MissingField,
    /// The input could not be read as CSV.
    IOError,
    /// Neither an IANA directory nor a CSV file was given.
    NoInputSource,
}

} // verus!
