//! Decoding and encoding errors and their messages.

use vstd::prelude::*;

verus! {

/// Why a bit stream could not be decoded.
#[derive(Clone, Copy, Debug, PartialEq, Eq, Structural)]
pub enum ParseError {
    /// A read would go past the end of the data.
    Eof,
    /// A fixed-size byte array does not start on a byte boundary.
    UnalignedSlice,
    /// A byte vector does not start on a byte boundary.
    UnalignedVec,
    /// A C string does not start on a byte boundary.
    UnalignedCStr,
    /// The data ends before the terminating zero byte of a C string.
    MissingNul,
    /// No variant of an enumeration accepts the tag that was read.
    InvalidTag,
    /// A size, skip or condition expression has no value: it names a field
    /// that holds no integer, or its arithmetic leaves the integer range.
    BadExpression,
    /// A bit position or a byte count does not fit in `usize`.
    OffsetOverflow,
    /// The layout cannot describe a value (an excluded enumeration, a cast
    /// into a type that holds no integer).
    BadLayout,
}

/// Why a value could not be encoded.
#[derive(Clone, Copy, Debug, PartialEq, Eq, Structural)]
pub enum WriteError {
    /// A fixed-size byte array would start inside a byte.
    UnalignedSlice,
    /// A byte vector would start inside a byte.
    UnalignedVec,
    /// A C string would start inside a byte.
    UnalignedCStr,
    /// More than 64 bits are written as one integer.
    TooWide,
    /// A skip expression has no value.
    BadExpression,
    /// The value does not have the shape that the layout describes.
    ShapeMismatch,
    /// A bit position or the buffer length does not fit in `usize`.
    OffsetOverflow,
}

impl ParseError {
    /// The message that a declared type's `parse_bits` reports for this
    /// error.
    pub fn message(&self) -> (res: &'static str)
        ensures
            res@ == match *self {
                ParseError::Eof => "EOF"@,
                ParseError::UnalignedSlice => "Unaligned byte read for slice"@,
                ParseError::UnalignedVec => "Unaligned byte read for Vec"@,
                ParseError::UnalignedCStr => "Unaligned byte read for CStr"@,
                ParseError::MissingNul => "EOF before null terminator"@,
                ParseError::InvalidTag => "Invalid enum variant tag"@,
                ParseError::BadExpression => "Expression has no value"@,
                ParseError::OffsetOverflow => "Offset overflow"@,
                ParseError::BadLayout => "Layout cannot describe a value"@,
            },
    {
        match self {
            ParseError::Eof => "EOF",
            ParseError::UnalignedSlice => "Unaligned byte read for slice",
            ParseError::UnalignedVec => "Unaligned byte read for Vec",
            ParseError::UnalignedCStr => "Unaligned byte read for CStr",
            ParseError::MissingNul => "EOF before null terminator",
            ParseError::InvalidTag => "Invalid enum variant tag",
            ParseError::BadExpression => "Expression has no value",
            ParseError::OffsetOverflow => "Offset overflow",
            ParseError::BadLayout => "Layout cannot describe a value",
        }
    }
}

impl WriteError {
    /// The message that a declared type's `write_bits` panics with for this
    /// error.
    pub fn message(&self) -> (res: &'static str)
        ensures
            res@ == match *self {
                WriteError::UnalignedSlice => "Unaligned byte write for slice"@,
                WriteError::UnalignedVec => "Unaligned byte write for Vec"@,
                WriteError::UnalignedCStr => "Unaligned byte write for CStr"@,
                WriteError::TooWide => "Write wider than 64 bits"@,
                WriteError::BadExpression => "Expression has no value"@,
                WriteError::ShapeMismatch => "Value does not match its layout"@,
                WriteError::OffsetOverflow => "Offset overflow"@,
            },
    {
        match self {
            WriteError::UnalignedSlice => "Unaligned byte write for slice",
            WriteError::UnalignedVec => "Unaligned byte write for Vec",
            WriteError::UnalignedCStr => "Unaligned byte write for CStr",
            WriteError::TooWide => "Write wider than 64 bits",
            WriteError::BadExpression => "Expression has no value",
            WriteError::ShapeMismatch => "Value does not match its layout",
            WriteError::OffsetOverflow => "Offset overflow",
        }
    }
}

} // verus!
