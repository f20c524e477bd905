//! What can go wrong while decoding, as typed conditions.

use bytemuck::PodCastError;
use crate::value::DmapType;
use vstd::prelude::*;

verus! {

/// The broad classes of decoding failures.
#[derive(Debug, Clone, Copy, PartialEq, Eq, Structural)]
pub enum ErrorKind {
    /// The cursor or a length lies outside the buffer: the input is truncated.
    Bounds,
    /// A declared size or count disagrees with the buffer or with what was
    /// consumed.
    SizeIntegrity,
    /// A type tag outside the tag table.
    BadTag,
    /// The bytes of a fixed-width number could not be reinterpreted.
    Cast,
    /// A string without terminator, or one that is not UTF-8.
    TextDecode,
}

/// The exact condition that made a decoding step fail.
#[derive(Debug, Clone, Copy, PartialEq, Eq, Structural)]
pub enum Fault {
    /// The cursor lies beyond the end of the buffer.
    CursorOutOfBuffer,
    /// Fewer bytes remain than the value is wide.
    BufferTooShort,
    /// The cast of one byte to a `char` failed.
    InterpretChar,
    /// The cast of two bytes to a `short` failed.
    InterpretShort,
    /// The cast of two bytes to a `ushort` failed.
    InterpretUshort,
    /// The cast of four bytes to an `int` failed.
    InterpretInt,
    /// The cast of four bytes to a `uint` failed.
    InterpretUint,
    /// The cast of eight bytes to a `long` failed.
    InterpretLong,
    /// The cast of eight bytes to a `ulong` failed.
    InterpretUlong,
    /// The cast of four bytes to a `float` failed.
    InterpretFloat,
    /// The cast of eight bytes to a `double` failed.
    InterpretDouble,
    /// The buffer ends before the zero byte that closes a string.
    UnterminatedString,
    /// The bytes of a string are not UTF-8.
    InvalidString,
    /// A key outside the tag table.
    InvalidKey,
    /// The type tag of a scalar is outside the tag table.
    ScalarTypeCorrupted,
    /// The type tag of an array is outside the tag table.
    ArrayTypeCorrupted,
    /// The size field of a record exceeds what is left of the buffer.
    RecordSizeExceedsBuffer,
    /// The size field of a record is zero or negative.
    RecordSizeNotPositive,
    /// The scalar count of a record is zero or negative.
    ScalarCountNotPositive,
    /// The array count of a record is zero or negative.
    ArrayCountNotPositive,
    /// A record declares more entries than bytes.
    ElementCountExceedsSize,
    /// The bytes consumed by a record differ from its size field.
    RecordSizeMismatch,
    /// An array declares more dimensions than the record has bytes.
    DimensionCountExceedsSize,
    /// An array declares zero or a negative number of dimensions.
    DimensionCountNotPositive,
    /// A dimension of an array is zero or negative.
    DimensionNotPositive,
    /// A dimension of an array exceeds the size of the record.
    DimensionExceedsSize,
    /// An array declares more elements than the record has bytes.
    ElementsExceedSize,
    /// The elements of an array take more bytes than the record has.
    ArrayExceedsSize,
}

impl Fault {
    /// The class that a condition belongs to.
    pub open spec fn spec_kind(self) -> ErrorKind {
        match self {
            Fault::CursorOutOfBuffer | Fault::BufferTooShort => ErrorKind::Bounds,
            Fault::InterpretChar
            | Fault::InterpretShort
            | Fault::InterpretUshort
            | Fault::InterpretInt
            | Fault::InterpretUint
            | Fault::InterpretLong
            | Fault::InterpretUlong
            | Fault::InterpretFloat
            | Fault::InterpretDouble => ErrorKind::Cast,
            Fault::UnterminatedString | Fault::InvalidString => ErrorKind::TextDecode,
            Fault::InvalidKey | Fault::ScalarTypeCorrupted | Fault::ArrayTypeCorrupted => {
                ErrorKind::BadTag
            },
            Fault::RecordSizeExceedsBuffer
            | Fault::RecordSizeNotPositive
            | Fault::ScalarCountNotPositive
            | Fault::ArrayCountNotPositive
            | Fault::ElementCountExceedsSize
            | Fault::RecordSizeMismatch
            | Fault::DimensionCountExceedsSize
            | Fault::DimensionCountNotPositive
            | Fault::DimensionNotPositive
            | Fault::DimensionExceedsSize
            | Fault::ElementsExceedSize
            | Fault::ArrayExceedsSize => ErrorKind::SizeIntegrity,
        }
    }

    #[verifier::when_used_as_spec(spec_kind)]
    pub fn kind(self) -> (k: ErrorKind)
        ensures
            k == self.spec_kind(),
    {
        match self {
            Fault::CursorOutOfBuffer | Fault::BufferTooShort => ErrorKind::Bounds,
            Fault::InterpretChar
            | Fault::InterpretShort
            | Fault::InterpretUshort
            | Fault::InterpretInt
            | Fault::InterpretUint
            | Fault::InterpretLong
            | Fault::InterpretUlong
            | Fault::InterpretFloat
            | Fault::InterpretDouble => ErrorKind::Cast,
            Fault::UnterminatedString | Fault::InvalidString => ErrorKind::TextDecode,
            Fault::InvalidKey | Fault::ScalarTypeCorrupted | Fault::ArrayTypeCorrupted => {
                ErrorKind::BadTag
            },
            _ => ErrorKind::SizeIntegrity,
        }
    }

    /// The text of a condition.
    pub open spec fn text(self) -> Seq<char> {
        match self {
            Fault::CursorOutOfBuffer => {
                "READ DATA: Cursor extends out of buffer. Data is likely corrupted"@
            },
            Fault::BufferTooShort => {
                "READ DATA: Byte offsets into buffer are not properly aligned. Data is likely corrupted"@
            },
            Fault::InterpretChar => "READ DATA: Unable to interpret char"@,
            Fault::InterpretShort => "READ DATA: Unable to interpret short"@,
            Fault::InterpretUshort => "READ DATA: Unable to interpret ushort"@,
            Fault::InterpretInt => "READ DATA: Unable to interpret int"@,
            Fault::InterpretUint => "READ DATA: Unable to interpret uint"@,
            Fault::InterpretLong => "READ DATA: Unable to interpret long"@,
            Fault::InterpretUlong => "READ DATA: Unable to interpret ulong"@,
            Fault::InterpretFloat => "READ DATA: Unable to interpret float"@,
            Fault::InterpretDouble => "READ DATA: Unable to interpret double"@,
            Fault::UnterminatedString => {
                "READ DATA: String is improperly terminated. Dmap record is corrupted"@
            },
            Fault::InvalidString => "READ DATA: Unable to interpret string"@,
            Fault::InvalidKey => "Invalid key for DMAP type"@,
            Fault::ScalarTypeCorrupted => {
                "PARSE SCALAR: Data type is corrupted. Record is likely corrupted"@
            },
            Fault::ArrayTypeCorrupted => {
                "PARSE ARRAY: Data type is corrupted. Record is likely corrupted"@
            },
            Fault::RecordSizeExceedsBuffer => {
                "PARSE RECORD: Integrity check shows record size bigger than remaining buffer. Data is likely corrupted"@
            },
            Fault::RecordSizeNotPositive => {
                "PARSE RECORD: Integrity check shows record size <= 0. Data is likely corrupted"@
            },
            Fault::ScalarCountNotPositive => {
                "PARSE RECORD: Number of scalers is 0 or negative."@
            },
            Fault::ArrayCountNotPositive => "PARSE RECORD: Number of arrays is 0 or negative."@,
            Fault::ElementCountExceedsSize => {
                "PARSE RECORD: Invalid number of record elements. Array or scaler field is likely corrupted."@
            },
            Fault::RecordSizeMismatch => {
                "PARSE RECORD: Bytes read does not match the records size field"@
            },
            Fault::DimensionCountExceedsSize => {
                "PARSE ARRAY: Parsed # of array dimensions are larger than record size. Record is likely corrupted"@
            },
            Fault::DimensionCountNotPositive => {
                "PARSE ARRAY: Parsed # of array dimensions are zero or negative. Record is likely corrupted"@
            },
            Fault::DimensionNotPositive => {
                "PARSE ARRAY: Array dimension is zero or negative. Record is likely corrupted"@
            },
            Fault::DimensionExceedsSize => "PARSE ARRAY: Array dimension exceeds record size"@,
            Fault::ElementsExceedSize => "PARSE ARRAY: Total array elements > record size."@,
            Fault::ArrayExceedsSize => {
                "PARSE ARRAY: Array size exceeds record size. Data is likely corrupted"@
            },
        }
    }

    /// The condition in words.
    pub fn message(self) -> (s: &'static str)
        ensures
            s@ == self.text(),
    {
        match self {
            Fault::CursorOutOfBuffer => {
                "READ DATA: Cursor extends out of buffer. Data is likely corrupted"
            },
            Fault::BufferTooShort => {
                "READ DATA: Byte offsets into buffer are not properly aligned. Data is likely corrupted"
            },
            Fault::InterpretChar => "READ DATA: Unable to interpret char",
            Fault::InterpretShort => "READ DATA: Unable to interpret short",
            Fault::InterpretUshort => "READ DATA: Unable to interpret ushort",
            Fault::InterpretInt => "READ DATA: Unable to interpret int",
            Fault::InterpretUint => "READ DATA: Unable to interpret uint",
            Fault::InterpretLong => "READ DATA: Unable to interpret long",
            Fault::InterpretUlong => "READ DATA: Unable to interpret ulong",
            Fault::InterpretFloat => "READ DATA: Unable to interpret float",
            Fault::InterpretDouble => "READ DATA: Unable to interpret double",
            Fault::UnterminatedString => {
                "READ DATA: String is improperly terminated. Dmap record is corrupted"
            },
            Fault::InvalidString => "READ DATA: Unable to interpret string",
            Fault::InvalidKey => "Invalid key for DMAP type",
            Fault::ScalarTypeCorrupted => {
                "PARSE SCALAR: Data type is corrupted. Record is likely corrupted"
            },
            Fault::ArrayTypeCorrupted => {
                "PARSE ARRAY: Data type is corrupted. Record is likely corrupted"
            },
            Fault::RecordSizeExceedsBuffer => {
                "PARSE RECORD: Integrity check shows record size bigger than remaining buffer. Data is likely corrupted"
            },
            Fault::RecordSizeNotPositive => {
                "PARSE RECORD: Integrity check shows record size <= 0. Data is likely corrupted"
            },
            Fault::ScalarCountNotPositive => "PARSE RECORD: Number of scalers is 0 or negative.",
            Fault::ArrayCountNotPositive => "PARSE RECORD: Number of arrays is 0 or negative.",
            Fault::ElementCountExceedsSize => {
                "PARSE RECORD: Invalid number of record elements. Array or scaler field is likely corrupted."
            },
            Fault::RecordSizeMismatch => {
                "PARSE RECORD: Bytes read does not match the records size field"
            },
            Fault::DimensionCountExceedsSize => {
                "PARSE ARRAY: Parsed # of array dimensions are larger than record size. Record is likely corrupted"
            },
            Fault::DimensionCountNotPositive => {
                "PARSE ARRAY: Parsed # of array dimensions are zero or negative. Record is likely corrupted"
            },
            Fault::DimensionNotPositive => {
                "PARSE ARRAY: Array dimension is zero or negative. Record is likely corrupted"
            },
            Fault::DimensionExceedsSize => "PARSE ARRAY: Array dimension exceeds record size",
            Fault::ElementsExceedSize => "PARSE ARRAY: Total array elements > record size.",
            Fault::ArrayExceedsSize => {
                "PARSE ARRAY: Array size exceeds record size. Data is likely corrupted"
            },
        }
    }
}

/// A decoding failure: the condition, and what was found where that helps to
/// diagnose it.
#[derive(Debug, Clone)]
pub enum DmapError {
    /// A condition with the raw bytes that gave rise to it.
    Parse(Fault, Vec<u8>),
    /// A condition with the offending value.
    BadVal(Fault, DmapType),
    /// A condition alone.
    Message(Fault),
    /// A failed reinterpretation of bytes, with its cause. The decoder hands
    /// every cast as many bytes as the type is wide, and on these no cast
    /// fails: no decoding function hands this error back.
    CastError(Fault, PodCastError),
}

impl DmapError {
    /// The condition that an error reports.
    pub open spec fn spec_fault(&self) -> Fault {
        match *self {
            DmapError::Parse(f, _) => f,
            DmapError::BadVal(f, _) => f,
            DmapError::Message(f) => f,
            DmapError::CastError(f, _) => f,
        }
    }

    #[verifier::when_used_as_spec(spec_fault)]
    pub fn fault(&self) -> (f: Fault)
        ensures
            f == self.spec_fault(),
    {
        match self {
            DmapError::Parse(f, _) => *f,
            DmapError::BadVal(f, _) => *f,
            DmapError::Message(f) => *f,
            DmapError::CastError(f, _) => *f,
        }
    }

    /// The class of an error.
    pub fn kind(&self) -> (k: ErrorKind)
        ensures
            k == self.spec_fault().spec_kind(),
    {
        self.fault().kind()
    }

    /// The error in words.
    pub fn message(&self) -> (s: &'static str)
        ensures
            s@ == self.spec_fault().text(),
    {
        self.fault().message()
    }
}

} // verus!
