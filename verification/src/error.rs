//! The closed set of error kinds raised by the library.

use vstd::prelude::*;

verus! {

/// Every failure the library can report.
///
/// Decode errors abort the call that met them; none is silently recovered.
#[derive(Clone, Debug, PartialEq, Eq)]
pub enum TdmsError {
    /// A read or seek went past the end of the available bytes.
    IoError,
    /// The four magic bytes at the head of a segment are wrong.
    InvalidMagic,
    /// A lead-in carried a version number the library does not know.
    UnknownVersion(u32),
    /// A type tag that is not one of the known `DataType` values.
    UnknownDataType(u32),
    /// A length-prefixed string did not hold valid UTF-8.
    InvalidUtf8,
    /// A channel was read into a storage type that does not accept its
    /// on-disk data type; carries the storage type's natural data type and
    /// the data type found.
    TypeMismatch(DataTypePair),
    /// A `MatchPrevious` raw-data index named an object with no previous
    /// data layout on record.
    MissingPreviousIndex(String),
    /// A raw-data index declared an array dimension other than one.
    UnsupportedArrayDim(u32),
    /// Variable-length strings cannot appear in an interleaved block.
    StringInInterleavedBlock,
    /// A lookup named an object path the index does not hold.
    MissingObject(String),
    /// A lookup named a property the object does not hold.
    MissingProperty(String, String),
    /// Channel lengths that were required to agree did not.
    InconsistentChannelLengths,
    /// The flat value slice handed to the writer does not divide evenly
    /// over the channels.
    WriteSliceLenMismatch,
}

/// The expected and found data types of a failed typed read.  The
/// expected field carries the storage type's natural data type, which
/// stands for its whole supported set (a plain float storage type, for
/// example, also accepts the unit-tagged float).
#[derive(Clone, Copy, Debug, PartialEq, Eq, Structural)]
pub struct DataTypePair {
    pub expected: crate::data_types::DataType,
    pub got: crate::data_types::DataType,
}

} // verus!
