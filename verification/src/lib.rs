//! An in-memory reader/writer core for the TDMS measurement-data container
//! format.
//!
//! A TDMS file is a concatenation of self-describing segments.  This crate
//! models the format's incremental segment rules: a binary codec for the
//! primitive storage types, the table-of-contents bitfield, the segment
//! scanner that rebuilds the effective per-channel state across segments,
//! random access to contiguous or interleaved data blocks, and a writer that
//! appends segments while keeping its own scanner in lockstep.
//!
//! All byte sources and sinks are in-memory (`ByteCursor`, `Vec<u8>`); a host
//! application owns the actual file handles and hands the bytes over.

pub mod byte_io;
pub mod data_types;
pub mod error;
pub mod file_writer;
pub mod index;
pub mod meta_data;
pub mod raw_data;

pub use byte_io::ByteCursor;
pub use data_types::{DataType, TdmsStorageType};
pub use error::TdmsError;
pub use file_writer::TdmsFileWriter;
pub use index::{DataLocation, FileScanner, Index};
pub use meta_data::{
    ObjectMetaData, PropertyValue, RawDataIndex, RawDataMeta, SegmentMetaData, ToC,
};
pub use raw_data::{DataBlock, DataLayout, Endianess};
