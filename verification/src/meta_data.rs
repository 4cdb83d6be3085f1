//! Segment metadata: the table-of-contents bitfield, raw-data indices,
//! per-object metadata and segment descriptions.

use vstd::prelude::*;

use crate::data_types::{DataType, F64Bits};
use crate::error::TdmsError;

verus! {

/// The number of bytes in a segment lead-in.
pub const LEAD_IN_BYTES: u64 = 28;

/// The table-of-contents bitfield of a segment lead-in.
///
/// The bitfield is stored little-endian in the lead-in whatever the data
/// endianness; the `big_endian` flag governs only metadata and payload.
#[derive(Clone, Copy, Debug, PartialEq, Eq, Structural)]
pub struct ToC {
    pub contains_meta_data: bool,
    pub contains_new_object_list: bool,
    pub contains_raw_data: bool,
    pub contains_daqmx_raw_data: bool,
    pub data_is_interleaved: bool,
    pub big_endian: bool,
}

/// The flags named by a 32-bit table-of-contents value, each one bit
/// of the field.
pub open spec fn spec_toc_from_u32(v: u32) -> ToC {
    ToC {
        contains_meta_data: (v / 0x2) % 2 == 1,
        contains_new_object_list: (v / 0x4) % 2 == 1,
        contains_raw_data: (v / 0x8) % 2 == 1,
        contains_daqmx_raw_data: (v / 0x80) % 2 == 1,
        data_is_interleaved: (v / 0x20) % 2 == 1,
        big_endian: (v / 0x40) % 2 == 1,
    }
}

impl ToC {
    /// Decode the bitfield read from a lead-in.
    pub fn from_u32(v: u32) -> (t: ToC)
        ensures
            t == spec_toc_from_u32(v),
    {
        proof {
            assert((v & 0x2 != 0) == ((v / 0x2) % 2 == 1) && (v & 0x4 != 0) == ((v / 0x4) % 2
                == 1) && (v & 0x8 != 0) == ((v / 0x8) % 2 == 1) && (v & 0x80 != 0) == ((v / 0x80)
                % 2 == 1) && (v & 0x20 != 0) == ((v / 0x20) % 2 == 1) && (v & 0x40 != 0) == ((v
                / 0x40) % 2 == 1)) by (bit_vector);
        }
        ToC {
            contains_meta_data: v & 0x2 != 0,
            contains_new_object_list: v & 0x4 != 0,
            contains_raw_data: v & 0x8 != 0,
            contains_daqmx_raw_data: v & 0x80 != 0,
            data_is_interleaved: v & 0x20 != 0,
            big_endian: v & 0x40 != 0,
        }
    }

    /// The 32-bit value that stores these flags, one bit each.
    pub open spec fn spec_as_u32(self) -> u32 {
        ((if self.contains_meta_data {
            0x2u32
        } else {
            0u32
        }) + (if self.contains_new_object_list {
            0x4u32
        } else {
            0u32
        }) + (if self.contains_raw_data {
            0x8u32
        } else {
            0u32
        }) + (if self.contains_daqmx_raw_data {
            0x80u32
        } else {
            0u32
        }) + (if self.data_is_interleaved {
            0x20u32
        } else {
            0u32
        }) + (if self.big_endian {
            0x40u32
        } else {
            0u32
        })) as u32
    }

    /// Encode the flags for a lead-in.
    pub fn as_u32(self) -> (v: u32)
        ensures
            v == self.spec_as_u32(),
    {
        let mut v: u32 = 0;
        if self.contains_meta_data {
            v = v + 0x2;
        }
        if self.contains_new_object_list {
            v = v + 0x4;
        }
        if self.contains_raw_data {
            v = v + 0x8;
        }
        if self.contains_daqmx_raw_data {
            v = v + 0x80;
        }
        if self.data_is_interleaved {
            v = v + 0x20;
        }
        if self.big_endian {
            v = v + 0x40;
        }
        v
    }

    /// Decoding a stored table of contents gives the flags back: the
    /// writer and the reader agree on every bitfield.
    pub proof fn lemma_toc_round_trip(self)
        ensures
            spec_toc_from_u32(self.spec_as_u32()) == self,
    {
    }
}

/// An absolute point in time as the format stores it: whole seconds and
/// positive binary fractions of a second.
#[derive(Clone, Copy, Debug, PartialEq, Eq, Structural)]
pub struct TdmsTimestamp {
    pub seconds: i64,
    pub fractions: u64,
}

/// A value stored in an object property.  Equality is structural.
///
/// A double-precision property carries its IEEE 754 bit pattern, as
/// [`F64Bits`] does for channel values.
#[derive(Clone, Debug, PartialEq)]
pub enum PropertyValue {
    I32(i32),
    U32(u32),
    U64(u64),
    Double(F64Bits),
    Boolean(bool),
    String(String),
    TimeStamp(TdmsTimestamp),
}

/// The shape of one channel's raw data within a segment.
#[derive(Clone, Copy, Debug, PartialEq, Eq)]
pub struct RawDataMeta {
    pub data_type: DataType,
    pub number_of_values: u64,
    /// Present only for variable-length (string) channels.
    pub total_size_bytes: Option<u64>,
}

/// Whether two raw-data descriptions are the same, field for field.
pub fn raw_data_meta_eq(a: &RawDataMeta, b: &RawDataMeta) -> (r: bool)
    ensures
        r == (a == b),
{
    a.data_type == b.data_type && a.number_of_values == b.number_of_values && match (
        a.total_size_bytes,
        b.total_size_bytes,
    ) {
        (Option::None, Option::None) => true,
        (Option::Some(x), Option::Some(y)) => x == y,
        _ => false,
    }
}

/// The raw-data index of one object in one segment.
///
/// DAQmx raw-data indices lie outside this data model: such segments
/// are recognized only through the table of contents'
/// `contains_daqmx_raw_data` flag, so that higher layers can refuse
/// them cleanly, and their index bodies are not represented here.
#[derive(Clone, Debug, PartialEq)]
pub enum RawDataIndex {
    /// The object carries no data in this segment.
    NoData,
    /// The object reuses its previous data layout.
    MatchPrevious,
    /// A full description of the object's data in this segment.
    RawData(RawDataMeta),
}

/// One object of a segment's metadata: its path, its properties in
/// first-seen order, and its raw-data index.
#[derive(Clone, Debug, PartialEq)]
pub struct ObjectMetaData {
    pub path: String,
    pub properties: Vec<(String, PropertyValue)>,
    pub raw_data_index: RawDataIndex,
}

/// The specification-level image of one object's metadata: the path and
/// property names as character sequences.
#[verifier::ext_equal]
pub struct ObjectMetaView {
    pub path: Seq<char>,
    pub properties: Seq<(Seq<char>, PropertyValue)>,
    pub raw_data_index: RawDataIndex,
}

impl View for ObjectMetaData {
    type V = ObjectMetaView;

    open spec fn view(&self) -> ObjectMetaView {
        ObjectMetaView {
            path: self.path@,
            properties: Seq::new(
                self.properties@.len(),
                |i: int| (self.properties@[i].0@, self.properties@[i].1),
            ),
            raw_data_index: self.raw_data_index,
        }
    }
}

/// A segment's metadata block.
#[derive(Clone, Debug, PartialEq)]
pub struct MetaData {
    pub objects: Vec<ObjectMetaData>,
}

/// A whole segment as the scanner consumes it: the lead-in fields and
/// the decoded object list.
#[derive(Clone, Debug, PartialEq)]
pub struct SegmentMetaData {
    pub toc: ToC,
    /// Offset from the end of the lead-in to the next segment.
    pub next_segment_offset: u64,
    /// Offset from the end of the lead-in to the raw data.
    pub raw_data_offset: u64,
    pub objects: Vec<ObjectMetaData>,
}

/// The specification-level image of a segment.
#[verifier::ext_equal]
pub struct SegmentMetaView {
    pub toc: ToC,
    pub next_segment_offset: u64,
    pub raw_data_offset: u64,
    pub objects: Seq<ObjectMetaView>,
}

impl View for SegmentMetaData {
    type V = SegmentMetaView;

    open spec fn view(&self) -> SegmentMetaView {
        SegmentMetaView {
            toc: self.toc,
            next_segment_offset: self.next_segment_offset,
            raw_data_offset: self.raw_data_offset,
            objects: Seq::new(self.objects@.len(), |i: int| self.objects@[i]@),
        }
    }
}

impl SegmentMetaData {
    /// A segment's offsets are consistent when the raw data lies inside
    /// the segment and the total size fits the machine.
    pub open spec fn offsets_wf(&self) -> bool {
        &&& self.raw_data_offset <= self.next_segment_offset
        &&& self.next_segment_offset + LEAD_IN_BYTES <= u64::MAX
    }

    /// The total size of the segment: the lead-in plus everything the
    /// `next_segment_offset` spans.
    pub fn total_size_bytes(&self) -> (r: u64)
        requires
            self.offsets_wf(),
        ensures
            r == self.next_segment_offset + LEAD_IN_BYTES,
    {
        self.next_segment_offset + LEAD_IN_BYTES
    }
}

/// A segment as read back from a file, with its metadata block optional.
#[derive(Clone, Debug, PartialEq)]
pub struct Segment {
    pub toc: ToC,
    pub next_segment_offset: u64,
    pub raw_data_offset: u64,
    pub meta_data: Option<MetaData>,
}

/// The fixed-layout fields of a segment lead-in.
#[derive(Clone, Copy, Debug, PartialEq, Eq, Structural)]
pub struct LeadIn {
    pub toc: ToC,
    pub version: u32,
    pub next_segment_offset: u64,
    pub raw_data_offset: u64,
}

/// Whether a lead-in version number is one this library knows.
pub open spec fn spec_version_supported(v: u32) -> bool {
    v == 4712 || v == 4713
}

/// Whether a lead-in version number is one this library knows; an
/// unknown version is surfaced to the caller, who decides whether to
/// read on.
pub fn version_supported(v: u32) -> (r: bool)
    ensures
        r == spec_version_supported(v),
{
    v == 4712 || v == 4713
}

/// Whether 28 bytes at `pos` decode as a lead-in: they are present and
/// open with the four magic bytes.
pub open spec fn spec_lead_in_decodable(data: Seq<u8>, pos: int) -> bool {
    &&& pos + LEAD_IN_BYTES <= data.len()
    &&& data.subrange(pos, pos + 4) == seq![0x54u8, 0x44u8, 0x53u8, 0x6Du8]
}

/// The lead-in 28 bytes at `pos` decode to.  All lead-in integers are
/// little-endian whatever the data endianness; only the decoded flags
/// say how metadata and payload follow.
pub open spec fn spec_decode_lead_in(data: Seq<u8>, pos: int) -> LeadIn {
    LeadIn {
        toc: spec_toc_from_u32(crate::byte_io::from_le32(data.subrange(pos + 4, pos + 8))),
        version: crate::byte_io::from_le32(data.subrange(pos + 8, pos + 12)),
        next_segment_offset: crate::byte_io::from_le64(data.subrange(pos + 12, pos + 20)),
        raw_data_offset: crate::byte_io::from_le64(data.subrange(pos + 20, pos + 28)),
    }
}

/// Decode the 28-byte lead-in at the cursor.
///
/// A short read is an end-of-stream failure and missing magic bytes
/// are fatal; either way the position is restored.  The version is
/// decoded but not judged: an unknown version is surfaced through
/// [`version_supported`] and reading on is the caller's choice.
pub fn decode_lead_in(reader: &mut crate::byte_io::ByteCursor) -> (r: Result<LeadIn, TdmsError>)
    requires
        old(reader).wf(),
    ensures
        final(reader).data == old(reader).data,
        final(reader).wf(),
        match r {
            Ok(lead_in) => {
                &&& spec_lead_in_decodable(old(reader).data@, old(reader).pos as int)
                &&& lead_in == spec_decode_lead_in(old(reader).data@, old(reader).pos as int)
                &&& final(reader).pos == old(reader).pos + LEAD_IN_BYTES
            },
            Err(e) => {
                &&& final(reader).pos == old(reader).pos
                &&& !spec_lead_in_decodable(old(reader).data@, old(reader).pos as int)
                &&& (e == TdmsError::IoError || e == TdmsError::InvalidMagic)
                &&& e == TdmsError::InvalidMagic ==> old(reader).pos + LEAD_IN_BYTES <= old(
                    reader,
                ).data@.len()
            },
        },
{
    let save = reader.pos;
    let magic = match reader.take_bytes(4) {
        Ok(b) => b,
        Err(e) => {
            return Err(e);
        },
    };
    // a short lead-in after sound magic is still an end-of-stream
    // failure, so check the full 28 bytes are present first
    if reader.data.len() - save < 28 {
        reader.pos = save;
        return Err(TdmsError::IoError);
    }
    if !(magic[0] == 0x54 && magic[1] == 0x44 && magic[2] == 0x53 && magic[3] == 0x6D) {
        proof {
            let m = old(reader).data@.subrange(save as int, save + 4);
            assert(m[0] == magic@[0] && m[1] == magic@[1] && m[2] == magic@[2] && m[3]
                == magic@[3]);
            assert(m != seq![0x54u8, 0x44u8, 0x53u8, 0x6Du8]);
        }
        reader.pos = save;
        return Err(TdmsError::InvalidMagic);
    }
    proof {
        assert(old(reader).data@.subrange(save as int, save + 4) =~= seq![
            0x54u8,
            0x44u8,
            0x53u8,
            0x6Du8,
        ]);
    }
    let toc_value = match crate::byte_io::read_u32_le(reader) {
        Ok(v) => v,
        Err(_) => {
            reader.pos = save;
            return Err(TdmsError::IoError);
        },
    };
    let version = match crate::byte_io::read_u32_le(reader) {
        Ok(v) => v,
        Err(_) => {
            reader.pos = save;
            return Err(TdmsError::IoError);
        },
    };
    let next_segment_offset = match crate::byte_io::read_u64_le(reader) {
        Ok(v) => v,
        Err(_) => {
            reader.pos = save;
            return Err(TdmsError::IoError);
        },
    };
    let raw_data_offset = match crate::byte_io::read_u64_le(reader) {
        Ok(v) => v,
        Err(_) => {
            reader.pos = save;
            return Err(TdmsError::IoError);
        },
    };
    let toc = ToC::from_u32(toc_value);
    proof {
        let data = old(reader).data@;
        let p = save as int;
        crate::byte_io::lemma_codec32(toc_value, data.subrange(p + 4, p + 8));
        crate::byte_io::lemma_codec32(version, data.subrange(p + 8, p + 12));
        crate::byte_io::lemma_codec64(next_segment_offset, data.subrange(p + 12, p + 20));
        crate::byte_io::lemma_codec64(raw_data_offset, data.subrange(p + 20, p + 28));
    }
    Ok(LeadIn { toc, version, next_segment_offset, raw_data_offset })
}

} // verus!
