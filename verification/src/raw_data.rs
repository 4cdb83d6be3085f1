//! Random access to the raw data blocks of a file.
//!
//! A [`DataBlock`] records where one segment's payload lies, how it is
//! laid out, and which channels it carries; the readers execute planned
//! reads out of an in-memory byte source.

use vstd::prelude::*;

use crate::byte_io::ByteCursor;
use crate::data_types::{spec_tag_of, DataType, TdmsStorageType};
use crate::error::{DataTypePair, TdmsError};
use crate::meta_data::{RawDataMeta, Segment, ToC, LEAD_IN_BYTES};

verus! {

/// How a block's channel values are laid out in the payload.
#[derive(Clone, Copy, PartialEq, Eq, Debug, Structural)]
pub enum DataLayout {
    Interleaved,
    Contigious,
}

/// The byte order of a block's metadata and payload.
#[derive(Clone, Copy, PartialEq, Eq, Debug, Structural)]
pub enum Endianess {
    Big,
    Little,
}

/// Represents a block of data inside the file for fast random access.
#[derive(Clone, PartialEq, Debug)]
pub struct DataBlock {
    /// Absolute byte offset of the payload.
    pub start: u64,
    /// Length allows detection where an existing segment is just
    /// extended.
    pub length: u64,
    pub layout: DataLayout,
    pub channels: Vec<RawDataMeta>,
    pub byte_order: Endianess,
}

/// The specification-level image of a data block.
#[verifier::ext_equal]
pub struct DataBlockView {
    pub start: u64,
    pub length: u64,
    pub layout: DataLayout,
    pub channels: Seq<RawDataMeta>,
    pub byte_order: Endianess,
}

impl View for DataBlock {
    type V = DataBlockView;

    open spec fn view(&self) -> DataBlockView {
        DataBlockView {
            start: self.start,
            length: self.length,
            layout: self.layout,
            channels: self.channels@,
            byte_order: self.byte_order,
        }
    }
}

/// The block that a segment at the given absolute start, with the given
/// effective channel list, lays out.
pub open spec fn spec_block(
    toc: ToC,
    next_segment_offset: u64,
    raw_data_offset: u64,
    segment_start: u64,
    channels: Seq<RawDataMeta>,
) -> DataBlockView {
    DataBlockView {
        start: (raw_data_offset + LEAD_IN_BYTES + segment_start) as u64,
        length: (next_segment_offset - raw_data_offset) as u64,
        layout: if toc.data_is_interleaved {
            DataLayout::Interleaved
        } else {
            DataLayout::Contigious
        },
        channels,
        byte_order: if toc.big_endian {
            Endianess::Big
        } else {
            Endianess::Little
        },
    }
}

/// Build a data block from a segment's lead-in fields.
pub(crate) fn block_from_parts(
    toc: ToC,
    next_segment_offset: u64,
    raw_data_offset: u64,
    segment_start: u64,
    channels: Vec<RawDataMeta>,
) -> (b: DataBlock)
    requires
        raw_data_offset <= next_segment_offset,
        segment_start + LEAD_IN_BYTES + raw_data_offset <= u64::MAX,
    ensures
        b@ == spec_block(toc, next_segment_offset, raw_data_offset, segment_start, channels@),
{
    let byte_order = if toc.big_endian {
        Endianess::Big
    } else {
        Endianess::Little
    };
    let layout = if toc.data_is_interleaved {
        DataLayout::Interleaved
    } else {
        DataLayout::Contigious
    };
    DataBlock {
        start: raw_data_offset + LEAD_IN_BYTES + segment_start,
        length: next_segment_offset - raw_data_offset,
        layout,
        channels,
        byte_order,
    }
}

/// The fixed byte width of one value of a data type, or `None` for
/// variable-length and unsupported types.
pub open spec fn spec_type_size(d: DataType) -> Option<int> {
    match d {
        DataType::I8 => Some(1int),
        DataType::I16 => Some(2int),
        DataType::I32 => Some(4int),
        DataType::I64 => Some(8int),
        DataType::U8 => Some(1int),
        DataType::U16 => Some(2int),
        DataType::U32 => Some(4int),
        DataType::U64 => Some(8int),
        DataType::SingleFloat => Some(4int),
        DataType::DoubleFloat => Some(8int),
        DataType::SingleFloatWithUnit => Some(4int),
        DataType::DoubleFloatWithUnit => Some(8int),
        DataType::Boolean => Some(1int),
        DataType::TimeStamp => Some(16int),
        DataType::ComplexSingleFloat => Some(8int),
        DataType::ComplexDoubleFloat => Some(16int),
        _ => Option::None,
    }
}

/// The fixed byte width of one value of a data type.
pub fn type_size_of(d: &DataType) -> (r: Option<u64>)
    ensures
        match r {
            Some(s) => spec_type_size(*d) == Some(s as int),
            Option::None => spec_type_size(*d) is None,
        },
{
    match d {
        DataType::I8 => Some(1),
        DataType::I16 => Some(2),
        DataType::I32 => Some(4),
        DataType::I64 => Some(8),
        DataType::U8 => Some(1),
        DataType::U16 => Some(2),
        DataType::U32 => Some(4),
        DataType::U64 => Some(8),
        DataType::SingleFloat => Some(4),
        DataType::DoubleFloat => Some(8),
        DataType::SingleFloatWithUnit => Some(4),
        DataType::DoubleFloatWithUnit => Some(8),
        DataType::Boolean => Some(1),
        DataType::TimeStamp => Some(16),
        DataType::ComplexSingleFloat => Some(8),
        DataType::ComplexDoubleFloat => Some(16),
        _ => Option::None,
    }
}

/// The total byte size of one channel's data in a contiguous block, or
/// the error met computing it: strings without a recorded total and
/// types without a fixed width cannot be sized, and a size beyond the
/// machine's range reads as an end-of-stream failure.
pub open spec fn spec_chan_size(m: RawDataMeta) -> Result<int, TdmsError> {
    if m.data_type is TdmsString {
        match m.total_size_bytes {
            Some(t) => Ok(t as int),
            Option::None => Err(TdmsError::UnknownDataType(spec_tag_of(m.data_type))),
        }
    } else {
        match spec_type_size(m.data_type) {
            Some(s) => if m.number_of_values * s > u64::MAX {
                Err(TdmsError::IoError)
            } else {
                Ok(m.number_of_values * s)
            },
            Option::None => Err(TdmsError::UnknownDataType(spec_tag_of(m.data_type))),
        }
    }
}

/// The byte offset of channel `i` from the start of a contiguous
/// block: the sum of the sizes of the channels before it, or the first
/// error met along the way.
pub open spec fn spec_skip_sizes(channels: Seq<RawDataMeta>, i: int) -> Result<int, TdmsError>
    decreases i,
{
    if i <= 0 {
        Ok(0int)
    } else {
        match spec_skip_sizes(channels, i - 1) {
            Err(e) => Err(e),
            Ok(off) => match spec_chan_size(channels[i - 1]) {
                Err(e) => Err(e),
                Ok(sz) => if off + sz > u64::MAX {
                    Err(TdmsError::IoError)
                } else {
                    Ok(off + sz)
                },
            },
        }
    }
}

/// The total byte size of one channel's data in a contiguous block.
fn chan_size_of(m: &RawDataMeta) -> (r: Result<u64, TdmsError>)
    ensures
        match r {
            Ok(v) => spec_chan_size(*m) == Ok::<int, TdmsError>(v as int),
            Err(e) => spec_chan_size(*m) == Err::<int, TdmsError>(e),
        },
{
    if matches!(m.data_type, DataType::TdmsString) {
        match m.total_size_bytes {
            Some(t) => Ok(t),
            Option::None => Err(TdmsError::UnknownDataType(m.data_type.as_tag())),
        }
    } else {
        match type_size_of(&m.data_type) {
            Some(s) => match m.number_of_values.checked_mul(s) {
                Some(v) => Ok(v),
                Option::None => Err(TdmsError::IoError),
            },
            Option::None => Err(TdmsError::UnknownDataType(m.data_type.as_tag())),
        }
    }
}

/// The byte width of one element of a channel in an interleaved block:
/// variable-length strings are a fatal format error there.
pub open spec fn spec_elem_size(m: RawDataMeta) -> Result<int, TdmsError> {
    if m.data_type is TdmsString {
        Err(TdmsError::StringInInterleavedBlock)
    } else {
        match spec_type_size(m.data_type) {
            Some(s) => Ok(s),
            Option::None => Err(TdmsError::UnknownDataType(spec_tag_of(m.data_type))),
        }
    }
}

/// The byte offset within one interleaved record of channel `i`: the
/// sum of the element widths of the channels before it.
pub open spec fn spec_record_offsets(channels: Seq<RawDataMeta>, i: int) -> Result<int, TdmsError>
    decreases i,
{
    if i <= 0 {
        Ok(0int)
    } else {
        match spec_record_offsets(channels, i - 1) {
            Err(e) => Err(e),
            Ok(off) => match spec_elem_size(channels[i - 1]) {
                Err(e) => Err(e),
                Ok(sz) => if off + sz > u64::MAX {
                    Err(TdmsError::IoError)
                } else {
                    Ok(off + sz)
                },
            },
        }
    }
}

/// The smallest record count over the first `i` channels; where the
/// counts differ, the minimum governs what a reader returns.
pub open spec fn spec_min_count(channels: Seq<RawDataMeta>, i: int) -> int
    decreases i,
{
    if i <= 1 {
        if channels.len() == 0 {
            0int
        } else {
            channels[0].number_of_values as int
        }
    } else {
        let prev = spec_min_count(channels, i - 1);
        if channels[i - 1].number_of_values < prev {
            channels[i - 1].number_of_values as int
        } else {
            prev
        }
    }
}

/// A run of `count` values decodes one after another from `pos`.
pub open spec fn run_decodable<D: TdmsStorageType>(
    data: Seq<u8>,
    pos: int,
    count: int,
    big_endian: bool,
) -> bool
    decreases count,
{
    count <= 0 || {
        &&& 0 <= pos <= data.len()
        &&& D::decodable(data.skip(pos), big_endian)
        &&& pos + D::dec_len(data.skip(pos), big_endian) <= data.len()
        &&& run_decodable::<D>(data, pos + D::dec_len(data.skip(pos), big_endian), count - 1, big_endian)
    }
}

/// The values `vals` stand encoded one after another from `start` to
/// `end`.
pub open spec fn decoded_run<D: TdmsStorageType>(
    data: Seq<u8>,
    start: int,
    vals: Seq<D>,
    end: int,
    big_endian: bool,
) -> bool
    decreases vals.len(),
{
    if vals.len() == 0 {
        end == start && 0 <= start <= data.len()
    } else {
        &&& 0 <= start
        &&& start + vals[0].spec_size() <= data.len()
        &&& vals[0].spec_writable()
        &&& vals[0].enc(big_endian) == data.subrange(start, start + vals[0].spec_size())
        &&& decoded_run(data, start + vals[0].spec_size(), vals.drop_first(), end, big_endian)
    }
}

/// Where a decoded run ends and a longer decodable run was promised,
/// another value is decodable at the end of the run.
proof fn lemma_run_continues<D: TdmsStorageType>(
    data: Seq<u8>,
    start: int,
    vals: Seq<D>,
    end: int,
    count: int,
    big_endian: bool,
)
    requires
        decoded_run(data, start, vals, end, big_endian),
        run_decodable::<D>(data, start, count, big_endian),
        vals.len() < count,
    ensures
        0 <= end <= data.len(),
        D::decodable(data.skip(end), big_endian),
    decreases vals.len(),
{
    if vals.len() == 0 {
    } else {
        let v = vals[0];
        let next = start + v.spec_size();
        assert(data.skip(start) =~= v.enc(big_endian) + data.skip(next));
        D::lemma_encoding_laws(v, data.skip(next), big_endian);
        assert(D::dec_len(data.skip(start), big_endian) == v.spec_size());
        lemma_run_continues::<D>(data, next, vals.drop_first(), end, count - 1, big_endian);
    }
}

/// A decoded run grows by one value encoded at its end.
proof fn lemma_decoded_run_snoc<D: TdmsStorageType>(
    data: Seq<u8>,
    start: int,
    vals: Seq<D>,
    p: int,
    v: D,
    big_endian: bool,
)
    requires
        decoded_run(data, start, vals, p, big_endian),
        p + v.spec_size() <= data.len(),
        v.spec_writable(),
        v.enc(big_endian) == data.subrange(p, p + v.spec_size()),
    ensures
        decoded_run(data, start, vals.push(v), p + v.spec_size(), big_endian),
    decreases vals.len(),
{
    if vals.len() == 0 {
        assert(vals.push(v)[0] == v);
        assert(vals.push(v).drop_first() =~= Seq::<D>::empty());
        assert(decoded_run(
            data,
            p + v.spec_size(),
            Seq::<D>::empty(),
            p + v.spec_size(),
            big_endian,
        ));
    } else {
        assert(vals.push(v)[0] == vals[0]);
        assert(vals.push(v).drop_first() =~= vals.drop_first().push(v));
        lemma_decoded_run_snoc::<D>(
            data,
            start + vals[0].spec_size(),
            vals.drop_first(),
            p,
            v,
            big_endian,
        );
    }
}

/// A decoded run is in particular a decodable run.
proof fn lemma_decoded_implies_run<D: TdmsStorageType>(
    data: Seq<u8>,
    start: int,
    vals: Seq<D>,
    end: int,
    big_endian: bool,
)
    requires
        decoded_run(data, start, vals, end, big_endian),
    ensures
        run_decodable::<D>(data, start, vals.len() as int, big_endian),
    decreases vals.len(),
{
    if vals.len() > 0 {
        let v = vals[0];
        let next = start + v.spec_size();
        assert(data.skip(start) =~= v.enc(big_endian) + data.skip(next));
        D::lemma_encoding_laws(v, data.skip(next), big_endian);
        lemma_decoded_implies_run::<D>(data, next, vals.drop_first(), end, big_endian);
    }
}

/// Read `count` values one after another from the cursor.
fn read_values<D: TdmsStorageType>(reader: &mut ByteCursor, count: usize, big_endian: bool) -> (r:
    Result<Vec<D>, TdmsError>)
    requires
        old(reader).wf(),
    ensures
        final(reader).data == old(reader).data,
        final(reader).wf(),
        match r {
            Ok(vals) => vals@.len() == count && decoded_run(
                old(reader).data@,
                old(reader).pos as int,
                vals@,
                final(reader).pos as int,
                big_endian,
            ),
            Err(e) => {
                &&& final(reader).pos == old(reader).pos
                &&& !run_decodable::<D>(
                    old(reader).data@,
                    old(reader).pos as int,
                    count as int,
                    big_endian,
                )
                &&& (e == TdmsError::IoError || e == TdmsError::InvalidUtf8)
            },
        },
{
    let start = reader.pos;
    let mut vals: Vec<D> = Vec::new();
    let mut i: usize = 0;
    while i < count
        invariant
            reader.wf(),
            reader.data == old(reader).data,
            i <= count,
            vals@.len() == i,
            start == old(reader).pos,
            start <= reader.pos,
            decoded_run(
                old(reader).data@,
                start as int,
                vals@,
                reader.pos as int,
                big_endian,
            ),
        decreases count - i,
    {
        let res = if big_endian {
            D::read_be(reader)
        } else {
            D::read_le(reader)
        };
        match res {
            Ok(v) => {
                let ghost prev = vals@;
                let ghost prev_pos = reader.pos as int;
                proof {
                    lemma_decoded_run_snoc::<D>(
                        old(reader).data@,
                        start as int,
                        prev,
                        prev_pos - v.spec_size(),
                        v,
                        big_endian,
                    );
                }
                vals.push(v);
                i = i + 1;
            },
            Err(e) => {
                proof {
                    if run_decodable::<D>(
                        old(reader).data@,
                        start as int,
                        count as int,
                        big_endian,
                    ) {
                        lemma_run_continues::<D>(
                            old(reader).data@,
                            start as int,
                            vals@,
                            reader.pos as int,
                            count as int,
                            big_endian,
                        );
                    }
                }
                reader.pos = start;
                return Err(e);
            },
        }
    }
    Ok(vals)
}

/// The smaller of two counts.
pub open spec fn spec_min2(a: int, b: int) -> int {
    if a < b {
        a
    } else {
        b
    }
}

/// Whether a block's payload is big-endian.
pub open spec fn block_big(b: DataBlockView) -> bool {
    b.byte_order is Big
}

/// How many samples a contiguous read of channel `i` returns: the
/// channel's count, capped by the output's room.
pub open spec fn cont_count(b: DataBlockView, i: int, outlen: int) -> int {
    spec_min2(b.channels[i].number_of_values as int, outlen)
}

/// How many samples an interleaved read returns: the smallest channel
/// count in the block, capped by the output's room.
pub open spec fn inter_count(b: DataBlockView, outlen: int) -> int {
    spec_min2(spec_min_count(b.channels, b.channels.len() as int), outlen)
}

/// How many samples a read of channel `i` returns.
pub open spec fn single_count(b: DataBlockView, i: int, outlen: int) -> int {
    if b.layout is Contigious {
        cont_count(b, i, outlen)
    } else {
        inter_count(b, outlen)
    }
}

/// Whether the bytes support fetching channel `i` of a contiguous
/// block: the type is readable, the preceding channels can be sized,
/// the channel lies within the bytes, and its values decode.
pub open spec fn fetch_ok_contiguous<D: TdmsStorageType>(
    b: DataBlockView,
    data: Seq<u8>,
    i: int,
    outlen: int,
) -> bool {
    &&& D::spec_supported(b.channels[i].data_type)
    &&& spec_skip_sizes(b.channels, i) is Ok
    &&& b.start + spec_skip_sizes(b.channels, i)->Ok_0 <= data.len()
    &&& run_decodable::<D>(
        data,
        b.start + spec_skip_sizes(b.channels, i)->Ok_0,
        cont_count(b, i, outlen),
        block_big(b),
    )
}

/// The absolute byte position of channel `i`'s field in record `r` of
/// an interleaved block.
pub open spec fn inter_pos(b: DataBlockView, i: int, r: int) -> int {
    b.start + r * spec_record_offsets(b.channels, b.channels.len() as int)->Ok_0
        + spec_record_offsets(b.channels, i)->Ok_0
}

/// Whether the bytes support fetching channel `i` of an interleaved
/// block: the type is readable, every channel has a fixed width, and
/// each requested record's field lies within the bytes and decodes.
pub open spec fn fetch_ok_interleaved<D: TdmsStorageType>(
    b: DataBlockView,
    data: Seq<u8>,
    i: int,
    outlen: int,
) -> bool {
    &&& D::spec_supported(b.channels[i].data_type)
    &&& spec_record_offsets(b.channels, b.channels.len() as int) is Ok
    &&& forall|r: int|
        0 <= r < inter_count(b, outlen) ==> #[trigger] inter_pos(b, i, r) <= data.len()
            && D::decodable(data.skip(inter_pos(b, i, r)), block_big(b))
}

/// Whether the bytes support fetching channel `i` of a block.
pub open spec fn fetch_ok<D: TdmsStorageType>(
    b: DataBlockView,
    data: Seq<u8>,
    i: int,
    outlen: int,
) -> bool {
    if b.layout is Contigious {
        fetch_ok_contiguous::<D>(b, data, i, outlen)
    } else {
        fetch_ok_interleaved::<D>(b, data, i, outlen)
    }
}

/// Whether a read of channel `i` succeeds: the fetch succeeds and the
/// whole block lies within the bytes, so the source can be left at its
/// end.
pub open spec fn single_read_ok<D: TdmsStorageType>(
    b: DataBlockView,
    data: Seq<u8>,
    i: int,
    outlen: int,
) -> bool {
    &&& fetch_ok::<D>(b, data, i, outlen)
    &&& b.start + b.length <= data.len()
}

/// The values `vals` stand encoded at a fixed stride from `base`.
pub open spec fn strided_decoded<D: TdmsStorageType>(
    data: Seq<u8>,
    base: int,
    stride: int,
    vals: Seq<D>,
    big_endian: bool,
) -> bool {
    forall|r: int|
        0 <= r < vals.len() ==> {
            &&& 0 <= base + r * stride
            &&& base + r * stride + (#[trigger] vals[r]).spec_size() <= data.len()
            &&& vals[r].spec_writable()
            &&& vals[r].enc(big_endian) == data.subrange(
                base + r * stride,
                base + r * stride + vals[r].spec_size(),
            )
        }
}

/// Where a fetched channel's values stand in the bytes: one after
/// another from the channel's offset in a contiguous block, strided by
/// the record size in an interleaved one.
pub open spec fn fetched_values<D: TdmsStorageType>(
    b: DataBlockView,
    data: Seq<u8>,
    i: int,
    vals: Seq<D>,
) -> bool {
    if b.layout is Contigious {
        exists|end: int|
            #[trigger] decoded_run(
                data,
                b.start + spec_skip_sizes(b.channels, i)->Ok_0,
                vals,
                end,
                block_big(b),
            )
    } else {
        strided_decoded(
            data,
            b.start + spec_record_offsets(b.channels, i)->Ok_0,
            spec_record_offsets(b.channels, b.channels.len() as int)->Ok_0,
            vals,
            block_big(b),
        )
    }
}

/// The error a failed fetch of channel `i` reports: a type mismatch
/// where the storage type refuses the channel, the sizing error where
/// the layout cannot be planned, and otherwise an end-of-stream or
/// string-decoding failure.
pub open spec fn fetch_err<D: TdmsStorageType>(b: DataBlockView, i: int, e: TdmsError) -> bool {
    if !D::spec_supported(b.channels[i].data_type) {
        e == TdmsError::TypeMismatch(
            DataTypePair { expected: D::spec_natural_type(), got: b.channels[i].data_type },
        )
    } else if b.layout is Contigious && spec_skip_sizes(b.channels, i) is Err {
        e == spec_skip_sizes(b.channels, i)->Err_0
    } else if b.layout is Interleaved && spec_record_offsets(
        b.channels,
        b.channels.len() as int,
    ) is Err {
        e == spec_record_offsets(b.channels, b.channels.len() as int)->Err_0
    } else {
        e == TdmsError::IoError || e == TdmsError::InvalidUtf8
    }
}

/// The byte offset of channel `i` from the start of a contiguous
/// block.
fn contiguous_offset(channels: &Vec<RawDataMeta>, i: usize) -> (r: Result<u64, TdmsError>)
    requires
        i <= channels@.len(),
    ensures
        match r {
            Ok(v) => spec_skip_sizes(channels@, i as int) == Ok::<int, TdmsError>(v as int),
            Err(e) => spec_skip_sizes(channels@, i as int) == Err::<int, TdmsError>(e),
        },
{
    let mut off: u64 = 0;
    let mut j: usize = 0;
    while j < i
        invariant
            i <= channels@.len(),
            j <= i,
            spec_skip_sizes(channels@, j as int) == Ok::<int, TdmsError>(off as int),
        decreases i - j,
    {
        let sz = match chan_size_of(&channels[j]) {
            Ok(v) => v,
            Err(e) => {
                proof {
                    assert(spec_skip_sizes(channels@, j + 1) == Err::<int, TdmsError>(e));
                    lemma_skip_sizes_err(channels@, j + 1, i as int, e);
                }
                return Err(e);
            },
        };
        off = match off.checked_add(sz) {
            Some(v) => v,
            None => {
                proof {
                    assert(spec_skip_sizes(channels@, j + 1) == Err::<int, TdmsError>(
                        TdmsError::IoError,
                    ));
                    lemma_skip_sizes_err(channels@, j + 1, i as int, TdmsError::IoError);
                }
                return Err(TdmsError::IoError);
            },
        };
        j = j + 1;
    }
    Ok(off)
}

/// A sizing error met at a prefix stands for every longer prefix.
proof fn lemma_skip_sizes_err(channels: Seq<RawDataMeta>, j: int, i: int, e: TdmsError)
    requires
        0 < j <= i,
        spec_skip_sizes(channels, j) == Err::<int, TdmsError>(e),
    ensures
        spec_skip_sizes(channels, i) == Err::<int, TdmsError>(e),
    decreases i - j,
{
    if j < i {
        lemma_skip_sizes_err(channels, j + 1, i, e);
    }
}

/// A channel that can be sized is never of negative size.
proof fn lemma_chan_size_nonneg(m: RawDataMeta)
    requires
        spec_chan_size(m) is Ok,
    ensures
        spec_chan_size(m)->Ok_0 >= 0,
{
    if !(m.data_type is TdmsString) {
        let sz = spec_type_size(m.data_type).unwrap();
        assert(m.number_of_values * sz >= 0) by (nonlinear_arith)
            requires
                m.number_of_values >= 0,
                sz >= 0,
        ;
    }
}

/// A contiguous layout that works out to channel `i` works for every
/// shorter prefix, and offsets only grow along the channels.
proof fn lemma_skip_sizes_prefix(channels: Seq<RawDataMeta>, j: int, i: int)
    requires
        0 <= j <= i,
        spec_skip_sizes(channels, i) is Ok,
    ensures
        spec_skip_sizes(channels, j) is Ok,
        spec_skip_sizes(channels, j)->Ok_0 <= spec_skip_sizes(channels, i)->Ok_0,
        0 <= spec_skip_sizes(channels, j)->Ok_0,
    decreases i,
{
    if j < i {
        lemma_chan_size_nonneg(channels[i - 1]);
        lemma_skip_sizes_prefix(channels, j, i - 1);
    } else {
        if i > 0 {
            lemma_chan_size_nonneg(channels[i - 1]);
            lemma_skip_sizes_prefix(channels, 0, i - 1);
        }
    }
}

/// A run of fixed-width values decodes wherever its bytes are present.
proof fn lemma_fixed_run_decodable<D: TdmsStorageType>(
    data: Seq<u8>,
    pos: int,
    count: int,
    big_endian: bool,
)
    requires
        D::spec_fixed_size() is Some,
        0 <= pos,
        count >= 0,
        pos + count * D::spec_fixed_size().unwrap() <= data.len(),
    ensures
        run_decodable::<D>(data, pos, count, big_endian),
    decreases count,
{
    if count > 0 {
        let c = D::spec_fixed_size().unwrap() as int;
        assert(count * c == (count - 1) * c + c) by (nonlinear_arith);
        assert((count - 1) * c >= 0) by (nonlinear_arith)
            requires
                count >= 1,
                c >= 0,
        ;
        D::lemma_fixed_size_laws(data.skip(pos), big_endian);
        assert(data.skip(pos).len() >= c);
        assert(D::decodable(data.skip(pos), big_endian));
        assert(D::dec_len(data.skip(pos), big_endian) == c);
        lemma_fixed_run_decodable::<D>(data, pos + c, count - 1, big_endian);
    }
}

/// Plan completeness for a contiguous block of sizeable channels:
/// where every channel can be sized, together they lie within the
/// block, the block lies within the bytes, and the requested channel
/// holds fixed-width values of the storage type's own width, a read
/// is owed — `single_read_ok` follows from the layout alone, so
/// `read_single` returns the min-governed count and leaves the source
/// at the block's end.
pub proof fn lemma_contiguous_read_available<D: TdmsStorageType>(
    b: DataBlockView,
    data: Seq<u8>,
    i: int,
    outlen: int,
)
    requires
        b.layout is Contigious,
        0 <= i < b.channels.len(),
        outlen >= 0,
        D::spec_supported(b.channels[i].data_type),
        D::spec_fixed_size() is Some,
        spec_type_size(b.channels[i].data_type) == Some(
            D::spec_fixed_size().unwrap() as int,
        ),
        !(b.channels[i].data_type is TdmsString),
        spec_skip_sizes(b.channels, b.channels.len() as int) is Ok,
        spec_skip_sizes(b.channels, b.channels.len() as int)->Ok_0 <= b.length,
        b.start + b.length <= data.len(),
    ensures
        single_read_ok::<D>(b, data, i, outlen),
{
    let n = b.channels.len() as int;
    let total = spec_skip_sizes(b.channels, n)->Ok_0;
    lemma_skip_sizes_prefix(b.channels, i, n);
    lemma_skip_sizes_prefix(b.channels, i + 1, n);
    let off = spec_skip_sizes(b.channels, i)->Ok_0;
    let c = D::spec_fixed_size().unwrap() as int;
    let size_i = spec_chan_size(b.channels[i])->Ok_0;
    assert(spec_skip_sizes(b.channels, i + 1)->Ok_0 == off + size_i);
    assert(off + size_i <= total);
    let count = cont_count(b, i, outlen);
    assert(count <= b.channels[i].number_of_values);
    assert(size_i == b.channels[i].number_of_values * c);
    assert(count * c <= b.channels[i].number_of_values * c) by (nonlinear_arith)
        requires
            count <= b.channels[i].number_of_values,
            c >= 0,
    ;
    assert(count >= 0);
    assert(b.start + off + count * c <= data.len());
    lemma_fixed_run_decodable::<D>(data, b.start + off, count, false);
    lemma_fixed_run_decodable::<D>(data, b.start + off, count, true);
}

/// A record-layout error met at a prefix stands for every longer
/// prefix.
proof fn lemma_record_offsets_err(channels: Seq<RawDataMeta>, j: int, i: int, e: TdmsError)
    requires
        0 < j <= i,
        spec_record_offsets(channels, j) == Err::<int, TdmsError>(e),
    ensures
        spec_record_offsets(channels, i) == Err::<int, TdmsError>(e),
    decreases i - j,
{
    if j < i {
        lemma_record_offsets_err(channels, j + 1, i, e);
    }
}

/// A record layout that works for the whole block works for each of
/// its prefixes.
proof fn lemma_record_offsets_prefix(channels: Seq<RawDataMeta>, j: int, i: int)
    requires
        0 <= j <= i,
        spec_record_offsets(channels, i) is Ok,
    ensures
        spec_record_offsets(channels, j) is Ok,
        spec_record_offsets(channels, j)->Ok_0 <= spec_record_offsets(channels, i)->Ok_0,
    decreases i - j,
{
    if j < i {
        lemma_record_offsets_prefix(channels, j, i - 1);
        if spec_record_offsets(channels, i - 1) is Err {
        }
    }
}

/// The record stride of an interleaved block, and channel `i`'s offset
/// within one record.
fn record_layout(channels: &Vec<RawDataMeta>, i: usize) -> (r: Result<(u64, u64), TdmsError>)
    requires
        i < channels@.len(),
    ensures
        match r {
            Ok((off, stride)) => spec_record_offsets(channels@, i as int) == Ok::<
                int,
                TdmsError,
            >(off as int) && spec_record_offsets(channels@, channels@.len() as int) == Ok::<
                int,
                TdmsError,
            >(stride as int),
            Err(e) => spec_record_offsets(channels@, channels@.len() as int) == Err::<
                int,
                TdmsError,
            >(e),
        },
{
    let n = channels.len();
    let mut acc: u64 = 0;
    let mut off: u64 = 0;
    let mut j: usize = 0;
    while j < n
        invariant
            i < n,
            n == channels@.len(),
            j <= n,
            spec_record_offsets(channels@, j as int) == Ok::<int, TdmsError>(acc as int),
            j > i ==> spec_record_offsets(channels@, i as int) == Ok::<int, TdmsError>(
                off as int,
            ),
            j <= i ==> off == 0,
        decreases n - j,
    {
        if j == i {
            off = acc;
        }
        let sz = if matches!(channels[j].data_type, DataType::TdmsString) {
            proof {
                assert(spec_record_offsets(channels@, j + 1) == Err::<int, TdmsError>(
                    TdmsError::StringInInterleavedBlock,
                ));
                lemma_record_offsets_err(
                    channels@,
                    j + 1,
                    n as int,
                    TdmsError::StringInInterleavedBlock,
                );
            }
            return Err(TdmsError::StringInInterleavedBlock);
        } else {
            match type_size_of(&channels[j].data_type) {
                Some(s) => s,
                None => {
                    let e = TdmsError::UnknownDataType(channels[j].data_type.as_tag());
                    proof {
                        assert(spec_record_offsets(channels@, j + 1) == Err::<int, TdmsError>(e));
                        lemma_record_offsets_err(channels@, j + 1, n as int, e);
                    }
                    return Err(e);
                },
            }
        };
        acc = match acc.checked_add(sz) {
            Some(v) => v,
            None => {
                proof {
                    assert(spec_record_offsets(channels@, j + 1) == Err::<int, TdmsError>(
                        TdmsError::IoError,
                    ));
                    lemma_record_offsets_err(channels@, j + 1, n as int, TdmsError::IoError);
                }
                return Err(TdmsError::IoError);
            },
        };
        j = j + 1;
    }
    Ok((off, acc))
}

/// The smallest channel count of a block.
fn min_count_of(channels: &Vec<RawDataMeta>) -> (r: u64)
    requires
        channels@.len() > 0,
    ensures
        r == spec_min_count(channels@, channels@.len() as int),
{
    let n = channels.len();
    let mut m: u64 = channels[0].number_of_values;
    let mut j: usize = 1;
    while j < n
        invariant
            n == channels@.len(),
            0 < n,
            1 <= j <= n,
            m == spec_min_count(channels@, j as int),
        decreases n - j,
    {
        if channels[j].number_of_values < m {
            m = channels[j].number_of_values;
        }
        j = j + 1;
    }
    m
}

/// Overwrite the front of `output` with the fetched values, keeping
/// what lies beyond them.
fn commit_output<D: TdmsStorageType>(output: &mut Vec<D>, vals: Vec<D>, count: usize)
    requires
        vals@.len() == count,
        count <= old(output)@.len(),
    ensures
        final(output)@ == vals@ + old(output)@.skip(count as int),
        final(output)@.len() == old(output)@.len(),
{
    let ghost vals_view = vals@;
    let ghost old_out = output@;
    let mut tail = vals;
    core::mem::swap(output, &mut tail);
    while tail.len() > count
        invariant
            vals_view.len() == count,
            count <= old_out.len(),
            count <= output@.len(),
            output@.len() <= old_out.len(),
            output@ == vals_view + old_out.subrange(
                count as int,
                count + (output@.len() - count),
            ),
            tail@ == old_out.take(count as int) + old_out.skip(
                count + (output@.len() - count),
            ),
        decreases tail@.len(),
    {
        let ghost k = output@.len() - count;
        let moved = tail.remove(count);
        proof {
            assert(old_out.take(count as int).len() == count);
            assert(moved == old_out[count + k]);
            assert(tail@ =~= old_out.take(count as int) + old_out.skip(count + k + 1));
        }
        output.push(moved);
        proof {
            assert(output@ =~= vals_view + old_out.subrange(count as int, count + k + 1));
        }
    }
    proof {
        assert(tail@.len() == count);
        assert(old_out.skip(count + (output@.len() - count)).len() == 0);
        assert(count + (output@.len() - count) == old_out.len());
        assert(output@ =~= vals_view + old_out.skip(count as int));
    }
}

/// Fetch channel `channel_index` of a contiguous block into a fresh
/// vector; the cursor is restored on failure.
fn fetch_contiguous<D: TdmsStorageType>(
    block: &DataBlock,
    reader: &mut ByteCursor,
    channel_index: usize,
    outlen: usize,
) -> (r: Result<(Vec<D>, usize), TdmsError>)
    requires
        old(reader).wf(),
        channel_index < block@.channels.len(),
        block@.layout is Contigious,
    ensures
        final(reader).data == old(reader).data,
        final(reader).wf(),
        match r {
            Ok((vals, c)) => {
                &&& c == cont_count(block@, channel_index as int, outlen as int)
                &&& vals@.len() == c
                &&& fetch_ok_contiguous::<D>(
                    block@,
                    old(reader).data@,
                    channel_index as int,
                    outlen as int,
                )
                &&& fetched_values(block@, old(reader).data@, channel_index as int, vals@)
            },
            Err(e) => {
                &&& final(reader).pos == old(reader).pos
                &&& !fetch_ok_contiguous::<D>(
                    block@,
                    old(reader).data@,
                    channel_index as int,
                    outlen as int,
                )
                &&& fetch_err::<D>(block@, channel_index as int, e)
            },
        },
{
    let big = matches!(block.byte_order, Endianess::Big);
    let dlen = reader.data.len();
    proof {
        assert(old(reader).data@.len() == dlen);
    }
    let dt = block.channels[channel_index].data_type;
    if !D::supports_data_type(&dt) {
        return Err(
            TdmsError::TypeMismatch(DataTypePair { expected: D::natural_type(), got: dt }),
        );
    }
    let off = match contiguous_offset(&block.channels, channel_index) {
        Ok(v) => v,
        Err(e) => {
            return Err(e);
        },
    };
    let nov = block.channels[channel_index].number_of_values;
    let count: usize = if nov < outlen as u64 {
        nov as usize
    } else {
        outlen
    };
    let save = reader.pos;
    let start_pos = match block.start.checked_add(off) {
        Some(v) => v,
        None => {
            return Err(TdmsError::IoError);
        },
    };
    match reader.seek_to(start_pos) {
        Err(_) => {
            return Err(TdmsError::IoError);
        },
        Ok(()) => {},
    }
    match read_values::<D>(reader, count, big) {
        Ok(vals) => {
            proof {
                assert(decoded_run(
                    old(reader).data@,
                    block@.start + spec_skip_sizes(block@.channels, channel_index as int)->Ok_0,
                    vals@,
                    reader.pos as int,
                    block_big(block@),
                ));
                lemma_decoded_implies_run::<D>(
                    old(reader).data@,
                    block@.start + spec_skip_sizes(block@.channels, channel_index as int)->Ok_0,
                    vals@,
                    reader.pos as int,
                    block_big(block@),
                );
            }
            Ok((vals, count))
        },
        Err(e) => {
            reader.pos = save;
            return Err(e);
        },
    }
}

/// Fetch channel `channel_index` of an interleaved block into a fresh
/// vector; the cursor is restored on failure.
fn fetch_interleaved<D: TdmsStorageType>(
    block: &DataBlock,
    reader: &mut ByteCursor,
    channel_index: usize,
    outlen: usize,
) -> (r: Result<(Vec<D>, usize), TdmsError>)
    requires
        old(reader).wf(),
        channel_index < block@.channels.len(),
        block@.layout is Interleaved,
    ensures
        final(reader).data == old(reader).data,
        final(reader).wf(),
        match r {
            Ok((vals, c)) => {
                &&& c == inter_count(block@, outlen as int)
                &&& vals@.len() == c
                &&& fetch_ok_interleaved::<D>(
                    block@,
                    old(reader).data@,
                    channel_index as int,
                    outlen as int,
                )
                &&& fetched_values(block@, old(reader).data@, channel_index as int, vals@)
            },
            Err(e) => {
                &&& final(reader).pos == old(reader).pos
                &&& !fetch_ok_interleaved::<D>(
                    block@,
                    old(reader).data@,
                    channel_index as int,
                    outlen as int,
                )
                &&& fetch_err::<D>(block@, channel_index as int, e)
            },
        },
{
    let big = matches!(block.byte_order, Endianess::Big);
    let dlen = reader.data.len();
    proof {
        assert(old(reader).data@.len() == dlen);
    }
    let dt = block.channels[channel_index].data_type;
    if !D::supports_data_type(&dt) {
        return Err(
            TdmsError::TypeMismatch(DataTypePair { expected: D::natural_type(), got: dt }),
        );
    }
    let (off, stride) = match record_layout(&block.channels, channel_index) {
        Ok(p) => p,
        Err(e) => {
            return Err(e);
        },
    };
    let minc = min_count_of(&block.channels);
    let count: usize = if minc < outlen as u64 {
        minc as usize
    } else {
        outlen
    };
    let save = reader.pos;
    let mut vals: Vec<D> = Vec::new();
    let mut r_i: usize = 0;
    while r_i < count
        invariant
            reader.wf(),
            reader.data == old(reader).data,
            old(reader).data@.len() == dlen,
            save == old(reader).pos,
            save <= dlen,
            channel_index < block@.channels.len(),
            block@.layout is Interleaved,
            D::spec_supported(block@.channels[channel_index as int].data_type),
            spec_record_offsets(block@.channels, channel_index as int) == Ok::<int, TdmsError>(
                off as int,
            ),
            spec_record_offsets(block@.channels, block@.channels.len() as int) == Ok::<
                int,
                TdmsError,
            >(stride as int),
            big == block_big(block@),
            count as int == inter_count(block@, outlen as int),
            r_i <= count,
            vals@.len() == r_i,
            strided_decoded(
                old(reader).data@,
                block@.start + off,
                stride as int,
                vals@,
                big,
            ),
        decreases count - r_i,
    {
        let ghost pos_spec = inter_pos(block@, channel_index as int, r_i as int);
        let mul = match (r_i as u64).checked_mul(stride) {
            Some(v) => v,
            None => {
                proof {
                    assert(pos_spec > dlen);
                }
                reader.pos = save;
                return Err(TdmsError::IoError);
            },
        };
        let rec_base = match block.start.checked_add(mul) {
            Some(v) => v,
            None => {
                proof {
                    assert(pos_spec > dlen);
                }
                reader.pos = save;
                return Err(TdmsError::IoError);
            },
        };
        let pos_r = match rec_base.checked_add(off) {
            Some(v) => v,
            None => {
                proof {
                    assert(pos_spec > dlen);
                }
                reader.pos = save;
                return Err(TdmsError::IoError);
            },
        };
        proof {
            assert(pos_r == pos_spec);
        }
        match reader.seek_to(pos_r) {
            Err(_) => {
                proof {
                    assert(pos_spec > dlen);
                }
                reader.pos = save;
                return Err(TdmsError::IoError);
            },
            Ok(()) => {},
        }
        let res = if big {
            D::read_be(reader)
        } else {
            D::read_le(reader)
        };
        match res {
            Ok(v) => {
                let ghost prev = vals@;
                vals.push(v);
                proof {
                    assert forall|r2: int| 0 <= r2 < vals@.len() implies {
                        let p2 = block@.start + off + r2 * (stride as int);
                        &&& 0 <= p2
                        &&& p2 + (#[trigger] vals@[r2]).spec_size() <= old(reader).data@.len()
                        &&& vals@[r2].spec_writable()
                        &&& vals@[r2].enc(big) == old(reader).data@.subrange(
                            p2,
                            p2 + vals@[r2].spec_size(),
                        )
                    } by {
                        if r2 < prev.len() {
                            assert(vals@[r2] == prev[r2]);
                        } else {
                            assert(vals@[r2] == v);
                            assert(block@.start + off + r2 * (stride as int) == pos_spec);
                        }
                    }
                }
            },
            Err(e) => {
                proof {
                    assert(!D::decodable(
                        old(reader).data@.skip(pos_spec),
                        block_big(block@),
                    ));
                }
                reader.pos = save;
                return Err(e);
            },
        }
        r_i = r_i + 1;
    }
    proof {
        assert(fetch_ok_interleaved::<D>(
            block@,
            old(reader).data@,
            channel_index as int,
            outlen as int,
        )) by {
            assert forall|r2: int| 0 <= r2 < inter_count(block@, outlen as int) implies #[trigger]
                inter_pos(block@, channel_index as int, r2) <= old(reader).data@.len()
                && D::decodable(
                old(reader).data@.skip(inter_pos(block@, channel_index as int, r2)),
                block_big(block@),
            ) by {
                let p2 = block@.start + off + r2 * (stride as int);
                assert(inter_pos(block@, channel_index as int, r2) == p2);
                assert(vals@[r2].enc(big) == old(reader).data@.subrange(
                    p2,
                    p2 + vals@[r2].spec_size(),
                ));
                assert(old(reader).data@.skip(p2) =~= vals@[r2].enc(big) + old(
                    reader,
                ).data@.skip(p2 + vals@[r2].spec_size()));
                D::lemma_encoding_laws(
                    vals@[r2],
                    old(reader).data@.skip(p2 + vals@[r2].spec_size()),
                    big,
                );
            }
        }
    }
    Ok((vals, count))
}

impl DataBlock {
    /// Build a data block from the segment.
    ///
    /// The full channel list is provided separately as it may be carried
    /// forward from previous segments.
    pub fn from_segment(
        segment: &Segment,
        segment_start: u64,
        active_channels_meta: Vec<RawDataMeta>,
    ) -> (b: DataBlock)
        requires
            segment.raw_data_offset <= segment.next_segment_offset,
            segment_start + LEAD_IN_BYTES + segment.raw_data_offset <= u64::MAX,
        ensures
            b@ == spec_block(
                segment.toc,
                segment.next_segment_offset,
                segment.raw_data_offset,
                segment_start,
                active_channels_meta@,
            ),
    {
        block_from_parts(
            segment.toc,
            segment.next_segment_offset,
            segment.raw_data_offset,
            segment_start,
            active_channels_meta,
        )
    }

    /// Fetch one channel's values without touching any output buffer;
    /// the cursor is restored on failure.
    fn fetch_channel<D: TdmsStorageType>(
        &self,
        reader: &mut ByteCursor,
        channel_index: usize,
        outlen: usize,
    ) -> (r: Result<(Vec<D>, usize), TdmsError>)
        requires
            old(reader).wf(),
            channel_index < self@.channels.len(),
        ensures
            final(reader).data == old(reader).data,
            final(reader).wf(),
            match r {
                Ok((vals, c)) => {
                    &&& c == single_count(self@, channel_index as int, outlen as int)
                    &&& vals@.len() == c
                    &&& fetch_ok::<D>(
                        self@,
                        old(reader).data@,
                        channel_index as int,
                        outlen as int,
                    )
                    &&& fetched_values(self@, old(reader).data@, channel_index as int, vals@)
                },
                Err(e) => {
                    &&& final(reader).pos == old(reader).pos
                    &&& !fetch_ok::<D>(
                        self@,
                        old(reader).data@,
                        channel_index as int,
                        outlen as int,
                    )
                    &&& fetch_err::<D>(self@, channel_index as int, e)
                },
            },
    {
        match self.layout {
            DataLayout::Contigious => fetch_contiguous::<D>(self, reader, channel_index, outlen),
            DataLayout::Interleaved => fetch_interleaved::<D>(
                self,
                reader,
                channel_index,
                outlen,
            ),
        }
    }

    /// Read a single channel from the block.
    ///
    /// Up to the length of `output` values are decoded and placed at
    /// its front; what lies beyond them is kept.  On success the
    /// source is left at the end of the block, and the count returned
    /// is the channel's sample count capped by the output's room — for
    /// an interleaved block, the smallest channel count governs.  On
    /// failure neither the output nor the source moves.  The requested
    /// channel index must name one of the block's channels: an index
    /// past the channel list is a caller error, not a file condition,
    /// and is excluded up front.
    pub fn read_single<D: TdmsStorageType>(
        &self,
        channel_index: usize,
        reader: &mut ByteCursor,
        output: &mut Vec<D>,
    ) -> (r: Result<usize, TdmsError>)
        requires
            old(reader).wf(),
            channel_index < self@.channels.len(),
        ensures
            final(reader).data == old(reader).data,
            final(reader).wf(),
            match r {
                Ok(c) => {
                    &&& single_read_ok::<D>(
                        self@,
                        old(reader).data@,
                        channel_index as int,
                        old(output)@.len() as int,
                    )
                    &&& c == single_count(
                        self@,
                        channel_index as int,
                        old(output)@.len() as int,
                    )
                    &&& final(reader).pos == self@.start + self@.length
                    &&& final(output)@.len() == old(output)@.len()
                    &&& exists|vals: Seq<D>|
                        vals.len() == c && #[trigger] fetched_values(
                            self@,
                            old(reader).data@,
                            channel_index as int,
                            vals,
                        ) && final(output)@ == vals + old(output)@.skip(c as int)
                },
                Err(e) => {
                    &&& final(reader).pos == old(reader).pos
                    &&& final(output)@ == old(output)@
                    &&& !single_read_ok::<D>(
                        self@,
                        old(reader).data@,
                        channel_index as int,
                        old(output)@.len() as int,
                    )
                    &&& fetch_err::<D>(self@, channel_index as int, e)
                },
            },
    {
        let save = reader.pos;
        let dlen = reader.data.len();
        proof {
            assert(old(reader).data@.len() == dlen);
        }
        let outlen = output.len();
        let fetched = match self.fetch_channel::<D>(reader, channel_index, outlen) {
            Ok(p) => p,
            Err(e) => {
                return Err(e);
            },
        };
        let (vals, count) = fetched;
        let ghost vv = vals@;
        let end_pos = match self.start.checked_add(self.length) {
            Some(v) => v,
            None => {
                reader.pos = save;
                return Err(TdmsError::IoError);
            },
        };
        match reader.seek_to(end_pos) {
            Err(_) => {
                reader.pos = save;
                return Err(TdmsError::IoError);
            },
            Ok(()) => {},
        }
        commit_output(output, vals, count);
        proof {
            assert(fetched_values(self@, old(reader).data@, channel_index as int, vv));
        }
        Ok(count)
    }

    /// Read the data from the block for the channels specified into
    /// the output vectors.
    ///
    /// All channels in the block are assumed to have the same length,
    /// so the smallest count placed into any requested output is
    /// returned.  Either every requested channel is read or, on
    /// failure, nothing moves.  Every requested index must name one of
    /// the block's channels: an index past the channel list is a
    /// caller error, not a file condition, and is excluded up front.
    pub fn read<D: TdmsStorageType>(
        &self,
        reader: &mut ByteCursor,
        channels_to_read: &mut Vec<(usize, Vec<D>)>,
    ) -> (r: Result<usize, TdmsError>)
        requires
            old(reader).wf(),
            forall|k: int|
                0 <= k < old(channels_to_read)@.len() ==> (#[trigger] old(channels_to_read)@[
                    k
                ]).0 < self@.channels.len(),
        ensures
            final(reader).data == old(reader).data,
            final(reader).wf(),
            final(channels_to_read)@.len() == old(channels_to_read)@.len(),
            match r {
                Ok(c) => {
                    &&& forall|k: int|
                        0 <= k < old(channels_to_read)@.len() ==> {
                            let idx = (#[trigger] old(channels_to_read)@[k]).0 as int;
                            let outlen = old(channels_to_read)@[k].1@.len() as int;
                            &&& final(channels_to_read)@[k].0 == old(channels_to_read)@[k].0
                            &&& final(channels_to_read)@[k].1@.len() == outlen
                            &&& fetch_ok::<D>(self@, old(reader).data@, idx, outlen)
                            &&& exists|vals: Seq<D>|
                                vals.len() == single_count(self@, idx, outlen)
                                    && #[trigger] fetched_values(
                                    self@,
                                    old(reader).data@,
                                    idx,
                                    vals,
                                ) && final(channels_to_read)@[k].1@ == vals + old(
                                    channels_to_read,
                                )@[k].1@.skip(single_count(self@, idx, outlen))
                        }
                    &&& old(channels_to_read)@.len() > 0 ==> final(reader).pos == self@.start
                        + self@.length && c as int == spec_multi_count(
                        self@,
                        old(channels_to_read)@,
                    )
                    &&& old(channels_to_read)@.len() == 0 ==> c == 0 && final(reader).pos == old(
                        reader,
                    ).pos
                },
                Err(e) => {
                    &&& final(reader).pos == old(reader).pos
                    &&& final(channels_to_read)@ == old(channels_to_read)@
                    &&& !(forall|k: int|
                        0 <= k < old(channels_to_read)@.len() ==> fetch_ok::<D>(
                            self@,
                            old(reader).data@,
                            (#[trigger] old(channels_to_read)@[k]).0 as int,
                            old(channels_to_read)@[k].1@.len() as int,
                        )) || self@.start + self@.length > old(reader).data@.len()
                },
            },
    {
        let save = reader.pos;
        let dlen = reader.data.len();
        proof {
            assert(old(reader).data@.len() == dlen);
        }
        let n = channels_to_read.len();
        if n == 0 {
            return Ok(0);
        }
        let mut fetched_vals: Vec<Vec<D>> = Vec::new();
        let mut counts: Vec<usize> = Vec::new();
        let mut k: usize = 0;
        while k < n
            invariant
                reader.wf(),
                reader.data == old(reader).data,
                save == old(reader).pos,
                save <= old(reader).data@.len(),
                n == channels_to_read@.len(),
                channels_to_read@ == old(channels_to_read)@,
                forall|k2: int|
                    0 <= k2 < n ==> (#[trigger] channels_to_read@[k2]).0 < self@.channels.len(),
                k <= n,
                fetched_vals@.len() == k,
                counts@.len() == k,
                forall|k2: int|
                    0 <= k2 < k ==> {
                        let idx = (#[trigger] channels_to_read@[k2]).0 as int;
                        let outlen = channels_to_read@[k2].1@.len() as int;
                        &&& counts@[k2] == single_count(self@, idx, outlen)
                        &&& fetched_vals@[k2]@.len() == counts@[k2]
                        &&& fetch_ok::<D>(self@, old(reader).data@, idx, outlen)
                        &&& fetched_values(
                            self@,
                            old(reader).data@,
                            idx,
                            fetched_vals@[k2]@,
                        )
                    },
            decreases n - k,
        {
            let idx = channels_to_read[k].0;
            let outlen = channels_to_read[k].1.len();
            match self.fetch_channel::<D>(reader, idx, outlen) {
                Ok((vals, c)) => {
                    fetched_vals.push(vals);
                    counts.push(c);
                },
                Err(e) => {
                    reader.pos = save;
                    return Err(e);
                },
            }
            k = k + 1;
        }
        let end_pos = match self.start.checked_add(self.length) {
            Some(v) => v,
            None => {
                reader.pos = save;
                return Err(TdmsError::IoError);
            },
        };
        match reader.seek_to(end_pos) {
            Err(_) => {
                reader.pos = save;
                return Err(TdmsError::IoError);
            },
            Ok(()) => {},
        }
        let mut min_c: usize = counts[0];
        let mut j: usize = 1;
        while j < n
            invariant
                n == counts@.len(),
                n == channels_to_read@.len(),
                channels_to_read@ == old(channels_to_read)@,
                0 < j <= n,
                forall|k2: int|
                    0 <= k2 < n ==> #[trigger] counts@[k2] == single_count(
                        self@,
                        channels_to_read@[k2].0 as int,
                        channels_to_read@[k2].1@.len() as int,
                    ),
                min_c as int == spec_multi_count_prefix(self@, channels_to_read@, j as int),
            decreases n - j,
        {
            if counts[j] < min_c {
                min_c = counts[j];
            }
            j = j + 1;
        }
        let mut committed: usize = 0;
        while committed < n
            invariant
                n == channels_to_read@.len(),
                n == old(channels_to_read)@.len(),
                committed <= n,
                fetched_vals@.len() == n - committed,
                counts@.len() == n,
                forall|k2: int|
                    0 <= k2 < n - committed ==> {
                        let orig = committed + k2;
                        &&& (#[trigger] fetched_vals@[k2])@.len() == counts@[orig]
                        &&& fetched_values(
                            self@,
                            old(reader).data@,
                            old(channels_to_read)@[orig].0 as int,
                            fetched_vals@[k2]@,
                        )
                    },
                forall|k2: int|
                    0 <= k2 < n ==> #[trigger] counts@[k2] == single_count(
                        self@,
                        old(channels_to_read)@[k2].0 as int,
                        old(channels_to_read)@[k2].1@.len() as int,
                    ),
                forall|k2: int|
                    committed <= k2 < n ==> #[trigger] channels_to_read@[k2] == old(
                        channels_to_read,
                    )@[k2],
                forall|k2: int|
                    0 <= k2 < committed ==> {
                        let idx = (#[trigger] old(channels_to_read)@[k2]).0 as int;
                        let outlen = old(channels_to_read)@[k2].1@.len() as int;
                        &&& channels_to_read@[k2].0 == old(channels_to_read)@[k2].0
                        &&& channels_to_read@[k2].1@.len() == outlen
                        &&& exists|vals: Seq<D>|
                            vals.len() == single_count(self@, idx, outlen)
                                && #[trigger] fetched_values(
                                self@,
                                old(reader).data@,
                                idx,
                                vals,
                            ) && channels_to_read@[k2].1@ == vals + old(channels_to_read)@[
                                k2
                            ].1@.skip(single_count(self@, idx, outlen))
                    },
            decreases n - committed,
        {
            let vals = fetched_vals.remove(0);
            let ghost vv = vals@;
            let c = counts[committed];
            let entry = &mut channels_to_read[committed];
            proof {
                assert(old(channels_to_read)@[committed as int].1@.len()
                    == entry.1@.len());
            }
            commit_output(&mut entry.1, vals, c);
            proof {
                assert(fetched_values(
                    self@,
                    old(reader).data@,
                    old(channels_to_read)@[committed as int].0 as int,
                    vv,
                ));
            }
            committed = committed + 1;
        }
        Ok(min_c)
    }
}

/// The smallest sample count a multi-channel read of the first `k`
/// requested channels returns.
pub open spec fn spec_multi_count_prefix<D: TdmsStorageType>(
    b: DataBlockView,
    list: Seq<(usize, Vec<D>)>,
    k: int,
) -> int
    decreases k,
{
    if k <= 1 {
        if list.len() == 0 {
            0int
        } else {
            single_count(b, list[0].0 as int, list[0].1@.len() as int)
        }
    } else {
        let prev = spec_multi_count_prefix::<D>(b, list, k - 1);
        let cur = single_count(b, list[k - 1].0 as int, list[k - 1].1@.len() as int);
        if cur < prev {
            cur
        } else {
            prev
        }
    }
}

/// The smallest sample count a multi-channel read returns.
pub open spec fn spec_multi_count<D: TdmsStorageType>(
    b: DataBlockView,
    list: Seq<(usize, Vec<D>)>,
) -> int {
    spec_multi_count_prefix::<D>(b, list, list.len() as int)
}

} // verus!
