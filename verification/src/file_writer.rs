//! Appending segments to a file image.
//!
//! The writer owns its own scanner and feeds every segment it emits
//! back through it, so that whether a write matches the live layout is
//! decided by the same state machine readers build.

use vstd::prelude::*;
use vstd::string::StringSliceAdditionalSpecFns;
use vstd::utf8::encode_utf8;

use crate::byte_io::{enc32, enc64, write_u32_endian, write_u32_le, write_u64_endian,
    write_u64_le, write_u8, le32, le64};
use crate::data_types::{spec_tag_of, TdmsStorageType};
use crate::error::TdmsError;
use crate::index::{
    apply_object, apply_objects, live_matches, paths_view, spec_add_segment, FileScanner,
    ScannerView,
};
use crate::meta_data::{
    ObjectMetaData, ObjectMetaView, RawDataIndex, RawDataMeta, SegmentMetaData, SegmentMetaView,
    ToC, LEAD_IN_BYTES,
};
use crate::raw_data::{spec_type_size, type_size_of, DataLayout, Endianess};

verus! {

/// The version number written into every lead-in.
pub const TDMS_VERSION: u32 = 4713;

/// The payload a sequence of values lays out: each value's encoding,
/// one after another.
pub open spec fn spec_payload<D: TdmsStorageType>(values: Seq<D>, big_endian: bool) -> Seq<u8>
    decreases values.len(),
{
    if values.len() == 0 {
        Seq::empty()
    } else {
        spec_payload(values.drop_last(), big_endian) + values.last().enc(big_endian)
    }
}

/// The metadata bytes of one written object: its path, a full
/// raw-data index with array dimension one, and no properties.
pub open spec fn spec_object_bytes(path: Seq<char>, m: RawDataMeta, big_endian: bool) -> Seq<
    u8,
> {
    enc32(encode_utf8(path).len() as u32, big_endian) + encode_utf8(path) + enc32(
        0x14,
        big_endian,
    ) + enc32(spec_tag_of(m.data_type), big_endian) + enc32(1, big_endian) + enc64(
        m.number_of_values,
        big_endian,
    ) + enc32(0, big_endian)
}

/// The metadata bytes of a written object list, one object after
/// another.
pub open spec fn spec_objects_bytes(
    paths: Seq<Seq<char>>,
    m: RawDataMeta,
    big_endian: bool,
) -> Seq<u8>
    decreases paths.len(),
{
    if paths.len() == 0 {
        Seq::empty()
    } else {
        spec_objects_bytes(paths.drop_last(), m, big_endian) + spec_object_bytes(
            paths.last(),
            m,
            big_endian,
        )
    }
}

/// The whole metadata block of a written segment: the object count,
/// then the objects.
pub open spec fn spec_meta_block(paths: Seq<Seq<char>>, m: RawDataMeta, big_endian: bool) -> Seq<
    u8,
> {
    enc32(paths.len() as u32, big_endian) + spec_objects_bytes(paths, m, big_endian)
}

/// The lead-in bytes of a segment.  Lead-in integers are always
/// little-endian; only metadata and payload follow the byte-order
/// flag.
pub open spec fn spec_lead_in(toc: ToC, next_segment_offset: u64, raw_data_offset: u64) -> Seq<
    u8,
> {
    seq![0x54u8, 0x44u8, 0x53u8, 0x6Du8] + le32(toc.spec_as_u32()) + le32(TDMS_VERSION) + le64(
        next_segment_offset,
    ) + le64(raw_data_offset)
}

/// The table of contents a write emits: metadata and a new object list
/// exactly when the candidate does not match the live layout.
pub open spec fn spec_write_toc(matches: bool, layout: DataLayout, big_endian: bool) -> ToC {
    ToC {
        contains_meta_data: !matches,
        contains_new_object_list: !matches,
        contains_raw_data: true,
        contains_daqmx_raw_data: false,
        data_is_interleaved: layout is Interleaved,
        big_endian,
    }
}

/// The object list a non-matching write declares: every channel path
/// with the candidate description and no properties.
pub open spec fn spec_write_objects(paths: Seq<Seq<char>>, m: RawDataMeta) -> Seq<
    ObjectMetaView,
> {
    Seq::new(
        paths.len(),
        |k: int|
            ObjectMetaView {
                path: paths[k],
                properties: Seq::empty(),
                raw_data_index: RawDataIndex::RawData(m),
            },
    )
}

/// The machine limits a write must respect: an emitted object count
/// fits its field, and the segment and the advanced file offset fit
/// the offsets' width.
pub open spec fn spec_write_fits(
    st: ScannerView,
    meta_len: int,
    payload_len: int,
    matches: bool,
    n: int,
) -> bool {
    &&& (!matches ==> n <= u32::MAX)
    &&& meta_len + payload_len <= u64::MAX
    &&& st.next_segment_start + (meta_len + payload_len) + LEAD_IN_BYTES <= u64::MAX
}

/// The candidate description a write lays out: one fixed shape shared
/// by every channel.
pub open spec fn spec_write_candidate<D: TdmsStorageType>(n: int, values_len: int) -> RawDataMeta {
    RawDataMeta {
        data_type: D::spec_natural_type(),
        number_of_values: (values_len / n) as u64,
        total_size_bytes: Option::None,
    }
}

/// The error a failed write reports, each kind tied to its own cause
/// and to no other, in the order the causes are checked: a value slice
/// that does not divide over the channels, then a storage type without
/// a fixed width, then a segment or offset beyond the machine's range.
/// A write that none of these causes touches is owed success.
pub open spec fn spec_write_err<D: TdmsStorageType>(
    st: ScannerView,
    big: bool,
    channels: Seq<String>,
    values: Seq<D>,
    e: TdmsError,
) -> bool {
    let n = channels.len() as int;
    let bad_shape = n == 0 || values.len() as int % n != 0;
    let m = spec_write_candidate::<D>(n, values.len() as int);
    let matches = live_matches(st, paths_view(channels), m);
    let meta_bytes = if matches {
        Seq::<u8>::empty()
    } else {
        spec_meta_block(paths_view(channels), m, big)
    };
    let payload = spec_payload(values, big);
    match e {
        TdmsError::WriteSliceLenMismatch => bad_shape,
        TdmsError::UnknownDataType(t) => !bad_shape && spec_type_size(D::spec_natural_type())
            is None && t == spec_tag_of(D::spec_natural_type()),
        TdmsError::IoError => !bad_shape && spec_type_size(D::spec_natural_type()) is Some
            && !spec_write_fits(st, meta_bytes.len() as int, payload.len() as int, matches, n),
        _ => false,
    }
}

/// Applying objects that all carry a full raw-data description never
/// fails.
proof fn lemma_all_raw_data_applies(st: ScannerView, objs: Seq<ObjectMetaView>)
    requires
        forall|k: int| 0 <= k < objs.len() ==> (#[trigger] objs[k]).raw_data_index is RawData,
    ensures
        apply_objects(st, objs) is Some,
    decreases objs.len(),
{
    if objs.len() > 0 {
        assert(objs[0].raw_data_index is RawData);
        let st1 = apply_object(st, objs[0]).unwrap();
        assert(forall|k: int|
            0 <= k < objs.drop_first().len() ==> (#[trigger] objs.drop_first()[
                k
            ]).raw_data_index is RawData);
        lemma_all_raw_data_applies(st1, objs.drop_first());
    }
}

/// Emit one object's metadata: its path, a full raw-data index, and
/// no properties.
fn write_object_meta(sink: &mut Vec<u8>, path: &String, m: &RawDataMeta, big_endian: bool)
    requires
        path.spec_writable(),
    ensures
        final(sink)@ == old(sink)@ + spec_object_bytes(path@, *m, big_endian),
{
    let _ = if big_endian {
        path.write_be(sink)
    } else {
        path.write_le(sink)
    };
    write_u32_endian(sink, 0x14, big_endian);
    write_u32_endian(sink, m.data_type.as_tag(), big_endian);
    write_u32_endian(sink, 1, big_endian);
    write_u64_endian(sink, m.number_of_values, big_endian);
    write_u32_endian(sink, 0, big_endian);
    proof {
        assert(path.enc(big_endian) == enc32(encode_utf8(path@).len() as u32, big_endian)
            + encode_utf8(path@));
        assert(final(sink)@ =~= old(sink)@ + spec_object_bytes(path@, *m, big_endian));
    }
}

/// A writer of segments: an in-memory sink of file bytes, with a
/// scanner kept in lockstep so later writes see accurate live state.
pub struct TdmsFileWriter {
    index: FileScanner,
    sink: Vec<u8>,
    endianess: Endianess,
}

/// The specification-level image of a writer.
#[verifier::ext_equal]
pub struct TdmsFileWriterView {
    pub index: ScannerView,
    pub sink: Seq<u8>,
    pub endianess: Endianess,
}

impl View for TdmsFileWriter {
    type V = TdmsFileWriterView;

    closed spec fn view(&self) -> TdmsFileWriterView {
        TdmsFileWriterView {
            index: self.index@,
            sink: self.sink@,
            endianess: self.endianess,
        }
    }
}

impl TdmsFileWriter {
    /// A writer is well formed when its scanner is.
    pub closed spec fn wf(&self) -> bool {
        self.index.wf()
    }

    /// A writer over the given scanner and sink, emitting data in the
    /// given byte order.
    pub fn new(index: FileScanner, sink: Vec<u8>, endianess: Endianess) -> (w: TdmsFileWriter)
        requires
            index.wf(),
        ensures
            w.wf(),
            w@.index == index@,
            w@.sink == sink@,
            w@.endianess == endianess,
    {
        TdmsFileWriter { index, sink, endianess }
    }

    /// Hand back the scanner and the accumulated file bytes.
    pub fn into_parts(self) -> (p: (FileScanner, Vec<u8>))
        requires
            self.wf(),
        ensures
            p.0.wf(),
            p.0@ == self@.index,
            p.1@ == self@.sink,
    {
        let TdmsFileWriter { index, sink, endianess: _ } = self;
        (index, sink)
    }

    /// Write the data to the given channels.
    ///
    /// The values are one flat slice over the channels: contiguous
    /// (channel by channel) or interleaved (record by record) as the
    /// layout says.  A segment is appended to the sink — with metadata
    /// and a new object list exactly when the channels do not match
    /// the live layout — and the writer's own scanner consumes it.
    ///
    /// Only storage types of a fixed width can be laid out this way; a
    /// variable-width type is refused as an unknown channel type.
    /// Success is owed whenever the value slice divides evenly over a
    /// non-empty channel list, the storage type has a fixed width, and
    /// the segment fits the machine (`spec_write_err` lists each
    /// failure with its cause, and no other failure exists); exactly
    /// one segment is then appended, and nothing moves on failure.
    #[verifier::rlimit(100)]
    #[verifier::spinoff_prover]
    pub fn write_channels<D: TdmsStorageType>(
        &mut self,
        channels: &Vec<String>,
        values: &Vec<D>,
        layout: DataLayout,
    ) -> (r: Result<(), TdmsError>)
        requires
            old(self).wf(),
            forall|k: int| 0 <= k < values@.len() ==> (#[trigger] values@[k]).spec_writable(),
            forall|k: int|
                0 <= k < channels@.len() ==> (#[trigger] channels@[k]).spec_writable(),
        ensures
            final(self).wf(),
            final(self)@.endianess == old(self)@.endianess,
            match r {
                Ok(()) => {
                    let big = old(self)@.endianess is Big;
                    let n = channels@.len() as int;
                    let m = RawDataMeta {
                        data_type: D::spec_natural_type(),
                        number_of_values: (values@.len() as int / n) as u64,
                        total_size_bytes: Option::None,
                    };
                    let matches = live_matches(old(self)@.index, paths_view(channels@), m);
                    let toc = spec_write_toc(matches, layout, big);
                    let meta_bytes = if matches {
                        Seq::<u8>::empty()
                    } else {
                        spec_meta_block(paths_view(channels@), m, big)
                    };
                    let payload = spec_payload(values@, big);
                    let next_off = (meta_bytes.len() + payload.len()) as u64;
                    let seg = SegmentMetaView {
                        toc,
                        next_segment_offset: next_off,
                        raw_data_offset: meta_bytes.len() as u64,
                        objects: if matches {
                            Seq::<ObjectMetaView>::empty()
                        } else {
                            spec_write_objects(paths_view(channels@), m)
                        },
                    };
                    &&& n > 0
                    &&& values@.len() as int % n == 0
                    &&& spec_type_size(D::spec_natural_type()) is Some
                    &&& spec_write_fits(
                        old(self)@.index,
                        meta_bytes.len() as int,
                        payload.len() as int,
                        matches,
                        n,
                    )
                    &&& final(self)@.sink == old(self)@.sink + spec_lead_in(
                        toc,
                        next_off,
                        meta_bytes.len() as u64,
                    ) + meta_bytes + payload
                    &&& Some(final(self)@.index) == spec_add_segment(old(self)@.index, seg)
                },
                Err(e) => {
                    &&& final(self)@ == old(self)@
                    &&& spec_write_err::<D>(
                        old(self)@.index,
                        old(self)@.endianess is Big,
                        channels@,
                        values@,
                        e,
                    )
                },
            },
    {
        let ghost old_view = self@;
        let n = channels.len();
        if n == 0 {
            return Err(TdmsError::WriteSliceLenMismatch);
        }
        if values.len() % n != 0 {
            return Err(TdmsError::WriteSliceLenMismatch);
        }
        let nov = (values.len() / n) as u64;
        match type_size_of(&D::natural_type()) {
            Some(_) => {},
            Option::None => {
                return Err(TdmsError::UnknownDataType(D::natural_type().as_tag()));
            },
        }
        let candidate = RawDataMeta {
            data_type: D::natural_type(),
            number_of_values: nov,
            total_size_bytes: Option::None,
        };
        let matches = self.index.matches_live(channels, &candidate);
        let big = matches!(self.endianess, Endianess::Big);
        proof {
            assert(candidate == spec_write_candidate::<D>(
                channels@.len() as int,
                values@.len() as int,
            ));
        }
        let ghost spec_matches = live_matches(
            old(self)@.index,
            paths_view(channels@),
            spec_write_candidate::<D>(channels@.len() as int, values@.len() as int),
        );
        let ghost spec_meta = if spec_matches {
            Seq::<u8>::empty()
        } else {
            spec_meta_block(
                paths_view(channels@),
                spec_write_candidate::<D>(channels@.len() as int, values@.len() as int),
                big,
            )
        };
        // payload
        let mut payload: Vec<u8> = Vec::new();
        let vn = values.len();
        let mut j: usize = 0;
        proof {
            assert(values@.take(0) =~= Seq::<D>::empty());
        }
        while j < vn
            invariant
                vn == values@.len(),
                j <= vn,
                forall|k: int| 0 <= k < values@.len() ==> (#[trigger] values@[k]).spec_writable(),
                payload@ == spec_payload(values@.take(j as int), big),
            decreases vn - j,
        {
            let _ = if big {
                values[j].write_be(&mut payload)
            } else {
                values[j].write_le(&mut payload)
            };
            proof {
                assert(values@.take(j + 1).drop_last() =~= values@.take(j as int));
                assert(values@.take(j + 1).last() == values@[j as int]);
            }
            j = j + 1;
        }
        proof {
            assert(values@.take(vn as int) =~= values@);
        }
        // metadata
        let mut meta_bytes: Vec<u8> = Vec::new();
        if !matches {
            if n > (u32::MAX as usize) {
                proof {
                    assert(!spec_write_fits(
                        old(self)@.index,
                        spec_meta.len() as int,
                        spec_payload(values@, big).len() as int,
                        spec_matches,
                        channels@.len() as int,
                    ));
                }
                return Err(TdmsError::IoError);
            }
            write_u32_endian(&mut meta_bytes, n as u32, big);
            let mut k: usize = 0;
            proof {
                assert(paths_view(channels@).take(0) =~= Seq::<Seq<char>>::empty());
                assert(meta_bytes@ =~= enc32(n as u32, big) + spec_objects_bytes(
                    paths_view(channels@).take(0),
                    candidate,
                    big,
                ));
            }
            while k < n
                invariant
                    n == channels@.len(),
                    k <= n,
                    forall|k2: int|
                        0 <= k2 < channels@.len() ==> (#[trigger] channels@[k2]).spec_writable(),
                    big == (self@.endianess is Big),
                    candidate.data_type == D::spec_natural_type(),
                    meta_bytes@ == enc32(n as u32, big) + spec_objects_bytes(
                        paths_view(channels@).take(k as int),
                        candidate,
                        big,
                    ),
                decreases n - k,
            {
                write_object_meta(&mut meta_bytes, &channels[k], &candidate, big);
                proof {
                    let paths = paths_view(channels@);
                    assert(paths[k as int] == channels@[k as int]@);
                    assert(paths.take(k + 1).drop_last() =~= paths.take(k as int));
                    assert(paths.take(k + 1).last() == paths[k as int]);
                    assert(spec_objects_bytes(paths.take(k + 1), candidate, big)
                        == spec_objects_bytes(paths.take(k as int), candidate, big)
                        + spec_object_bytes(paths[k as int], candidate, big));
                    assert(meta_bytes@ =~= enc32(n as u32, big) + spec_objects_bytes(
                        paths.take(k + 1),
                        candidate,
                        big,
                    ));
                }
                k = k + 1;
            }
            proof {
                assert(paths_view(channels@).take(n as int) =~= paths_view(channels@));
            }
        }
        let meta_len = meta_bytes.len();
        let payload_len = payload.len();
        let next_off = match (meta_len as u64).checked_add(payload_len as u64) {
            Some(v) => v,
            Option::None => {
                return Err(TdmsError::IoError);
            },
        };
        let raw_off = meta_len as u64;
        let pos = self.index.next_segment_position();
        let advanced = match pos.checked_add(next_off) {
            Some(v) => v,
            Option::None => {
                return Err(TdmsError::IoError);
            },
        };
        match advanced.checked_add(LEAD_IN_BYTES) {
            Some(_) => {},
            Option::None => {
                return Err(TdmsError::IoError);
            },
        }
        let toc = ToC {
            contains_meta_data: !matches,
            contains_new_object_list: !matches,
            contains_raw_data: true,
            contains_daqmx_raw_data: false,
            data_is_interleaved: matches!(layout, DataLayout::Interleaved),
            big_endian: big,
        };
        // the object list the scanner consumes
        let mut objects: Vec<ObjectMetaData> = Vec::new();
        if !matches {
            let mut k: usize = 0;
            while k < n
                invariant
                    n == channels@.len(),
                    k <= n,
                    objects@.len() == k,
                    forall|k2: int|
                        0 <= k2 < k ==> #[trigger] objects@[k2]@ == spec_write_objects(
                            paths_view(channels@),
                            candidate,
                        )[k2],
                decreases n - k,
            {
                objects.push(
                    ObjectMetaData {
                        path: channels[k].clone(),
                        properties: Vec::new(),
                        raw_data_index: RawDataIndex::RawData(candidate),
                    },
                );
                proof {
                    assert(objects@[k as int]@ =~= spec_write_objects(
                        paths_view(channels@),
                        candidate,
                    )[k as int]);
                }
                k = k + 1;
            }
        }
        let segment = SegmentMetaData {
            toc,
            next_segment_offset: next_off,
            raw_data_offset: raw_off,
            objects,
        };
        let ghost seg_view = segment@;
        proof {
            if matches {
                assert(seg_view.objects =~= Seq::<ObjectMetaView>::empty());
            } else {
                assert(seg_view.objects =~= spec_write_objects(
                    paths_view(channels@),
                    candidate,
                ));
            }
        }
        // emit the segment bytes
        write_u8(&mut self.sink, 0x54);
        write_u8(&mut self.sink, 0x44);
        write_u8(&mut self.sink, 0x53);
        write_u8(&mut self.sink, 0x6D);
        write_u32_le(&mut self.sink, toc.as_u32());
        write_u32_le(&mut self.sink, TDMS_VERSION);
        write_u64_le(&mut self.sink, next_off);
        write_u64_le(&mut self.sink, raw_off);
        let ghost meta_view = meta_bytes@;
        let ghost payload_view = payload@;
        self.sink.append(&mut meta_bytes);
        self.sink.append(&mut payload);
        proof {
            assert(self@.sink =~= old_view.sink + spec_lead_in(toc, next_off, raw_off)
                + meta_view + payload_view);
        }
        // the scanner consumes the segment it just emitted
        proof {
            if seg_view.toc.contains_new_object_list {
                lemma_all_raw_data_applies(
                    ScannerView { active: Seq::empty(), ..old_view.index },
                    seg_view.objects,
                );
            } else {
                lemma_all_raw_data_applies(old_view.index, seg_view.objects);
            }
        }
        match self.index.add_segment_to_index(segment) {
            Ok(()) => {},
            Err(_) => {
                proof {
                    assert(false);
                }
            },
        }
        Ok(())
    }

    /// Forces the file to sync to disk by calling the sync method on
    /// the writer.
    ///
    /// The in-memory sink already holds every byte written, so there
    /// is nothing left to flush; a host that keeps the bytes in a real
    /// file makes them durable when it writes them out.
    pub fn sync(&mut self) -> (r: Result<(), TdmsError>)
        ensures
            final(self)@ == old(self)@,
            r is Ok,
    {
        Ok(())
    }
}

} // verus!
