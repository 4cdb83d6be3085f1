//! The on-disk data-type tags and the storage types that carry their values.

use vstd::prelude::*;

use vstd::string::StringSliceAdditionalSpecFns;
use vstd::utf8::{decode_utf8, decode_utf8_encode_utf8, encode_utf8, encode_utf8_decode_utf8,
    encode_utf8_valid_utf8, valid_utf8};

use crate::byte_io::{
    append_bytes, be32, be64, ByteCursor, from_be32, from_le32, i32_bits, i32_from_bits,
    i32_of_bits, i32_to_bits, le32, le64, lemma_codec32, lemma_codec64, read_u32_be, read_u32_le,
    read_u64_be, read_u64_le, write_u32_be, write_u32_le, write_u64_be, write_u64_le, write_u8,
};
use crate::error::TdmsError;

verus! {

/// The closed set of on-disk type tags.  Each variant corresponds to one
/// 32-bit tag value in the file; the tags are not contiguous and unknown
/// tags are rejected.
#[derive(Clone, Copy, Debug, PartialEq, Eq, Structural)]
pub enum DataType {
    Void,
    I8,
    I16,
    I32,
    I64,
    U8,
    U16,
    U32,
    U64,
    SingleFloat,
    DoubleFloat,
    ExtendedFloat,
    SingleFloatWithUnit,
    DoubleFloatWithUnit,
    ExtendedFloatWithUnit,
    TdmsString,
    Boolean,
    TimeStamp,
    FixedPoint,
    ComplexSingleFloat,
    ComplexDoubleFloat,
    DAQmxRawData,
}

/// The 32-bit tag under which a data type is stored on disk.
pub open spec fn spec_tag_of(d: DataType) -> u32 {
    match d {
        DataType::Void => 0,
        DataType::I8 => 1,
        DataType::I16 => 2,
        DataType::I32 => 3,
        DataType::I64 => 4,
        DataType::U8 => 5,
        DataType::U16 => 6,
        DataType::U32 => 7,
        DataType::U64 => 8,
        DataType::SingleFloat => 9,
        DataType::DoubleFloat => 10,
        DataType::ExtendedFloat => 11,
        DataType::SingleFloatWithUnit => 0x19,
        DataType::DoubleFloatWithUnit => 12,
        DataType::ExtendedFloatWithUnit => 13,
        DataType::TdmsString => 0x20,
        DataType::Boolean => 0x21,
        DataType::TimeStamp => 0x44,
        DataType::FixedPoint => 0x4F,
        DataType::ComplexSingleFloat => 0x0008_000c,
        DataType::ComplexDoubleFloat => 0x0010_000d,
        DataType::DAQmxRawData => 0xFFFF_FFFF,
    }
}

impl DataType {
    /// The tag value written to disk for this data type.
    pub fn as_tag(self) -> (t: u32)
        ensures
            t == spec_tag_of(self),
    {
        match self {
            DataType::Void => 0,
            DataType::I8 => 1,
            DataType::I16 => 2,
            DataType::I32 => 3,
            DataType::I64 => 4,
            DataType::U8 => 5,
            DataType::U16 => 6,
            DataType::U32 => 7,
            DataType::U64 => 8,
            DataType::SingleFloat => 9,
            DataType::DoubleFloat => 10,
            DataType::ExtendedFloat => 11,
            DataType::SingleFloatWithUnit => 0x19,
            DataType::DoubleFloatWithUnit => 12,
            DataType::ExtendedFloatWithUnit => 13,
            DataType::TdmsString => 0x20,
            DataType::Boolean => 0x21,
            DataType::TimeStamp => 0x44,
            DataType::FixedPoint => 0x4F,
            DataType::ComplexSingleFloat => 0x0008_000c,
            DataType::ComplexDoubleFloat => 0x0010_000d,
            DataType::DAQmxRawData => 0xFFFF_FFFF,
        }
    }

    /// The data type stored under a 32-bit tag, or `None` for an unknown
    /// tag.
    pub fn from_u32(tag: u32) -> (d: Option<DataType>)
        ensures
            match d {
                Some(t) => spec_tag_of(t) == tag,
                None => forall|t: DataType| spec_tag_of(t) != tag,
            },
    {
        match tag {
            0 => Some(DataType::Void),
            1 => Some(DataType::I8),
            2 => Some(DataType::I16),
            3 => Some(DataType::I32),
            4 => Some(DataType::I64),
            5 => Some(DataType::U8),
            6 => Some(DataType::U16),
            7 => Some(DataType::U32),
            8 => Some(DataType::U64),
            9 => Some(DataType::SingleFloat),
            10 => Some(DataType::DoubleFloat),
            11 => Some(DataType::ExtendedFloat),
            0x19 => Some(DataType::SingleFloatWithUnit),
            12 => Some(DataType::DoubleFloatWithUnit),
            13 => Some(DataType::ExtendedFloatWithUnit),
            0x20 => Some(DataType::TdmsString),
            0x21 => Some(DataType::Boolean),
            0x44 => Some(DataType::TimeStamp),
            0x4F => Some(DataType::FixedPoint),
            0x0008_000c => Some(DataType::ComplexSingleFloat),
            0x0010_000d => Some(DataType::ComplexDoubleFloat),
            0xFFFF_FFFF => Some(DataType::DAQmxRawData),
            _ => None,
        }
    }
}

/// The historical name of the on-disk tag enumeration.
pub type DataTypeRaw = DataType;

/// A value-level carrier for channel and property data.
///
/// Each storage type declares the data type it is naturally written as,
/// the set of data types it may be read from, and its fixed- or
/// variable-width on-disk encoding in either byte order.
pub trait TdmsStorageType: Sized {
    /// The data type under which a value of this storage type is written.
    spec fn spec_natural_type() -> DataType;

    /// Whether a channel of data type `d` may be read as this storage type.
    spec fn spec_supported(d: DataType) -> bool;

    /// Whether the value fits the format's limits (a string's bytes must
    /// fit a 32-bit length prefix and its reported size the machine).
    spec fn spec_writable(&self) -> bool;

    /// The number of bytes of one encoded value.
    spec fn spec_size(&self) -> nat;

    /// The on-disk encoding of the value, big- or little-endian.
    spec fn enc(&self, big_endian: bool) -> Seq<u8>;

    /// Whether a valid encoding stands at the front of `s`.
    spec fn decodable(s: Seq<u8>, big_endian: bool) -> bool;

    /// The byte length of the encoding at the front of `s`, where one
    /// stands there.
    spec fn dec_len(s: Seq<u8>, big_endian: bool) -> nat;

    /// The error a failed decode of `s` reports: running out of bytes
    /// is an end-of-stream failure, and only a string whose prefixed
    /// body is present but not valid UTF-8 fails otherwise.
    spec fn decode_err(s: Seq<u8>, big_endian: bool) -> TdmsError;

    /// The constant width of this storage type's encoding, or `None`
    /// for a variable-width type.
    spec fn spec_fixed_size() -> Option<nat>;

    /// A fixed-width type decodes exactly when its width of bytes is
    /// present, and always consumes exactly its width.
    proof fn lemma_fixed_size_laws(s: Seq<u8>, big_endian: bool)
        ensures
            Self::spec_fixed_size() is Some ==> (Self::decodable(s, big_endian) <==> s.len()
                >= Self::spec_fixed_size().unwrap()),
            Self::spec_fixed_size() is Some ==> Self::dec_len(s, big_endian)
                == Self::spec_fixed_size().unwrap(),
    ;

    /// Size law and decode completeness: an encoding is as long as the
    /// value reports, and a valid encoding stands at its own front,
    /// whatever follows it.
    proof fn lemma_encoding_laws(v: Self, rest: Seq<u8>, big_endian: bool)
        requires
            v.spec_writable(),
        ensures
            v.enc(big_endian).len() == v.spec_size(),
            Self::decodable(v.enc(big_endian) + rest, big_endian),
            Self::dec_len(v.enc(big_endian) + rest, big_endian) == v.spec_size(),
    ;

    /// The data type under which this storage type is written.
    fn natural_type() -> (d: DataType)
        ensures
            d == Self::spec_natural_type(),
    ;

    /// Whether a channel of the given data type may be read as this
    /// storage type.
    fn supports_data_type(data_type: &DataType) -> (r: bool)
        ensures
            r == Self::spec_supported(*data_type),
    ;

    /// Decode one value little-endian; on failure the position is
    /// restored.
    fn read_le(reader: &mut ByteCursor) -> (r: Result<Self, TdmsError>)
        requires
            old(reader).wf(),
        ensures
            final(reader).data == old(reader).data,
            final(reader).wf(),
            match r {
                Ok(v) => {
                    &&& v.spec_writable()
                    &&& final(reader).pos == old(reader).pos + v.spec_size()
                    &&& final(reader).pos <= old(reader).data@.len()
                    &&& v.enc(false) == old(reader).data@.subrange(
                        old(reader).pos as int,
                        final(reader).pos as int,
                    )
                },
                Err(e) => !Self::decodable(old(reader).data@.skip(old(reader).pos as int), false)
                    && final(reader).pos == old(reader).pos && e == Self::decode_err(
                    old(reader).data@.skip(old(reader).pos as int),
                    false,
                ) && (e == TdmsError::IoError || e == TdmsError::InvalidUtf8),
            },
    ;

    /// Decode one value big-endian; on failure the position is restored.
    fn read_be(reader: &mut ByteCursor) -> (r: Result<Self, TdmsError>)
        requires
            old(reader).wf(),
        ensures
            final(reader).data == old(reader).data,
            final(reader).wf(),
            match r {
                Ok(v) => {
                    &&& v.spec_writable()
                    &&& final(reader).pos == old(reader).pos + v.spec_size()
                    &&& final(reader).pos <= old(reader).data@.len()
                    &&& v.enc(true) == old(reader).data@.subrange(
                        old(reader).pos as int,
                        final(reader).pos as int,
                    )
                },
                Err(e) => !Self::decodable(old(reader).data@.skip(old(reader).pos as int), true)
                    && final(reader).pos == old(reader).pos && e == Self::decode_err(
                    old(reader).data@.skip(old(reader).pos as int),
                    true,
                ) && (e == TdmsError::IoError || e == TdmsError::InvalidUtf8),
            },
    ;

    /// Append the value's little-endian encoding to the sink.
    fn write_le(&self, sink: &mut Vec<u8>) -> (r: Result<(), TdmsError>)
        requires
            self.spec_writable(),
        ensures
            r is Ok,
            final(sink)@ == old(sink)@ + self.enc(false),
    ;

    /// Append the value's big-endian encoding to the sink.
    fn write_be(&self, sink: &mut Vec<u8>) -> (r: Result<(), TdmsError>)
        requires
            self.spec_writable(),
        ensures
            r is Ok,
            final(sink)@ == old(sink)@ + self.enc(true),
    ;

    /// The size of the value's encoding, to allow planning of writes.
    fn size(&self) -> (r: usize)
        requires
            self.spec_writable(),
        ensures
            r == self.spec_size(),
    ;
}

impl TdmsStorageType for u8 {
    open spec fn spec_natural_type() -> DataType {
        DataType::U8
    }

    open spec fn spec_supported(d: DataType) -> bool {
        d == DataType::U8
    }

    open spec fn spec_writable(&self) -> bool {
        true
    }

    open spec fn spec_size(&self) -> nat {
        1
    }

    open spec fn enc(&self, big_endian: bool) -> Seq<u8> {
        seq![*self]
    }

    open spec fn decodable(s: Seq<u8>, big_endian: bool) -> bool {
        s.len() >= 1
    }

    open spec fn dec_len(s: Seq<u8>, big_endian: bool) -> nat {
        1
    }

    open spec fn decode_err(s: Seq<u8>, big_endian: bool) -> TdmsError {
        TdmsError::IoError
    }

    open spec fn spec_fixed_size() -> Option<nat> {
        Some(1nat)
    }

    proof fn lemma_fixed_size_laws(s: Seq<u8>, big_endian: bool) {
    }

    proof fn lemma_encoding_laws(v: Self, rest: Seq<u8>, big_endian: bool) {
    }

    fn natural_type() -> DataType {
        DataType::U8
    }

    fn supports_data_type(data_type: &DataType) -> bool {
        *data_type == DataType::U8
    }

    fn read_le(reader: &mut ByteCursor) -> (r: Result<Self, TdmsError>) {
        let b = reader.read_byte()?;
        proof {
            assert(seq![b] =~= old(reader).data@.subrange(
                old(reader).pos as int,
                old(reader).pos + 1,
            ));
        }
        Ok(b)
    }

    fn read_be(reader: &mut ByteCursor) -> (r: Result<Self, TdmsError>) {
        let b = reader.read_byte()?;
        proof {
            assert(seq![b] =~= old(reader).data@.subrange(
                old(reader).pos as int,
                old(reader).pos + 1,
            ));
        }
        Ok(b)
    }

    fn write_le(&self, sink: &mut Vec<u8>) -> (r: Result<(), TdmsError>) {
        write_u8(sink, *self);
        Ok(())
    }

    fn write_be(&self, sink: &mut Vec<u8>) -> (r: Result<(), TdmsError>) {
        write_u8(sink, *self);
        Ok(())
    }

    fn size(&self) -> usize {
        1
    }
}

impl TdmsStorageType for u32 {
    open spec fn spec_natural_type() -> DataType {
        DataType::U32
    }

    open spec fn spec_supported(d: DataType) -> bool {
        d == DataType::U32
    }

    open spec fn spec_writable(&self) -> bool {
        true
    }

    open spec fn spec_size(&self) -> nat {
        4
    }

    open spec fn enc(&self, big_endian: bool) -> Seq<u8> {
        if big_endian {
            be32(*self)
        } else {
            le32(*self)
        }
    }

    open spec fn decodable(s: Seq<u8>, big_endian: bool) -> bool {
        s.len() >= 4
    }

    open spec fn dec_len(s: Seq<u8>, big_endian: bool) -> nat {
        4
    }

    open spec fn decode_err(s: Seq<u8>, big_endian: bool) -> TdmsError {
        TdmsError::IoError
    }

    open spec fn spec_fixed_size() -> Option<nat> {
        Some(4nat)
    }

    proof fn lemma_fixed_size_laws(s: Seq<u8>, big_endian: bool) {
    }

    proof fn lemma_encoding_laws(v: Self, rest: Seq<u8>, big_endian: bool) {
        lemma_codec32(v, rest);
    }

    fn natural_type() -> DataType {
        DataType::U32
    }

    fn supports_data_type(data_type: &DataType) -> bool {
        *data_type == DataType::U32
    }

    fn read_le(reader: &mut ByteCursor) -> (r: Result<Self, TdmsError>) {
        read_u32_le(reader)
    }

    fn read_be(reader: &mut ByteCursor) -> (r: Result<Self, TdmsError>) {
        read_u32_be(reader)
    }

    fn write_le(&self, sink: &mut Vec<u8>) -> (r: Result<(), TdmsError>) {
        write_u32_le(sink, *self);
        Ok(())
    }

    fn write_be(&self, sink: &mut Vec<u8>) -> (r: Result<(), TdmsError>) {
        write_u32_be(sink, *self);
        Ok(())
    }

    fn size(&self) -> usize {
        4
    }
}

impl TdmsStorageType for u64 {
    open spec fn spec_natural_type() -> DataType {
        DataType::U64
    }

    open spec fn spec_supported(d: DataType) -> bool {
        d == DataType::U64
    }

    open spec fn spec_writable(&self) -> bool {
        true
    }

    open spec fn spec_size(&self) -> nat {
        8
    }

    open spec fn enc(&self, big_endian: bool) -> Seq<u8> {
        if big_endian {
            be64(*self)
        } else {
            le64(*self)
        }
    }

    open spec fn decodable(s: Seq<u8>, big_endian: bool) -> bool {
        s.len() >= 8
    }

    open spec fn dec_len(s: Seq<u8>, big_endian: bool) -> nat {
        8
    }

    open spec fn decode_err(s: Seq<u8>, big_endian: bool) -> TdmsError {
        TdmsError::IoError
    }

    open spec fn spec_fixed_size() -> Option<nat> {
        Some(8nat)
    }

    proof fn lemma_fixed_size_laws(s: Seq<u8>, big_endian: bool) {
    }

    proof fn lemma_encoding_laws(v: Self, rest: Seq<u8>, big_endian: bool) {
        lemma_codec64(v, rest);
    }

    fn natural_type() -> DataType {
        DataType::U64
    }

    fn supports_data_type(data_type: &DataType) -> bool {
        *data_type == DataType::U64
    }

    fn read_le(reader: &mut ByteCursor) -> (r: Result<Self, TdmsError>) {
        read_u64_le(reader)
    }

    fn read_be(reader: &mut ByteCursor) -> (r: Result<Self, TdmsError>) {
        read_u64_be(reader)
    }

    fn write_le(&self, sink: &mut Vec<u8>) -> (r: Result<(), TdmsError>) {
        write_u64_le(sink, *self);
        Ok(())
    }

    fn write_be(&self, sink: &mut Vec<u8>) -> (r: Result<(), TdmsError>) {
        write_u64_be(sink, *self);
        Ok(())
    }

    fn size(&self) -> usize {
        8
    }
}

impl TdmsStorageType for i32 {
    open spec fn spec_natural_type() -> DataType {
        DataType::I32
    }

    open spec fn spec_supported(d: DataType) -> bool {
        d == DataType::I32
    }

    open spec fn spec_writable(&self) -> bool {
        true
    }

    open spec fn spec_size(&self) -> nat {
        4
    }

    open spec fn enc(&self, big_endian: bool) -> Seq<u8> {
        if big_endian {
            be32(i32_bits(*self))
        } else {
            le32(i32_bits(*self))
        }
    }

    open spec fn decodable(s: Seq<u8>, big_endian: bool) -> bool {
        s.len() >= 4
    }

    open spec fn dec_len(s: Seq<u8>, big_endian: bool) -> nat {
        4
    }

    open spec fn decode_err(s: Seq<u8>, big_endian: bool) -> TdmsError {
        TdmsError::IoError
    }

    open spec fn spec_fixed_size() -> Option<nat> {
        Some(4nat)
    }

    proof fn lemma_fixed_size_laws(s: Seq<u8>, big_endian: bool) {
    }

    proof fn lemma_encoding_laws(v: Self, rest: Seq<u8>, big_endian: bool) {
        lemma_codec32(i32_bits(v), rest);
    }

    fn natural_type() -> DataType {
        DataType::I32
    }

    fn supports_data_type(data_type: &DataType) -> bool {
        *data_type == DataType::I32
    }

    fn read_le(reader: &mut ByteCursor) -> (r: Result<Self, TdmsError>) {
        let u = read_u32_le(reader)?;
        Ok(i32_from_bits(u))
    }

    fn read_be(reader: &mut ByteCursor) -> (r: Result<Self, TdmsError>) {
        let u = read_u32_be(reader)?;
        Ok(i32_from_bits(u))
    }

    fn write_le(&self, sink: &mut Vec<u8>) -> (r: Result<(), TdmsError>) {
        write_u32_le(sink, i32_to_bits(*self));
        Ok(())
    }

    fn write_be(&self, sink: &mut Vec<u8>) -> (r: Result<(), TdmsError>) {
        write_u32_be(sink, i32_to_bits(*self));
        Ok(())
    }

    fn size(&self) -> usize {
        4
    }
}

/// Relies on `String::from_utf8`: it returns the string that decodes the
/// given bytes exactly when they are valid UTF-8, and refuses them
/// otherwise.
#[verifier::external_body]
fn string_from_utf8(bytes: Vec<u8>) -> (r: Result<String, TdmsError>)
    ensures
        match r {
            Ok(s) => valid_utf8(bytes@) && s@ == decode_utf8(bytes@),
            Err(e) => e == TdmsError::InvalidUtf8 && !valid_utf8(bytes@),
        },
{
    match String::from_utf8(bytes) {
        Ok(s) => Ok(s),
        Err(_) => Err(TdmsError::InvalidUtf8),
    }
}

/// The byte count named by the four-byte length prefix of an encoded
/// string.
pub open spec fn string_len_prefix(s: Seq<u8>, big_endian: bool) -> int {
    if big_endian {
        from_be32(s.take(4)) as int
    } else {
        from_le32(s.take(4)) as int
    }
}

impl TdmsStorageType for String {
    open spec fn spec_natural_type() -> DataType {
        DataType::TdmsString
    }

    open spec fn spec_supported(d: DataType) -> bool {
        d == DataType::TdmsString
    }

    open spec fn spec_writable(&self) -> bool {
        &&& encode_utf8(self@).len() <= 0xFFFF_FFFF
        &&& encode_utf8(self@).len() + 4 <= usize::MAX
    }

    open spec fn spec_size(&self) -> nat {
        (encode_utf8(self@).len() + 4) as nat
    }

    open spec fn enc(&self, big_endian: bool) -> Seq<u8> {
        let n = encode_utf8(self@).len() as u32;
        (if big_endian {
            be32(n)
        } else {
            le32(n)
        }) + encode_utf8(self@)
    }

    open spec fn decodable(s: Seq<u8>, big_endian: bool) -> bool {
        &&& s.len() >= 4
        &&& 4 + string_len_prefix(s, big_endian) <= s.len()
        &&& valid_utf8(s.subrange(4, 4 + string_len_prefix(s, big_endian)))
    }

    open spec fn dec_len(s: Seq<u8>, big_endian: bool) -> nat {
        (4 + string_len_prefix(s, big_endian)) as nat
    }

    open spec fn decode_err(s: Seq<u8>, big_endian: bool) -> TdmsError {
        if s.len() < 4 {
            TdmsError::IoError
        } else if 4 + string_len_prefix(s, big_endian) > s.len() {
            TdmsError::IoError
        } else {
            TdmsError::InvalidUtf8
        }
    }

    open spec fn spec_fixed_size() -> Option<nat> {
        Option::None
    }

    proof fn lemma_fixed_size_laws(s: Seq<u8>, big_endian: bool) {
    }

    proof fn lemma_encoding_laws(v: Self, rest: Seq<u8>, big_endian: bool) {
        let body = encode_utf8(v@);
        let n = body.len() as u32;
        let e = v.enc(big_endian);
        lemma_codec32(n, Seq::empty());
        assert((e + rest).take(4) =~= if big_endian {
            be32(n)
        } else {
            le32(n)
        });
        assert(string_len_prefix(e + rest, big_endian) == n);
        assert((e + rest).subrange(4, 4 + n as int) =~= body);
        encode_utf8_valid_utf8(v@);
    }

    fn natural_type() -> DataType {
        DataType::TdmsString
    }

    fn supports_data_type(data_type: &DataType) -> bool {
        *data_type == DataType::TdmsString
    }

    fn read_le(reader: &mut ByteCursor) -> (r: Result<Self, TdmsError>) {
        let start = reader.pos;
        let ghost s = old(reader).data@.skip(start as int);
        let n = match read_u32_le(reader) {
            Ok(n) => n,
            Err(e) => {
                proof {
                    assert(s.len() < 4);
                }
                return Err(e);
            },
        };
        proof {
            lemma_codec32(n, Seq::empty());
            assert(s.take(4) =~= old(reader).data@.subrange(start as int, start + 4));
            assert(string_len_prefix(s, false) == n);
        }
        let bytes = match reader.take_bytes(n as usize) {
            Ok(b) => b,
            Err(e) => {
                reader.pos = start;
                return Err(e);
            },
        };
        let ghost bv = bytes@;
        proof {
            assert(bv =~= s.subrange(4, 4 + n as int));
        }
        match string_from_utf8(bytes) {
            Ok(v) => {
                proof {
                    decode_utf8_encode_utf8(bv);
                    assert(encode_utf8(v@) == bv);
                    assert(v.enc(false) =~= old(reader).data@.subrange(
                        start as int,
                        start + 4 + n as int,
                    ));
                }
                Ok(v)
            },
            Err(e) => {
                reader.pos = start;
                return Err(e);
            },
        }
    }

    fn read_be(reader: &mut ByteCursor) -> (r: Result<Self, TdmsError>) {
        let start = reader.pos;
        let ghost s = old(reader).data@.skip(start as int);
        let n = match read_u32_be(reader) {
            Ok(n) => n,
            Err(e) => {
                proof {
                    assert(s.len() < 4);
                }
                return Err(e);
            },
        };
        proof {
            lemma_codec32(n, Seq::empty());
            assert(s.take(4) =~= old(reader).data@.subrange(start as int, start + 4));
            assert(string_len_prefix(s, true) == n);
        }
        let bytes = match reader.take_bytes(n as usize) {
            Ok(b) => b,
            Err(e) => {
                reader.pos = start;
                return Err(e);
            },
        };
        let ghost bv = bytes@;
        proof {
            assert(bv =~= s.subrange(4, 4 + n as int));
        }
        match string_from_utf8(bytes) {
            Ok(v) => {
                proof {
                    decode_utf8_encode_utf8(bv);
                    assert(encode_utf8(v@) == bv);
                    assert(v.enc(true) =~= old(reader).data@.subrange(
                        start as int,
                        start + 4 + n as int,
                    ));
                }
                Ok(v)
            },
            Err(e) => {
                reader.pos = start;
                return Err(e);
            },
        }
    }

    fn write_le(&self, sink: &mut Vec<u8>) -> (r: Result<(), TdmsError>) {
        let n = self.as_str().len();
        write_u32_le(sink, n as u32);
        append_bytes(sink, self.as_str().as_bytes());
        proof {
            assert(sink@ =~= old(sink)@ + self.enc(false));
        }
        Ok(())
    }

    fn write_be(&self, sink: &mut Vec<u8>) -> (r: Result<(), TdmsError>) {
        let n = self.as_str().len();
        write_u32_be(sink, n as u32);
        append_bytes(sink, self.as_str().as_bytes());
        proof {
            assert(sink@ =~= old(sink)@ + self.enc(true));
        }
        Ok(())
    }

    fn size(&self) -> usize {
        self.as_str().len() + 4
    }
}

/// An IEEE 754 double-precision value carried as its raw bit pattern.
///
/// The on-disk bytes of a double are exactly the little- or big-endian
/// bytes of its bit pattern, so the codec is verified over the pattern;
/// the numeric interpretation of the bits is left to the host
/// application.
#[derive(Clone, Copy, Debug, PartialEq, Eq, Structural)]
pub struct F64Bits {
    pub bits: u64,
}

impl TdmsStorageType for F64Bits {
    open spec fn spec_natural_type() -> DataType {
        DataType::DoubleFloat
    }

    open spec fn spec_supported(d: DataType) -> bool {
        d == DataType::DoubleFloat || d == DataType::DoubleFloatWithUnit
    }

    open spec fn spec_writable(&self) -> bool {
        true
    }

    open spec fn spec_size(&self) -> nat {
        8
    }

    open spec fn enc(&self, big_endian: bool) -> Seq<u8> {
        if big_endian {
            be64(self.bits)
        } else {
            le64(self.bits)
        }
    }

    open spec fn decodable(s: Seq<u8>, big_endian: bool) -> bool {
        s.len() >= 8
    }

    open spec fn dec_len(s: Seq<u8>, big_endian: bool) -> nat {
        8
    }

    open spec fn decode_err(s: Seq<u8>, big_endian: bool) -> TdmsError {
        TdmsError::IoError
    }

    open spec fn spec_fixed_size() -> Option<nat> {
        Some(8nat)
    }

    proof fn lemma_fixed_size_laws(s: Seq<u8>, big_endian: bool) {
    }

    proof fn lemma_encoding_laws(v: Self, rest: Seq<u8>, big_endian: bool) {
        lemma_codec64(v.bits, rest);
    }

    fn natural_type() -> DataType {
        DataType::DoubleFloat
    }

    fn supports_data_type(data_type: &DataType) -> bool {
        *data_type == DataType::DoubleFloat || *data_type == DataType::DoubleFloatWithUnit
    }

    fn read_le(reader: &mut ByteCursor) -> (r: Result<Self, TdmsError>) {
        let bits = read_u64_le(reader)?;
        Ok(F64Bits { bits })
    }

    fn read_be(reader: &mut ByteCursor) -> (r: Result<Self, TdmsError>) {
        let bits = read_u64_be(reader)?;
        Ok(F64Bits { bits })
    }

    fn write_le(&self, sink: &mut Vec<u8>) -> (r: Result<(), TdmsError>) {
        write_u64_le(sink, self.bits);
        Ok(())
    }

    fn write_be(&self, sink: &mut Vec<u8>) -> (r: Result<(), TdmsError>) {
        write_u64_be(sink, self.bits);
        Ok(())
    }

    fn size(&self) -> usize {
        8
    }
}

/// An IEEE 754 single-precision value carried as its raw bit pattern,
/// in the same way as [`F64Bits`].
#[derive(Clone, Copy, Debug, PartialEq, Eq, Structural)]
pub struct F32Bits {
    pub bits: u32,
}

impl TdmsStorageType for F32Bits {
    open spec fn spec_natural_type() -> DataType {
        DataType::SingleFloat
    }

    open spec fn spec_supported(d: DataType) -> bool {
        d == DataType::SingleFloat || d == DataType::SingleFloatWithUnit
    }

    open spec fn spec_writable(&self) -> bool {
        true
    }

    open spec fn spec_size(&self) -> nat {
        4
    }

    open spec fn enc(&self, big_endian: bool) -> Seq<u8> {
        if big_endian {
            be32(self.bits)
        } else {
            le32(self.bits)
        }
    }

    open spec fn decodable(s: Seq<u8>, big_endian: bool) -> bool {
        s.len() >= 4
    }

    open spec fn dec_len(s: Seq<u8>, big_endian: bool) -> nat {
        4
    }

    open spec fn decode_err(s: Seq<u8>, big_endian: bool) -> TdmsError {
        TdmsError::IoError
    }

    open spec fn spec_fixed_size() -> Option<nat> {
        Some(4nat)
    }

    proof fn lemma_fixed_size_laws(s: Seq<u8>, big_endian: bool) {
    }

    proof fn lemma_encoding_laws(v: Self, rest: Seq<u8>, big_endian: bool) {
        lemma_codec32(v.bits, rest);
    }

    fn natural_type() -> DataType {
        DataType::SingleFloat
    }

    fn supports_data_type(data_type: &DataType) -> bool {
        *data_type == DataType::SingleFloat || *data_type == DataType::SingleFloatWithUnit
    }

    fn read_le(reader: &mut ByteCursor) -> (r: Result<Self, TdmsError>) {
        let bits = read_u32_le(reader)?;
        Ok(F32Bits { bits })
    }

    fn read_be(reader: &mut ByteCursor) -> (r: Result<Self, TdmsError>) {
        let bits = read_u32_be(reader)?;
        Ok(F32Bits { bits })
    }

    fn write_le(&self, sink: &mut Vec<u8>) -> (r: Result<(), TdmsError>) {
        write_u32_le(sink, self.bits);
        Ok(())
    }

    fn write_be(&self, sink: &mut Vec<u8>) -> (r: Result<(), TdmsError>) {
        write_u32_be(sink, self.bits);
        Ok(())
    }

    fn size(&self) -> usize {
        4
    }
}

/// Round trip for bytes: two byte values with the same encoding are the
/// same value, so together with the decode completeness of
/// `lemma_encoding_laws` a byte read back after a write is the byte
/// written.
pub proof fn lemma_round_trip_u8(a: u8, b: u8, big_endian: bool)
    requires
        a.enc(big_endian) == b.enc(big_endian),
    ensures
        a == b,
{
    assert(a.enc(big_endian)[0] == a);
    assert(b.enc(big_endian)[0] == b);
}

/// Round trip for 32-bit unsigned values, under both byte orders.
pub proof fn lemma_round_trip_u32(a: u32, b: u32, big_endian: bool)
    requires
        a.enc(big_endian) == b.enc(big_endian),
    ensures
        a == b,
{
    lemma_codec32(a, Seq::empty());
    lemma_codec32(b, Seq::empty());
}

/// Round trip for 64-bit unsigned values, under both byte orders.
pub proof fn lemma_round_trip_u64(a: u64, b: u64, big_endian: bool)
    requires
        a.enc(big_endian) == b.enc(big_endian),
    ensures
        a == b,
{
    lemma_codec64(a, Seq::empty());
    lemma_codec64(b, Seq::empty());
}

/// Round trip for 32-bit signed values, under both byte orders.
pub proof fn lemma_round_trip_i32(a: i32, b: i32, big_endian: bool)
    requires
        a.enc(big_endian) == b.enc(big_endian),
    ensures
        a == b,
{
    lemma_codec32(i32_bits(a), Seq::empty());
    lemma_codec32(i32_bits(b), Seq::empty());
    lemma_i32_bits_round_trip_pair(a, b);
}

proof fn lemma_i32_bits_round_trip_pair(a: i32, b: i32)
    ensures
        i32_bits(a) == i32_bits(b) ==> a == b,
{
}

/// Round trip for double-precision bit patterns, under both byte orders.
pub proof fn lemma_round_trip_f64_bits(a: F64Bits, b: F64Bits, big_endian: bool)
    requires
        a.enc(big_endian) == b.enc(big_endian),
    ensures
        a == b,
{
    lemma_codec64(a.bits, Seq::empty());
    lemma_codec64(b.bits, Seq::empty());
}

/// Round trip for single-precision bit patterns, under both byte orders.
pub proof fn lemma_round_trip_f32_bits(a: F32Bits, b: F32Bits, big_endian: bool)
    requires
        a.enc(big_endian) == b.enc(big_endian),
    ensures
        a == b,
{
    lemma_codec32(a.bits, Seq::empty());
    lemma_codec32(b.bits, Seq::empty());
}

/// Round trip for strings: two writable strings with the same encoding
/// hold the same characters.
pub proof fn lemma_round_trip_string(a: &String, b: &String, big_endian: bool)
    requires
        a.spec_writable(),
        b.spec_writable(),
        a.enc(big_endian) == b.enc(big_endian),
    ensures
        a@ == b@,
{
    let ea = encode_utf8(a@);
    let eb = encode_utf8(b@);
    lemma_codec32(ea.len() as u32, Seq::empty());
    lemma_codec32(eb.len() as u32, Seq::empty());
    assert(a.enc(big_endian).len() == 4 + ea.len());
    assert(b.enc(big_endian).len() == 4 + eb.len());
    assert(ea =~= a.enc(big_endian).subrange(4, a.enc(big_endian).len() as int));
    assert(eb =~= b.enc(big_endian).subrange(4, b.enc(big_endian).len() as int));
    encode_utf8_decode_utf8(a@);
    encode_utf8_decode_utf8(b@);
}

} // verus!
