//! The storage-type codec and the segment writer.

use tdms::byte_io::ByteCursor;
use tdms::data_types::{DataType, F32Bits, F64Bits, TdmsStorageType};
use tdms::error::TdmsError;
use tdms::index::{DataLocation, FileScanner};
use tdms::meta_data::{decode_lead_in, version_supported, ToC};
use tdms::raw_data::{DataLayout, Endianess};
use tdms::file_writer::{TdmsFileWriter, TDMS_VERSION};

fn round_trip_le<D: TdmsStorageType + PartialEq + std::fmt::Debug + Clone>(value: D) {
    let mut sink: Vec<u8> = Vec::new();
    value.write_le(&mut sink).unwrap();
    assert_eq!(sink.len(), value.size());
    let mut cursor = ByteCursor::new(sink);
    let back = D::read_le(&mut cursor).unwrap();
    assert_eq!(back, value);
    assert_eq!(cursor.pos, value.size());
}

fn round_trip_be<D: TdmsStorageType + PartialEq + std::fmt::Debug + Clone>(value: D) {
    let mut sink: Vec<u8> = Vec::new();
    value.write_be(&mut sink).unwrap();
    assert_eq!(sink.len(), value.size());
    let mut cursor = ByteCursor::new(sink);
    let back = D::read_be(&mut cursor).unwrap();
    assert_eq!(back, value);
}

#[test]
fn test_i32_le() {
    let original_value: i32 = -12345;
    let bytes = original_value.to_le_bytes();
    let mut sink: Vec<u8> = Vec::new();
    original_value.write_le(&mut sink).unwrap();
    assert_eq!(sink, bytes.to_vec());
    let mut cursor = ByteCursor::new(sink);
    let read_value: i32 = i32::read_le(&mut cursor).unwrap();
    assert_eq!(read_value, original_value);
}

#[test]
fn test_i32_be() {
    let original_value: i32 = -12345;
    let bytes = original_value.to_be_bytes();
    let mut sink: Vec<u8> = Vec::new();
    original_value.write_be(&mut sink).unwrap();
    assert_eq!(sink, bytes.to_vec());
    let mut cursor = ByteCursor::new(sink);
    let read_value: i32 = i32::read_be(&mut cursor).unwrap();
    assert_eq!(read_value, original_value);
}

#[test]
fn test_u32_le() {
    let original_value: u32 = 12345;
    let bytes = original_value.to_le_bytes();
    let mut sink: Vec<u8> = Vec::new();
    original_value.write_le(&mut sink).unwrap();
    assert_eq!(sink, bytes.to_vec());
    let mut cursor = ByteCursor::new(sink);
    let read_value: u32 = u32::read_le(&mut cursor).unwrap();
    assert_eq!(read_value, original_value);
}

#[test]
fn test_u32_be() {
    let original_value: u32 = 12345;
    let bytes = original_value.to_be_bytes();
    let mut sink: Vec<u8> = Vec::new();
    original_value.write_be(&mut sink).unwrap();
    assert_eq!(sink, bytes.to_vec());
    let mut cursor = ByteCursor::new(sink);
    let read_value: u32 = u32::read_be(&mut cursor).unwrap();
    assert_eq!(read_value, original_value);
}

#[test]
fn test_f64_le() {
    // an IEEE double moves through the codec as its bit pattern
    let original_value: f64 = 1234.1245;
    let bytes = original_value.to_le_bytes();
    let carrier = F64Bits {
        bits: original_value.to_bits(),
    };
    let mut sink: Vec<u8> = Vec::new();
    carrier.write_le(&mut sink).unwrap();
    assert_eq!(sink, bytes.to_vec());
    let mut cursor = ByteCursor::new(sink);
    let read_value = F64Bits::read_le(&mut cursor).unwrap();
    assert_eq!(f64::from_bits(read_value.bits), original_value);
}

#[test]
fn test_f64_be() {
    let original_value: f64 = 1234.1245;
    let bytes = original_value.to_be_bytes();
    let carrier = F64Bits {
        bits: original_value.to_bits(),
    };
    let mut sink: Vec<u8> = Vec::new();
    carrier.write_be(&mut sink).unwrap();
    assert_eq!(sink, bytes.to_vec());
    let mut cursor = ByteCursor::new(sink);
    let read_value = F64Bits::read_be(&mut cursor).unwrap();
    assert_eq!(f64::from_bits(read_value.bits), original_value);
}

#[test]
fn every_storage_type_round_trips() {
    round_trip_le(0xABu8);
    round_trip_be(0xABu8);
    round_trip_le(-2_000_000_000i32);
    round_trip_be(-2_000_000_000i32);
    round_trip_le(0xDEAD_BEEFu32);
    round_trip_be(0xDEAD_BEEFu32);
    round_trip_le(0x0123_4567_89AB_CDEFu64);
    round_trip_be(0x0123_4567_89AB_CDEFu64);
    round_trip_le(F32Bits {
        bits: 1.5f32.to_bits(),
    });
    round_trip_be(F32Bits {
        bits: 1.5f32.to_bits(),
    });
    round_trip_le("hello world".to_string());
    round_trip_be("hello world".to_string());
    round_trip_le(String::new());
}

#[test]
fn string_codec_writes_a_length_prefix() {
    let mut sink: Vec<u8> = Vec::new();
    "abc".to_string().write_le(&mut sink).unwrap();
    assert_eq!(sink, vec![3, 0, 0, 0, b'a', b'b', b'c']);
    assert_eq!("abc".to_string().size(), 7);
}

#[test]
fn string_codec_rejects_invalid_utf8() {
    let bytes = vec![2, 0, 0, 0, 0xFF, 0xFE];
    let mut cursor = ByteCursor::new(bytes);
    let err = String::read_le(&mut cursor).unwrap_err();
    assert_eq!(err, TdmsError::InvalidUtf8);
    // the position is restored on failure
    assert_eq!(cursor.pos, 0);
}

#[test]
fn string_codec_short_body_is_end_of_stream() {
    // the length prefix promises more bytes than are present: that is
    // an end-of-stream failure, not a UTF-8 one
    let bytes = vec![5, 0, 0, 0, b'a'];
    let mut cursor = ByteCursor::new(bytes);
    let err = String::read_le(&mut cursor).unwrap_err();
    assert_eq!(err, TdmsError::IoError);
    assert_eq!(cursor.pos, 0);
}

#[test]
fn reads_past_the_end_fail() {
    let mut cursor = ByteCursor::new(vec![1, 2]);
    assert_eq!(u32::read_le(&mut cursor).unwrap_err(), TdmsError::IoError);
    assert_eq!(cursor.pos, 0);
}

#[test]
fn supported_types_follow_the_declarations() {
    assert!(u32::supports_data_type(&DataType::U32));
    assert!(!u32::supports_data_type(&DataType::I32));
    assert!(F64Bits::supports_data_type(&DataType::DoubleFloat));
    assert!(F64Bits::supports_data_type(&DataType::DoubleFloatWithUnit));
    assert!(!F64Bits::supports_data_type(&DataType::SingleFloat));
    assert!(String::supports_data_type(&DataType::TdmsString));
    assert_eq!(u64::natural_type(), DataType::U64);
    assert_eq!(DataType::from_u32(0x20), Some(DataType::TdmsString));
    assert_eq!(DataType::from_u32(0x1269), None);
    assert_eq!(DataType::DAQmxRawData.as_tag(), 0xFFFF_FFFF);
}

#[test]
fn toc_flags_follow_the_bits() {
    let toc = ToC::from_u32(0xE);
    assert!(toc.contains_meta_data);
    assert!(toc.contains_new_object_list);
    assert!(toc.contains_raw_data);
    assert!(!toc.data_is_interleaved);
    assert!(!toc.big_endian);
    assert!(!toc.contains_daqmx_raw_data);
    assert_eq!(toc.as_u32(), 0xE);
    let toc2 = ToC::from_u32(0x68);
    assert!(toc2.contains_raw_data);
    assert!(toc2.data_is_interleaved);
    assert!(toc2.big_endian);
}

#[test]
fn writer_emits_a_segment_and_tracks_live_state() {
    let writer_scanner = FileScanner::new();
    let mut writer = TdmsFileWriter::new(writer_scanner, Vec::new(), Endianess::Little);
    let channels = vec!["group/ch1".to_string(), "group/ch2".to_string()];
    let values: Vec<u32> = vec![1, 2, 3, 4];
    writer
        .write_channels(&channels, &values, DataLayout::Contigious)
        .unwrap();
    writer.sync().unwrap();
    let (scanner, sink) = writer.into_parts();

    // lead-in: magic, ToC (metadata, new list, raw data), version,
    // offsets; metadata: 2 objects of 37 bytes each after the count
    assert_eq!(&sink[0..4], b"TDSm");
    assert_eq!(&sink[4..8], &0xEu32.to_le_bytes());
    assert_eq!(&sink[8..12], &TDMS_VERSION.to_le_bytes());
    assert_eq!(&sink[12..20], &94u64.to_le_bytes());
    assert_eq!(&sink[20..28], &78u64.to_le_bytes());
    assert_eq!(sink.len(), 122);
    // the payload sits after the metadata
    assert_eq!(&sink[106..110], &1u32.to_le_bytes());
    assert_eq!(&sink[118..122], &4u32.to_le_bytes());
    // metadata starts with the object count and the first path
    assert_eq!(&sink[28..32], &2u32.to_le_bytes());
    assert_eq!(&sink[32..36], &9u32.to_le_bytes());
    assert_eq!(&sink[36..45], b"group/ch1");

    let index = scanner.into_index();
    let block = index.get_data_block(0).unwrap();
    assert_eq!(block.start, 106);
    assert_eq!(block.length, 16);
    assert_eq!(block.layout, DataLayout::Contigious);
    assert_eq!(block.channels.len(), 2);
    assert_eq!(block.channels[0].data_type, DataType::U32);
    assert_eq!(block.channels[0].number_of_values, 2);
    assert_eq!(
        index.get_channel_data_positions("group/ch1").unwrap(),
        &[DataLocation {
            data_block: 0,
            channel_index: 0
        }]
    );
}

#[test]
fn second_matching_write_omits_the_metadata() {
    let mut writer = TdmsFileWriter::new(FileScanner::new(), Vec::new(), Endianess::Little);
    let channels = vec!["group/ch1".to_string(), "group/ch2".to_string()];
    let values: Vec<u32> = vec![1, 2, 3, 4];
    writer
        .write_channels(&channels, &values, DataLayout::Contigious)
        .unwrap();
    let first_len = 122;
    writer
        .write_channels(&channels, &values, DataLayout::Contigious)
        .unwrap();
    let (scanner, sink) = writer.into_parts();

    // the second segment carries raw data only: lead-in and payload
    assert_eq!(sink.len(), first_len + 28 + 16);
    assert_eq!(&sink[first_len..first_len + 4], b"TDSm");
    assert_eq!(
        &sink[first_len + 4..first_len + 8],
        &0x8u32.to_le_bytes()
    );
    assert_eq!(
        &sink[first_len + 12..first_len + 20],
        &16u64.to_le_bytes()
    );
    assert_eq!(
        &sink[first_len + 20..first_len + 28],
        &0u64.to_le_bytes()
    );

    let index = scanner.into_index();
    assert_eq!(
        index.get_channel_data_positions("group/ch1").unwrap(),
        &[
            DataLocation {
                data_block: 0,
                channel_index: 0
            },
            DataLocation {
                data_block: 1,
                channel_index: 0
            }
        ]
    );
    let second = index.get_data_block(1).unwrap();
    assert_eq!(second.start, 150);
    assert_eq!(second.length, 16);
}

#[test]
fn writer_rejects_uneven_value_slices() {
    let mut writer = TdmsFileWriter::new(FileScanner::new(), Vec::new(), Endianess::Little);
    let channels = vec!["a".to_string(), "b".to_string()];
    let values: Vec<u32> = vec![1, 2, 3];
    let err = writer
        .write_channels(&channels, &values, DataLayout::Contigious)
        .unwrap_err();
    assert_eq!(err, TdmsError::WriteSliceLenMismatch);
    let no_channels: Vec<String> = Vec::new();
    let err2 = writer
        .write_channels(&no_channels, &values, DataLayout::Contigious)
        .unwrap_err();
    assert_eq!(err2, TdmsError::WriteSliceLenMismatch);
}

#[test]
fn writer_rejects_variable_width_values() {
    let mut writer = TdmsFileWriter::new(FileScanner::new(), Vec::new(), Endianess::Little);
    let channels = vec!["a".to_string()];
    let values: Vec<String> = vec!["x".to_string()];
    let err = writer
        .write_channels(&channels, &values, DataLayout::Contigious)
        .unwrap_err();
    assert_eq!(err, TdmsError::UnknownDataType(0x20));
}

#[test]
fn written_big_endian_payload_reads_back() {
    let mut writer = TdmsFileWriter::new(FileScanner::new(), Vec::new(), Endianess::Big);
    let channels = vec!["g/c1".to_string()];
    let values: Vec<u32> = vec![0xA1B2C3D4, 7];
    writer
        .write_channels(&channels, &values, DataLayout::Contigious)
        .unwrap();
    let (scanner, sink) = writer.into_parts();
    let index = scanner.into_index();
    let block = index.get_data_block(0).unwrap().clone();
    assert_eq!(block.byte_order, Endianess::Big);

    let mut cursor = ByteCursor::new(sink);
    let mut out: Vec<u32> = vec![0, 0];
    let count = block.read_single(0, &mut cursor, &mut out).unwrap();
    assert_eq!(count, 2);
    assert_eq!(out, vec![0xA1B2C3D4, 7]);
}

#[test]
fn written_lead_in_decodes_back() {
    let mut writer = TdmsFileWriter::new(FileScanner::new(), Vec::new(), Endianess::Little);
    let channels = vec!["group/ch1".to_string()];
    let values: Vec<u32> = vec![5, 6];
    writer
        .write_channels(&channels, &values, DataLayout::Interleaved)
        .unwrap();
    let (_, sink) = writer.into_parts();

    let mut cursor = ByteCursor::new(sink);
    let lead_in = decode_lead_in(&mut cursor).unwrap();
    assert!(lead_in.toc.contains_meta_data);
    assert!(lead_in.toc.contains_new_object_list);
    assert!(lead_in.toc.contains_raw_data);
    assert!(lead_in.toc.data_is_interleaved);
    assert!(!lead_in.toc.big_endian);
    assert_eq!(lead_in.version, TDMS_VERSION);
    assert!(version_supported(lead_in.version));
    assert_eq!(lead_in.raw_data_offset + 8, lead_in.next_segment_offset);
    assert_eq!(cursor.pos, 28);
}

#[test]
fn lead_in_rejects_missing_magic() {
    let mut bytes = vec![0u8; 28];
    bytes[0] = b'X';
    let mut cursor = ByteCursor::new(bytes);
    assert_eq!(
        decode_lead_in(&mut cursor).unwrap_err(),
        TdmsError::InvalidMagic
    );
    assert_eq!(cursor.pos, 0);

    let mut short = ByteCursor::new(b"TDSm".to_vec());
    assert_eq!(
        decode_lead_in(&mut short).unwrap_err(),
        TdmsError::IoError
    );
    assert_eq!(short.pos, 0);
    assert!(!version_supported(0));
}
