//! Data-block construction and the block readers.

use tdms::byte_io::ByteCursor;
use tdms::data_types::DataType;
use tdms::error::TdmsError;
use tdms::meta_data::{MetaData, ObjectMetaData, PropertyValue, RawDataIndex, RawDataMeta, Segment, ToC};
use tdms::raw_data::{DataBlock, DataLayout, Endianess};

fn dummy_segment() -> Segment {
    Segment {
        toc: ToC::from_u32(0xE),
        next_segment_offset: 500,
        raw_data_offset: 20,
        meta_data: Some(MetaData {
            objects: vec![
                ObjectMetaData {
                    path: String::from("group"),
                    properties: vec![("Prop".to_string(), PropertyValue::I32(-51))],
                    raw_data_index: RawDataIndex::NoData,
                },
                ObjectMetaData {
                    path: "group/ch1".to_string(),
                    properties: vec![("Prop1".to_string(), PropertyValue::I32(-1))],
                    raw_data_index: RawDataIndex::RawData(RawDataMeta {
                        data_type: DataType::DoubleFloat,
                        number_of_values: 1000,
                        total_size_bytes: None,
                    }),
                },
                ObjectMetaData {
                    path: "group/ch2".to_string(),
                    properties: vec![("Prop2".to_string(), PropertyValue::I32(-2))],
                    raw_data_index: RawDataIndex::RawData(RawDataMeta {
                        data_type: DataType::DoubleFloat,
                        number_of_values: 1000,
                        total_size_bytes: None,
                    }),
                },
            ],
        }),
    }
}

#[test]
fn datablock_captures_sizing_from_segment() {
    let segment = dummy_segment();

    let raw_meta = segment
        .meta_data
        .as_ref()
        .unwrap()
        .objects
        .iter()
        .filter_map(|object| {
            match &object.raw_data_index {
                RawDataIndex::RawData(meta) => Some(meta.clone()),
                _ => None, //not possible since we just set it above
            }
        })
        .collect::<Vec<_>>();

    let data_block = DataBlock::from_segment(&segment, 10, raw_meta);

    let expected_data_block = DataBlock {
        start: 58,
        length: 480,
        layout: DataLayout::Contigious,
        channels: vec![
            RawDataMeta {
                data_type: DataType::DoubleFloat,
                number_of_values: 1000,
                total_size_bytes: None,
            },
            RawDataMeta {
                data_type: DataType::DoubleFloat,
                number_of_values: 1000,
                total_size_bytes: None,
            },
        ],
        byte_order: Endianess::Little,
    };

    assert_eq!(data_block, expected_data_block);
}

#[test]
fn data_block_gets_layout_from_segment() {
    let mut interleaved = dummy_segment();
    interleaved.toc.data_is_interleaved = true;

    let mut contiguous = dummy_segment();
    contiguous.toc.data_is_interleaved = false;

    let interleaved_block = DataBlock::from_segment(&interleaved, 0, vec![]);
    let contiguous_block = DataBlock::from_segment(&contiguous, 0, vec![]);

    assert_eq!(interleaved_block.layout, DataLayout::Interleaved);
    assert_eq!(contiguous_block.layout, DataLayout::Contigious);
}

#[test]
fn data_block_gets_endianess_from_segment() {
    let mut big = dummy_segment();
    big.toc.big_endian = true;

    let mut little = dummy_segment();
    little.toc.big_endian = false;

    let big_block = DataBlock::from_segment(&big, 0, vec![]);
    let little_block = DataBlock::from_segment(&little, 0, vec![]);

    assert_eq!(big_block.byte_order, Endianess::Big);
    assert_eq!(little_block.byte_order, Endianess::Little);
}

fn u32_meta(count: u64) -> RawDataMeta {
    RawDataMeta {
        data_type: DataType::U32,
        number_of_values: count,
        total_size_bytes: None,
    }
}

fn contiguous_u32_block() -> (DataBlock, Vec<u8>) {
    // two u32 channels of two samples each: ch0 = [1, 2], ch1 = [3, 4]
    let mut data = Vec::new();
    for v in [1u32, 2, 3, 4] {
        data.extend_from_slice(&v.to_le_bytes());
    }
    let block = DataBlock {
        start: 0,
        length: 16,
        layout: DataLayout::Contigious,
        channels: vec![u32_meta(2), u32_meta(2)],
        byte_order: Endianess::Little,
    };
    (block, data)
}

#[test]
fn read_single_contiguous_channel() {
    let (block, data) = contiguous_u32_block();
    let mut cursor = ByteCursor::new(data);
    let mut out: Vec<u32> = vec![0, 0];
    let count = block.read_single(1, &mut cursor, &mut out).unwrap();
    assert_eq!(count, 2);
    assert_eq!(out, vec![3, 4]);
    // the source is left at the end of the block
    assert_eq!(cursor.pos, 16);
}

#[test]
fn read_single_is_capped_by_the_output_room() {
    let (block, data) = contiguous_u32_block();
    let mut cursor = ByteCursor::new(data);
    let mut out: Vec<u32> = vec![0];
    let count = block.read_single(0, &mut cursor, &mut out).unwrap();
    assert_eq!(count, 1);
    assert_eq!(out, vec![1]);
}

#[test]
fn read_single_keeps_the_output_tail() {
    let (block, data) = contiguous_u32_block();
    let mut cursor = ByteCursor::new(data);
    let mut out: Vec<u32> = vec![9, 9, 9];
    let count = block.read_single(0, &mut cursor, &mut out).unwrap();
    assert_eq!(count, 2);
    assert_eq!(out, vec![1, 2, 9]);
}

#[test]
fn read_single_refuses_a_mismatched_storage_type() {
    let (block, data) = contiguous_u32_block();
    let mut cursor = ByteCursor::new(data);
    let mut out: Vec<i32> = vec![0, 0];
    let err = block.read_single(0, &mut cursor, &mut out).unwrap_err();
    assert_eq!(
        err,
        TdmsError::TypeMismatch(tdms::error::DataTypePair {
            expected: DataType::I32,
            got: DataType::U32,
        })
    );
    // nothing moved
    assert_eq!(cursor.pos, 0);
    assert_eq!(out, vec![0, 0]);
}

#[test]
fn read_single_reports_truncated_data() {
    let (block, mut data) = contiguous_u32_block();
    data.truncate(10);
    let mut cursor = ByteCursor::new(data);
    let mut out: Vec<u32> = vec![0, 0];
    let err = block.read_single(1, &mut cursor, &mut out).unwrap_err();
    assert_eq!(err, TdmsError::IoError);
    assert_eq!(out, vec![0, 0]);
}

#[test]
fn read_interleaved_channels() {
    // records (1, 3), (2, 4) over two u32 channels
    let mut data = Vec::new();
    for v in [1u32, 3, 2, 4] {
        data.extend_from_slice(&v.to_le_bytes());
    }
    let block = DataBlock {
        start: 0,
        length: 16,
        layout: DataLayout::Interleaved,
        channels: vec![u32_meta(2), u32_meta(2)],
        byte_order: Endianess::Little,
    };
    let mut cursor = ByteCursor::new(data);
    let mut out: Vec<u32> = vec![0, 0];
    let count = block.read_single(1, &mut cursor, &mut out).unwrap();
    assert_eq!(count, 2);
    assert_eq!(out, vec![3, 4]);
    assert_eq!(cursor.pos, 16);
}

#[test]
fn read_interleaved_refuses_string_channels() {
    let block = DataBlock {
        start: 0,
        length: 8,
        layout: DataLayout::Interleaved,
        channels: vec![
            RawDataMeta {
                data_type: DataType::TdmsString,
                number_of_values: 1,
                total_size_bytes: Some(8),
            },
            u32_meta(1),
        ],
        byte_order: Endianess::Little,
    };
    let mut cursor = ByteCursor::new(vec![0; 8]);
    let mut out: Vec<u32> = vec![0];
    let err = block.read_single(1, &mut cursor, &mut out).unwrap_err();
    assert_eq!(err, TdmsError::StringInInterleavedBlock);
}

#[test]
fn read_multiple_channels_at_once() {
    let (block, data) = contiguous_u32_block();
    let mut cursor = ByteCursor::new(data);
    let mut requests: Vec<(usize, Vec<u32>)> = vec![(0, vec![0, 0]), (1, vec![0])];
    let count = block.read(&mut cursor, &mut requests).unwrap();
    // the smallest count placed into any output governs
    assert_eq!(count, 1);
    assert_eq!(requests[0].1, vec![1, 2]);
    assert_eq!(requests[1].1, vec![3]);
    assert_eq!(cursor.pos, 16);
}

#[test]
fn read_string_channel() {
    // two length-prefixed strings: "ab" and "c"
    let mut data = Vec::new();
    data.extend_from_slice(&2u32.to_le_bytes());
    data.extend_from_slice(b"ab");
    data.extend_from_slice(&1u32.to_le_bytes());
    data.extend_from_slice(b"c");
    let block = DataBlock {
        start: 0,
        length: 11,
        layout: DataLayout::Contigious,
        channels: vec![RawDataMeta {
            data_type: DataType::TdmsString,
            number_of_values: 2,
            total_size_bytes: Some(11),
        }],
        byte_order: Endianess::Little,
    };
    let mut cursor = ByteCursor::new(data);
    let mut out: Vec<String> = vec![String::new(), String::new()];
    let count = block.read_single(0, &mut cursor, &mut out).unwrap();
    assert_eq!(count, 2);
    assert_eq!(out, vec!["ab".to_string(), "c".to_string()]);
}

#[test]
fn read_string_channel_rejects_invalid_utf8() {
    let mut data = Vec::new();
    data.extend_from_slice(&2u32.to_le_bytes());
    data.push(0xFF);
    data.push(0xFE);
    let block = DataBlock {
        start: 0,
        length: 6,
        layout: DataLayout::Contigious,
        channels: vec![RawDataMeta {
            data_type: DataType::TdmsString,
            number_of_values: 1,
            total_size_bytes: Some(6),
        }],
        byte_order: Endianess::Little,
    };
    let mut cursor = ByteCursor::new(data);
    let mut out: Vec<String> = vec![String::new()];
    let err = block.read_single(0, &mut cursor, &mut out).unwrap_err();
    assert_eq!(err, TdmsError::InvalidUtf8);
}
