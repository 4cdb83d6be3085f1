//! Scanner and index behaviour across segments.

use tdms::data_types::DataTypeRaw;
use tdms::error::TdmsError;
use tdms::index::{DataLocation, FileScanner};
use tdms::meta_data::{ObjectMetaData, PropertyValue, RawDataIndex, RawDataMeta, SegmentMetaData, ToC};
use tdms::raw_data::{DataBlock, DataLayout, Endianess};

fn double_raw_data(count: u64) -> RawDataIndex {
    RawDataIndex::RawData(RawDataMeta {
        data_type: DataTypeRaw::DoubleFloat,
        number_of_values: count,
        total_size_bytes: None,
    })
}

fn first_segment() -> SegmentMetaData {
    SegmentMetaData {
        toc: ToC::from_u32(0xE),
        next_segment_offset: 500,
        raw_data_offset: 20,
        objects: vec![
            ObjectMetaData {
                path: "group".to_string(),
                properties: vec![("Prop".to_string(), PropertyValue::I32(-51))],
                raw_data_index: RawDataIndex::NoData,
            },
            ObjectMetaData {
                path: "group/ch1".to_string(),
                properties: vec![("Prop1".to_string(), PropertyValue::I32(-1))],
                raw_data_index: double_raw_data(1000),
            },
            ObjectMetaData {
                path: "group/ch2".to_string(),
                properties: vec![("Prop2".to_string(), PropertyValue::I32(-2))],
                raw_data_index: double_raw_data(1000),
            },
        ],
    }
}

#[test]
fn test_single_segment() {
    let segment = first_segment();

    let mut scanner = FileScanner::new();
    scanner.add_segment_to_index(segment).unwrap();

    let registry = scanner.into_index();

    let group_properties = registry.get_object_properties("group").unwrap();
    assert_eq!(
        group_properties,
        &[(&"Prop".to_string(), &PropertyValue::I32(-51))]
    );
    let ch1_properties = registry.get_object_properties("group/ch1").unwrap();
    assert_eq!(
        ch1_properties,
        &[(&String::from("Prop1"), &PropertyValue::I32(-1))]
    );
    let ch2_properties = registry.get_object_properties("group/ch2").unwrap();
    assert_eq!(
        ch2_properties,
        &[(&"Prop2".to_string(), &PropertyValue::I32(-2))]
    );

    let ch1_data = registry.get_channel_data_positions("group/ch1").unwrap();
    assert_eq!(
        ch1_data,
        &[DataLocation {
            data_block: 0,
            channel_index: 0
        }]
    );
    let ch2_data = registry.get_channel_data_positions("group/ch2").unwrap();
    assert_eq!(
        ch2_data,
        &[DataLocation {
            data_block: 0,
            channel_index: 1
        }]
    );
}

#[test]
fn correctly_generates_the_data_block() {
    let segment = first_segment();

    let mut scanner = FileScanner::new();
    scanner.add_segment_to_index(segment).unwrap();

    let registry = scanner.into_index();

    let expected_data_block = DataBlock {
        start: 48,
        length: 480,
        layout: DataLayout::Contigious,
        channels: vec![
            RawDataMeta {
                data_type: DataTypeRaw::DoubleFloat,
                number_of_values: 1000,
                total_size_bytes: None,
            },
            RawDataMeta {
                data_type: DataTypeRaw::DoubleFloat,
                number_of_values: 1000,
                total_size_bytes: None,
            },
        ],
        byte_order: Endianess::Little,
    };

    let block = registry.get_data_block(0).unwrap();
    assert_eq!(block, &expected_data_block);
}

#[test]
fn correctly_generates_the_data_block_same_as_previous() {
    let segment = first_segment();
    let segment2 = SegmentMetaData {
        toc: ToC::from_u32(0xA),
        next_segment_offset: 500,
        raw_data_offset: 20,
        objects: vec![
            ObjectMetaData {
                path: "group/ch1".to_string(),
                properties: vec![],
                raw_data_index: RawDataIndex::MatchPrevious,
            },
            ObjectMetaData {
                path: "group/ch2".to_string(),
                properties: vec![],
                raw_data_index: RawDataIndex::MatchPrevious,
            },
        ],
    };
    let mut scanner = FileScanner::new();
    scanner.add_segment_to_index(segment).unwrap();
    scanner.add_segment_to_index(segment2).unwrap();

    let registry = scanner.into_index();

    let expected_data_block = DataBlock {
        start: 576,
        length: 480,
        layout: DataLayout::Contigious,
        channels: vec![
            RawDataMeta {
                data_type: DataTypeRaw::DoubleFloat,
                number_of_values: 1000,
                total_size_bytes: None,
            },
            RawDataMeta {
                data_type: DataTypeRaw::DoubleFloat,
                number_of_values: 1000,
                total_size_bytes: None,
            },
        ],
        byte_order: Endianess::Little,
    };

    let block = registry.get_data_block(1).unwrap();
    assert_eq!(block, &expected_data_block);
}

#[test]
fn correctly_generates_the_data_block_same_as_previous_new_list() {
    let segment = first_segment();
    let segment2 = SegmentMetaData {
        toc: ToC::from_u32(0xE),
        next_segment_offset: 500,
        raw_data_offset: 20,
        objects: vec![
            ObjectMetaData {
                path: "group/ch1".to_string(),
                properties: vec![],
                raw_data_index: RawDataIndex::MatchPrevious,
            },
            ObjectMetaData {
                path: "group/ch2".to_string(),
                properties: vec![],
                raw_data_index: RawDataIndex::MatchPrevious,
            },
        ],
    };
    let mut scanner = FileScanner::new();
    scanner.add_segment_to_index(segment).unwrap();
    scanner.add_segment_to_index(segment2).unwrap();

    let registry = scanner.into_index();

    let expected_data_block = DataBlock {
        start: 576,
        length: 480,
        layout: DataLayout::Contigious,
        channels: vec![
            RawDataMeta {
                data_type: DataTypeRaw::DoubleFloat,
                number_of_values: 1000,
                total_size_bytes: None,
            },
            RawDataMeta {
                data_type: DataTypeRaw::DoubleFloat,
                number_of_values: 1000,
                total_size_bytes: None,
            },
        ],
        byte_order: Endianess::Little,
    };

    let block = registry.get_data_block(1).unwrap();
    assert_eq!(block, &expected_data_block);
}

#[test]
fn does_not_generate_block_for_meta_only() {
    let segment = SegmentMetaData {
        toc: ToC::from_u32(0x2),
        next_segment_offset: 20,
        raw_data_offset: 20,
        objects: vec![ObjectMetaData {
            path: "group".to_string(),
            properties: vec![("Prop".to_string(), PropertyValue::I32(-51))],
            raw_data_index: RawDataIndex::NoData,
        }],
    };

    let mut scanner = FileScanner::new();
    scanner.add_segment_to_index(segment).unwrap();

    let registry = scanner.into_index();

    let block = registry.get_data_block(0);
    assert_eq!(block, None);
}

#[test]
fn updates_existing_properties() {
    let segment = first_segment();
    let segment2 = SegmentMetaData {
        // 2 is meta data only.
        toc: ToC::from_u32(0x2),
        next_segment_offset: 500,
        raw_data_offset: 20,
        objects: vec![
            ObjectMetaData {
                path: "group".to_string(),
                properties: vec![("Prop".to_string(), PropertyValue::I32(-52))],
                raw_data_index: RawDataIndex::NoData,
            },
            ObjectMetaData {
                path: "group/ch1".to_string(),
                properties: vec![("Prop1".to_string(), PropertyValue::I32(-2))],
                raw_data_index: RawDataIndex::NoData,
            },
        ],
    };

    let mut scanner = FileScanner::new();
    scanner.add_segment_to_index(segment).unwrap();
    scanner.add_segment_to_index(segment2).unwrap();
    let index = scanner.into_index();

    let group_properties = index.get_object_properties("group").unwrap();
    assert_eq!(
        group_properties,
        &[(&"Prop".to_string(), &PropertyValue::I32(-52))]
    );
    let ch1_properties = index.get_object_properties("group/ch1").unwrap();
    assert_eq!(
        ch1_properties,
        &[(&"Prop1".to_string(), &PropertyValue::I32(-2))]
    );
}

/// This tests the second optimisation on the NI article.
#[test]
fn can_update_properties_with_no_changes_to_data_layout() {
    let segment = first_segment();
    let segment2 = SegmentMetaData {
        toc: ToC::from_u32(0xA),
        next_segment_offset: 500,
        raw_data_offset: 20,
        objects: vec![ObjectMetaData {
            path: "group/ch1".to_string(),
            properties: vec![("Prop1".to_string(), PropertyValue::I32(-2))],
            raw_data_index: RawDataIndex::MatchPrevious,
        }],
    };

    let mut scanner = FileScanner::new();
    scanner.add_segment_to_index(segment).unwrap();
    scanner.add_segment_to_index(segment2).unwrap();

    let registry = scanner.into_index();

    let group_properties = registry.get_object_properties("group").unwrap();
    assert_eq!(
        group_properties,
        &[(&"Prop".to_string(), &PropertyValue::I32(-51))]
    );
    let ch1_properties = registry.get_object_properties("group/ch1").unwrap();
    assert_eq!(
        ch1_properties,
        &[(&String::from("Prop1"), &PropertyValue::I32(-2))]
    );
    let ch2_properties = registry.get_object_properties("group/ch2").unwrap();
    assert_eq!(
        ch2_properties,
        &[(&"Prop2".to_string(), &PropertyValue::I32(-2))]
    );

    let ch1_data = registry.get_channel_data_positions("group/ch1").unwrap();
    assert_eq!(
        ch1_data,
        &[
            DataLocation {
                data_block: 0,
                channel_index: 0
            },
            DataLocation {
                data_block: 1,
                channel_index: 0
            }
        ]
    );
    let ch2_data = registry.get_channel_data_positions("group/ch2").unwrap();
    assert_eq!(
        ch2_data,
        &[
            DataLocation {
                data_block: 0,
                channel_index: 1
            },
            DataLocation {
                data_block: 1,
                channel_index: 1
            }
        ]
    );
}

/// This tests that the previous active list is maintained with no objects updated.
#[test]
fn can_keep_data_with_no_objects_listed() {
    let segment = first_segment();
    let segment2 = SegmentMetaData {
        toc: ToC::from_u32(0xA),
        next_segment_offset: 500,
        raw_data_offset: 20,
        objects: vec![],
    };

    let mut scanner = FileScanner::new();
    scanner.add_segment_to_index(segment).unwrap();
    scanner.add_segment_to_index(segment2).unwrap();

    let registry = scanner.into_index();

    let ch1_data = registry.get_channel_data_positions("group/ch1").unwrap();
    assert_eq!(
        ch1_data,
        &[
            DataLocation {
                data_block: 0,
                channel_index: 0
            },
            DataLocation {
                data_block: 1,
                channel_index: 0
            }
        ]
    );
    let ch2_data = registry.get_channel_data_positions("group/ch2").unwrap();
    assert_eq!(
        ch2_data,
        &[
            DataLocation {
                data_block: 0,
                channel_index: 1
            },
            DataLocation {
                data_block: 1,
                channel_index: 1
            }
        ]
    );
}

/// This tests that the previous active list is maintained with no metadata updated.
#[test]
fn can_keep_data_with_no_metadata_in_toc() {
    let segment = first_segment();
    let segment2 = SegmentMetaData {
        toc: ToC::from_u32(0x8),
        next_segment_offset: 500,
        raw_data_offset: 20,
        objects: vec![],
    };

    let mut scanner = FileScanner::new();
    scanner.add_segment_to_index(segment).unwrap();
    scanner.add_segment_to_index(segment2).unwrap();

    let registry = scanner.into_index();

    let ch1_data = registry.get_channel_data_positions("group/ch1").unwrap();
    assert_eq!(
        ch1_data,
        &[
            DataLocation {
                data_block: 0,
                channel_index: 0
            },
            DataLocation {
                data_block: 1,
                channel_index: 0
            }
        ]
    );
    let ch2_data = registry.get_channel_data_positions("group/ch2").unwrap();
    assert_eq!(
        ch2_data,
        &[
            DataLocation {
                data_block: 0,
                channel_index: 1
            },
            DataLocation {
                data_block: 1,
                channel_index: 1
            }
        ]
    );
}

#[test]
fn can_add_channel_to_active_list() {
    let segment = first_segment();
    let segment2 = SegmentMetaData {
        toc: ToC::from_u32(0xA),
        next_segment_offset: 500,
        raw_data_offset: 20,
        objects: vec![ObjectMetaData {
            path: "group/ch3".to_string(),
            properties: vec![("Prop3".to_string(), PropertyValue::I32(-3))],
            raw_data_index: double_raw_data(1000),
        }],
    };

    let mut scanner = FileScanner::new();
    scanner.add_segment_to_index(segment).unwrap();
    scanner.add_segment_to_index(segment2).unwrap();

    let registry = scanner.into_index();

    let ch3_properties = registry.get_object_properties("group/ch3").unwrap();
    assert_eq!(
        ch3_properties,
        &[(&"Prop3".to_string(), &PropertyValue::I32(-3))]
    );

    let ch1_data = registry.get_channel_data_positions("group/ch1").unwrap();
    assert_eq!(
        ch1_data,
        &[
            DataLocation {
                data_block: 0,
                channel_index: 0
            },
            DataLocation {
                data_block: 1,
                channel_index: 0
            }
        ]
    );
    let ch2_data = registry.get_channel_data_positions("group/ch2").unwrap();
    assert_eq!(
        ch2_data,
        &[
            DataLocation {
                data_block: 0,
                channel_index: 1
            },
            DataLocation {
                data_block: 1,
                channel_index: 1
            }
        ]
    );
    let ch3_data = registry.get_channel_data_positions("group/ch3").unwrap();
    assert_eq!(
        ch3_data,
        &[DataLocation {
            data_block: 1,
            channel_index: 2
        }]
    );
}

#[test]
fn can_replace_the_existing_list() {
    let segment = first_segment();
    let segment2 = SegmentMetaData {
        toc: ToC::from_u32(0xE),
        next_segment_offset: 500,
        raw_data_offset: 20,
        objects: vec![ObjectMetaData {
            path: "group/ch3".to_string(),
            properties: vec![("Prop3".to_string(), PropertyValue::I32(-3))],
            raw_data_index: double_raw_data(1000),
        }],
    };

    let mut scanner = FileScanner::new();
    scanner.add_segment_to_index(segment).unwrap();
    scanner.add_segment_to_index(segment2).unwrap();

    let registry = scanner.into_index();

    let ch3_properties = registry.get_object_properties("group/ch3").unwrap();
    assert_eq!(
        ch3_properties,
        &[(&"Prop3".to_string(), &PropertyValue::I32(-3))]
    );

    let ch1_data = registry.get_channel_data_positions("group/ch1").unwrap();
    assert_eq!(
        ch1_data,
        &[DataLocation {
            data_block: 0,
            channel_index: 0
        },]
    );
    let ch2_data = registry.get_channel_data_positions("group/ch2").unwrap();
    assert_eq!(
        ch2_data,
        &[DataLocation {
            data_block: 0,
            channel_index: 1
        },]
    );
    let ch3_data = registry.get_channel_data_positions("group/ch3").unwrap();
    assert_eq!(
        ch3_data,
        &[DataLocation {
            data_block: 1,
            channel_index: 0
        }]
    );
}

#[test]
fn can_re_add_channel_to_active_list() {
    let segment = first_segment();
    let segment2 = SegmentMetaData {
        toc: ToC::from_u32(0xE),
        next_segment_offset: 500,
        raw_data_offset: 20,
        objects: vec![ObjectMetaData {
            path: "group/ch3".to_string(),
            properties: vec![("Prop3".to_string(), PropertyValue::I32(-3))],
            raw_data_index: double_raw_data(1000),
        }],
    };
    let segment3 = SegmentMetaData {
        toc: ToC::from_u32(0xA),
        next_segment_offset: 500,
        raw_data_offset: 20,
        objects: vec![ObjectMetaData {
            path: "group/ch1".to_string(),
            properties: vec![("Prop3".to_string(), PropertyValue::I32(-3))],
            raw_data_index: double_raw_data(1000),
        }],
    };

    let mut scanner = FileScanner::new();
    scanner.add_segment_to_index(segment).unwrap();
    scanner.add_segment_to_index(segment2).unwrap();
    scanner.add_segment_to_index(segment3).unwrap();

    let registry = scanner.into_index();

    let ch1_data = registry.get_channel_data_positions("group/ch1").unwrap();
    assert_eq!(
        ch1_data,
        &[
            DataLocation {
                data_block: 0,
                channel_index: 0
            },
            DataLocation {
                data_block: 2,
                channel_index: 1
            }
        ]
    );
    let ch2_data = registry.get_channel_data_positions("group/ch2").unwrap();
    assert_eq!(
        ch2_data,
        &[DataLocation {
            data_block: 0,
            channel_index: 1
        },]
    );
    let ch3_data = registry.get_channel_data_positions("group/ch3").unwrap();
    assert_eq!(
        ch3_data,
        &[
            DataLocation {
                data_block: 1,
                channel_index: 0
            },
            DataLocation {
                data_block: 2,
                channel_index: 0
            }
        ]
    );
}

#[test]
fn match_previous_without_layout_is_fatal_and_atomic() {
    let segment = SegmentMetaData {
        toc: ToC::from_u32(0xA),
        next_segment_offset: 500,
        raw_data_offset: 20,
        objects: vec![ObjectMetaData {
            path: "group/ch1".to_string(),
            properties: vec![],
            raw_data_index: RawDataIndex::MatchPrevious,
        }],
    };

    let mut scanner = FileScanner::new();
    let err = scanner.add_segment_to_index(segment).unwrap_err();
    assert_eq!(
        err,
        TdmsError::MissingPreviousIndex("group/ch1".to_string())
    );

    // nothing was recorded: the scanner accepts a fresh start as if
    // the fatal segment had never been seen
    scanner.add_segment_to_index(first_segment()).unwrap();
    let registry = scanner.into_index();
    let block = registry.get_data_block(0).unwrap();
    assert_eq!(block.start, 48);
    assert_eq!(registry.get_data_block(1), None);
}

#[test]
fn property_lookup_reports_missing_object_and_property() {
    let mut scanner = FileScanner::new();
    scanner.add_segment_to_index(first_segment()).unwrap();
    let registry = scanner.into_index();

    assert_eq!(
        registry.get_object_property("group", "Prop").unwrap(),
        Some(&PropertyValue::I32(-51))
    );
    assert_eq!(registry.get_object_property("group", "Other").unwrap(), None);
    assert_eq!(
        registry.get_object_property("nothing", "Prop").unwrap_err(),
        TdmsError::MissingObject("nothing".to_string())
    );
    assert_eq!(registry.get_object_properties("nothing"), None);
    assert_eq!(registry.get_channel_data_positions("nothing"), None);
}

#[test]
fn later_property_writes_win_whatever_the_order() {
    let seg = |props: Vec<(String, PropertyValue)>| SegmentMetaData {
        toc: ToC::from_u32(0x2),
        next_segment_offset: 20,
        raw_data_offset: 20,
        objects: vec![ObjectMetaData {
            path: "group".to_string(),
            properties: props,
            raw_data_index: RawDataIndex::NoData,
        }],
    };

    let mut one = FileScanner::new();
    one.add_segment_to_index(seg(vec![
        ("A".to_string(), PropertyValue::I32(1)),
        ("B".to_string(), PropertyValue::I32(2)),
    ]))
    .unwrap();
    one.add_segment_to_index(seg(vec![("B".to_string(), PropertyValue::I32(3))]))
        .unwrap();

    let mut two = FileScanner::new();
    two.add_segment_to_index(seg(vec![
        ("B".to_string(), PropertyValue::I32(2)),
        ("A".to_string(), PropertyValue::I32(1)),
    ]))
    .unwrap();
    two.add_segment_to_index(seg(vec![("B".to_string(), PropertyValue::I32(3))]))
        .unwrap();

    let one = one.into_index();
    let two = two.into_index();
    for index in [&one, &two] {
        assert_eq!(
            index.get_object_property("group", "A").unwrap(),
            Some(&PropertyValue::I32(1))
        );
        assert_eq!(
            index.get_object_property("group", "B").unwrap(),
            Some(&PropertyValue::I32(3))
        );
    }
}
