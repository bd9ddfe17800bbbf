use bytes::Bytes;
use rowids::bitmap::Bitmap;
use rowids::encoded_array::EncodedU64Array;
use rowids::error::Error;
use rowids::pb;
use rowids::pb::encoded_u64_array as pb_array;
use rowids::pb::u64_segment::{RangeWithRuns, Segment};
use rowids::runs::HoleRuns;
use rowids::segment::{RowIdSequence, U64Segment};
use rowids::serde::{read_row_ids, write_row_ids};

fn read_segment(segment: pb::u64_segment::Segment) -> Result<RowIdSequence, Error> {
    let sequence = pb::RowIdSequence {
        segments: vec![pb::U64Segment {
            segment: Some(segment),
        }],
    };
    read_row_ids(Bytes::from(sequence.encode_to_vec()))
}

fn assert_corrupt_segment(segment: pb::u64_segment::Segment, expected_message: &str) {
    let error = read_segment(segment).unwrap_err();
    assert!(matches!(&error, Error::CorruptFile { .. }));
    assert!(
        error.to_string().contains(expected_message),
        "expected error containing {expected_message:?}, got {}",
        error.to_string()
    );
}

fn values_array(values: &[u64]) -> pb::EncodedU64Array {
    pb::EncodedU64Array {
        array: Some(pb::encoded_u64_array::Array::U64Array(
            pb::encoded_u64_array::U64Array {
                values: values.iter().flat_map(|v| v.to_le_bytes()).collect(),
            },
        )),
    }
}

#[test]
fn test_bitmap_serialization_is_byte_exact() {
    let mut bitmap = Bitmap::new_full(10);
    bitmap.clear(2);
    let segment = U64Segment::RangeWithBitmap {
        range: 100..110,
        bitmap,
    };
    assert_eq!(segment.len(), 9);

    let serialized = pb::U64Segment::from(segment.clone());
    let Some(pb::u64_segment::Segment::RangeWithBitmap(encoded)) = &serialized.segment else {
        panic!("expected bitmap segment");
    };
    assert_eq!(encoded.bitmap, vec![0xfb, 0x03]);
    assert_eq!(U64Segment::try_from(serialized).unwrap(), segment);
}

/// Each segment length fits a usize, but the aggregate does not fit a u64.
#[test]
fn test_reject_sequence_length_overflow() {
    let segment = || pb::U64Segment {
        segment: Some(pb::u64_segment::Segment::Range(pb::u64_segment::Range {
            start: 0,
            end: u64::MAX,
        })),
    };
    let sequence = pb::RowIdSequence {
        segments: vec![segment(), segment()],
    };

    let error = read_row_ids(Bytes::from(sequence.encode_to_vec())).unwrap_err();
    assert!(matches!(&error, Error::CorruptFile { .. }));
    assert!(
        error
            .to_string()
            .contains("total length exceeding u64::MAX"),
        "got {}",
        error.to_string()
    );
}

#[test]
fn test_write_read_row_ids() {
    let mut sequence = RowIdSequence::from(0..20);
    sequence.0.push(U64Segment::Range(30..100));
    sequence.0.push(U64Segment::RangeWithHoles {
        range: 100..200,
        holes: EncodedU64Array::U64(vec![104, 108, 150]),
    });
    let mut bitmap = Bitmap::new_empty(100);
    bitmap.set(99);
    sequence.0.push(U64Segment::RangeWithBitmap {
        range: 200..300,
        bitmap,
    });
    sequence
        .0
        .push(U64Segment::SortedArray(EncodedU64Array::U16 {
            base: 200,
            offsets: vec![1, 2, 3],
        }));
    sequence
        .0
        .push(U64Segment::Array(EncodedU64Array::U64(vec![3, 1, 2])));

    let serialized = write_row_ids(&sequence);

    let sequence2 = read_row_ids(Bytes::from(serialized)).unwrap();

    assert_eq!(sequence.0, sequence2.0);
}

#[test]
fn sorted_values_round_trip() {
    let lists: [&[u64]; 5] = [
        &[],
        &[7],
        &[0, 1, 65_534],
        &[3, 70_000, 4_000_000_000],
        &[0, 5, u64::MAX],
    ];
    for values in lists {
        let array = EncodedU64Array::from(values.to_vec());
        let sequence = RowIdSequence(vec![U64Segment::SortedArray(array)]);
        let decoded = read_row_ids(Bytes::from(write_row_ids(&sequence))).unwrap();
        assert_eq!(decoded.len(), sequence.len());
        assert_eq!(decoded.len(), values.len() as u64);
        let U64Segment::SortedArray(array) = &decoded.0[0] else {
            panic!("expected a sorted array");
        };
        let read: Vec<u64> = (0..array.len()).map(|i| array.value(i)).collect();
        assert_eq!(read, values);
    }
}

#[test]
fn test_rejects_wrong_range_with_bitmap_length() {
    for range_len in 1usize..512 {
        let expected_len = range_len.div_ceil(8);
        for actual_len in [expected_len - 1, expected_len + 1] {
            let segment =
                pb::u64_segment::Segment::RangeWithBitmap(pb::u64_segment::RangeWithBitmap {
                    start: 0,
                    end: range_len as u64,
                    bitmap: vec![0; actual_len].into(),
                });

            let error = read_segment(segment).unwrap_err();
            assert!(matches!(&error, Error::CorruptFile { .. }));
            assert!(error.to_string().contains("byte length"));
        }
    }
}

#[test]
fn test_rejects_range_with_bitmap_padding_bits() {
    for full_bytes in 0usize..64 {
        for valid_bits in 1usize..8 {
            let range_len = full_bytes * 8 + valid_bits;
            let mut bitmap = vec![0; full_bytes + 1];
            bitmap[full_bytes] = 1 << valid_bits;
            let segment =
                pb::u64_segment::Segment::RangeWithBitmap(pb::u64_segment::RangeWithBitmap {
                    start: 0,
                    end: range_len as u64,
                    bitmap: bitmap.into(),
                });

            let error = read_segment(segment).unwrap_err();
            assert!(matches!(&error, Error::CorruptFile { .. }));
            assert!(error.to_string().contains("padding bits must be zero"));
        }
    }
}

#[test]
fn test_rejects_reversed_range_with_bitmap() {
    for start in [1, 2, 255, 1 << 40, u64::MAX - 1] {
        let segment =
            pb::u64_segment::Segment::RangeWithBitmap(pb::u64_segment::RangeWithBitmap {
                start,
                end: start - 1,
                bitmap: Vec::new().into(),
            });

        let error = read_segment(segment).unwrap_err();
        assert!(matches!(&error, Error::CorruptFile { .. }));
        assert!(error.to_string().contains("range start"));
    }
}

#[test]
fn test_rejects_misaligned_encoded_array_bytes() {
    for encoding in 0u8..3 {
        for element_count in 0usize..16 {
            let width = match encoding {
                0 => 2,
                1 => 4,
                _ => 8,
            };
            let bytes = vec![0; element_count * width + 1];
            let array = match encoding {
                0 => pb::encoded_u64_array::Array::U16Array(pb::encoded_u64_array::U16Array {
                    base: 0,
                    offsets: bytes,
                }),
                1 => pb::encoded_u64_array::Array::U32Array(pb::encoded_u64_array::U32Array {
                    base: 0,
                    offsets: bytes,
                }),
                _ => pb::encoded_u64_array::Array::U64Array(pb::encoded_u64_array::U64Array {
                    values: bytes,
                }),
            };
            let segment =
                pb::u64_segment::Segment::Array(pb::EncodedU64Array { array: Some(array) });

            let error = read_segment(segment).unwrap_err();
            assert!(matches!(&error, Error::CorruptFile { .. }));
            assert!(error.to_string().contains("byte length"));
        }
    }
}

#[test]
fn test_rejects_encoded_offset_overflow() {
    let arrays = [
        pb_array::Array::U16Array(pb_array::U16Array {
            base: u64::MAX,
            offsets: 1u16.to_le_bytes().to_vec(),
        }),
        pb_array::Array::U32Array(pb_array::U32Array {
            base: u64::MAX,
            offsets: 1u32.to_le_bytes().to_vec(),
        }),
    ];
    for array in arrays {
        assert_corrupt_segment(
            pb::u64_segment::Segment::Array(pb::EncodedU64Array { array: Some(array) }),
            "overflows u64",
        );
    }
}

#[test]
fn test_rejects_invalid_range_with_holes() {
    let cases: [(&[u64], &str); 4] = [
        (&[6, 5], "not strictly increasing"),
        (&[5, 5], "not strictly increasing"),
        (&[4], "outside the range"),
        (&[7], "outside the range"),
    ];
    for (values, message) in cases {
        assert_corrupt_segment(
            pb::u64_segment::Segment::RangeWithHoles(pb::u64_segment::RangeWithHoles {
                start: 5,
                end: 7,
                holes: Some(values_array(values)),
            }),
            message,
        );
    }
}

#[test]
fn test_rejects_missing_range_with_holes_array() {
    assert_corrupt_segment(
        pb::u64_segment::Segment::RangeWithHoles(pb::u64_segment::RangeWithHoles {
            start: 5,
            end: 7,
            holes: None,
        }),
        "missing its holes array",
    );
}

#[test]
fn test_rejects_misaligned_encoded_array() {
    let cases = [
        (
            pb::encoded_u64_array::Array::U16Array(pb::encoded_u64_array::U16Array {
                base: 0,
                offsets: vec![1],
            }),
            "encoded u16 array byte length 1 is not a multiple of element width 2",
        ),
        (
            pb::encoded_u64_array::Array::U32Array(pb::encoded_u64_array::U32Array {
                base: 0,
                offsets: vec![1, 2, 3],
            }),
            "encoded u32 array byte length 3 is not a multiple of element width 4",
        ),
        (
            pb::encoded_u64_array::Array::U64Array(pb::encoded_u64_array::U64Array {
                values: vec![1, 2, 3, 4, 5, 6, 7],
            }),
            "encoded u64 array byte length 7 is not a multiple of element width 8",
        ),
    ];
    for (array, message) in cases {
        assert_corrupt_segment(
            pb::u64_segment::Segment::Array(pb::EncodedU64Array { array: Some(array) }),
            message,
        );
    }
}

#[test]
fn test_rejects_reversed_range() {
    let segments = [
        pb::u64_segment::Segment::Range(pb::u64_segment::Range { start: 10, end: 9 }),
        pb::u64_segment::Segment::RangeWithHoles(pb::u64_segment::RangeWithHoles {
            start: 10,
            end: 9,
            holes: Some(values_array(&[])),
        }),
        pb::u64_segment::Segment::RangeWithBitmap(pb::u64_segment::RangeWithBitmap {
            start: 10,
            end: 9,
            bitmap: Vec::new().into(),
        }),
    ];
    for segment in segments {
        assert_corrupt_segment(segment, "range start 10 exceeds end 9");
    }
}

#[test]
fn test_rejects_incorrect_bitmap_length() {
    for bitmap in [vec![0], vec![0, 0, 0]] {
        assert_corrupt_segment(
            pb::u64_segment::Segment::RangeWithBitmap(pb::u64_segment::RangeWithBitmap {
                start: 5,
                end: 14,
                bitmap: bitmap.into(),
            }),
            "does not match expected 2 for range start 5, end 14, and length 9",
        );
    }
}

#[test]
fn test_rejects_set_bitmap_padding_bits() {
    assert_corrupt_segment(
        pb::u64_segment::Segment::RangeWithBitmap(pb::u64_segment::RangeWithBitmap {
            start: 5,
            end: 14,
            bitmap: vec![0xff, 0x03].into(),
        }),
        "padding bits must be zero",
    );
}

#[test]
fn test_rejects_unsorted_sorted_array() {
    let arrays = [
        pb::encoded_u64_array::Array::U16Array(pb::encoded_u64_array::U16Array {
            base: 100,
            offsets: vec![2, 0, 1, 0],
        }),
        pb::encoded_u64_array::Array::U32Array(pb::encoded_u64_array::U32Array {
            base: 100,
            offsets: vec![2, 0, 0, 0, 1, 0, 0, 0],
        }),
        pb::encoded_u64_array::Array::U64Array(pb::encoded_u64_array::U64Array {
            values: vec![2, 0, 0, 0, 0, 0, 0, 0, 1, 0, 0, 0, 0, 0, 0, 0],
        }),
    ];
    for array in arrays {
        assert_corrupt_segment(
            pb::u64_segment::Segment::SortedArray(pb::EncodedU64Array { array: Some(array) }),
            "SortedArray values are not sorted at indices 0 and 1: 2 exceeds 1",
        );
    }
}

#[test]
fn test_read_row_ids_from_bytes_shares_bitmap_buffer() {
    let mut bitmap = Bitmap::new_full(4096);
    for hole in (0..4096).step_by(7) {
        bitmap.clear(hole);
    }
    let sequence = RowIdSequence(vec![U64Segment::RangeWithBitmap {
        range: 10..4106,
        bitmap,
    }]);
    let encoded = bytes::Bytes::from(write_row_ids(&sequence));
    let decoded = read_row_ids(encoded.clone()).unwrap();
    assert_eq!(decoded, sequence);
    let U64Segment::RangeWithBitmap { bitmap, .. } = &decoded.0[0] else {
        panic!("expected a bitmap segment");
    };
    let start = encoded.as_ptr() as usize;
    let ptr = bitmap.bytes().as_ptr() as usize;
    assert!(
        (start..start + encoded.len()).contains(&ptr),
        "decoded bitmap must slice the encoded buffer"
    );
}

#[test]
fn test_range_with_runs_round_trip_and_validation() {
    let runs = HoleRuns::try_new(50, vec![3, 20], vec![10, 45]).unwrap();
    let sequence = RowIdSequence(vec![U64Segment::RangeWithRuns {
        range: 100..150,
        runs,
    }]);
    let decoded = read_row_ids(Bytes::from(write_row_ids(&sequence))).unwrap();
    assert_eq!(decoded, sequence);
    assert_eq!(decoded.len(), 50 - 7 - 25);

    let encode = |start: u64, end: u64, starts: Option<Vec<u64>>, ends: Option<Vec<u64>>| {
        pb::RowIdSequence {
            segments: vec![pb::U64Segment {
                segment: Some(Segment::RangeWithRuns(RangeWithRuns {
                    start,
                    end,
                    hole_starts: starts.map(|s| EncodedU64Array::from(s).into()),
                    hole_ends: ends.map(|e| EncodedU64Array::from(e).into()),
                })),
            }],
        }
        .encode_to_vec()
    };
    let cases: Vec<(&str, Vec<u8>)> = vec![
        (
            "span over u32",
            encode(0, 1 << 33, Some(vec![1]), Some(vec![2])),
        ),
        ("missing ends", encode(0, 50, Some(vec![1]), None)),
        (
            "unsorted",
            encode(0, 50, Some(vec![20, 3]), Some(vec![25, 10])),
        ),
        (
            "adjacent",
            encode(0, 50, Some(vec![3, 10]), Some(vec![10, 12])),
        ),
        ("beyond span", encode(0, 50, Some(vec![3]), Some(vec![51]))),
    ];
    for (name, bytes) in cases {
        let error = read_row_ids(Bytes::from(bytes)).unwrap_err();
        assert!(
            error.to_string().contains("RangeWithRuns"),
            "{name}: {}",
            error.to_string()
        );
    }
}
