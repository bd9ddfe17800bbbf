use bytes::Bytes;
use prost::encoding::{skip_field, DecodeContext, WireType};
use rowids::bitmap::Bitmap;
use rowids::encoded_array::EncodedU64Array;
use rowids::error::{Corruption, Error};
use rowids::pb::encoded_u64_array::{Array, U16Array, U32Array, U64Array};
use rowids::pb::u64_segment::{Range, RangeWithHoles, Segment};
use rowids::pb::{EncodedU64Array as ArrayMessage, RowIdSequence as SequenceMessage, U64Segment as SegmentMessage};
use rowids::runs::HoleRuns;
use rowids::segment::{RowIdSequence, U64Segment};
use rowids::serde::{read_row_ids, write_row_ids};

/// A length-delimited field with a tag below sixteen and a payload below 128 bytes.
fn nested(tag: u8, payload: &[u8]) -> Vec<u8> {
    let mut bytes = vec![tag * 8 + 2, payload.len() as u8];
    bytes.extend_from_slice(payload);
    bytes
}

/// A sequence of one segment with the given bytes.
fn read_segment_bytes(segment: &[u8]) -> Result<RowIdSequence, Error> {
    read_row_ids(Bytes::from(nested(1, segment)))
}

fn decode_segment(segment: &[u8]) -> Option<Segment> {
    let mut message = SequenceMessage::decode(Bytes::from(nested(1, segment))).unwrap();
    assert_eq!(message.segments.len(), 1);
    message.segments.remove(0).segment
}

fn decode_fails(bytes: &[u8]) -> String {
    let error = read_row_ids(Bytes::from(bytes.to_vec())).unwrap_err();
    match &error {
        Error::CorruptFile {
            name,
            reason: Corruption::Undecodable { .. },
        } => assert_eq!(*name, "row ID metadata"),
        other => panic!("{other:?}"),
    }
    error.to_string()
}

#[test]
fn empty_bytes_are_an_empty_sequence() {
    let sequence = read_row_ids(Bytes::new()).unwrap();
    assert_eq!(sequence, RowIdSequence(vec![]));
    assert_eq!(sequence.len(), 0);
    assert_eq!(write_row_ids(&sequence), Vec::<u8>::new());
}

#[test]
fn a_range_is_written_byte_by_byte() {
    let bytes = write_row_ids(&RowIdSequence::from(1..300));
    assert_eq!(bytes, [0x0a, 7, 0x0a, 5, 0x08, 1, 0x10, 0xac, 0x02]);
}

#[test]
fn zero_bounds_are_left_out() {
    assert_eq!(
        write_row_ids(&RowIdSequence::from(0..20)),
        [0x0a, 4, 0x0a, 2, 0x10, 20]
    );
    assert_eq!(write_row_ids(&RowIdSequence::from(0..0)), [0x0a, 2, 0x0a, 0]);
}

#[test]
fn the_largest_bound_takes_ten_bytes() {
    let bytes = write_row_ids(&RowIdSequence::from(u64::MAX..u64::MAX));
    let max = [0xff, 0xff, 0xff, 0xff, 0xff, 0xff, 0xff, 0xff, 0xff, 0x01];
    let mut range = vec![0x08];
    range.extend_from_slice(&max);
    range.push(0x10);
    range.extend_from_slice(&max);
    assert_eq!(bytes, nested(1, &nested(1, &range)));
    assert_eq!(
        read_row_ids(Bytes::from(bytes)).unwrap(),
        RowIdSequence::from(u64::MAX..u64::MAX)
    );
}

#[test]
fn holes_are_written_byte_by_byte() {
    let sequence = RowIdSequence(vec![U64Segment::RangeWithHoles {
        range: 10..20,
        holes: EncodedU64Array::U16 {
            base: 11,
            offsets: vec![0, 0x0102],
        },
    }]);
    let array = nested(1, &[0x08, 11, 0x12, 4, 0, 0, 0x02, 0x01]);
    let mut range = vec![0x08, 10, 0x10, 20];
    range.extend(nested(3, &array));
    assert_eq!(write_row_ids(&sequence), nested(1, &nested(2, &range)));
}

#[test]
fn a_bitmap_is_written_byte_by_byte() {
    let mut bitmap = Bitmap::new_full(10);
    bitmap.clear(2);
    let sequence = RowIdSequence(vec![U64Segment::RangeWithBitmap {
        range: 100..110,
        bitmap,
    }]);
    let range = [0x08, 100, 0x10, 110, 0x1a, 2, 0xfb, 0x03];
    assert_eq!(write_row_ids(&sequence), nested(1, &nested(3, &range)));
}

#[test]
fn arrays_are_written_byte_by_byte() {
    let sequence = RowIdSequence(vec![
        U64Segment::SortedArray(EncodedU64Array::U32 {
            base: 0,
            offsets: vec![1, 0x01020304],
        }),
        U64Segment::Array(EncodedU64Array::U64(vec![3, 1])),
        U64Segment::Array(EncodedU64Array::U64(vec![])),
    ]);
    let offsets = nested(2, &[0x12, 8, 1, 0, 0, 0, 4, 3, 2, 1]);
    let values = nested(
        3,
        &nested(2, &[3, 0, 0, 0, 0, 0, 0, 0, 1, 0, 0, 0, 0, 0, 0, 0]),
    );
    let mut bytes = nested(1, &nested(4, &offsets));
    bytes.extend(nested(1, &nested(5, &values)));
    bytes.extend(nested(1, &nested(5, &nested(3, &[]))));
    assert_eq!(write_row_ids(&sequence), bytes);
    assert_eq!(read_row_ids(Bytes::from(bytes)).unwrap(), sequence);
}

#[test]
fn runs_are_written_byte_by_byte() {
    let sequence = RowIdSequence(vec![U64Segment::RangeWithRuns {
        range: 100..150,
        runs: HoleRuns::try_new(50, vec![3, 20], vec![10, 45]).unwrap(),
    }]);
    let mut range = vec![0x08, 100, 0x10, 0x96, 0x01];
    range.extend(nested(3, &nested(1, &[0x08, 3, 0x12, 4, 0, 0, 17, 0])));
    range.extend(nested(4, &nested(1, &[0x08, 10, 0x12, 4, 0, 0, 35, 0])));
    assert_eq!(write_row_ids(&sequence), nested(1, &nested(6, &range)));
}

#[test]
fn messages_are_read_back() {
    let arrays = || {
        vec![
            ArrayMessage { array: None },
            ArrayMessage {
                array: Some(Array::U16Array(U16Array {
                    base: 0,
                    offsets: vec![],
                })),
            },
            ArrayMessage {
                array: Some(Array::U32Array(U32Array {
                    base: 300,
                    offsets: vec![1, 2, 3],
                })),
            },
            ArrayMessage {
                array: Some(Array::U64Array(U64Array { values: vec![9; 200] })),
            },
        ]
    };
    let mut segments = vec![SegmentMessage { segment: None }];
    for array in arrays() {
        segments.push(SegmentMessage {
            segment: Some(Segment::Array(array)),
        });
    }
    for array in arrays() {
        segments.push(SegmentMessage {
            segment: Some(Segment::SortedArray(array)),
        });
    }
    for array in arrays() {
        segments.push(SegmentMessage {
            segment: Some(Segment::RangeWithHoles(RangeWithHoles {
                start: 9,
                end: 3,
                holes: Some(array),
            })),
        });
    }
    let message = SequenceMessage { segments };
    let read = SequenceMessage::decode(Bytes::from(message.encode_to_vec())).unwrap();
    assert_eq!(read, message);
}

#[test]
fn unknown_fields_are_passed_over() {
    let known = [0x0a, 4, 0x0a, 2, 0x10, 20];
    let unknown: [&[u8]; 6] = [
        &[0x10, 0xff, 0x01],
        &[0x11, 1, 2, 3, 4, 5, 6, 7, 8],
        &[0x12, 3, 1, 2, 3],
        &[0x15, 1, 2, 3, 4],
        &[0x13, 0x14],
        &[0x13, 0x08, 1, 0x1b, 0x12, 1, 7, 0x1c, 0x25, 1, 2, 3, 4, 0x14],
    ];
    for field in unknown {
        let mut rest = &field[1..];
        let wire = WireType::try_from(u64::from(field[0] % 8)).unwrap();
        skip_field(wire, 2, &mut rest, DecodeContext::default()).unwrap();
        assert!(rest.is_empty());

        let mut bytes = field.to_vec();
        bytes.extend_from_slice(&known);
        bytes.extend_from_slice(field);
        assert_eq!(
            read_row_ids(Bytes::from(bytes)).unwrap(),
            RowIdSequence::from(0..20),
            "{field:?}"
        );
        // Within a range, with a tag that ranges do not have.
        if field.len() < 9 && field[0] != 0x13 {
            let mut range = field.to_vec();
            range[0] += 0x20;
            range.extend_from_slice(&[0x10, 20]);
            assert_eq!(
                read_segment_bytes(&nested(1, &range)).unwrap(),
                RowIdSequence::from(0..20)
            );
        }
    }
}

#[test]
fn malformed_bytes_are_rejected() {
    let cases: [(&[u8], &str); 16] = [
        (
            &[0x0a, 4, 0x0a, 2, 0x0a, 0],
            "Range.start: U64Segment.segment: RowIdSequence.segments: \
             invalid wire type: LengthDelimited (expected Varint)",
        ),
        (
            &[0x0a, 4, 0x0a, 2, 0x10, 0x80],
            "Range.end: U64Segment.segment: RowIdSequence.segments: invalid varint",
        ),
        // The range ends in the middle of a bound, which goes on after it.
        (
            &[0x0a, 5, 0x0a, 2, 0x10, 0x80, 0x01],
            "U64Segment.segment: RowIdSequence.segments: delimited length exceeded",
        ),
        // The segment ends in the middle of the range.
        (
            &[0x0a, 2, 0x0a, 2, 0x10, 0x01],
            "RowIdSequence.segments: delimited length exceeded",
        ),
        (&[0x0a], "RowIdSequence.segments: invalid varint"),
        (&[0x80], "invalid varint"),
        (
            &[0xff, 0xff, 0xff, 0xff, 0xff, 0xff, 0xff, 0xff, 0xff, 0x02],
            "invalid varint",
        ),
        (&[0x00], "invalid tag value: 0"),
        (&[0x0e], "invalid wire type value: 6"),
        (&[0x80, 0x80, 0x80, 0x80, 0x10], "invalid key value: 4294967296"),
        (&[0x0a, 5, 1, 2], "RowIdSequence.segments: buffer underflow"),
        (&[0x15, 1, 2, 3], "buffer underflow"),
        (&[0x11, 1, 2, 3], "buffer underflow"),
        (&[0x14], "unexpected end group tag"),
        (&[0x13, 0x1c], "unexpected end group tag"),
        (
            &[0x08, 1],
            "RowIdSequence.segments: invalid wire type: Varint (expected LengthDelimited)",
        ),
    ];
    for (bytes, message) in cases {
        let text = decode_fails(bytes);
        assert_eq!(
            text,
            format!(
                "corrupt file row ID metadata: failed to decode row ID sequence: \
                 failed to decode Protobuf message: {message}"
            ),
            "{bytes:?}"
        );
    }
}

#[test]
fn wrong_wire_types_are_rejected() {
    // A range, each of whose bounds is length-delimited or of fixed width.
    for range in [&[0x0a, 0][..], &[0x12, 0], &[0x0d, 0, 0, 0, 0], &[0x13, 0x14]] {
        decode_fails(&nested(1, &nested(1, range)));
    }
    // Holes and bitmaps that are numbers.
    for tag in [2, 3, 6] {
        decode_fails(&nested(1, &nested(tag, &[0x18, 1])));
    }
    // Segments and arrays that are numbers.
    for tag in 1u8..=6 {
        decode_fails(&nested(1, &[tag * 8, 1]));
    }
    for tag in 1u8..=3 {
        decode_fails(&nested(1, &nested(5, &[tag * 8, 1])));
    }
    // The offsets of an array.
    for tag in 1u8..=2 {
        decode_fails(&nested(1, &nested(5, &nested(tag, &[0x10, 1]))));
        decode_fails(&nested(1, &nested(5, &nested(tag, &[0x0a, 0]))));
    }
    decode_fails(&nested(1, &nested(5, &nested(3, &[0x10, 1]))));
    // An array of values has no base.
    assert_eq!(
        decode_segment(&nested(5, &nested(3, &[0x0a, 0]))),
        Some(Segment::Array(ArrayMessage {
            array: Some(Array::U64Array(U64Array { values: vec![] }))
        }))
    );
}

#[test]
fn the_last_of_a_repeated_field_counts() {
    assert_eq!(
        decode_segment(&nested(1, &[0x08, 1, 0x10, 5, 0x08, 2])),
        Some(Segment::Range(Range { start: 2, end: 5 }))
    );
    assert_eq!(
        decode_segment(&nested(1, &[0x08, 1, 0x08, 0])),
        Some(Segment::Range(Range { start: 0, end: 0 }))
    );
}

#[test]
fn nested_messages_add_up() {
    let mut split = nested(1, &[0x08, 1]);
    split.extend(nested(1, &[0x10, 9]));
    assert_eq!(
        decode_segment(&split),
        Some(Segment::Range(Range { start: 1, end: 9 }))
    );

    let mut range = nested(3, &nested(1, &[0x08, 7]));
    range.extend(nested(3, &nested(1, &[0x12, 2, 1, 0])));
    assert_eq!(
        decode_segment(&nested(2, &range)),
        Some(Segment::RangeWithHoles(RangeWithHoles {
            start: 0,
            end: 0,
            holes: Some(ArrayMessage {
                array: Some(Array::U16Array(U16Array {
                    base: 7,
                    offsets: vec![1, 0]
                }))
            })
        }))
    );
}

#[test]
fn the_last_encoding_counts() {
    let mut bytes = nested(1, &[0x08, 1, 0x10, 9]);
    bytes.extend(nested(2, &[0x10, 4]));
    bytes.extend(nested(1, &[0x10, 3]));
    assert_eq!(
        decode_segment(&bytes),
        Some(Segment::Range(Range { start: 0, end: 3 }))
    );

    let mut arrays = nested(1, &[0x08, 1]);
    arrays.extend(nested(2, &[0x08, 2]));
    assert_eq!(
        decode_segment(&nested(4, &arrays)),
        Some(Segment::SortedArray(ArrayMessage {
            array: Some(Array::U32Array(U32Array {
                base: 2,
                offsets: vec![]
            }))
        }))
    );
}

#[test]
fn varints_may_be_longer_than_needed() {
    let bytes = [0x8a, 0x80, 0x00, 0x84, 0x00, 0x0a, 2, 0x10, 20];
    assert_eq!(
        read_row_ids(Bytes::from(bytes.to_vec())).unwrap(),
        RowIdSequence::from(0..20)
    );
}

#[test]
fn groups_may_nest_up_to_a_limit() {
    let groups = |depth: usize, inner: &[u8]| {
        let mut bytes = vec![0x3b; depth];
        bytes.extend_from_slice(inner);
        bytes.extend(vec![0x3c; depth]);
        bytes
    };
    let skipped = |bytes: &[u8]| {
        let mut rest = &bytes[1..];
        skip_field(WireType::StartGroup, 7, &mut rest, DecodeContext::default()).is_ok()
    };
    for (depth, inner) in [
        (1, &[][..]),
        (99, &[0x08, 1]),
        (100, &[]),
        (100, &[0x08, 1]),
        (101, &[]),
        (300, &[0x08, 1]),
    ] {
        let bytes = groups(depth, inner);
        let read = read_row_ids(Bytes::from(bytes.clone()));
        assert_eq!(read.is_ok(), skipped(&bytes), "{depth} {inner:?}");
    }
    assert!(read_row_ids(Bytes::from(groups(100, &[]))).is_ok());
    assert_eq!(
        decode_fails(&groups(101, &[])),
        "corrupt file row ID metadata: failed to decode row ID sequence: \
         failed to decode Protobuf message: recursion limit reached"
    );

    // Each message around a group counts as a level.
    let long = |tag: u8, payload: Vec<u8>| {
        let mut bytes = vec![tag * 8 + 2];
        let len = payload.len();
        if len < 128 {
            bytes.push(len as u8);
        } else {
            bytes.extend_from_slice(&[(len % 128 + 128) as u8, (len / 128) as u8]);
        }
        bytes.extend(payload);
        bytes
    };
    let segment = |depth| Bytes::from(long(1, groups(depth, &[])));
    assert!(SequenceMessage::decode(segment(99)).is_ok());
    assert!(SequenceMessage::decode(segment(100)).is_err());
    let range = |depth| Bytes::from(long(1, long(1, groups(depth, &[]))));
    assert!(SequenceMessage::decode(range(98)).is_ok());
    assert!(SequenceMessage::decode(range(99)).is_err());
    let holes = |depth| Bytes::from(long(1, long(2, long(3, groups(depth, &[])))));
    assert!(SequenceMessage::decode(holes(97)).is_ok());
    assert!(SequenceMessage::decode(holes(98)).is_err());
    let offsets = |depth| Bytes::from(long(1, long(2, long(3, long(1, groups(depth, &[]))))));
    assert!(SequenceMessage::decode(offsets(96)).is_ok());
    assert!(SequenceMessage::decode(offsets(97)).is_err());
}

#[test]
fn a_message_that_is_cut_short_is_rejected() {
    let sequence = RowIdSequence(vec![U64Segment::RangeWithHoles {
        range: 100..200,
        holes: EncodedU64Array::U64(vec![104, 108, 150]),
    }]);
    let bytes = write_row_ids(&sequence);
    for len in 1..bytes.len() {
        decode_fails(&bytes[..len]);
    }
    assert_eq!(read_row_ids(Bytes::from(bytes)).unwrap(), sequence);
}
