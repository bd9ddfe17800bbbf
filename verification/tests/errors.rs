use bytes::Bytes;
use rowids::error::{ArrayWidth, Corruption, Error, RangeKind, RunBound};
use rowids::pb::encoded_u64_array::{Array, U16Array, U32Array, U64Array};
use rowids::pb::u64_segment::{
    Range, RangeWithBitmap, RangeWithHoles, RangeWithRuns, Segment,
};
use rowids::pb::{EncodedU64Array, RowIdSequence, U64Segment};
use rowids::runs::HoleRuns;
use rowids::serde::read_row_ids;

fn u16s(base: u64, offsets: &[u16]) -> Option<EncodedU64Array> {
    Some(EncodedU64Array {
        array: Some(Array::U16Array(U16Array {
            base,
            offsets: offsets.iter().flat_map(|v| v.to_le_bytes()).collect(),
        })),
    })
}

fn u32s(base: u64, offsets: &[u32]) -> Option<EncodedU64Array> {
    Some(EncodedU64Array {
        array: Some(Array::U32Array(U32Array {
            base,
            offsets: offsets.iter().flat_map(|v| v.to_le_bytes()).collect(),
        })),
    })
}

fn u64s(values: &[u64]) -> Option<EncodedU64Array> {
    Some(EncodedU64Array {
        array: Some(Array::U64Array(U64Array {
            values: values.iter().flat_map(|v| v.to_le_bytes()).collect(),
        })),
    })
}

fn runs(
    start: u64,
    end: u64,
    hole_starts: Option<EncodedU64Array>,
    hole_ends: Option<EncodedU64Array>,
) -> Option<Segment> {
    Some(Segment::RangeWithRuns(RangeWithRuns {
        start,
        end,
        hole_starts,
        hole_ends,
    }))
}

/// Reads a sequence with the segment, which must be refused for the reason and in these words.
fn assert_refused(segment: Option<Segment>, reason: Corruption, words: &str) {
    let message = RowIdSequence {
        segments: vec![U64Segment { segment }],
    };
    let error = read_row_ids(Bytes::from(message.encode_to_vec())).unwrap_err();
    assert_eq!(
        error,
        Error::CorruptFile {
            name: "row ID metadata",
            reason,
        }
    );
    assert_eq!(
        error.to_string(),
        format!("corrupt file row ID metadata: {words}")
    );
}

#[test]
fn segment_type_missing() {
    assert_refused(
        None,
        Corruption::SegmentTypeMissing,
        "missing row ID segment type",
    );
}

#[test]
fn range_reversed() {
    assert_refused(
        Some(Segment::Range(Range { start: 10, end: 9 })),
        Corruption::RangeReversed {
            kind: RangeKind::Range,
            start: 10,
            end: 9,
        },
        "Range range start 10 exceeds end 9",
    );
    assert_refused(
        runs(u64::MAX, 0, None, None),
        Corruption::RangeReversed {
            kind: RangeKind::RangeWithRuns,
            start: u64::MAX,
            end: 0,
        },
        "RangeWithRuns range start 18446744073709551615 exceeds end 0",
    );
    // The range is looked at before the holes.
    assert_refused(
        Some(Segment::RangeWithHoles(RangeWithHoles {
            start: 2,
            end: 1,
            holes: None,
        })),
        Corruption::RangeReversed {
            kind: RangeKind::RangeWithHoles,
            start: 2,
            end: 1,
        },
        "RangeWithHoles range start 2 exceeds end 1",
    );
    assert_refused(
        Some(Segment::RangeWithBitmap(RangeWithBitmap {
            start: 2,
            end: 1,
            bitmap: Bytes::from(vec![1, 2, 3]),
        })),
        Corruption::RangeReversed {
            kind: RangeKind::RangeWithBitmap,
            start: 2,
            end: 1,
        },
        "RangeWithBitmap range start 2 exceeds end 1",
    );
}

#[test]
fn range_too_long_reads_well() {
    let reason = Corruption::RangeTooLong {
        kind: RangeKind::RangeWithBitmap,
        len: 4_294_967_296,
        start: 1,
        end: 4_294_967_297,
    };
    assert_eq!(
        reason.message(),
        "RangeWithBitmap range length 4294967296 for start 1 and end 4294967297 exceeds usize::MAX"
    );
}

#[test]
fn array_faults() {
    assert_refused(
        Some(Segment::SortedArray(EncodedU64Array { array: None })),
        Corruption::ArrayTypeMissing,
        "missing encoded row ID array type",
    );
    assert_refused(
        Some(Segment::Array(EncodedU64Array {
            array: Some(Array::U64Array(U64Array { values: vec![0; 12] })),
        })),
        Corruption::ArrayMisaligned {
            width: ArrayWidth::U64,
            byte_len: 12,
        },
        "encoded u64 array byte length 12 is not a multiple of element width 8",
    );
    assert_refused(
        u16s(u64::MAX - 4, &[5, 1]).map(Segment::Array),
        Corruption::ArrayOverflow {
            width: ArrayWidth::U16,
            base: u64::MAX - 4,
            max_offset: 5,
        },
        "U16Array base 18446744073709551611 plus maximum offset 5 overflows u64",
    );
    assert_refused(
        u32s(u64::MAX, &[0, 70_000, 3]).map(Segment::Array),
        Corruption::ArrayOverflow {
            width: ArrayWidth::U32,
            base: u64::MAX,
            max_offset: 70_000,
        },
        "U32Array base 18446744073709551615 plus maximum offset 70000 overflows u64",
    );
}

#[test]
fn arrays_up_to_the_largest_value_are_accepted() {
    for array in [u16s(u64::MAX - 4, &[4, 0]), u32s(u64::MAX, &[0]), u32s(u64::MAX, &[])] {
        let message = RowIdSequence {
            segments: vec![U64Segment {
                segment: array.map(Segment::Array),
            }],
        };
        assert!(read_row_ids(Bytes::from(message.encode_to_vec())).is_ok());
    }
}

#[test]
fn sorted_array_not_sorted() {
    // The offsets are reported, without the base.
    assert_refused(
        u16s(100, &[1, 2, 2, 9, 3]).map(Segment::SortedArray),
        Corruption::NotSorted {
            index: 3,
            previous: 9,
            next: 3,
        },
        "SortedArray values are not sorted at indices 3 and 4: 9 exceeds 3",
    );
}

#[test]
fn hole_faults() {
    let holes = |holes| {
        Some(Segment::RangeWithHoles(RangeWithHoles {
            start: 100,
            end: 110,
            holes,
        }))
    };
    assert_refused(
        holes(None),
        Corruption::HolesMissing,
        "RangeWithHoles is missing its holes array",
    );
    assert_refused(
        holes(Some(EncodedU64Array { array: None })),
        Corruption::ArrayTypeMissing,
        "missing encoded row ID array type",
    );
    // The values are reported, with the base.
    assert_refused(
        holes(u16s(100, &[1, 3, 3])),
        Corruption::HolesNotIncreasing {
            index: 1,
            previous: 103,
            next: 103,
        },
        "RangeWithHoles values are not strictly increasing at indices 1 and 2: 103 is not less than 103",
    );
    assert_refused(
        holes(u64s(&[100, 109, 110])),
        Corruption::HoleOutside {
            hole: 110,
            start: 100,
            end: 110,
        },
        "RangeWithHoles hole 110 is outside the range 100..110",
    );
    // The order is looked at before the range.
    assert_refused(
        holes(u64s(&[99, 98])),
        Corruption::HolesNotIncreasing {
            index: 0,
            previous: 99,
            next: 98,
        },
        "RangeWithHoles values are not strictly increasing at indices 0 and 1: 99 is not less than 98",
    );
}

#[test]
fn bitmap_faults() {
    let bitmap = |bytes: Vec<u8>| {
        Some(Segment::RangeWithBitmap(RangeWithBitmap {
            start: 5,
            end: 14,
            bitmap: Bytes::from(bytes),
        }))
    };
    assert_refused(
        bitmap(vec![]),
        Corruption::BitmapLength {
            actual: 0,
            expected: 2,
            start: 5,
            end: 14,
            len: 9,
        },
        "RangeWithBitmap byte length 0 does not match expected 2 for range start 5, end 14, and length 9",
    );
    assert_refused(
        bitmap(vec![0xff, 0x03]),
        Corruption::BitmapPadding {
            start: 5,
            end: 14,
            len: 9,
            last_byte: 0x03,
            mask: 0xfe,
        },
        "RangeWithBitmap padding bits must be zero for range start 5, end 14, and length 9: last byte 0x03 has padding mask 0xfe set",
    );
}

#[test]
fn run_faults() {
    assert_refused(
        runs(1, 4_294_967_297, u16s(0, &[]), u16s(0, &[])),
        Corruption::RunSpanTooWide {
            span: 4_294_967_296,
            start: 1,
            end: 4_294_967_297,
        },
        "RangeWithRuns span 4294967296 for start 1 and end 4294967297 exceeds u32::MAX",
    );
    assert_refused(
        runs(0, 9, None, None),
        Corruption::RunBoundMissing {
            bound: RunBound::Starts,
        },
        "RangeWithRuns is missing its hole_starts array",
    );
    assert_refused(
        runs(0, 9, u16s(0, &[1]), None),
        Corruption::RunBoundMissing {
            bound: RunBound::Ends,
        },
        "RangeWithRuns is missing its hole_ends array",
    );
    for ends in [
        u64s(&[1, 4_294_967_296, 9]),
        u32s(1, &[0, u32::MAX, 8]),
        u16s(4_294_967_291, &[4, 5, 6]),
    ] {
        assert_refused(
            runs(0, 9, u32s(0, &[u32::MAX]), ends),
            Corruption::RunOffsetTooWide {
                bound: RunBound::Ends,
                offset: 4_294_967_296,
            },
            "RangeWithRuns hole_ends offset 4294967296 exceeds u32::MAX",
        );
    }
    assert_refused(
        runs(0, 9, u16s(0, &[1, 5]), u16s(0, &[2])),
        Corruption::RunCountMismatch { starts: 2, ends: 1 },
        "RangeWithRuns has 2 run starts but 1 run ends",
    );
    assert_refused(
        runs(0, 9, u16s(0, &[1, 5]), u16s(0, &[2, 4])),
        Corruption::RunEmpty {
            run: 1,
            start: 5,
            end: 4,
        },
        "RangeWithRuns run 1 is empty or reversed: 5..4",
    );
    assert_refused(
        runs(0, 9, u16s(0, &[8]), u16s(0, &[10])),
        Corruption::RunBeyondSpan {
            run: 0,
            start: 8,
            end: 10,
            span: 9,
        },
        "RangeWithRuns run 0 (8..10) ends beyond the span 9",
    );
    assert_refused(
        runs(0, 9, u16s(0, &[1, 3]), u16s(0, &[3, 4])),
        Corruption::RunsTouch {
            run: 1,
            start: 3,
            previous_end: 3,
        },
        "RangeWithRuns run 1 starts at 3, but the previous run ends at 3: \
         runs must be sorted, disjoint and non-adjacent",
    );
}

#[test]
fn runs_that_cover_the_widest_span_are_accepted() {
    let runs = HoleRuns::try_new(u32::MAX, vec![0], vec![u32::MAX]).unwrap();
    assert_eq!(runs.missing_total(), u32::MAX);
    assert_eq!(runs.present_len(), 0);
    assert_eq!(runs.offset_at(0), None);
}

#[test]
fn sequence_too_long() {
    let range = |start, end| U64Segment {
        segment: Some(Segment::Range(Range { start, end })),
    };
    let message = RowIdSequence {
        segments: vec![range(0, u64::MAX), range(7, 7), range(1, 2)],
    };
    let error = read_row_ids(Bytes::from(message.encode_to_vec())).unwrap_err();
    assert_eq!(
        error.to_string(),
        "corrupt file row ID metadata: row ID sequence of 3 segments has a total length exceeding u64::MAX"
    );
    let message = RowIdSequence {
        segments: vec![range(1, u64::MAX), range(7, 7), range(1, 2)],
    };
    let sequence = read_row_ids(Bytes::from(message.encode_to_vec())).unwrap();
    assert_eq!(sequence.len(), u64::MAX);
}

#[test]
fn the_first_fault_is_reported() {
    let range = |start, end| U64Segment {
        segment: Some(Segment::Range(Range { start, end })),
    };
    let message = RowIdSequence {
        segments: vec![range(0, u64::MAX), range(0, u64::MAX), range(4, 3), range(2, 1)],
    };
    let error = read_row_ids(Bytes::from(message.encode_to_vec())).unwrap_err();
    assert_eq!(
        error,
        Error::CorruptFile {
            name: "row ID metadata",
            reason: Corruption::RangeReversed {
                kind: RangeKind::Range,
                start: 4,
                end: 3
            }
        }
    );
}
