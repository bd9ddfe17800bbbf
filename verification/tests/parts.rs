use bytes::Bytes;
use rowids::bitmap::Bitmap;
use rowids::encoded_array::EncodedU64Array;
use rowids::packed::{
    to_bytes_u16, to_bytes_u32, to_bytes_u64, unpack_u16, unpack_u32, unpack_u64,
};
use rowids::pb;
use rowids::runs::HoleRuns;
use rowids::segment::{RowIdSequence, U64Segment};

#[test]
fn bits_are_packed_lowest_first() {
    let mut bitmap = Bitmap::new_empty(11);
    assert_eq!(bitmap.bytes(), [0, 0]);
    for i in [0, 3, 8, 10] {
        bitmap.set(i);
    }
    assert_eq!(bitmap.bytes(), [0b0000_1001, 0b0000_0101]);
    assert_eq!(bitmap.count_ones(), 4);
    assert!(bitmap.get(3));
    bitmap.clear(3);
    assert!(!bitmap.get(3));
    assert_eq!(bitmap.count_ones(), 3);
    assert_eq!(bitmap.len(), 11);
    let copy = bitmap.clone();
    assert_eq!(copy, bitmap);
    assert_eq!(copy.into_bytes(), Bytes::from(vec![0b0000_0001, 0b0000_0101]));
}

#[test]
fn full_bitmaps_have_no_bits_past_the_end() {
    assert_eq!(Bitmap::new_full(0).bytes(), [0u8; 0]);
    assert_eq!(Bitmap::new_full(8).bytes(), [0xff]);
    assert_eq!(Bitmap::new_full(9).bytes(), [0xff, 0x01]);
    assert_eq!(Bitmap::new_full_except(9, &[0, 8]).bytes(), [0xfe, 0x00]);
    let parts = Bitmap::from_parts(Bytes::from(vec![0xff, 0x01]), 9);
    assert_eq!(parts, Bitmap::new_full(9));
}

#[test]
fn a_cleared_copy_leaves_the_first_bitmap_alone() {
    let first = Bitmap::new_full(20);
    let mut second = first.clone();
    second.clear(19);
    assert_eq!(first.count_ones(), 20);
    assert_eq!(second.count_ones(), 19);
}

#[test]
fn integers_are_packed_lowest_byte_first() {
    assert_eq!(to_bytes_u16(&[0x0102, 3]), [2, 1, 3, 0]);
    assert_eq!(to_bytes_u32(&[0x01020304]), [4, 3, 2, 1]);
    assert_eq!(to_bytes_u64(&[0x0102030405060708]), [8, 7, 6, 5, 4, 3, 2, 1]);
    assert_eq!(unpack_u16(&[2, 1, 3, 0, 9]), [0x0102, 3]);
    assert_eq!(unpack_u32(&[4, 3, 2, 1]), [0x01020304]);
    assert_eq!(unpack_u64(&[8, 7, 6, 5, 4, 3, 2, 1]), [0x0102030405060708]);
    assert_eq!(unpack_u64(&to_bytes_u64(&[u64::MAX, 0])), [u64::MAX, 0]);
}

#[test]
fn the_narrowest_encoding_is_picked() {
    assert_eq!(
        EncodedU64Array::from(vec![]),
        EncodedU64Array::U16 {
            base: 0,
            offsets: vec![]
        }
    );
    assert_eq!(
        EncodedU64Array::from(vec![65_544, 10]),
        EncodedU64Array::U16 {
            base: 10,
            offsets: vec![65_534, 0]
        }
    );
    assert_eq!(
        EncodedU64Array::from(vec![10, 65_545]),
        EncodedU64Array::U32 {
            base: 10,
            offsets: vec![0, 65_535]
        }
    );
    assert_eq!(
        EncodedU64Array::from(vec![0, 4_294_967_295]),
        EncodedU64Array::U64(vec![0, 4_294_967_295])
    );
    let array = EncodedU64Array::from(vec![65_544, 10]);
    assert_eq!(array.len(), 2);
    assert_eq!((array.value(0), array.value(1)), (65_544, 10));
    assert_eq!(array.clone(), array);
}

#[test]
fn array_messages_go_both_ways() {
    for array in [
        EncodedU64Array::U16 {
            base: 7,
            offsets: vec![65_535, 0],
        },
        EncodedU64Array::U32 {
            base: u64::MAX - 9,
            offsets: vec![9, 0, 3],
        },
        EncodedU64Array::U64(vec![u64::MAX, 1]),
    ] {
        let message = pb::EncodedU64Array::from(array.clone());
        assert_eq!(EncodedU64Array::try_from(message).unwrap(), array);
    }
}

#[test]
fn segments_count_their_values() {
    let runs = HoleRuns::try_new(20, vec![3, 8], vec![7, 15]).unwrap();
    let sequence = RowIdSequence(vec![
        U64Segment::Range(5..9),
        U64Segment::RangeWithHoles {
            range: 10..20,
            holes: EncodedU64Array::from(vec![11, 12]),
        },
        U64Segment::RangeWithRuns {
            range: 100..120,
            runs,
        },
        U64Segment::RangeWithBitmap {
            range: 200..210,
            bitmap: Bitmap::new_full_except(10, &[4]),
        },
        U64Segment::SortedArray(EncodedU64Array::from(vec![1, 1, 2])),
        U64Segment::Array(EncodedU64Array::from(vec![9])),
    ]);
    let lens: Vec<usize> = sequence.0.iter().map(|segment| segment.len()).collect();
    assert_eq!(lens, [4, 8, 9, 9, 3, 1]);
    assert_eq!(sequence.len(), 34);
    assert_eq!(sequence.clone(), sequence);
    let message = pb::RowIdSequence::from(sequence.clone());
    assert_eq!(RowIdSequence::try_from(message).unwrap(), sequence);
}

#[test]
fn runs_of_missing_offsets() {
    let runs = HoleRuns::from_missing_offsets(20, &[3, 4, 5, 6, 8, 19]);
    assert_eq!(runs.span(), 20);
    assert_eq!(runs.num_runs(), 3);
    assert_eq!(runs.starts(), [3, 8, 19]);
    assert_eq!(runs.ends(), [7, 9, 20]);
    assert_eq!(
        runs,
        HoleRuns::try_new(20, vec![3, 8, 19], vec![7, 9, 20]).unwrap()
    );
    assert_eq!(runs.clone(), runs);
    let none = HoleRuns::from_missing_offsets(0, &[]);
    assert_eq!(none.num_runs(), 0);
    assert_eq!(none.present_ranges(), vec![]);
    let last = HoleRuns::from_missing_offsets(u32::MAX, &[u32::MAX - 1]);
    assert_eq!(last.ends(), [u32::MAX]);
}

#[test]
fn missing_offsets_and_bitmaps_give_the_same_runs() {
    for cleared in [vec![], vec![0], vec![0, 1, 2, 30], vec![7, 8, 9, 15, 16, 23, 31, 32]] {
        let bitmap = Bitmap::new_full_except(33, &cleared);
        let offsets: Vec<u32> = cleared.iter().map(|&c| c as u32).collect();
        let runs = HoleRuns::from_bitmap(&bitmap);
        assert_eq!(runs, HoleRuns::from_missing_offsets(33, &offsets));
        assert_eq!(runs.present_len() as usize, bitmap.count_ones());
    }
}

#[test]
fn runs_lie_before_or_after_an_offset_at_a_position() {
    let runs = HoleRuns::try_new(20, vec![3, 8, 16], vec![7, 15, 20]).unwrap();
    let before = [0, 0, 0, 1, 2];
    assert_eq!(runs.present_len() as usize, before.len());
    for (position, count) in before.into_iter().enumerate() {
        let offset = runs.offset_at(position as u32).unwrap();
        assert_eq!(runs.ends().iter().filter(|end| **end <= offset).count(), count);
        assert_eq!(runs.starts().iter().filter(|start| **start <= offset).count(), count);
    }
}

#[test]
fn positions_and_values_agree() {
    let runs = HoleRuns::from_missing_offsets(12, &[0, 1, 5, 11]);
    let mut values = vec![7];
    runs.extend_values(1000, 0..u32::MAX, &mut values);
    assert_eq!(values, [7, 1002, 1003, 1004, 1006, 1007, 1008, 1009, 1010]);
    for position in 0..runs.present_len() {
        let offset = runs.offset_at(position).unwrap();
        assert_eq!(runs.position(offset), Some(position));
        assert_eq!(values[1 + position as usize], 1000 + offset as u64);
    }
    // Two pieces join up.
    let mut pieces = vec![7];
    runs.extend_values(1000, 0..3, &mut pieces);
    runs.extend_values(1000, 3..8, &mut pieces);
    assert_eq!(pieces, values);
    // A range that runs backwards is empty.
    let before = values.clone();
    runs.extend_values(1000, std::ops::Range { start: 5, end: 2 }, &mut values);
    assert_eq!(values, before);
}

#[test]
fn the_largest_value_below_the_limit_is_appended() {
    let runs = HoleRuns::from_missing_offsets(4, &[1]);
    let mut values = Vec::new();
    runs.extend_values(u64::MAX - 4, 0..3, &mut values);
    assert_eq!(values, [u64::MAX - 4, u64::MAX - 2, u64::MAX - 1]);
}
