//! Which messages stand for which segments, which are refused and why, said of their fields.

use super::model::{
    array_message, array_of, bitmap_fault, checked_array, first_outside, law_array_round_trip,
    law_bitmap_accepted, law_checked_array, padding_mask, range_fault, reads_as, run_bounds_message,
    run_bounds_of, segment_message, segment_of, segments_of, sequence_message, sequence_of,
    stored_bytes, stored_sequence,
};
use crate::bitmap::{bit_of, bits_of, law_bits_packed, pack, packs};
use crate::encoded_array::{
    compact, law_array_fits, law_array_values, law_compact, law_first_fall, law_max, max_of,
    ArrayModel,
};
use crate::error::{corrupt, ArrayWidth, Corruption, Error, RangeKind, RunBound};
use crate::packed::{
    law_pack_u16_bytes, law_pack_u32_bytes, law_pack_u64_bytes, law_u16_elements, law_u32_elements,
    law_u64_elements, u16_elements, u32_elements,
};
use crate::pb::decode::read_sequence;
use crate::pb::encoded_u64_array::ArrayMessage;
use crate::pb::layout::sequence_bytes;
use crate::pb::u64_segment::SegmentMessage;
use crate::runs::laws::law_runs_accepted;
use crate::runs::model::{runs_fault, RunsModel};
use crate::segment::{total_len, SegmentModel};
use vstd::prelude::*;

verus! {

/// Reading gave a value exactly when one was expected, and then that one; else it reported the
/// fault that was expected.
pub proof fn law_reads_as<T: View>(
    result: Result<T, Error>,
    expected: Result<<T as View>::V, Corruption>,
)
    requires
        reads_as(result, expected),
    ensures
        result is Ok <==> expected is Ok,
        result is Ok ==> result->Ok_0@ == expected->Ok_0,
        result is Err ==> result->Err_0 == corrupt(expected->Err_0),
{
}

/// A range is at fault exactly when it runs backwards or has more values than can be counted.
pub proof fn law_range_checked(kind: RangeKind, start: u64, end: u64)
    ensures
        range_fault(kind, start, end) is None <==> start <= end && end - start <= usize::MAX,
        start > end ==> range_fault(kind, start, end) == Some(
            Corruption::RangeReversed { kind, start, end },
        ),
        start <= end && end - start > usize::MAX ==> range_fault(kind, start, end) == Some(
            Corruption::RangeTooLong { kind, len: (end - start) as u64, start, end },
        ),
{
}

/// A message of 16 bit offsets is accepted exactly when its bytes come in pairs and each pair,
/// lowest byte first, gives an offset that fits in 64 bits with the base; the array is then those
/// offsets from that base, in order.
pub proof fn law_u16_message(base: u64, offsets: Seq<u8>)
    ensures
        ({
            let message = Some(ArrayMessage::U16Array { base, offsets });
            let n = offsets.len() / 2;
            match array_of(message) {
                Ok(array) => {
                    &&& offsets.len() % 2 == 0
                    &&& array matches ArrayModel::U16 { base: b, offsets: o } && b == base
                        && o.len() == n && (forall|i: int|
                        0 <= i < n ==> #[trigger] o[i] == offsets[2 * i] + 256 * offsets[2 * i + 1]
                            && base + o[i] <= 0xffff_ffff_ffff_ffff)
                },
                Err(Corruption::ArrayMisaligned { width, byte_len }) => {
                    &&& offsets.len() % 2 != 0
                    &&& width == ArrayWidth::U16
                    &&& offsets.len() <= usize::MAX ==> byte_len == offsets.len()
                },
                Err(Corruption::ArrayOverflow { width, base: b, max_offset }) => {
                    &&& offsets.len() % 2 == 0
                    &&& width == ArrayWidth::U16 && b == base
                    &&& base + max_offset > 0xffff_ffff_ffff_ffff
                    &&& exists|i: int|
                        0 <= i < n && max_offset == #[trigger] offsets[2 * i] + 256 * offsets[2 * i
                            + 1]
                    &&& forall|i: int|
                        0 <= i < n ==> #[trigger] offsets[2 * i] + 256 * offsets[2 * i + 1]
                            <= max_offset
                },
                Err(_) => false,
            }
        }),
{
    let array = ArrayModel::U16 { base, offsets: u16_elements(offsets) };
    law_u16_elements(offsets);
    law_array_values(array);
    law_array_fits(array);
    law_checked_array(ArrayWidth::U16, array);
    law_max(array.stored());
    let n = offsets.len() / 2;
    if offsets.len() % 2 == 0 && checked_array(ArrayWidth::U16, array) is Err {
        assert(n > 0) by {
            if n == 0 {
                assert(array.stored() =~= Seq::empty());
            }
        }
        let k = choose|k: int|
            0 <= k < array.stored().len() && array.stored()[k] == max_of(array.stored());
        assert(array.stored()[k] == u16_elements(offsets)[k]);
        assert(max_of(array.stored()) == offsets[2 * k] + 256 * offsets[2 * k + 1]);
        assert forall|i: int| 0 <= i < n implies #[trigger] offsets[2 * i] + 256 * offsets[2 * i
            + 1] <= max_of(array.stored()) by {
            assert(array.stored()[i] == u16_elements(offsets)[i]);
        }
    }
}

/// A message of 32 bit offsets is accepted exactly when its bytes come in fours and each four,
/// lowest byte first, give an offset that fits in 64 bits with the base; the array is then those
/// offsets from that base, in order.
pub proof fn law_u32_message(base: u64, offsets: Seq<u8>)
    ensures
        ({
            let message = Some(ArrayMessage::U32Array { base, offsets });
            let n = offsets.len() / 4;
            match array_of(message) {
                Ok(array) => {
                    &&& offsets.len() % 4 == 0
                    &&& array matches ArrayModel::U32 { base: b, offsets: o } && b == base
                        && o.len() == n && (forall|i: int|
                        0 <= i < n ==> #[trigger] o[i] == offsets[4 * i] + 0x100 * offsets[4 * i + 1]
                            + 0x10000 * offsets[4 * i + 2] + 0x1000000 * offsets[4 * i + 3] && base
                            + o[i] <= 0xffff_ffff_ffff_ffff)
                },
                Err(Corruption::ArrayMisaligned { width, byte_len }) => {
                    &&& offsets.len() % 4 != 0
                    &&& width == ArrayWidth::U32
                    &&& offsets.len() <= usize::MAX ==> byte_len == offsets.len()
                },
                Err(Corruption::ArrayOverflow { width, base: b, max_offset }) => {
                    &&& offsets.len() % 4 == 0
                    &&& width == ArrayWidth::U32 && b == base
                    &&& base + max_offset > 0xffff_ffff_ffff_ffff
                    &&& exists|i: int|
                        0 <= i < n && max_offset == #[trigger] offsets[4 * i] + 0x100 * offsets[4 * i
                            + 1] + 0x10000 * offsets[4 * i + 2] + 0x1000000 * offsets[4 * i + 3]
                    &&& forall|i: int|
                        0 <= i < n ==> #[trigger] offsets[4 * i] + 0x100 * offsets[4 * i + 1]
                            + 0x10000 * offsets[4 * i + 2] + 0x1000000 * offsets[4 * i + 3]
                            <= max_offset
                },
                Err(_) => false,
            }
        }),
{
    let array = ArrayModel::U32 { base, offsets: u32_elements(offsets) };
    law_u32_elements(offsets);
    law_array_values(array);
    law_array_fits(array);
    law_checked_array(ArrayWidth::U32, array);
    law_max(array.stored());
    let n = offsets.len() / 4;
    if offsets.len() % 4 == 0 && checked_array(ArrayWidth::U32, array) is Err {
        assert(n > 0) by {
            if n == 0 {
                assert(array.stored() =~= Seq::empty());
            }
        }
        let k = choose|k: int|
            0 <= k < array.stored().len() && array.stored()[k] == max_of(array.stored());
        assert(array.stored()[k] == u32_elements(offsets)[k]);
        assert(max_of(array.stored()) == offsets[4 * k] + 0x100 * offsets[4 * k + 1] + 0x10000
            * offsets[4 * k + 2] + 0x1000000 * offsets[4 * k + 3]);
        assert forall|i: int| 0 <= i < n implies #[trigger] offsets[4 * i] + 0x100 * offsets[4 * i
            + 1] + 0x10000 * offsets[4 * i + 2] + 0x1000000 * offsets[4 * i + 3] <= max_of(
            array.stored(),
        ) by {
            assert(array.stored()[i] == u32_elements(offsets)[i]);
        }
    }
}

/// A message of 64 bit values is accepted exactly when its bytes come in eights; the array is then
/// those values, lowest byte first and in order. A message of no encoding is refused.
pub proof fn law_u64_message(values: Seq<u8>)
    ensures
        ({
            let n = values.len() / 8;
            match array_of(Some(ArrayMessage::U64Array { values })) {
                Ok(array) => {
                    &&& values.len() % 8 == 0
                    &&& array matches ArrayModel::U64(v) && v.len() == n && (forall|i: int|
                        0 <= i < n ==> #[trigger] v[i] == values[8 * i] + 0x100 * values[8 * i + 1]
                            + 0x10000 * values[8 * i + 2] + 0x1000000 * values[8 * i + 3]
                            + 0x100000000 * values[8 * i + 4] + 0x10000000000 * values[8 * i + 5]
                            + 0x1000000000000 * values[8 * i + 6] + 0x100000000000000 * values[8 * i
                            + 7])
                },
                Err(Corruption::ArrayMisaligned { width, byte_len }) => {
                    &&& values.len() % 8 != 0
                    &&& width == ArrayWidth::U64
                    &&& values.len() <= usize::MAX ==> byte_len == values.len()
                },
                Err(_) => false,
            }
        }),
        array_of(None) == Err::<ArrayModel, Corruption>(Corruption::ArrayTypeMissing),
{
    law_u64_elements(values);
}

/// An array is stored as a message of its own encoding with its own base, and its offsets or
/// values, each lowest byte first and in order.
pub proof fn law_array_stored(array: ArrayModel)
    ensures
        match (array, array_message(array)) {
            (
                ArrayModel::U16 { base, offsets },
                ArrayMessage::U16Array { base: b, offsets: bytes },
            ) => {
                &&& b == base && bytes.len() == 2 * offsets.len()
                &&& forall|i: int|
                    #![trigger offsets[i]]
                    0 <= i < offsets.len() ==> bytes[2 * i] == offsets[i] % 256 && bytes[2 * i + 1]
                        == offsets[i] / 0x100 % 256
            },
            (
                ArrayModel::U32 { base, offsets },
                ArrayMessage::U32Array { base: b, offsets: bytes },
            ) => {
                &&& b == base && bytes.len() == 4 * offsets.len()
                &&& forall|i: int|
                    #![trigger offsets[i]]
                    0 <= i < offsets.len() ==> bytes[4 * i] == offsets[i] % 256 && bytes[4 * i + 1]
                        == offsets[i] / 0x100 % 256 && bytes[4 * i + 2] == offsets[i] / 0x10000
                        % 256 && bytes[4 * i + 3] == offsets[i] / 0x1000000 % 256
            },
            (ArrayModel::U64(values), ArrayMessage::U64Array { values: bytes }) => {
                &&& bytes.len() == 8 * values.len()
                &&& forall|i: int|
                    #![trigger values[i]]
                    0 <= i < values.len() ==> bytes[8 * i] == values[i] % 256 && bytes[8 * i + 1]
                        == values[i] / 0x100 % 256 && bytes[8 * i + 2] == values[i] / 0x10000 % 256
                        && bytes[8 * i + 3] == values[i] / 0x1000000 % 256 && bytes[8 * i + 4]
                        == values[i] / 0x100000000 % 256 && bytes[8 * i + 5] == values[i]
                        / 0x10000000000 % 256 && bytes[8 * i + 6] == values[i] / 0x1000000000000
                        % 256 && bytes[8 * i + 7] == values[i] / 0x100000000000000 % 256
            },
            _ => false,
        },
{
    match array {
        ArrayModel::U16 { base, offsets } => {
            law_pack_u16_bytes(offsets);
        },
        ArrayModel::U32 { base, offsets } => {
            law_pack_u32_bytes(offsets);
        },
        ArrayModel::U64(values) => {
            law_pack_u64_bytes(values);
        },
    }
}

proof fn lemma_outside_at(values: Seq<int>, start: int, end: int, from: int)
    requires
        0 <= from,
    ensures
        match first_outside(values, start, end, from) {
            Some(i) => {
                &&& from <= i < values.len()
                &&& values[i] < start || values[i] >= end
                &&& forall|j: int| from <= j < i ==> start <= #[trigger] values[j] < end
            },
            None => forall|j: int| from <= j < values.len() ==> start <= #[trigger] values[j] < end,
        },
    decreases values.len() - from,
{
    if from < values.len() {
        lemma_outside_at(values, start, end, from + 1);
    }
}

/// A range message is accepted exactly when the range runs forward and can be counted, as that
/// range.
pub proof fn law_range_segment(start: u64, end: u64)
    ensures
        match segment_of(Some(SegmentMessage::Range { start, end })) {
            Ok(segment) => start <= end && end - start <= usize::MAX && segment
                == (SegmentModel::Range { start, end }),
            Err(Corruption::RangeReversed { kind, start: s, end: e }) => start > end && kind
                == RangeKind::Range && s == start && e == end,
            Err(Corruption::RangeTooLong { kind, len, start: s, end: e }) => start <= end && end
                - start > usize::MAX && kind == RangeKind::Range && len == end - start && s == start
                && e == end,
            Err(_) => false,
        },
        segment_of(None) == Err::<SegmentModel, Corruption>(Corruption::SegmentTypeMissing),
{
}

/// A message of an array in any order is accepted exactly when the array is, as that array.
pub proof fn law_array_segment(message: Option<ArrayMessage>)
    ensures
        match segment_of(Some(SegmentMessage::Array(message))) {
            Ok(segment) => array_of(message) is Ok && segment == SegmentModel::Array(
                array_of(message)->Ok_0,
            ),
            Err(fault) => array_of(message) is Err && fault == array_of(message)->Err_0,
        },
{
}

/// A message of a sorted array is accepted exactly when the array is and none of its values
/// exceeds a later one, as that array. Else the first stored value that exceeds the next is
/// reported.
pub proof fn law_sorted_segment(message: Option<ArrayMessage>)
    requires
        array_of(message) is Ok ==> array_of(message)->Ok_0.len() <= usize::MAX,
    ensures
        ({
            let array = array_of(message)->Ok_0;
            match segment_of(Some(SegmentMessage::SortedArray(message))) {
                Ok(segment) => {
                    &&& array_of(message) is Ok
                    &&& segment == SegmentModel::SortedArray(array)
                    &&& forall|i: int, j: int|
                        0 <= i < j < array.len() ==> #[trigger] array.values()[i]
                            <= #[trigger] array.values()[j]
                },
                Err(Corruption::NotSorted { index, previous, next }) => {
                    &&& array_of(message) is Ok
                    &&& index + 1 < array.len()
                    &&& previous == array.stored()[index as int]
                    &&& next == array.stored()[index + 1]
                    &&& array.values()[index as int] > array.values()[index + 1]
                    &&& forall|i: int, j: int|
                        0 <= i < j <= index ==> #[trigger] array.values()[i]
                            <= #[trigger] array.values()[j]
                },
                Err(fault) => array_of(message) is Err && fault == array_of(message)->Err_0,
            }
        }),
{
    if array_of(message) is Ok {
        let array = array_of(message)->Ok_0;
        law_array_values(array);
        law_first_fall(array.stored(), false);
        assert forall|i: int, j: int|
            0 <= i < array.len() && 0 <= j < array.len() implies (#[trigger] array.values()[i]
            <= #[trigger] array.values()[j] <==> array.stored()[i] <= array.stored()[j]) by {}
    } else {
        lemma_array_faults(message);
    }
}

/// What can be wrong with an array message.
proof fn lemma_array_faults(message: Option<ArrayMessage>)
    ensures
        array_of(message) matches Err(fault) ==> fault is ArrayMisaligned || fault is ArrayOverflow
            || fault is ArrayTypeMissing,
{
}

/// A message of a range with holes is accepted exactly when the range runs forward and can be
/// counted, and the holes are there, are an array that is accepted, rise strictly and lie within
/// the range; it is then that range with those holes. Else the first of these that fails is
/// reported.
pub proof fn law_holes_segment(start: u64, end: u64, holes: Option<Option<ArrayMessage>>)
    requires
        holes is Some && array_of(holes->0) is Ok ==> array_of(holes->0)->Ok_0.len() <= usize::MAX,
    ensures
        ({
            let range = start <= end && end - start <= usize::MAX;
            let read = range && holes is Some && array_of(holes->0) is Ok;
            let array = array_of(holes->0)->Ok_0;
            match segment_of(Some(SegmentMessage::RangeWithHoles { start, end, holes })) {
                Ok(segment) => {
                    &&& read
                    &&& segment == (SegmentModel::RangeWithHoles { start, end, holes: array })
                    &&& forall|i: int, j: int|
                        0 <= i < j < array.len() ==> #[trigger] array.values()[i]
                            < #[trigger] array.values()[j]
                    &&& forall|i: int|
                        0 <= i < array.len() ==> start <= #[trigger] array.values()[i] < end
                },
                Err(Corruption::RangeReversed { kind, start: s, end: e }) => start > end && kind
                    == RangeKind::RangeWithHoles && s == start && e == end,
                Err(Corruption::RangeTooLong { kind, len, start: s, end: e }) => start <= end && end
                    - start > usize::MAX && kind == RangeKind::RangeWithHoles && len == end - start
                    && s == start && e == end,
                Err(Corruption::HolesMissing) => range && holes is None,
                Err(Corruption::HolesNotIncreasing { index, previous, next }) => {
                    &&& read
                    &&& index + 1 < array.len()
                    &&& previous as int == array.values()[index as int] && next as int
                        == array.values()[index + 1] && previous >= next
                    &&& forall|i: int, j: int|
                        0 <= i < j <= index ==> #[trigger] array.values()[i]
                            < #[trigger] array.values()[j]
                },
                Err(Corruption::HoleOutside { hole, start: s, end: e }) => {
                    &&& read
                    &&& s == start && e == end
                    &&& forall|i: int, j: int|
                        0 <= i < j < array.len() ==> #[trigger] array.values()[i]
                            < #[trigger] array.values()[j]
                    &&& exists|i: int|
                        0 <= i < array.len() && hole == #[trigger] array.values()[i] && !(start
                            <= hole < end) && forall|j: int|
                            0 <= j < i ==> start <= #[trigger] array.values()[j] < end
                },
                Err(fault) => range && holes is Some && array_of(holes->0) is Err && fault
                    == array_of(holes->0)->Err_0,
            }
        }),
{
    if holes is Some {
        lemma_array_faults(holes->0);
        if array_of(holes->0) is Ok {
            let array = array_of(holes->0)->Ok_0;
            super::model::law_array_valid(holes->0);
            law_array_values(array);
            law_first_fall(array.values(), true);
            lemma_outside_at(array.values(), start as int, end as int, 0);
            assert forall|i: int| 0 <= i < array.len() implies 0 <= #[trigger] array.values()[i]
                <= u64::MAX by {}
        }
    }
}

/// The padding mask is the bits from `remainder` on.
pub proof fn law_padding_mask(remainder: int, j: int)
    requires
        0 < remainder < 8,
        0 <= j < 8,
    ensures
        bit_of(padding_mask(remainder), j) <==> remainder <= j,
{
    let (r, x) = (remainder as u8, j as u8);
    assert(1u8 << (remainder as usize) == 1u8 << r);
    let mask = padding_mask(remainder);
    assert(mask == !(((1u8 << r) - 1) as u8));
    assert(((mask >> x) & 1u8 == 1u8) == (r <= x)) by (bit_vector)
        requires
            0 < r < 8,
            x < 8,
            mask == !(((1u8 << r) - 1) as u8),
    ;
}

/// A message of a range with a bitmap is accepted exactly when the range runs forward and can be
/// counted, and the bitmap has as many bytes as the range needs bits and no bit set after those;
/// bit `i` of the segment is then bit `i % 8` of byte `i / 8`. Else the first of these that fails
/// is reported.
pub proof fn law_bitmap_segment(start: u64, end: u64, bitmap: Seq<u8>)
    requires
        bitmap.len() <= usize::MAX,
    ensures
        ({
            let range = start <= end && end - start <= usize::MAX;
            let sized = end - start <= 8 * bitmap.len() < end - start + 8;
            match segment_of(Some(SegmentMessage::RangeWithBitmap { start, end, bitmap })) {
                Ok(segment) => {
                    &&& range && sized
                    &&& segment matches SegmentModel::RangeWithBitmap { start: s, end: e, bits } && s
                        == start && e == end && bits.len() == end - start && (forall|k: int, j: int|
                        0 <= k < bitmap.len() && 0 <= j < 8 ==> (#[trigger] bit_of(bitmap[k], j)
                            <==> 8 * k + j < bits.len() && bits[8 * k + j]))
                },
                Err(Corruption::RangeReversed { kind, start: s, end: e }) => start > end && kind
                    == RangeKind::RangeWithBitmap && s == start && e == end,
                Err(Corruption::RangeTooLong { kind, len, start: s, end: e }) => start <= end && end
                    - start > usize::MAX && kind == RangeKind::RangeWithBitmap && len == end - start
                    && s == start && e == end,
                Err(Corruption::BitmapLength { actual, expected, start: s, end: e, len }) => {
                    &&& range && !sized
                    &&& actual == bitmap.len() && s == start && e == end && len == end - start
                    &&& end - start <= 8 * expected < end - start + 8
                },
                Err(Corruption::BitmapPadding { start: s, end: e, len, last_byte, mask }) => {
                    &&& range && sized
                    &&& s == start && e == end && len == end - start && bitmap.len() > 0
                    &&& last_byte == bitmap[bitmap.len() - 1]
                    &&& (end - start) % 8 != 0
                    &&& forall|j: int|
                        0 <= j < 8 ==> (#[trigger] bit_of(mask, j) <==> (end - start) % 8 <= j)
                    &&& exists|j: int|
                        (end - start) % 8 <= j < 8 && #[trigger] bit_of(last_byte, j)
                },
                Err(_) => false,
            }
        }),
{
    if start <= end && end - start <= usize::MAX {
        let len = (end - start) as nat;
        let bits = bits_of(bitmap, len);
        law_bitmap_accepted(start, end, bitmap);
        law_bits_packed(bitmap, bits);
        if let Some(Corruption::BitmapPadding { start: s, end: e, len: l, last_byte, mask }) =
            bitmap_fault(start, end, bitmap) {
            let r = len as int % 8;
            assert forall|j: int| 0 <= j < 8 implies (#[trigger] bit_of(mask, j) <==> r <= j) by {
                law_padding_mask(r, j);
            }
            if forall|j: int| r <= j < 8 ==> !(#[trigger] bit_of(last_byte, j)) {
                let last = bitmap.len() - 1;
                assert forall|k: int, j: int| 0 <= k < bitmap.len() && 0 <= j < 8 implies (
                #[trigger] bit_of(bitmap[k], j) <==> 8 * k + j < bits.len() && bits[8 * k + j]) by {
                    let i = 8 * k + j;
                    assert(i / 8 == k && i % 8 == j);
                    if i >= len {
                        assert(k == last);
                        assert(r <= j);
                    }
                }
                assert(packs(bitmap, bits));
            }
        }
    }
}

/// Run bounds are stored as an array of exactly those values.
pub proof fn law_run_bounds_stored(bounds: Seq<u32>)
    ensures
        ({
            let read = array_of(Some(run_bounds_message(bounds)));
            &&& read is Ok
            &&& read->Ok_0.len() == bounds.len()
            &&& forall|i: int|
                0 <= i < bounds.len() ==> read->Ok_0.values()[i] == #[trigger] bounds[i]
        }),
{
    let wide = bounds.map_values(|v: u32| v as u64);
    law_compact(wide);
    law_array_round_trip(compact(wide));
    let array = compact(wide);
    assert forall|i: int| 0 <= i < bounds.len() implies array.values()[i] == #[trigger] bounds[i] by {
        assert(wide.map_values(|v: u64| v as int)[i] == bounds[i]);
    }
    assert(array.values().len() == bounds.len());
}

/// The arrays of a stored range with runs hold the first missing offset of each run and the first
/// offset after each run.
pub proof fn law_runs_stored(start: u64, end: u64, runs: RunsModel)
    ensures
        segment_message(SegmentModel::RangeWithRuns { start, end, runs }) matches
            SegmentMessage::RangeWithRuns { start: s, end: e, hole_starts, hole_ends } && s == start
            && e == end && hole_starts is Some && hole_ends is Some && array_of(
            hole_starts->0,
        ) is Ok && array_of(hole_ends->0) is Ok && ({
            let starts = array_of(hole_starts->0)->Ok_0;
            let ends = array_of(hole_ends->0)->Ok_0;
            &&& starts.len() == runs.starts.len()
            &&& ends.len() == runs.ends.len()
            &&& forall|i: int|
                0 <= i < runs.starts.len() ==> starts.values()[i] == #[trigger] runs.starts[i]
            &&& forall|i: int|
                0 <= i < runs.ends.len() ==> ends.values()[i] == #[trigger] runs.ends[i]
        }),
{
    law_run_bounds_stored(runs.starts);
    law_run_bounds_stored(runs.ends);
}

/// What is stored of each other kind of segment: its own kind of message, with its own range,
/// holes, bits or array.
pub proof fn law_segment_stored(segment: SegmentModel)
    ensures
        match (segment, segment_message(segment)) {
            (SegmentModel::Range { start, end }, SegmentMessage::Range { start: s, end: e }) => s
                == start && e == end,
            (
                SegmentModel::RangeWithHoles { start, end, holes },
                SegmentMessage::RangeWithHoles { start: s, end: e, holes: stored },
            ) => s == start && e == end && stored == Some(Some(array_message(holes))),
            (
                SegmentModel::RangeWithBitmap { start, end, bits },
                SegmentMessage::RangeWithBitmap { start: s, end: e, bitmap },
            ) => {
                &&& s == start && e == end
                &&& bits.len() <= 8 * bitmap.len() < bits.len() + 8
                &&& forall|k: int, j: int|
                    0 <= k < bitmap.len() && 0 <= j < 8 ==> (#[trigger] bit_of(bitmap[k], j) <==> 8
                        * k + j < bits.len() && bits[8 * k + j])
            },
            (
                SegmentModel::RangeWithRuns { start, end, runs },
                SegmentMessage::RangeWithRuns { start: s, end: e, hole_starts, hole_ends },
            ) => s == start && e == end,
            (SegmentModel::SortedArray(array), SegmentMessage::SortedArray(stored)) => stored
                == Some(array_message(array)),
            (SegmentModel::Array(array), SegmentMessage::Array(stored)) => stored == Some(
                array_message(array),
            ),
            _ => false,
        },
{
    if let SegmentModel::RangeWithBitmap { start, end, bits } = segment {
        law_bits_packed(pack(bits), bits);
    }
}

/// Run bounds are read as the values of their array, which must be there, be accepted and fit in
/// 32 bits. Else the first of these that fails is reported.
pub proof fn law_run_bounds_read(bound: RunBound, message: Option<Option<ArrayMessage>>)
    ensures
        ({
            let read = message is Some && array_of(message->0) is Ok;
            let array = array_of(message->0)->Ok_0;
            match run_bounds_of(bound, message) {
                Ok(bounds) => {
                    &&& read
                    &&& bounds.len() == array.len()
                    &&& forall|i: int|
                        0 <= i < bounds.len() ==> #[trigger] bounds[i] == array.values()[i]
                },
                Err(Corruption::RunBoundMissing { bound: b }) => message is None && b == bound,
                Err(Corruption::RunOffsetTooWide { bound: b, offset }) => {
                    &&& read && b == bound
                    &&& offset > 0xffff_ffff
                    &&& exists|i: int|
                        0 <= i < array.len() && offset == #[trigger] array.values()[i] && forall|
                            j: int,
                        |
                            0 <= j < i ==> #[trigger] array.values()[j] <= 0xffff_ffff
                },
                Err(fault) => message is Some && array_of(message->0) is Err && fault == array_of(
                    message->0,
                )->Err_0,
            }
        }),
{
    if message is Some {
        lemma_array_faults(message->0);
        if array_of(message->0) is Ok {
            let array = array_of(message->0)->Ok_0;
            super::model::law_array_valid(message->0);
            law_array_values(array);
            lemma_outside_at(array.values(), 0, 0x1_0000_0000, 0);
            assert forall|i: int| 0 <= i < array.len() implies 0 <= #[trigger] array.values()[i]
                <= u64::MAX by {}
        }
    }
}

/// A message of a range with runs is accepted exactly when the range runs forward and spans at
/// most `u32::MAX` values, its arrays hold run bounds that fit in 32 bits, and these are the
/// bounds of runs that are not empty, lie within the span and leave gaps. The runs then have those
/// starts and those ends. Else the first of these that fails is reported.
pub proof fn law_runs_segment(
    start: u64,
    end: u64,
    hole_starts: Option<Option<ArrayMessage>>,
    hole_ends: Option<Option<ArrayMessage>>,
)
    ensures
        ({
            let range = start <= end && end - start <= usize::MAX;
            let narrow = range && end - start <= 0xffff_ffff;
            let starts = run_bounds_of(RunBound::Starts, hole_starts);
            let ends = run_bounds_of(RunBound::Ends, hole_ends);
            let message = SegmentMessage::RangeWithRuns { start, end, hole_starts, hole_ends };
            match segment_of(Some(message)) {
                Ok(segment) => {
                    &&& narrow && starts is Ok && ends is Ok
                    &&& segment == (SegmentModel::RangeWithRuns {
                        start,
                        end,
                        runs: RunsModel {
                            span: (end - start) as u32,
                            starts: starts->Ok_0,
                            ends: ends->Ok_0,
                        },
                    })
                    &&& starts->Ok_0.len() == ends->Ok_0.len()
                    &&& forall|k: int|
                        0 <= k < starts->Ok_0.len() ==> #[trigger] starts->Ok_0[k] < ends->Ok_0[k]
                            <= end - start
                    &&& forall|k: int|
                        0 < k < starts->Ok_0.len() ==> ends->Ok_0[k - 1] < #[trigger] starts->Ok_0[k]
                },
                Err(fault) => if start > end {
                    fault == (Corruption::RangeReversed {
                        kind: RangeKind::RangeWithRuns,
                        start,
                        end,
                    })
                } else if end - start > usize::MAX {
                    fault == (Corruption::RangeTooLong {
                        kind: RangeKind::RangeWithRuns,
                        len: (end - start) as u64,
                        start,
                        end,
                    })
                } else if end - start > 0xffff_ffff {
                    fault == (Corruption::RunSpanTooWide {
                        span: (end - start) as usize,
                        start,
                        end,
                    })
                } else if starts is Err {
                    fault == starts->Err_0
                } else if ends is Err {
                    fault == ends->Err_0
                } else {
                    &&& runs_fault((end - start) as u32, starts->Ok_0, ends->Ok_0) == Some(fault)
                    &&& !({
                        &&& starts->Ok_0.len() == ends->Ok_0.len()
                        &&& forall|k: int|
                            0 <= k < starts->Ok_0.len() ==> #[trigger] starts->Ok_0[k]
                                < ends->Ok_0[k] <= end - start
                        &&& forall|k: int|
                            0 < k < starts->Ok_0.len() ==> ends->Ok_0[k - 1]
                                < #[trigger] starts->Ok_0[k]
                    })
                },
            }
        }),
{
    let starts = run_bounds_of(RunBound::Starts, hole_starts);
    let ends = run_bounds_of(RunBound::Ends, hole_ends);
    if starts is Ok && ends is Ok && start <= end && end - start <= 0xffff_ffff {
        law_runs_accepted((end - start) as u32, starts->Ok_0, ends->Ok_0);
    }
}

/// Messages are read one by one, in order, up to the first that stands for no segment.
pub proof fn law_segments_read(messages: Seq<Option<SegmentMessage>>)
    ensures
        match segments_of(messages) {
            Ok(segments) => {
                &&& segments.len() == messages.len()
                &&& forall|i: int|
                    0 <= i < messages.len() ==> segment_of(#[trigger] messages[i]) == Ok::<
                        SegmentModel,
                        Corruption,
                    >(segments[i])
            },
            Err(fault) => exists|i: int|
                0 <= i < messages.len() && segment_of(#[trigger] messages[i]) == Err::<
                    SegmentModel,
                    Corruption,
                >(fault) && forall|j: int|
                    0 <= j < i ==> segment_of(#[trigger] messages[j]) is Ok,
        },
    decreases messages.len(),
{
    if messages.len() > 0 {
        let rest = messages.drop_last();
        let last = messages.len() - 1;
        law_segments_read(rest);
        assert forall|i: int| 0 <= i < last implies #[trigger] messages[i] == rest[i] by {}
        assert(messages.last() == messages[last]);
        match segments_of(rest) {
            Err(fault) => {
                let i = choose|i: int|
                    0 <= i < rest.len() && segment_of(#[trigger] rest[i]) == Err::<
                        SegmentModel,
                        Corruption,
                    >(fault) && forall|j: int|
                        0 <= j < i ==> segment_of(#[trigger] rest[j]) is Ok;
                assert(segment_of(messages[i]) == Err::<SegmentModel, Corruption>(fault));
                assert forall|j: int| 0 <= j < i implies segment_of(#[trigger] messages[j]) is Ok by {
                    assert(segment_of(rest[j]) is Ok);
                }
            },
            Ok(segments) => {
                assert forall|j: int| 0 <= j < last implies segment_of(#[trigger] messages[j])
                    == Ok::<SegmentModel, Corruption>(segments[j]) by {
                    assert(segment_of(rest[j]) == Ok::<SegmentModel, Corruption>(segments[j]));
                }
            },
        }
    }
}

/// A sequence message is accepted exactly when each of its segments is and all of them together
/// hold no more row IDs than a `u64` can count.
pub proof fn law_sequence_read(messages: Seq<Option<SegmentMessage>>)
    ensures
        match segments_of(messages) {
            Err(fault) => sequence_of(messages) == Err::<Seq<SegmentModel>, Corruption>(fault),
            Ok(segments) => if total_len(segments) <= 0xffff_ffff_ffff_ffff {
                sequence_of(messages) == Ok::<Seq<SegmentModel>, Corruption>(segments)
            } else {
                sequence_of(messages) == Err::<Seq<SegmentModel>, Corruption>(
                    Corruption::SequenceTooLong { segments: messages.len() as usize },
                )
            },
        },
{
    law_segments_read(messages);
}

/// A sequence is stored as the messages of its segments, in order, and read from the bytes of a
/// sequence message as the segments that it stands for.
pub proof fn law_sequence_stored(segments: Seq<SegmentModel>, bytes: Seq<u8>)
    ensures
        sequence_message(segments).len() == segments.len(),
        forall|i: int|
            0 <= i < segments.len() ==> #[trigger] sequence_message(segments)[i] == Some(
                segment_message(segments[i]),
            ),
        stored_bytes(segments) == sequence_bytes(sequence_message(segments)),
        stored_sequence(bytes) is Some <==> read_sequence(bytes) is Ok,
        stored_sequence(bytes) is Some ==> stored_sequence(bytes)->0 == sequence_of(
            read_sequence(bytes)->Ok_0,
        ),
{
}

} // verus!
