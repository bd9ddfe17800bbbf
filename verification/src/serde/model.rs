//! Which message each segment is stored as, and which segment a message stands for.

use crate::bitmap::{bit_of, bits_of, law_packing_unique, pack, packed_len, packs};
use crate::encoded_array::{
    compact, first_fall, law_compact, law_max, law_ordered, max_of, ArrayModel,
};
use crate::error::{corrupt, ArrayWidth, Corruption, Error, RangeKind, RunBound};
use crate::packed::{
    law_pack_u16, law_pack_u32, law_pack_u64, pack_u16, pack_u32, pack_u64, u16_elements,
    u32_elements, u64_elements,
};
use crate::pb::decode::read_sequence;
use crate::pb::encoded_u64_array::ArrayMessage;
use crate::pb::layout::{law_sequence_message_round_trip, sequence_bytes};
use crate::pb::u64_segment::SegmentMessage;
use crate::runs::model::{law_accepted_runs, runs_fault, RunsModel};
use crate::segment::{range_valid, sequence_valid, total_len, SegmentModel};
use vstd::prelude::*;

verus! {

/// Reading gave the value that `expected` holds, or reported the fault that it holds.
pub open spec fn reads_as<T: View>(
    result: Result<T, Error>,
    expected: Result<<T as View>::V, Corruption>,
) -> bool {
    match expected {
        Ok(value) => result matches Ok(read) && read@ == value,
        Err(fault) => result == Err::<T, Error>(corrupt(fault)),
    }
}

/// What is wrong with a range, if anything is.
pub open spec fn range_fault(kind: RangeKind, start: u64, end: u64) -> Option<Corruption> {
    if start > end {
        Some(Corruption::RangeReversed { kind, start, end })
    } else if end - start > usize::MAX {
        Some(Corruption::RangeTooLong { kind, len: (end - start) as u64, start, end })
    } else {
        None
    }
}

/// What is wrong with the length of a packed array, if anything is.
pub open spec fn packed_length_fault(width: ArrayWidth, byte_len: nat) -> Option<Corruption> {
    if byte_len % width.bytes() != 0 {
        Some(Corruption::ArrayMisaligned { width, byte_len: byte_len as usize })
    } else {
        None
    }
}

/// The array, unless one of its values does not fit in 64 bits.
pub open spec fn checked_array(width: ArrayWidth, array: ArrayModel) -> Result<
    ArrayModel,
    Corruption,
> {
    let max = max_of(array.stored());
    if array.base() + max > u64::MAX {
        Err(
            Corruption::ArrayOverflow {
                width,
                base: array.base() as u64,
                max_offset: max as u64,
            },
        )
    } else {
        Ok(array)
    }
}

/// The array that a message stands for, or what is wrong with the message.
pub open spec fn array_of(message: Option<ArrayMessage>) -> Result<ArrayModel, Corruption> {
    match message {
        Some(ArrayMessage::U16Array { base, offsets }) => {
            match packed_length_fault(ArrayWidth::U16, offsets.len()) {
                Some(fault) => Err(fault),
                None => checked_array(
                    ArrayWidth::U16,
                    ArrayModel::U16 { base, offsets: u16_elements(offsets) },
                ),
            }
        },
        Some(ArrayMessage::U32Array { base, offsets }) => {
            match packed_length_fault(ArrayWidth::U32, offsets.len()) {
                Some(fault) => Err(fault),
                None => checked_array(
                    ArrayWidth::U32,
                    ArrayModel::U32 { base, offsets: u32_elements(offsets) },
                ),
            }
        },
        Some(ArrayMessage::U64Array { values }) => {
            match packed_length_fault(ArrayWidth::U64, values.len()) {
                Some(fault) => Err(fault),
                None => Ok(ArrayModel::U64(u64_elements(values))),
            }
        },
        None => Err(Corruption::ArrayTypeMissing),
    }
}

/// The message that an array is stored as.
pub open spec fn array_message(array: ArrayModel) -> ArrayMessage {
    match array {
        ArrayModel::U16 { base, offsets } => ArrayMessage::U16Array {
            base,
            offsets: pack_u16(offsets),
        },
        ArrayModel::U32 { base, offsets } => ArrayMessage::U32Array {
            base,
            offsets: pack_u32(offsets),
        },
        ArrayModel::U64(values) => ArrayMessage::U64Array { values: pack_u64(values) },
    }
}

/// The first index from `i` on at which a value is outside of `start..end`.
pub open spec fn first_outside(values: Seq<int>, start: int, end: int, i: int) -> Option<int>
    decreases values.len() - i,
{
    if i >= values.len() {
        None
    } else if values[i] < start || values[i] >= end {
        Some(i)
    } else {
        first_outside(values, start, end, i + 1)
    }
}

/// The values of an array as run bounds, or the first that does not fit in 32 bits.
pub open spec fn run_offsets_of(bound: RunBound, array: ArrayModel) -> Result<
    Seq<u32>,
    Corruption,
> {
    match first_outside(array.values(), 0, 0x1_0000_0000, 0) {
        Some(i) => Err(Corruption::RunOffsetTooWide { bound, offset: array.values()[i] as u64 }),
        None => Ok(array.values().map_values(|v: int| v as u32)),
    }
}

/// The run bounds that a message stands for, or what is wrong with it.
pub open spec fn run_bounds_of(bound: RunBound, message: Option<Option<ArrayMessage>>) -> Result<
    Seq<u32>,
    Corruption,
> {
    match message {
        Some(message) => match array_of(message) {
            Ok(array) => run_offsets_of(bound, array),
            Err(fault) => Err(fault),
        },
        None => Err(Corruption::RunBoundMissing { bound }),
    }
}

/// The message that run bounds are stored as.
pub open spec fn run_bounds_message(bounds: Seq<u32>) -> ArrayMessage {
    array_message(compact(bounds.map_values(|v: u32| v as u64)))
}

/// The bits of the last byte that are past the end of a bitmap with `remainder` bits in it.
pub open spec fn padding_mask(remainder: int) -> u8 {
    !(((1u8 << (remainder as usize)) - 1) as u8)
}

/// What is wrong with the bytes of a bitmap over a range, if anything is.
pub open spec fn bitmap_fault(start: u64, end: u64, bitmap: Seq<u8>) -> Option<Corruption> {
    let len = end - start;
    let expected = packed_len(len as nat);
    if bitmap.len() != expected {
        Some(
            Corruption::BitmapLength {
                actual: bitmap.len() as usize,
                expected: expected as usize,
                start,
                end,
                len: len as usize,
            },
        )
    } else if len % 8 != 0 && bitmap[expected - 1] & padding_mask(len % 8) != 0 {
        Some(
            Corruption::BitmapPadding {
                start,
                end,
                len: len as usize,
                last_byte: bitmap[expected - 1],
                mask: padding_mask(len % 8),
            },
        )
    } else {
        None
    }
}

/// The holes that a message stands for, or what is wrong with it.
pub open spec fn holes_of(start: u64, end: u64, message: Option<Option<ArrayMessage>>) -> Result<
    ArrayModel,
    Corruption,
> {
    match message {
        Some(message) => match array_of(message) {
            Ok(holes) => match (
                first_fall(holes.values(), true, 0),
                first_outside(holes.values(), start as int, end as int, 0),
            ) {
                (Some(i), _) => Err(
                    Corruption::HolesNotIncreasing {
                        index: i as usize,
                        previous: holes.values()[i] as u64,
                        next: holes.values()[i + 1] as u64,
                    },
                ),
                (None, Some(i)) => Err(
                    Corruption::HoleOutside { hole: holes.values()[i] as u64, start, end },
                ),
                (None, None) => Ok(holes),
            },
            Err(fault) => Err(fault),
        },
        None => Err(Corruption::HolesMissing),
    }
}

/// The runs that a message stands for, or what is wrong with it.
pub open spec fn runs_of(
    start: u64,
    end: u64,
    hole_starts: Option<Option<ArrayMessage>>,
    hole_ends: Option<Option<ArrayMessage>>,
) -> Result<RunsModel, Corruption> {
    if end - start > u32::MAX {
        Err(Corruption::RunSpanTooWide { span: (end - start) as usize, start, end })
    } else {
        match (
            run_bounds_of(RunBound::Starts, hole_starts),
            run_bounds_of(RunBound::Ends, hole_ends),
        ) {
            (Err(fault), _) => Err(fault),
            (Ok(_), Err(fault)) => Err(fault),
            (Ok(starts), Ok(ends)) => match runs_fault((end - start) as u32, starts, ends) {
                Some(fault) => Err(fault),
                None => Ok(RunsModel { span: (end - start) as u32, starts, ends }),
            },
        }
    }
}

/// The segment that a message stands for, or what is wrong with the message.
pub open spec fn segment_of(message: Option<SegmentMessage>) -> Result<SegmentModel, Corruption> {
    match message {
        Some(SegmentMessage::Range { start, end }) => {
            match range_fault(RangeKind::Range, start, end) {
                Some(fault) => Err(fault),
                None => Ok(SegmentModel::Range { start, end }),
            }
        },
        Some(SegmentMessage::RangeWithHoles { start, end, holes }) => {
            match range_fault(RangeKind::RangeWithHoles, start, end) {
                Some(fault) => Err(fault),
                None => match holes_of(start, end, holes) {
                    Ok(holes) => Ok(SegmentModel::RangeWithHoles { start, end, holes }),
                    Err(fault) => Err(fault),
                },
            }
        },
        Some(SegmentMessage::RangeWithRuns { start, end, hole_starts, hole_ends }) => {
            match range_fault(RangeKind::RangeWithRuns, start, end) {
                Some(fault) => Err(fault),
                None => match runs_of(start, end, hole_starts, hole_ends) {
                    Ok(runs) => Ok(SegmentModel::RangeWithRuns { start, end, runs }),
                    Err(fault) => Err(fault),
                },
            }
        },
        Some(SegmentMessage::RangeWithBitmap { start, end, bitmap }) => {
            match range_fault(RangeKind::RangeWithBitmap, start, end) {
                Some(fault) => Err(fault),
                None => match bitmap_fault(start, end, bitmap) {
                    Some(fault) => Err(fault),
                    None => Ok(
                        SegmentModel::RangeWithBitmap {
                            start,
                            end,
                            bits: bits_of(bitmap, (end - start) as nat),
                        },
                    ),
                },
            }
        },
        Some(SegmentMessage::SortedArray(array)) => match array_of(array) {
            Ok(array) => match first_fall(array.stored(), false, 0) {
                Some(i) => Err(
                    Corruption::NotSorted {
                        index: i as usize,
                        previous: array.stored()[i] as u64,
                        next: array.stored()[i + 1] as u64,
                    },
                ),
                None => Ok(SegmentModel::SortedArray(array)),
            },
            Err(fault) => Err(fault),
        },
        Some(SegmentMessage::Array(array)) => match array_of(array) {
            Ok(array) => Ok(SegmentModel::Array(array)),
            Err(fault) => Err(fault),
        },
        None => Err(Corruption::SegmentTypeMissing),
    }
}

/// The message that a segment is stored as.
pub open spec fn segment_message(segment: SegmentModel) -> SegmentMessage {
    match segment {
        SegmentModel::Range { start, end } => SegmentMessage::Range { start, end },
        SegmentModel::RangeWithHoles { start, end, holes } => SegmentMessage::RangeWithHoles {
            start,
            end,
            holes: Some(Some(array_message(holes))),
        },
        SegmentModel::RangeWithRuns { start, end, runs } => SegmentMessage::RangeWithRuns {
            start,
            end,
            hole_starts: Some(Some(run_bounds_message(runs.starts))),
            hole_ends: Some(Some(run_bounds_message(runs.ends))),
        },
        SegmentModel::RangeWithBitmap { start, end, bits } => SegmentMessage::RangeWithBitmap {
            start,
            end,
            bitmap: pack(bits),
        },
        SegmentModel::SortedArray(array) => SegmentMessage::SortedArray(Some(array_message(array))),
        SegmentModel::Array(array) => SegmentMessage::Array(Some(array_message(array))),
    }
}

/// The segments that messages stand for, or what is wrong with the first that stands for none.
pub open spec fn segments_of(messages: Seq<Option<SegmentMessage>>) -> Result<
    Seq<SegmentModel>,
    Corruption,
>
    decreases messages.len(),
{
    if messages.len() == 0 {
        Ok(Seq::empty())
    } else {
        match (segments_of(messages.drop_last()), segment_of(messages.last())) {
            (Err(fault), _) => Err(fault),
            (Ok(_), Err(fault)) => Err(fault),
            (Ok(segments), Ok(segment)) => Ok(segments.push(segment)),
        }
    }
}

/// The sequence that a message stands for, or what is wrong with the message.
pub open spec fn sequence_of(messages: Seq<Option<SegmentMessage>>) -> Result<
    Seq<SegmentModel>,
    Corruption,
> {
    match segments_of(messages) {
        Ok(segments) => if total_len(segments) <= u64::MAX {
            Ok(segments)
        } else {
            Err(Corruption::SequenceTooLong { segments: segments.len() as usize })
        },
        Err(fault) => Err(fault),
    }
}

/// The message that a sequence is stored as.
pub open spec fn sequence_message(segments: Seq<SegmentModel>) -> Seq<Option<SegmentMessage>> {
    segments.map_values(|segment: SegmentModel| Some(segment_message(segment)))
}

/// An array is accepted exactly when all of its values fit in 64 bits.
pub proof fn law_checked_array(width: ArrayWidth, array: ArrayModel)
    ensures
        checked_array(width, array) is Ok <==> array.valid(),
{
    law_max(array.stored());
    if array.valid() {
        if array.len() > 0 {
            let i = choose|i: int|
                0 <= i < array.stored().len() && array.stored()[i] == max_of(array.stored());
            assert(array.values()[i] <= u64::MAX);
        }
    }
    if checked_array(width, array) is Ok {
        assert forall|i: int| 0 <= i < array.len() implies #[trigger] array.values()[i]
            <= u64::MAX by {
            assert(array.stored()[i] <= max_of(array.stored()));
        }
    }
}

/// Nothing lies outside exactly when everything lies within.
pub(crate) proof fn lemma_first_outside(values: Seq<int>, start: int, end: int, i: int)
    requires
        0 <= i,
    ensures
        first_outside(values, start, end, i) is None <==> forall|j: int|
            i <= j < values.len() ==> start <= #[trigger] values[j] < end,
    decreases values.len() - i,
{
    if i < values.len() {
        lemma_first_outside(values, start, end, i + 1);
        if first_outside(values, start, end, i) is None {
            assert forall|j: int| i <= j < values.len() implies start <= #[trigger] values[j]
                < end by {
                if i < j {
                    assert(start <= values[j] < end);
                }
            }
        } else if values[i] < start || values[i] >= end {
            assert(!(start <= values[i] < end));
        }
    }
}

/// What an array is stored as stands for that array.
pub proof fn law_array_round_trip(array: ArrayModel)
    requires
        array.valid(),
    ensures
        array_of(Some(array_message(array))) == Ok::<ArrayModel, Corruption>(array),
{
    law_checked_array(ArrayWidth::U16, array);
    law_checked_array(ArrayWidth::U32, array);
    match array {
        ArrayModel::U16 { base, offsets } => {
            law_pack_u16(offsets);
        },
        ArrayModel::U32 { base, offsets } => {
            law_pack_u32(offsets);
        },
        ArrayModel::U64(values) => {
            law_pack_u64(values);
        },
    }
}

/// An array that a message stands for is valid.
pub proof fn law_array_valid(message: Option<ArrayMessage>)
    ensures
        array_of(message) matches Ok(array) ==> array.valid(),
{
    match message {
        Some(ArrayMessage::U16Array { base, offsets }) => {
            law_checked_array(
                ArrayWidth::U16,
                ArrayModel::U16 { base, offsets: u16_elements(offsets) },
            );
        },
        Some(ArrayMessage::U32Array { base, offsets }) => {
            law_checked_array(
                ArrayWidth::U32,
                ArrayModel::U32 { base, offsets: u32_elements(offsets) },
            );
        },
        _ => {},
    }
}

/// What run bounds are stored as stands for those bounds.
pub proof fn law_run_bounds_round_trip(bound: RunBound, bounds: Seq<u32>)
    ensures
        run_bounds_of(bound, Some(Some(run_bounds_message(bounds)))) == Ok::<Seq<u32>, Corruption>(
            bounds,
        ),
{
    let wide = bounds.map_values(|v: u32| v as u64);
    law_compact(wide);
    law_array_round_trip(compact(wide));
    let values = compact(wide).values();
    assert forall|i: int| 0 <= i < values.len() implies #[trigger] values[i] == bounds[i] by {
        assert(values[i] == wide.map_values(|v: u64| v as int)[i]);
    }
    lemma_first_outside(values, 0, 0x1_0000_0000, 0);
    assert(values.map_values(|v: int| v as u32) =~= bounds);
}

/// The bits of the last byte of a bitmap that the padding mask covers.
proof fn lemma_padding_mask(byte: u8, remainder: int)
    requires
        0 < remainder < 8,
    ensures
        byte & padding_mask(remainder) == 0 <==> forall|j: int|
            remainder <= j < 8 ==> !(#[trigger] bit_of(byte, j)),
{
    let r = remainder as u8;
    assert(1u8 << (remainder as usize) == 1u8 << r);
    let mask = padding_mask(remainder);
    assert(mask == !(((1u8 << r) - 1) as u8));
    assert(byte & mask == 0 <==> ({
        &&& 1 < r || (byte >> 1u8) & 1u8 != 1u8
        &&& 2 < r || (byte >> 2u8) & 1u8 != 1u8
        &&& 3 < r || (byte >> 3u8) & 1u8 != 1u8
        &&& 4 < r || (byte >> 4u8) & 1u8 != 1u8
        &&& 5 < r || (byte >> 5u8) & 1u8 != 1u8
        &&& 6 < r || (byte >> 6u8) & 1u8 != 1u8
        &&& 7 < r || (byte >> 7u8) & 1u8 != 1u8
    })) by (bit_vector)
        requires
            0 < r < 8,
            mask == !(((1u8 << r) - 1) as u8),
    ;
    if byte & mask == 0 {
        assert forall|j: int| remainder <= j < 8 implies !(#[trigger] bit_of(byte, j)) by {
            assert(j == 1 || j == 2 || j == 3 || j == 4 || j == 5 || j == 6 || j == 7);
        }
    }
    if forall|j: int| remainder <= j < 8 ==> !(#[trigger] bit_of(byte, j)) {
        assert(1 < r || !bit_of(byte, 1));
        assert(2 < r || !bit_of(byte, 2));
        assert(3 < r || !bit_of(byte, 3));
        assert(4 < r || !bit_of(byte, 4));
        assert(5 < r || !bit_of(byte, 5));
        assert(6 < r || !bit_of(byte, 6));
        assert(7 < r || !bit_of(byte, 7));
    }
}

/// The bytes of a bitmap are accepted exactly when they are what the bits are packed into.
pub proof fn law_bitmap_accepted(start: u64, end: u64, bitmap: Seq<u8>)
    requires
        range_valid(start, end),
    ensures
        bitmap_fault(start, end, bitmap) is None <==> packs(
            bitmap,
            bits_of(bitmap, (end - start) as nat),
        ),
{
    let len = end - start;
    let bits = bits_of(bitmap, len as nat);
    let last = packed_len(len as nat) - 1;
    if bitmap.len() == packed_len(len as nat) {
        if len % 8 != 0 {
            lemma_padding_mask(bitmap[last], len % 8);
        }
        if bitmap_fault(start, end, bitmap) is None {
            assert forall|i: int| 0 <= i < 8 * bitmap.len() implies #[trigger] bit_of(
                bitmap[i / 8],
                i % 8,
            ) == (i < bits.len() && bits[i]) by {
                if i >= len {
                    assert(i / 8 == last);
                    assert(len % 8 <= i % 8 < 8);
                    assert(!bit_of(bitmap[last], i % 8));
                }
            }
        }
        if packs(bitmap, bits) && len % 8 != 0 {
            assert forall|j: int| len % 8 <= j < 8 implies !(#[trigger] bit_of(bitmap[last], j)) by {
                let i = 8 * last + j;
                assert(i / 8 == last && i % 8 == j);
                assert(bit_of(bitmap[i / 8], i % 8) == (i < bits.len() && bits[i]));
            }
        }
    }
}

/// What a segment is stored as stands for that segment.
pub proof fn law_segment_round_trip(segment: SegmentModel)
    requires
        segment.valid(),
    ensures
        segment_of(Some(segment_message(segment))) == Ok::<SegmentModel, Corruption>(segment),
{
    match segment {
        SegmentModel::Range { start, end } => {},
        SegmentModel::RangeWithHoles { start, end, holes } => {
            law_array_round_trip(holes);
            law_ordered(holes.values(), true);
            lemma_first_outside(holes.values(), start as int, end as int, 0);
        },
        SegmentModel::RangeWithRuns { start, end, runs } => {
            law_run_bounds_round_trip(RunBound::Starts, runs.starts);
            law_run_bounds_round_trip(RunBound::Ends, runs.ends);
            law_accepted_runs(runs.span, runs.starts, runs.ends);
        },
        SegmentModel::RangeWithBitmap { start, end, bits } => {
            law_packing_unique(pack(bits), bits);
            assert forall|i: int| 0 <= i < bits.len() implies bits_of(pack(bits), bits.len())[i]
                == bits[i] by {
                assert(bit_of(pack(bits)[i / 8], i % 8) == (i < bits.len() && bits[i]));
            }
            assert(bits_of(pack(bits), bits.len()) =~= bits);
            law_bitmap_accepted(start, end, pack(bits));
        },
        SegmentModel::SortedArray(array) => {
            law_array_round_trip(array);
            law_ordered(array.stored(), false);
        },
        SegmentModel::Array(array) => {
            law_array_round_trip(array);
        },
    }
}

/// A segment that a message stands for is valid.
pub proof fn law_segment_valid(message: Option<SegmentMessage>)
    ensures
        segment_of(message) matches Ok(segment) ==> segment.valid(),
{
    match message {
        Some(SegmentMessage::RangeWithHoles { start, end, holes }) => {
            if let Some(array) = holes {
                law_array_valid(array);
                if let Ok(holes) = array_of(array) {
                    law_ordered(holes.values(), true);
                    lemma_first_outside(holes.values(), start as int, end as int, 0);
                }
            }
        },
        Some(SegmentMessage::RangeWithRuns { start, end, hole_starts, hole_ends }) => {
            if let (Ok(starts), Ok(ends)) = (
                run_bounds_of(RunBound::Starts, hole_starts),
                run_bounds_of(RunBound::Ends, hole_ends),
            ) {
                law_accepted_runs((end - start) as u32, starts, ends);
            }
        },
        Some(SegmentMessage::SortedArray(array)) => {
            law_array_valid(array);
            if let Ok(array) = array_of(array) {
                law_ordered(array.stored(), false);
            }
        },
        Some(SegmentMessage::Array(array)) => {
            law_array_valid(array);
        },
        _ => {},
    }
}

proof fn lemma_segments_round_trip(segments: Seq<SegmentModel>)
    requires
        forall|i: int| 0 <= i < segments.len() ==> (#[trigger] segments[i]).valid(),
    ensures
        segments_of(sequence_message(segments)) == Ok::<Seq<SegmentModel>, Corruption>(segments),
    decreases segments.len(),
{
    let messages = sequence_message(segments);
    if segments.len() > 0 {
        let rest = segments.drop_last();
        assert forall|i: int| 0 <= i < rest.len() implies (#[trigger] rest[i]).valid() by {
            assert(segments[i].valid());
        }
        lemma_segments_round_trip(rest);
        assert(messages.drop_last() =~= sequence_message(rest));
        assert(segments[segments.len() - 1].valid());
        law_segment_round_trip(segments.last());
        assert(rest.push(segments.last()) =~= segments);
    } else {
        assert(segments =~= Seq::empty());
    }
}

/// What a sequence is stored as stands for that sequence.
pub proof fn law_sequence_round_trip(segments: Seq<SegmentModel>)
    requires
        sequence_valid(segments),
    ensures
        sequence_of(sequence_message(segments)) == Ok::<Seq<SegmentModel>, Corruption>(segments),
{
    lemma_segments_round_trip(segments);
}

/// A message that stands for no segment decides what comes of all messages.
pub(crate) proof fn lemma_segments_fault(messages: Seq<Option<SegmentMessage>>, n: int)
    requires
        0 <= n <= messages.len(),
        segments_of(messages.take(n)) is Err,
    ensures
        segments_of(messages) == segments_of(messages.take(n)),
    decreases messages.len(),
{
    if n == messages.len() {
        assert(messages.take(n) =~= messages);
    } else {
        assert(messages.drop_last().take(n) =~= messages.take(n));
        lemma_segments_fault(messages.drop_last(), n);
    }
}

proof fn lemma_segments_valid(messages: Seq<Option<SegmentMessage>>)
    ensures
        segments_of(messages) matches Ok(segments) ==> segments.len() == messages.len() && (
        forall|i: int| 0 <= i < segments.len() ==> (#[trigger] segments[i]).valid()),
    decreases messages.len(),
{
    if messages.len() > 0 {
        lemma_segments_valid(messages.drop_last());
        law_segment_valid(messages.last());
    }
}

/// A sequence that a message stands for is valid, so that its length is well defined, and has a
/// segment for each message.
pub proof fn law_sequence_valid(messages: Seq<Option<SegmentMessage>>)
    ensures
        sequence_of(messages) matches Ok(segments) ==> sequence_valid(segments) && segments.len()
            == messages.len(),
{
    lemma_segments_valid(messages);
}

/// How a sequence is written.
pub open spec fn stored_bytes(segments: Seq<SegmentModel>) -> Seq<u8> {
    sequence_bytes(sequence_message(segments))
}

/// The sequence that `bytes` hold, or what is wrong with it; `None` if they are no message at all.
pub open spec fn stored_sequence(bytes: Seq<u8>) -> Option<Result<Seq<SegmentModel>, Corruption>> {
    match read_sequence(bytes) {
        Ok(messages) => Some(sequence_of(messages)),
        Err(fault) => None,
    }
}

/// A sequence is read back as it was written.
pub proof fn law_read_what_was_written(segments: Seq<SegmentModel>)
    requires
        sequence_valid(segments),
        stored_bytes(segments).len() <= u64::MAX,
    ensures
        stored_sequence(stored_bytes(segments)) == Some(
            Ok::<Seq<SegmentModel>, Corruption>(segments),
        ),
{
    law_sequence_message_round_trip(sequence_message(segments));
    law_sequence_round_trip(segments);
}

/// Different sequences are written differently.
pub proof fn law_written_unique(a: Seq<SegmentModel>, b: Seq<SegmentModel>)
    requires
        sequence_valid(a),
        sequence_valid(b),
        stored_bytes(a).len() <= u64::MAX,
        stored_bytes(a) == stored_bytes(b),
    ensures
        a == b,
{
    law_read_what_was_written(a);
    law_read_what_was_written(b);
}

/// A sequence that was read is valid, and is read again when it is written.
pub proof fn law_read_can_be_written(bytes: Seq<u8>)
    ensures
        stored_sequence(bytes) matches Some(Ok(segments)) ==> sequence_valid(segments) && (
        stored_bytes(segments).len() <= u64::MAX ==> stored_sequence(stored_bytes(segments))
            == stored_sequence(bytes)),
{
    if let Ok(messages) = read_sequence(bytes) {
        law_sequence_valid(messages);
        if let Ok(segments) = sequence_of(messages) {
            if stored_bytes(segments).len() <= u64::MAX {
                law_read_what_was_written(segments);
            }
        }
    }
}

} // verus!
