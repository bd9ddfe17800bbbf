//! Storing row ID sequences as messages, and reading them back.

pub mod laws;
pub mod model;

use crate::bitmap::{byte_count, law_packing_unique, Bitmap};
use crate::buffer;
use crate::buffer::contents;
use crate::encoded_array::{first_fall, max_of, EncodedU64Array};
use crate::error::{
    corrupt, corrupt_row_id_metadata, ArrayWidth, Corruption, Error, RangeKind, RunBound,
    ROW_ID_METADATA,
};
use crate::packed::{
    to_bytes_u16, to_bytes_u32, to_bytes_u64, unpack_u16, unpack_u32, unpack_u64,
};
use crate::pb;
use crate::pb::decode::read_sequence;
use crate::pb::encoded_u64_array as pb_arr;
use crate::pb::u64_segment as pb_seg;
use crate::pb::u64_segment::optional_array;
use crate::runs::HoleRuns;
use crate::segment::{
    law_segment_len, segment_models, sequence_valid, total_len, RowIdSequence, SegmentModel,
    U64Segment,
};
use crate::wire::WireError;
use bytes::Bytes;
use model::{
    array_message, array_of, bitmap_fault, checked_array, first_outside, holes_of, law_array_valid,
    law_bitmap_accepted, law_read_what_was_written, law_segment_valid, law_sequence_valid,
    lemma_first_outside, lemma_segments_fault, packed_length_fault, padding_mask, range_fault,
    reads_as, run_bounds_message, run_bounds_of, run_offsets_of, segment_message, segment_of,
    segments_of, sequence_message, sequence_of, stored_bytes, stored_sequence,
};
use vstd::prelude::*;

verus! {

/// The number of values of a range.
fn validate_range(kind: RangeKind, start: u64, end: u64) -> (result: Result<usize, Error>)
    ensures
        match range_fault(kind, start, end) {
            None => result == Ok::<usize, Error>((end - start) as usize) && result->Ok_0 == end
                - start,
            Some(fault) => result == Err::<usize, Error>(corrupt(fault)),
        },
{
    if start > end {
        return Err(corrupt_row_id_metadata(Corruption::RangeReversed { kind, start, end }));
    }
    let len = end - start;
    if len > usize::MAX as u64 {
        return Err(corrupt_row_id_metadata(Corruption::RangeTooLong { kind, len, start, end }));
    }
    Ok(len as usize)
}

/// Checks that a packed array does not end in the middle of an element.
fn validate_packed_array_length(width: ArrayWidth, byte_len: usize) -> (result: Result<(), Error>)
    ensures
        match packed_length_fault(width, byte_len as nat) {
            None => result is Ok,
            Some(fault) => result == Err::<(), Error>(corrupt(fault)),
        },
{
    if byte_len % width.byte_width() != 0 {
        return Err(
            corrupt_row_id_metadata(Corruption::ArrayMisaligned { width, byte_len }),
        );
    }
    Ok(())
}

/// The first index at which the stored values fall, with the two values.
fn first_descending_pair(array: &EncodedU64Array) -> (pair: Option<(usize, u64, u64)>)
    ensures
        match (first_fall(array@.stored(), false, 0), pair) {
            (Some(i), Some((index, previous, next))) => index == i && previous
                == array@.stored()[i] && next == array@.stored()[i + 1],
            (None, None) => true,
            _ => false,
        },
{
    let n = array.len();
    let mut i: usize = 1;
    while i < n
        invariant
            1 <= i,
            n == array@.len(),
            n > 0 ==> i <= n,
            first_fall(array@.stored(), false, 0) == first_fall(array@.stored(), false, i - 1),
        decreases n - i,
    {
        let previous = array.stored(i - 1);
        let next = array.stored(i);
        if previous > next {
            return Some((i - 1, previous, next));
        }
        i = i + 1;
    }
    None
}

/// The first index at which the values do not rise, with the two values.
fn first_non_increasing_pair(array: &EncodedU64Array) -> (pair: Option<(usize, u64, u64)>)
    requires
        array@.valid(),
    ensures
        match (first_fall(array@.values(), true, 0), pair) {
            (Some(i), Some((index, previous, next))) => index == i && previous
                == array@.values()[i] && next == array@.values()[i + 1],
            (None, None) => true,
            _ => false,
        },
{
    let n = array.len();
    let mut i: usize = 1;
    while i < n
        invariant
            array@.valid(),
            1 <= i,
            n == array@.len(),
            n > 0 ==> i <= n,
            first_fall(array@.values(), true, 0) == first_fall(array@.values(), true, i - 1),
        decreases n - i,
    {
        let previous = array.value(i - 1);
        let next = array.value(i);
        if previous >= next {
            return Some((i - 1, previous, next));
        }
        i = i + 1;
    }
    None
}

/// The first value that lies outside of `start..end`.
fn first_value_outside(array: &EncodedU64Array, start: u64, end: u64) -> (value: Option<u64>)
    requires
        array@.valid(),
    ensures
        match first_outside(array@.values(), start as int, end as int, 0) {
            Some(i) => value == Some(array@.values()[i] as u64),
            None => value is None,
        },
{
    let n = array.len();
    let mut i: usize = 0;
    while i < n
        invariant
            array@.valid(),
            i <= n == array@.len(),
            first_outside(array@.values(), start as int, end as int, 0) == first_outside(
                array@.values(),
                start as int,
                end as int,
                i as int,
            ),
        decreases n - i,
    {
        let value = array.value(i);
        if value < start || value >= end {
            return Some(value);
        }
        i = i + 1;
    }
    None
}

/// The values of an array of run bounds as `u32`, rejecting any that do not fit.
fn run_offsets(bound: RunBound, array: EncodedU64Array) -> (result: Result<Vec<u32>, Error>)
    requires
        array@.valid(),
    ensures
        reads_as(result, run_offsets_of(bound, array@)),
{
    let ghost values = array@.values();
    if let EncodedU64Array::U32 { base: 0, offsets } = array {
        proof {
            lemma_first_outside(values, 0, 0x1_0000_0000, 0);
            assert(offsets@ =~= values.map_values(|v: int| v as u32));
        }
        return Ok(offsets);
    }
    let n = array.len();
    let mut offsets: Vec<u32> = Vec::with_capacity(n);
    let mut i: usize = 0;
    while i < n
        invariant
            array@.valid(),
            i <= n == array@.len(),
            values == array@.values(),
            first_outside(values, 0, 0x1_0000_0000, 0) == first_outside(
                values,
                0,
                0x1_0000_0000,
                i as int,
            ),
            offsets@ == values.map_values(|v: int| v as u32).take(i as int),
        decreases n - i,
    {
        let offset = array.value(i);
        if offset > u32::MAX as u64 {
            return Err(corrupt_row_id_metadata(Corruption::RunOffsetTooWide { bound, offset }));
        }
        offsets.push(offset as u32);
        i = i + 1;
        assert(offsets@ =~= values.map_values(|v: int| v as u32).take(i as int));
    }
    assert(offsets@ =~= values.map_values(|v: int| v as u32));
    Ok(offsets)
}

/// The largest stored value, or zero.
fn max_stored(array: &EncodedU64Array) -> (max: u64)
    ensures
        max == max_of(array@.stored()),
{
    let n = array.len();
    let ghost stored = array@.stored();
    let mut max: u64 = 0;
    let mut i: usize = 0;
    while i < n
        invariant
            i <= n == array@.len(),
            stored == array@.stored(),
            max == max_of(stored.take(i as int)),
        decreases n - i,
    {
        let value = array.stored(i);
        assert(stored.take(i + 1).drop_last() =~= stored.take(i as int));
        if i == 0 || max < value {
            max = value;
        }
        i = i + 1;
    }
    assert(stored.take(n as int) =~= stored);
    max
}

/// Checks that every value of an array of offsets from `base` fits in 64 bits.
fn check_values(width: ArrayWidth, base: u64, array: EncodedU64Array) -> (result: Result<
    EncodedU64Array,
    Error,
>)
    requires
        base == array@.base(),
    ensures
        reads_as(result, checked_array(width, array@)),
{
    let max_offset = max_stored(&array);
    if base.checked_add(max_offset).is_none() {
        return Err(
            corrupt_row_id_metadata(Corruption::ArrayOverflow { width, base, max_offset }),
        );
    }
    Ok(array)
}

impl TryFrom<pb::EncodedU64Array> for EncodedU64Array {
    type Error = Error;

    fn try_from(pb: pb::EncodedU64Array) -> (result: Result<Self, Error>)
        ensures
            reads_as(result, array_of(pb@)),
    {
        match pb.array {
            Some(pb_arr::Array::U16Array(pb_arr::U16Array { base, offsets })) => {
                validate_packed_array_length(ArrayWidth::U16, offsets.len())?;
                let offsets = unpack_u16(offsets.as_slice());
                check_values(ArrayWidth::U16, base, Self::U16 { base, offsets })
            },
            Some(pb_arr::Array::U32Array(pb_arr::U32Array { base, offsets })) => {
                validate_packed_array_length(ArrayWidth::U32, offsets.len())?;
                let offsets = unpack_u32(offsets.as_slice());
                check_values(ArrayWidth::U32, base, Self::U32 { base, offsets })
            },
            Some(pb_arr::Array::U64Array(pb_arr::U64Array { values })) => {
                validate_packed_array_length(ArrayWidth::U64, values.len())?;
                Ok(Self::U64(unpack_u64(values.as_slice())))
            },
            None => Err(corrupt_row_id_metadata(Corruption::ArrayTypeMissing)),
        }
    }
}

impl vstd::std_specs::convert::TryFromSpecImpl<pb::EncodedU64Array> for EncodedU64Array {
    open spec fn obeys_try_from_spec() -> bool {
        false
    }

    open spec fn try_from_spec(pb: pb::EncodedU64Array) -> Result<Self, Error> {
        arbitrary()
    }
}

impl From<EncodedU64Array> for pb::EncodedU64Array {
    fn from(array: EncodedU64Array) -> (pb: Self)
        ensures
            pb@ == Some(array_message(array@)),
    {
        match array {
            EncodedU64Array::U16 { base, offsets } => Self {
                array: Some(
                    pb_arr::Array::U16Array(
                        pb_arr::U16Array { base, offsets: to_bytes_u16(offsets.as_slice()) },
                    ),
                ),
            },
            EncodedU64Array::U32 { base, offsets } => Self {
                array: Some(
                    pb_arr::Array::U32Array(
                        pb_arr::U32Array { base, offsets: to_bytes_u32(offsets.as_slice()) },
                    ),
                ),
            },
            EncodedU64Array::U64(values) => Self {
                array: Some(
                    pb_arr::Array::U64Array(
                        pb_arr::U64Array { values: to_bytes_u64(values.as_slice()) },
                    ),
                ),
            },
        }
    }
}

impl vstd::std_specs::convert::FromSpecImpl<EncodedU64Array> for pb::EncodedU64Array {
    open spec fn obeys_from_spec() -> bool {
        false
    }

    open spec fn from_spec(array: EncodedU64Array) -> Self {
        arbitrary()
    }
}

/// The holes of a range, which must be there, in strictly increasing order and within the range.
fn decode_holes(start: u64, end: u64, holes: Option<pb::EncodedU64Array>) -> (result: Result<
    EncodedU64Array,
    Error,
>)
    ensures
        reads_as(result, holes_of(start, end, optional_array(holes))),
{
    let holes = match holes {
        Some(holes) => holes,
        None => return Err(corrupt_row_id_metadata(Corruption::HolesMissing)),
    };
    proof {
        law_array_valid(holes@);
    }
    let holes = EncodedU64Array::try_from(holes)?;
    if let Some((index, previous, next)) = first_non_increasing_pair(&holes) {
        return Err(
            corrupt_row_id_metadata(Corruption::HolesNotIncreasing { index, previous, next }),
        );
    }
    if let Some(hole) = first_value_outside(&holes, start, end) {
        return Err(corrupt_row_id_metadata(Corruption::HoleOutside { hole, start, end }));
    }
    Ok(holes)
}

/// The run bounds that a message holds, which must be there.
fn decode_offsets(bound: RunBound, array: Option<pb::EncodedU64Array>) -> (result: Result<
    Vec<u32>,
    Error,
>)
    ensures
        reads_as(result, run_bounds_of(bound, optional_array(array))),
{
    let array = match array {
        Some(array) => array,
        None => return Err(corrupt_row_id_metadata(Corruption::RunBoundMissing { bound })),
    };
    proof {
        law_array_valid(array@);
    }
    run_offsets(bound, EncodedU64Array::try_from(array)?)
}

/// The run bounds as a message.
fn encode_offsets(values: &[u32]) -> (array: pb::EncodedU64Array)
    ensures
        array@ == Some(run_bounds_message(values@)),
{
    let ghost wide_values = values@.map_values(|v: u32| v as u64);
    let mut wide: Vec<u64> = Vec::with_capacity(values.len());
    let mut i: usize = 0;
    while i < values.len()
        invariant
            i <= values@.len(),
            wide_values == values@.map_values(|v: u32| v as u64),
            wide@ == wide_values.take(i as int),
        decreases values@.len() - i,
    {
        wide.push(values[i] as u64);
        i = i + 1;
        assert(wide@ =~= wide_values.take(i as int));
    }
    assert(wide@ =~= wide_values);
    pb::EncodedU64Array::from(EncodedU64Array::from(wide))
}

/// The mask of the bits of a byte from `remainder` on.
fn high_bits(remainder: usize) -> (mask: u8)
    requires
        0 < remainder < 8,
    ensures
        mask == padding_mask(remainder as int),
{
    assert((1u8 << remainder) >= 1) by (bit_vector)
        requires
            remainder < 8,
    ;
    !((1u8 << remainder) - 1)
}

/// Checks that a bitmap has a bit for each of the `len` values of a range, and no other bit set.
fn validate_bitmap(start: u64, end: u64, len: usize, bitmap: &Bytes) -> (result: Result<
    (),
    Error,
>)
    requires
        end - start == len,
    ensures
        match bitmap_fault(start, end, contents(*bitmap)) {
            None => result is Ok,
            Some(fault) => result == Err::<(), Error>(corrupt(fault)),
        },
{
    let expected = byte_count(len);
    let actual = buffer::len(bitmap);
    if actual != expected {
        return Err(
            corrupt_row_id_metadata(Corruption::BitmapLength { actual, expected, start, end, len }),
        );
    }
    let remainder = len % 8;
    if remainder != 0 {
        let mask = high_bits(remainder);
        let last_byte = buffer::as_slice(bitmap)[expected - 1];
        if last_byte & mask != 0 {
            return Err(
                corrupt_row_id_metadata(
                    Corruption::BitmapPadding { start, end, len, last_byte, mask },
                ),
            );
        }
    }
    Ok(())
}

impl TryFrom<pb::U64Segment> for U64Segment {
    type Error = Error;

    fn try_from(pb: pb::U64Segment) -> (result: Result<Self, Error>)
        ensures
            reads_as(result, segment_of(pb@)),
            result matches Ok(segment) ==> segment@.valid(),
    {
        proof {
            law_segment_valid(pb@);
        }
        match pb.segment {
            Some(pb_seg::Segment::Range(pb_seg::Range { start, end })) => {
                validate_range(RangeKind::Range, start, end)?;
                Ok(Self::Range(start..end))
            },
            Some(pb_seg::Segment::RangeWithHoles(pb_seg::RangeWithHoles { start, end, holes })) => {
                validate_range(RangeKind::RangeWithHoles, start, end)?;
                let holes = decode_holes(start, end, holes)?;
                Ok(Self::RangeWithHoles { range: start..end, holes })
            },
            Some(
                pb_seg::Segment::RangeWithRuns(
                    pb_seg::RangeWithRuns { start, end, hole_starts, hole_ends },
                ),
            ) => {
                let len = validate_range(RangeKind::RangeWithRuns, start, end)?;
                if len as u64 > u32::MAX as u64 {
                    return Err(
                        corrupt_row_id_metadata(
                            Corruption::RunSpanTooWide { span: len, start, end },
                        ),
                    );
                }
                let starts = decode_offsets(RunBound::Starts, hole_starts)?;
                let ends = decode_offsets(RunBound::Ends, hole_ends)?;
                let runs = HoleRuns::try_new(len as u32, starts, ends)?;
                Ok(Self::RangeWithRuns { range: start..end, runs })
            },
            Some(
                pb_seg::Segment::RangeWithBitmap(pb_seg::RangeWithBitmap { start, end, bitmap }),
            ) => {
                let len = validate_range(RangeKind::RangeWithBitmap, start, end)?;
                validate_bitmap(start, end, len, &bitmap)?;
                proof {
                    law_bitmap_accepted(start, end, contents(bitmap));
                }
                Ok(
                    Self::RangeWithBitmap {
                        range: start..end,
                        bitmap: Bitmap::from_parts(bitmap, len),
                    },
                )
            },
            Some(pb_seg::Segment::SortedArray(array)) => {
                let array = EncodedU64Array::try_from(array)?;
                if let Some((index, previous, next)) = first_descending_pair(&array) {
                    return Err(
                        corrupt_row_id_metadata(Corruption::NotSorted { index, previous, next }),
                    );
                }
                Ok(Self::SortedArray(array))
            },
            Some(pb_seg::Segment::Array(array)) => {
                Ok(Self::Array(EncodedU64Array::try_from(array)?))
            },
            None => Err(corrupt_row_id_metadata(Corruption::SegmentTypeMissing)),
        }
    }
}

impl vstd::std_specs::convert::TryFromSpecImpl<pb::U64Segment> for U64Segment {
    open spec fn obeys_try_from_spec() -> bool {
        false
    }

    open spec fn try_from_spec(pb: pb::U64Segment) -> Result<Self, Error> {
        arbitrary()
    }
}

impl From<U64Segment> for pb::U64Segment {
    fn from(segment: U64Segment) -> (pb: Self)
        ensures
            pb@ == Some(segment_message(segment@)),
    {
        let segment = match segment {
            U64Segment::Range(range) => pb_seg::Segment::Range(
                pb_seg::Range { start: range.start, end: range.end },
            ),
            U64Segment::RangeWithHoles { range, holes } => pb_seg::Segment::RangeWithHoles(
                pb_seg::RangeWithHoles {
                    start: range.start,
                    end: range.end,
                    holes: Some(pb::EncodedU64Array::from(holes)),
                },
            ),
            U64Segment::RangeWithBitmap { range, bitmap } => {
                let ghost bits = bitmap@;
                let bitmap = bitmap.into_bytes();
                proof {
                    law_packing_unique(contents(bitmap), bits);
                }
                pb_seg::Segment::RangeWithBitmap(
                    pb_seg::RangeWithBitmap { start: range.start, end: range.end, bitmap },
                )
            },
            U64Segment::RangeWithRuns { range, runs } => pb_seg::Segment::RangeWithRuns(
                pb_seg::RangeWithRuns {
                    start: range.start,
                    end: range.end,
                    hole_starts: Some(encode_offsets(runs.starts())),
                    hole_ends: Some(encode_offsets(runs.ends())),
                },
            ),
            U64Segment::SortedArray(array) => pb_seg::Segment::SortedArray(
                pb::EncodedU64Array::from(array),
            ),
            U64Segment::Array(array) => pb_seg::Segment::Array(pb::EncodedU64Array::from(array)),
        };
        Self { segment: Some(segment) }
    }
}

impl vstd::std_specs::convert::FromSpecImpl<U64Segment> for pb::U64Segment {
    open spec fn obeys_from_spec() -> bool {
        false
    }

    open spec fn from_spec(segment: U64Segment) -> Self {
        arbitrary()
    }
}

impl TryFrom<pb::RowIdSequence> for RowIdSequence {
    type Error = Error;

    fn try_from(pb: pb::RowIdSequence) -> (result: Result<Self, Error>)
        ensures
            reads_as(result, sequence_of(pb@)),
            result matches Ok(sequence) ==> sequence_valid(sequence@),
    {
        let ghost messages = pb@;
        let mut segments: Vec<U64Segment> = Vec::with_capacity(pb.segments.len());
        let mut total: Option<u64> = Some(0);
        assert(segment_models(segments@) =~= Seq::empty());
        for segment in iter: pb.segments.into_iter()
            invariant
                messages == iter.seq().map_values(|segment: pb::U64Segment| segment@),
                segments_of(messages.take(iter.index() as int)) == Ok::<
                    Seq<SegmentModel>,
                    Corruption,
                >(segment_models(segments@)),
                forall|i: int| 0 <= i < segments@.len() ==> (#[trigger] segments@[i])@.valid(),
                match total {
                    Some(total) => total == total_len(segment_models(segments@)),
                    None => total_len(segment_models(segments@)) > u64::MAX,
                },
        {
            let ghost n = iter.index() as int;
            proof {
                assert(messages.take(n + 1).drop_last() =~= messages.take(n));
                assert(messages.take(n + 1).last() == segment@);
                if segment_of(segment@) is Err {
                    lemma_segments_fault(messages, n + 1);
                }
            }
            let ghost before = segments@;
            let segment = U64Segment::try_from(segment)?;
            let len = segment.len();
            total = match total {
                Some(total) => total.checked_add(len as u64),
                None => None,
            };
            segments.push(segment);
            proof {
                law_segment_len(segment@);
                assert(segment_models(segments@) =~= segment_models(before).push(segment@));
                assert(segment_models(segments@).drop_last() =~= segment_models(before));
            }
        }
        proof {
            assert(messages.take(messages.len() as int) =~= messages);
            law_sequence_valid(messages);
        }
        if total.is_none() {
            return Err(
                corrupt_row_id_metadata(Corruption::SequenceTooLong { segments: segments.len() }),
            );
        }
        Ok(Self(segments))
    }
}

impl vstd::std_specs::convert::TryFromSpecImpl<pb::RowIdSequence> for RowIdSequence {
    open spec fn obeys_try_from_spec() -> bool {
        false
    }

    open spec fn try_from_spec(pb: pb::RowIdSequence) -> Result<Self, Error> {
        arbitrary()
    }
}

impl From<RowIdSequence> for pb::RowIdSequence {
    fn from(sequence: RowIdSequence) -> (pb: Self)
        ensures
            pb@ == sequence_message(sequence@),
    {
        let ghost messages = sequence_message(sequence@);
        let mut segments: Vec<pb::U64Segment> = Vec::with_capacity(sequence.0.len());
        for segment in iter: sequence.0.into_iter()
            invariant
                messages == sequence_message(segment_models(iter.seq())),
                segments@.map_values(|segment: pb::U64Segment| segment@) == messages.take(
                    iter.index() as int,
                ),
        {
            let ghost n = iter.index() as int;
            let ghost before = segments@;
            let message = pb::U64Segment::from(segment);
            segments.push(message);
            proof {
                assert(messages[n] == message@);
                assert(segments@.map_values(|segment: pb::U64Segment| segment@)
                    =~= before.map_values(|segment: pb::U64Segment| segment@).push(message@));
                assert(messages.take(n + 1) =~= messages.take(n).push(messages[n]));
            }
        }
        assert(messages.take(messages.len() as int) =~= messages);
        Self { segments }
    }
}

impl vstd::std_specs::convert::FromSpecImpl<RowIdSequence> for pb::RowIdSequence {
    open spec fn obeys_from_spec() -> bool {
        false
    }

    open spec fn from_spec(sequence: RowIdSequence) -> Self {
        arbitrary()
    }
}

/// Serialize a rowid sequence to a buffer.
pub fn write_row_ids(sequence: &RowIdSequence) -> (bytes: Vec<u8>)
    ensures
        bytes@ == stored_bytes(sequence@),
        sequence_valid(sequence@) ==> stored_sequence(bytes@) == Some(
            Ok::<Seq<SegmentModel>, Corruption>(sequence@),
        ),
{
    let message = pb::RowIdSequence::from(sequence.clone());
    let bytes = message.encode_to_vec();
    let len = bytes.len();
    proof {
        assert(len == stored_bytes(sequence@).len());
        if sequence_valid(sequence@) {
            law_read_what_was_written(sequence@);
        }
    }
    bytes
}

/// Reports bytes that are not an encoded sequence.
pub fn undecodable(error: &WireError) -> (reported: Error)
    ensures
        reported matches Error::CorruptFile { name, reason: Corruption::Undecodable { detail } }
            && name == ROW_ID_METADATA && detail@ == error.fault().text(),
{
    corrupt_row_id_metadata(Corruption::Undecodable { detail: error.describe() })
}

/// Deserialize a rowid sequence from some bytes. Bitmap segments share the memory of the bytes.
pub fn read_row_ids(reader: Bytes) -> (result: Result<RowIdSequence, Error>)
    ensures
        match read_sequence(contents(reader)) {
            Ok(messages) => reads_as(result, sequence_of(messages)),
            Err(fault) => result matches Err(
                Error::CorruptFile { name, reason: Corruption::Undecodable { detail } },
            ) && name == ROW_ID_METADATA && detail@ == fault.text(),
        },
        result matches Ok(sequence) ==> sequence_valid(sequence@) && stored_sequence(
            contents(reader),
        ) == Some(Ok::<Seq<SegmentModel>, Corruption>(sequence@)),
{
    let message = match pb::RowIdSequence::decode(reader) {
        Ok(message) => message,
        Err(error) => return Err(undecodable(&error)),
    };
    RowIdSequence::try_from(message)
}

} // verus!
