//! Which fields each message knows, and what each field adds to it.
//!
//! An array and a segment have one of several encodings, each a field of its own. A second field
//! with the same encoding adds to the first, and one with another encoding takes its place.

use super::encoded_u64_array::{Array, ArrayMessage, U16Array, U32Array, U64Array};
use super::merge::{
    after_fields, after_nested, law_nested_advances, merge_fields, merge_nested, Message,
};
use super::u64_segment::{
    optional_array, Range, RangeWithBitmap, RangeWithHoles, RangeWithRuns, Segment, SegmentMessage,
};
use super::{EncodedU64Array, RowIdSequence, U64Segment};
use crate::buffer;
use crate::buffer::contents;
use crate::wire::{
    field_payload_at, in_field, law_value_advances, located, number_at, read_number, read_payload,
    skip_unknown, skipped, Fault, WireError, THIRTY_TWO_BIT,
};
use bytes::Bytes;
use vstd::prelude::*;

verus! {

/// How deep messages and groups may lie within each other.
pub const NESTING_LIMIT: u32 = 100;

/// The message as it was, after a field that it does not know.
pub open spec fn after_unknown<T>(
    message: T,
    tag: u32,
    wire: u64,
    bytes: Seq<u8>,
    room: nat,
) -> Result<(T, Seq<u8>), Fault> {
    match skipped(tag, wire, bytes, room) {
        Ok(rest) => Ok((message, rest)),
        Err(fault) => Err(fault),
    }
}

/// The base and the offsets of an array after a field.
pub open spec fn after_offsets_field(
    name: Seq<char>,
    message: (u64, Seq<u8>),
    tag: u32,
    wire: u64,
    bytes: Seq<u8>,
    room: nat,
) -> Result<((u64, Seq<u8>), Seq<u8>), Fault> {
    if tag == 1 {
        match located(number_at(wire, bytes), name, "base"@) {
            Ok((base, rest)) => Ok(((base, message.1), rest)),
            Err(fault) => Err(fault),
        }
    } else if tag == 2 {
        match located(field_payload_at(wire, bytes), name, "offsets"@) {
            Ok((offsets, rest)) => Ok(((message.0, offsets), rest)),
            Err(fault) => Err(fault),
        }
    } else {
        after_unknown(message, tag, wire, bytes, room)
    }
}

/// Adds a field to the base and the offsets of an array.
fn merge_offsets_field(
    name: &'static str,
    base: u64,
    offsets: Vec<u8>,
    tag: u32,
    wire: u64,
    buf: &mut Bytes,
    room: u32,
) -> (result: Result<(u64, Vec<u8>), WireError>)
    requires
        wire <= THIRTY_TWO_BIT,
    ensures
        match after_offsets_field(
            name@,
            (base, offsets@),
            tag,
            wire,
            contents(*old(buf)),
            room as nat,
        ) {
            Ok((message, rest)) => result matches Ok(read) && (read.0, read.1@) == message
                && contents(*final(buf)) == rest,
            Err(fault) => result matches Err(error) && error.fault() == fault,
        },
{
    if tag == 1 {
        let base = in_field(read_number(wire, buf), name, "base")?;
        Ok((base, offsets))
    } else if tag == 2 {
        let offsets = in_field(read_payload(wire, buf), name, "offsets")?;
        Ok((base, buffer::into_vec(offsets)))
    } else {
        skip_unknown(tag, wire, buf, room)?;
        Ok((base, offsets))
    }
}

/// A bound of a range after its field, which has the first or the second tag.
pub open spec fn after_bound_field(
    name: Seq<char>,
    bounds: (u64, u64),
    tag: u32,
    wire: u64,
    bytes: Seq<u8>,
) -> Result<((u64, u64), Seq<u8>), Fault> {
    if tag == 1 {
        match located(number_at(wire, bytes), name, "start"@) {
            Ok((start, rest)) => Ok(((start, bounds.1), rest)),
            Err(fault) => Err(fault),
        }
    } else {
        match located(number_at(wire, bytes), name, "end"@) {
            Ok((end, rest)) => Ok(((bounds.0, end), rest)),
            Err(fault) => Err(fault),
        }
    }
}

/// Adds a bound of a range.
fn merge_bound_field(
    name: &'static str,
    bounds: (u64, u64),
    tag: u32,
    wire: u64,
    buf: &mut Bytes,
) -> (result: Result<(u64, u64), WireError>)
    requires
        wire <= THIRTY_TWO_BIT,
    ensures
        match after_bound_field(name@, bounds, tag, wire, contents(*old(buf))) {
            Ok((message, rest)) => result matches Ok(read) && read == message && contents(
                *final(buf),
            ) == rest,
            Err(fault) => result matches Err(error) && error.fault() == fault,
        },
{
    if tag == 1 {
        Ok((in_field(read_number(wire, buf), name, "start")?, bounds.1))
    } else {
        Ok((bounds.0, in_field(read_number(wire, buf), name, "end")?))
    }
}

/// An array message that may be absent, after its field.
pub open spec fn after_array_field(
    name: Seq<char>,
    field: Seq<char>,
    message: Option<Option<ArrayMessage>>,
    wire: u64,
    bytes: Seq<u8>,
    room: nat,
) -> Result<(Option<Option<ArrayMessage>>, Seq<u8>), Fault> {
    let array = match message {
        Some(array) => array,
        None => None,
    };
    match located(after_nested::<EncodedU64Array>(array, wire, bytes, room), name, field) {
        Ok((array, rest)) => Ok((Some(array), rest)),
        Err(fault) => Err(fault),
    }
}

/// Adds to an array message that may be absent.
fn merge_array_field(
    name: &'static str,
    field: &'static str,
    array: Option<EncodedU64Array>,
    wire: u64,
    buf: &mut Bytes,
    room: u32,
) -> (result: Result<Option<EncodedU64Array>, WireError>)
    requires
        wire <= THIRTY_TWO_BIT,
    ensures
        match after_array_field(
            name@,
            field@,
            optional_array(array),
            wire,
            contents(*old(buf)),
            room as nat,
        ) {
            Ok((message, rest)) => result matches Ok(read) && optional_array(read) == message
                && contents(*final(buf)) == rest,
            Err(fault) => result matches Err(error) && error.fault() == fault,
        },
{
    let before = match array {
        Some(array) => array,
        None => EncodedU64Array { array: None },
    };
    Ok(Some(in_field(merge_nested(before, wire, buf, room), name, field)?))
}

impl Message for U16Array {
    open spec fn after_field(
        message: (u64, Seq<u8>),
        tag: u32,
        wire: u64,
        bytes: Seq<u8>,
        room: nat,
    ) -> Result<((u64, Seq<u8>), Seq<u8>), Fault> {
        after_offsets_field("U16Array"@, message, tag, wire, bytes, room)
    }

    proof fn law_field_advances(
        message: (u64, Seq<u8>),
        tag: u32,
        wire: u64,
        bytes: Seq<u8>,
        room: nat,
    ) {
        law_value_advances(tag, wire, bytes, room);
    }

    fn merge_field(self, tag: u32, wire: u64, buf: &mut Bytes, room: u32) -> (result: Result<
        Self,
        WireError,
    >) {
        let (base, offsets) = merge_offsets_field(
            "U16Array",
            self.base,
            self.offsets,
            tag,
            wire,
            buf,
            room,
        )?;
        Ok(U16Array { base, offsets })
    }
}

impl Message for U32Array {
    open spec fn after_field(
        message: (u64, Seq<u8>),
        tag: u32,
        wire: u64,
        bytes: Seq<u8>,
        room: nat,
    ) -> Result<((u64, Seq<u8>), Seq<u8>), Fault> {
        after_offsets_field("U32Array"@, message, tag, wire, bytes, room)
    }

    proof fn law_field_advances(
        message: (u64, Seq<u8>),
        tag: u32,
        wire: u64,
        bytes: Seq<u8>,
        room: nat,
    ) {
        law_value_advances(tag, wire, bytes, room);
    }

    fn merge_field(self, tag: u32, wire: u64, buf: &mut Bytes, room: u32) -> (result: Result<
        Self,
        WireError,
    >) {
        let (base, offsets) = merge_offsets_field(
            "U32Array",
            self.base,
            self.offsets,
            tag,
            wire,
            buf,
            room,
        )?;
        Ok(U32Array { base, offsets })
    }
}

impl Message for U64Array {
    open spec fn after_field(
        message: Seq<u8>,
        tag: u32,
        wire: u64,
        bytes: Seq<u8>,
        room: nat,
    ) -> Result<(Seq<u8>, Seq<u8>), Fault> {
        if tag == 2 {
            located(field_payload_at(wire, bytes), "U64Array"@, "values"@)
        } else {
            after_unknown(message, tag, wire, bytes, room)
        }
    }

    proof fn law_field_advances(
        message: Seq<u8>,
        tag: u32,
        wire: u64,
        bytes: Seq<u8>,
        room: nat,
    ) {
        law_value_advances(tag, wire, bytes, room);
    }

    fn merge_field(self, tag: u32, wire: u64, buf: &mut Bytes, room: u32) -> (result: Result<
        Self,
        WireError,
    >) {
        if tag == 2 {
            let values = in_field(read_payload(wire, buf), "U64Array", "values")?;
            Ok(U64Array { values: buffer::into_vec(values) })
        } else {
            skip_unknown(tag, wire, buf, room)?;
            Ok(self)
        }
    }
}

/// An array message after the field of one of its encodings.
pub open spec fn after_encoding(
    array: Option<ArrayMessage>,
    tag: u32,
    wire: u64,
    bytes: Seq<u8>,
    room: nat,
) -> Result<(ArrayMessage, Seq<u8>), Fault> {
    if tag == 1 {
        let before = match array {
            Some(ArrayMessage::U16Array { base, offsets }) => (base, offsets),
            _ => (0u64, Seq::empty()),
        };
        match after_nested::<U16Array>(before, wire, bytes, room) {
            Ok(((base, offsets), rest)) => Ok((ArrayMessage::U16Array { base, offsets }, rest)),
            Err(fault) => Err(fault),
        }
    } else if tag == 2 {
        let before = match array {
            Some(ArrayMessage::U32Array { base, offsets }) => (base, offsets),
            _ => (0u64, Seq::empty()),
        };
        match after_nested::<U32Array>(before, wire, bytes, room) {
            Ok(((base, offsets), rest)) => Ok((ArrayMessage::U32Array { base, offsets }, rest)),
            Err(fault) => Err(fault),
        }
    } else {
        let before = match array {
            Some(ArrayMessage::U64Array { values }) => values,
            _ => Seq::empty(),
        };
        match after_nested::<U64Array>(before, wire, bytes, room) {
            Ok((values, rest)) => Ok((ArrayMessage::U64Array { values }, rest)),
            Err(fault) => Err(fault),
        }
    }
}

/// Adds one of the encodings of an array.
fn merge_encoding(array: EncodedU64Array, tag: u32, wire: u64, buf: &mut Bytes, room: u32) -> (result:
    Result<Array, WireError>)
    requires
        wire <= THIRTY_TWO_BIT,
    ensures
        match after_encoding(array@, tag, wire, contents(*old(buf)), room as nat) {
            Ok((message, rest)) => result matches Ok(read) && read@ == message && contents(
                *final(buf),
            ) == rest,
            Err(fault) => result matches Err(error) && error.fault() == fault,
        },
{
    if tag == 1 {
        let before = match array.array {
            Some(Array::U16Array(array)) => array,
            _ => U16Array { base: 0, offsets: Vec::new() },
        };
        Ok(Array::U16Array(merge_nested(before, wire, buf, room)?))
    } else if tag == 2 {
        let before = match array.array {
            Some(Array::U32Array(array)) => array,
            _ => U32Array { base: 0, offsets: Vec::new() },
        };
        Ok(Array::U32Array(merge_nested(before, wire, buf, room)?))
    } else {
        let before = match array.array {
            Some(Array::U64Array(array)) => array,
            _ => U64Array { values: Vec::new() },
        };
        Ok(Array::U64Array(merge_nested(before, wire, buf, room)?))
    }
}

impl Message for EncodedU64Array {
    open spec fn after_field(
        message: Option<ArrayMessage>,
        tag: u32,
        wire: u64,
        bytes: Seq<u8>,
        room: nat,
    ) -> Result<(Option<ArrayMessage>, Seq<u8>), Fault> {
        if 1 <= tag <= 3 {
            match located(
                after_encoding(message, tag, wire, bytes, room),
                "EncodedU64Array"@,
                "array"@,
            ) {
                Ok((array, rest)) => Ok((Some(array), rest)),
                Err(fault) => Err(fault),
            }
        } else {
            after_unknown(message, tag, wire, bytes, room)
        }
    }

    proof fn law_field_advances(
        message: Option<ArrayMessage>,
        tag: u32,
        wire: u64,
        bytes: Seq<u8>,
        room: nat,
    ) {
        law_value_advances(tag, wire, bytes, room);
        let none = (0u64, Seq::<u8>::empty());
        if tag == 1 {
            let before = match message {
                Some(ArrayMessage::U16Array { base, offsets }) => (base, offsets),
                _ => none,
            };
            law_nested_advances::<U16Array>(before, wire, bytes, room);
        } else if tag == 2 {
            let before = match message {
                Some(ArrayMessage::U32Array { base, offsets }) => (base, offsets),
                _ => none,
            };
            law_nested_advances::<U32Array>(before, wire, bytes, room);
        } else if tag == 3 {
            let before = match message {
                Some(ArrayMessage::U64Array { values }) => values,
                _ => none.1,
            };
            law_nested_advances::<U64Array>(before, wire, bytes, room);
        }
    }

    fn merge_field(self, tag: u32, wire: u64, buf: &mut Bytes, room: u32) -> (result: Result<
        Self,
        WireError,
    >) {
        if 1 <= tag && tag <= 3 {
            let array = in_field(
                merge_encoding(self, tag, wire, buf, room),
                "EncodedU64Array",
                "array",
            )?;
            Ok(EncodedU64Array { array: Some(array) })
        } else {
            skip_unknown(tag, wire, buf, room)?;
            Ok(self)
        }
    }
}

/// Reading an array message never gives back more than there was.
proof fn lemma_array_field_advances(
    name: Seq<char>,
    field: Seq<char>,
    message: Option<Option<ArrayMessage>>,
    wire: u64,
    bytes: Seq<u8>,
    room: nat,
)
    ensures
        after_array_field(name, field, message, wire, bytes, room) matches Ok((read, rest))
            ==> rest.len() <= bytes.len(),
{
    let array = match message {
        Some(array) => array,
        None => None,
    };
    law_nested_advances::<EncodedU64Array>(array, wire, bytes, room);
}

impl Message for Range {
    open spec fn after_field(
        message: (u64, u64),
        tag: u32,
        wire: u64,
        bytes: Seq<u8>,
        room: nat,
    ) -> Result<((u64, u64), Seq<u8>), Fault> {
        if tag == 1 || tag == 2 {
            after_bound_field("Range"@, message, tag, wire, bytes)
        } else {
            after_unknown(message, tag, wire, bytes, room)
        }
    }

    proof fn law_field_advances(
        message: (u64, u64),
        tag: u32,
        wire: u64,
        bytes: Seq<u8>,
        room: nat,
    ) {
        law_value_advances(tag, wire, bytes, room);
    }

    fn merge_field(self, tag: u32, wire: u64, buf: &mut Bytes, room: u32) -> (result: Result<
        Self,
        WireError,
    >) {
        if tag == 1 || tag == 2 {
            let (start, end) = merge_bound_field("Range", (self.start, self.end), tag, wire, buf)?;
            Ok(Range { start, end })
        } else {
            skip_unknown(tag, wire, buf, room)?;
            Ok(self)
        }
    }
}

impl Message for RangeWithHoles {
    open spec fn after_field(
        message: (u64, u64, Option<Option<ArrayMessage>>),
        tag: u32,
        wire: u64,
        bytes: Seq<u8>,
        room: nat,
    ) -> Result<((u64, u64, Option<Option<ArrayMessage>>), Seq<u8>), Fault> {
        if tag == 1 || tag == 2 {
            match after_bound_field("RangeWithHoles"@, (message.0, message.1), tag, wire, bytes) {
                Ok(((start, end), rest)) => Ok(((start, end, message.2), rest)),
                Err(fault) => Err(fault),
            }
        } else if tag == 3 {
            match after_array_field("RangeWithHoles"@, "holes"@, message.2, wire, bytes, room) {
                Ok((holes, rest)) => Ok(((message.0, message.1, holes), rest)),
                Err(fault) => Err(fault),
            }
        } else {
            after_unknown(message, tag, wire, bytes, room)
        }
    }

    proof fn law_field_advances(
        message: (u64, u64, Option<Option<ArrayMessage>>),
        tag: u32,
        wire: u64,
        bytes: Seq<u8>,
        room: nat,
    ) {
        law_value_advances(tag, wire, bytes, room);
        lemma_array_field_advances("RangeWithHoles"@, "holes"@, message.2, wire, bytes, room);
    }

    fn merge_field(self, tag: u32, wire: u64, buf: &mut Bytes, room: u32) -> (result: Result<
        Self,
        WireError,
    >) {
        if tag == 1 || tag == 2 {
            let (start, end) = merge_bound_field(
                "RangeWithHoles",
                (self.start, self.end),
                tag,
                wire,
                buf,
            )?;
            Ok(RangeWithHoles { start, end, holes: self.holes })
        } else if tag == 3 {
            let holes = merge_array_field("RangeWithHoles", "holes", self.holes, wire, buf, room)?;
            Ok(RangeWithHoles { start: self.start, end: self.end, holes })
        } else {
            skip_unknown(tag, wire, buf, room)?;
            Ok(self)
        }
    }
}

impl Message for RangeWithBitmap {
    open spec fn after_field(
        message: (u64, u64, Seq<u8>),
        tag: u32,
        wire: u64,
        bytes: Seq<u8>,
        room: nat,
    ) -> Result<((u64, u64, Seq<u8>), Seq<u8>), Fault> {
        if tag == 1 || tag == 2 {
            match after_bound_field("RangeWithBitmap"@, (message.0, message.1), tag, wire, bytes) {
                Ok(((start, end), rest)) => Ok(((start, end, message.2), rest)),
                Err(fault) => Err(fault),
            }
        } else if tag == 3 {
            match located(field_payload_at(wire, bytes), "RangeWithBitmap"@, "bitmap"@) {
                Ok((bitmap, rest)) => Ok(((message.0, message.1, bitmap), rest)),
                Err(fault) => Err(fault),
            }
        } else {
            after_unknown(message, tag, wire, bytes, room)
        }
    }

    proof fn law_field_advances(
        message: (u64, u64, Seq<u8>),
        tag: u32,
        wire: u64,
        bytes: Seq<u8>,
        room: nat,
    ) {
        law_value_advances(tag, wire, bytes, room);
    }

    fn merge_field(self, tag: u32, wire: u64, buf: &mut Bytes, room: u32) -> (result: Result<
        Self,
        WireError,
    >) {
        if tag == 1 || tag == 2 {
            let (start, end) = merge_bound_field(
                "RangeWithBitmap",
                (self.start, self.end),
                tag,
                wire,
                buf,
            )?;
            Ok(RangeWithBitmap { start, end, bitmap: self.bitmap })
        } else if tag == 3 {
            let bitmap = in_field(read_payload(wire, buf), "RangeWithBitmap", "bitmap")?;
            Ok(RangeWithBitmap { start: self.start, end: self.end, bitmap })
        } else {
            skip_unknown(tag, wire, buf, room)?;
            Ok(self)
        }
    }
}

impl Message for RangeWithRuns {
    open spec fn after_field(
        message: (u64, u64, Option<Option<ArrayMessage>>, Option<Option<ArrayMessage>>),
        tag: u32,
        wire: u64,
        bytes: Seq<u8>,
        room: nat,
    ) -> Result<((u64, u64, Option<Option<ArrayMessage>>, Option<Option<ArrayMessage>>), Seq<u8>), Fault> {
        if tag == 1 || tag == 2 {
            match after_bound_field("RangeWithRuns"@, (message.0, message.1), tag, wire, bytes) {
                Ok(((start, end), rest)) => Ok(((start, end, message.2, message.3), rest)),
                Err(fault) => Err(fault),
            }
        } else if tag == 3 {
            match after_array_field("RangeWithRuns"@, "hole_starts"@, message.2, wire, bytes, room) {
                Ok((starts, rest)) => Ok(((message.0, message.1, starts, message.3), rest)),
                Err(fault) => Err(fault),
            }
        } else if tag == 4 {
            match after_array_field("RangeWithRuns"@, "hole_ends"@, message.3, wire, bytes, room) {
                Ok((ends, rest)) => Ok(((message.0, message.1, message.2, ends), rest)),
                Err(fault) => Err(fault),
            }
        } else {
            after_unknown(message, tag, wire, bytes, room)
        }
    }

    proof fn law_field_advances(
        message: (u64, u64, Option<Option<ArrayMessage>>, Option<Option<ArrayMessage>>),
        tag: u32,
        wire: u64,
        bytes: Seq<u8>,
        room: nat,
    ) {
        law_value_advances(tag, wire, bytes, room);
        lemma_array_field_advances("RangeWithRuns"@, "hole_starts"@, message.2, wire, bytes, room);
        lemma_array_field_advances("RangeWithRuns"@, "hole_ends"@, message.3, wire, bytes, room);
    }

    fn merge_field(self, tag: u32, wire: u64, buf: &mut Bytes, room: u32) -> (result: Result<
        Self,
        WireError,
    >) {
        if tag == 1 || tag == 2 {
            let (start, end) = merge_bound_field(
                "RangeWithRuns",
                (self.start, self.end),
                tag,
                wire,
                buf,
            )?;
            Ok(RangeWithRuns { start, end, hole_starts: self.hole_starts, hole_ends: self.hole_ends })
        } else if tag == 3 {
            let hole_starts = merge_array_field(
                "RangeWithRuns",
                "hole_starts",
                self.hole_starts,
                wire,
                buf,
                room,
            )?;
            Ok(
                RangeWithRuns {
                    start: self.start,
                    end: self.end,
                    hole_starts,
                    hole_ends: self.hole_ends,
                },
            )
        } else if tag == 4 {
            let hole_ends = merge_array_field(
                "RangeWithRuns",
                "hole_ends",
                self.hole_ends,
                wire,
                buf,
                room,
            )?;
            Ok(
                RangeWithRuns {
                    start: self.start,
                    end: self.end,
                    hole_starts: self.hole_starts,
                    hole_ends,
                },
            )
        } else {
            skip_unknown(tag, wire, buf, room)?;
            Ok(self)
        }
    }
}

/// The range that a segment message holds, or an empty one.
pub open spec fn range_of(segment: Option<SegmentMessage>) -> (u64, u64) {
    match segment {
        Some(SegmentMessage::Range { start, end }) => (start, end),
        _ => (0, 0),
    }
}

/// The range with holes that a segment message holds, or an empty one.
pub open spec fn range_with_holes_of(segment: Option<SegmentMessage>) -> (
    u64,
    u64,
    Option<Option<ArrayMessage>>,
) {
    match segment {
        Some(SegmentMessage::RangeWithHoles { start, end, holes }) => (start, end, holes),
        _ => (0, 0, None),
    }
}

/// The range with a bitmap that a segment message holds, or an empty one.
pub open spec fn range_with_bitmap_of(segment: Option<SegmentMessage>) -> (u64, u64, Seq<u8>) {
    match segment {
        Some(SegmentMessage::RangeWithBitmap { start, end, bitmap }) => (start, end, bitmap),
        _ => (0, 0, Seq::empty()),
    }
}

/// The range with runs that a segment message holds, or an empty one.
pub open spec fn range_with_runs_of(segment: Option<SegmentMessage>) -> (
    u64,
    u64,
    Option<Option<ArrayMessage>>,
    Option<Option<ArrayMessage>>,
) {
    match segment {
        Some(SegmentMessage::RangeWithRuns { start, end, hole_starts, hole_ends }) => (
            start,
            end,
            hole_starts,
            hole_ends,
        ),
        _ => (0, 0, None, None),
    }
}

/// The sorted array that a segment message holds, or an empty one.
pub open spec fn sorted_array_of(segment: Option<SegmentMessage>) -> Option<ArrayMessage> {
    match segment {
        Some(SegmentMessage::SortedArray(array)) => array,
        _ => None,
    }
}

/// The array in any order that a segment message holds, or an empty one.
pub open spec fn plain_array_of(segment: Option<SegmentMessage>) -> Option<ArrayMessage> {
    match segment {
        Some(SegmentMessage::Array(array)) => array,
        _ => None,
    }
}

/// A segment message after the field of one of its encodings.
pub open spec fn after_segment_encoding(
    segment: Option<SegmentMessage>,
    tag: u32,
    wire: u64,
    bytes: Seq<u8>,
    room: nat,
) -> Result<(SegmentMessage, Seq<u8>), Fault> {
    if tag == 1 {
        match after_nested::<Range>(range_of(segment), wire, bytes, room) {
            Ok(((start, end), rest)) => Ok((SegmentMessage::Range { start, end }, rest)),
            Err(fault) => Err(fault),
        }
    } else if tag == 2 {
        match after_nested::<RangeWithHoles>(range_with_holes_of(segment), wire, bytes, room) {
            Ok(((start, end, holes), rest)) => Ok(
                (SegmentMessage::RangeWithHoles { start, end, holes }, rest),
            ),
            Err(fault) => Err(fault),
        }
    } else if tag == 3 {
        match after_nested::<RangeWithBitmap>(range_with_bitmap_of(segment), wire, bytes, room) {
            Ok(((start, end, bitmap), rest)) => Ok(
                (SegmentMessage::RangeWithBitmap { start, end, bitmap }, rest),
            ),
            Err(fault) => Err(fault),
        }
    } else if tag == 4 {
        match after_nested::<EncodedU64Array>(sorted_array_of(segment), wire, bytes, room) {
            Ok((array, rest)) => Ok((SegmentMessage::SortedArray(array), rest)),
            Err(fault) => Err(fault),
        }
    } else if tag == 5 {
        match after_nested::<EncodedU64Array>(plain_array_of(segment), wire, bytes, room) {
            Ok((array, rest)) => Ok((SegmentMessage::Array(array), rest)),
            Err(fault) => Err(fault),
        }
    } else {
        match after_nested::<RangeWithRuns>(range_with_runs_of(segment), wire, bytes, room) {
            Ok(((start, end, hole_starts, hole_ends), rest)) => Ok(
                (SegmentMessage::RangeWithRuns { start, end, hole_starts, hole_ends }, rest),
            ),
            Err(fault) => Err(fault),
        }
    }
}

/// Adds one of the encodings of a segment.
fn merge_segment_encoding(
    segment: U64Segment,
    tag: u32,
    wire: u64,
    buf: &mut Bytes,
    room: u32,
) -> (result: Result<Segment, WireError>)
    requires
        wire <= THIRTY_TWO_BIT,
    ensures
        match after_segment_encoding(segment@, tag, wire, contents(*old(buf)), room as nat) {
            Ok((message, rest)) => result matches Ok(read) && read@ == message && contents(
                *final(buf),
            ) == rest,
            Err(fault) => result matches Err(error) && error.fault() == fault,
        },
{
    if tag == 1 {
        let range = match segment.segment {
            Some(Segment::Range(range)) => range,
            _ => Range { start: 0, end: 0 },
        };
        Ok(Segment::Range(merge_nested(range, wire, buf, room)?))
    } else if tag == 2 {
        let range = match segment.segment {
            Some(Segment::RangeWithHoles(range)) => range,
            _ => RangeWithHoles { start: 0, end: 0, holes: None },
        };
        Ok(Segment::RangeWithHoles(merge_nested(range, wire, buf, room)?))
    } else if tag == 3 {
        let range = match segment.segment {
            Some(Segment::RangeWithBitmap(range)) => range,
            _ => RangeWithBitmap { start: 0, end: 0, bitmap: buffer::from_vec(Vec::new()) },
        };
        Ok(Segment::RangeWithBitmap(merge_nested(range, wire, buf, room)?))
    } else if tag == 4 {
        let array = match segment.segment {
            Some(Segment::SortedArray(array)) => array,
            _ => EncodedU64Array { array: None },
        };
        Ok(Segment::SortedArray(merge_nested(array, wire, buf, room)?))
    } else if tag == 5 {
        let array = match segment.segment {
            Some(Segment::Array(array)) => array,
            _ => EncodedU64Array { array: None },
        };
        Ok(Segment::Array(merge_nested(array, wire, buf, room)?))
    } else {
        let range = match segment.segment {
            Some(Segment::RangeWithRuns(range)) => range,
            _ => RangeWithRuns { start: 0, end: 0, hole_starts: None, hole_ends: None },
        };
        Ok(Segment::RangeWithRuns(merge_nested(range, wire, buf, room)?))
    }
}

impl Message for U64Segment {
    open spec fn after_field(
        message: Option<SegmentMessage>,
        tag: u32,
        wire: u64,
        bytes: Seq<u8>,
        room: nat,
    ) -> Result<(Option<SegmentMessage>, Seq<u8>), Fault> {
        if 1 <= tag <= 6 {
            match located(
                after_segment_encoding(message, tag, wire, bytes, room),
                "U64Segment"@,
                "segment"@,
            ) {
                Ok((segment, rest)) => Ok((Some(segment), rest)),
                Err(fault) => Err(fault),
            }
        } else {
            after_unknown(message, tag, wire, bytes, room)
        }
    }

    proof fn law_field_advances(
        message: Option<SegmentMessage>,
        tag: u32,
        wire: u64,
        bytes: Seq<u8>,
        room: nat,
    ) {
        law_value_advances(tag, wire, bytes, room);
        law_nested_advances::<Range>(range_of(message), wire, bytes, room);
        law_nested_advances::<RangeWithHoles>(range_with_holes_of(message), wire, bytes, room);
        law_nested_advances::<RangeWithBitmap>(range_with_bitmap_of(message), wire, bytes, room);
        law_nested_advances::<EncodedU64Array>(sorted_array_of(message), wire, bytes, room);
        law_nested_advances::<EncodedU64Array>(plain_array_of(message), wire, bytes, room);
        law_nested_advances::<RangeWithRuns>(range_with_runs_of(message), wire, bytes, room);
    }

    fn merge_field(self, tag: u32, wire: u64, buf: &mut Bytes, room: u32) -> (result: Result<
        Self,
        WireError,
    >) {
        if 1 <= tag && tag <= 6 {
            let segment = in_field(
                merge_segment_encoding(self, tag, wire, buf, room),
                "U64Segment",
                "segment",
            )?;
            Ok(U64Segment { segment: Some(segment) })
        } else {
            skip_unknown(tag, wire, buf, room)?;
            Ok(self)
        }
    }
}

impl Message for RowIdSequence {
    open spec fn after_field(
        message: Seq<Option<SegmentMessage>>,
        tag: u32,
        wire: u64,
        bytes: Seq<u8>,
        room: nat,
    ) -> Result<(Seq<Option<SegmentMessage>>, Seq<u8>), Fault> {
        if tag == 1 {
            match located(
                after_nested::<U64Segment>(None, wire, bytes, room),
                "RowIdSequence"@,
                "segments"@,
            ) {
                Ok((segment, rest)) => Ok((message.push(segment), rest)),
                Err(fault) => Err(fault),
            }
        } else {
            after_unknown(message, tag, wire, bytes, room)
        }
    }

    proof fn law_field_advances(
        message: Seq<Option<SegmentMessage>>,
        tag: u32,
        wire: u64,
        bytes: Seq<u8>,
        room: nat,
    ) {
        law_value_advances(tag, wire, bytes, room);
        law_nested_advances::<U64Segment>(None, wire, bytes, room);
    }

    fn merge_field(self, tag: u32, wire: u64, buf: &mut Bytes, room: u32) -> (result: Result<
        Self,
        WireError,
    >) {
        if tag == 1 {
            let segment = in_field(
                merge_nested(U64Segment { segment: None }, wire, buf, room),
                "RowIdSequence",
                "segments",
            )?;
            let ghost before = self@;
            let ghost message = segment@;
            let mut read = self;
            read.segments.push(segment);
            assert(read@ =~= before.push(message));
            Ok(read)
        } else {
            skip_unknown(tag, wire, buf, room)?;
            Ok(self)
        }
    }
}

/// The sequence message that is written as `bytes`, or why there is none.
pub open spec fn read_sequence(bytes: Seq<u8>) -> Result<Seq<Option<SegmentMessage>>, Fault> {
    match after_fields::<RowIdSequence>(Seq::empty(), bytes, 0, NESTING_LIMIT as nat) {
        Ok((messages, rest)) => Ok(messages),
        Err(fault) => Err(fault),
    }
}

impl RowIdSequence {
    /// Reads a message from its bytes. Bitmaps share the memory of the bytes.
    pub fn decode(bytes: Bytes) -> (result: Result<Self, WireError>)
        ensures
            match read_sequence(contents(bytes)) {
                Ok(messages) => result matches Ok(read) && read@ == messages,
                Err(fault) => result matches Err(error) && error.fault() == fault,
            },
    {
        let mut buf = bytes;
        let empty = RowIdSequence { segments: Vec::new() };
        assert(empty@ =~= Seq::empty());
        merge_fields(empty, &mut buf, 0, NESTING_LIMIT)
    }
}

} // verus!
