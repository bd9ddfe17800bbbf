//! How messages are written byte by byte, and what each field that is read adds to a message.

use super::decode::read_sequence;
use super::encoded_u64_array::{Array, ArrayMessage, U16Array, U32Array, U64Array};
use super::layout::{
    array_field, array_fields, lemma_written_join, lemma_written_one, number_field, offsets_fields,
    payload_field, range_fields, segment_fields, sequence_bytes, sequence_fields,
};
use super::merge::{after_fields, after_nested, Message};
use super::u64_segment::{
    Range, RangeWithBitmap, RangeWithHoles, RangeWithRuns, Segment, SegmentMessage,
};
use super::{EncodedU64Array, RowIdSequence, U64Segment};
use crate::buffer::contents;
use crate::wire::{
    fault, field_payload_at, key_at, nested_at, number_at, skipped, varint, written,
    wrong_wire_type, Fault, Field,
};
use vstd::prelude::*;

verus! {

/// How a number is written: not at all when it is zero, else its key and its varint.
spec fn number_bytes(key: u8, value: u64) -> Seq<u8> {
    if value == 0 {
        Seq::empty()
    } else {
        seq![key] + varint(value as nat)
    }
}

/// How bytes are written: not at all when there are none, else their key, their length and they.
spec fn payload_bytes(key: u8, payload: Seq<u8>) -> Seq<u8> {
    if payload.len() == 0 {
        Seq::empty()
    } else {
        seq![key] + varint(payload.len()) + payload
    }
}

proof fn lemma_number_bytes(tag: u32, value: u64)
    requires
        1 <= tag < 16,
    ensures
        written(number_field(tag, value)) == number_bytes((tag * 8) as u8, value),
{
    lemma_written_one(Field::Number { tag, value });
    assert(varint((tag * 8) as nat) =~= seq![(tag * 8) as u8]);
}

proof fn lemma_payload_bytes(tag: u32, payload: Seq<u8>)
    requires
        1 <= tag < 16,
    ensures
        written(payload_field(tag, payload)) == payload_bytes((tag * 8 + 2) as u8, payload),
        written(seq![Field::Payload { tag, payload }]) == seq![(tag * 8 + 2) as u8] + varint(
            payload.len(),
        ) + payload,
{
    lemma_written_one(Field::Payload { tag, payload });
    assert(varint((tag * 8 + 2) as nat) =~= seq![(tag * 8 + 2) as u8]);
    assert(seq![(tag * 8 + 2) as u8] + (varint(payload.len()) + payload) =~= seq![
        (tag * 8 + 2) as u8,
    ] + varint(payload.len()) + payload);
}

/// A varint is one byte for a number below 128, and else the lowest seven bits of the number with
/// the high bit set, followed by the varint of the rest.
pub proof fn law_varint(value: nat)
    ensures
        value < 128 ==> varint(value) == seq![value as u8],
        value >= 128 ==> varint(value) == seq![(128 + value % 128) as u8] + varint(value / 128),
{
}

/// An array message is written as its key, the length of what it holds, and that: the base, unless
/// it is zero, and the packed bytes, unless there are none.
pub proof fn law_array_written(base: u64, packed: Seq<u8>)
    ensures
        ({
            let base_bytes = if base == 0 {
                Seq::empty()
            } else {
                seq![8u8] + varint(base as nat)
            };
            let packed_bytes = if packed.len() == 0 {
                Seq::empty()
            } else {
                seq![18u8] + varint(packed.len()) + packed
            };
            let inner = base_bytes + packed_bytes;
            &&& written(array_fields(Some(ArrayMessage::U16Array { base, offsets: packed })))
                == seq![10u8] + varint(inner.len()) + inner
            &&& written(array_fields(Some(ArrayMessage::U32Array { base, offsets: packed })))
                == seq![18u8] + varint(inner.len()) + inner
            &&& written(array_fields(Some(ArrayMessage::U64Array { values: packed }))) == seq![26u8]
                + varint(packed_bytes.len()) + packed_bytes
            &&& written(array_fields(None)) == Seq::<u8>::empty()
        }),
{
    lemma_number_bytes(1, base);
    lemma_payload_bytes(2, packed);
    lemma_written_join(number_field(1, base), payload_field(2, packed));
    let inner = written(offsets_fields(base, packed));
    lemma_payload_bytes(1, inner);
    lemma_payload_bytes(2, inner);
    lemma_payload_bytes(3, written(payload_field(2, packed)));
}

/// A segment message is written as the key of its encoding, the length of what it holds, and that:
/// the bounds of its range, unless they are zero, and then its holes, its bitmap, or its run
/// starts and run ends, or else its array.
pub proof fn law_segment_written(message: SegmentMessage)
    ensures
        ({
            let bound = |key: u8, value: u64|
                if value == 0 {
                    Seq::empty()
                } else {
                    seq![key] + varint(value as nat)
                };
            let array = |key: u8, array: Option<Option<ArrayMessage>>|
                match array {
                    Some(array) => {
                        let bytes = written(array_fields(array));
                        seq![key] + varint(bytes.len()) + bytes
                    },
                    None => Seq::empty(),
                };
            let whole = |key: u8, inner: Seq<u8>| seq![key] + varint(inner.len()) + inner;
            written(segment_fields(Some(message))) == match message {
                SegmentMessage::Range { start, end } => whole(10, bound(8, start) + bound(16, end)),
                SegmentMessage::RangeWithHoles { start, end, holes } => whole(
                    18,
                    bound(8, start) + bound(16, end) + array(26, holes),
                ),
                SegmentMessage::RangeWithBitmap { start, end, bitmap } => whole(
                    26,
                    bound(8, start) + bound(16, end) + if bitmap.len() == 0 {
                        Seq::empty()
                    } else {
                        seq![26u8] + varint(bitmap.len()) + bitmap
                    },
                ),
                SegmentMessage::SortedArray(array) => whole(34, written(array_fields(array))),
                SegmentMessage::Array(array) => whole(42, written(array_fields(array))),
                SegmentMessage::RangeWithRuns { start, end, hole_starts, hole_ends } => whole(
                    50,
                    bound(8, start) + bound(16, end) + array(26, hole_starts) + array(
                        34,
                        hole_ends,
                    ),
                ),
            }
        }),
        written(segment_fields(None)) == Seq::<u8>::empty(),
{
    match message {
        SegmentMessage::Range { start, end } => {
            lemma_bounds(start, end);
            lemma_payload_bytes(1, written(range_fields(start, end)));
        },
        SegmentMessage::RangeWithHoles { start, end, holes } => {
            lemma_bounds(start, end);
            lemma_array(3, holes);
            lemma_written_join(range_fields(start, end), array_field(3, holes));
            lemma_payload_bytes(2, written(range_fields(start, end) + array_field(3, holes)));
        },
        SegmentMessage::RangeWithBitmap { start, end, bitmap } => {
            lemma_bounds(start, end);
            lemma_payload_bytes(3, bitmap);
            lemma_written_join(range_fields(start, end), payload_field(3, bitmap));
            lemma_payload_bytes(3, written(range_fields(start, end) + payload_field(3, bitmap)));
        },
        SegmentMessage::SortedArray(array) => {
            lemma_payload_bytes(4, written(array_fields(array)));
        },
        SegmentMessage::Array(array) => {
            lemma_payload_bytes(5, written(array_fields(array)));
        },
        SegmentMessage::RangeWithRuns { start, end, hole_starts, hole_ends } => {
            let (a, b, c) = (
                range_fields(start, end),
                array_field(3, hole_starts),
                array_field(4, hole_ends),
            );
            lemma_bounds(start, end);
            lemma_array(3, hole_starts);
            lemma_array(4, hole_ends);
            lemma_written_join(a, b);
            lemma_written_join(a + b, c);
            lemma_payload_bytes(6, written(a + b + c));
        },
    }
}

proof fn lemma_bounds(start: u64, end: u64)
    ensures
        written(range_fields(start, end)) == number_bytes(8, start) + number_bytes(16, end),
{
    lemma_number_bytes(1, start);
    lemma_number_bytes(2, end);
    lemma_written_join(number_field(1, start), number_field(2, end));
}

proof fn lemma_array(tag: u32, message: Option<Option<ArrayMessage>>)
    requires
        1 <= tag < 16,
    ensures
        written(array_field(tag, message)) == match message {
            Some(array) => {
                let bytes = written(array_fields(array));
                seq![(tag * 8 + 2) as u8] + varint(bytes.len()) + bytes
            },
            None => Seq::empty(),
        },
{
    if let Some(array) = message {
        lemma_payload_bytes(tag, written(array_fields(array)));
    }
}

/// A sequence message is written as its segments, one after the other, each with its key and its
/// length.
pub proof fn law_sequence_written(
    a: Seq<Option<SegmentMessage>>,
    b: Seq<Option<SegmentMessage>>,
    message: Option<SegmentMessage>,
)
    ensures
        sequence_bytes(Seq::empty()) == Seq::<u8>::empty(),
        sequence_bytes(seq![message]) == seq![10u8] + varint(
            written(segment_fields(message)).len(),
        ) + written(segment_fields(message)),
        sequence_bytes(a + b) == sequence_bytes(a) + sequence_bytes(b),
{
    let payload = written(segment_fields(message));
    lemma_payload_bytes(1, payload);
    assert(sequence_fields(seq![message]) =~= seq![Field::Payload { tag: 1, payload }]);
    assert(sequence_fields(a + b) =~= sequence_fields(a) + sequence_fields(b));
    lemma_written_join(sequence_fields(a), sequence_fields(b));
}

/// Reading a message stops where it should end, and goes on field by field before that. It fails
/// with the first field that fails, and where a field goes beyond the end.
pub proof fn law_fields_read<M: Message>(
    message: <M as View>::V,
    bytes: Seq<u8>,
    limit: nat,
    room: nat,
)
    ensures
        bytes.len() == limit ==> after_fields::<M>(message, bytes, limit, room) == Ok::<
            (<M as View>::V, Seq<u8>),
            Fault,
        >((message, bytes)),
        bytes.len() < limit ==> after_fields::<M>(message, bytes, limit, room) == Err::<
            (<M as View>::V, Seq<u8>),
            Fault,
        >(fault("delimited length exceeded"@)),
        bytes.len() > limit ==> match key_at(bytes) {
            Err(fault) => after_fields::<M>(message, bytes, limit, room) == Err::<
                (<M as View>::V, Seq<u8>),
                Fault,
            >(fault),
            Ok((tag, wire, value)) => match M::after_field(message, tag, wire, value, room) {
                Err(fault) => after_fields::<M>(message, bytes, limit, room) == Err::<
                    (<M as View>::V, Seq<u8>),
                    Fault,
                >(fault),
                Ok((next, rest)) => after_fields::<M>(message, bytes, limit, room)
                    == after_fields::<M>(next, rest, limit, room),
            },
        },
        match nested_at(2, bytes, room) {
            Ok((rest, end)) => after_nested::<M>(message, 2, bytes, room) == after_fields::<M>(
                message,
                rest,
                end,
                (room - 1) as nat,
            ),
            Err(fault) => after_nested::<M>(message, 2, bytes, room) == Err::<
                (<M as View>::V, Seq<u8>),
                Fault,
            >(fault),
        },
        forall|wire: u64|
            wire != 2 ==> #[trigger] after_nested::<M>(message, wire, bytes, room) == Err::<
                (<M as View>::V, Seq<u8>),
                Fault,
            >(wrong_wire_type(2, wire)),
{
}

/// A bound of a range takes the place of the earlier one, a field of any other tag leaves the
/// range as it was, and a bound that is no number is refused.
pub proof fn law_range_field(message: (u64, u64), tag: u32, wire: u64, bytes: Seq<u8>, room: nat)
    ensures
        match Range::after_field(message, tag, wire, bytes, room) {
            Ok((read, rest)) => if tag == 1 {
                number_at(wire, bytes) == Ok::<(u64, Seq<u8>), Fault>((read.0, rest)) && read.1
                    == message.1
            } else if tag == 2 {
                number_at(wire, bytes) == Ok::<(u64, Seq<u8>), Fault>((read.1, rest)) && read.0
                    == message.0
            } else {
                read == message && skipped(tag, wire, bytes, room) == Ok::<Seq<u8>, Fault>(rest)
            },
            Err(fault) => if tag == 1 {
                number_at(wire, bytes) matches Err(cause)
                    && fault == cause.within("Range"@, "start"@)
            } else if tag == 2 {
                number_at(wire, bytes) matches Err(cause)
                    && fault == cause.within("Range"@, "end"@)
            } else {
                skipped(tag, wire, bytes, room) == Err::<Seq<u8>, Fault>(fault)
            },
        },
{
}

/// A bound takes the place of the earlier one, a nested array adds to the earlier holes, and a
/// field of any other tag leaves the message as it was.
pub proof fn law_holes_field(
    message: (u64, u64, Option<Option<ArrayMessage>>),
    tag: u32,
    wire: u64,
    bytes: Seq<u8>,
    room: nat,
)
    ensures
        ({
            let before = if message.2 is Some {
                message.2->0
            } else {
                None
            };
            let nested = after_nested::<EncodedU64Array>(before, wire, bytes, room);
            match RangeWithHoles::after_field(message, tag, wire, bytes, room) {
                Ok((read, rest)) => if tag == 1 {
                    &&& number_at(wire, bytes) == Ok::<(u64, Seq<u8>), Fault>((read.0, rest))
                    &&& read.1 == message.1 && read.2 == message.2
                } else if tag == 2 {
                    &&& number_at(wire, bytes) == Ok::<(u64, Seq<u8>), Fault>((read.1, rest))
                    &&& read.0 == message.0 && read.2 == message.2
                } else if tag == 3 {
                    &&& read.2 is Some && nested == Ok::<(Option<ArrayMessage>, Seq<u8>), Fault>(
                        (read.2->0, rest),
                    )
                    &&& read.0 == message.0 && read.1 == message.1
                } else {
                    read == message && skipped(tag, wire, bytes, room) == Ok::<Seq<u8>, Fault>(rest)
                },
                Err(fault) => if tag == 1 {
                    number_at(wire, bytes) matches Err(cause)
                        && fault == cause.within("RangeWithHoles"@, "start"@)
                } else if tag == 2 {
                    number_at(wire, bytes) matches Err(cause)
                        && fault == cause.within("RangeWithHoles"@, "end"@)
                } else if tag == 3 {
                    nested matches Err(cause)
                        && fault == cause.within("RangeWithHoles"@, "holes"@)
                } else {
                    skipped(tag, wire, bytes, room) == Err::<Seq<u8>, Fault>(fault)
                },
            }
        }),
{
}

/// A bound or a bitmap takes the place of the earlier one, and a field of any other tag leaves the
/// message as it was.
pub proof fn law_bitmap_field(
    message: (u64, u64, Seq<u8>),
    tag: u32,
    wire: u64,
    bytes: Seq<u8>,
    room: nat,
)
    ensures
        match RangeWithBitmap::after_field(message, tag, wire, bytes, room) {
            Ok((read, rest)) => if tag == 1 {
                &&& number_at(wire, bytes) == Ok::<(u64, Seq<u8>), Fault>((read.0, rest))
                &&& read.1 == message.1 && read.2 == message.2
            } else if tag == 2 {
                &&& number_at(wire, bytes) == Ok::<(u64, Seq<u8>), Fault>((read.1, rest))
                &&& read.0 == message.0 && read.2 == message.2
            } else if tag == 3 {
                &&& field_payload_at(wire, bytes) == Ok::<(Seq<u8>, Seq<u8>), Fault>((read.2, rest))
                &&& read.0 == message.0 && read.1 == message.1
            } else {
                read == message && skipped(tag, wire, bytes, room) == Ok::<Seq<u8>, Fault>(rest)
            },
            Err(fault) => if tag == 1 {
                number_at(wire, bytes) matches Err(cause)
                    && fault == cause.within("RangeWithBitmap"@, "start"@)
            } else if tag == 2 {
                number_at(wire, bytes) matches Err(cause)
                    && fault == cause.within("RangeWithBitmap"@, "end"@)
            } else if tag == 3 {
                field_payload_at(wire, bytes) matches Err(cause)
                    && fault == cause.within("RangeWithBitmap"@, "bitmap"@)
            } else {
                skipped(tag, wire, bytes, room) == Err::<Seq<u8>, Fault>(fault)
            },
        },
{
}

/// A bound takes the place of the earlier one, a nested array adds to the earlier run starts or
/// run ends, and a field of any other tag leaves the message as it was.
pub proof fn law_runs_field(
    message: (u64, u64, Option<Option<ArrayMessage>>, Option<Option<ArrayMessage>>),
    tag: u32,
    wire: u64,
    bytes: Seq<u8>,
    room: nat,
)
    ensures
        ({
            let starts = if message.2 is Some {
                message.2->0
            } else {
                None
            };
            let ends = if message.3 is Some {
                message.3->0
            } else {
                None
            };
            match RangeWithRuns::after_field(message, tag, wire, bytes, room) {
                Ok((read, rest)) => if tag == 1 {
                    &&& number_at(wire, bytes) == Ok::<(u64, Seq<u8>), Fault>((read.0, rest))
                    &&& read.1 == message.1 && read.2 == message.2 && read.3 == message.3
                } else if tag == 2 {
                    &&& number_at(wire, bytes) == Ok::<(u64, Seq<u8>), Fault>((read.1, rest))
                    &&& read.0 == message.0 && read.2 == message.2 && read.3 == message.3
                } else if tag == 3 {
                    &&& read.2 is Some && after_nested::<EncodedU64Array>(starts, wire, bytes, room)
                        == Ok::<(Option<ArrayMessage>, Seq<u8>), Fault>((read.2->0, rest))
                    &&& read.0 == message.0 && read.1 == message.1 && read.3 == message.3
                } else if tag == 4 {
                    &&& read.3 is Some && after_nested::<EncodedU64Array>(ends, wire, bytes, room)
                        == Ok::<(Option<ArrayMessage>, Seq<u8>), Fault>((read.3->0, rest))
                    &&& read.0 == message.0 && read.1 == message.1 && read.2 == message.2
                } else {
                    read == message && skipped(tag, wire, bytes, room) == Ok::<Seq<u8>, Fault>(rest)
                },
                Err(fault) => if tag == 1 {
                    number_at(wire, bytes) matches Err(cause)
                        && fault == cause.within("RangeWithRuns"@, "start"@)
                } else if tag == 2 {
                    number_at(wire, bytes) matches Err(cause)
                        && fault == cause.within("RangeWithRuns"@, "end"@)
                } else if tag == 3 {
                    after_nested::<EncodedU64Array>(starts, wire, bytes, room) matches Err(cause)
                        && fault == cause.within("RangeWithRuns"@, "hole_starts"@)
                } else if tag == 4 {
                    after_nested::<EncodedU64Array>(ends, wire, bytes, room) matches Err(cause)
                        && fault == cause.within("RangeWithRuns"@, "hole_ends"@)
                } else {
                    skipped(tag, wire, bytes, room) == Err::<Seq<u8>, Fault>(fault)
                },
            }
        }),
{
}

/// A base or offsets take the place of the earlier ones, and a field of any other tag leaves the
/// message as it was.
pub proof fn law_offsets_field(
    message: (u64, Seq<u8>),
    tag: u32,
    wire: u64,
    bytes: Seq<u8>,
    room: nat,
)
    ensures
        match U16Array::after_field(message, tag, wire, bytes, room) {
            Ok((read, rest)) => if tag == 1 {
                number_at(wire, bytes) == Ok::<(u64, Seq<u8>), Fault>((read.0, rest)) && read.1
                    == message.1
            } else if tag == 2 {
                field_payload_at(wire, bytes) == Ok::<(Seq<u8>, Seq<u8>), Fault>((read.1, rest))
                    && read.0 == message.0
            } else {
                read == message && skipped(tag, wire, bytes, room) == Ok::<Seq<u8>, Fault>(rest)
            },
            Err(fault) => if tag == 1 {
                number_at(wire, bytes) matches Err(cause)
                    && fault == cause.within("U16Array"@, "base"@)
            } else if tag == 2 {
                field_payload_at(wire, bytes) matches Err(cause)
                    && fault == cause.within("U16Array"@, "offsets"@)
            } else {
                skipped(tag, wire, bytes, room) == Err::<Seq<u8>, Fault>(fault)
            },
        },
        match U32Array::after_field(message, tag, wire, bytes, room) {
            Ok((read, rest)) => if tag == 1 {
                number_at(wire, bytes) == Ok::<(u64, Seq<u8>), Fault>((read.0, rest)) && read.1
                    == message.1
            } else if tag == 2 {
                field_payload_at(wire, bytes) == Ok::<(Seq<u8>, Seq<u8>), Fault>((read.1, rest))
                    && read.0 == message.0
            } else {
                read == message && skipped(tag, wire, bytes, room) == Ok::<Seq<u8>, Fault>(rest)
            },
            Err(fault) => if tag == 1 {
                number_at(wire, bytes) matches Err(cause)
                    && fault == cause.within("U32Array"@, "base"@)
            } else if tag == 2 {
                field_payload_at(wire, bytes) matches Err(cause)
                    && fault == cause.within("U32Array"@, "offsets"@)
            } else {
                skipped(tag, wire, bytes, room) == Err::<Seq<u8>, Fault>(fault)
            },
        },
        match U64Array::after_field(message.1, tag, wire, bytes, room) {
            Ok((read, rest)) => if tag == 2 {
                field_payload_at(wire, bytes) == Ok::<(Seq<u8>, Seq<u8>), Fault>((read, rest))
            } else {
                read == message.1 && skipped(tag, wire, bytes, room) == Ok::<Seq<u8>, Fault>(rest)
            },
            Err(fault) => if tag == 2 {
                field_payload_at(wire, bytes) matches Err(cause)
                    && fault == cause.within("U64Array"@, "values"@)
            } else {
                skipped(tag, wire, bytes, room) == Err::<Seq<u8>, Fault>(fault)
            },
        },
{
}

/// An encoding of an array adds to an earlier one of the same kind and takes the place of one of
/// another kind, and a field of any other tag leaves the message as it was.
pub proof fn law_array_field(
    message: Option<ArrayMessage>,
    tag: u32,
    wire: u64,
    bytes: Seq<u8>,
    room: nat,
)
    ensures
        ({
            let none = (0u64, Seq::<u8>::empty());
            let u16s = match message {
                Some(ArrayMessage::U16Array { base, offsets }) => (base, offsets),
                _ => none,
            };
            let u32s = match message {
                Some(ArrayMessage::U32Array { base, offsets }) => (base, offsets),
                _ => none,
            };
            let u64s = match message {
                Some(ArrayMessage::U64Array { values }) => values,
                _ => none.1,
            };
            match EncodedU64Array::after_field(message, tag, wire, bytes, room) {
                Ok((read, rest)) => if tag == 1 {
                    read matches Some(ArrayMessage::U16Array { base, offsets })
                        && after_nested::<U16Array>(u16s, wire, bytes, room) == Ok::<
                        ((u64, Seq<u8>), Seq<u8>),
                        Fault,
                    >(((base, offsets), rest))
                } else if tag == 2 {
                    read matches Some(ArrayMessage::U32Array { base, offsets })
                        && after_nested::<U32Array>(u32s, wire, bytes, room) == Ok::<
                        ((u64, Seq<u8>), Seq<u8>),
                        Fault,
                    >(((base, offsets), rest))
                } else if tag == 3 {
                    read matches Some(ArrayMessage::U64Array { values })
                        && after_nested::<U64Array>(u64s, wire, bytes, room) == Ok::<
                        (Seq<u8>, Seq<u8>),
                        Fault,
                    >((values, rest))
                } else {
                    read == message && skipped(tag, wire, bytes, room) == Ok::<Seq<u8>, Fault>(rest)
                },
                Err(fault) => if tag == 1 {
                    after_nested::<U16Array>(u16s, wire, bytes, room) matches Err(cause)
                        && fault == cause.within("EncodedU64Array"@, "array"@)
                } else if tag == 2 {
                    after_nested::<U32Array>(u32s, wire, bytes, room) matches Err(cause)
                        && fault == cause.within("EncodedU64Array"@, "array"@)
                } else if tag == 3 {
                    after_nested::<U64Array>(u64s, wire, bytes, room) matches Err(cause)
                        && fault == cause.within("EncodedU64Array"@, "array"@)
                } else {
                    skipped(tag, wire, bytes, room) == Err::<Seq<u8>, Fault>(fault)
                },
            }
        }),
{
}

/// An encoding of a segment adds to an earlier one of the same kind and takes the place of one of
/// another kind, and a field of any other tag leaves the message as it was.
pub proof fn law_segment_field(
    message: Option<SegmentMessage>,
    tag: u32,
    wire: u64,
    bytes: Seq<u8>,
    room: nat,
)
    ensures
        ({
            let range = match message {
                Some(SegmentMessage::Range { start, end }) => (start, end),
                _ => (0u64, 0u64),
            };
            let holes = match message {
                Some(SegmentMessage::RangeWithHoles { start, end, holes }) => (start, end, holes),
                _ => (0u64, 0u64, None),
            };
            let bitmap = match message {
                Some(SegmentMessage::RangeWithBitmap { start, end, bitmap }) => (start, end, bitmap),
                _ => (0u64, 0u64, Seq::empty()),
            };
            let sorted = match message {
                Some(SegmentMessage::SortedArray(array)) => array,
                _ => None,
            };
            let plain = match message {
                Some(SegmentMessage::Array(array)) => array,
                _ => None,
            };
            let runs = match message {
                Some(SegmentMessage::RangeWithRuns { start, end, hole_starts, hole_ends }) => (
                    start,
                    end,
                    hole_starts,
                    hole_ends,
                ),
                _ => (0u64, 0u64, None, None),
            };
            match U64Segment::after_field(message, tag, wire, bytes, room) {
                Ok((read, rest)) => if tag == 1 {
                    &&& read matches Some(SegmentMessage::Range { start, end })
                    &&& after_nested::<Range>(range, wire, bytes, room) matches Ok((r, s))
                    &&& r == (start, end) && s == rest
                } else if tag == 2 {
                    &&& read matches Some(SegmentMessage::RangeWithHoles { start, end, holes: h })
                    &&& after_nested::<RangeWithHoles>(holes, wire, bytes, room) matches Ok((r, s))
                    &&& r == (start, end, h) && s == rest
                } else if tag == 3 {
                    &&& read matches Some(SegmentMessage::RangeWithBitmap { start, end, bitmap: b })
                    &&& after_nested::<RangeWithBitmap>(bitmap, wire, bytes, room) matches Ok((r, s))
                    &&& r == (start, end, b) && s == rest
                } else if tag == 4 {
                    &&& read matches Some(SegmentMessage::SortedArray(array))
                    &&& after_nested::<EncodedU64Array>(sorted, wire, bytes, room) matches Ok((r, s))
                    &&& r == array && s == rest
                } else if tag == 5 {
                    &&& read matches Some(SegmentMessage::Array(array))
                    &&& after_nested::<EncodedU64Array>(plain, wire, bytes, room) matches Ok((r, s))
                    &&& r == array && s == rest
                } else if tag == 6 {
                    &&& read matches Some(
                        SegmentMessage::RangeWithRuns { start, end, hole_starts, hole_ends },
                    )
                    &&& after_nested::<RangeWithRuns>(runs, wire, bytes, room) matches Ok((r, s))
                    &&& r == (start, end, hole_starts, hole_ends) && s == rest
                } else {
                    read == message && skipped(tag, wire, bytes, room) == Ok::<Seq<u8>, Fault>(rest)
                },
                Err(fault) => if tag == 1 {
                    after_nested::<Range>(range, wire, bytes, room) matches Err(cause)
                        && fault == cause.within("U64Segment"@, "segment"@)
                } else if tag == 2 {
                    after_nested::<RangeWithHoles>(holes, wire, bytes, room) matches Err(cause)
                        && fault == cause.within("U64Segment"@, "segment"@)
                } else if tag == 3 {
                    after_nested::<RangeWithBitmap>(bitmap, wire, bytes, room) matches Err(cause)
                        && fault == cause.within("U64Segment"@, "segment"@)
                } else if tag == 4 {
                    after_nested::<EncodedU64Array>(sorted, wire, bytes, room) matches Err(cause)
                        && fault == cause.within("U64Segment"@, "segment"@)
                } else if tag == 5 {
                    after_nested::<EncodedU64Array>(plain, wire, bytes, room) matches Err(cause)
                        && fault == cause.within("U64Segment"@, "segment"@)
                } else if tag == 6 {
                    after_nested::<RangeWithRuns>(runs, wire, bytes, room) matches Err(cause)
                        && fault == cause.within("U64Segment"@, "segment"@)
                } else {
                    skipped(tag, wire, bytes, room) == Err::<Seq<u8>, Fault>(fault)
                },
            }
        }),
{
}

/// A segment is added after the earlier ones, each read on its own, and a field of any other tag
/// leaves the sequence as it was.
pub proof fn law_sequence_field(
    message: Seq<Option<SegmentMessage>>,
    tag: u32,
    wire: u64,
    bytes: Seq<u8>,
    room: nat,
)
    ensures
        match RowIdSequence::after_field(message, tag, wire, bytes, room) {
            Ok((read, rest)) => if tag == 1 {
                &&& read.len() == message.len() + 1
                &&& forall|i: int| 0 <= i < message.len() ==> #[trigger] read[i] == message[i]
                &&& after_nested::<U64Segment>(None, wire, bytes, room) == Ok::<
                    (Option<SegmentMessage>, Seq<u8>),
                    Fault,
                >((read[message.len() as int], rest))
            } else {
                read == message && skipped(tag, wire, bytes, room) == Ok::<Seq<u8>, Fault>(rest)
            },
            Err(fault) => if tag == 1 {
                after_nested::<U64Segment>(None, wire, bytes, room) matches Err(cause)
                    && fault == cause.within("RowIdSequence"@, "segments"@)
            } else {
                skipped(tag, wire, bytes, room) == Err::<Seq<u8>, Fault>(fault)
            },
        },
{
}

/// A sequence message is read from all of its bytes, with room for a hundred messages and groups
/// within each other.
pub proof fn law_sequence_message_read(bytes: Seq<u8>)
    ensures
        match after_fields::<RowIdSequence>(Seq::empty(), bytes, 0, 100) {
            Ok((messages, rest)) => rest.len() == 0 && read_sequence(bytes) == Ok::<
                Seq<Option<SegmentMessage>>,
                Fault,
            >(messages),
            Err(fault) => read_sequence(bytes) == Err::<Seq<Option<SegmentMessage>>, Fault>(fault),
        },
{
    super::merge::lemma_fields_advance::<RowIdSequence>(Seq::empty(), bytes, 0, 100);
}

/// What a message holds is what its fields do.
pub proof fn law_array_message_parts(array: EncodedU64Array)
    ensures
        match array.array {
            Some(Array::U16Array(a)) => array@ == Some(
                ArrayMessage::U16Array { base: a.base, offsets: a.offsets@ },
            ),
            Some(Array::U32Array(a)) => array@ == Some(
                ArrayMessage::U32Array { base: a.base, offsets: a.offsets@ },
            ),
            Some(Array::U64Array(a)) => array@ == Some(
                ArrayMessage::U64Array { values: a.values@ },
            ),
            None => array@ is None,
        },
{
}

/// What a message holds is what its fields do.
pub proof fn law_segment_message_parts(segment: U64Segment)
    ensures
        match segment.segment {
            Some(Segment::Range(r)) => segment@ == Some(
                SegmentMessage::Range { start: r.start, end: r.end },
            ),
            Some(Segment::RangeWithHoles(r)) => segment@ == Some(
                SegmentMessage::RangeWithHoles {
                    start: r.start,
                    end: r.end,
                    holes: match r.holes {
                        Some(array) => Some(array@),
                        None => None,
                    },
                },
            ),
            Some(Segment::RangeWithBitmap(r)) => segment@ == Some(
                SegmentMessage::RangeWithBitmap {
                    start: r.start,
                    end: r.end,
                    bitmap: contents(r.bitmap),
                },
            ),
            Some(Segment::SortedArray(array)) => segment@ == Some(
                SegmentMessage::SortedArray(array@),
            ),
            Some(Segment::Array(array)) => segment@ == Some(SegmentMessage::Array(array@)),
            Some(Segment::RangeWithRuns(r)) => segment@ == Some(
                SegmentMessage::RangeWithRuns {
                    start: r.start,
                    end: r.end,
                    hole_starts: match r.hole_starts {
                        Some(array) => Some(array@),
                        None => None,
                    },
                    hole_ends: match r.hole_ends {
                        Some(array) => Some(array@),
                        None => None,
                    },
                },
            ),
            None => segment@ is None,
        },
{
}

/// What a message holds is what its segments do, in order.
pub proof fn law_sequence_message_parts(sequence: RowIdSequence)
    ensures
        sequence@.len() == sequence.segments@.len(),
        forall|i: int|
            0 <= i < sequence.segments@.len() ==> #[trigger] sequence@[i]
                == sequence.segments@[i]@,
{
}

} // verus!
