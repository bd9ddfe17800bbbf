//! Which fields each message is written with, and that it is read back from them.

use super::decode::{read_sequence, NESTING_LIMIT};
use super::encoded_u64_array::{ArrayMessage, U16Array, U32Array, U64Array};
use super::merge::{after_fields, Message};
use super::u64_segment::{
    Range, RangeWithBitmap, RangeWithHoles, RangeWithRuns, SegmentMessage,
};
use super::{EncodedU64Array, RowIdSequence, U64Segment};
use crate::wire::{
    field_payload_at, law_key_round_trip, law_payload_round_trip, law_varint_round_trip, nested_at,
    number_at, varint, written, Fault, Field, LENGTH_DELIMITED, MAX_TAG, VARINT,
};
use vstd::prelude::*;

verus! {

/// A number, which is left out when it is zero.
pub open spec fn number_field(tag: u32, value: u64) -> Seq<Field> {
    if value == 0 {
        Seq::empty()
    } else {
        seq![Field::Number { tag, value }]
    }
}

/// Bytes, which are left out when there are none.
pub open spec fn payload_field(tag: u32, payload: Seq<u8>) -> Seq<Field> {
    if payload.len() == 0 {
        Seq::empty()
    } else {
        seq![Field::Payload { tag, payload }]
    }
}

/// A nested message.
pub open spec fn message_field(tag: u32, inner: Seq<Field>) -> Seq<Field> {
    seq![Field::Payload { tag, payload: written(inner) }]
}

/// The fields of an array of offsets from a base.
pub open spec fn offsets_fields(base: u64, offsets: Seq<u8>) -> Seq<Field> {
    number_field(1, base) + payload_field(2, offsets)
}

/// The fields of an array message.
pub open spec fn array_fields(message: Option<ArrayMessage>) -> Seq<Field> {
    match message {
        Some(ArrayMessage::U16Array { base, offsets }) => message_field(
            1,
            offsets_fields(base, offsets),
        ),
        Some(ArrayMessage::U32Array { base, offsets }) => message_field(
            2,
            offsets_fields(base, offsets),
        ),
        Some(ArrayMessage::U64Array { values }) => message_field(3, payload_field(2, values)),
        None => Seq::empty(),
    }
}

/// An array message, which is left out when it is absent.
pub open spec fn array_field(tag: u32, message: Option<Option<ArrayMessage>>) -> Seq<Field> {
    match message {
        Some(array) => message_field(tag, array_fields(array)),
        None => Seq::empty(),
    }
}

/// The fields of a range.
pub open spec fn range_fields(start: u64, end: u64) -> Seq<Field> {
    number_field(1, start) + number_field(2, end)
}

/// The fields of a segment message.
pub open spec fn segment_fields(message: Option<SegmentMessage>) -> Seq<Field> {
    match message {
        Some(SegmentMessage::Range { start, end }) => message_field(1, range_fields(start, end)),
        Some(SegmentMessage::RangeWithHoles { start, end, holes }) => message_field(
            2,
            range_fields(start, end) + array_field(3, holes),
        ),
        Some(SegmentMessage::RangeWithBitmap { start, end, bitmap }) => message_field(
            3,
            range_fields(start, end) + payload_field(3, bitmap),
        ),
        Some(SegmentMessage::SortedArray(array)) => message_field(4, array_fields(array)),
        Some(SegmentMessage::Array(array)) => message_field(5, array_fields(array)),
        Some(SegmentMessage::RangeWithRuns { start, end, hole_starts, hole_ends }) => message_field(
            6,
            range_fields(start, end) + array_field(3, hole_starts) + array_field(4, hole_ends),
        ),
        None => Seq::empty(),
    }
}

/// The fields of a sequence message.
pub open spec fn sequence_fields(messages: Seq<Option<SegmentMessage>>) -> Seq<Field> {
    messages.map_values(
        |message: Option<SegmentMessage>| Field::Payload {
            tag: 1,
            payload: written(segment_fields(message)),
        },
    )
}

/// How a sequence message is written.
pub open spec fn sequence_bytes(messages: Seq<Option<SegmentMessage>>) -> Seq<u8> {
    written(sequence_fields(messages))
}

pub(crate) proof fn lemma_written_join(a: Seq<Field>, b: Seq<Field>)
    ensures
        written(a + b) == written(a) + written(b),
    decreases b.len(),
{
    if b.len() == 0 {
        assert(a + b =~= a);
        assert(written(a) + written(b) =~= written(a));
    } else {
        lemma_written_join(a, b.drop_last());
        assert((a + b).drop_last() =~= a + b.drop_last());
        assert((a + b).last() == b.last());
        assert(written(a) + (written(b.drop_last()) + b.last().bytes()) =~= (written(a) + written(
            b.drop_last(),
        )) + b.last().bytes());
    }
}

pub(crate) proof fn lemma_written_one(field: Field)
    ensures
        written(seq![field]) == field.bytes(),
{
    assert(seq![field].drop_last() =~= Seq::empty());
    assert(written(Seq::<Field>::empty()) + field.bytes() =~= field.bytes());
}

/// What is written of part of a list is no longer than what is written of the whole.
proof fn lemma_part_fits(a: Seq<Field>, b: Seq<Field>)
    ensures
        written(a).len() <= written(a + b).len(),
        written(b).len() <= written(a + b).len(),
{
    lemma_written_join(a, b);
}

proof fn lemma_message_field(tag: u32, inner: Seq<Field>)
    ensures
        written(inner).len() <= written(message_field(tag, inner)).len(),
{
    lemma_written_one(message_field(tag, inner)[0]);
}

/// Reading goes on after a field with what the field adds.
proof fn lemma_step<M: Message>(
    message: <M as View>::V,
    field: Field,
    after: Seq<u8>,
    limit: nat,
    room: nat,
)
    requires
        1 <= field.tag() <= MAX_TAG,
        limit <= after.len(),
    ensures
        after_fields::<M>(message, written(seq![field]) + after, limit, room)
            == match M::after_field(
            message,
            field.tag(),
            field.wire(),
            field.value_bytes() + after,
            room,
        ) {
            Ok((next, rest)) => after_fields::<M>(next, rest, limit, room),
            Err(fault) => Err(fault),
        },
{
    lemma_written_one(field);
    law_key_round_trip(field, after);
}

/// What is written first is read first.
proof fn lemma_join_then(a: Seq<Field>, b: Seq<Field>, rest: Seq<u8>)
    ensures
        written(a + b) + rest == written(a) + (written(b) + rest),
{
    lemma_written_join(a, b);
    assert(written(a) + written(b) + rest =~= written(a) + (written(b) + rest));
}

proof fn lemma_nothing(rest: Seq<u8>)
    ensures
        written(Seq::empty()) + rest == rest,
{
    assert(written(Seq::empty()) + rest =~= rest);
}

proof fn lemma_number_step<M: Message>(
    message: <M as View>::V,
    tag: u32,
    value: u64,
    after: Seq<u8>,
    limit: nat,
    room: nat,
)
    requires
        1 <= tag <= MAX_TAG,
        limit <= after.len(),
    ensures
        number_at(VARINT, varint(value as nat) + after) == Ok::<(u64, Seq<u8>), Fault>(
            (value, after),
        ),
        after_fields::<M>(message, written(number_field(tag, value)) + after, limit, room)
            == if value == 0 {
            after_fields::<M>(message, after, limit, room)
        } else {
            match M::after_field(message, tag, VARINT, varint(value as nat) + after, room) {
                Ok((next, rest)) => after_fields::<M>(next, rest, limit, room),
                Err(fault) => Err(fault),
            }
        },
{
    law_varint_round_trip(value, after);
    lemma_nothing(after);
    lemma_step::<M>(message, Field::Number { tag, value }, after, limit, room);
}

proof fn lemma_payload_step<M: Message>(
    message: <M as View>::V,
    tag: u32,
    payload: Seq<u8>,
    after: Seq<u8>,
    limit: nat,
    room: nat,
)
    requires
        1 <= tag <= MAX_TAG,
        limit <= after.len(),
        written(payload_field(tag, payload)).len() <= u64::MAX,
    ensures
        field_payload_at(LENGTH_DELIMITED, varint(payload.len()) + payload + after) == Ok::<
            (Seq<u8>, Seq<u8>),
            Fault,
        >((payload, after)),
        after_fields::<M>(message, written(payload_field(tag, payload)) + after, limit, room)
            == if payload.len() == 0 {
            after_fields::<M>(message, after, limit, room)
        } else {
            match M::after_field(
                message,
                tag,
                LENGTH_DELIMITED,
                varint(payload.len()) + payload + after,
                room,
            ) {
                Ok((next, rest)) => after_fields::<M>(next, rest, limit, room),
                Err(fault) => Err(fault),
            }
        },
{
    lemma_written_one(Field::Payload { tag, payload });
    law_payload_round_trip(payload, after, 1);
    lemma_nothing(after);
    lemma_step::<M>(message, Field::Payload { tag, payload }, after, limit, room);
}

proof fn lemma_message_step<M: Message>(
    message: <M as View>::V,
    tag: u32,
    inner: Seq<Field>,
    after: Seq<u8>,
    limit: nat,
    room: nat,
)
    requires
        1 <= tag <= MAX_TAG,
        limit <= after.len(),
        room > 0,
        written(message_field(tag, inner)).len() <= u64::MAX,
    ensures
        written(inner).len() <= u64::MAX,
        nested_at(
            LENGTH_DELIMITED,
            varint(written(inner).len()) + written(inner) + after,
            room,
        ) == Ok::<(Seq<u8>, nat), Fault>((written(inner) + after, after.len())),
        after_fields::<M>(message, written(message_field(tag, inner)) + after, limit, room)
            == match M::after_field(
            message,
            tag,
            LENGTH_DELIMITED,
            varint(written(inner).len()) + written(inner) + after,
            room,
        ) {
            Ok((next, rest)) => after_fields::<M>(next, rest, limit, room),
            Err(fault) => Err(fault),
        },
{
    lemma_message_field(tag, inner);
    law_payload_round_trip(written(inner), after, room);
    lemma_step::<M>(message, message_field(tag, inner)[0], after, limit, room);
}

proof fn lemma_u16_array(base: u64, offsets: Seq<u8>, rest: Seq<u8>, room: nat)
    requires
        written(offsets_fields(base, offsets)).len() <= u64::MAX,
    ensures
        after_fields::<U16Array>(
            (0, Seq::empty()),
            written(offsets_fields(base, offsets)) + rest,
            rest.len(),
            room,
        ) == Ok::<((u64, Seq<u8>), Seq<u8>), Fault>(((base, offsets), rest)),
{
    let (a, b) = (number_field(1, base), payload_field(2, offsets));
    let none = Seq::<u8>::empty();
    lemma_join_then(a, b, rest);
    lemma_part_fits(a, b);
    lemma_number_step::<U16Array>((0, none), 1, base, written(b) + rest, rest.len(), room);
    lemma_payload_step::<U16Array>((base, none), 2, offsets, rest, rest.len(), room);
    assert(offsets.len() == 0 ==> offsets =~= none);
}

proof fn lemma_u32_array(base: u64, offsets: Seq<u8>, rest: Seq<u8>, room: nat)
    requires
        written(offsets_fields(base, offsets)).len() <= u64::MAX,
    ensures
        after_fields::<U32Array>(
            (0, Seq::empty()),
            written(offsets_fields(base, offsets)) + rest,
            rest.len(),
            room,
        ) == Ok::<((u64, Seq<u8>), Seq<u8>), Fault>(((base, offsets), rest)),
{
    let (a, b) = (number_field(1, base), payload_field(2, offsets));
    let none = Seq::<u8>::empty();
    lemma_join_then(a, b, rest);
    lemma_part_fits(a, b);
    lemma_number_step::<U32Array>((0, none), 1, base, written(b) + rest, rest.len(), room);
    lemma_payload_step::<U32Array>((base, none), 2, offsets, rest, rest.len(), room);
    assert(offsets.len() == 0 ==> offsets =~= none);
}

proof fn lemma_u64_array(values: Seq<u8>, rest: Seq<u8>, room: nat)
    requires
        written(payload_field(2, values)).len() <= u64::MAX,
    ensures
        after_fields::<U64Array>(
            Seq::empty(),
            written(payload_field(2, values)) + rest,
            rest.len(),
            room,
        ) == Ok::<(Seq<u8>, Seq<u8>), Fault>((values, rest)),
{
    let none = Seq::<u8>::empty();
    lemma_payload_step::<U64Array>(none, 2, values, rest, rest.len(), room);
    assert(values.len() == 0 ==> values =~= none);
}

/// An array message is read back, whatever follows it.
pub proof fn law_array_message_round_trip(message: Option<ArrayMessage>, rest: Seq<u8>, room: nat)
    requires
        written(array_fields(message)).len() <= u64::MAX,
        room > 0,
    ensures
        after_fields::<EncodedU64Array>(
            None,
            written(array_fields(message)) + rest,
            rest.len(),
            room,
        ) == Ok::<(Option<ArrayMessage>, Seq<u8>), Fault>((message, rest)),
{
    let inner = (room - 1) as nat;
    match message {
        Some(ArrayMessage::U16Array { base, offsets }) => {
            let list = offsets_fields(base, offsets);
            lemma_message_step::<EncodedU64Array>(None, 1, list, rest, rest.len(), room);
            lemma_u16_array(base, offsets, rest, inner);
        },
        Some(ArrayMessage::U32Array { base, offsets }) => {
            let list = offsets_fields(base, offsets);
            lemma_message_step::<EncodedU64Array>(None, 2, list, rest, rest.len(), room);
            lemma_u32_array(base, offsets, rest, inner);
        },
        Some(ArrayMessage::U64Array { values }) => {
            let list = payload_field(2, values);
            lemma_message_step::<EncodedU64Array>(None, 3, list, rest, rest.len(), room);
            lemma_u64_array(values, rest, inner);
        },
        None => {
            lemma_nothing(rest);
        },
    }
}

proof fn lemma_range(start: u64, end: u64, rest: Seq<u8>, room: nat)
    ensures
        after_fields::<Range>(
            (0, 0),
            written(range_fields(start, end)) + rest,
            rest.len(),
            room,
        ) == Ok::<((u64, u64), Seq<u8>), Fault>(((start, end), rest)),
{
    let (a, b) = (number_field(1, start), number_field(2, end));
    lemma_join_then(a, b, rest);
    lemma_number_step::<Range>((0, 0), 1, start, written(b) + rest, rest.len(), room);
    lemma_number_step::<Range>((start, 0), 2, end, rest, rest.len(), room);
}

proof fn lemma_range_with_holes(
    start: u64,
    end: u64,
    holes: Option<Option<ArrayMessage>>,
    rest: Seq<u8>,
    room: nat,
)
    requires
        written(range_fields(start, end) + array_field(3, holes)).len() <= u64::MAX,
        room > 1,
    ensures
        after_fields::<RangeWithHoles>(
            (0, 0, None),
            written(range_fields(start, end) + array_field(3, holes)) + rest,
            rest.len(),
            room,
        ) == Ok::<((u64, u64, Option<Option<ArrayMessage>>), Seq<u8>), Fault>(
            ((start, end, holes), rest),
        ),
{
    let (a, b, c) = (number_field(1, start), number_field(2, end), array_field(3, holes));
    let limit = rest.len();
    let after_end = written(c) + rest;
    lemma_part_fits(a + b, c);
    lemma_join_then(a + b, c, rest);
    lemma_join_then(a, b, after_end);
    lemma_number_step::<RangeWithHoles>((0, 0, None), 1, start, written(b) + after_end, limit, room);
    lemma_number_step::<RangeWithHoles>((start, 0, None), 2, end, after_end, limit, room);
    if let Some(array) = holes {
        let list = array_fields(array);
        lemma_message_step::<RangeWithHoles>((start, end, None), 3, list, rest, limit, room);
        law_array_message_round_trip(array, rest, (room - 1) as nat);
    } else {
        lemma_nothing(rest);
    }
}

proof fn lemma_range_with_bitmap(start: u64, end: u64, bitmap: Seq<u8>, rest: Seq<u8>, room: nat)
    requires
        written(range_fields(start, end) + payload_field(3, bitmap)).len() <= u64::MAX,
    ensures
        after_fields::<RangeWithBitmap>(
            (0, 0, Seq::empty()),
            written(range_fields(start, end) + payload_field(3, bitmap)) + rest,
            rest.len(),
            room,
        ) == Ok::<((u64, u64, Seq<u8>), Seq<u8>), Fault>(((start, end, bitmap), rest)),
{
    let (a, b, c) = (number_field(1, start), number_field(2, end), payload_field(3, bitmap));
    let none = Seq::<u8>::empty();
    let limit = rest.len();
    let after_end = written(c) + rest;
    lemma_part_fits(a + b, c);
    lemma_join_then(a + b, c, rest);
    lemma_join_then(a, b, after_end);
    lemma_number_step::<RangeWithBitmap>((0, 0, none), 1, start, written(b) + after_end, limit, room);
    lemma_number_step::<RangeWithBitmap>((start, 0, none), 2, end, after_end, limit, room);
    lemma_payload_step::<RangeWithBitmap>((start, end, none), 3, bitmap, rest, limit, room);
    assert(bitmap.len() == 0 ==> bitmap =~= none);
}

proof fn lemma_range_with_runs(
    start: u64,
    end: u64,
    hole_starts: Option<Option<ArrayMessage>>,
    hole_ends: Option<Option<ArrayMessage>>,
    rest: Seq<u8>,
    room: nat,
)
    requires
        written(
            range_fields(start, end) + array_field(3, hole_starts) + array_field(4, hole_ends),
        ).len() <= u64::MAX,
        room > 1,
    ensures
        after_fields::<RangeWithRuns>(
            (0, 0, None, None),
            written(
                range_fields(start, end) + array_field(3, hole_starts) + array_field(4, hole_ends),
            ) + rest,
            rest.len(),
            room,
        ) == Ok::<
            ((u64, u64, Option<Option<ArrayMessage>>, Option<Option<ArrayMessage>>), Seq<u8>),
            Fault,
        >(((start, end, hole_starts, hole_ends), rest)),
{
    let (a, b) = (number_field(1, start), number_field(2, end));
    let (c, d) = (array_field(3, hole_starts), array_field(4, hole_ends));
    let none = None::<Option<ArrayMessage>>;
    let limit = rest.len();
    let after_starts = written(d) + rest;
    let after_end = written(c) + after_starts;
    lemma_part_fits(a + b + c, d);
    lemma_part_fits(a + b, c);
    lemma_join_then(a + b + c, d, rest);
    lemma_join_then(a + b, c, after_starts);
    lemma_join_then(a, b, after_end);
    lemma_number_step::<RangeWithRuns>(
        (0, 0, none, none),
        1,
        start,
        written(b) + after_end,
        limit,
        room,
    );
    lemma_number_step::<RangeWithRuns>((start, 0, none, none), 2, end, after_end, limit, room);
    if let Some(array) = hole_starts {
        let list = array_fields(array);
        let message = (start, end, none, none);
        lemma_message_step::<RangeWithRuns>(message, 3, list, after_starts, limit, room);
        law_array_message_round_trip(array, after_starts, (room - 1) as nat);
    } else {
        lemma_nothing(after_starts);
    }
    if let Some(array) = hole_ends {
        let list = array_fields(array);
        let message = (start, end, hole_starts, none);
        lemma_message_step::<RangeWithRuns>(message, 4, list, rest, limit, room);
        law_array_message_round_trip(array, rest, (room - 1) as nat);
    } else {
        lemma_nothing(rest);
    }
}

/// A segment message is read back, whatever follows it.
pub proof fn law_segment_message_round_trip(
    message: Option<SegmentMessage>,
    rest: Seq<u8>,
    room: nat,
)
    requires
        written(segment_fields(message)).len() <= u64::MAX,
        room > 2,
    ensures
        after_fields::<U64Segment>(
            None,
            written(segment_fields(message)) + rest,
            rest.len(),
            room,
        ) == Ok::<(Option<SegmentMessage>, Seq<u8>), Fault>((message, rest)),
{
    let inner = (room - 1) as nat;
    let limit = rest.len();
    match message {
        Some(SegmentMessage::Range { start, end }) => {
            let list = range_fields(start, end);
            lemma_message_step::<U64Segment>(None, 1, list, rest, limit, room);
            lemma_range(start, end, rest, inner);
        },
        Some(SegmentMessage::RangeWithHoles { start, end, holes }) => {
            let list = range_fields(start, end) + array_field(3, holes);
            lemma_message_step::<U64Segment>(None, 2, list, rest, limit, room);
            lemma_range_with_holes(start, end, holes, rest, inner);
        },
        Some(SegmentMessage::RangeWithBitmap { start, end, bitmap }) => {
            let list = range_fields(start, end) + payload_field(3, bitmap);
            lemma_message_step::<U64Segment>(None, 3, list, rest, limit, room);
            lemma_range_with_bitmap(start, end, bitmap, rest, inner);
        },
        Some(SegmentMessage::SortedArray(array)) => {
            lemma_message_step::<U64Segment>(None, 4, array_fields(array), rest, limit, room);
            law_array_message_round_trip(array, rest, inner);
        },
        Some(SegmentMessage::Array(array)) => {
            lemma_message_step::<U64Segment>(None, 5, array_fields(array), rest, limit, room);
            law_array_message_round_trip(array, rest, inner);
        },
        Some(SegmentMessage::RangeWithRuns { start, end, hole_starts, hole_ends }) => {
            let list = range_fields(start, end) + array_field(3, hole_starts) + array_field(
                4,
                hole_ends,
            );
            lemma_message_step::<U64Segment>(None, 6, list, rest, limit, room);
            lemma_range_with_runs(start, end, hole_starts, hole_ends, rest, inner);
        },
        None => {
            lemma_nothing(rest);
        },
    }
}

/// A list of segment messages is read back after those before it.
proof fn lemma_sequence(
    before: Seq<Option<SegmentMessage>>,
    messages: Seq<Option<SegmentMessage>>,
    room: nat,
)
    requires
        sequence_bytes(messages).len() <= u64::MAX,
        room > 3,
    ensures
        after_fields::<RowIdSequence>(before, sequence_bytes(messages), 0, room) == Ok::<
            (Seq<Option<SegmentMessage>>, Seq<u8>),
            Fault,
        >((before + messages, Seq::empty())),
    decreases messages.len(),
{
    let list = sequence_fields(messages);
    if messages.len() == 0 {
        assert(before + messages =~= before);
    } else {
        let (first, others) = (messages[0], messages.skip(1));
        let (a, b) = (message_field(1, segment_fields(first)), sequence_fields(others));
        let after = sequence_bytes(others);
        assert(list =~= a + b);
        lemma_part_fits(a, b);
        lemma_written_join(a, b);
        lemma_message_step::<RowIdSequence>(before, 1, segment_fields(first), after, 0, room);
        law_segment_message_round_trip(first, after, (room - 1) as nat);
        lemma_sequence(before.push(first), others, room);
        assert(before.push(first) + others =~= before + messages);
    }
}

/// A sequence message is read back, if it can be written.
pub proof fn law_sequence_message_round_trip(messages: Seq<Option<SegmentMessage>>)
    requires
        sequence_bytes(messages).len() <= u64::MAX,
    ensures
        read_sequence(sequence_bytes(messages)) == Ok::<Seq<Option<SegmentMessage>>, Fault>(
            messages,
        ),
{
    lemma_sequence(Seq::empty(), messages, NESTING_LIMIT as nat);
    assert(Seq::<Option<SegmentMessage>>::empty() + messages =~= messages);
}

} // verus!
