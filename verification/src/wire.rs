//! The wire format: a message is a list of fields, each a key followed by a value.

pub mod laws;

use crate::buffer;
use crate::buffer::contents;
use crate::error::decimal;
use bytes::Bytes;
use prost::encoding::{DecodeContext, WireType};
use prost::DecodeError;
use vstd::prelude::*;
use vstd::string::*;

verus! {

/// The error of the `prost` crate's decoding functions.
#[verifier::external_type_specification]
#[verifier::external_body]
pub struct ExDecodeError(prost::DecodeError);

/// A value in groups of seven bits, lowest first, each but the last with its high bit set.
pub const VARINT: u64 = 0;

/// Eight bytes.
pub const SIXTY_FOUR_BIT: u64 = 1;

/// A length, and as many bytes.
pub const LENGTH_DELIMITED: u64 = 2;

/// The start of a group of fields.
pub const START_GROUP: u64 = 3;

/// The end of a group of fields.
pub const END_GROUP: u64 = 4;

/// Four bytes.
pub const THIRTY_TWO_BIT: u64 = 5;

/// The largest tag that a field can have.
pub const MAX_TAG: u32 = 0x1fff_ffff;

/// How `value` is written as a varint.
pub open spec fn varint(value: nat) -> Seq<u8>
    decreases value,
{
    if value < 128 {
        seq![value as u8]
    } else {
        seq![(value % 128 + 128) as u8] + varint(value / 128)
    }
}

/// The varint of at most `room` bytes that `bytes` start with, and what follows it.
pub open spec fn leading_varint(bytes: Seq<u8>, room: nat) -> Option<(nat, Seq<u8>)>
    decreases room,
{
    if room == 0 || bytes.len() == 0 {
        None
    } else if bytes[0] < 128 {
        Some((bytes[0] as nat, bytes.skip(1)))
    } else {
        match leading_varint(bytes.skip(1), (room - 1) as nat) {
            Some((value, rest)) => Some(((bytes[0] - 128 + 128 * value) as nat, rest)),
            None => None,
        }
    }
}

/// How the text of each decoding error starts.
pub open spec fn error_prefix() -> Seq<char> {
    "failed to decode Protobuf message: "@
}

/// Why bytes are not a message, and where.
#[verifier::ext_equal]
pub struct Fault {
    /// The fields at fault, the innermost first, each with its message.
    pub place: Seq<char>,
    /// What is wrong.
    pub cause: Seq<char>,
}

impl Fault {
    /// The fault in words.
    pub open spec fn text(self) -> Seq<char> {
        error_prefix() + self.place + self.cause
    }

    /// The fault, found within a field of a message.
    pub open spec fn within(self, message: Seq<char>, field: Seq<char>) -> Fault {
        Fault { place: self.place + message + "."@ + field + ": "@, cause: self.cause }
    }
}

/// A fault whose place is not known yet.
pub open spec fn fault(cause: Seq<char>) -> Fault {
    Fault { place: Seq::empty(), cause }
}

/// What was read, or the fault, found within a field of a message.
pub open spec fn located<T>(
    result: Result<T, Fault>,
    message: Seq<char>,
    field: Seq<char>,
) -> Result<T, Fault> {
    match result {
        Ok(value) => Ok(value),
        Err(fault) => Err(fault.within(message, field)),
    }
}

/// The name of a wire type.
pub open spec fn wire_name(wire: u64) -> Seq<char> {
    if wire == VARINT {
        "Varint"@
    } else if wire == SIXTY_FOUR_BIT {
        "SixtyFourBit"@
    } else if wire == LENGTH_DELIMITED {
        "LengthDelimited"@
    } else if wire == START_GROUP {
        "StartGroup"@
    } else if wire == END_GROUP {
        "EndGroup"@
    } else {
        "ThirtyTwoBit"@
    }
}

/// A field has another wire type than it should have.
pub open spec fn wrong_wire_type(expected: u64, actual: u64) -> Fault {
    fault(
        "invalid wire type: "@ + wire_name(actual) + " (expected "@ + wire_name(expected) + ")"@,
    )
}

/// The 64 bit value that `bytes` start with, and what follows it.
pub open spec fn varint_at(bytes: Seq<u8>) -> Result<(u64, Seq<u8>), Fault> {
    match leading_varint(bytes, 10) {
        Some((value, rest)) => if value <= u64::MAX {
            Ok((value as u64, rest))
        } else {
            Err(fault("invalid varint"@))
        },
        None => Err(fault("invalid varint"@)),
    }
}

/// The tag and the wire type of the field that `bytes` start with, and what follows its key.
pub open spec fn key_at(bytes: Seq<u8>) -> Result<(u32, u64, Seq<u8>), Fault> {
    match varint_at(bytes) {
        Ok((key, rest)) => if key > u32::MAX {
            Err(fault("invalid key value: "@ + decimal(key as nat)))
        } else if key % 8 > THIRTY_TWO_BIT {
            Err(fault("invalid wire type value: "@ + decimal((key % 8) as nat)))
        } else if key < 8 {
            Err(fault("invalid tag value: 0"@))
        } else {
            Ok(((key / 8) as u32, key % 8, rest))
        },
        Err(fault) => Err(fault),
    }
}

/// The payload after the length that `bytes` start with, and what follows it.
pub open spec fn payload_at(bytes: Seq<u8>) -> Result<(Seq<u8>, Seq<u8>), Fault> {
    match varint_at(bytes) {
        Ok((len, rest)) => if len <= rest.len() {
            Ok((rest.take(len as int), rest.skip(len as int)))
        } else {
            Err(fault("buffer underflow"@))
        },
        Err(fault) => Err(fault),
    }
}

/// What follows the value, of any wire type but a group, that `bytes` start with.
pub open spec fn after_value(wire: u64, bytes: Seq<u8>) -> Result<Seq<u8>, Fault> {
    if wire == VARINT {
        match varint_at(bytes) {
            Ok((value, rest)) => Ok(rest),
            Err(fault) => Err(fault),
        }
    } else if wire == LENGTH_DELIMITED {
        match payload_at(bytes) {
            Ok((payload, rest)) => Ok(rest),
            Err(fault) => Err(fault),
        }
    } else if wire == END_GROUP {
        Err(fault("unexpected end group tag"@))
    } else {
        let width: nat = if wire == SIXTY_FOUR_BIT {
            8
        } else {
            4
        };
        if bytes.len() >= width {
            Ok(bytes.skip(width as int))
        } else {
            Err(fault("buffer underflow"@))
        }
    }
}

/// What the text of a decoding error is made of, after how each starts: the place and the cause.
pub uninterp spec fn error_parts(error: DecodeError) -> (Seq<char>, Seq<char>);

/// The fault that a decoding error reports.
pub open spec fn error_fault(error: DecodeError) -> Fault {
    Fault { place: error_parts(error).0, cause: error_parts(error).1 }
}

/// `prost::encoding::decode_varint` takes a varint off the front of a buffer. It accepts any
/// varint of at most ten bytes whose value fits in 64 bits, and calls anything else invalid.
#[verifier::external_body]
fn decode_varint(buf: &mut Bytes) -> (result: Result<u64, DecodeError>)
    ensures
        match varint_at(contents(*old(buf))) {
            Ok((value, rest)) => result == Ok::<u64, DecodeError>(value) && contents(*final(buf))
                == rest,
            Err(fault) => result matches Err(error) && error_fault(error) == fault,
        },
{
    prost::encoding::decode_varint(buf)
}

/// `prost::encoding::decode_key` takes a key off the front of a buffer. It accepts any varint of
/// 32 bits that has one of the six wire types in its lowest three bits and a tag other than zero
/// above them, and says which of these fails, in this order.
#[verifier::external_body]
fn decode_key(buf: &mut Bytes) -> (result: Result<(u32, u64), DecodeError>)
    ensures
        match key_at(contents(*old(buf))) {
            Ok((tag, wire, rest)) => result == Ok::<(u32, u64), DecodeError>((tag, wire))
                && contents(*final(buf)) == rest,
            Err(fault) => result matches Err(error) && error_fault(error) == fault,
        },
{
    match prost::encoding::decode_key(buf) {
        Ok((tag, wire)) => Ok((tag, wire as u64)),
        Err(error) => Err(error),
    }
}

/// `prost::encoding::bytes::merge` takes a length and as many bytes off the front of a buffer.
/// The bytes that it returns share the memory of the buffer. It fails where the length is no
/// varint, or there are fewer bytes.
#[verifier::external_body]
fn decode_payload(buf: &mut Bytes) -> (result: Result<Bytes, DecodeError>)
    ensures
        match payload_at(contents(*old(buf))) {
            Ok((payload, rest)) => result matches Ok(value) && contents(value) == payload
                && contents(*final(buf)) == rest,
            Err(fault) => result matches Err(error) && error_fault(error) == fault,
        },
{
    let mut value = Bytes::new();
    let ctx = DecodeContext::default();
    match prost::encoding::bytes::merge(WireType::LengthDelimited, &mut value, buf, ctx) {
        Ok(()) => Ok(value),
        Err(error) => Err(error),
    }
}

/// `prost::encoding::skip_field` takes a value off the front of a buffer. It refuses a value that
/// is cut short, and the end of a group that was not started.
#[verifier::external_body]
fn skip_value(wire: u64, tag: u32, buf: &mut Bytes) -> (result: Result<(), DecodeError>)
    requires
        wire <= THIRTY_TWO_BIT,
        wire != START_GROUP,
    ensures
        match after_value(wire, contents(*old(buf))) {
            Ok(rest) => result is Ok && contents(*final(buf)) == rest,
            Err(fault) => result matches Err(error) && error_fault(error) == fault,
        },
{
    prost::encoding::skip_field(WireType::try_from(wire)?, tag, buf, DecodeContext::default())
}

/// `prost::encoding::check_wire_type` fails exactly when the two wire types differ, and names both.
#[verifier::external_body]
fn check_wire_type(expected: u64, actual: u64) -> (result: Result<(), DecodeError>)
    requires
        expected <= THIRTY_TWO_BIT,
        actual <= THIRTY_TWO_BIT,
    ensures
        if expected == actual {
            result is Ok
        } else {
            result matches Err(error) && error_fault(error) == wrong_wire_type(expected, actual)
        },
{
    prost::encoding::check_wire_type(WireType::try_from(expected)?, WireType::try_from(actual)?)
}

/// `DecodeError::push` adds a message and a field of it to the place of the error.
#[verifier::external_body]
fn push_place(error: DecodeError, message: &'static str, field: &'static str) -> (outer: DecodeError)
    ensures
        error_fault(outer) == error_fault(error).within(message@, field@),
{
    let mut outer = error;
    outer.push(message, field);
    outer
}

/// `DecodeError::to_string` gives the words with which each error starts, then the place and the
/// cause.
#[verifier::external_body]
fn describe_error(error: &DecodeError) -> (text: String)
    ensures
        text@ == error_prefix() + error_parts(*error).0 + error_parts(*error).1,
{
    error.to_string()
}

/// `prost::encoding::uint64::encode` appends a key of the varint wire type and the value.
#[verifier::external_body]
pub(crate) fn encode_number(tag: u32, value: u64, out: &mut Vec<u8>)
    requires
        1 <= tag <= MAX_TAG,
    ensures
        final(out)@ == old(out)@ + varint((tag * 8 + VARINT) as nat) + varint(value as nat),
{
    prost::encoding::uint64::encode(tag, &value, out)
}

/// `prost::encoding::bytes::encode` appends a key of the length-delimited wire type, the length
/// and the bytes of a buffer.
#[verifier::external_body]
pub(crate) fn encode_buffer(tag: u32, value: &Bytes, out: &mut Vec<u8>)
    requires
        1 <= tag <= MAX_TAG,
    ensures
        final(out)@ == old(out)@ + varint((tag * 8 + LENGTH_DELIMITED) as nat) + varint(
            contents(*value).len(),
        ) + contents(*value),
{
    prost::encoding::bytes::encode(tag, value, out)
}

/// `prost::encoding::bytes::encode` appends a key of the length-delimited wire type, the length
/// and the bytes of a vector.
#[verifier::external_body]
pub(crate) fn encode_bytes(tag: u32, value: &Vec<u8>, out: &mut Vec<u8>)
    requires
        1 <= tag <= MAX_TAG,
    ensures
        final(out)@ == old(out)@ + varint((tag * 8 + LENGTH_DELIMITED) as nat) + varint(
            value@.len(),
        ) + value@,
{
    prost::encoding::bytes::encode(tag, value, out)
}

proof fn lemma_leading_varint_shrinks(bytes: Seq<u8>, room: nat)
    ensures
        leading_varint(bytes, room) matches Some((value, rest)) ==> rest.len() < bytes.len(),
    decreases room,
{
    if room > 0 && bytes.len() > 0 && bytes[0] >= 128 {
        lemma_leading_varint_shrinks(bytes.skip(1), (room - 1) as nat);
    }
}

/// Reading takes at least a byte for a key or a varint, and never gives back more than there was.
pub proof fn law_reading_advances(bytes: Seq<u8>)
    ensures
        varint_at(bytes) matches Ok((value, rest)) ==> rest.len() < bytes.len(),
        key_at(bytes) matches Ok((tag, wire, rest)) ==> rest.len() < bytes.len(),
        payload_at(bytes) matches Ok((payload, rest)) ==> rest.len() < bytes.len(),
        forall|wire: u64|
            (#[trigger] after_value(wire, bytes)) matches Ok(rest) ==> rest.len() <= bytes.len(),
{
    lemma_leading_varint_shrinks(bytes, 10);
}

/// What follows the groups with the tags `open`, each within the one before it, of which `bytes`
/// are the rest. No field may lie within `room` groups.
pub open spec fn after_groups(open: Seq<u32>, bytes: Seq<u8>, room: nat) -> Result<Seq<u8>, Fault>
    decreases bytes.len(),
{
    if open.len() == 0 {
        Ok(bytes)
    } else {
        match key_at(bytes) {
            Ok((tag, wire, rest)) => {
                proof {
                    law_reading_advances(bytes);
                    law_reading_advances(rest);
                }
                if wire == END_GROUP {
                    if tag == open.last() {
                        after_groups(open.drop_last(), rest, room)
                    } else {
                        Err(fault("unexpected end group tag"@))
                    }
                } else if open.len() >= room {
                    Err(fault("recursion limit reached"@))
                } else if wire == START_GROUP {
                    after_groups(open.push(tag), rest, room)
                } else {
                    match after_value(wire, rest) {
                        Ok(rest) => after_groups(open, rest, room),
                        Err(fault) => Err(fault),
                    }
                }
            },
            Err(fault) => Err(fault),
        }
    }
}

/// What follows a field that no message uses, after its key. It may be a group, and fields may lie
/// within fewer than `room` groups.
pub open spec fn skipped(tag: u32, wire: u64, bytes: Seq<u8>, room: nat) -> Result<Seq<u8>, Fault> {
    if room == 0 {
        Err(fault("recursion limit reached"@))
    } else if wire == START_GROUP {
        after_groups(seq![tag], bytes, room)
    } else {
        after_value(wire, bytes)
    }
}

/// The number that follows the key of a field.
pub open spec fn number_at(wire: u64, bytes: Seq<u8>) -> Result<(u64, Seq<u8>), Fault> {
    if wire == VARINT {
        varint_at(bytes)
    } else {
        Err(wrong_wire_type(VARINT, wire))
    }
}

/// The payload that follows the key of a field.
pub open spec fn field_payload_at(wire: u64, bytes: Seq<u8>) -> Result<(Seq<u8>, Seq<u8>), Fault> {
    if wire == LENGTH_DELIMITED {
        payload_at(bytes)
    } else {
        Err(wrong_wire_type(LENGTH_DELIMITED, wire))
    }
}

/// Where the nested message begins that follows the key of a field, and how many bytes are left
/// where it should end.
pub open spec fn nested_at(wire: u64, bytes: Seq<u8>, room: nat) -> Result<(Seq<u8>, nat), Fault> {
    if wire != LENGTH_DELIMITED {
        Err(wrong_wire_type(LENGTH_DELIMITED, wire))
    } else if room == 0 {
        Err(fault("recursion limit reached"@))
    } else {
        match varint_at(bytes) {
            Ok((len, rest)) => if len <= rest.len() {
                Ok((rest, (rest.len() - len) as nat))
            } else {
                Err(fault("buffer underflow"@))
            },
            Err(fault) => Err(fault),
        }
    }
}

proof fn lemma_groups_shrink(open: Seq<u32>, bytes: Seq<u8>, room: nat)
    ensures
        after_groups(open, bytes, room) matches Ok(rest) ==> rest.len() <= bytes.len(),
    decreases bytes.len(),
{
    if open.len() > 0 {
        if let Ok((tag, wire, rest)) = key_at(bytes) {
            law_reading_advances(bytes);
            law_reading_advances(rest);
            if wire == END_GROUP {
                lemma_groups_shrink(open.drop_last(), rest, room);
            } else if wire == START_GROUP {
                lemma_groups_shrink(open.push(tag), rest, room);
            } else if let Ok(rest) = after_value(wire, rest) {
                lemma_groups_shrink(open, rest, room);
            }
        }
    }
}

/// Reading what follows a key never gives back more than there was.
pub proof fn law_value_advances(tag: u32, wire: u64, bytes: Seq<u8>, room: nat)
    ensures
        skipped(tag, wire, bytes, room) matches Ok(rest) ==> rest.len() <= bytes.len(),
        number_at(wire, bytes) matches Ok((value, rest)) ==> rest.len() <= bytes.len(),
        field_payload_at(wire, bytes) matches Ok((payload, rest)) ==> rest.len() <= bytes.len(),
        nested_at(wire, bytes, room) matches Ok((rest, limit)) ==> rest.len() < bytes.len() && limit
            <= rest.len(),
{
    law_reading_advances(bytes);
    lemma_groups_shrink(seq![tag], bytes, room);
}

/// A field that is written.
#[verifier::ext_equal]
pub enum Field {
    /// A varint.
    Number { tag: u32, value: u64 },
    /// A length-delimited payload.
    Payload { tag: u32, payload: Seq<u8> },
}

impl Field {
    /// The tag of the field.
    pub open spec fn tag(self) -> u32 {
        match self {
            Field::Number { tag, value } => tag,
            Field::Payload { tag, payload } => tag,
        }
    }

    /// The wire type of the field.
    pub open spec fn wire(self) -> u64 {
        match self {
            Field::Number { tag, value } => VARINT,
            Field::Payload { tag, payload } => LENGTH_DELIMITED,
        }
    }

    /// What follows the key of the field.
    pub open spec fn value_bytes(self) -> Seq<u8> {
        match self {
            Field::Number { tag, value } => varint(value as nat),
            Field::Payload { tag, payload } => varint(payload.len()) + payload,
        }
    }

    /// How the field is written.
    pub open spec fn bytes(self) -> Seq<u8> {
        varint((self.tag() * 8 + self.wire()) as nat) + self.value_bytes()
    }
}

/// How a list of fields is written.
pub open spec fn written(fields: Seq<Field>) -> Seq<u8>
    decreases fields.len(),
{
    if fields.len() == 0 {
        Seq::empty()
    } else {
        written(fields.drop_last()) + fields.last().bytes()
    }
}

/// The number of values whose varints take at most `room` bytes.
spec fn varint_range(room: nat) -> nat
    decreases room,
{
    if room == 0 {
        1
    } else {
        128 * varint_range((room - 1) as nat)
    }
}

proof fn lemma_leading_varint(value: nat, rest: Seq<u8>, room: nat)
    requires
        room > 0,
        value < varint_range(room),
    ensures
        leading_varint(varint(value) + rest, room) == Some((value, rest)),
        1 <= varint(value).len() <= room,
    decreases room,
{
    let bytes = varint(value) + rest;
    if value < 128 {
        assert(bytes.skip(1) =~= rest);
    } else {
        assert(room > 1) by {
            reveal_with_fuel(varint_range, 2);
        }
        lemma_leading_varint(value / 128, rest, (room - 1) as nat);
        assert(bytes.skip(1) =~= varint(value / 128) + rest);
    }
}

/// A varint is read back, whatever follows it.
pub proof fn law_varint_round_trip(value: u64, rest: Seq<u8>)
    ensures
        varint_at(varint(value as nat) + rest) == Ok::<(u64, Seq<u8>), Fault>((value, rest)),
        1 <= varint(value as nat).len() <= 10,
{
    assert(value < varint_range(10)) by {
        reveal_with_fuel(varint_range, 11);
    }
    lemma_leading_varint(value as nat, rest, 10);
}

/// The key of a field is read back, whatever follows the field.
pub proof fn law_key_round_trip(field: Field, rest: Seq<u8>)
    requires
        1 <= field.tag() <= MAX_TAG,
    ensures
        key_at(field.bytes() + rest) == Ok::<(u32, u64, Seq<u8>), Fault>(
            (field.tag(), field.wire(), field.value_bytes() + rest),
        ),
        field.bytes().len() > field.value_bytes().len(),
{
    let key = (field.tag() * 8 + field.wire()) as u64;
    law_varint_round_trip(key, field.value_bytes() + rest);
    assert(field.bytes() + rest =~= varint(key as nat) + (field.value_bytes() + rest));
}

/// A payload is read back, whatever follows it, and a message nested in it ends where it does.
pub proof fn law_payload_round_trip(payload: Seq<u8>, rest: Seq<u8>, room: nat)
    requires
        payload.len() <= u64::MAX,
        room > 0,
    ensures
        payload_at(varint(payload.len()) + payload + rest) == Ok::<(Seq<u8>, Seq<u8>), Fault>(
            (payload, rest),
        ),
        nested_at(LENGTH_DELIMITED, varint(payload.len()) + payload + rest, room) == Ok::<
            (Seq<u8>, nat),
            Fault,
        >((payload + rest, rest.len())),
{
    law_varint_round_trip(payload.len() as u64, payload + rest);
    assert(varint(payload.len()) + payload + rest =~= varint(payload.len()) + (payload + rest));
    assert((payload + rest).take(payload.len() as int) =~= payload);
    assert((payload + rest).skip(payload.len() as int) =~= rest);
}

/// How messages and groups can fail to lie within each other.
#[derive(Debug, Clone, Copy, PartialEq, Eq, Structural)]
pub enum NestingFault {
    /// A message is longer than what is left.
    Underflow,
    /// The last field of a message ends after the message.
    LengthExceeded,
    /// Groups lie within each other too deep.
    TooDeep,
}

impl NestingFault {
    /// What is wrong, in words.
    pub open spec fn text(self) -> Seq<char> {
        match self {
            NestingFault::Underflow => "buffer underflow"@,
            NestingFault::LengthExceeded => "delimited length exceeded"@,
            NestingFault::TooDeep => "recursion limit reached"@,
        }
    }

    /// What is wrong, in words.
    fn words(self) -> (words: &'static str)
        ensures
            words@ == self.text(),
    {
        match self {
            NestingFault::Underflow => "buffer underflow",
            NestingFault::LengthExceeded => "delimited length exceeded",
            NestingFault::TooDeep => "recursion limit reached",
        }
    }
}

/// Why bytes are not a message.
#[derive(Debug, PartialEq, Eq)]
pub enum WireError {
    /// The decoder does not accept a key or a value.
    Malformed(DecodeError),
    /// Messages or groups do not lie within each other as they should.
    Nesting { place: String, cause: NestingFault },
}

impl WireError {
    /// A fault in how messages or groups lie within each other, at a place not known yet.
    pub(crate) fn nesting(cause: NestingFault) -> (error: WireError)
        ensures
            error.fault() == fault(cause.text()),
    {
        let error = WireError::Nesting { place: String::new(), cause };
        assert(error.fault() =~= fault(cause.text()));
        error
    }

    /// What is wrong, and where.
    pub open spec fn fault(self) -> Fault {
        match self {
            WireError::Malformed(error) => error_fault(error),
            WireError::Nesting { place, cause } => Fault { place: place@, cause: cause.text() },
        }
    }

    /// The error, found within a field of a message.
    fn within(self, message: &'static str, field: &'static str) -> (outer: WireError)
        ensures
            outer.fault() == self.fault().within(message@, field@),
    {
        match self {
            WireError::Malformed(error) => WireError::Malformed(push_place(error, message, field)),
            WireError::Nesting { place, cause } => {
                let mut place = place;
                place.append(message);
                place.append(".");
                place.append(field);
                place.append(": ");
                WireError::Nesting { place, cause }
            },
        }
    }

    /// What is wrong and where, in words.
    pub fn describe(&self) -> (text: String)
        ensures
            text@ == self.fault().text(),
    {
        match self {
            WireError::Malformed(error) => describe_error(error),
            WireError::Nesting { place, cause } => {
                let mut text = String::from_str("failed to decode Protobuf message: ");
                text.append(place.as_str());
                text.append(cause.words());
                text
            },
        }
    }
}

/// The result of reading a field of a message: an error is one within that field.
pub(crate) fn in_field<T>(
    result: Result<T, WireError>,
    message: &'static str,
    field: &'static str,
) -> (outer: Result<T, WireError>)
    ensures
        match result {
            Ok(value) => outer == Ok::<T, WireError>(value),
            Err(error) => outer matches Err(e) && e.fault() == error.fault().within(
                message@,
                field@,
            ),
        },
{
    match result {
        Ok(value) => Ok(value),
        Err(error) => Err(error.within(message, field)),
    }
}

/// Fails unless a field has the wire type that it should have.
fn expect_wire_type(expected: u64, actual: u64) -> (result: Result<(), WireError>)
    requires
        expected <= THIRTY_TWO_BIT,
        actual <= THIRTY_TWO_BIT,
    ensures
        if expected == actual {
            result is Ok
        } else {
            result matches Err(error) && error.fault() == wrong_wire_type(expected, actual)
        },
{
    match check_wire_type(expected, actual) {
        Ok(_) => Ok(()),
        Err(error) => Err(WireError::Malformed(error)),
    }
}

/// Reads the key of a field.
pub(crate) fn read_key(buf: &mut Bytes) -> (result: Result<(u32, u64), WireError>)
    ensures
        match key_at(contents(*old(buf))) {
            Ok((tag, wire, rest)) => result == Ok::<(u32, u64), WireError>((tag, wire))
                && contents(*final(buf)) == rest,
            Err(fault) => result matches Err(error) && error.fault() == fault,
        },
{
    match decode_key(buf) {
        Ok(key) => Ok(key),
        Err(error) => Err(WireError::Malformed(error)),
    }
}

/// Reads the number that follows the key of a field.
pub(crate) fn read_number(wire: u64, buf: &mut Bytes) -> (result: Result<u64, WireError>)
    requires
        wire <= THIRTY_TWO_BIT,
    ensures
        match number_at(wire, contents(*old(buf))) {
            Ok((value, rest)) => result == Ok::<u64, WireError>(value) && contents(*final(buf))
                == rest,
            Err(fault) => result matches Err(error) && error.fault() == fault,
        },
{
    expect_wire_type(VARINT, wire)?;
    match decode_varint(buf) {
        Ok(value) => Ok(value),
        Err(error) => Err(WireError::Malformed(error)),
    }
}

/// Reads the payload that follows the key of a field.
pub(crate) fn read_payload(wire: u64, buf: &mut Bytes) -> (result: Result<Bytes, WireError>)
    requires
        wire <= THIRTY_TWO_BIT,
    ensures
        match field_payload_at(wire, contents(*old(buf))) {
            Ok((payload, rest)) => result matches Ok(value) && contents(value) == payload
                && contents(*final(buf)) == rest,
            Err(fault) => result matches Err(error) && error.fault() == fault,
        },
{
    expect_wire_type(LENGTH_DELIMITED, wire)?;
    match decode_payload(buf) {
        Ok(value) => Ok(value),
        Err(error) => Err(WireError::Malformed(error)),
    }
}

/// Reads the length of the nested message that follows the key of a field, and gives how many bytes
/// are left where the message should end.
pub(crate) fn read_limit(wire: u64, buf: &mut Bytes, room: u32) -> (result: Result<
    usize,
    WireError,
>)
    requires
        wire <= THIRTY_TWO_BIT,
    ensures
        match nested_at(wire, contents(*old(buf)), room as nat) {
            Ok((rest, limit)) => result matches Ok(left) && left == limit && contents(*final(buf))
                == rest,
            Err(fault) => result matches Err(error) && error.fault() == fault,
        },
{
    expect_wire_type(LENGTH_DELIMITED, wire)?;
    if room == 0 {
        return Err(WireError::nesting(NestingFault::TooDeep));
    }
    let len = match decode_varint(buf) {
        Ok(len) => len,
        Err(error) => return Err(WireError::Malformed(error)),
    };
    let left = buffer::len(buf);
    if len > left as u64 {
        return Err(WireError::nesting(NestingFault::Underflow));
    }
    Ok(left - len as usize)
}

/// Skips the group that was started with `tag`.
///
/// The decoder counts how deep messages and groups lie within each other, and gives up at a limit.
/// It has no way to be told of the messages that were taken apart here. So the groups are taken
/// apart here too, and the decoder skips the fields that they hold.
fn skip_group(tag: u32, buf: &mut Bytes, room: u32) -> (result: Result<(), WireError>)
    ensures
        match after_groups(seq![tag], contents(*old(buf)), room as nat) {
            Ok(rest) => result is Ok && contents(*final(buf)) == rest,
            Err(fault) => result matches Err(error) && error.fault() == fault,
        },
{
    let mut open: Vec<u32> = vec![tag];
    assert(open@ =~= seq![tag]);
    while open.len() > 0
        invariant
            after_groups(seq![tag], contents(*old(buf)), room as nat) == after_groups(
                open@,
                contents(*buf),
                room as nat,
            ),
        decreases contents(*buf).len(),
    {
        proof {
            law_reading_advances(contents(*buf));
        }
        let (inner, wire) = read_key(buf)?;
        proof {
            law_reading_advances(contents(*buf));
        }
        if wire == END_GROUP && inner == open[open.len() - 1] {
            open.pop();
        } else if wire != END_GROUP && open.len() as u64 >= room as u64 {
            return Err(WireError::nesting(NestingFault::TooDeep));
        } else if wire == START_GROUP {
            open.push(inner);
        } else {
            match skip_value(wire, inner, buf) {
                Ok(_) => {},
                Err(error) => return Err(WireError::Malformed(error)),
            }
        }
    }
    Ok(())
}

/// Skips a field that no message uses, after its key.
pub(crate) fn skip_unknown(tag: u32, wire: u64, buf: &mut Bytes, room: u32) -> (result: Result<
    (),
    WireError,
>)
    requires
        wire <= THIRTY_TWO_BIT,
    ensures
        match skipped(tag, wire, contents(*old(buf)), room as nat) {
            Ok(rest) => result is Ok && contents(*final(buf)) == rest,
            Err(fault) => result matches Err(error) && error.fault() == fault,
        },
{
    if room == 0 {
        Err(WireError::nesting(NestingFault::TooDeep))
    } else if wire == START_GROUP {
        skip_group(tag, buf, room)
    } else {
        match skip_value(wire, tag, buf) {
            Ok(_) => Ok(()),
            Err(error) => Err(WireError::Malformed(error)),
        }
    }
}

} // verus!
