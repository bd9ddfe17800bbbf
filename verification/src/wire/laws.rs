//! What each step of reading takes off the front of the bytes, and what it refuses.

use super::{
    after_groups, after_value, error_prefix, fault, field_payload_at, key_at, leading_varint,
    located, nested_at, number_at, payload_at, skipped, varint_at, wire_name, written,
    wrong_wire_type, Fault, Field, NestingFault, WireError,
};
use crate::error::decimal;
use vstd::arithmetic::div_mod::lemma_div_denominator;
use vstd::arithmetic::power::{lemma_pow0, lemma_pow_increases, lemma_pow_positive, pow};
use vstd::prelude::*;

verus! {

/// The number that `groups` stand for, seven bits each and the lowest first.
spec fn groups_value(groups: Seq<u8>) -> nat
    decreases groups.len(),
{
    if groups.len() == 0 {
        0
    } else {
        (groups[0] % 128) as nat + 128 * groups_value(groups.skip(1))
    }
}

/// Whether `bytes` start with a varint of `len` bytes.
pub open spec fn varint_ends(bytes: Seq<u8>, len: int) -> bool {
    &&& 1 <= len <= bytes.len()
    &&& bytes[len - 1] < 128
    &&& forall|i: int| 0 <= i < len - 1 ==> #[trigger] bytes[i] >= 128
}

proof fn lemma_varint_found(bytes: Seq<u8>, room: nat, len: int)
    requires
        varint_ends(bytes, len),
    ensures
        leading_varint(bytes, room) == if len <= room {
            Some((groups_value(bytes.take(len)), bytes.skip(len)))
        } else {
            None
        },
    decreases room,
{
    if room > 0 {
        let tail = bytes.skip(1);
        assert(bytes.take(len).skip(1) =~= tail.take(len - 1));
        if len == 1 {
            assert(groups_value(tail.take(0)) == 0);
        } else {
            assert(varint_ends(tail, len - 1));
            lemma_varint_found(tail, (room - 1) as nat, len - 1);
            assert(tail.skip(len - 1) =~= bytes.skip(len));
        }
    }
}

proof fn lemma_varint_missing(bytes: Seq<u8>, room: nat)
    requires
        forall|i: int| 0 <= i < bytes.len() ==> #[trigger] bytes[i] >= 128,
    ensures
        leading_varint(bytes, room) is None,
    decreases room,
{
    if room > 0 && bytes.len() > 0 {
        assert forall|i: int| 0 <= i < bytes.skip(1).len() implies #[trigger] bytes.skip(1)[i]
            >= 128 by {
            assert(bytes.skip(1)[i] == bytes[i + 1]);
        }
        lemma_varint_missing(bytes.skip(1), (room - 1) as nat);
    }
}

/// The place of the first byte below 128, or the number of bytes where there is none.
proof fn lemma_first_low(bytes: Seq<u8>) -> (len: int)
    ensures
        varint_ends(bytes, len) || (len == 0 && forall|i: int|
            0 <= i < bytes.len() ==> #[trigger] bytes[i] >= 128),
    decreases bytes.len(),
{
    if bytes.len() == 0 {
        0
    } else if bytes[0] < 128 {
        1
    } else {
        let tail = bytes.skip(1);
        let len = lemma_first_low(tail);
        if varint_ends(tail, len) {
            assert forall|i: int| 0 <= i < len implies #[trigger] bytes[i] >= 128 by {
                if i > 0 {
                    assert(bytes[i] == tail[i - 1]);
                }
            }
            assert(bytes[len] == tail[len - 1]);
            len + 1
        } else {
            assert forall|i: int| 0 <= i < bytes.len() implies #[trigger] bytes[i] >= 128 by {
                if i > 0 {
                    assert(bytes[i] == tail[i - 1]);
                }
            }
            0
        }
    }
}

proof fn lemma_groups_at(groups: Seq<u8>, at: int)
    requires
        0 <= at < groups.len(),
    ensures
        groups_value(groups) / (pow(128, at as nat) as nat) % 128 == groups[at] % 128,
    decreases at,
{
    let whole = groups_value(groups);
    let tail = groups.skip(1);
    let rest = groups_value(tail);
    assert(whole == (groups[0] % 128) as nat + 128 * rest);
    if at == 0 {
        lemma_pow0(128);
        assert(whole / 1 == whole);
        assert(whole % 128 == groups[0] % 128);
    } else {
        lemma_groups_at(tail, at - 1);
        lemma_pow_positive(128, (at - 1) as nat);
        let power = pow(128, (at - 1) as nat);
        assert(pow(128, at as nat) == 128 * power) by {
            reveal(pow);
        }
        assert(whole / 128 == rest);
        lemma_div_denominator(whole as int, 128, power);
    }
}

proof fn lemma_groups_bound(groups: Seq<u8>)
    ensures
        groups_value(groups) < pow(128, groups.len()),
    decreases groups.len(),
{
    if groups.len() == 0 {
        lemma_pow0(128);
    } else {
        lemma_groups_bound(groups.skip(1));
        reveal(pow);
    }
}

/// A varint is read exactly when one of the first ten bytes has no high bit and the number fits in
/// 64 bits. It ends with the first such byte, and its bytes hold the number seven bits each, the
/// lowest first.
pub proof fn law_varint_read(bytes: Seq<u8>)
    ensures
        match varint_at(bytes) {
            Ok((value, rest)) => exists|len: int|
                #![trigger varint_ends(bytes, len)]
                {
                    &&& varint_ends(bytes, len)
                    &&& len <= 10
                    &&& rest == bytes.skip(len)
                    &&& value < pow(128, len as nat)
                    &&& forall|i: int|
                        0 <= i < len ==> #[trigger] bytes[i] % 128 == value as nat / (pow(
                            128,
                            i as nat,
                        ) as nat) % 128
                },
            Err(e) => {
                &&& e == fault("invalid varint"@)
                &&& forall|len: int| #[trigger] varint_ends(bytes, len) ==> len >= 10
                &&& varint_ends(bytes, 10) ==> bytes[9] > 1
            },
        },
{
    let len = lemma_first_low(bytes);
    if varint_ends(bytes, len) {
        lemma_varint_found(bytes, 10, len);
        let groups = bytes.take(len);
        let value = groups_value(groups);
        lemma_groups_bound(groups);
        assert forall|i: int| 0 <= i < len implies #[trigger] bytes[i] % 128 == value / (pow(
            128,
            i as nat,
        ) as nat) % 128 by {
            lemma_groups_at(groups, i);
        }
        assert forall|other: int| #[trigger] varint_ends(bytes, other) implies other == len by {
            if other < len {
                assert(bytes[other - 1] >= 128);
            }
            if len < other {
                assert(bytes[len - 1] >= 128);
            }
        }
        if len <= 9 {
            lemma_pow_increases(128, len as nat, 9);
            assert(pow(128, 9) == 0x8000_0000_0000_0000) by {
                reveal_with_fuel(pow, 10);
            }
        } else if len == 10 && bytes[9] <= 1 {
            lemma_top_group(groups);
        }
    } else {
        lemma_varint_missing(bytes, 10);
    }
}

proof fn lemma_top_group(groups: Seq<u8>)
    requires
        groups.len() == 10,
        groups[9] <= 1,
    ensures
        groups_value(groups) <= u64::MAX,
{
    let one = groups.skip(1);
    let two = one.skip(1);
    let three = two.skip(1);
    let four = three.skip(1);
    let five = four.skip(1);
    let six = five.skip(1);
    let seven = six.skip(1);
    let eight = seven.skip(1);
    let nine = eight.skip(1);
    assert(nine[0] == groups[9]);
    assert(groups_value(nine.skip(1)) == 0);
    assert(groups_value(nine) <= 1);
    assert(groups_value(eight) <= 127 + 128 * groups_value(nine));
    assert(groups_value(seven) <= 127 + 128 * groups_value(eight));
    assert(groups_value(six) <= 127 + 128 * groups_value(seven));
    assert(groups_value(five) <= 127 + 128 * groups_value(six));
    assert(groups_value(four) <= 127 + 128 * groups_value(five));
    assert(groups_value(three) <= 127 + 128 * groups_value(four));
    assert(groups_value(two) <= 127 + 128 * groups_value(three));
    assert(groups_value(one) <= 127 + 128 * groups_value(two));
    assert(groups_value(groups) <= 127 + 128 * groups_value(one));
}

/// A key is a varint of 32 bits. Its lowest three bits are one of the six wire types, and above
/// them is the tag, which is not zero.
pub proof fn law_key_read(bytes: Seq<u8>)
    ensures
        match varint_at(bytes) {
            Ok((key, rest)) => match key_at(bytes) {
                Ok((tag, wire, after)) => {
                    &&& tag * 8 + wire == key
                    &&& wire <= 5 && tag >= 1
                    &&& after == rest
                    &&& key < 0x1_0000_0000
                },
                Err(e) => {
                    ||| key >= 0x1_0000_0000 && e == fault(
                        "invalid key value: "@ + decimal(key as nat),
                    )
                    ||| key < 0x1_0000_0000 && key % 8 > 5 && e == fault(
                        "invalid wire type value: "@ + decimal((key % 8) as nat),
                    )
                    ||| key <= 5 && e == fault("invalid tag value: 0"@)
                },
            },
            Err(e) => key_at(bytes) == Err::<(u32, u64, Seq<u8>), Fault>(e),
        },
{
}

/// A payload is a length and as many bytes, and is refused where there are fewer. The message
/// nested in a payload starts after the length and ends where the payload does.
pub proof fn law_payload_read(bytes: Seq<u8>, room: nat)
    requires
        room > 0,
    ensures
        match varint_at(bytes) {
            Ok((len, rest)) => if len <= rest.len() {
                &&& payload_at(bytes) matches Ok((payload, after))
                &&& payload.len() == len
                &&& payload + after == rest
                &&& nested_at(2, bytes, room) == Ok::<(Seq<u8>, nat), Fault>((rest, after.len()))
            } else {
                &&& payload_at(bytes) == Err::<(Seq<u8>, Seq<u8>), Fault>(
                    fault("buffer underflow"@),
                )
                &&& nested_at(2, bytes, room) == Err::<(Seq<u8>, nat), Fault>(
                    fault("buffer underflow"@),
                )
            },
            Err(e) => {
                &&& payload_at(bytes) == Err::<(Seq<u8>, Seq<u8>), Fault>(e)
                &&& nested_at(2, bytes, room) == Err::<(Seq<u8>, nat), Fault>(e)
            },
        },
        nested_at(2, bytes, 0) == Err::<(Seq<u8>, nat), Fault>(fault("recursion limit reached"@)),
{
    if let Ok((len, rest)) = varint_at(bytes) {
        if len <= rest.len() {
            assert(rest.take(len as int) + rest.skip(len as int) =~= rest);
        }
    }
}

/// A field is read as what its wire type says, and only where that is the wire type that it should
/// have.
pub proof fn law_wire_type_checked(wire: u64, bytes: Seq<u8>, room: nat)
    ensures
        number_at(0, bytes) == varint_at(bytes),
        field_payload_at(2, bytes) == payload_at(bytes),
        wire != 0 ==> number_at(wire, bytes) == Err::<(u64, Seq<u8>), Fault>(
            wrong_wire_type(0, wire),
        ),
        wire != 2 ==> field_payload_at(wire, bytes) == Err::<(Seq<u8>, Seq<u8>), Fault>(
            wrong_wire_type(2, wire),
        ),
        wire != 2 ==> nested_at(wire, bytes, room) == Err::<(Seq<u8>, nat), Fault>(
            wrong_wire_type(2, wire),
        ),
{
}

/// A value that is passed over is a varint, eight bytes, a payload, or four bytes, by its wire
/// type. The end of a group is not a value.
pub proof fn law_value_passed(bytes: Seq<u8>)
    ensures
        match varint_at(bytes) {
            Ok((value, rest)) => after_value(0, bytes) == Ok::<Seq<u8>, Fault>(rest),
            Err(e) => after_value(0, bytes) == Err::<Seq<u8>, Fault>(e),
        },
        match payload_at(bytes) {
            Ok((payload, rest)) => after_value(2, bytes) == Ok::<Seq<u8>, Fault>(rest),
            Err(e) => after_value(2, bytes) == Err::<Seq<u8>, Fault>(e),
        },
        if bytes.len() >= 8 {
            after_value(1, bytes) == Ok::<Seq<u8>, Fault>(bytes.skip(8))
        } else {
            after_value(1, bytes) == Err::<Seq<u8>, Fault>(fault("buffer underflow"@))
        },
        if bytes.len() >= 4 {
            after_value(5, bytes) == Ok::<Seq<u8>, Fault>(bytes.skip(4))
        } else {
            after_value(5, bytes) == Err::<Seq<u8>, Fault>(fault("buffer underflow"@))
        },
        after_value(4, bytes) == Err::<Seq<u8>, Fault>(fault("unexpected end group tag"@)),
{
}

/// A field that no message uses is passed over. A group is passed over with all fields up to the
/// end of the same group, which may be groups themselves, as deep as there is room.
pub proof fn law_unknown_passed(
    tag: u32,
    wire: u64,
    open: Seq<u32>,
    bytes: Seq<u8>,
    room: nat,
)
    requires
        wire <= 5,
        open.len() > 0,
    ensures
        skipped(tag, wire, bytes, 0) == Err::<Seq<u8>, Fault>(fault("recursion limit reached"@)),
        room > 0 && wire != 3 ==> skipped(tag, wire, bytes, room) == after_value(wire, bytes),
        room > 0 ==> skipped(tag, 3, bytes, room) == after_groups(seq![tag], bytes, room),
        after_groups(Seq::empty(), bytes, room) == Ok::<Seq<u8>, Fault>(bytes),
        match key_at(bytes) {
            Err(e) => after_groups(open, bytes, room) == Err::<Seq<u8>, Fault>(e),
            Ok((inner, kind, rest)) => {
                &&& kind == 4 && inner == open.last() ==> after_groups(open, bytes, room)
                    == after_groups(open.drop_last(), rest, room)
                &&& kind == 4 && inner != open.last() ==> after_groups(open, bytes, room) == Err::<
                    Seq<u8>,
                    Fault,
                >(fault("unexpected end group tag"@))
                &&& kind != 4 && open.len() >= room ==> after_groups(open, bytes, room) == Err::<
                    Seq<u8>,
                    Fault,
                >(fault("recursion limit reached"@))
                &&& kind == 3 && open.len() < room ==> after_groups(open, bytes, room)
                    == after_groups(open.push(inner), rest, room)
                &&& kind != 3 && kind != 4 && open.len() < room ==> match after_value(kind, rest) {
                    Ok(after) => after_groups(open, bytes, room) == after_groups(
                        open,
                        after,
                        room,
                    ),
                    Err(e) => after_groups(open, bytes, room) == Err::<Seq<u8>, Fault>(e),
                }
            },
        },
{
}

/// A fault reads as the words that each starts with, the fields it lies within, the innermost
/// first, and what is wrong. Being within one more field adds that field, and changes nothing
/// else.
pub proof fn law_fault_text(
    inner: Fault,
    message: Seq<char>,
    field: Seq<char>,
    cause: Seq<char>,
)
    ensures
        fault(cause).text() == "failed to decode Protobuf message: "@ + cause,
        inner.text() == "failed to decode Protobuf message: "@ + inner.place + inner.cause,
        inner.within(message, field).text() == "failed to decode Protobuf message: "@ + inner.place
            + message + "."@ + field + ": "@ + inner.cause,
        inner.within(message, field).cause == inner.cause,
        inner.within(message, field).place == inner.place + message + "."@ + field + ": "@,
{
    assert(error_prefix() + Seq::<char>::empty() + cause =~= error_prefix() + cause);
    assert(error_prefix() + (inner.place + message + "."@ + field + ": "@) =~= error_prefix()
        + inner.place + message + "."@ + field + ": "@);
}

/// What was read within a field is what was read.
pub proof fn law_located<T>(result: Result<T, Fault>, message: Seq<char>, field: Seq<char>)
    ensures
        match result {
            Ok(value) => located(result, message, field) == Ok::<T, Fault>(value),
            Err(e) => located(result, message, field) == Err::<T, Fault>(e.within(message, field)),
        },
{
}

/// A wrong wire type is named, and so is the one that there should be.
pub proof fn law_wire_names(expected: u64, actual: u64)
    ensures
        wire_name(0) == "Varint"@,
        wire_name(1) == "SixtyFourBit"@,
        wire_name(2) == "LengthDelimited"@,
        wire_name(3) == "StartGroup"@,
        wire_name(4) == "EndGroup"@,
        wire_name(5) == "ThirtyTwoBit"@,
        wrong_wire_type(expected, actual) == fault(
            "invalid wire type: "@ + wire_name(actual) + " (expected "@ + wire_name(expected)
                + ")"@,
        ),
{
}

/// What is wrong with how messages lie within each other, in words.
pub proof fn law_nesting_texts(place: String, cause: NestingFault)
    ensures
        ({
            let fault = (WireError::Nesting { place, cause }).fault();
            &&& fault.place == place@
            &&& cause == NestingFault::Underflow ==> fault.cause == "buffer underflow"@
            &&& cause == NestingFault::LengthExceeded ==> fault.cause
                == "delimited length exceeded"@
            &&& cause == NestingFault::TooDeep ==> fault.cause == "recursion limit reached"@
        }),
{
}

/// Fields are written one after the other, each with its key and its value.
pub proof fn law_fields_written(fields: Seq<Field>, field: Field)
    ensures
        written(Seq::empty()) == Seq::<u8>::empty(),
        written(fields.push(field)) == written(fields) + field.bytes(),
        match field {
            Field::Number { tag, value } => field.bytes() == super::varint((tag * 8) as nat)
                + super::varint(value as nat),
            Field::Payload { tag, payload } => field.bytes() == super::varint((tag * 8 + 2) as nat)
                + super::varint(payload.len()) + payload,
        },
{
    assert(fields.push(field).drop_last() =~= fields);
    if let Field::Payload { tag, payload } = field {
        assert(super::varint((tag * 8 + 2) as nat) + (super::varint(payload.len()) + payload)
            =~= super::varint((tag * 8 + 2) as nat) + super::varint(payload.len()) + payload);
    }
}

} // verus!
