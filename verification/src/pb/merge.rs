//! Reading messages field by field.
//!
//! A field that a message does not know is passed over. Where a field occurs more than once, the
//! last one counts, or, for a nested message, what it holds is added to what the earlier ones held.

use crate::buffer;
use crate::buffer::contents;
use crate::wire::{
    fault, key_at, law_reading_advances, law_value_advances, nested_at, read_key, read_limit, Fault,
    NestingFault, WireError, THIRTY_TWO_BIT,
};
use bytes::Bytes;
use vstd::prelude::*;

verus! {

/// A message that is read field by field.
pub trait Message: Sized + View {
    /// The message after the field with the key that precedes `bytes`, and what follows the field.
    spec fn after_field(
        message: <Self as View>::V,
        tag: u32,
        wire: u64,
        bytes: Seq<u8>,
        room: nat,
    ) -> Result<(<Self as View>::V, Seq<u8>), Fault>;

    /// Reading a field never gives back more than there was.
    proof fn law_field_advances(
        message: <Self as View>::V,
        tag: u32,
        wire: u64,
        bytes: Seq<u8>,
        room: nat,
    )
        ensures
            Self::after_field(message, tag, wire, bytes, room) matches Ok((read, rest)) ==> rest.len()
                <= bytes.len(),
    ;

    /// Adds the field with the key that was read.
    fn merge_field(self, tag: u32, wire: u64, buf: &mut Bytes, room: u32) -> (result: Result<
        Self,
        WireError,
    >)
        requires
            wire <= THIRTY_TWO_BIT,
        ensures
            match Self::after_field(self@, tag, wire, contents(*old(buf)), room as nat) {
                Ok((message, rest)) => result matches Ok(read) && read@ == message && contents(
                    *final(buf),
                ) == rest,
                Err(fault) => result matches Err(error) && error.fault() == fault,
            },
    ;
}

/// The message after the fields that `bytes` start with, up to where `limit` bytes are left, and
/// what follows them.
pub open spec fn after_fields<M: Message>(
    message: <M as View>::V,
    bytes: Seq<u8>,
    limit: nat,
    room: nat,
) -> Result<(<M as View>::V, Seq<u8>), Fault>
    decreases bytes.len(),
{
    if bytes.len() < limit {
        Err(fault("delimited length exceeded"@))
    } else if bytes.len() == limit {
        Ok((message, bytes))
    } else {
        match key_at(bytes) {
            Ok((tag, wire, value)) => match M::after_field(message, tag, wire, value, room) {
                Ok((next, rest)) => {
                    proof {
                        law_reading_advances(bytes);
                        M::law_field_advances(message, tag, wire, value, room);
                    }
                    after_fields::<M>(next, rest, limit, room)
                },
                Err(fault) => Err(fault),
            },
            Err(fault) => Err(fault),
        }
    }
}

/// The message after what the nested message adds that follows the key of a field.
pub open spec fn after_nested<M: Message>(
    message: <M as View>::V,
    wire: u64,
    bytes: Seq<u8>,
    room: nat,
) -> Result<(<M as View>::V, Seq<u8>), Fault> {
    match nested_at(wire, bytes, room) {
        Ok((rest, limit)) => after_fields::<M>(message, rest, limit, (room - 1) as nat),
        Err(fault) => Err(fault),
    }
}

pub(crate) proof fn lemma_fields_advance<M: Message>(
    message: <M as View>::V,
    bytes: Seq<u8>,
    limit: nat,
    room: nat,
)
    ensures
        after_fields::<M>(message, bytes, limit, room) matches Ok((read, rest)) ==> rest.len()
            == limit <= bytes.len(),
    decreases bytes.len(),
{
    if bytes.len() > limit {
        if let Ok((tag, wire, value)) = key_at(bytes) {
            law_reading_advances(bytes);
            M::law_field_advances(message, tag, wire, value, room);
            if let Ok((message, rest)) = M::after_field(message, tag, wire, value, room) {
                lemma_fields_advance::<M>(message, rest, limit, room);
            }
        }
    }
}

/// Reading a nested message never gives back more than there was.
pub proof fn law_nested_advances<M: Message>(
    message: <M as View>::V,
    wire: u64,
    bytes: Seq<u8>,
    room: nat,
)
    ensures
        after_nested::<M>(message, wire, bytes, room) matches Ok((read, rest)) ==> rest.len()
            < bytes.len(),
{
    law_value_advances(1, wire, bytes, room);
    if let Ok((rest, limit)) = nested_at(wire, bytes, room) {
        lemma_fields_advance::<M>(message, rest, limit, (room - 1) as nat);
    }
}

/// Adds fields to a message, up to where `limit` bytes are left.
pub(crate) fn merge_fields<M: Message>(
    initial: M,
    buf: &mut Bytes,
    limit: usize,
    room: u32,
) -> (result: Result<M, WireError>)
    ensures
        match after_fields::<M>(initial@, contents(*old(buf)), limit as nat, room as nat) {
            Ok((expected, rest)) => result matches Ok(read) && read@ == expected && contents(
                *final(buf),
            ) == rest,
            Err(fault) => result matches Err(error) && error.fault() == fault,
        },
{
    let ghost first = initial@;
    let mut message = initial;
    while buffer::len(buf) > limit
        invariant
            first == initial@,
            after_fields::<M>(first, contents(*old(buf)), limit as nat, room as nat)
                == after_fields::<M>(message@, contents(*buf), limit as nat, room as nat),
        decreases contents(*buf).len(),
    {
        proof {
            law_reading_advances(contents(*buf));
        }
        let (tag, wire) = read_key(buf)?;
        proof {
            M::law_field_advances(message@, tag, wire, contents(*buf), room as nat);
        }
        message = message.merge_field(tag, wire, buf, room)?;
    }
    if buffer::len(buf) != limit {
        return Err(WireError::nesting(NestingFault::LengthExceeded));
    }
    Ok(message)
}

/// Adds what the nested message holds that follows the key of a field.
pub(crate) fn merge_nested<M: Message>(
    message: M,
    wire: u64,
    buf: &mut Bytes,
    room: u32,
) -> (result: Result<M, WireError>)
    requires
        wire <= THIRTY_TWO_BIT,
    ensures
        match after_nested::<M>(message@, wire, contents(*old(buf)), room as nat) {
            Ok((expected, rest)) => result matches Ok(read) && read@ == expected && contents(
                *final(buf),
            ) == rest,
            Err(fault) => result matches Err(error) && error.fault() == fault,
        },
{
    let limit = read_limit(wire, buf, room)?;
    merge_fields(message, buf, limit, room - 1)
}

} // verus!
