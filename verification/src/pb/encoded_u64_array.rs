//! The encodings of an array of `u64` values.

use vstd::prelude::*;

verus! {

/// Offsets from a base, packed into 16 bits each.
#[derive(Debug, PartialEq, Eq)]
pub struct U16Array {
    pub base: u64,
    pub offsets: Vec<u8>,
}

/// Offsets from a base, packed into 32 bits each.
#[derive(Debug, PartialEq, Eq)]
pub struct U32Array {
    pub base: u64,
    pub offsets: Vec<u8>,
}

/// Values, packed into 64 bits each.
#[derive(Debug, PartialEq, Eq)]
pub struct U64Array {
    pub values: Vec<u8>,
}

/// One of the encodings.
#[derive(Debug, PartialEq, Eq)]
pub enum Array {
    U16Array(U16Array),
    U32Array(U32Array),
    U64Array(U64Array),
}

/// The contents of an array message.
#[verifier::ext_equal]
pub enum ArrayMessage {
    U16Array { base: u64, offsets: Seq<u8> },
    U32Array { base: u64, offsets: Seq<u8> },
    U64Array { values: Seq<u8> },
}

impl View for U16Array {
    type V = (u64, Seq<u8>);

    open spec fn view(&self) -> (u64, Seq<u8>) {
        (self.base, self.offsets@)
    }
}

impl View for U32Array {
    type V = (u64, Seq<u8>);

    open spec fn view(&self) -> (u64, Seq<u8>) {
        (self.base, self.offsets@)
    }
}

impl View for U64Array {
    type V = Seq<u8>;

    open spec fn view(&self) -> Seq<u8> {
        self.values@
    }
}

impl View for Array {
    type V = ArrayMessage;

    open spec fn view(&self) -> ArrayMessage {
        match self {
            Array::U16Array(array) => ArrayMessage::U16Array {
                base: array.base,
                offsets: array.offsets@,
            },
            Array::U32Array(array) => ArrayMessage::U32Array {
                base: array.base,
                offsets: array.offsets@,
            },
            Array::U64Array(array) => ArrayMessage::U64Array { values: array.values@ },
        }
    }
}

} // verus!
