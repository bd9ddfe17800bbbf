//! Shared byte buffers: what this crate relies on of [`bytes::Bytes`].

use bytes::Bytes;
use vstd::prelude::*;

verus! {

/// The reference-counted buffer of the `bytes` crate.
#[verifier::external_type_specification]
#[verifier::external_body]
pub struct ExBytes(bytes::Bytes);

/// The bytes that a buffer holds.
pub uninterp spec fn contents(buffer: Bytes) -> Seq<u8>;

/// `Bytes::len` is the number of bytes in the buffer.
#[verifier::external_body]
pub(crate) fn len(buffer: &Bytes) -> (len: usize)
    ensures
        len == contents(*buffer).len(),
{
    buffer.len()
}

/// `Bytes::clone` gives another handle on the same bytes.
#[verifier::external_body]
pub(crate) fn share(buffer: &Bytes) -> (copy: Bytes)
    ensures
        contents(copy) == contents(*buffer),
{
    buffer.clone()
}

/// `Bytes::from` takes over the bytes of a vector.
#[verifier::external_body]
pub(crate) fn from_vec(bytes: Vec<u8>) -> (buffer: Bytes)
    ensures
        contents(buffer) == bytes@,
{
    Bytes::from(bytes)
}

/// `Vec::from` gives the bytes of the buffer as a vector.
#[verifier::external_body]
pub(crate) fn into_vec(buffer: Bytes) -> (bytes: Vec<u8>)
    ensures
        bytes@ == contents(buffer),
{
    Vec::from(buffer)
}

/// `Bytes::as_ref` views the buffer as a slice.
#[verifier::external_body]
pub(crate) fn as_slice(buffer: &Bytes) -> (bytes: &[u8])
    ensures
        bytes@ == contents(*buffer),
{
    buffer.as_ref()
}

} // verus!
