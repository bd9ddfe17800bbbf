//! Writing messages as bytes.

use super::encoded_u64_array::Array;
use super::layout::{
    array_field, array_fields, lemma_written_join, lemma_written_one, number_field, offsets_fields,
    payload_field, range_fields, segment_fields, sequence_bytes, sequence_fields,
};
use super::u64_segment::{optional_array, Segment};
use super::{EncodedU64Array, RowIdSequence, U64Segment};
use crate::buffer;
use crate::buffer::contents;
use crate::wire::{encode_buffer, encode_bytes, encode_number, written, Field, MAX_TAG};
use bytes::Bytes;
use vstd::prelude::*;

verus! {

/// Appends a number, unless it is zero.
fn put_number(tag: u32, value: u64, out: &mut Vec<u8>)
    requires
        1 <= tag <= MAX_TAG,
    ensures
        final(out)@ == old(out)@ + written(number_field(tag, value)),
{
    proof {
        lemma_written_one(Field::Number { tag, value });
    }
    if value != 0 {
        encode_number(tag, value, out);
    }
    assert(out@ =~= old(out)@ + written(number_field(tag, value)));
}

/// Appends bytes, unless there are none.
fn put_bytes(tag: u32, value: &Vec<u8>, out: &mut Vec<u8>)
    requires
        1 <= tag <= MAX_TAG,
    ensures
        final(out)@ == old(out)@ + written(payload_field(tag, value@)),
{
    proof {
        lemma_written_one(Field::Payload { tag, payload: value@ });
    }
    if value.len() != 0 {
        encode_bytes(tag, value, out);
    }
    assert(out@ =~= old(out)@ + written(payload_field(tag, value@)));
}

/// Appends the bytes of a buffer, unless there are none.
fn put_buffer(tag: u32, value: &Bytes, out: &mut Vec<u8>)
    requires
        1 <= tag <= MAX_TAG,
    ensures
        final(out)@ == old(out)@ + written(payload_field(tag, contents(*value))),
{
    proof {
        lemma_written_one(Field::Payload { tag, payload: contents(*value) });
    }
    if buffer::len(value) != 0 {
        encode_buffer(tag, value, out);
    }
    assert(out@ =~= old(out)@ + written(payload_field(tag, contents(*value))));
}

/// Appends a nested message that was written as `value`.
fn put_message(tag: u32, value: &Vec<u8>, out: &mut Vec<u8>)
    requires
        1 <= tag <= MAX_TAG,
    ensures
        final(out)@ == old(out)@ + written(seq![Field::Payload { tag, payload: value@ }]),
{
    proof {
        lemma_written_one(Field::Payload { tag, payload: value@ });
    }
    encode_bytes(tag, value, out);
    assert(out@ =~= old(out)@ + written(seq![Field::Payload { tag, payload: value@ }]));
}

/// Writes offsets from a base.
fn write_offsets(base: u64, offsets: &Vec<u8>) -> (out: Vec<u8>)
    ensures
        out@ == written(offsets_fields(base, offsets@)),
{
    let mut out: Vec<u8> = Vec::new();
    put_number(1, base, &mut out);
    put_bytes(2, offsets, &mut out);
    proof {
        lemma_written_join(number_field(1, base), payload_field(2, offsets@));
    }
    assert(out@ =~= written(offsets_fields(base, offsets@)));
    out
}

/// Appends the bounds of a range.
fn put_bounds(start: u64, end: u64, out: &mut Vec<u8>)
    ensures
        final(out)@ == old(out)@ + written(range_fields(start, end)),
{
    put_number(1, start, out);
    put_number(2, end, out);
    proof {
        lemma_written_join(number_field(1, start), number_field(2, end));
    }
    assert(out@ =~= old(out)@ + written(range_fields(start, end)));
}

/// Appends an array message, unless it is absent.
fn put_array(tag: u32, array: &Option<EncodedU64Array>, out: &mut Vec<u8>)
    requires
        1 <= tag <= MAX_TAG,
    ensures
        final(out)@ == old(out)@ + written(array_field(tag, optional_array(*array))),
{
    match array {
        Some(array) => put_message(tag, &array.encode_to_vec(), out),
        None => {},
    }
    assert(out@ =~= old(out)@ + written(array_field(tag, optional_array(*array))));
}

impl EncodedU64Array {
    /// The message as bytes.
    pub fn encode_to_vec(&self) -> (out: Vec<u8>)
        ensures
            out@ == written(array_fields(self@)),
    {
        let mut out: Vec<u8> = Vec::new();
        match &self.array {
            Some(Array::U16Array(array)) => {
                put_message(1, &write_offsets(array.base, &array.offsets), &mut out);
            },
            Some(Array::U32Array(array)) => {
                put_message(2, &write_offsets(array.base, &array.offsets), &mut out);
            },
            Some(Array::U64Array(array)) => {
                let mut inner: Vec<u8> = Vec::new();
                put_bytes(2, &array.values, &mut inner);
                assert(inner@ =~= written(payload_field(2, array.values@)));
                put_message(3, &inner, &mut out);
            },
            None => {},
        }
        assert(out@ =~= written(array_fields(self@)));
        out
    }
}

impl U64Segment {
    /// The message as bytes.
    pub fn encode_to_vec(&self) -> (out: Vec<u8>)
        ensures
            out@ == written(segment_fields(self@)),
    {
        let mut out: Vec<u8> = Vec::new();
        let mut inner: Vec<u8> = Vec::new();
        match &self.segment {
            Some(Segment::Range(range)) => {
                put_bounds(range.start, range.end, &mut inner);
                assert(inner@ =~= written(range_fields(range.start, range.end)));
                put_message(1, &inner, &mut out);
            },
            Some(Segment::RangeWithHoles(range)) => {
                put_bounds(range.start, range.end, &mut inner);
                put_array(3, &range.holes, &mut inner);
                proof {
                    let (a, b) = (
                        range_fields(range.start, range.end),
                        array_field(3, optional_array(range.holes)),
                    );
                    lemma_written_join(a, b);
                    assert(inner@ =~= written(a + b));
                }
                put_message(2, &inner, &mut out);
            },
            Some(Segment::RangeWithBitmap(range)) => {
                put_bounds(range.start, range.end, &mut inner);
                put_buffer(3, &range.bitmap, &mut inner);
                proof {
                    let (a, b) = (
                        range_fields(range.start, range.end),
                        payload_field(3, contents(range.bitmap)),
                    );
                    lemma_written_join(a, b);
                    assert(inner@ =~= written(a + b));
                }
                put_message(3, &inner, &mut out);
            },
            Some(Segment::SortedArray(array)) => {
                put_message(4, &array.encode_to_vec(), &mut out);
            },
            Some(Segment::Array(array)) => {
                put_message(5, &array.encode_to_vec(), &mut out);
            },
            Some(Segment::RangeWithRuns(range)) => {
                put_bounds(range.start, range.end, &mut inner);
                put_array(3, &range.hole_starts, &mut inner);
                put_array(4, &range.hole_ends, &mut inner);
                proof {
                    let (a, b, c) = (
                        range_fields(range.start, range.end),
                        array_field(3, optional_array(range.hole_starts)),
                        array_field(4, optional_array(range.hole_ends)),
                    );
                    lemma_written_join(a, b);
                    lemma_written_join(a + b, c);
                    assert(inner@ =~= written(a + b + c));
                }
                put_message(6, &inner, &mut out);
            },
            None => {},
        }
        assert(out@ =~= written(segment_fields(self@)));
        out
    }
}

impl RowIdSequence {
    /// The message as bytes.
    pub fn encode_to_vec(&self) -> (out: Vec<u8>)
        ensures
            out@ == sequence_bytes(self@),
    {
        let ghost list = sequence_fields(self@);
        let mut out: Vec<u8> = Vec::new();
        let mut i: usize = 0;
        while i < self.segments.len()
            invariant
                i <= self.segments@.len(),
                list == sequence_fields(self@),
                out@ == written(list.take(i as int)),
            decreases self.segments@.len() - i,
        {
            put_message(1, &self.segments[i].encode_to_vec(), &mut out);
            proof {
                lemma_written_one(list[i as int]);
                assert(list.take(i + 1).drop_last() =~= list.take(i as int));
            }
            i = i + 1;
        }
        assert(list.take(list.len() as int) =~= list);
        out
    }
}

} // verus!
