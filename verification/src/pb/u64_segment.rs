//! The encodings of a segment.

use super::encoded_u64_array::ArrayMessage;
use super::EncodedU64Array;
use crate::buffer::contents;
use bytes::Bytes;
use vstd::prelude::*;

verus! {

/// All values from `start` up to `end`.
#[derive(Debug, PartialEq, Eq)]
pub struct Range {
    pub start: u64,
    pub end: u64,
}

/// The values from `start` up to `end` but for the holes.
#[derive(Debug, PartialEq, Eq)]
pub struct RangeWithHoles {
    pub start: u64,
    pub end: u64,
    pub holes: Option<EncodedU64Array>,
}

/// The values from `start` up to `end` whose bit is set.
#[derive(Debug, PartialEq, Eq)]
pub struct RangeWithBitmap {
    pub start: u64,
    pub end: u64,
    pub bitmap: Bytes,
}

/// The values from `start` up to `end` but for runs of holes.
#[derive(Debug, PartialEq, Eq)]
pub struct RangeWithRuns {
    pub start: u64,
    pub end: u64,
    pub hole_starts: Option<EncodedU64Array>,
    pub hole_ends: Option<EncodedU64Array>,
}

/// One of the encodings.
#[derive(Debug, PartialEq, Eq)]
pub enum Segment {
    Range(Range),
    RangeWithHoles(RangeWithHoles),
    RangeWithBitmap(RangeWithBitmap),
    SortedArray(EncodedU64Array),
    Array(EncodedU64Array),
    RangeWithRuns(RangeWithRuns),
}

/// The contents of a segment message.
#[verifier::ext_equal]
pub enum SegmentMessage {
    Range { start: u64, end: u64 },
    RangeWithHoles { start: u64, end: u64, holes: Option<Option<ArrayMessage>> },
    RangeWithBitmap { start: u64, end: u64, bitmap: Seq<u8> },
    SortedArray(Option<ArrayMessage>),
    Array(Option<ArrayMessage>),
    RangeWithRuns {
        start: u64,
        end: u64,
        hole_starts: Option<Option<ArrayMessage>>,
        hole_ends: Option<Option<ArrayMessage>>,
    },
}

/// The contents of an array message that may be absent.
pub open spec fn optional_array(array: Option<EncodedU64Array>) -> Option<Option<ArrayMessage>> {
    match array {
        Some(array) => Some(array@),
        None => None,
    }
}

impl View for Range {
    type V = (u64, u64);

    open spec fn view(&self) -> (u64, u64) {
        (self.start, self.end)
    }
}

impl View for RangeWithHoles {
    type V = (u64, u64, Option<Option<ArrayMessage>>);

    open spec fn view(&self) -> (u64, u64, Option<Option<ArrayMessage>>) {
        (self.start, self.end, optional_array(self.holes))
    }
}

impl View for RangeWithBitmap {
    type V = (u64, u64, Seq<u8>);

    open spec fn view(&self) -> (u64, u64, Seq<u8>) {
        (self.start, self.end, contents(self.bitmap))
    }
}

impl View for RangeWithRuns {
    type V = (u64, u64, Option<Option<ArrayMessage>>, Option<Option<ArrayMessage>>);

    open spec fn view(&self) -> (
        u64,
        u64,
        Option<Option<ArrayMessage>>,
        Option<Option<ArrayMessage>>,
    ) {
        (self.start, self.end, optional_array(self.hole_starts), optional_array(self.hole_ends))
    }
}

impl View for Segment {
    type V = SegmentMessage;

    open spec fn view(&self) -> SegmentMessage {
        match self {
            Segment::Range(range) => SegmentMessage::Range { start: range.start, end: range.end },
            Segment::RangeWithHoles(range) => SegmentMessage::RangeWithHoles {
                start: range.start,
                end: range.end,
                holes: optional_array(range.holes),
            },
            Segment::RangeWithBitmap(range) => SegmentMessage::RangeWithBitmap {
                start: range.start,
                end: range.end,
                bitmap: contents(range.bitmap),
            },
            Segment::SortedArray(array) => SegmentMessage::SortedArray(array@),
            Segment::Array(array) => SegmentMessage::Array(array@),
            Segment::RangeWithRuns(range) => SegmentMessage::RangeWithRuns {
                start: range.start,
                end: range.end,
                hole_starts: optional_array(range.hole_starts),
                hole_ends: optional_array(range.hole_ends),
            },
        }
    }
}

} // verus!
