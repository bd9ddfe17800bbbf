//! The messages that row ID sequences are stored as.

pub mod decode;
pub mod encode;
pub mod encoded_u64_array;
pub mod laws;
pub mod layout;
pub mod merge;
pub mod u64_segment;

use encoded_u64_array::{Array, ArrayMessage};
use u64_segment::{Segment, SegmentMessage};
use vstd::prelude::*;

verus! {

/// A sequence of row IDs, split up into segments.
#[derive(Debug, PartialEq, Eq)]
pub struct RowIdSequence {
    pub segments: Vec<U64Segment>,
}

/// A segment, in one of several encodings.
#[derive(Debug, PartialEq, Eq)]
pub struct U64Segment {
    pub segment: Option<Segment>,
}

/// An array of `u64` values, in one of several encodings.
#[derive(Debug, PartialEq, Eq)]
pub struct EncodedU64Array {
    pub array: Option<Array>,
}

impl View for EncodedU64Array {
    type V = Option<ArrayMessage>;

    open spec fn view(&self) -> Option<ArrayMessage> {
        match self.array {
            Some(array) => Some(array@),
            None => None,
        }
    }
}

impl View for U64Segment {
    type V = Option<SegmentMessage>;

    open spec fn view(&self) -> Option<SegmentMessage> {
        match self.segment {
            Some(segment) => Some(segment@),
            None => None,
        }
    }
}

impl View for RowIdSequence {
    type V = Seq<Option<SegmentMessage>>;

    open spec fn view(&self) -> Seq<Option<SegmentMessage>> {
        self.segments@.map_values(|segment: U64Segment| segment@)
    }
}

} // verus!
