//! Row IDs in order, split into segments that are each encoded on their own.

pub mod laws;

use crate::bitmap::{count_set, Bitmap};
use crate::encoded_array::{ordered, ArrayModel, EncodedU64Array};
use crate::runs::model::RunsModel;
use crate::runs::HoleRuns;
use laws::{law_segment_counts, law_sequence_counts, sequence_row_ids};
use std::ops::Range;
use vstd::prelude::*;

verus! {

/// What a segment stores.
#[verifier::ext_equal]
pub enum SegmentModel {
    Range { start: u64, end: u64 },
    RangeWithHoles { start: u64, end: u64, holes: ArrayModel },
    RangeWithRuns { start: u64, end: u64, runs: RunsModel },
    RangeWithBitmap { start: u64, end: u64, bits: Seq<bool> },
    SortedArray(ArrayModel),
    Array(ArrayModel),
}

/// A range that runs forward, over no more values than can be counted.
pub open spec fn range_valid(start: u64, end: u64) -> bool {
    start <= end <= start + usize::MAX
}

/// Every one of `holes` lies in the range.
pub open spec fn holes_within(holes: ArrayModel, start: u64, end: u64) -> bool {
    forall|i: int| 0 <= i < holes.len() ==> start <= #[trigger] holes.values()[i] < end
}

impl SegmentModel {
    /// What a segment must be for its values to be well defined.
    pub open spec fn valid(self) -> bool {
        match self {
            SegmentModel::Range { start, end } => range_valid(start, end),
            SegmentModel::RangeWithHoles { start, end, holes } => {
                &&& range_valid(start, end)
                &&& holes.valid()
                &&& ordered(holes.values(), true)
                &&& holes_within(holes, start, end)
            },
            SegmentModel::RangeWithRuns { start, end, runs } => {
                &&& range_valid(start, end)
                &&& runs.valid()
                &&& runs.span == end - start
            },
            SegmentModel::RangeWithBitmap { start, end, bits } => {
                &&& range_valid(start, end)
                &&& bits.len() == end - start
            },
            SegmentModel::SortedArray(array) => array.valid() && ordered(array.stored(), false),
            SegmentModel::Array(array) => array.valid(),
        }
    }

    /// The number of values.
    pub open spec fn len(self) -> int {
        match self {
            SegmentModel::Range { start, end } => end - start,
            SegmentModel::RangeWithHoles { start, end, holes } => end - start - holes.len(),
            SegmentModel::RangeWithRuns { start, end, runs } => runs.present_offsets().len() as int,
            SegmentModel::RangeWithBitmap { start, end, bits } => count_set(bits) as int,
            SegmentModel::SortedArray(array) => array.len() as int,
            SegmentModel::Array(array) => array.len() as int,
        }
    }
}

/// The number of values in all of `segments`.
pub open spec fn total_len(segments: Seq<SegmentModel>) -> int
    decreases segments.len(),
{
    if segments.len() == 0 {
        0
    } else {
        total_len(segments.drop_last()) + segments.last().len()
    }
}

/// What a sequence must be for its values to be well defined and counted by a `u64`.
pub open spec fn sequence_valid(segments: Seq<SegmentModel>) -> bool {
    &&& forall|i: int| 0 <= i < segments.len() ==> (#[trigger] segments[i]).valid()
    &&& total_len(segments) <= u64::MAX
}

/// A range has room for its holes.
proof fn lemma_holes_fit(values: Seq<int>, start: int, end: int)
    requires
        start <= end,
        ordered(values, true),
        forall|i: int| 0 <= i < values.len() ==> start <= #[trigger] values[i] < end,
    ensures
        values.len() <= end - start,
    decreases values.len(),
{
    if values.len() > 0 {
        let rest = values.drop_last();
        let last = values.last();
        assert(last == values[values.len() - 1]);
        assert forall|i: int| 0 <= i < rest.len() implies start <= #[trigger] rest[i] < last by {
            assert(values[i] < values[values.len() - 1]);
        }
        lemma_holes_fit(rest, start, last);
    }
}

proof fn lemma_count_set(bits: Seq<bool>)
    ensures
        count_set(bits) <= bits.len(),
    decreases bits.len(),
{
    if bits.len() > 0 {
        lemma_count_set(bits.drop_last());
    }
}

/// A valid segment that is a range has no more values than the range, and no segment has fewer
/// than none.
pub proof fn law_segment_len(segment: SegmentModel)
    requires
        segment.valid(),
    ensures
        0 <= segment.len(),
        match segment {
            SegmentModel::Range { start, end } => segment.len() <= end - start,
            SegmentModel::RangeWithHoles { start, end, holes } => segment.len() <= end - start,
            SegmentModel::RangeWithRuns { start, end, runs } => segment.len() <= end - start,
            SegmentModel::RangeWithBitmap { start, end, bits } => segment.len() <= end - start,
            _ => true,
        },
{
    match segment {
        SegmentModel::RangeWithHoles { start, end, holes } => {
            lemma_holes_fit(holes.values(), start as int, end as int);
        },
        SegmentModel::RangeWithRuns { start, end, runs } => {
            runs.lemma_present_prefix(0, runs.span as nat);
        },
        SegmentModel::RangeWithBitmap { start, end, bits } => {
            lemma_count_set(bits);
        },
        _ => {},
    }
}

/// The segments up to some point have no more values than all of them.
pub(crate) proof fn lemma_total_len_grows(segments: Seq<SegmentModel>, n: int)
    requires
        0 <= n <= segments.len(),
        forall|i: int| 0 <= i < segments.len() ==> (#[trigger] segments[i]).valid(),
    ensures
        0 <= total_len(segments.take(n)) <= total_len(segments),
    decreases segments.len(),
{
    let all = segments.len() as int;
    if n == all {
        assert(segments.take(n) =~= segments);
        if n > 0 {
            let rest = segments.drop_last();
            assert forall|i: int| 0 <= i < rest.len() implies (#[trigger] rest[i]).valid() by {
                assert(segments[i].valid());
            }
            lemma_total_len_grows(rest, rest.len() as int);
            assert(rest.take(rest.len() as int) =~= rest);
            assert(segments[all - 1].valid());
            law_segment_len(segments.last());
        }
    } else {
        let rest = segments.drop_last();
        assert forall|i: int| 0 <= i < rest.len() implies (#[trigger] rest[i]).valid() by {
            assert(segments[i].valid());
        }
        lemma_total_len_grows(rest, n);
        assert(rest.take(n) =~= segments.take(n));
        assert(segments[all - 1].valid());
        law_segment_len(segments.last());
    }
}

/// A set of `u64` values in some order, in one of several encodings.
#[derive(Debug, PartialEq, Eq)]
pub enum U64Segment {
    /// A contiguous range of values.
    Range(Range<u64>),
    /// A range of values with a few missing ones, listed.
    RangeWithHoles { range: Range<u64>, holes: EncodedU64Array },
    /// A range of values with missing ones that cluster.
    RangeWithRuns { range: Range<u64>, runs: HoleRuns },
    /// A range of values with many missing ones; the bits that are set are the values present.
    RangeWithBitmap { range: Range<u64>, bitmap: Bitmap },
    /// Values in order.
    SortedArray(EncodedU64Array),
    /// Values in any order.
    Array(EncodedU64Array),
}

impl View for U64Segment {
    type V = SegmentModel;

    open spec fn view(&self) -> SegmentModel {
        match self {
            U64Segment::Range(range) => SegmentModel::Range { start: range.start, end: range.end },
            U64Segment::RangeWithHoles { range, holes } => SegmentModel::RangeWithHoles {
                start: range.start,
                end: range.end,
                holes: holes@,
            },
            U64Segment::RangeWithRuns { range, runs } => SegmentModel::RangeWithRuns {
                start: range.start,
                end: range.end,
                runs: runs@,
            },
            U64Segment::RangeWithBitmap { range, bitmap } => SegmentModel::RangeWithBitmap {
                start: range.start,
                end: range.end,
                bits: bitmap@,
            },
            U64Segment::SortedArray(array) => SegmentModel::SortedArray(array@),
            U64Segment::Array(array) => SegmentModel::Array(array@),
        }
    }
}

impl U64Segment {
    /// The number of values.
    pub fn len(&self) -> (len: usize)
        requires
            self@.valid(),
        ensures
            len == self@.len(),
            len == self@.row_ids().len(),
    {
        proof {
            law_segment_len(self@);
            law_segment_counts(self@);
        }
        match self {
            U64Segment::Range(range) => (range.end - range.start) as usize,
            U64Segment::RangeWithHoles { range, holes } => {
                (range.end - range.start) as usize - holes.len()
            },
            U64Segment::RangeWithRuns { range: _, runs } => runs.present_len() as usize,
            U64Segment::RangeWithBitmap { range: _, bitmap } => bitmap.count_ones(),
            U64Segment::SortedArray(array) => array.len(),
            U64Segment::Array(array) => array.len(),
        }
    }
}

impl Clone for U64Segment {
    fn clone(&self) -> (copy: Self)
        ensures
            copy@ == self@,
    {
        match self {
            U64Segment::Range(range) => U64Segment::Range(range.start..range.end),
            U64Segment::RangeWithHoles { range, holes } => U64Segment::RangeWithHoles {
                range: range.start..range.end,
                holes: holes.clone(),
            },
            U64Segment::RangeWithRuns { range, runs } => U64Segment::RangeWithRuns {
                range: range.start..range.end,
                runs: runs.clone(),
            },
            U64Segment::RangeWithBitmap { range, bitmap } => U64Segment::RangeWithBitmap {
                range: range.start..range.end,
                bitmap: bitmap.clone(),
            },
            U64Segment::SortedArray(array) => U64Segment::SortedArray(array.clone()),
            U64Segment::Array(array) => U64Segment::Array(array.clone()),
        }
    }
}

/// A sequence of row ids, as segments one after the other.
#[derive(Debug, PartialEq, Eq)]
pub struct RowIdSequence(pub Vec<U64Segment>);

/// What each of `segments` stores.
pub open spec fn segment_models(segments: Seq<U64Segment>) -> Seq<SegmentModel> {
    segments.map_values(|segment: U64Segment| segment@)
}

impl View for RowIdSequence {
    type V = Seq<SegmentModel>;

    open spec fn view(&self) -> Seq<SegmentModel> {
        segment_models(self.0@)
    }
}

impl RowIdSequence {
    /// The number of row ids.
    pub fn len(&self) -> (len: u64)
        requires
            sequence_valid(self@),
        ensures
            len == total_len(self@),
            len == sequence_row_ids(self@).len(),
    {
        proof {
            law_sequence_counts(self@);
        }
        let mut total: u64 = 0;
        let mut i: usize = 0;
        while i < self.0.len()
            invariant
                i <= self.0@.len(),
                sequence_valid(self@),
                total == total_len(self@.take(i as int)),
            decreases self.0@.len() - i,
        {
            proof {
                assert(self@[i as int] == self.0@[i as int]@);
                lemma_total_len_grows(self@, i + 1);
                assert(self@.take(i + 1).drop_last() =~= self@.take(i as int));
            }
            total = total + self.0[i].len() as u64;
            i = i + 1;
        }
        assert(self@.take(self@.len() as int) =~= self@);
        total
    }
}

impl Clone for RowIdSequence {
    fn clone(&self) -> (copy: Self)
        ensures
            copy@ == self@,
    {
        let copy = RowIdSequence(self.0.clone());
        assert(copy@ =~= self@);
        copy
    }
}

impl From<Range<u64>> for RowIdSequence {
    /// The row ids of a range.
    fn from(range: Range<u64>) -> (sequence: Self)
        ensures
            sequence@ == seq![SegmentModel::Range { start: range.start, end: range.end }],
    {
        let sequence = RowIdSequence(vec![U64Segment::Range(range)]);
        assert(sequence@ =~= seq![SegmentModel::Range { start: range.start, end: range.end }]);
        sequence
    }
}

impl vstd::std_specs::convert::FromSpecImpl<Range<u64>> for RowIdSequence {
    open spec fn obeys_from_spec() -> bool {
        false
    }

    open spec fn from_spec(range: Range<u64>) -> Self {
        arbitrary()
    }
}

} // verus!
