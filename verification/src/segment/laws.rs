//! Which row IDs a segment and a sequence hold, and that they are counted right.

use super::{sequence_valid, total_len, RowIdSequence, SegmentModel, U64Segment};
use crate::bitmap::count_set;
use crate::encoded_array::ArrayModel;
use crate::runs::laws::{law_present, law_present_count};
use crate::runs::model::RunsModel;
use vstd::prelude::*;
use vstd::set_lib::{lemma_int_range, lemma_set_disjoint_lens, set_int_range};

verus! {

/// The integers from `start` up to `end`.
pub open spec fn range_ids(start: int, end: int) -> Seq<int> {
    Seq::new((end - start) as nat, |i: int| start + i)
}

impl SegmentModel {
    /// The row IDs that the segment holds, in its order.
    pub open spec fn row_ids(self) -> Seq<int> {
        match self {
            SegmentModel::Range { start, end } => range_ids(start as int, end as int),
            SegmentModel::RangeWithHoles { start, end, holes } => range_ids(
                start as int,
                end as int,
            ).filter(|v: int| !holes.values().contains(v)),
            SegmentModel::RangeWithRuns { start, end, runs } => runs.present_offsets().map_values(
                |offset: u32| start + offset,
            ),
            SegmentModel::RangeWithBitmap { start, end, bits } => range_ids(
                start as int,
                end as int,
            ).filter(|v: int| bits[v - start]),
            SegmentModel::SortedArray(array) => array.values(),
            SegmentModel::Array(array) => array.values(),
        }
    }
}

/// The row IDs that segments hold, one segment after the other.
pub open spec fn sequence_row_ids(segments: Seq<SegmentModel>) -> Seq<int>
    decreases segments.len(),
{
    if segments.len() == 0 {
        Seq::empty()
    } else {
        sequence_row_ids(segments.drop_last()) + segments.last().row_ids()
    }
}

/// The integers of a range that meet a condition, each once and in order.
proof fn lemma_kept(start: int, end: int, keep: spec_fn(int) -> bool)
    requires
        start <= end,
    ensures
        forall|i: int, j: int|
            0 <= i < j < range_ids(start, end).filter(keep).len() ==> #[trigger] range_ids(
                start,
                end,
            ).filter(keep)[i] < #[trigger] range_ids(start, end).filter(keep)[j],
        forall|v: int| #[trigger]
            range_ids(start, end).filter(keep).contains(v) <==> start <= v < end && keep(v),
        Set::new(|v: int| start <= v < end && keep(v)).finite(),
        range_ids(start, end).filter(keep).len() == Set::new(
            |v: int| start <= v < end && keep(v),
        ).len(),
    decreases end - start,
{
    reveal(Seq::filter);
    let all = range_ids(start, end);
    let kept = all.filter(keep);
    let set = Set::new(|v: int| start <= v < end && keep(v));
    if start == end {
        assert(set =~= Set::empty());
    } else {
        let last = end - 1;
        lemma_kept(start, last, keep);
        assert(all.drop_last() =~= range_ids(start, last));
        assert(all.last() == last);
        let before = range_ids(start, last).filter(keep);
        let before_set = Set::new(|v: int| start <= v < last && keep(v));
        assert forall|i: int| 0 <= i < before.len() implies #[trigger] before[i] < last by {
            assert(before.contains(before[i]));
        }
        if keep(last) {
            assert(kept == before.push(last));
            assert(set =~= before_set.insert(last));
        } else {
            assert(kept == before);
            assert(set =~= before_set);
        }
        assert forall|v: int| #[trigger] kept.contains(v) <==> start <= v < end && keep(v) by {
            if before.contains(v) {
                let i = choose|i: int| 0 <= i < before.len() && before[i] == v;
                assert(kept[i] == v);
            }
            if v == last && keep(last) {
                assert(kept[kept.len() - 1] == v);
            }
            if kept.contains(v) {
                let i = choose|i: int| 0 <= i < kept.len() && kept[i] == v;
                if i < before.len() {
                    assert(before.contains(before[i]));
                }
            }
        }
    }
}

/// A range holds the row IDs from its start up to its end, each once and in order.
pub proof fn law_range_row_ids(start: u64, end: u64)
    requires
        start <= end,
    ensures
        ({
            let ids = (SegmentModel::Range { start, end }).row_ids();
            &&& ids.len() == end - start
            &&& forall|i: int| 0 <= i < end - start ==> #[trigger] ids[i] == start + i
            &&& (SegmentModel::Range { start, end }).len() == end - start
        }),
{
}

/// A range with holes holds the row IDs of the range that are not among the holes, each once and
/// in order, and its length is how many there are.
pub proof fn law_holes_row_ids(start: u64, end: u64, holes: ArrayModel)
    requires
        (SegmentModel::RangeWithHoles { start, end, holes }).valid(),
    ensures
        ({
            let segment = SegmentModel::RangeWithHoles { start, end, holes };
            let ids = segment.row_ids();
            let held = Set::new(
                |v: int|
                    start <= v < end && forall|i: int|
                        0 <= i < holes.len() ==> #[trigger] holes.values()[i] != v,
            );
            &&& forall|i: int, j: int| 0 <= i < j < ids.len() ==> #[trigger] ids[i] < #[trigger] ids[j]
            &&& forall|v: int| #[trigger] ids.contains(v) <==> held.contains(v)
            &&& ids.len() == held.len()
            &&& segment.len() == held.len()
        }),
{
    let segment = SegmentModel::RangeWithHoles { start, end, holes };
    let values = holes.values();
    let keep = |v: int| !values.contains(v);
    let held = Set::new(
        |v: int|
            start <= v < end && forall|i: int| 0 <= i < holes.len() ==> #[trigger] holes.values()[i]
                != v,
    );
    lemma_kept(start as int, end as int, keep);
    let kept = Set::new(|v: int| start <= v < end && keep(v));
    assert(held =~= kept) by {
        assert forall|v: int| held.contains(v) implies kept.contains(v) by {
            if values.contains(v) {
                let i = choose|i: int| 0 <= i < values.len() && values[i] == v;
                assert(holes.values()[i] != v);
            }
        }
        assert forall|v: int| kept.contains(v) implies held.contains(v) by {
            assert forall|i: int| 0 <= i < holes.len() implies #[trigger] holes.values()[i] != v by {
                if values[i] == v {
                    assert(values.contains(v));
                }
            }
        }
    }
    assert(values.no_duplicates()) by {
        assert forall|i: int, j: int|
            0 <= i < values.len() && 0 <= j < values.len() && i != j implies values[i]
            != values[j] by {
            if i < j {
                assert(values[i] < values[j]);
            } else {
                assert(values[j] < values[i]);
            }
        }
    }
    values.unique_seq_to_set();
    let gone = values.to_set();
    let all = set_int_range(start as int, end as int);
    lemma_int_range(start as int, end as int);
    assert forall|v: int| gone.contains(v) implies all.contains(v) by {
        let i = choose|i: int| 0 <= i < values.len() && values[i] == v;
        assert(start <= holes.values()[i] < end);
    }
    vstd::seq_lib::seq_to_set_is_finite(values);
    lemma_set_disjoint_lens(gone, kept);
    assert(gone + kept =~= all);
    assert(gone.disjoint(kept));
}

/// A range with runs holds the row IDs of the range whose offsets lie in no run, each once and in
/// order, and its length is how many there are.
pub proof fn law_runs_row_ids(start: u64, end: u64, runs: RunsModel)
    requires
        (SegmentModel::RangeWithRuns { start, end, runs }).valid(),
    ensures
        ({
            let segment = SegmentModel::RangeWithRuns { start, end, runs };
            let ids = segment.row_ids();
            &&& forall|i: int, j: int| 0 <= i < j < ids.len() ==> #[trigger] ids[i] < #[trigger] ids[j]
            &&& forall|v: int| #[trigger]
                ids.contains(v) <==> {
                    &&& start <= v < end
                    &&& forall|k: int|
                        0 <= k < runs.starts.len() ==> !(#[trigger] runs.starts[k] <= v - start
                            < runs.ends[k])
                }
            &&& ids.len() == segment.len()
            &&& segment.len() == Set::new(
                |o: int|
                    0 <= o < end - start && forall|k: int|
                        0 <= k < runs.starts.len() ==> !(#[trigger] runs.starts[k] <= o
                            < runs.ends[k]),
            ).len()
        }),
{
    let ids = (SegmentModel::RangeWithRuns { start, end, runs }).row_ids();
    let offsets = runs.present_offsets();
    law_present(runs);
    law_present_count(runs, runs.span as nat);
    let counted = Set::new(
        |o: int|
            0 <= o < runs.span && forall|k: int|
                0 <= k < runs.starts.len() ==> !(#[trigger] runs.starts[k] <= o < runs.ends[k]),
    );
    let held = Set::new(
        |o: int|
            0 <= o < end - start && forall|k: int|
                0 <= k < runs.starts.len() ==> !(#[trigger] runs.starts[k] <= o < runs.ends[k]),
    );
    assert(held =~= counted);
    assert forall|v: int| #[trigger]
        ids.contains(v) <==> {
            &&& start <= v < end
            &&& forall|k: int|
                0 <= k < runs.starts.len() ==> !(#[trigger] runs.starts[k] <= v - start
                    < runs.ends[k])
        } by {
        if ids.contains(v) {
            let i = choose|i: int| 0 <= i < ids.len() && ids[i] == v;
            assert(ids[i] == start + offsets[i]);
            assert(offsets.contains(offsets[i]));
        }
        if start <= v < end {
            let o = (v - start) as u32;
            if offsets.contains(o) {
                let i = choose|i: int| 0 <= i < offsets.len() && offsets[i] == o;
                assert(ids[i] == v);
            }
        }
    }
    assert forall|i: int, j: int| 0 <= i < j < ids.len() implies #[trigger] ids[i]
        < #[trigger] ids[j] by {
        assert(offsets[i] < offsets[j]);
    }
}

proof fn lemma_bitmap_kept(start: int, bits: Seq<bool>, n: int)
    requires
        0 <= n <= bits.len(),
    ensures
        range_ids(start, start + n).filter(|v: int| bits[v - start]).len() == count_set(
            bits.take(n),
        ),
    decreases n,
{
    reveal(Seq::filter);
    if n > 0 {
        lemma_bitmap_kept(start, bits, n - 1);
        let all = range_ids(start, start + n);
        assert(all.drop_last() =~= range_ids(start, start + n - 1));
        assert(all.last() == start + n - 1);
        assert(bits.take(n).drop_last() =~= bits.take(n - 1));
        assert(bits.take(n).last() == bits[n - 1]);
    }
}

/// A range with a bitmap holds the row IDs of the range whose bit is set, each once and in order,
/// and its length is how many there are.
pub proof fn law_bitmap_row_ids(start: u64, end: u64, bits: Seq<bool>)
    requires
        (SegmentModel::RangeWithBitmap { start, end, bits }).valid(),
    ensures
        ({
            let segment = SegmentModel::RangeWithBitmap { start, end, bits };
            let ids = segment.row_ids();
            let held = Set::new(|v: int| start <= v < end && bits[v - start]);
            &&& forall|i: int, j: int| 0 <= i < j < ids.len() ==> #[trigger] ids[i] < #[trigger] ids[j]
            &&& forall|v: int| #[trigger] ids.contains(v) <==> held.contains(v)
            &&& ids.len() == held.len()
            &&& segment.len() == held.len()
        }),
{
    let keep = |v: int| bits[v - start];
    lemma_kept(start as int, end as int, keep);
    lemma_bitmap_kept(start as int, bits, bits.len() as int);
    assert(bits.take(bits.len() as int) =~= bits);
    let kept = Set::new(|v: int| start <= v < end && keep(v));
    let held = Set::new(|v: int| start <= v < end && bits[v - start]);
    assert(held =~= kept);
}

/// An array holds its values, in the order in which they are stored.
pub proof fn law_array_row_ids(array: ArrayModel)
    ensures
        (SegmentModel::SortedArray(array)).row_ids() == array.values(),
        (SegmentModel::Array(array)).row_ids() == array.values(),
        (SegmentModel::SortedArray(array)).len() == array.values().len(),
        (SegmentModel::Array(array)).len() == array.values().len(),
{
}

/// The length of a segment is the number of row IDs that it holds.
pub proof fn law_segment_counts(segment: SegmentModel)
    requires
        segment.valid(),
    ensures
        segment.len() == segment.row_ids().len(),
{
    match segment {
        SegmentModel::Range { start, end } => {},
        SegmentModel::RangeWithHoles { start, end, holes } => {
            law_holes_row_ids(start, end, holes);
        },
        SegmentModel::RangeWithRuns { start, end, runs } => {
            law_runs_row_ids(start, end, runs);
        },
        SegmentModel::RangeWithBitmap { start, end, bits } => {
            law_bitmap_row_ids(start, end, bits);
        },
        SegmentModel::SortedArray(array) => {},
        SegmentModel::Array(array) => {},
    }
}

/// The row IDs of a sequence are those of its segments, one segment after the other.
pub proof fn law_sequence_joins(a: Seq<SegmentModel>, b: Seq<SegmentModel>, segment: SegmentModel)
    ensures
        sequence_row_ids(seq![segment]) == segment.row_ids(),
        sequence_row_ids(a + b) == sequence_row_ids(a) + sequence_row_ids(b),
        total_len(seq![segment]) == segment.len(),
        total_len(a + b) == total_len(a) + total_len(b),
    decreases b.len(),
{
    let one = seq![segment];
    assert(one.drop_last() =~= Seq::empty());
    assert(sequence_row_ids(one.drop_last()) =~= Seq::empty());
    assert(Seq::<int>::empty() + segment.row_ids() =~= segment.row_ids());
    assert(total_len(one.drop_last()) == 0);
    if b.len() == 0 {
        assert(a + b =~= a);
        assert(sequence_row_ids(a) + sequence_row_ids(b) =~= sequence_row_ids(a));
    } else {
        law_sequence_joins(a, b.drop_last(), segment);
        assert((a + b).drop_last() =~= a + b.drop_last());
        assert(sequence_row_ids(a) + (sequence_row_ids(b.drop_last()) + b.last().row_ids())
            =~= sequence_row_ids(a) + sequence_row_ids(b.drop_last()) + b.last().row_ids());
    }
}

/// The length of a sequence is the number of row IDs that it holds.
pub proof fn law_sequence_counts(segments: Seq<SegmentModel>)
    requires
        forall|i: int| 0 <= i < segments.len() ==> (#[trigger] segments[i]).valid(),
    ensures
        total_len(segments) == sequence_row_ids(segments).len(),
    decreases segments.len(),
{
    if segments.len() > 0 {
        let rest = segments.drop_last();
        assert forall|i: int| 0 <= i < rest.len() implies (#[trigger] rest[i]).valid() by {
            assert(segments[i].valid());
        }
        law_sequence_counts(rest);
        assert(segments[segments.len() - 1].valid());
        law_segment_counts(segments.last());
    }
}

/// What makes a segment valid: a range that runs forward over no more values than can be counted,
/// values that fit in 64 bits, holes in strict order and within the range, runs and bits that span
/// the range, and sorted values in order.
pub proof fn law_valid_segment(segment: SegmentModel)
    ensures
        segment.valid() <==> match segment {
            SegmentModel::Range { start, end } => start <= end && end - start <= usize::MAX,
            SegmentModel::RangeWithHoles { start, end, holes } => {
                &&& start <= end && end - start <= usize::MAX
                &&& forall|i: int|
                    0 <= i < holes.len() ==> start <= #[trigger] holes.values()[i] < end
                &&& forall|i: int, j: int|
                    0 <= i < j < holes.len() ==> #[trigger] holes.values()[i]
                        < #[trigger] holes.values()[j]
            },
            SegmentModel::RangeWithRuns { start, end, runs } => {
                &&& start <= end && end - start <= usize::MAX
                &&& runs.valid()
                &&& runs.span == end - start
            },
            SegmentModel::RangeWithBitmap { start, end, bits } => {
                &&& start <= end && end - start <= usize::MAX
                &&& bits.len() == end - start
            },
            SegmentModel::SortedArray(array) => {
                &&& forall|i: int| 0 <= i < array.len() ==> #[trigger] array.values()[i] <= u64::MAX
                &&& forall|i: int, j: int|
                    0 <= i < j < array.len() ==> #[trigger] array.values()[i]
                        <= #[trigger] array.values()[j]
            },
            SegmentModel::Array(array) => forall|i: int|
                0 <= i < array.len() ==> #[trigger] array.values()[i] <= u64::MAX,
        },
{
    match segment {
        SegmentModel::SortedArray(array) => {
            assert forall|i: int| 0 <= i < array.len() implies #[trigger] array.values()[i]
                == array.base() + array.stored()[i] by {}
            if segment.valid() {
                assert forall|i: int, j: int| 0 <= i < j < array.len() implies #[trigger] array.values()[i]
                    <= #[trigger] array.values()[j] by {
                    assert(array.stored()[i] <= array.stored()[j]);
                }
            }
            if forall|i: int, j: int|
                0 <= i < j < array.len() ==> #[trigger] array.values()[i]
                    <= #[trigger] array.values()[j] {
                assert forall|i: int, j: int| 0 <= i < j < array.stored().len() implies array.stored()[i]
                    < array.stored()[j] || (!false && array.stored()[i] == array.stored()[j]) by {
                    assert(array.values()[i] <= array.values()[j]);
                }
            }
        },
        SegmentModel::RangeWithHoles { start, end, holes } => {
            if (forall|i: int| 0 <= i < holes.len() ==> start <= #[trigger] holes.values()[i] < end) {
                assert(holes.valid());
            }
        },
        _ => {},
    }
}

/// A sequence is valid exactly when each of its segments is and it holds no more row IDs than a
/// `u64` can count.
pub proof fn law_valid_sequence(segments: Seq<SegmentModel>)
    ensures
        sequence_valid(segments) <==> {
            &&& forall|i: int| 0 <= i < segments.len() ==> (#[trigger] segments[i]).valid()
            &&& sequence_row_ids(segments).len() <= 0xffff_ffff_ffff_ffff
        },
{
    if forall|i: int| 0 <= i < segments.len() ==> (#[trigger] segments[i]).valid() {
        law_sequence_counts(segments);
    }
}

/// What a segment stores is what its parts do.
pub proof fn law_segment_parts(segment: U64Segment)
    ensures
        match segment {
            U64Segment::Range(range) => segment@ == (SegmentModel::Range {
                start: range.start,
                end: range.end,
            }),
            U64Segment::RangeWithHoles { range, holes } => segment@
                == (SegmentModel::RangeWithHoles {
                start: range.start,
                end: range.end,
                holes: holes@,
            }),
            U64Segment::RangeWithRuns { range, runs } => segment@ == (SegmentModel::RangeWithRuns {
                start: range.start,
                end: range.end,
                runs: runs@,
            }),
            U64Segment::RangeWithBitmap { range, bitmap } => segment@
                == (SegmentModel::RangeWithBitmap {
                start: range.start,
                end: range.end,
                bits: bitmap@,
            }),
            U64Segment::SortedArray(array) => segment@ == SegmentModel::SortedArray(array@),
            U64Segment::Array(array) => segment@ == SegmentModel::Array(array@),
        },
{
}

/// What a sequence stores is what its segments do, in order.
pub proof fn law_sequence_parts(sequence: RowIdSequence)
    ensures
        sequence@.len() == sequence.0@.len(),
        forall|i: int| 0 <= i < sequence.0@.len() ==> #[trigger] sequence@[i] == sequence.0@[i]@,
{
}

} // verus!
