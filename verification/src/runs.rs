//! Run-length encoded holes of a range of values.

pub mod laws;
pub mod model;
mod scan;

use crate::bitmap::{bit_of, packs, Bitmap};
use crate::error::{corrupt, corrupt_row_id_metadata, Corruption, Error};
use laws::law_values;
use model::{
    first_run_fault, in_ranges, law_accepted_runs, lemma_add_offset, lemma_prefix_count,
    lemma_runs_before_position, ranges_separated, runs_fault, values_at, RunsModel,
};
use scan::{closed_runs, filled, lemma_close, lemma_filled, lemma_scan_clear, lemma_scan_set, scanned};
use std::ops::Range;
use vstd::math::min;
use vstd::prelude::*;

verus! {

/// The missing offsets of a range, as maximal runs.
///
/// Offsets are relative to the range start and fit `u32`, which bounds the span
/// of a range this encoding can describe to `u32::MAX`; a fragment never holds
/// more rows than that, and writers fall back to another encoding for wider
/// spans. Compared to a bitmap this costs 8 bytes per run rather than one bit
/// per offset, so it pays off exactly when deletions cluster, as they do after
/// compaction of fragments with deleted rows.
#[derive(Debug, PartialEq, Eq)]
pub struct HoleRuns {
    /// Length of the range the runs live in (offsets are below this).
    span: u32,
    /// First missing offset of each run, strictly increasing.
    starts: Vec<u32>,
    /// First offset after each run: `starts[i] < ends[i] < starts[i + 1]`.
    ends: Vec<u32>,
    /// `missing_before[k]` is the number of offsets missing in runs `0..k`, so it
    /// has one entry per run plus a final total.
    missing_before: Vec<u32>,
}

impl View for HoleRuns {
    type V = RunsModel;

    closed spec fn view(&self) -> RunsModel {
        RunsModel { span: self.span, starts: self.starts@, ends: self.ends@ }
    }
}

impl HoleRuns {
    /// The runs are valid, and what they miss is counted.
    #[verifier::type_invariant]
    closed spec fn inv(self) -> bool {
        &&& self@.valid()
        &&& self.missing_before@.len() == self.starts@.len() + 1
        &&& forall|k: int|
            0 <= k < self.missing_before@.len() ==> #[trigger] self.missing_before@[k]
                == self@.missing_in(k as nat)
    }

    /// Build from validated run bounds. Rejects runs that are empty, out of
    /// order, overlapping, adjacent (a maximal run never touches the next) or
    /// beyond `span`.
    pub fn try_new(span: u32, starts: Vec<u32>, ends: Vec<u32>) -> (result: Result<Self, Error>)
        ensures
            match runs_fault(span, starts@, ends@) {
                None => result matches Ok(runs) && runs@ == (RunsModel {
                    span,
                    starts: starts@,
                    ends: ends@,
                }) && runs@.valid(),
                Some(fault) => result == Err::<Self, Error>(corrupt(fault)),
            },
    {
        if starts.len() != ends.len() {
            return Err(
                corrupt_row_id_metadata(
                    Corruption::RunCountMismatch { starts: starts.len(), ends: ends.len() },
                ),
            );
        }
        let ghost m = RunsModel { span, starts: starts@, ends: ends@ };
        let mut missing_before: Vec<u32> = Vec::with_capacity(starts.len());
        let mut missing: u32 = 0;
        let mut previous_end: Option<u32> = None;
        let mut i: usize = 0;
        while i < starts.len()
            invariant
                i <= starts.len(),
                starts.len() == ends.len(),
                m == (RunsModel { span, starts: starts@, ends: ends@ }),
                runs_fault(span, starts@, ends@) == first_run_fault(span, starts@, ends@, i as int),
                missing_before@.len() == i,
                forall|k: int|
                    0 <= k < i ==> #[trigger] missing_before@[k] == m.missing_in(k as nat),
                missing == m.missing_in(i as nat),
                missing <= m.gap_start(i as int),
                i == 0 ==> previous_end is None,
                i > 0 ==> previous_end == Some(ends@[i - 1]),
            decreases starts.len() - i,
        {
            let start = starts[i];
            let end = ends[i];
            if start >= end {
                return Err(corrupt_row_id_metadata(Corruption::RunEmpty { run: i, start, end }));
            }
            if end > span {
                return Err(
                    corrupt_row_id_metadata(Corruption::RunBeyondSpan { run: i, start, end, span }),
                );
            }
            if let Some(previous_end) = previous_end {
                if previous_end >= start {
                    return Err(
                        corrupt_row_id_metadata(
                            Corruption::RunsTouch { run: i, start, previous_end },
                        ),
                    );
                }
            }
            missing_before.push(missing);
            missing = missing + (end - start);
            previous_end = Some(end);
            i = i + 1;
        }
        missing_before.push(missing);
        proof {
            law_accepted_runs(span, starts@, ends@);
        }
        Ok(Self { span, starts, ends, missing_before })
    }

    /// Length of the range the runs live in.
    pub fn span(&self) -> (span: u32)
        ensures
            span == self@.span,
            self@.valid(),
    {
        proof {
            use_type_invariant(self);
        }
        self.span
    }

    /// The number of runs.
    pub fn num_runs(&self) -> (n: usize)
        ensures
            n == self@.starts.len(),
    {
        self.starts.len()
    }

    /// First missing offset of each run.
    pub fn starts(&self) -> (starts: &[u32])
        ensures
            starts@ == self@.starts,
    {
        self.starts.as_slice()
    }

    /// First offset after each run.
    pub fn ends(&self) -> (ends: &[u32])
        ensures
            ends@ == self@.ends,
    {
        self.ends.as_slice()
    }

    /// Offsets missing over the whole span.
    pub fn missing_total(&self) -> (missing: u32)
        ensures
            missing == self@.span - self@.present_offsets().len(),
    {
        proof {
            use_type_invariant(self);
            let n = self.starts@.len();
            self@.lemma_gap_ordered(n as int);
            self@.lemma_gap_count(n, self.span as nat);
        }
        self.missing_before[self.missing_before.len() - 1]
    }

    /// Offsets present over the whole span.
    pub fn present_len(&self) -> (present: u32)
        ensures
            present == self@.present_offsets().len(),
    {
        proof {
            use_type_invariant(self);
            self@.lemma_present_prefix(0, self.span as nat);
        }
        self.span - self.missing_total()
    }

    /// Runs whose start is at or before `offset`.
    fn runs_started_by(&self, offset: u32) -> (k: usize)
        ensures
            k == self@.runs_started_by(offset),
            k <= self@.starts.len(),
            forall|j: int| 0 <= j < k ==> self@.starts[j] <= offset,
            forall|j: int| k <= j < self@.starts.len() ==> offset < self@.starts[j],
    {
        proof {
            use_type_invariant(self);
        }
        let mut lo: usize = 0;
        let mut hi: usize = self.starts.len();
        while lo < hi
            invariant
                self@.valid(),
                lo <= hi <= self.starts@.len(),
                forall|j: int| 0 <= j < lo ==> self@.starts[j] <= offset,
                forall|j: int| hi <= j < self@.starts.len() ==> offset < self@.starts[j],
            decreases hi - lo,
        {
            let mid: usize = lo + (hi - lo) / 2;
            assert(forall|j: int|
                #![trigger self@.starts[j]]
                0 <= j < mid ==> self@.ends[j] < self@.starts[mid as int]);
            assert(forall|j: int|
                #![trigger self@.starts[j]]
                mid < j < self@.starts.len() ==> self@.ends[mid as int] < self@.starts[j]);
            if self.starts[mid] <= offset {
                lo = mid + 1;
            } else {
                hi = mid;
            }
        }
        proof {
            lemma_prefix_count(self@.starts, |start: u32| start <= offset, lo as nat);
        }
        lo
    }

    /// Present offsets before run `k` (`k == num_runs` counts every present offset).
    fn present_before_run(&self, k: usize) -> (present: u32)
        requires
            k <= self@.starts.len(),
        ensures
            present == self@.present_below(self@.gap_end(k as int) as nat).len(),
    {
        proof {
            use_type_invariant(self);
            self@.lemma_gap_ordered(k as int);
            self@.lemma_gap_count(k as nat, self@.gap_end(k as int) as nat);
        }
        let run_start = if k < self.starts.len() {
            self.starts[k]
        } else {
            self.span
        };
        run_start - self.missing_before[k]
    }

    /// Runs that lie entirely before the present value at `position`: those
    /// whose preceding present count is at most `position`. That count is
    /// non-decreasing in the run index, so this is a binary search.
    fn runs_before_position(&self, position: u32) -> (k: usize)
        ensures
            k == self@.runs_before_position(position),
            k <= self@.starts.len(),
            forall|j: int|
                #![trigger self@.starts[j]]
                0 <= j < k ==> self@.present_below(self@.starts[j] as nat).len() <= position,
            forall|j: int|
                #![trigger self@.starts[j]]
                k <= j < self@.starts.len() ==> position < self@.present_below(
                    self@.starts[j] as nat,
                ).len(),
    {
        proof {
            use_type_invariant(self);
        }
        let mut lo: usize = 0;
        let mut hi: usize = self.starts.len();
        while lo < hi
            invariant
                self@.valid(),
                lo <= hi <= self.starts@.len(),
                forall|j: int|
                    #![trigger self@.starts[j]]
                    0 <= j < lo ==> self@.present_below(self@.starts[j] as nat).len() <= position,
                forall|j: int|
                    #![trigger self@.starts[j]]
                    hi <= j < self@.starts.len() ==> position < self@.present_below(
                        self@.starts[j] as nat,
                    ).len(),
            decreases hi - lo,
        {
            let mid: usize = lo + (hi - lo) / 2;
            proof {
                let m = self@;
                assert forall|j: int| 0 <= j <= mid implies m.present_below(
                    #[trigger] m.starts[j] as nat,
                ).len() <= m.present_below(m.starts[mid as int] as nat).len() by {
                    if j < mid {
                        assert(m.ends[j] < m.starts[mid as int]);
                    }
                    m.lemma_present_prefix(m.starts[j] as nat, m.starts[mid as int] as nat);
                }
                assert forall|j: int| mid <= j < m.starts.len() implies m.present_below(
                    m.starts[mid as int] as nat,
                ).len() <= m.present_below(#[trigger] m.starts[j] as nat).len() by {
                    if mid < j {
                        assert(m.ends[mid as int] < m.starts[j]);
                    }
                    m.lemma_present_prefix(m.starts[mid as int] as nat, m.starts[j] as nat);
                }
            }
            if self.present_before_run(mid) <= position {
                lo = mid + 1;
            } else {
                hi = mid;
            }
        }
        proof {
            lemma_runs_before_position(self@, position, lo as nat);
        }
        lo
    }

    /// Position of the present `offset`, or `None` when it is missing or out of range.
    pub fn position(&self, offset: u32) -> (position: Option<u32>)
        ensures
            match position {
                Some(p) => offset < self@.span && !self@.is_missing(offset as int) && p
                    == self@.present_below(offset as nat).len(),
                None => offset >= self@.span || self@.is_missing(offset as int),
            },
    {
        if offset >= self.span {
            return None;
        }
        let k = self.runs_started_by(offset);
        proof {
            use_type_invariant(self);
        }
        if k > 0 && offset < self.ends[k - 1] {
            assert(self@.starts[k - 1] <= offset < self@.ends[k - 1]);
            return None;
        }
        proof {
            self@.lemma_gap_present(k as int, offset as int);
            self@.lemma_gap_count(k as nat, offset as nat);
        }
        Some(offset - self.missing_before[k])
    }

    /// Offset of the present value at `position`.
    pub fn offset_at(&self, position: u32) -> (offset: Option<u32>)
        ensures
            match offset {
                Some(o) => position < self@.present_offsets().len() && o
                    == self@.present_offsets()[position as int],
                None => position >= self@.present_offsets().len(),
            },
    {
        if position >= self.present_len() {
            return None;
        }
        let k = self.runs_before_position(position);
        proof {
            use_type_invariant(self);
            self@.lemma_position_in_gap(k as nat, position as nat);
        }
        Some(position + self.missing_before[k])
    }
}

impl HoleRuns {
    /// Runs over the sorted, unique missing `offsets` (all below `span`).
    pub fn from_missing_offsets(span: u32, offsets: &[u32]) -> (runs: Self)
        requires
            forall|i: int| 0 <= i < offsets@.len() ==> offsets@[i] < span,
            forall|i: int, j: int| 0 <= i < j < offsets@.len() ==> offsets@[i] < offsets@[j],
        ensures
            runs@.span == span,
            runs@.valid(),
            forall|o: u32| #[trigger] runs@.is_missing(o as int) <==> offsets@.contains(o),
    {
        let mut starts: Vec<u32> = Vec::new();
        let mut ends: Vec<u32> = Vec::new();
        let mut i: usize = 0;
        while i < offsets.len()
            invariant
                i <= offsets@.len(),
                forall|i: int| 0 <= i < offsets@.len() ==> offsets@[i] < span,
                forall|i: int, j: int| 0 <= i < j < offsets@.len() ==> offsets@[i] < offsets@[j],
                (RunsModel { span, starts: starts@, ends: ends@ }).valid(),
                i == 0 <==> ends@.len() == 0,
                i > 0 ==> ends@[ends@.len() - 1] == offsets@[i - 1] + 1,
                forall|o: u32| #[trigger]
                    (RunsModel { span, starts: starts@, ends: ends@ }).is_missing(o as int)
                        <==> offsets@.take(i as int).contains(o),
            decreases offsets@.len() - i,
        {
            let offset = offsets[i];
            let ghost m = RunsModel { span, starts: starts@, ends: ends@ };
            let n = ends.len();
            if n > 0 && ends[n - 1] == offset {
                ends[n - 1] = offset + 1;
            } else {
                starts.push(offset);
                ends.push(offset + 1);
            }
            proof {
                let after = RunsModel { span, starts: starts@, ends: ends@ };
                lemma_add_offset(m, after, offset);
                assert forall|o: u32| #[trigger] after.is_missing(o as int) <==> offsets@.take(
                    i + 1,
                ).contains(o) by {
                    assert(after.is_missing(o as int) <==> (m.is_missing(o as int) || o == offset));
                    assert(offsets@.take(i + 1) =~= offsets@.take(i as int).push(offset));
                    if offsets@.take(i as int).contains(o) {
                        let k = choose|k: int| 0 <= k < i && offsets@.take(i as int)[k] == o;
                        assert(offsets@.take(i + 1)[k] == o);
                    }
                    assert(offsets@.take(i + 1)[i as int] == offset);
                }
            }
            i = i + 1;
        }
        proof {
            law_accepted_runs(span, starts@, ends@);
            assert(offsets@.take(offsets@.len() as int) =~= offsets@);
        }
        Self::try_new(span, starts, ends).expect("sorted unique offsets form valid runs")
    }

    /// The runs of cleared bits of `bitmap`.
    pub fn from_bitmap(bitmap: &Bitmap) -> (runs: Self)
        requires
            bitmap@.len() <= u32::MAX,
        ensures
            runs@.span == bitmap@.len(),
            runs@.valid(),
            forall|i: int| 0 <= i < bitmap@.len() ==> (runs@.is_missing(i) <==> !(#[trigger] bitmap@[i])),
    {
        let span = bitmap.len();
        let bytes = bitmap.bytes();
        let mut starts: Vec<u32> = Vec::new();
        let mut ends: Vec<u32> = Vec::new();
        let mut open_run: Option<u32> = None;
        let mut at: usize = 0;
        while at < bytes.len()
            invariant
                at <= bytes@.len(),
                packs(bytes@, bitmap@),
                span == bitmap@.len() <= u32::MAX,
                scanned(bitmap@, min(8 * at, span as int), starts@, ends@, open_run),
            decreases bytes@.len() - at,
        {
            let byte = bytes[at];
            let offset = at * 8;
            let valid_bits = if span - offset < 8 {
                span - offset
            } else {
                8
            };
            let ghost next = offset + valid_bits;
            // Bits past `span` read as present so they never open a run.
            let mut present: u8 = byte | (if valid_bits < 8 {
                255u8 << valid_bits
            } else {
                0u8
            });
            proof {
                assert forall|i: int| offset <= i < next implies #[trigger] bitmap@[i] == bit_of(
                    byte,
                    i - offset,
                ) by {
                    assert(bytes@[i / 8] == byte);
                    assert(bit_of(bytes@[i / 8], i % 8) == bitmap@[i]);
                }
            }
            if present == 255 {
                proof {
                    assert forall|i: int| offset <= i < next implies #[trigger] bitmap@[i] by {
                        lemma_filled(byte, valid_bits, (i - offset) as usize);
                    }
                    lemma_scan_set(bitmap@, offset as int, next, starts@, ends@, open_run);
                }
                if let Some(start) = open_run.take() {
                    starts.push(start);
                    ends.push(offset as u32);
                }
            } else if present == 0 {
                proof {
                    assert forall|i: int| offset <= i < next implies !(#[trigger] bitmap@[i]) by {
                        lemma_filled(byte, valid_bits, (i - offset) as usize);
                    }
                    lemma_scan_clear(bitmap@, offset as int, next, starts@, ends@, open_run);
                }
                if open_run.is_none() {
                    open_run = Some(offset as u32);
                }
            } else {
                let mut bit: usize = 0;
                assert(present >> 0u8 == present) by (bit_vector);
                while bit < valid_bits
                    invariant
                        bit <= valid_bits <= 8,
                        offset + valid_bits <= span == bitmap@.len() <= u32::MAX,
                        present == filled(byte, valid_bits) >> (bit as u8),
                        forall|i: int|
                            offset <= i < offset + valid_bits ==> #[trigger] bitmap@[i] == bit_of(
                                byte,
                                i - offset,
                            ),
                        scanned(bitmap@, offset + bit, starts@, ends@, open_run),
                    decreases valid_bits - bit,
                {
                    let is_present = present & 1 != 0;
                    proof {
                        lemma_filled(byte, valid_bits, bit);
                        let f = filled(byte, valid_bits);
                        let j = bit as u8;
                        let k = (bit + 1) as u8;
                        assert((f >> j) >> 1u8 == f >> k) by (bit_vector)
                            requires
                                j < 8,
                                k == j + 1,
                        ;
                        assert(bitmap@[offset + bit] == is_present);
                        if is_present {
                            lemma_scan_set(
                                bitmap@,
                                offset + bit,
                                offset + bit + 1,
                                starts@,
                                ends@,
                                open_run,
                            );
                        } else {
                            lemma_scan_clear(
                                bitmap@,
                                offset + bit,
                                offset + bit + 1,
                                starts@,
                                ends@,
                                open_run,
                            );
                        }
                    }
                    present = present >> 1u8;
                    let here = (offset + bit) as u32;
                    match (is_present, open_run) {
                        (false, None) => {
                            open_run = Some(here);
                        },
                        (true, Some(start)) => {
                            starts.push(start);
                            ends.push(here);
                            open_run = None;
                        },
                        _ => {},
                    }
                    bit = bit + 1;
                }
            }
            at = at + 1;
        }
        proof {
            let m = RunsModel { span: span as u32, starts: starts@, ends: ends@ };
            lemma_close(m, span as u32, open_run);
            let found = closed_runs(m, span as u32, open_run);
            assert forall|i: int| 0 <= i < bitmap@.len() implies (found.is_missing(i) <==> !(
            #[trigger] bitmap@[i])) by {
                assert(!bitmap@[i] == (m.is_missing(i) || (open_run matches Some(start) && start
                    <= i)));
            }
        }
        let ghost found = closed_runs(
            RunsModel { span: span as u32, starts: starts@, ends: ends@ },
            span as u32,
            open_run,
        );
        if let Some(start) = open_run {
            starts.push(start);
            ends.push(span as u32);
        }
        proof {
            law_accepted_runs(span as u32, starts@, ends@);
            assert(found == (RunsModel { span: span as u32, starts: starts@, ends: ends@ }));
        }
        Self::try_new(span as u32, starts, ends).expect("runs derived from a bitmap are valid")
    }
}

impl HoleRuns {
    /// The present offsets, as the maximal ranges between runs.
    pub fn present_ranges(&self) -> (ranges: Vec<Range<u32>>)
        ensures
            ranges_separated(ranges@),
            forall|o: int| #[trigger]
                in_ranges(ranges@, o) <==> (0 <= o < self@.span && !self@.is_missing(o)),
    {
        proof {
            use_type_invariant(self);
        }
        let mut ranges: Vec<Range<u32>> = Vec::new();
        let n = self.starts.len();
        let gaps = self.missing_before.len();
        let mut k: usize = 0;
        while k < gaps
            invariant
                k <= gaps == n + 1,
                self@.valid(),
                n == self@.starts.len() == self.starts@.len() == self.ends@.len(),
                self.starts@ == self@.starts,
                self.ends@ == self@.ends,
                self.span == self@.span,
                ranges_separated(ranges@),
                forall|i: int|
                    0 <= i < ranges@.len() ==> k > 0 && (#[trigger] ranges@[i]).end <= self@.gap_end(
                        k - 1,
                    ),
                forall|o: int| #[trigger]
                    in_ranges(ranges@, o) <==> (k > 0 && 0 <= o < self@.gap_end(k - 1)
                        && !self@.is_missing(o)),
            decreases gaps - k,
        {
            let start = if k == 0 {
                0
            } else {
                self.ends[k - 1]
            };
            let end = if k < n {
                self.starts[k]
            } else {
                self.span
            };
            let ghost before = ranges@;
            proof {
                self@.lemma_gap_ordered(k as int);
            }
            if start < end {
                ranges.push(start..end);
            }
            proof {
                let m = self@;
                let after = ranges@;
                assert forall|i: int, j: int| 0 <= i < j < after.len() implies (#[trigger] after[i]).end
                    < (#[trigger] after[j]).start by {
                    if j == before.len() {
                        assert(before[i].end <= m.gap_end(k - 1));
                        assert(m.starts[k - 1] < m.ends[k - 1]);
                    } else {
                        assert(before[i].end < before[j].start);
                    }
                }
                assert forall|i: int| 0 <= i < after.len() implies (#[trigger] after[i]).end
                    <= m.gap_end(k as int) by {
                    if i < before.len() {
                        assert(before[i].end <= m.gap_end(k - 1));
                        assert(m.starts[k - 1] < m.ends[k - 1]);
                    }
                }
                assert forall|o: int| #[trigger]
                    in_ranges(after, o) <==> (0 <= o < m.gap_end(k as int) && !m.is_missing(o)) by {
                    if in_ranges(before, o) {
                        let i = choose|i: int|
                            #![trigger before[i]]
                            0 <= i < before.len() && before[i].start <= o < before[i].end;
                        assert(after[i].start <= o < after[i].end);
                        assert(m.starts[k - 1] < m.ends[k - 1]);
                    }
                    if start <= o < end {
                        m.lemma_gap_present(k as int, o);
                        assert(after[before.len() as int].start <= o < after[before.len() as int].end);
                    }
                    if in_ranges(after, o) {
                        let i = choose|i: int|
                            #![trigger after[i]]
                            0 <= i < after.len() && after[i].start <= o < after[i].end;
                        if i < before.len() {
                            assert(before[i].start <= o < before[i].end);
                        }
                    }
                    if k > 0 && m.gap_end(k - 1) <= o < start {
                        assert(m.starts[k - 1] <= o < m.ends[k - 1]);
                    }
                }
            }
            k = k + 1;
        }
        ranges
    }

    /// Append `base + offset` for the present offsets at `positions`.
    pub fn extend_values(&self, base: u64, positions: Range<u32>, values: &mut Vec<u64>)
        requires
            ({
                let end = min(positions.end as int, self@.present_offsets().len() as int);
                positions.start < end ==> base + self@.present_offsets()[end - 1] < u64::MAX
            }),
        ensures
            final(values)@ == old(values)@ + values_at(
                self@,
                base,
                positions.start as int,
                min(positions.end as int, self@.present_offsets().len() as int),
            ),
            final(values)@.len() >= old(values)@.len(),
            forall|i: int| 0 <= i < old(values)@.len() ==> final(values)@[i] == old(values)@[i],
            ({
                let end = min(positions.end as int, self@.present_offsets().len() as int);
                if positions.start < end {
                    final(values)@.len() - old(values)@.len() == end - positions.start
                } else {
                    final(values)@.len() == old(values)@.len()
                }
            }),
            forall|i: int|
                old(values)@.len() <= i < final(values)@.len() ==> #[trigger] final(values)@[i]
                    == base + self@.present_offsets()[positions.start + (i - old(values)@.len())],
    {
        let present_len = self.present_len();
        let end = if positions.end < present_len {
            positions.end
        } else {
            present_len
        };
        let start = positions.start;
        let mut position = start;
        proof {
            law_values(self@, base, start as int, end as int);
        }
        if position >= end {
            assert(values@ =~= old(values)@ + values_at(self@, base, start as int, end as int));
            return ;
        }
        let gaps = self.missing_before.len();
        let mut k = self.runs_before_position(position);
        proof {
            use_type_invariant(self);
            self@.lemma_position_in_gap(k as nat, position as nat);
            assert(values@ =~= old(values)@ + values_at(self@, base, start as int, position as int));
        }
        while position < end
            invariant
                self.inv(),
                gaps == self@.starts.len() + 1,
                start <= position <= end <= self@.present_offsets().len(),
                start < end,
                base + self@.present_offsets()[end - 1] < u64::MAX,
                position < end ==> k <= self@.starts.len(),
                position < end ==> self@.gap_start(k as int) <= position + self@.missing_in(
                    k as nat,
                ) < self@.gap_end(k as int),
                values@ == old(values)@ + values_at(self@, base, start as int, position as int),
            decreases end - position,
        {
            // Present range between run k - 1 and run k, in offsets and positions.
            let gap_start = if k == 0 {
                0
            } else {
                self.ends[k - 1]
            };
            let gap_end = if k < self.starts.len() {
                self.starts[k]
            } else {
                self.span
            };
            proof {
                self@.lemma_gap_ordered(k as int);
                self@.lemma_gap_count(k as nat, gap_start as nat);
                self@.lemma_gap_count(k as nat, gap_end as nat);
                self@.lemma_present_prefix(gap_end as nat, self@.span as nat);
            }
            let first_position = gap_start - self.missing_before[k];
            let past_position = first_position + (gap_end - gap_start);
            let take_start = if position > first_position {
                position
            } else {
                first_position
            };
            let take_end = if end < past_position {
                end
            } else {
                past_position
            };
            if take_start < take_end {
                let offset = gap_start + (take_start - first_position);
                proof {
                    self@.lemma_gap_values(k as nat, take_start as int, take_end as int);
                    self@.lemma_present_sorted(take_end - 1, end - 1);
                }
                let mut value = base + offset as u64;
                let mut at = take_start;
                while at < take_end
                    invariant
                        take_start <= at <= take_end <= end <= self@.present_offsets().len(),
                        start <= at,
                        value == base + offset + (at - take_start),
                        base + offset + (take_end - take_start) <= u64::MAX,
                        forall|p: int|
                            take_start <= p < take_end ==> #[trigger] self@.present_offsets()[p]
                                == offset + (p - take_start),
                        values@ == old(values)@ + values_at(self@, base, start as int, at as int),
                    decreases take_end - at,
                {
                    values.push(value);
                    value = value + 1;
                    at = at + 1;
                    assert(values@ =~= old(values)@ + values_at(self@, base, start as int, at as int));
                }
                position = take_end;
            }
            proof {
                if position < end {
                    self@.lemma_next_gap(k as nat, position as nat);
                }
            }
            k = k + 1;
        }
    }
}

impl Clone for HoleRuns {
    fn clone(&self) -> (copy: Self)
        ensures
            copy@ == self@,
    {
        proof {
            use_type_invariant(self);
        }
        HoleRuns {
            span: self.span,
            starts: self.starts.clone(),
            ends: self.ends.clone(),
            missing_before: self.missing_before.clone(),
        }
    }
}

} // verus!
