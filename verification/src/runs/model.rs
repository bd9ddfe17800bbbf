//! What hole runs stand for, and what follows from it.

use crate::bitmap::count_set;
use crate::error::Corruption;
use std::ops::Range;
use vstd::prelude::*;

verus! {

/// What hole runs stand for: run `k` misses the offsets `starts[k]..ends[k]` of `0..span`.
#[verifier::ext_equal]
pub struct RunsModel {
    pub span: u32,
    pub starts: Seq<u32>,
    pub ends: Seq<u32>,
}

impl RunsModel {
    /// Runs are non-empty, lie within the span, and leave a gap before the next.
    pub open spec fn valid(self) -> bool {
        &&& self.starts.len() == self.ends.len()
        &&& forall|k: int|
            #![trigger self.starts[k]]
            #![trigger self.ends[k]]
            0 <= k < self.starts.len() ==> self.starts[k] < self.ends[k] <= self.span
        &&& forall|j: int, k: int|
            #![trigger self.ends[j], self.starts[k]]
            0 <= j < k < self.starts.len() ==> self.ends[j] < self.starts[k]
    }

    /// `offset` lies in one of the runs.
    pub open spec fn is_missing(self, offset: int) -> bool {
        exists|k: int|
            #![trigger self.starts[k]]
            0 <= k < self.starts.len() && self.starts[k] <= offset < self.ends[k]
    }

    /// The offsets below `limit` that lie in no run, in increasing order.
    pub open spec fn present_below(self, limit: nat) -> Seq<u32>
        decreases limit,
    {
        if limit == 0 {
            Seq::empty()
        } else {
            let rest = self.present_below((limit - 1) as nat);
            if self.is_missing(limit - 1) {
                rest
            } else {
                rest.push((limit - 1) as u32)
            }
        }
    }

    /// All offsets that lie in no run, in increasing order.
    pub open spec fn present_offsets(self) -> Seq<u32> {
        self.present_below(self.span as nat)
    }

    /// The number of offsets in the first `k` runs.
    pub open spec fn missing_in(self, k: nat) -> int
        decreases k,
    {
        if k == 0 {
            0
        } else {
            self.missing_in((k - 1) as nat) + (self.ends[k - 1] - self.starts[k - 1])
        }
    }

    /// The number of runs that start at or before `offset`.
    pub open spec fn runs_started_by(self, offset: u32) -> nat {
        self.starts.filter(|start: u32| start <= offset).len()
    }

    /// The number of runs that end at or before `offset`.
    pub open spec fn runs_ended_by(self, offset: u32) -> nat {
        self.ends.filter(|end: u32| end <= offset).len()
    }

    /// The number of runs that no more than `position` present offsets precede.
    pub open spec fn runs_before_position(self, position: u32) -> nat {
        self.starts.filter(
            |start: u32| self.present_below(start as nat).len() <= position,
        ).len()
    }

    /// The first offset after run `k - 1`.
    pub open spec fn gap_start(self, k: int) -> int {
        if k == 0 {
            0
        } else {
            self.ends[k - 1] as int
        }
    }

    /// The first offset of run `k`, or the span after the last run.
    pub open spec fn gap_end(self, k: int) -> int {
        if k < self.starts.len() {
            self.starts[k] as int
        } else {
            self.span as int
        }
    }
}

/// What is wrong with run `i`, given that nothing is wrong with the runs before it.
pub open spec fn run_fault(span: u32, starts: Seq<u32>, ends: Seq<u32>, i: int) -> Option<
    Corruption,
> {
    let (start, end) = (starts[i], ends[i]);
    if start >= end {
        Some(Corruption::RunEmpty { run: i as usize, start, end })
    } else if end > span {
        Some(Corruption::RunBeyondSpan { run: i as usize, start, end, span })
    } else if i > 0 && ends[i - 1] >= start {
        Some(Corruption::RunsTouch { run: i as usize, start, previous_end: ends[i - 1] })
    } else {
        None
    }
}

/// What is wrong with the first faulty run from `i` on.
pub open spec fn first_run_fault(span: u32, starts: Seq<u32>, ends: Seq<u32>, i: int) -> Option<
    Corruption,
>
    decreases starts.len() - i,
{
    if i >= starts.len() {
        None
    } else {
        match run_fault(span, starts, ends, i) {
            Some(fault) => Some(fault),
            None => first_run_fault(span, starts, ends, i + 1),
        }
    }
}

/// What is wrong with the bounds of runs, if anything is.
pub open spec fn runs_fault(span: u32, starts: Seq<u32>, ends: Seq<u32>) -> Option<Corruption> {
    if starts.len() != ends.len() {
        Some(Corruption::RunCountMismatch { starts: starts.len() as usize, ends: ends.len() as usize })
    } else {
        first_run_fault(span, starts, ends, 0)
    }
}

pub(crate) proof fn lemma_first_fault_none(span: u32, starts: Seq<u32>, ends: Seq<u32>, i: int)
    requires
        0 <= i,
        starts.len() == ends.len(),
        forall|j: int| i <= j < starts.len() ==> run_fault(span, starts, ends, j) is None,
    ensures
        first_run_fault(span, starts, ends, i) is None,
    decreases starts.len() - i,
{
    if i < starts.len() {
        lemma_first_fault_none(span, starts, ends, i + 1);
    }
}

pub(crate) proof fn lemma_first_fault_none_rev(span: u32, starts: Seq<u32>, ends: Seq<u32>, i: int, j: int)
    requires
        0 <= i <= j < starts.len(),
        starts.len() == ends.len(),
        first_run_fault(span, starts, ends, i) is None,
    ensures
        run_fault(span, starts, ends, j) is None,
    decreases j - i,
{
    if i < j {
        lemma_first_fault_none_rev(span, starts, ends, i + 1, j);
    }
}

pub(crate) proof fn lemma_separated(m: RunsModel, j: int, k: int)
    requires
        m.starts.len() == m.ends.len(),
        0 <= j < k < m.starts.len(),
        forall|i: int| 0 <= i < m.starts.len() ==> #[trigger] run_fault(m.span, m.starts, m.ends, i) is None,
    ensures
        m.ends[j] < m.starts[k],
    decreases k - j,
{
    assert(run_fault(m.span, m.starts, m.ends, k) is None);
    if j + 1 < k {
        lemma_separated(m, j, k - 1);
        assert(run_fault(m.span, m.starts, m.ends, k - 1) is None);
    }
}

/// The bounds that are accepted are those of non-empty, separated runs within the span.
pub proof fn law_accepted_runs(span: u32, starts: Seq<u32>, ends: Seq<u32>)
    ensures
        runs_fault(span, starts, ends) is None <==> (RunsModel { span, starts, ends }).valid(),
{
    let m = RunsModel { span, starts, ends };
    if m.valid() {
        assert forall|j: int| 0 <= j < starts.len() implies run_fault(span, starts, ends, j) is None by {
            assert(m.starts[j] < m.ends[j]);
            if j > 0 {
                assert(m.ends[j - 1] < m.starts[j]);
            }
        }
        lemma_first_fault_none(span, starts, ends, 0);
    }
    if runs_fault(span, starts, ends) is None {
        assert forall|i: int| 0 <= i < m.starts.len() implies #[trigger] run_fault(span, starts, ends, i) is None by {
            lemma_first_fault_none_rev(span, starts, ends, 0, i);
        }
        assert forall|k: int| 0 <= k < m.starts.len() implies #[trigger] m.starts[k] < m.ends[k] <= m.span by {
            assert(run_fault(span, starts, ends, k) is None);
        }
        assert forall|j: int, k: int| 0 <= j < k < m.starts.len() implies #[trigger] m.ends[j] < #[trigger] m.starts[k] by {
            lemma_separated(m, j, k);
        }
    }
}

impl RunsModel {
    /// The offsets between two runs are not missing.
    pub(crate) proof fn lemma_gap_present(self, k: int, offset: int)
        requires
            self.valid(),
            0 <= k <= self.starts.len(),
            self.gap_start(k) <= offset < self.gap_end(k),
        ensures
            !self.is_missing(offset),
    {
        assert forall|j: int| 0 <= j < self.starts.len() implies !(#[trigger] self.starts[j] <= offset
            < self.ends[j]) by {
            if j < k - 1 {
                assert(self.ends[j] < self.starts[k - 1] < self.ends[k - 1]);
            }
            if k < j {
                assert(self.starts[k] < self.ends[k] < self.starts[j]);
            }
        }
    }

    /// A run adds nothing to the present offsets.
    pub(crate) proof fn lemma_run_adds_nothing(self, k: int, offset: nat)
        requires
            self.valid(),
            0 <= k < self.starts.len(),
            self.starts[k] <= offset <= self.ends[k],
        ensures
            self.present_below(offset) == self.present_below(self.starts[k] as nat),
        decreases offset,
    {
        if self.starts[k] < offset {
            self.lemma_run_adds_nothing(k, (offset - 1) as nat);
            assert(self.starts[k] <= offset - 1 < self.ends[k]);
        }
    }

    /// Up to a point in the gap before run `k`, all that is missing is in the first `k` runs.
    pub(crate) proof fn lemma_gap_count(self, k: nat, offset: nat)
        requires
            self.valid(),
            k <= self.starts.len(),
            self.gap_start(k as int) <= offset <= self.gap_end(k as int),
        ensures
            self.present_below(offset).len() == offset - self.missing_in(k),
        decreases k, offset,
    {
        if offset > self.gap_start(k as int) {
            self.lemma_gap_count(k, (offset - 1) as nat);
            self.lemma_gap_present(k as int, offset - 1);
        } else if k > 0 {
            let run = k - 1;
            assert(self.starts[run] < self.ends[run]);
            if run > 0 {
                assert(self.ends[run - 1] < self.starts[run]);
            }
            self.lemma_gap_count(run as nat, self.starts[run] as nat);
            self.lemma_run_adds_nothing(run, offset);
        }
    }

    /// Every gap ends at or after its start.
    pub(crate) proof fn lemma_gap_ordered(self, k: int)
        requires
            self.valid(),
            0 <= k <= self.starts.len(),
        ensures
            0 <= self.gap_start(k) <= self.gap_end(k) <= self.span,
            0 < k < self.starts.len() ==> self.gap_start(k) < self.gap_end(k),
    {
        if 0 < k {
            assert(self.starts[k - 1] < self.ends[k - 1]);
        }
        if k < self.starts.len() {
            assert(self.starts[k] < self.ends[k]);
        }
    }

    /// The present offsets below a limit begin with those below a smaller one.
    pub(crate) proof fn lemma_present_prefix(self, low: nat, high: nat)
        requires
            low <= high,
        ensures
            self.present_below(low).len() <= self.present_below(high).len(),
            self.present_below(high).len() <= self.present_below(low).len() + (high - low),
            self.present_below(low) == self.present_below(high).take(
                self.present_below(low).len() as int,
            ),
        decreases high,
    {
        if low < high {
            self.lemma_present_prefix(low, (high - 1) as nat);
            assert(self.present_below(low) =~= self.present_below(high).take(
                self.present_below(low).len() as int,
            ));
        } else {
            assert(self.present_below(low) =~= self.present_below(high).take(
                self.present_below(low).len() as int,
            ));
        }
    }

    /// A present offset stands at the position that counts the present offsets below it.
    pub(crate) proof fn lemma_present_at(self, offset: nat, limit: nat)
        requires
            offset < limit <= self.span,
            !self.is_missing(offset as int),
        ensures
            self.present_below(offset).len() < self.present_below(limit).len(),
            self.present_below(limit)[self.present_below(offset).len() as int] == offset,
    {
        let next = (offset + 1) as nat;
        self.lemma_present_prefix(next, limit);
        let p = self.present_below(offset).len() as int;
        assert(self.present_below(next)[p] == offset);
        assert(self.present_below(limit).take(self.present_below(next).len() as int)[p]
            == self.present_below(limit)[p]);
    }

    /// What stands at a position is a present offset with as many present offsets below it.
    pub(crate) proof fn lemma_at_present(self, position: int, limit: nat)
        requires
            limit <= self.span,
            0 <= position < self.present_below(limit).len(),
        ensures
            self.present_below(limit)[position] < limit,
            !self.is_missing(self.present_below(limit)[position] as int),
            self.present_below(self.present_below(limit)[position] as nat).len() == position,
        decreases limit,
    {
        if position < self.present_below((limit - 1) as nat).len() {
            self.lemma_at_present(position, (limit - 1) as nat);
        }
    }
}

impl RunsModel {
    /// The position that is past the runs before gap `k` and not past the gap is found in it.
    pub(crate) proof fn lemma_position_in_gap(self, k: nat, position: nat)
        requires
            self.valid(),
            k <= self.starts.len(),
            position < self.present_offsets().len(),
            k > 0 ==> self.present_below(self.starts[k - 1] as nat).len() <= position,
            k < self.starts.len() ==> position < self.present_below(
                self.starts[k as int] as nat,
            ).len(),
        ensures
            self.gap_start(k as int) <= position + self.missing_in(k) < self.gap_end(k as int),
            self.present_offsets()[position as int] == position + self.missing_in(k),
    {
        self.lemma_gap_ordered(k as int);
        let (low, high) = (self.gap_start(k as int) as nat, self.gap_end(k as int) as nat);
        self.lemma_gap_count(k, low);
        self.lemma_gap_count(k, high);
        if k > 0 {
            assert(self.starts[k - 1] < self.ends[k - 1]);
            self.lemma_run_adds_nothing(k - 1, low);
        }
        let offset = (position + self.missing_in(k)) as nat;
        self.lemma_gap_present(k as int, offset as int);
        self.lemma_gap_count(k, offset);
        self.lemma_present_at(offset, self.span as nat);
    }
}

impl RunsModel {
    /// The present offsets of a gap follow one another.
    pub(crate) proof fn lemma_gap_values(self, k: nat, from: int, to: int)
        requires
            self.valid(),
            k <= self.starts.len(),
            self.gap_start(k as int) <= from + self.missing_in(k),
            to + self.missing_in(k) <= self.gap_end(k as int),
        ensures
            from < to ==> 0 <= from && to <= self.present_offsets().len(),
            forall|p: int|
                from <= p < to ==> #[trigger] self.present_offsets()[p] == p + self.missing_in(k),
    {
        self.lemma_gap_ordered(k as int);
        self.lemma_gap_count(k, self.gap_start(k as int) as nat);
        self.lemma_gap_count(k, self.gap_end(k as int) as nat);
        self.lemma_present_prefix(self.gap_end(k as int) as nat, self.span as nat);
        assert forall|p: int| from <= p < to implies #[trigger] self.present_offsets()[p] == p
            + self.missing_in(k) by {
            let offset = (p + self.missing_in(k)) as nat;
            self.lemma_gap_present(k as int, offset as int);
            self.lemma_gap_count(k, offset);
            self.lemma_present_at(offset, self.span as nat);
        }
    }

    /// The present offsets are in increasing order.
    pub(crate) proof fn lemma_present_sorted(self, p: int, q: int)
        requires
            0 <= p <= q < self.present_offsets().len(),
        ensures
            self.present_offsets()[p] <= self.present_offsets()[q],
            p < q ==> self.present_offsets()[p] < self.present_offsets()[q],
    {
        let (a, b) = (self.present_offsets()[p] as nat, self.present_offsets()[q] as nat);
        self.lemma_at_present(p, self.span as nat);
        self.lemma_at_present(q, self.span as nat);
        if b < a {
            self.lemma_present_prefix(b, a);
        }
    }

    /// The position after the last one of a gap is the first one of the next gap.
    pub(crate) proof fn lemma_next_gap(self, k: nat, position: nat)
        requires
            self.valid(),
            k <= self.starts.len(),
            position < self.present_offsets().len(),
            position + self.missing_in(k) == self.gap_end(k as int),
        ensures
            k < self.starts.len(),
            self.gap_start((k + 1) as int) <= position + self.missing_in(k + 1) < self.gap_end(
                (k + 1) as int,
            ),
    {
        self.lemma_gap_ordered(k as int);
        self.lemma_gap_count(k, self.gap_end(k as int) as nat);
        if k < self.starts.len() {
            self.lemma_gap_ordered((k + 1) as int);
            assert(self.missing_in(k + 1) == self.missing_in(k) + (self.ends[k as int]
                - self.starts[k as int]));
            if k + 1 == self.starts.len() {
                self.lemma_gap_count(k + 1, self.span as nat);
            }
        }
    }
}

/// Extending the last run by the offset at its end, or adding a run of that one offset.
pub(crate) proof fn lemma_add_offset(m: RunsModel, after: RunsModel, offset: u32)
    requires
        m.valid(),
        offset < m.span == after.span,
        ({
            let n = m.starts.len();
            if n > 0 && m.ends[n - 1] == offset {
                after.starts == m.starts && after.ends == m.ends.update(n - 1, (offset + 1) as u32)
            } else {
                &&& after.starts == m.starts.push(offset)
                &&& after.ends == m.ends.push((offset + 1) as u32)
                &&& n > 0 ==> m.ends[n - 1] < offset
            }
        }),
    ensures
        after.valid(),
        forall|o: int| #[trigger] after.is_missing(o) <==> (m.is_missing(o) || o == offset),
{
    let n = m.starts.len();
    assert forall|k: int| 0 <= k < after.starts.len() implies #[trigger] after.starts[k]
        < after.ends[k] <= after.span by {
        if k < n {
            assert(m.starts[k] < m.ends[k] <= m.span);
        }
    }
    assert forall|j: int, k: int| 0 <= j < k < after.starts.len() implies #[trigger] after.ends[j]
        < #[trigger] after.starts[k] by {
        if k < n {
            assert(m.ends[j] < m.starts[k]);
        } else if j < n - 1 {
            assert(m.ends[j] < m.starts[n - 1]);
            assert(m.starts[n - 1] < m.ends[n - 1]);
        }
    }
    assert forall|o: int| #[trigger] after.is_missing(o) <==> (m.is_missing(o) || o == offset) by {
        if m.is_missing(o) {
            let k = choose|k: int|
                #![trigger m.starts[k]]
                0 <= k < n && m.starts[k] <= o < m.ends[k];
            assert(after.starts[k] <= o < after.ends[k]);
        }
        if o == offset {
            let k = after.starts.len() - 1;
            if k < n {
                assert(m.starts[k] < m.ends[k]);
            }
            assert(after.starts[k] <= o < after.ends[k]);
        }
        if after.is_missing(o) {
            let k = choose|k: int|
                #![trigger after.starts[k]]
                0 <= k < after.starts.len() && after.starts[k] <= o < after.ends[k];
            if k < n {
                assert(m.starts[k] <= o);
            }
        }
    }
}

/// Whether `offset` lies in one of `ranges`.
pub open spec fn in_ranges(ranges: Seq<Range<u32>>, offset: int) -> bool {
    exists|i: int|
        #![trigger ranges[i]]
        0 <= i < ranges.len() && ranges[i].start <= offset < ranges[i].end
}

/// `ranges` are non-empty and leave a gap before the next.
pub open spec fn ranges_separated(ranges: Seq<Range<u32>>) -> bool {
    &&& forall|i: int| 0 <= i < ranges.len() ==> (#[trigger] ranges[i]).start < ranges[i].end
    &&& forall|i: int, j: int|
        0 <= i < j < ranges.len() ==> (#[trigger] ranges[i]).end < (#[trigger] ranges[j]).start
}

/// The values `base + offset` for the present offsets at the positions `start..end`.
pub open spec fn values_at(m: RunsModel, base: u64, start: int, end: int) -> Seq<u64> {
    Seq::new(
        (if start < end {
            end - start
        } else {
            0
        }) as nat,
        |i: int| (base + m.present_offsets()[start + i]) as u64,
    )
}

/// The offsets of a range, in increasing order.
pub open spec fn range_offsets(range: Range<u32>) -> Seq<u32> {
    Seq::new(
        (if range.start < range.end {
            range.end - range.start
        } else {
            0
        }) as nat,
        |i: int| (range.start + i) as u32,
    )
}

/// The offsets of `ranges`, one range after the other.
pub open spec fn ranges_offsets(ranges: Seq<Range<u32>>) -> Seq<u32>
    decreases ranges.len(),
{
    if ranges.len() == 0 {
        Seq::empty()
    } else {
        ranges_offsets(ranges.drop_last()) + range_offsets(ranges.last())
    }
}

/// `s` is in strictly increasing order.
pub open spec fn increasing(s: Seq<u32>) -> bool {
    forall|i: int, j: int| 0 <= i < j < s.len() ==> s[i] < s[j]
}

proof fn lemma_increasing_unique(a: Seq<u32>, b: Seq<u32>)
    requires
        increasing(a),
        increasing(b),
        forall|x: u32| a.contains(x) <==> b.contains(x),
    ensures
        a == b,
    decreases a.len(),
{
    if a.len() == 0 {
        if b.len() > 0 {
            assert(b.contains(b[0]));
        }
        assert(a =~= b);
    } else {
        assert(a.contains(a.last()));
        assert(b.len() > 0);
        assert(b.contains(b.last()));
        let i = choose|i: int| 0 <= i < b.len() && b[i] == a.last();
        let j = choose|j: int| 0 <= j < a.len() && a[j] == b.last();
        assert(a.last() == b.last());
        let (c, d) = (a.drop_last(), b.drop_last());
        assert forall|x: u32| c.contains(x) <==> d.contains(x) by {
            if c.contains(x) {
                let k = choose|k: int| 0 <= k < c.len() && c[k] == x;
                assert(a[k] == x);
                assert(b.contains(x));
                let l = choose|l: int| 0 <= l < b.len() && b[l] == x;
                assert(d[l] == x);
            }
            if d.contains(x) {
                let k = choose|k: int| 0 <= k < d.len() && d[k] == x;
                assert(b[k] == x);
                assert(a.contains(x));
                let l = choose|l: int| 0 <= l < a.len() && a[l] == x;
                assert(c[l] == x);
            }
        }
        lemma_increasing_unique(c, d);
        assert(a =~= c.push(a.last()));
        assert(b =~= d.push(b.last()));
    }
}

proof fn lemma_ranges_offsets(ranges: Seq<Range<u32>>)
    requires
        ranges_separated(ranges),
    ensures
        increasing(ranges_offsets(ranges)),
        forall|x: u32| ranges_offsets(ranges).contains(x) <==> in_ranges(ranges, x as int),
    decreases ranges.len(),
{
    let all = ranges_offsets(ranges);
    if ranges.len() > 0 {
        let (rest, last) = (ranges.drop_last(), ranges.last());
        assert(last == ranges[ranges.len() - 1]);
        assert forall|i: int| 0 <= i < rest.len() implies (#[trigger] rest[i]).start < rest[i].end by {
            assert(ranges[i].start < ranges[i].end);
        }
        assert forall|i: int, j: int| 0 <= i < j < rest.len() implies (#[trigger] rest[i]).end < (
        #[trigger] rest[j]).start by {
            assert(ranges[i].end < ranges[j].start);
        }
        lemma_ranges_offsets(rest);
        let (before, after) = (ranges_offsets(rest), range_offsets(last));
        assert forall|i: int| 0 <= i < before.len() implies #[trigger] before[i] < last.start by {
            assert(before.contains(before[i]));
            assert(in_ranges(rest, before[i] as int));
            let k = choose|k: int|
                #![trigger rest[k]]
                0 <= k < rest.len() && rest[k].start <= before[i] < rest[k].end;
            assert(ranges[k].end < ranges[ranges.len() - 1].start);
        }
        assert forall|i: int, j: int| 0 <= i < j < all.len() implies all[i] < all[j] by {
            if j < before.len() {
                assert(before[i] < before[j]);
            } else if i < before.len() {
                assert(before[i] < last.start <= after[j - before.len()]);
            } else {
                assert(after[i - before.len()] < after[j - before.len()]);
            }
        }
        assert forall|x: u32| all.contains(x) <==> in_ranges(ranges, x as int) by {
            if all.contains(x) {
                let i = choose|i: int| 0 <= i < all.len() && all[i] == x;
                if i < before.len() {
                    assert(before[i] == x);
                    assert(before.contains(x));
                    assert(in_ranges(rest, x as int));
                    let k = choose|k: int|
                        #![trigger rest[k]]
                        0 <= k < rest.len() && rest[k].start <= x < rest[k].end;
                    assert(ranges[k].start <= x < ranges[k].end);
                } else {
                    assert(after[i - before.len()] == x);
                    assert(ranges[ranges.len() - 1].start <= x < ranges[ranges.len() - 1].end);
                }
            }
            if in_ranges(ranges, x as int) {
                let k = choose|k: int|
                    #![trigger ranges[k]]
                    0 <= k < ranges.len() && ranges[k].start <= x < ranges[k].end;
                if k < rest.len() {
                    assert(rest[k].start <= x < rest[k].end);
                    assert(in_ranges(rest, x as int));
                    assert(before.contains(x));
                    let i = choose|i: int| 0 <= i < before.len() && before[i] == x;
                    assert(all[i] == x);
                } else {
                    assert(after[x - last.start] == x);
                    assert(all[before.len() + (x - last.start)] == x);
                }
            }
        }
    }
}

/// An offset is among the present ones exactly when it is in the span and in no run, and the
/// present ones are in strictly increasing order.
pub proof fn law_present_offsets(m: RunsModel)
    ensures
        increasing(m.present_offsets()),
        forall|o: u32| #[trigger]
            m.present_offsets().contains(o) <==> (o < m.span && !m.is_missing(o as int)),
{
    assert forall|i: int, j: int| 0 <= i < j < m.present_offsets().len() implies m.present_offsets()[i]
        < m.present_offsets()[j] by {
        m.lemma_present_sorted(i, j);
    }
    assert forall|o: u32| #[trigger]
        m.present_offsets().contains(o) <==> (o < m.span && !m.is_missing(o as int)) by {
        if m.present_offsets().contains(o) {
            let p = choose|p: int| 0 <= p < m.present_offsets().len() && m.present_offsets()[p] == o;
            m.lemma_at_present(p, m.span as nat);
        }
        if o < m.span && !m.is_missing(o as int) {
            m.lemma_present_at(o as nat, m.span as nat);
        }
    }
}

/// Looking up the position of a present offset and then the offset at that position gives the
/// offset back.
pub proof fn law_offset_at_position(m: RunsModel, offset: u32)
    requires
        offset < m.span,
        !m.is_missing(offset as int),
    ensures
        m.present_below(offset as nat).len() < m.present_offsets().len(),
        m.present_offsets()[m.present_below(offset as nat).len() as int] == offset,
{
    m.lemma_present_at(offset as nat, m.span as nat);
}

/// Looking up the offset at a position and then the position of that offset gives the position
/// back.
pub proof fn law_position_of_offset(m: RunsModel, position: u32)
    requires
        position < m.present_offsets().len(),
    ensures
        m.present_offsets()[position as int] < m.span,
        !m.is_missing(m.present_offsets()[position as int] as int),
        m.present_below(m.present_offsets()[position as int] as nat).len() == position,
{
    m.lemma_at_present(position as int, m.span as nat);
}

/// Of a sequence that meets a condition up to index `k` and not from there on, `k` elements meet it.
pub(crate) proof fn lemma_prefix_count(s: Seq<u32>, meets: spec_fn(u32) -> bool, k: nat)
    requires
        k <= s.len(),
        forall|j: int| 0 <= j < k ==> meets(#[trigger] s[j]),
        forall|j: int| k <= j < s.len() ==> !meets(#[trigger] s[j]),
    ensures
        s.filter(meets).len() == k,
    decreases s.len(),
{
    reveal(Seq::filter);
    if s.len() > 0 {
        let rest = s.drop_last();
        assert forall|j: int| k <= j < rest.len() implies !meets(#[trigger] rest[j]) by {
            assert(rest[j] == s[j]);
        }
        assert(s[s.len() - 1] == s.last());
        if k == s.len() {
            lemma_prefix_count(rest, meets, (k - 1) as nat);
        } else {
            lemma_prefix_count(rest, meets, k);
        }
    }
}

/// The starts are in order, so where they pass a position gives the count of the runs before it.
pub(crate) proof fn lemma_runs_before_position(m: RunsModel, position: u32, k: nat)
    requires
        m.valid(),
        k <= m.starts.len(),
        k > 0 ==> m.present_below(m.starts[k - 1] as nat).len() <= position,
        k < m.starts.len() ==> position < m.present_below(m.starts[k as int] as nat).len(),
    ensures
        m.runs_before_position(position) == k,
{
    assert forall|j: int| 0 <= j < k implies m.present_below(#[trigger] m.starts[j] as nat).len()
        <= position by {
        if j < k - 1 {
            assert(m.starts[j] < m.ends[j]);
            assert(m.ends[j] < m.starts[k - 1]);
            m.lemma_present_prefix(m.starts[j] as nat, m.starts[k - 1] as nat);
        }
    }
    assert forall|j: int| k <= j < m.starts.len() implies position < m.present_below(
        #[trigger] m.starts[j] as nat,
    ).len() by {
        if k < j {
            assert(m.starts[k as int] < m.ends[k as int]);
            assert(m.ends[k as int] < m.starts[j]);
            m.lemma_present_prefix(m.starts[k as int] as nat, m.starts[j] as nat);
        }
    }
    lemma_prefix_count(m.starts, |start: u32| m.present_below(start as nat).len() <= position, k);
}

/// The count of the runs before a position is where the starts pass it.
proof fn lemma_count_splits(m: RunsModel, position: u32) -> (k: nat)
    requires
        m.valid(),
    ensures
        k == m.runs_before_position(position) <= m.starts.len(),
        k > 0 ==> m.present_below(m.starts[k - 1] as nat).len() <= position,
        k < m.starts.len() ==> position < m.present_below(m.starts[k as int] as nat).len(),
{
    let k = lemma_find_split(m, position, m.starts.len());
    lemma_runs_before_position(m, position, k);
    k
}

proof fn lemma_find_split(m: RunsModel, position: u32, upto: nat) -> (k: nat)
    requires
        m.valid(),
        upto <= m.starts.len(),
        upto < m.starts.len() ==> position < m.present_below(m.starts[upto as int] as nat).len(),
    ensures
        k <= upto,
        k > 0 ==> m.present_below(m.starts[k - 1] as nat).len() <= position,
        k < m.starts.len() ==> position < m.present_below(m.starts[k as int] as nat).len(),
    decreases upto,
{
    if upto > 0 && position < m.present_below(m.starts[upto - 1] as nat).len() {
        lemma_find_split(m, position, (upto - 1) as nat)
    } else {
        upto
    }
}

/// The runs before a position are those that end at or before the offset at the position, and those
/// that start at or before it: they lie entirely before that offset, and the others after it.
pub proof fn law_runs_before_position(m: RunsModel, position: u32)
    requires
        m.valid(),
        position < m.present_offsets().len(),
    ensures
        ({
            let k = m.runs_before_position(position);
            let offset = m.present_offsets()[position as int];
            &&& k == m.runs_ended_by(offset)
            &&& k == m.runs_started_by(offset)
            &&& k <= m.starts.len()
            &&& forall|j: int| 0 <= j < k ==> #[trigger] m.ends[j] <= offset
            &&& forall|j: int| k <= j < m.starts.len() ==> offset < #[trigger] m.starts[j]
        }),
{
    let k = lemma_count_splits(m, position);
    let offset = m.present_offsets()[position as int];
    if k > 0 {
        assert(m.starts[k - 1] < m.ends[k - 1]);
    }
    m.lemma_position_in_gap(k, position as nat);
    assert forall|j: int| 0 <= j < k implies #[trigger] m.ends[j] <= offset by {
        if j < k - 1 {
            assert(m.ends[j] < m.starts[k - 1]);
        }
    }
    assert forall|j: int| k <= j < m.starts.len() implies offset < #[trigger] m.starts[j] by {
        if k < j {
            assert(m.starts[k as int] < m.ends[k as int]);
            assert(m.ends[k as int] < m.starts[j]);
        }
    }
    assert forall|j: int| 0 <= j < k implies #[trigger] m.starts[j] <= offset by {
        assert(m.starts[j] < m.ends[j]);
    }
    assert forall|j: int| k <= j < m.ends.len() implies offset < #[trigger] m.ends[j] by {
        assert(m.starts[j] < m.ends[j]);
    }
    lemma_prefix_count(m.ends, |end: u32| end <= offset, k);
    lemma_prefix_count(m.starts, |start: u32| start <= offset, k);
}

/// What is present and what is missing add up to the span.
pub proof fn law_counts(m: RunsModel)
    requires
        m.valid(),
    ensures
        m.missing_in(m.starts.len()) + m.present_offsets().len() == m.span,
{
    let n = m.starts.len();
    m.lemma_gap_ordered(n as int);
    m.lemma_gap_count(n, m.span as nat);
}

/// The offsets of the ranges between runs are the present offsets, in order.
pub proof fn law_present_ranges(m: RunsModel, ranges: Seq<Range<u32>>)
    requires
        ranges_separated(ranges),
        forall|o: int| #[trigger]
            in_ranges(ranges, o) <==> (0 <= o < m.span && !m.is_missing(o)),
    ensures
        ranges_offsets(ranges) == m.present_offsets(),
{
    law_present_offsets(m);
    lemma_ranges_offsets(ranges);
    assert forall|x: u32| ranges_offsets(ranges).contains(x) <==> m.present_offsets().contains(x) by {
        assert(in_ranges(ranges, x as int) <==> (x < m.span && !m.is_missing(x as int)));
    }
    lemma_increasing_unique(ranges_offsets(ranges), m.present_offsets());
}

proof fn lemma_bitmap_count(m: RunsModel, bits: Seq<bool>, n: nat)
    requires
        n <= bits.len(),
        forall|i: int| 0 <= i < bits.len() ==> (m.is_missing(i) <==> !(#[trigger] bits[i])),
    ensures
        m.present_below(n).len() == count_set(bits.take(n as int)),
    decreases n,
{
    if n > 0 {
        lemma_bitmap_count(m, bits, (n - 1) as nat);
        assert(bits.take(n as int).drop_last() =~= bits.take(n - 1));
        assert(m.is_missing(n - 1) <==> !bits[n - 1]);
    }
}

/// Runs and a bitmap with the same holes have as many offsets present.
pub proof fn law_bitmap_count(m: RunsModel, bits: Seq<bool>)
    requires
        m.span == bits.len(),
        forall|i: int| 0 <= i < bits.len() ==> (m.is_missing(i) <==> !(#[trigger] bits[i])),
    ensures
        m.present_offsets().len() == count_set(bits),
{
    lemma_bitmap_count(m, bits, bits.len());
    assert(bits.take(bits.len() as int) =~= bits);
}

/// Appending the values at adjacent position ranges appends those at the joined range.
pub proof fn law_values_join(m: RunsModel, base: u64, start: int, mid: int, end: int)
    requires
        0 <= start <= mid <= end <= m.present_offsets().len(),
    ensures
        values_at(m, base, start, mid) + values_at(m, base, mid, end) == values_at(
            m,
            base,
            start,
            end,
        ),
{
    assert(values_at(m, base, start, mid) + values_at(m, base, mid, end) =~= values_at(
        m,
        base,
        start,
        end,
    ));
}

/// The first runs of two models with the same missing offsets are the same runs.
proof fn lemma_same_runs(a: RunsModel, b: RunsModel, k: int)
    requires
        a.valid(),
        b.valid(),
        forall|o: int| a.is_missing(o) <==> b.is_missing(o),
        0 <= k <= a.starts.len(),
    ensures
        k <= b.starts.len(),
        forall|j: int| 0 <= j < k ==> a.starts[j] == b.starts[j] && a.ends[j] == b.ends[j],
    decreases k,
{
    if k > 0 {
        let i = k - 1;
        lemma_same_runs(a, b, i);
        let (start, end) = (a.starts[i] as int, a.ends[i] as int);
        assert(a.starts[i] < a.ends[i]);
        assert(a.starts[i] <= start < a.ends[i]);
        assert(a.is_missing(start));
        assert(b.is_missing(start));
        // The run of `b` that holds the start of run `i` of `a` comes after the runs in common.
        let l = choose|l: int|
            #![trigger b.starts[l]]
            0 <= l < b.starts.len() && b.starts[l] <= start < b.ends[l];
        if l < i {
            assert(a.ends[l] < a.starts[i]);
            assert(a.starts[l] == b.starts[l] && a.ends[l] == b.ends[l]);
        }
        let first = b.starts[i] as int;
        assert(i < b.starts.len());
        assert(b.starts[i] < b.ends[i]);
        if i < l {
            assert(b.ends[i] < b.starts[l]);
        }
        assert(b.starts[i] <= first < b.ends[i]);
        assert(b.is_missing(first));
        assert(a.is_missing(first));
        let r = choose|r: int|
            #![trigger a.starts[r]]
            0 <= r < a.starts.len() && a.starts[r] <= first < a.ends[r];
        if r < i {
            assert(b.ends[r] < b.starts[i]);
            assert(a.starts[r] == b.starts[r] && a.ends[r] == b.ends[r]);
        }
        if i < r {
            assert(a.ends[i] < a.starts[r]);
        }
        assert(first == start);
        lemma_run_end(a, b, i);
        lemma_run_end(b, a, i);
    }
}

/// A run ends no later than a run with the same start and no fewer missing offsets.
proof fn lemma_run_end(a: RunsModel, b: RunsModel, i: int)
    requires
        a.valid(),
        b.valid(),
        forall|o: int| a.is_missing(o) ==> b.is_missing(o),
        0 <= i < a.starts.len(),
        i < b.starts.len(),
        a.starts[i] == b.starts[i],
    ensures
        a.ends[i] <= b.ends[i],
{
    if b.ends[i] < a.ends[i] {
        let o = b.ends[i] as int;
        assert(b.starts[i] < b.ends[i]);
        assert(a.starts[i] <= o < a.ends[i]);
        assert(a.is_missing(o));
        assert(b.is_missing(o));
        let l = choose|l: int|
            #![trigger b.starts[l]]
            0 <= l < b.starts.len() && b.starts[l] <= o < b.ends[l];
        if l < i {
            assert(b.ends[l] < b.starts[i]);
        }
        if i < l {
            assert(b.ends[i] < b.starts[l]);
        }
    }
}

/// Runs are maximal, so a span and its missing offsets have exactly one encoding: however runs
/// were built, two with the same holes are the same.
pub proof fn law_encoding_unique(a: RunsModel, b: RunsModel)
    requires
        a.valid(),
        b.valid(),
        a.span == b.span,
        forall|o: int| 0 <= o < a.span ==> (#[trigger] a.is_missing(o) <==> b.is_missing(o)),
    ensures
        a == b,
{
    assert forall|o: int| a.is_missing(o) <==> b.is_missing(o) by {
        if a.is_missing(o) {
            let k = choose|k: int|
                #![trigger a.starts[k]]
                0 <= k < a.starts.len() && a.starts[k] <= o < a.ends[k];
            assert(a.ends[k] <= a.span);
        }
        if b.is_missing(o) {
            let k = choose|k: int|
                #![trigger b.starts[k]]
                0 <= k < b.starts.len() && b.starts[k] <= o < b.ends[k];
            assert(b.ends[k] <= b.span);
        }
    }
    lemma_same_runs(a, b, a.starts.len() as int);
    lemma_same_runs(b, a, b.starts.len() as int);
    assert(a.starts =~= b.starts);
    assert(a.ends =~= b.ends);
}

} // verus!
