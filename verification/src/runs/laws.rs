//! What hole runs are for, said of the offsets themselves.

use super::model::{
    first_run_fault, in_ranges, law_accepted_runs, law_counts, law_present_offsets,
    lemma_prefix_count, ranges_separated, run_fault, runs_fault, values_at, RunsModel,
};
use crate::error::Corruption;
use std::ops::Range;
use vstd::prelude::*;
use vstd::set_lib::{lemma_int_range, set_int_range};

verus! {

/// An offset is missing exactly when some run starts at or before it and ends after it.
pub proof fn law_missing(m: RunsModel, offset: int)
    ensures
        m.is_missing(offset) <==> exists|k: int|
            0 <= k < m.starts.len() && #[trigger] m.starts[k] <= offset < m.ends[k],
{
}

/// Runs are valid exactly when there is an end for each start, no run is empty or goes beyond the
/// span, and each leaves a gap before the next.
pub proof fn law_valid_runs(m: RunsModel)
    ensures
        m.valid() <==> {
            &&& m.starts.len() == m.ends.len()
            &&& forall|k: int|
                0 <= k < m.starts.len() ==> #[trigger] m.starts[k] < m.ends[k] <= m.span
            &&& forall|k: int| 0 < k < m.starts.len() ==> m.ends[k - 1] < #[trigger] m.starts[k]
        },
{
    if m.starts.len() == m.ends.len() && (forall|k: int|
        0 <= k < m.starts.len() ==> #[trigger] m.starts[k] < m.ends[k] <= m.span) && (forall|k: int|
        0 < k < m.starts.len() ==> m.ends[k - 1] < #[trigger] m.starts[k]) {
        assert forall|j: int, k: int| 0 <= j < k < m.starts.len() implies #[trigger] m.ends[j]
            < #[trigger] m.starts[k] by {
            lemma_apart(m, j, k);
        }
    }
    if m.valid() {
        assert forall|k: int| 0 < k < m.starts.len() implies m.ends[k - 1] < #[trigger] m.starts[k] by {
            assert(m.ends[k - 1] < m.starts[k]);
        }
    }
}

proof fn lemma_apart(m: RunsModel, j: int, k: int)
    requires
        0 <= j < k < m.starts.len(),
        forall|k: int| 0 <= k < m.starts.len() ==> #[trigger] m.starts[k] < m.ends[k] <= m.span,
        forall|k: int| 0 < k < m.starts.len() ==> m.ends[k - 1] < #[trigger] m.starts[k],
    ensures
        m.ends[j] < m.starts[k],
    decreases k - j,
{
    assert(m.ends[k - 1] < m.starts[k]);
    if j + 1 < k {
        lemma_apart(m, j, k - 1);
        assert(m.starts[k - 1] < m.ends[k - 1]);
    }
}

/// Run bounds are accepted exactly when they are bounds of valid runs.
pub proof fn law_runs_accepted(span: u32, starts: Seq<u32>, ends: Seq<u32>)
    ensures
        runs_fault(span, starts, ends) is None <==> {
            &&& starts.len() == ends.len()
            &&& forall|k: int| 0 <= k < starts.len() ==> #[trigger] starts[k] < ends[k] <= span
            &&& forall|k: int| 0 < k < starts.len() ==> ends[k - 1] < #[trigger] starts[k]
        },
{
    law_accepted_runs(span, starts, ends);
    law_valid_runs(RunsModel { span, starts, ends });
}

/// The first run at fault, before which no run is.
proof fn lemma_first_fault(span: u32, starts: Seq<u32>, ends: Seq<u32>, from: int) -> (i: int)
    requires
        0 <= from,
        starts.len() == ends.len(),
        first_run_fault(span, starts, ends, from) is Some,
    ensures
        from <= i < starts.len(),
        run_fault(span, starts, ends, i) is Some,
        first_run_fault(span, starts, ends, from) == run_fault(span, starts, ends, i),
        forall|j: int| from <= j < i ==> run_fault(span, starts, ends, j) is None,
    decreases starts.len() - from,
{
    if run_fault(span, starts, ends, from) is Some {
        from
    } else {
        lemma_first_fault(span, starts, ends, from + 1)
    }
}

/// What is said of refused run bounds is so, and of no run before the one that it is said of.
pub proof fn law_runs_refused(span: u32, starts: Seq<u32>, ends: Seq<u32>)
    requires
        starts.len() <= usize::MAX,
        ends.len() <= usize::MAX,
    ensures
        runs_fault(span, starts, ends) matches Some(fault) ==> match fault {
            Corruption::RunCountMismatch { starts: s, ends: e } => s == starts.len() && e
                == ends.len() && s != e,
            Corruption::RunEmpty { run, start, end } => {
                &&& starts.len() == ends.len() && run < starts.len()
                &&& start == starts[run as int] && end == ends[run as int] && start >= end
                &&& forall|k: int| 0 <= k < run ==> #[trigger] starts[k] < ends[k] <= span
                &&& forall|k: int| 0 < k < run ==> ends[k - 1] < #[trigger] starts[k]
            },
            Corruption::RunBeyondSpan { run, start, end, span: s } => {
                &&& starts.len() == ends.len() && run < starts.len() && s == span
                &&& start == starts[run as int] && end == ends[run as int] && start < end && end
                    > span
                &&& forall|k: int| 0 <= k < run ==> #[trigger] starts[k] < ends[k] <= span
                &&& forall|k: int| 0 < k < run ==> ends[k - 1] < #[trigger] starts[k]
            },
            Corruption::RunsTouch { run, start, previous_end } => {
                &&& starts.len() == ends.len() && 0 < run < starts.len()
                &&& start == starts[run as int] && previous_end == ends[run - 1] && previous_end
                    >= start
                &&& forall|k: int| 0 <= k <= run ==> #[trigger] starts[k] < ends[k] <= span
                &&& forall|k: int| 0 < k < run ==> ends[k - 1] < #[trigger] starts[k]
            },
            _ => false,
        },
{
    if starts.len() == ends.len() && runs_fault(span, starts, ends) is Some {
        let i = lemma_first_fault(span, starts, ends, 0);
        assert forall|k: int| 0 <= k < i implies #[trigger] starts[k] < ends[k] <= span by {
            assert(run_fault(span, starts, ends, k) is None);
        }
        assert forall|k: int| 0 < k < i implies ends[k - 1] < #[trigger] starts[k] by {
            assert(run_fault(span, starts, ends, k) is None);
        }
        if let Some(Corruption::RunsTouch { run, start, previous_end }) = run_fault(
            span,
            starts,
            ends,
            i,
        ) {
            assert(starts[i] < ends[i] <= span);
            assert forall|k: int| 0 <= k <= run implies #[trigger] starts[k] < ends[k] <= span by {
            }
        }
    }
}

/// The offsets of the span that lie in no run, below `limit`.
spec fn present_set(m: RunsModel, limit: int) -> Set<int> {
    Set::new(
        |o: int|
            0 <= o < limit && forall|k: int|
                0 <= k < m.starts.len() ==> !(#[trigger] m.starts[k] <= o < m.ends[k]),
    )
}

proof fn lemma_present_set(m: RunsModel, limit: nat)
    ensures
        present_set(m, limit as int).finite(),
        m.present_below(limit).len() == present_set(m, limit as int).len(),
    decreases limit,
{
    let set = present_set(m, limit as int);
    if limit == 0 {
        assert(set =~= Set::empty());
    } else {
        let before = present_set(m, limit - 1);
        lemma_present_set(m, (limit - 1) as nat);
        if m.is_missing(limit - 1) {
            assert(set =~= before) by {
                let k = choose|k: int|
                    #![trigger m.starts[k]]
                    0 <= k < m.starts.len() && m.starts[k] <= limit - 1 < m.ends[k];
                assert(!set.contains(limit - 1));
            }
        } else {
            assert(set =~= before.insert(limit - 1));
        }
    }
}

/// As many offsets are present below a limit as there are offsets below it that lie in no run.
pub proof fn law_present_count(m: RunsModel, limit: nat)
    ensures
        ({
            let present = Set::new(
                |o: int|
                    0 <= o < limit && forall|k: int|
                        0 <= k < m.starts.len() ==> !(#[trigger] m.starts[k] <= o < m.ends[k]),
            );
            &&& present.finite()
            &&& m.present_below(limit).len() == present.len()
        }),
{
    lemma_present_set(m, limit);
    let present = Set::new(
        |o: int|
            0 <= o < limit && forall|k: int|
                0 <= k < m.starts.len() ==> !(#[trigger] m.starts[k] <= o < m.ends[k]),
    );
    assert(present =~= present_set(m, limit as int));
}

/// The present offsets are those below the span that lie in no run, each once and in order.
pub proof fn law_present(m: RunsModel)
    ensures
        m.present_offsets() == m.present_below(m.span as nat),
        forall|i: int, j: int|
            0 <= i < j < m.present_offsets().len() ==> #[trigger] m.present_offsets()[i]
                < #[trigger] m.present_offsets()[j],
        forall|o: u32| #[trigger]
            m.present_offsets().contains(o) <==> {
                &&& o < m.span
                &&& forall|k: int|
                    0 <= k < m.starts.len() ==> !(#[trigger] m.starts[k] <= o < m.ends[k])
            },
{
    law_present_offsets(m);
    assert forall|o: u32| #[trigger]
        m.present_offsets().contains(o) <==> {
            &&& o < m.span
            &&& forall|k: int|
                0 <= k < m.starts.len() ==> !(#[trigger] m.starts[k] <= o < m.ends[k])
        } by {
        assert(m.present_offsets().contains(o) <==> (o < m.span && !m.is_missing(o as int)));
    }
}

/// The offset at a position lies below the span and in no run, and has as many present offsets
/// below it as the position says.
pub proof fn law_offset_rank(m: RunsModel, position: int)
    requires
        0 <= position < m.present_offsets().len(),
    ensures
        ({
            let offset = m.present_offsets()[position] as int;
            &&& 0 <= offset < m.span
            &&& forall|k: int|
                0 <= k < m.starts.len() ==> !(#[trigger] m.starts[k] <= offset < m.ends[k])
            &&& Set::new(
                |o: int|
                    0 <= o < offset && forall|k: int|
                        0 <= k < m.starts.len() ==> !(#[trigger] m.starts[k] <= o < m.ends[k]),
            ).len() == position
        }),
{
    let offset = m.present_offsets()[position];
    m.lemma_at_present(position, m.span as nat);
    law_present_count(m, offset as nat);
}

/// The runs miss as many offsets as lie in one of them.
pub proof fn law_missing_count(m: RunsModel)
    requires
        m.valid(),
    ensures
        ({
            let missing = Set::new(
                |o: int|
                    exists|k: int|
                        0 <= k < m.starts.len() && #[trigger] m.starts[k] <= o < m.ends[k],
            );
            &&& missing.finite()
            &&& m.missing_in(m.starts.len()) == missing.len()
            &&& m.span - m.present_offsets().len() == missing.len()
        }),
{
    let missing = Set::new(
        |o: int|
            exists|k: int| 0 <= k < m.starts.len() && #[trigger] m.starts[k] <= o < m.ends[k],
    );
    let all = set_int_range(0, m.span as int);
    let present = present_set(m, m.span as int);
    lemma_int_range(0, m.span as int);
    lemma_present_set(m, m.span as nat);
    law_counts(m);
    assert forall|o: int| #[trigger] missing.contains(o) implies all.contains(o) by {
        let k = choose|k: int|
            0 <= k < m.starts.len() && #[trigger] m.starts[k] <= o < m.ends[k];
        assert(m.ends[k] <= m.span);
    }
    assert(missing =~= all.difference(present)) by {
        assert forall|o: int| all.difference(present).contains(o) implies missing.contains(o) by {
            assert(!(forall|k: int|
                0 <= k < m.starts.len() ==> !(#[trigger] m.starts[k] <= o < m.ends[k])));
        }
    }
    assert(present =~= all.intersect(present));
    vstd::set_lib::lemma_set_disjoint_lens(missing, present);
    assert(missing + present =~= all);
}

/// The value for a position is the base and an offset that lies below the span and in no run, and
/// that has as many present offsets below it as the position says.
pub proof fn law_values(m: RunsModel, base: u64, start: int, end: int)
    requires
        0 <= start,
        end <= m.present_offsets().len(),
        start < end ==> base + m.present_offsets()[end - 1] <= u64::MAX,
    ensures
        values_at(m, base, start, end).len() == if start < end {
            end - start
        } else {
            0
        },
        forall|i: int|
            0 <= i < end - start ==> {
                let offset = #[trigger] values_at(m, base, start, end)[i] - base;
                &&& 0 <= offset < m.span
                &&& forall|k: int|
                    0 <= k < m.starts.len() ==> !(#[trigger] m.starts[k] <= offset < m.ends[k])
                &&& Set::new(
                    |o: int|
                        0 <= o < offset && forall|k: int|
                            0 <= k < m.starts.len() ==> !(#[trigger] m.starts[k] <= o < m.ends[k]),
                ).len() == start + i
            },
        forall|i: int|
            0 <= i < end - start ==> #[trigger] values_at(m, base, start, end)[i] == base
                + m.present_offsets()[start + i],
{
    assert forall|i: int| 0 <= i < end - start implies #[trigger] values_at(
        m,
        base,
        start,
        end,
    )[i] == base + m.present_offsets()[start + i] by {
        m.lemma_present_sorted(start + i, end - 1);
    }
    assert forall|i: int| 0 <= i < end - start implies {
        let offset = #[trigger] values_at(m, base, start, end)[i] - base;
        &&& 0 <= offset < m.span
        &&& forall|k: int|
            0 <= k < m.starts.len() ==> !(#[trigger] m.starts[k] <= offset < m.ends[k])
        &&& Set::new(
            |o: int|
                0 <= o < offset && forall|k: int|
                    0 <= k < m.starts.len() ==> !(#[trigger] m.starts[k] <= o < m.ends[k]),
        ).len() == start + i
    } by {
        law_offset_rank(m, start + i);
    }
}

/// Ranges hold an offset exactly when one of them starts at or before it and ends after it. They
/// are separated exactly when none is empty and each ends before the next starts.
pub proof fn law_ranges(ranges: Seq<Range<u32>>, offset: int)
    ensures
        in_ranges(ranges, offset) <==> exists|i: int|
            0 <= i < ranges.len() && (#[trigger] ranges[i]).start <= offset < ranges[i].end,
        ranges_separated(ranges) <==> {
            &&& forall|i: int| 0 <= i < ranges.len() ==> (#[trigger] ranges[i]).start < ranges[i].end
            &&& forall|i: int, j: int|
                0 <= i < j < ranges.len() ==> (#[trigger] ranges[i]).end < (
                #[trigger] ranges[j]).start
        },
{
}

/// The count of the runs that start, or end, at or before an offset is where the starts, or the
/// ends, pass it.
pub proof fn law_run_counts(m: RunsModel, offset: u32)
    requires
        m.valid(),
    ensures
        m.runs_started_by(offset) <= m.starts.len(),
        forall|j: int|
            0 <= j < m.starts.len() ==> (j < m.runs_started_by(offset) <==> #[trigger] m.starts[j]
                <= offset),
        m.runs_ended_by(offset) <= m.ends.len(),
        forall|j: int|
            0 <= j < m.ends.len() ==> (j < m.runs_ended_by(offset) <==> #[trigger] m.ends[j]
                <= offset),
{
    let k = lemma_split_starts(m, offset, m.starts.len());
    let l = lemma_split_ends(m, offset, m.ends.len());
}

/// The count of the runs before a position is where the present offsets below the starts pass it.
pub proof fn law_runs_before(m: RunsModel, position: u32)
    requires
        m.valid(),
    ensures
        m.runs_before_position(position) <= m.starts.len(),
        forall|j: int|
            0 <= j < m.starts.len() ==> (j < m.runs_before_position(position) <==> m.present_below(
                #[trigger] m.starts[j] as nat,
            ).len() <= position),
{
    let k = lemma_split_positions(m, position, m.starts.len());
}

proof fn lemma_split_positions(m: RunsModel, position: u32, upto: nat) -> (k: nat)
    requires
        m.valid(),
        upto <= m.starts.len(),
        forall|j: int|
            upto <= j < m.starts.len() ==> position < m.present_below(
                #[trigger] m.starts[j] as nat,
            ).len(),
    ensures
        k == m.runs_before_position(position) <= upto,
        forall|j: int|
            0 <= j < k ==> m.present_below(#[trigger] m.starts[j] as nat).len() <= position,
        forall|j: int|
            k <= j < m.starts.len() ==> position < m.present_below(
                #[trigger] m.starts[j] as nat,
            ).len(),
    decreases upto,
{
    if upto > 0 && position < m.present_below(m.starts[upto - 1] as nat).len() {
        lemma_split_positions(m, position, (upto - 1) as nat)
    } else {
        assert forall|j: int| 0 <= j < upto implies m.present_below(
            #[trigger] m.starts[j] as nat,
        ).len() <= position by {
            if j < upto - 1 {
                assert(m.ends[j] < m.starts[upto - 1]);
                m.lemma_present_prefix(m.starts[j] as nat, m.starts[upto - 1] as nat);
            }
        }
        lemma_prefix_count(
            m.starts,
            |start: u32| m.present_below(start as nat).len() <= position,
            upto,
        );
        upto
    }
}

proof fn lemma_split_starts(m: RunsModel, offset: u32, upto: nat) -> (k: nat)
    requires
        m.valid(),
        upto <= m.starts.len(),
        forall|j: int| upto <= j < m.starts.len() ==> offset < #[trigger] m.starts[j],
    ensures
        k == m.runs_started_by(offset) <= upto,
        forall|j: int| 0 <= j < k ==> #[trigger] m.starts[j] <= offset,
        forall|j: int| k <= j < m.starts.len() ==> offset < #[trigger] m.starts[j],
    decreases upto,
{
    if upto > 0 && offset < m.starts[upto - 1] {
        lemma_split_starts(m, offset, (upto - 1) as nat)
    } else {
        assert forall|j: int| 0 <= j < upto implies #[trigger] m.starts[j] <= offset by {
            if j < upto - 1 {
                assert(m.starts[j] < m.ends[j]);
                assert(m.ends[j] < m.starts[upto - 1]);
            }
        }
        lemma_prefix_count(m.starts, |start: u32| start <= offset, upto);
        upto
    }
}

proof fn lemma_split_ends(m: RunsModel, offset: u32, upto: nat) -> (k: nat)
    requires
        m.valid(),
        upto <= m.ends.len(),
        forall|j: int| upto <= j < m.ends.len() ==> offset < #[trigger] m.ends[j],
    ensures
        k == m.runs_ended_by(offset) <= upto,
        forall|j: int| 0 <= j < k ==> #[trigger] m.ends[j] <= offset,
        forall|j: int| k <= j < m.ends.len() ==> offset < #[trigger] m.ends[j],
    decreases upto,
{
    if upto > 0 && offset < m.ends[upto - 1] {
        lemma_split_ends(m, offset, (upto - 1) as nat)
    } else {
        assert forall|j: int| 0 <= j < upto implies #[trigger] m.ends[j] <= offset by {
            if j < upto - 1 {
                assert(m.starts[upto - 1] < m.ends[upto - 1]);
                assert(m.ends[j] < m.starts[upto - 1]);
            }
        }
        lemma_prefix_count(m.ends, |end: u32| end <= offset, upto);
        upto
    }
}

} // verus!
