//! Finding the runs of clear bits of a bitmap.

use super::model::RunsModel;
use crate::bitmap::bit_of;
use vstd::prelude::*;

verus! {

/// The bits of a bitmap below `upto` are clear exactly in the runs found so far, the last of which
/// may still be open.
pub(crate) open spec fn scanned(
    bits: Seq<bool>,
    upto: int,
    starts: Seq<u32>,
    ends: Seq<u32>,
    open: Option<u32>,
) -> bool {
    let m = RunsModel { span: upto as u32, starts, ends };
    let n = starts.len();
    &&& 0 <= upto <= bits.len() <= u32::MAX
    &&& m.valid()
    &&& match open {
        Some(start) => start < upto && (n > 0 ==> ends[n - 1] < start),
        None => n > 0 ==> ends[n - 1] < upto,
    }
    &&& forall|i: int|
        0 <= i < upto ==> !(#[trigger] bits[i]) == (m.is_missing(i) || (open matches Some(start)
            && start <= i))
}

/// Clear bits open a run or continue the open one.
pub(crate) proof fn lemma_scan_clear(
    bits: Seq<bool>,
    upto: int,
    next: int,
    starts: Seq<u32>,
    ends: Seq<u32>,
    open: Option<u32>,
)
    requires
        scanned(bits, upto, starts, ends, open),
        upto < next <= bits.len(),
        forall|i: int| upto <= i < next ==> !(#[trigger] bits[i]),
    ensures
        scanned(
            bits,
            next,
            starts,
            ends,
            Some(
                match open {
                    Some(start) => start,
                    None => upto as u32,
                },
            ),
        ),
{
    let m = RunsModel { span: upto as u32, starts, ends };
    let after = RunsModel { span: next as u32, starts, ends };
    let start = match open {
        Some(start) => start,
        None => upto as u32,
    };
    lemma_close(m, next as u32, None);
    assert(after == closed_runs(m, next as u32, None));
    assert forall|i: int| 0 <= i < next implies !(#[trigger] bits[i]) == (after.is_missing(i) || start
        <= i) by {
        if i < upto {
            assert(!bits[i] == (m.is_missing(i) || (open matches Some(start) && start <= i)));
        }
    }
}

/// Set bits close the open run.
pub(crate) proof fn lemma_scan_set(
    bits: Seq<bool>,
    upto: int,
    next: int,
    starts: Seq<u32>,
    ends: Seq<u32>,
    open: Option<u32>,
)
    requires
        scanned(bits, upto, starts, ends, open),
        upto < next <= bits.len(),
        forall|i: int| upto <= i < next ==> #[trigger] bits[i],
    ensures
        match open {
            Some(start) => scanned(bits, next, starts.push(start), ends.push(upto as u32), None),
            None => scanned(bits, next, starts, ends, None),
        },
{
    let m = RunsModel { span: upto as u32, starts, ends };
    let after = closed_runs(m, next as u32, open);
    lemma_close(m, next as u32, open);
    assert forall|i: int| 0 <= i < next implies !(#[trigger] bits[i]) == after.is_missing(i) by {
        if i < upto {
            assert(!bits[i] == (m.is_missing(i) || (open matches Some(start) && start <= i)));
        } else {
            assert(bits[i]);
            assert(!m.is_missing(i));
        }
    }
}

/// The runs with an open one, if any, closed at the end of the span, and then put in a longer span.
pub(crate) open spec fn closed_runs(m: RunsModel, span: u32, open: Option<u32>) -> RunsModel {
    match open {
        Some(start) => RunsModel { span, starts: m.starts.push(start), ends: m.ends.push(m.span) },
        None => RunsModel { span, starts: m.starts, ends: m.ends },
    }
}

/// Closing a run at the end of what was scanned.
pub(crate) proof fn lemma_close(m: RunsModel, span: u32, open: Option<u32>)
    requires
        m.valid(),
        m.span <= span,
        open matches Some(start) ==> start < m.span && (m.starts.len() > 0
            ==> m.ends[m.starts.len() - 1] < start),
    ensures
        closed_runs(m, span, open).valid(),
        forall|i: int| #[trigger]
            closed_runs(m, span, open).is_missing(i) <==> (m.is_missing(i) || (open matches Some(
                start,
            ) && start <= i < m.span)),
        forall|i: int| #[trigger] m.is_missing(i) ==> i < m.span,
{
    let n = m.starts.len();
    let after = closed_runs(m, span, open);
    assert forall|k: int| 0 <= k < after.starts.len() implies #[trigger] after.starts[k]
        < after.ends[k] <= after.span by {
        if k < n {
            assert(m.starts[k] < m.ends[k] <= m.span);
        }
    }
    assert forall|j: int, k: int| 0 <= j < k < after.starts.len() implies #[trigger] after.ends[j]
        < #[trigger] after.starts[k] by {
        if k < n {
            assert(m.ends[j] < m.starts[k]);
        } else if j < n - 1 {
            assert(m.ends[j] < m.starts[n - 1]);
            assert(m.starts[n - 1] < m.ends[n - 1]);
        }
    }
    assert forall|i: int| #[trigger] after.is_missing(i) <==> (m.is_missing(i) || (open matches Some(
        start,
    ) && start <= i < m.span)) by {
        if m.is_missing(i) {
            let k = choose|k: int|
                #![trigger m.starts[k]]
                0 <= k < n && m.starts[k] <= i < m.ends[k];
            assert(after.starts[k] <= i < after.ends[k]);
        }
        if let Some(start) = open {
            if start <= i < m.span {
                assert(after.starts[n as int] <= i < after.ends[n as int]);
            }
        }
        if after.is_missing(i) {
            let k = choose|k: int|
                #![trigger after.starts[k]]
                0 <= k < after.starts.len() && after.starts[k] <= i < after.ends[k];
            if k < n {
                assert(m.starts[k] <= i < m.ends[k]);
            }
        }
    }
}

/// The bits of a byte that are past the bitmap read as set.
pub(crate) open spec fn filled(byte: u8, valid_bits: usize) -> u8 {
    byte | (if valid_bits < 8 {
        255u8 << valid_bits
    } else {
        0u8
    })
}

pub(crate) proof fn lemma_filled(byte: u8, valid_bits: usize, i: usize)
    requires
        i < valid_bits <= 8,
    ensures
        filled(byte, valid_bits) == 255 ==> bit_of(byte, i as int),
        filled(byte, valid_bits) == 0 ==> !bit_of(byte, i as int) && valid_bits == 8,
        bit_of(byte, i as int) <==> (filled(byte, valid_bits) >> (i as u8)) & 1u8 != 0,
{
    let b = byte;
    let v = valid_bits as u8;
    let j = i as u8;
    if valid_bits < 8 {
        let f = b | (255u8 << v);
        assert(255u8 << valid_bits == 255u8 << v);
        assert(f == 255 ==> (b >> j) & 1u8 == 1u8) by (bit_vector)
            requires
                f == b | (255u8 << v),
                j < v < 8,
        ;
        assert(f != 0) by (bit_vector)
            requires
                f == b | (255u8 << v),
                v < 8,
        ;
        assert(((b >> j) & 1u8 == 1u8) == ((f >> j) & 1u8 != 0u8)) by (bit_vector)
            requires
                f == b | (255u8 << v),
                j < v < 8,
        ;
    } else {
        let f = b | 0u8;
        assert(f == 255 ==> (b >> j) & 1u8 == 1u8) by (bit_vector)
            requires
                f == b | 0u8,
                j < 8,
        ;
        assert(f == 0 ==> (b >> j) & 1u8 == 0u8) by (bit_vector)
            requires
                f == b | 0u8,
        ;
        assert(((b >> j) & 1u8 == 1u8) == ((f >> j) & 1u8 != 0u8)) by (bit_vector)
            requires
                f == b | 0u8,
        ;
    }
}

} // verus!
