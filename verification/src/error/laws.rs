//! How numbers and faults read.

use super::{corrupt, decimal, hexadecimal, ArrayWidth, Corruption, Error, RangeKind, RunBound};
use vstd::prelude::*;

verus! {

/// A number reads as its decimal digits, the lowest last, and without a zero in front.
pub proof fn law_decimal(n: nat)
    ensures
        decimal(n).len() > 0,
        forall|i: int| 0 <= i < decimal(n).len() ==> '0' <= #[trigger] decimal(n)[i] <= '9',
        decimal(n).last() as int - '0' as int == n % 10,
        n >= 10 ==> decimal(n).drop_last() == decimal(n / 10),
        n < 10 ==> decimal(n).len() == 1,
        n > 0 ==> decimal(n)[0] != '0',
    decreases n,
{
    if n >= 10 {
        law_decimal(n / 10);
        assert(decimal(n).drop_last() =~= decimal(n / 10));
        assert forall|i: int| 0 <= i < decimal(n).len() implies '0' <= #[trigger] decimal(n)[i]
            <= '9' by {
            if i < decimal(n / 10).len() {
                assert(decimal(n)[i] == decimal(n / 10)[i]);
            }
        }
        assert(decimal(n)[0] == decimal(n / 10)[0]);
    }
}

/// Different numbers read differently.
pub proof fn law_decimal_injective(a: nat, b: nat)
    requires
        decimal(a) == decimal(b),
    ensures
        a == b,
    decreases a,
{
    law_decimal(a);
    law_decimal(b);
    if a >= 10 {
        law_decimal(a / 10);
        assert(decimal(a).len() > 1);
        assert(b >= 10);
        law_decimal_injective(a / 10, b / 10);
    } else if b >= 10 {
        law_decimal(b / 10);
    }
}

/// A byte reads as `0x` and two digits, the high one first, each from `0` to `9` or from `a` to
/// `f`.
pub proof fn law_hexadecimal(b: u8)
    ensures
        hexadecimal(b).len() == 4,
        hexadecimal(b)[0] == '0',
        hexadecimal(b)[1] == 'x',
        ({
            let value = |c: char|
                if c <= '9' {
                    c as int - '0' as int
                } else {
                    c as int - 'a' as int + 10
                };
            &&& value(hexadecimal(b)[2]) == b / 16
            &&& value(hexadecimal(b)[3]) == b % 16
        }),
        forall|i: int|
            2 <= i < 4 ==> ('0' <= #[trigger] hexadecimal(b)[i] <= '9' || 'a' <= hexadecimal(b)[i]
                <= 'f'),
{
    reveal_strlit("0x");
}

/// The names of the encodings.
pub proof fn law_names()
    ensures
        RangeKind::Range.text() == "Range"@,
        RangeKind::RangeWithHoles.text() == "RangeWithHoles"@,
        RangeKind::RangeWithRuns.text() == "RangeWithRuns"@,
        RangeKind::RangeWithBitmap.text() == "RangeWithBitmap"@,
        ArrayWidth::U16.element_text() == "u16"@,
        ArrayWidth::U32.element_text() == "u32"@,
        ArrayWidth::U64.element_text() == "u64"@,
        ArrayWidth::U16.array_text() == "U16Array"@,
        ArrayWidth::U32.array_text() == "U32Array"@,
        ArrayWidth::U64.array_text() == "U64Array"@,
        ArrayWidth::U16.bytes() == 2,
        ArrayWidth::U32.bytes() == 4,
        ArrayWidth::U64.bytes() == 8,
        RunBound::Starts.text() == "hole_starts"@,
        RunBound::Ends.text() == "hole_ends"@,
{
}

/// A fault of a range says which encoding it is in, and gives the bounds.
pub proof fn law_range_texts(reason: Corruption)
    ensures
        match reason {
            Corruption::RangeReversed { kind, start, end } => {
                reason.text() == kind.text() + " range start "@ + decimal(start as nat)
                    + " exceeds end "@ + decimal(end as nat)
            },
            Corruption::RangeTooLong { kind, len, start, end } => {
                reason.text() == kind.text() + " range length "@ + decimal(len as nat)
                    + " for start "@ + decimal(start as nat) + " and end "@ + decimal(end as nat)
                    + " exceeds usize::MAX"@
            },
            _ => true,
        },
{
}

/// A fault of an array gives the length, the base or the elements at fault.
pub proof fn law_array_texts(reason: Corruption)
    ensures
        match reason {
            Corruption::ArrayMisaligned { width, byte_len } => {
                reason.text() == "encoded "@ + width.element_text() + " array byte length "@
                    + decimal(byte_len as nat) + " is not a multiple of element width "@
                    + decimal(width.bytes())
            },
            Corruption::ArrayOverflow { width, base, max_offset } => {
                reason.text() == width.array_text() + " base "@ + decimal(base as nat)
                    + " plus maximum offset "@ + decimal(max_offset as nat) + " overflows u64"@
            },
            Corruption::ArrayTypeMissing => {
                reason.text() == "missing encoded row ID array type"@
            },
            Corruption::NotSorted { index, previous, next } => {
                reason.text() == "SortedArray values are not sorted at indices "@
                    + decimal(index as nat) + " and "@ + decimal((index + 1) as nat) + ": "@
                    + decimal(previous as nat) + " exceeds "@ + decimal(next as nat)
            },
            _ => true,
        },
{
}

/// A fault of runs gives the run, or the numbers, at fault.
pub proof fn law_run_texts(reason: Corruption)
    ensures
        match reason {
            Corruption::RunOffsetTooWide { bound, offset } => {
                reason.text() == "RangeWithRuns "@ + bound.text() + " offset "@
                    + decimal(offset as nat) + " exceeds u32::MAX"@
            },
            Corruption::RunBoundMissing { bound } => {
                reason.text() == "RangeWithRuns is missing its "@ + bound.text() + " array"@
            },
            Corruption::RunSpanTooWide { span, start, end } => {
                reason.text() == "RangeWithRuns span "@ + decimal(span as nat)
                    + " for start "@ + decimal(start as nat) + " and end "@ + decimal(end as nat)
                    + " exceeds u32::MAX"@
            },
            Corruption::RunCountMismatch { starts, ends } => {
                reason.text() == "RangeWithRuns has "@ + decimal(starts as nat)
                    + " run starts but "@ + decimal(ends as nat) + " run ends"@
            },
            Corruption::RunEmpty { run, start, end } => {
                reason.text() == "RangeWithRuns run "@ + decimal(run as nat)
                    + " is empty or reversed: "@ + decimal(start as nat) + ".."@
                    + decimal(end as nat)
            },
            Corruption::RunBeyondSpan { run, start, end, span } => {
                reason.text() == "RangeWithRuns run "@ + decimal(run as nat) + " ("@
                    + decimal(start as nat) + ".."@ + decimal(end as nat)
                    + ") ends beyond the span "@ + decimal(span as nat)
            },
            Corruption::RunsTouch { run, start, previous_end } => {
                reason.text() == "RangeWithRuns run "@ + decimal(run as nat) + " starts at "@
                    + decimal(start as nat) + ", but the previous run ends at "@
                    + decimal(previous_end as nat)
                    + ": runs must be sorted, disjoint and non-adjacent"@
            },
            _ => true,
        },
{
}

/// A fault of holes or of a bitmap gives what is at fault, and the range.
pub proof fn law_hole_texts(reason: Corruption)
    ensures
        match reason {
            Corruption::HolesMissing => {
                reason.text() == "RangeWithHoles is missing its holes array"@
            },
            Corruption::HolesNotIncreasing { index, previous, next } => {
                reason.text() == "RangeWithHoles values are not strictly increasing at indices "@
                    + decimal(index as nat) + " and "@ + decimal((index + 1) as nat) + ": "@
                    + decimal(previous as nat) + " is not less than "@ + decimal(next as nat)
            },
            Corruption::HoleOutside { hole, start, end } => {
                reason.text() == "RangeWithHoles hole "@ + decimal(hole as nat)
                    + " is outside the range "@ + decimal(start as nat) + ".."@
                    + decimal(end as nat)
            },
            Corruption::BitmapLength { actual, expected, start, end, len } => {
                reason.text() == "RangeWithBitmap byte length "@ + decimal(actual as nat)
                    + " does not match expected "@ + decimal(expected as nat)
                    + " for range start "@ + decimal(start as nat) + ", end "@
                    + decimal(end as nat) + ", and length "@ + decimal(len as nat)
            },
            Corruption::BitmapPadding { start, end, len, last_byte, mask } => {
                reason.text() == "RangeWithBitmap padding bits must be zero for range start "@
                    + decimal(start as nat) + ", end "@ + decimal(end as nat) + ", and length "@
                    + decimal(len as nat) + ": last byte "@ + hexadecimal(last_byte)
                    + " has padding mask "@ + hexadecimal(mask) + " set"@
            },
            _ => true,
        },
{
}

/// A fault of a whole segment or sequence says what is at fault.
pub proof fn law_sequence_texts(reason: Corruption)
    ensures
        match reason {
            Corruption::SegmentTypeMissing => {
                reason.text() == "missing row ID segment type"@
            },
            Corruption::SequenceTooLong { segments } => {
                reason.text() == "row ID sequence of "@ + decimal(segments as nat)
                    + " segments has a total length exceeding u64::MAX"@
            },
            Corruption::Undecodable { detail } => {
                reason.text() == "failed to decode row ID sequence: "@ + detail@
            },
            _ => true,
        },
{
}

/// An error names the file and then says what is wrong with it.
pub proof fn law_error_text(error: Error)
    ensures
        match error {
            Error::CorruptFile { name, reason } => error.text() == "corrupt file "@ + name@ + ": "@
                + reason.text(),
        },
{
}

/// What is wrong is reported as it is, and against the row ID metadata.
pub proof fn law_reported(reason: Corruption)
    ensures
        corrupt(reason) matches Error::CorruptFile { name, reason: r } && name@
            == "row ID metadata"@ && r == reason,
        corrupt(reason).text() == "corrupt file "@ + "row ID metadata"@ + ": "@ + reason.text(),
{
}

} // verus!
