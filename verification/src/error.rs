//! What can be wrong with stored row ID metadata, and how each fault reads.

pub mod laws;

use vstd::prelude::*;
use vstd::string::*;

verus! {

/// The file that a fault in this metadata is reported against.
pub const ROW_ID_METADATA: &'static str = "row ID metadata";

/// A segment encoding that spans a range of values.
#[derive(Debug, Clone, Copy, PartialEq, Eq, Structural)]
pub enum RangeKind {
    Range,
    RangeWithHoles,
    RangeWithRuns,
    RangeWithBitmap,
}

/// The width of the elements of a packed array.
#[derive(Debug, Clone, Copy, PartialEq, Eq, Structural)]
pub enum ArrayWidth {
    U16,
    U32,
    U64,
}

/// One of the two offset arrays of a run-length encoded range.
#[derive(Debug, Clone, Copy, PartialEq, Eq, Structural)]
pub enum RunBound {
    Starts,
    Ends,
}

/// A fault found in row ID metadata.
#[allow(inconsistent_fields)]
#[derive(Debug, PartialEq, Eq)]
pub enum Corruption {
    /// The start of a range lies beyond its end.
    RangeReversed { kind: RangeKind, start: u64, end: u64 },
    /// A range has more values than a `usize` can count.
    RangeTooLong { kind: RangeKind, len: u64, start: u64, end: u64 },
    /// A packed array ends in the middle of an element.
    ArrayMisaligned { width: ArrayWidth, byte_len: usize },
    /// The largest value of a packed array does not fit in 64 bits.
    ArrayOverflow { width: ArrayWidth, base: u64, max_offset: u64 },
    /// An encoded array does not say how it is encoded.
    ArrayTypeMissing,
    /// A run bound does not fit in 32 bits.
    RunOffsetTooWide { bound: RunBound, offset: u64 },
    /// One of the run bound arrays is absent.
    RunBoundMissing { bound: RunBound },
    /// The range that the runs live in is too long for 32 bit offsets.
    RunSpanTooWide { span: usize, start: u64, end: u64 },
    /// There are not as many run ends as run starts.
    RunCountMismatch { starts: usize, ends: usize },
    /// A run does not end after its start.
    RunEmpty { run: usize, start: u32, end: u32 },
    /// A run ends beyond the range.
    RunBeyondSpan { run: usize, start: u32, end: u32, span: u32 },
    /// A run does not leave a gap after the run before it.
    RunsTouch { run: usize, start: u32, previous_end: u32 },
    /// A range with holes has no array of holes.
    HolesMissing,
    /// The holes are not in strictly increasing order.
    HolesNotIncreasing { index: usize, previous: u64, next: u64 },
    /// A hole lies outside of the range.
    HoleOutside { hole: u64, start: u64, end: u64 },
    /// A bitmap does not have one bit for each value of the range.
    BitmapLength { actual: usize, expected: usize, start: u64, end: u64, len: usize },
    /// A bitmap has bits set past the last value of the range.
    BitmapPadding { start: u64, end: u64, len: usize, last_byte: u8, mask: u8 },
    /// The values of a sorted array are not in order.
    NotSorted { index: usize, previous: u64, next: u64 },
    /// A segment does not say how it is encoded.
    SegmentTypeMissing,
    /// A sequence has more values than a `u64` can count.
    SequenceTooLong { segments: usize },
    /// The bytes are not an encoded sequence; `detail` is what the wire decoder says of them.
    Undecodable { detail: String },
}

/// The error of the functions that read row IDs.
#[derive(Debug, PartialEq, Eq)]
pub enum Error {
    /// The file `name` holds something that no writer produces.
    CorruptFile { name: &'static str, reason: Corruption },
}

/// The error that reports `reason` against the row ID metadata.
pub open spec fn corrupt(reason: Corruption) -> Error {
    Error::CorruptFile { name: ROW_ID_METADATA, reason }
}

/// Reports `reason` against the row ID metadata.
pub(crate) fn corrupt_row_id_metadata(reason: Corruption) -> (error: Error)
    ensures
        error == corrupt(reason),
{
    Error::CorruptFile { name: ROW_ID_METADATA, reason }
}

/// The character for the digit `d`, below sixteen.
pub open spec fn digit_char(d: nat) -> char {
    if d < 10 {
        (48 + d) as char
    } else {
        (87 + d) as char
    }
}

/// `n` in decimal.
pub open spec fn decimal(n: nat) -> Seq<char>
    decreases n,
{
    if n < 10 {
        seq![digit_char(n)]
    } else {
        decimal(n / 10).push(digit_char(n % 10))
    }
}

/// `b` as two hexadecimal digits after `0x`.
pub open spec fn hexadecimal(b: u8) -> Seq<char> {
    "0x"@ + seq![digit_char((b / 16) as nat)] + seq![digit_char((b % 16) as nat)]
}

/// The digit `d` as a string.
fn digit(d: u8) -> (s: &'static str)
    requires
        d < 16,
    ensures
        s@ == seq![digit_char(d as nat)],
{
    proof {
        reveal_strlit("0");
        reveal_strlit("1");
        reveal_strlit("2");
        reveal_strlit("3");
        reveal_strlit("4");
        reveal_strlit("5");
        reveal_strlit("6");
        reveal_strlit("7");
        reveal_strlit("8");
        reveal_strlit("9");
        reveal_strlit("a");
        reveal_strlit("b");
        reveal_strlit("c");
        reveal_strlit("d");
        reveal_strlit("e");
        reveal_strlit("f");
    }
    match d {
        0 => "0",
        1 => "1",
        2 => "2",
        3 => "3",
        4 => "4",
        5 => "5",
        6 => "6",
        7 => "7",
        8 => "8",
        9 => "9",
        10 => "a",
        11 => "b",
        12 => "c",
        13 => "d",
        14 => "e",
        _ => "f",
    }
}

/// Appends `n` in decimal.
fn append_decimal(out: &mut String, n: u128)
    ensures
        final(out)@ == old(out)@ + decimal(n as nat),
    decreases n,
{
    if n >= 10 {
        append_decimal(out, n / 10);
    }
    out.append(digit((n % 10) as u8));
}

/// Appends `b` in hexadecimal.
fn append_hexadecimal(out: &mut String, b: u8)
    ensures
        final(out)@ == old(out)@ + hexadecimal(b),
{
    out.append("0x");
    out.append(digit(b / 16));
    out.append(digit(b % 16));
}

impl RangeKind {
    /// The name of the encoding.
    pub open spec fn text(self) -> Seq<char> {
        match self {
            RangeKind::Range => "Range"@,
            RangeKind::RangeWithHoles => "RangeWithHoles"@,
            RangeKind::RangeWithRuns => "RangeWithRuns"@,
            RangeKind::RangeWithBitmap => "RangeWithBitmap"@,
        }
    }

    /// The name of the encoding.
    pub fn name(self) -> (name: &'static str)
        ensures
            name@ == self.text(),
    {
        match self {
            RangeKind::Range => "Range",
            RangeKind::RangeWithHoles => "RangeWithHoles",
            RangeKind::RangeWithRuns => "RangeWithRuns",
            RangeKind::RangeWithBitmap => "RangeWithBitmap",
        }
    }
}

impl ArrayWidth {
    /// The bytes that an element takes.
    pub open spec fn bytes(self) -> nat {
        match self {
            ArrayWidth::U16 => 2,
            ArrayWidth::U32 => 4,
            ArrayWidth::U64 => 8,
        }
    }

    /// The bytes that an element takes.
    pub fn byte_width(self) -> (width: usize)
        ensures
            width == self.bytes(),
    {
        match self {
            ArrayWidth::U16 => 2,
            ArrayWidth::U32 => 4,
            ArrayWidth::U64 => 8,
        }
    }

    /// The type of an element.
    pub open spec fn element_text(self) -> Seq<char> {
        match self {
            ArrayWidth::U16 => "u16"@,
            ArrayWidth::U32 => "u32"@,
            ArrayWidth::U64 => "u64"@,
        }
    }

    /// The type of an element.
    pub fn element_name(self) -> (name: &'static str)
        ensures
            name@ == self.element_text(),
    {
        match self {
            ArrayWidth::U16 => "u16",
            ArrayWidth::U32 => "u32",
            ArrayWidth::U64 => "u64",
        }
    }

    /// The name of the array.
    pub open spec fn array_text(self) -> Seq<char> {
        match self {
            ArrayWidth::U16 => "U16Array"@,
            ArrayWidth::U32 => "U32Array"@,
            ArrayWidth::U64 => "U64Array"@,
        }
    }

    /// The name of the array.
    pub fn array_name(self) -> (name: &'static str)
        ensures
            name@ == self.array_text(),
    {
        match self {
            ArrayWidth::U16 => "U16Array",
            ArrayWidth::U32 => "U32Array",
            ArrayWidth::U64 => "U64Array",
        }
    }
}

impl RunBound {
    /// The name of the array that holds these bounds.
    pub open spec fn text(self) -> Seq<char> {
        match self {
            RunBound::Starts => "hole_starts"@,
            RunBound::Ends => "hole_ends"@,
        }
    }

    /// The name of the array that holds these bounds.
    pub fn name(self) -> (name: &'static str)
        ensures
            name@ == self.text(),
    {
        match self {
            RunBound::Starts => "hole_starts",
            RunBound::Ends => "hole_ends",
        }
    }
}

impl Corruption {
    /// What is wrong, in words.
    pub open spec fn text(self) -> Seq<char> {
        match self {
            Corruption::RangeReversed { kind, start, end } => {
                kind.text()
                    + " range start "@
                    + decimal(start as nat)
                    + " exceeds end "@
                    + decimal(end as nat)
            },
            Corruption::RangeTooLong { kind, len, start, end } => {
                kind.text()
                    + " range length "@
                    + decimal(len as nat)
                    + " for start "@
                    + decimal(start as nat)
                    + " and end "@
                    + decimal(end as nat)
                    + " exceeds usize::MAX"@
            },
            Corruption::ArrayMisaligned { width, byte_len } => {
                "encoded "@
                    + width.element_text()
                    + " array byte length "@
                    + decimal(byte_len as nat)
                    + " is not a multiple of element width "@
                    + decimal(width.bytes())
            },
            Corruption::ArrayOverflow { width, base, max_offset } => {
                width.array_text()
                    + " base "@
                    + decimal(base as nat)
                    + " plus maximum offset "@
                    + decimal(max_offset as nat)
                    + " overflows u64"@
            },
            Corruption::ArrayTypeMissing => {
                "missing encoded row ID array type"@
            },
            Corruption::RunOffsetTooWide { bound, offset } => {
                "RangeWithRuns "@
                    + bound.text()
                    + " offset "@
                    + decimal(offset as nat)
                    + " exceeds u32::MAX"@
            },
            Corruption::RunBoundMissing { bound } => {
                "RangeWithRuns is missing its "@ + bound.text() + " array"@
            },
            Corruption::RunSpanTooWide { span, start, end } => {
                "RangeWithRuns span "@
                    + decimal(span as nat)
                    + " for start "@
                    + decimal(start as nat)
                    + " and end "@
                    + decimal(end as nat)
                    + " exceeds u32::MAX"@
            },
            Corruption::RunCountMismatch { starts, ends } => {
                "RangeWithRuns has "@
                    + decimal(starts as nat)
                    + " run starts but "@
                    + decimal(ends as nat)
                    + " run ends"@
            },
            Corruption::RunEmpty { run, start, end } => {
                "RangeWithRuns run "@
                    + decimal(run as nat)
                    + " is empty or reversed: "@
                    + decimal(start as nat)
                    + ".."@
                    + decimal(end as nat)
            },
            Corruption::RunBeyondSpan { run, start, end, span } => {
                "RangeWithRuns run "@
                    + decimal(run as nat)
                    + " ("@
                    + decimal(start as nat)
                    + ".."@
                    + decimal(end as nat)
                    + ") ends beyond the span "@
                    + decimal(span as nat)
            },
            Corruption::RunsTouch { run, start, previous_end } => {
                "RangeWithRuns run "@
                    + decimal(run as nat)
                    + " starts at "@
                    + decimal(start as nat)
                    + ", but the previous run ends at "@
                    + decimal(previous_end as nat)
                    + ": runs must be sorted, disjoint and non-adjacent"@
            },
            Corruption::HolesMissing => {
                "RangeWithHoles is missing its holes array"@
            },
            Corruption::HolesNotIncreasing { index, previous, next } => {
                "RangeWithHoles values are not strictly increasing at indices "@
                    + decimal(index as nat)
                    + " and "@
                    + decimal((index + 1) as nat)
                    + ": "@
                    + decimal(previous as nat)
                    + " is not less than "@
                    + decimal(next as nat)
            },
            Corruption::HoleOutside { hole, start, end } => {
                "RangeWithHoles hole "@
                    + decimal(hole as nat)
                    + " is outside the range "@
                    + decimal(start as nat)
                    + ".."@
                    + decimal(end as nat)
            },
            Corruption::BitmapLength { actual, expected, start, end, len } => {
                "RangeWithBitmap byte length "@
                    + decimal(actual as nat)
                    + " does not match expected "@
                    + decimal(expected as nat)
                    + " for range start "@
                    + decimal(start as nat)
                    + ", end "@
                    + decimal(end as nat)
                    + ", and length "@
                    + decimal(len as nat)
            },
            Corruption::BitmapPadding { start, end, len, last_byte, mask } => {
                "RangeWithBitmap padding bits must be zero for range start "@
                    + decimal(start as nat)
                    + ", end "@
                    + decimal(end as nat)
                    + ", and length "@
                    + decimal(len as nat)
                    + ": last byte "@
                    + hexadecimal(last_byte)
                    + " has padding mask "@
                    + hexadecimal(mask)
                    + " set"@
            },
            Corruption::NotSorted { index, previous, next } => {
                "SortedArray values are not sorted at indices "@
                    + decimal(index as nat)
                    + " and "@
                    + decimal((index + 1) as nat)
                    + ": "@
                    + decimal(previous as nat)
                    + " exceeds "@
                    + decimal(next as nat)
            },
            Corruption::SegmentTypeMissing => {
                "missing row ID segment type"@
            },
            Corruption::SequenceTooLong { segments } => {
                "row ID sequence of "@
                    + decimal(segments as nat)
                    + " segments has a total length exceeding u64::MAX"@
            },
            Corruption::Undecodable { detail } => {
                "failed to decode row ID sequence: "@ + detail@
            },
        }
    }

    /// What is wrong, in words.
    pub fn message(&self) -> (out: String)
        ensures
            out@ == self.text(),
    {
        let mut out = String::new();
        match self {
            Corruption::RangeReversed { kind, start, end } => {
                out.append(kind.name());
                out.append(" range start ");
                append_decimal(&mut out, *start as u128);
                out.append(" exceeds end ");
                append_decimal(&mut out, *end as u128);
            },
            Corruption::RangeTooLong { kind, len, start, end } => {
                out.append(kind.name());
                out.append(" range length ");
                append_decimal(&mut out, *len as u128);
                out.append(" for start ");
                append_decimal(&mut out, *start as u128);
                out.append(" and end ");
                append_decimal(&mut out, *end as u128);
                out.append(" exceeds usize::MAX");
            },
            Corruption::ArrayMisaligned { width, byte_len } => {
                out.append("encoded ");
                out.append(width.element_name());
                out.append(" array byte length ");
                append_decimal(&mut out, *byte_len as u128);
                out.append(" is not a multiple of element width ");
                append_decimal(&mut out, width.byte_width() as u128);
            },
            Corruption::ArrayOverflow { width, base, max_offset } => {
                out.append(width.array_name());
                out.append(" base ");
                append_decimal(&mut out, *base as u128);
                out.append(" plus maximum offset ");
                append_decimal(&mut out, *max_offset as u128);
                out.append(" overflows u64");
            },
            Corruption::ArrayTypeMissing => {
                out.append("missing encoded row ID array type");
            },
            Corruption::RunOffsetTooWide { bound, offset } => {
                out.append("RangeWithRuns ");
                out.append(bound.name());
                out.append(" offset ");
                append_decimal(&mut out, *offset as u128);
                out.append(" exceeds u32::MAX");
            },
            Corruption::RunBoundMissing { bound } => {
                out.append("RangeWithRuns is missing its ");
                out.append(bound.name());
                out.append(" array");
            },
            Corruption::RunSpanTooWide { span, start, end } => {
                out.append("RangeWithRuns span ");
                append_decimal(&mut out, *span as u128);
                out.append(" for start ");
                append_decimal(&mut out, *start as u128);
                out.append(" and end ");
                append_decimal(&mut out, *end as u128);
                out.append(" exceeds u32::MAX");
            },
            Corruption::RunCountMismatch { starts, ends } => {
                out.append("RangeWithRuns has ");
                append_decimal(&mut out, *starts as u128);
                out.append(" run starts but ");
                append_decimal(&mut out, *ends as u128);
                out.append(" run ends");
            },
            Corruption::RunEmpty { run, start, end } => {
                out.append("RangeWithRuns run ");
                append_decimal(&mut out, *run as u128);
                out.append(" is empty or reversed: ");
                append_decimal(&mut out, *start as u128);
                out.append("..");
                append_decimal(&mut out, *end as u128);
            },
            Corruption::RunBeyondSpan { run, start, end, span } => {
                out.append("RangeWithRuns run ");
                append_decimal(&mut out, *run as u128);
                out.append(" (");
                append_decimal(&mut out, *start as u128);
                out.append("..");
                append_decimal(&mut out, *end as u128);
                out.append(") ends beyond the span ");
                append_decimal(&mut out, *span as u128);
            },
            Corruption::RunsTouch { run, start, previous_end } => {
                out.append("RangeWithRuns run ");
                append_decimal(&mut out, *run as u128);
                out.append(" starts at ");
                append_decimal(&mut out, *start as u128);
                out.append(", but the previous run ends at ");
                append_decimal(&mut out, *previous_end as u128);
                out.append(": runs must be sorted, disjoint and non-adjacent");
            },
            Corruption::HolesMissing => {
                out.append("RangeWithHoles is missing its holes array");
            },
            Corruption::HolesNotIncreasing { index, previous, next } => {
                out.append("RangeWithHoles values are not strictly increasing at indices ");
                append_decimal(&mut out, *index as u128);
                out.append(" and ");
                append_decimal(&mut out, *index as u128 + 1);
                out.append(": ");
                append_decimal(&mut out, *previous as u128);
                out.append(" is not less than ");
                append_decimal(&mut out, *next as u128);
            },
            Corruption::HoleOutside { hole, start, end } => {
                out.append("RangeWithHoles hole ");
                append_decimal(&mut out, *hole as u128);
                out.append(" is outside the range ");
                append_decimal(&mut out, *start as u128);
                out.append("..");
                append_decimal(&mut out, *end as u128);
            },
            Corruption::BitmapLength { actual, expected, start, end, len } => {
                out.append("RangeWithBitmap byte length ");
                append_decimal(&mut out, *actual as u128);
                out.append(" does not match expected ");
                append_decimal(&mut out, *expected as u128);
                out.append(" for range start ");
                append_decimal(&mut out, *start as u128);
                out.append(", end ");
                append_decimal(&mut out, *end as u128);
                out.append(", and length ");
                append_decimal(&mut out, *len as u128);
            },
            Corruption::BitmapPadding { start, end, len, last_byte, mask } => {
                out.append("RangeWithBitmap padding bits must be zero for range start ");
                append_decimal(&mut out, *start as u128);
                out.append(", end ");
                append_decimal(&mut out, *end as u128);
                out.append(", and length ");
                append_decimal(&mut out, *len as u128);
                out.append(": last byte ");
                append_hexadecimal(&mut out, *last_byte);
                out.append(" has padding mask ");
                append_hexadecimal(&mut out, *mask);
                out.append(" set");
            },
            Corruption::NotSorted { index, previous, next } => {
                out.append("SortedArray values are not sorted at indices ");
                append_decimal(&mut out, *index as u128);
                out.append(" and ");
                append_decimal(&mut out, *index as u128 + 1);
                out.append(": ");
                append_decimal(&mut out, *previous as u128);
                out.append(" exceeds ");
                append_decimal(&mut out, *next as u128);
            },
            Corruption::SegmentTypeMissing => {
                out.append("missing row ID segment type");
            },
            Corruption::SequenceTooLong { segments } => {
                out.append("row ID sequence of ");
                append_decimal(&mut out, *segments as u128);
                out.append(" segments has a total length exceeding u64::MAX");
            },
            Corruption::Undecodable { detail } => {
                out.append("failed to decode row ID sequence: ");
                out.append(detail.as_str());
            },
        }
        out
    }
}

impl Error {
    /// The file at fault, and what is wrong with it.
    pub open spec fn text(self) -> Seq<char> {
        match self {
            Error::CorruptFile { name, reason } => "corrupt file "@ + name@ + ": "@ + reason.text(),
        }
    }

    /// The file at fault, and what is wrong with it.
    pub fn to_string(&self) -> (out: String)
        ensures
            out@ == self.text(),
    {
        match self {
            Error::CorruptFile { name, reason } => {
                let mut out = String::from_str("corrupt file ");
                out.append(name);
                out.append(": ");
                out.append(reason.message().as_str());
                out
            },
        }
    }
}

} // verus!
