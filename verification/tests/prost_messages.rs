//! The messages as `prost` itself reads and writes them, held against those of the library.

use bytes::{Buf, BufMut, Bytes};
use prost::encoding::{self, DecodeContext, WireType};
use prost::{DecodeError, Message};
use rowids::bitmap::Bitmap;
use rowids::encoded_array::EncodedU64Array;
use rowids::error::{Corruption, Error};
use rowids::pb;
use rowids::runs::HoleRuns;
use rowids::segment::{RowIdSequence, U64Segment};
use rowids::serde::{read_row_ids, write_row_ids};

fn at<T>(
    result: Result<T, DecodeError>,
    message: &'static str,
    field: &'static str,
) -> Result<T, DecodeError> {
    result.map_err(|mut error| {
        error.push(message, field);
        error
    })
}

#[derive(Debug, Default, Clone, PartialEq)]
struct Offsets16 {
    base: u64,
    offsets: Vec<u8>,
}

#[derive(Debug, Default, Clone, PartialEq)]
struct Offsets32 {
    base: u64,
    offsets: Vec<u8>,
}

#[derive(Debug, Default, Clone, PartialEq)]
struct Values64 {
    values: Vec<u8>,
}

#[derive(Debug, Clone, PartialEq)]
enum ArrayOneof {
    U16(Offsets16),
    U32(Offsets32),
    U64(Values64),
}

#[derive(Debug, Default, Clone, PartialEq)]
struct Array {
    array: Option<ArrayOneof>,
}

#[derive(Debug, Default, Clone, PartialEq)]
struct Range {
    start: u64,
    end: u64,
}

#[derive(Debug, Default, Clone, PartialEq)]
struct Holes {
    start: u64,
    end: u64,
    holes: Option<Array>,
}

#[derive(Debug, Default, Clone, PartialEq)]
struct Bits {
    start: u64,
    end: u64,
    bitmap: Bytes,
}

#[derive(Debug, Default, Clone, PartialEq)]
struct Runs {
    start: u64,
    end: u64,
    hole_starts: Option<Array>,
    hole_ends: Option<Array>,
}

#[derive(Debug, Clone, PartialEq)]
enum SegmentOneof {
    Range(Range),
    Holes(Holes),
    Bits(Bits),
    Sorted(Array),
    Array(Array),
    Runs(Runs),
}

#[derive(Debug, Default, Clone, PartialEq)]
struct Segment {
    segment: Option<SegmentOneof>,
}

#[derive(Debug, Default, Clone, PartialEq)]
struct Sequence {
    segments: Vec<Segment>,
}

fn put_number(tag: u32, value: u64, buf: &mut impl BufMut) {
    if value != 0 {
        encoding::uint64::encode(tag, &value, buf);
    }
}

fn put_bytes(tag: u32, value: &Vec<u8>, buf: &mut impl BufMut) {
    if !value.is_empty() {
        encoding::bytes::encode(tag, value, buf);
    }
}

fn number_len(tag: u32, value: u64) -> usize {
    if value == 0 {
        0
    } else {
        encoding::uint64::encoded_len(tag, &value)
    }
}

fn bytes_len(tag: u32, value: &Vec<u8>) -> usize {
    if value.is_empty() {
        0
    } else {
        encoding::bytes::encoded_len(tag, value)
    }
}

fn array_len(tag: u32, value: &Option<Array>) -> usize {
    value
        .as_ref()
        .map_or(0, |array| encoding::message::encoded_len(tag, array))
}

impl Message for Offsets16 {
    fn encode_raw(&self, buf: &mut impl BufMut) {
        put_number(1, self.base, buf);
        put_bytes(2, &self.offsets, buf);
    }

    fn merge_field(
        &mut self,
        tag: u32,
        wire: WireType,
        buf: &mut impl Buf,
        ctx: DecodeContext,
    ) -> Result<(), DecodeError> {
        match tag {
            1 => at(
                encoding::uint64::merge(wire, &mut self.base, buf, ctx),
                "U16Array",
                "base",
            ),
            2 => at(
                encoding::bytes::merge(wire, &mut self.offsets, buf, ctx),
                "U16Array",
                "offsets",
            ),
            _ => encoding::skip_field(wire, tag, buf, ctx),
        }
    }

    fn encoded_len(&self) -> usize {
        number_len(1, self.base) + bytes_len(2, &self.offsets)
    }

    fn clear(&mut self) {
        *self = Self::default();
    }
}

impl Message for Offsets32 {
    fn encode_raw(&self, buf: &mut impl BufMut) {
        put_number(1, self.base, buf);
        put_bytes(2, &self.offsets, buf);
    }

    fn merge_field(
        &mut self,
        tag: u32,
        wire: WireType,
        buf: &mut impl Buf,
        ctx: DecodeContext,
    ) -> Result<(), DecodeError> {
        match tag {
            1 => at(
                encoding::uint64::merge(wire, &mut self.base, buf, ctx),
                "U32Array",
                "base",
            ),
            2 => at(
                encoding::bytes::merge(wire, &mut self.offsets, buf, ctx),
                "U32Array",
                "offsets",
            ),
            _ => encoding::skip_field(wire, tag, buf, ctx),
        }
    }

    fn encoded_len(&self) -> usize {
        number_len(1, self.base) + bytes_len(2, &self.offsets)
    }

    fn clear(&mut self) {
        *self = Self::default();
    }
}

impl Message for Values64 {
    fn encode_raw(&self, buf: &mut impl BufMut) {
        put_bytes(2, &self.values, buf);
    }

    fn merge_field(
        &mut self,
        tag: u32,
        wire: WireType,
        buf: &mut impl Buf,
        ctx: DecodeContext,
    ) -> Result<(), DecodeError> {
        match tag {
            2 => at(
                encoding::bytes::merge(wire, &mut self.values, buf, ctx),
                "U64Array",
                "values",
            ),
            _ => encoding::skip_field(wire, tag, buf, ctx),
        }
    }

    fn encoded_len(&self) -> usize {
        bytes_len(2, &self.values)
    }

    fn clear(&mut self) {
        *self = Self::default();
    }
}

impl ArrayOneof {
    fn merge(
        field: &mut Option<ArrayOneof>,
        tag: u32,
        wire: WireType,
        buf: &mut impl Buf,
        ctx: DecodeContext,
    ) -> Result<(), DecodeError> {
        match tag {
            1 => {
                if let Some(ArrayOneof::U16(value)) = field {
                    encoding::message::merge(wire, value, buf, ctx)
                } else {
                    let mut owned = Default::default();
                    encoding::message::merge(wire, &mut owned, buf, ctx)
                        .map(|_| *field = Some(ArrayOneof::U16(owned)))
                }
            }
            2 => {
                if let Some(ArrayOneof::U32(value)) = field {
                    encoding::message::merge(wire, value, buf, ctx)
                } else {
                    let mut owned = Default::default();
                    encoding::message::merge(wire, &mut owned, buf, ctx)
                        .map(|_| *field = Some(ArrayOneof::U32(owned)))
                }
            }
            3 => {
                if let Some(ArrayOneof::U64(value)) = field {
                    encoding::message::merge(wire, value, buf, ctx)
                } else {
                    let mut owned = Default::default();
                    encoding::message::merge(wire, &mut owned, buf, ctx)
                        .map(|_| *field = Some(ArrayOneof::U64(owned)))
                }
            }
            _ => unreachable!(),
        }
    }
}

impl Message for Array {
    fn encode_raw(&self, buf: &mut impl BufMut) {
        match &self.array {
            Some(ArrayOneof::U16(value)) => encoding::message::encode(1, value, buf),
            Some(ArrayOneof::U32(value)) => encoding::message::encode(2, value, buf),
            Some(ArrayOneof::U64(value)) => encoding::message::encode(3, value, buf),
            None => {}
        }
    }

    fn merge_field(
        &mut self,
        tag: u32,
        wire: WireType,
        buf: &mut impl Buf,
        ctx: DecodeContext,
    ) -> Result<(), DecodeError> {
        match tag {
            1 | 2 | 3 => at(
                ArrayOneof::merge(&mut self.array, tag, wire, buf, ctx),
                "EncodedU64Array",
                "array",
            ),
            _ => encoding::skip_field(wire, tag, buf, ctx),
        }
    }

    fn encoded_len(&self) -> usize {
        match &self.array {
            Some(ArrayOneof::U16(value)) => encoding::message::encoded_len(1, value),
            Some(ArrayOneof::U32(value)) => encoding::message::encoded_len(2, value),
            Some(ArrayOneof::U64(value)) => encoding::message::encoded_len(3, value),
            None => 0,
        }
    }

    fn clear(&mut self) {
        *self = Self::default();
    }
}

impl Message for Range {
    fn encode_raw(&self, buf: &mut impl BufMut) {
        put_number(1, self.start, buf);
        put_number(2, self.end, buf);
    }

    fn merge_field(
        &mut self,
        tag: u32,
        wire: WireType,
        buf: &mut impl Buf,
        ctx: DecodeContext,
    ) -> Result<(), DecodeError> {
        match tag {
            1 => at(
                encoding::uint64::merge(wire, &mut self.start, buf, ctx),
                "Range",
                "start",
            ),
            2 => at(
                encoding::uint64::merge(wire, &mut self.end, buf, ctx),
                "Range",
                "end",
            ),
            _ => encoding::skip_field(wire, tag, buf, ctx),
        }
    }

    fn encoded_len(&self) -> usize {
        number_len(1, self.start) + number_len(2, self.end)
    }

    fn clear(&mut self) {
        *self = Self::default();
    }
}

impl Message for Holes {
    fn encode_raw(&self, buf: &mut impl BufMut) {
        put_number(1, self.start, buf);
        put_number(2, self.end, buf);
        if let Some(holes) = &self.holes {
            encoding::message::encode(3, holes, buf);
        }
    }

    fn merge_field(
        &mut self,
        tag: u32,
        wire: WireType,
        buf: &mut impl Buf,
        ctx: DecodeContext,
    ) -> Result<(), DecodeError> {
        let name = "RangeWithHoles";
        match tag {
            1 => at(
                encoding::uint64::merge(wire, &mut self.start, buf, ctx),
                name,
                "start",
            ),
            2 => at(
                encoding::uint64::merge(wire, &mut self.end, buf, ctx),
                name,
                "end",
            ),
            3 => at(
                encoding::message::merge(
                    wire,
                    self.holes.get_or_insert_with(Default::default),
                    buf,
                    ctx,
                ),
                name,
                "holes",
            ),
            _ => encoding::skip_field(wire, tag, buf, ctx),
        }
    }

    fn encoded_len(&self) -> usize {
        number_len(1, self.start) + number_len(2, self.end) + array_len(3, &self.holes)
    }

    fn clear(&mut self) {
        *self = Self::default();
    }
}

impl Message for Bits {
    fn encode_raw(&self, buf: &mut impl BufMut) {
        put_number(1, self.start, buf);
        put_number(2, self.end, buf);
        if !self.bitmap.is_empty() {
            encoding::bytes::encode(3, &self.bitmap, buf);
        }
    }

    fn merge_field(
        &mut self,
        tag: u32,
        wire: WireType,
        buf: &mut impl Buf,
        ctx: DecodeContext,
    ) -> Result<(), DecodeError> {
        let name = "RangeWithBitmap";
        match tag {
            1 => at(
                encoding::uint64::merge(wire, &mut self.start, buf, ctx),
                name,
                "start",
            ),
            2 => at(
                encoding::uint64::merge(wire, &mut self.end, buf, ctx),
                name,
                "end",
            ),
            3 => at(
                encoding::bytes::merge(wire, &mut self.bitmap, buf, ctx),
                name,
                "bitmap",
            ),
            _ => encoding::skip_field(wire, tag, buf, ctx),
        }
    }

    fn encoded_len(&self) -> usize {
        number_len(1, self.start) + number_len(2, self.end) + bytes_len(3, &self.bitmap.to_vec())
    }

    fn clear(&mut self) {
        *self = Self::default();
    }
}

impl Message for Runs {
    fn encode_raw(&self, buf: &mut impl BufMut) {
        put_number(1, self.start, buf);
        put_number(2, self.end, buf);
        if let Some(array) = &self.hole_starts {
            encoding::message::encode(3, array, buf);
        }
        if let Some(array) = &self.hole_ends {
            encoding::message::encode(4, array, buf);
        }
    }

    fn merge_field(
        &mut self,
        tag: u32,
        wire: WireType,
        buf: &mut impl Buf,
        ctx: DecodeContext,
    ) -> Result<(), DecodeError> {
        let name = "RangeWithRuns";
        match tag {
            1 => at(
                encoding::uint64::merge(wire, &mut self.start, buf, ctx),
                name,
                "start",
            ),
            2 => at(
                encoding::uint64::merge(wire, &mut self.end, buf, ctx),
                name,
                "end",
            ),
            3 => at(
                encoding::message::merge(
                    wire,
                    self.hole_starts.get_or_insert_with(Default::default),
                    buf,
                    ctx,
                ),
                name,
                "hole_starts",
            ),
            4 => at(
                encoding::message::merge(
                    wire,
                    self.hole_ends.get_or_insert_with(Default::default),
                    buf,
                    ctx,
                ),
                name,
                "hole_ends",
            ),
            _ => encoding::skip_field(wire, tag, buf, ctx),
        }
    }

    fn encoded_len(&self) -> usize {
        number_len(1, self.start)
            + number_len(2, self.end)
            + array_len(3, &self.hole_starts)
            + array_len(4, &self.hole_ends)
    }

    fn clear(&mut self) {
        *self = Self::default();
    }
}

impl SegmentOneof {
    fn merge(
        field: &mut Option<SegmentOneof>,
        tag: u32,
        wire: WireType,
        buf: &mut impl Buf,
        ctx: DecodeContext,
    ) -> Result<(), DecodeError> {
        match tag {
            1 => {
                if let Some(SegmentOneof::Range(value)) = field {
                    encoding::message::merge(wire, value, buf, ctx)
                } else {
                    let mut owned = Default::default();
                    encoding::message::merge(wire, &mut owned, buf, ctx)
                        .map(|_| *field = Some(SegmentOneof::Range(owned)))
                }
            }
            2 => {
                if let Some(SegmentOneof::Holes(value)) = field {
                    encoding::message::merge(wire, value, buf, ctx)
                } else {
                    let mut owned = Default::default();
                    encoding::message::merge(wire, &mut owned, buf, ctx)
                        .map(|_| *field = Some(SegmentOneof::Holes(owned)))
                }
            }
            3 => {
                if let Some(SegmentOneof::Bits(value)) = field {
                    encoding::message::merge(wire, value, buf, ctx)
                } else {
                    let mut owned = Default::default();
                    encoding::message::merge(wire, &mut owned, buf, ctx)
                        .map(|_| *field = Some(SegmentOneof::Bits(owned)))
                }
            }
            4 => {
                if let Some(SegmentOneof::Sorted(value)) = field {
                    encoding::message::merge(wire, value, buf, ctx)
                } else {
                    let mut owned = Default::default();
                    encoding::message::merge(wire, &mut owned, buf, ctx)
                        .map(|_| *field = Some(SegmentOneof::Sorted(owned)))
                }
            }
            5 => {
                if let Some(SegmentOneof::Array(value)) = field {
                    encoding::message::merge(wire, value, buf, ctx)
                } else {
                    let mut owned = Default::default();
                    encoding::message::merge(wire, &mut owned, buf, ctx)
                        .map(|_| *field = Some(SegmentOneof::Array(owned)))
                }
            }
            6 => {
                if let Some(SegmentOneof::Runs(value)) = field {
                    encoding::message::merge(wire, value, buf, ctx)
                } else {
                    let mut owned = Default::default();
                    encoding::message::merge(wire, &mut owned, buf, ctx)
                        .map(|_| *field = Some(SegmentOneof::Runs(owned)))
                }
            }
            _ => unreachable!(),
        }
    }
}

impl Message for Segment {
    fn encode_raw(&self, buf: &mut impl BufMut) {
        match &self.segment {
            Some(SegmentOneof::Range(value)) => encoding::message::encode(1, value, buf),
            Some(SegmentOneof::Holes(value)) => encoding::message::encode(2, value, buf),
            Some(SegmentOneof::Bits(value)) => encoding::message::encode(3, value, buf),
            Some(SegmentOneof::Sorted(value)) => encoding::message::encode(4, value, buf),
            Some(SegmentOneof::Array(value)) => encoding::message::encode(5, value, buf),
            Some(SegmentOneof::Runs(value)) => encoding::message::encode(6, value, buf),
            None => {}
        }
    }

    fn merge_field(
        &mut self,
        tag: u32,
        wire: WireType,
        buf: &mut impl Buf,
        ctx: DecodeContext,
    ) -> Result<(), DecodeError> {
        match tag {
            1 | 2 | 3 | 4 | 5 | 6 => at(
                SegmentOneof::merge(&mut self.segment, tag, wire, buf, ctx),
                "U64Segment",
                "segment",
            ),
            _ => encoding::skip_field(wire, tag, buf, ctx),
        }
    }

    fn encoded_len(&self) -> usize {
        match &self.segment {
            Some(SegmentOneof::Range(value)) => encoding::message::encoded_len(1, value),
            Some(SegmentOneof::Holes(value)) => encoding::message::encoded_len(2, value),
            Some(SegmentOneof::Bits(value)) => encoding::message::encoded_len(3, value),
            Some(SegmentOneof::Sorted(value)) => encoding::message::encoded_len(4, value),
            Some(SegmentOneof::Array(value)) => encoding::message::encoded_len(5, value),
            Some(SegmentOneof::Runs(value)) => encoding::message::encoded_len(6, value),
            None => 0,
        }
    }

    fn clear(&mut self) {
        *self = Self::default();
    }
}

impl Message for Sequence {
    fn encode_raw(&self, buf: &mut impl BufMut) {
        for segment in &self.segments {
            encoding::message::encode(1, segment, buf);
        }
    }

    fn merge_field(
        &mut self,
        tag: u32,
        wire: WireType,
        buf: &mut impl Buf,
        ctx: DecodeContext,
    ) -> Result<(), DecodeError> {
        match tag {
            1 => at(
                encoding::message::merge_repeated(wire, &mut self.segments, buf, ctx),
                "RowIdSequence",
                "segments",
            ),
            _ => encoding::skip_field(wire, tag, buf, ctx),
        }
    }

    fn encoded_len(&self) -> usize {
        encoding::message::encoded_len_repeated(1, &self.segments)
    }

    fn clear(&mut self) {
        *self = Self::default();
    }
}

fn same_array(array: &Array) -> pb::EncodedU64Array {
    pb::EncodedU64Array {
        array: array.array.clone().map(|array| match array {
            ArrayOneof::U16(a) => {
                pb::encoded_u64_array::Array::U16Array(pb::encoded_u64_array::U16Array {
                    base: a.base,
                    offsets: a.offsets,
                })
            }
            ArrayOneof::U32(a) => {
                pb::encoded_u64_array::Array::U32Array(pb::encoded_u64_array::U32Array {
                    base: a.base,
                    offsets: a.offsets,
                })
            }
            ArrayOneof::U64(a) => {
                pb::encoded_u64_array::Array::U64Array(pb::encoded_u64_array::U64Array {
                    values: a.values,
                })
            }
        }),
    }
}

fn same_segment(segment: &Segment) -> pb::U64Segment {
    pb::U64Segment {
        segment: segment.segment.clone().map(|segment| match segment {
            SegmentOneof::Range(r) => pb::u64_segment::Segment::Range(pb::u64_segment::Range {
                start: r.start,
                end: r.end,
            }),
            SegmentOneof::Holes(r) => {
                pb::u64_segment::Segment::RangeWithHoles(pb::u64_segment::RangeWithHoles {
                    start: r.start,
                    end: r.end,
                    holes: r.holes.as_ref().map(same_array),
                })
            }
            SegmentOneof::Bits(r) => {
                pb::u64_segment::Segment::RangeWithBitmap(pb::u64_segment::RangeWithBitmap {
                    start: r.start,
                    end: r.end,
                    bitmap: r.bitmap,
                })
            }
            SegmentOneof::Sorted(a) => pb::u64_segment::Segment::SortedArray(same_array(&a)),
            SegmentOneof::Array(a) => pb::u64_segment::Segment::Array(same_array(&a)),
            SegmentOneof::Runs(r) => {
                pb::u64_segment::Segment::RangeWithRuns(pb::u64_segment::RangeWithRuns {
                    start: r.start,
                    end: r.end,
                    hole_starts: r.hole_starts.as_ref().map(same_array),
                    hole_ends: r.hole_ends.as_ref().map(same_array),
                })
            }
        }),
    }
}

/// Both decoders accept the bytes as the same message, or refuse them in the same words.
fn agree(bytes: &[u8]) -> bool {
    let buffer = Bytes::from(bytes.to_vec());
    let ours = pb::RowIdSequence::decode(buffer.clone());
    match Sequence::decode(buffer.clone()) {
        Ok(message) => {
            let segments: Vec<pb::U64Segment> = message.segments.iter().map(same_segment).collect();
            let expected = pb::RowIdSequence { segments };
            assert_eq!(expected.encode_to_vec(), message.encode_to_vec());
            assert_eq!(ours.unwrap(), expected, "{bytes:?}");
            true
        }
        Err(error) => {
            assert_eq!(ours.unwrap_err().describe(), error.to_string(), "{bytes:?}");
            assert_eq!(
                read_row_ids(buffer).unwrap_err(),
                Error::CorruptFile {
                    name: "row ID metadata",
                    reason: Corruption::Undecodable {
                        detail: error.to_string()
                    }
                }
            );
            false
        }
    }
}

fn example() -> Vec<u8> {
    write_row_ids(&RowIdSequence(vec![
        U64Segment::Range(1..300),
        U64Segment::RangeWithHoles {
            range: 100..200,
            holes: EncodedU64Array::U64(vec![104, 150]),
        },
        U64Segment::RangeWithBitmap {
            range: 200..210,
            bitmap: Bitmap::new_full_except(10, &[3]),
        },
        U64Segment::SortedArray(EncodedU64Array::U16 {
            base: 200,
            offsets: vec![1, 2],
        }),
        U64Segment::Array(EncodedU64Array::U32 {
            base: 7,
            offsets: vec![3, 1],
        }),
        U64Segment::RangeWithRuns {
            range: 100..150,
            runs: HoleRuns::try_new(50, vec![3, 20], vec![10, 45]).unwrap(),
        },
    ]))
}

#[test]
fn every_cut_is_read_alike() {
    let bytes = example();
    for start in 0..bytes.len() {
        for end in start..=bytes.len() {
            agree(&bytes[start..end]);
        }
    }
    assert!(agree(&bytes));
}

#[test]
fn every_changed_byte_is_read_alike() {
    let bytes = example();
    let (mut accepted, mut refused) = (0, 0);
    for i in 0..bytes.len() {
        for value in 0..=255 {
            let mut changed = bytes.clone();
            changed[i] = value;
            if agree(&changed) {
                accepted += 1;
            } else {
                refused += 1;
            }
        }
    }
    assert!(accepted > 1000 && refused > 1000);
}

#[test]
fn changes_in_several_bytes_are_read_alike() {
    let bytes = example();
    let mut state: u64 = 0x9e37_79b9_7f4a_7c15;
    let mut next = |below: usize| {
        state ^= state << 13;
        state ^= state >> 7;
        state ^= state << 17;
        (state % below as u64) as usize
    };
    for _ in 0..20_000 {
        let mut changed = bytes.clone();
        for _ in 0..1 + next(4) {
            let i = next(changed.len());
            match next(4) {
                0 => changed[i] = next(256) as u8,
                1 => changed.insert(i, [0x0b, 0x0c, 0x3b, 0x3c, 0x0a, 0x80][next(6)]),
                2 => {
                    changed.remove(i);
                }
                _ => changed[i] = changed[i].wrapping_add(1),
            }
        }
        agree(&changed);
    }
}

#[test]
fn deep_groups_are_read_alike() {
    let nested = |tag: u8, payload: Vec<u8>| {
        let mut bytes = vec![tag * 8 + 2];
        encoding::encode_varint(payload.len() as u64, &mut bytes);
        bytes.extend(payload);
        bytes
    };
    for depth in [1, 2, 95, 96, 97, 98, 99, 100, 101, 102] {
        for inner in [&[][..], &[0x08, 1], &[0x0e], &[0x80]] {
            for end in [0x3c, 0x44] {
                let mut group = vec![0x3b; depth];
                group.extend_from_slice(inner);
                group.extend(vec![end; depth]);
                agree(&group);
                agree(&nested(1, group.clone()));
                for tag in 1..=6 {
                    let segment = nested(tag, group.clone());
                    agree(&nested(1, segment));
                    let segment = nested(tag, nested(3, group.clone()));
                    agree(&nested(1, segment));
                    let segment = nested(tag, nested(3, nested(2, group.clone())));
                    agree(&nested(1, segment));
                }
            }
        }
    }
}
