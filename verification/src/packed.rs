//! Arrays of integers packed into bytes, each with its lowest byte first.

use vstd::prelude::*;

verus! {

/// The integer that `bytes` hold, lowest byte first.
pub open spec fn le_value(bytes: Seq<u8>) -> nat
    decreases bytes.len(),
{
    if bytes.len() == 0 {
        0
    } else {
        bytes[0] as nat + 256 * le_value(bytes.skip(1))
    }
}

/// The lowest `width` bytes of `value`, lowest first.
pub open spec fn le_bytes(value: nat, width: nat) -> Seq<u8>
    decreases width,
{
    if width == 0 {
        Seq::empty()
    } else {
        seq![(value % 256) as u8] + le_bytes(value / 256, (width - 1) as nat)
    }
}

/// Element `i` of an array of elements that take `width` bytes each.
pub open spec fn element(bytes: Seq<u8>, width: nat, i: int) -> nat {
    le_value(bytes.subrange(i * width, i * width + width))
}

/// The 16 bit elements of a packed array.
pub open spec fn u16_elements(bytes: Seq<u8>) -> Seq<u16> {
    Seq::new(bytes.len() / 2, |i: int| element(bytes, 2, i) as u16)
}

/// The 32 bit elements of a packed array.
pub open spec fn u32_elements(bytes: Seq<u8>) -> Seq<u32> {
    Seq::new(bytes.len() / 4, |i: int| element(bytes, 4, i) as u32)
}

/// The 64 bit elements of a packed array.
pub open spec fn u64_elements(bytes: Seq<u8>) -> Seq<u64> {
    Seq::new(bytes.len() / 8, |i: int| element(bytes, 8, i) as u64)
}

/// `values` packed into `width` bytes each.
pub open spec fn pack_values(values: Seq<nat>, width: nat) -> Seq<u8>
    decreases values.len(),
{
    if values.len() == 0 {
        Seq::empty()
    } else {
        pack_values(values.drop_last(), width) + le_bytes(values.last(), width)
    }
}

/// 16 bit values, packed.
pub open spec fn pack_u16(values: Seq<u16>) -> Seq<u8> {
    pack_values(values.map_values(|v: u16| v as nat), 2)
}

/// 32 bit values, packed.
pub open spec fn pack_u32(values: Seq<u32>) -> Seq<u8> {
    pack_values(values.map_values(|v: u32| v as nat), 4)
}

/// 64 bit values, packed.
pub open spec fn pack_u64(values: Seq<u64>) -> Seq<u8> {
    pack_values(values.map_values(|v: u64| v as nat), 8)
}

spec fn pow256(n: nat) -> nat
    decreases n,
{
    if n == 0 {
        1
    } else {
        256 * pow256((n - 1) as nat)
    }
}

proof fn lemma_pow256()
    ensures
        pow256(0) == 1,
        pow256(1) == 0x100,
        pow256(2) == 0x1_0000,
        pow256(3) == 0x100_0000,
        pow256(4) == 0x1_0000_0000,
        pow256(5) == 0x100_0000_0000,
        pow256(6) == 0x1_0000_0000_0000,
        pow256(7) == 0x100_0000_0000_0000,
        pow256(8) == 0x1_0000_0000_0000_0000,
{
    reveal_with_fuel(pow256, 9);
}

proof fn lemma_le_value_bound(bytes: Seq<u8>)
    ensures
        le_value(bytes) < pow256(bytes.len()),
    decreases bytes.len(),
{
    if bytes.len() > 0 {
        lemma_le_value_bound(bytes.skip(1));
    }
}

proof fn lemma_le_bytes(value: nat, width: nat)
    requires
        value < pow256(width),
    ensures
        le_bytes(value, width).len() == width,
        le_value(le_bytes(value, width)) == value,
    decreases width,
{
    if width > 0 {
        let rest = le_bytes(value / 256, (width - 1) as nat);
        lemma_le_bytes(value / 256, (width - 1) as nat);
        assert(le_bytes(value, width).skip(1) =~= rest);
    }
}

proof fn lemma_pack_values(values: Seq<nat>, width: nat)
    requires
        forall|i: int| 0 <= i < values.len() ==> #[trigger] values[i] < pow256(width),
    ensures
        pack_values(values, width).len() == values.len() * width,
        forall|i: int|
            0 <= i < values.len() ==> #[trigger] element(pack_values(values, width), width, i)
                == values[i],
    decreases values.len(),
{
    if values.len() > 0 {
        let (rest, last) = (values.drop_last(), values.last());
        assert(last == values[values.len() - 1]);
        assert forall|i: int| 0 <= i < rest.len() implies #[trigger] rest[i] < pow256(width) by {
            assert(values[i] < pow256(width));
        }
        lemma_pack_values(rest, width);
        lemma_le_bytes(last, width);
        let (front, back) = (pack_values(rest, width), le_bytes(last, width));
        let all = pack_values(values, width);
        assert(values.len() * width == rest.len() * width + width) by (nonlinear_arith)
            requires
                values.len() == rest.len() + 1,
        ;
        assert forall|i: int| 0 <= i < values.len() implies #[trigger] element(all, width, i)
            == values[i] by {
            if i < rest.len() {
                assert(0 <= i * width && i * width + width <= rest.len() * width)
                    by (nonlinear_arith)
                    requires
                        0 <= i < rest.len(),
                        width >= 0,
                ;
                assert(all.subrange(i * width, i * width + width) =~= front.subrange(
                    i * width,
                    i * width + width,
                ));
                assert(element(front, width, i) == rest[i]);
            } else {
                assert(all.subrange(i * width, i * width + width) =~= back);
            }
        }
    }
}

/// Unpacking what was packed gives the values back.
pub proof fn law_pack_u16(values: Seq<u16>)
    ensures
        pack_u16(values).len() == 2 * values.len(),
        u16_elements(pack_u16(values)) == values,
{
    lemma_pow256();
    let plain = values.map_values(|v: u16| v as nat);
    lemma_pack_values(plain, 2);
    assert forall|i: int| 0 <= i < values.len() implies u16_elements(pack_u16(values))[i]
        == values[i] by {
        assert(element(pack_values(plain, 2), 2, i) == plain[i]);
    }
    assert(u16_elements(pack_u16(values)) =~= values);
}

/// Unpacking what was packed gives the values back.
pub proof fn law_pack_u32(values: Seq<u32>)
    ensures
        pack_u32(values).len() == 4 * values.len(),
        u32_elements(pack_u32(values)) == values,
{
    lemma_pow256();
    let plain = values.map_values(|v: u32| v as nat);
    lemma_pack_values(plain, 4);
    assert forall|i: int| 0 <= i < values.len() implies u32_elements(pack_u32(values))[i]
        == values[i] by {
        assert(element(pack_values(plain, 4), 4, i) == plain[i]);
    }
    assert(u32_elements(pack_u32(values)) =~= values);
}

/// Unpacking what was packed gives the values back.
pub proof fn law_pack_u64(values: Seq<u64>)
    ensures
        pack_u64(values).len() == 8 * values.len(),
        u64_elements(pack_u64(values)) == values,
{
    lemma_pow256();
    let plain = values.map_values(|v: u64| v as nat);
    lemma_pack_values(plain, 8);
    assert forall|i: int| 0 <= i < values.len() implies u64_elements(pack_u64(values))[i]
        == values[i] by {
        assert(element(pack_values(plain, 8), 8, i) == plain[i]);
    }
    assert(u64_elements(pack_u64(values)) =~= values);
}

proof fn lemma_element(bytes: Seq<u8>, width: nat, i: int)
    requires
        0 < width <= 8,
        0 <= i < bytes.len() / width,
    ensures
        0 <= i * width && i * width + width <= bytes.len(),
        element(bytes, width, i) == le_value(bytes.subrange(i * width, i * width + width)),
        element(bytes, width, i) < pow256(width),
{
    assert(0 <= i * width && i * width + width <= bytes.len()) by (nonlinear_arith)
        requires
            0 < width,
            0 <= i < bytes.len() / width,
    ;
    lemma_le_value_bound(bytes.subrange(i * width, i * width + width));
}

/// What the lowest byte adds, and what the others do.
proof fn lemma_le_step(bytes: Seq<u8>, at: int, end: int)
    requires
        0 <= at < end <= bytes.len(),
    ensures
        le_value(bytes.subrange(at, end)) == bytes[at] + 256 * le_value(
            bytes.subrange(at + 1, end),
        ),
        le_value(bytes.subrange(end, end)) == 0,
{
    assert(bytes.subrange(at, end).skip(1) =~= bytes.subrange(at + 1, end));
    assert(bytes.subrange(end, end) =~= Seq::empty());
}

/// A 16 bit element is made of two bytes, the lowest first, and the elements follow each other.
pub proof fn law_u16_elements(bytes: Seq<u8>)
    ensures
        u16_elements(bytes).len() == bytes.len() / 2,
        forall|i: int|
            0 <= i < bytes.len() / 2 ==> #[trigger] u16_elements(bytes)[i] == bytes[2 * i] + 0x100 * bytes[2 * i + 1],
{
    assert forall|i: int| 0 <= i < bytes.len() / 2 implies #[trigger] u16_elements(bytes)[i]
        == bytes[2 * i] + 0x100 * bytes[2 * i + 1] by {
        lemma_pow256();
        lemma_element(bytes, 2, i);
        assert(i * 2 == 2 * i);
        lemma_le_step(bytes, 2 * i, 2 * i + 2);
        lemma_le_step(bytes, 2 * i + 1, 2 * i + 2);
    }
}

/// A 32 bit element is made of four bytes, the lowest first, and the elements follow each other.
pub proof fn law_u32_elements(bytes: Seq<u8>)
    ensures
        u32_elements(bytes).len() == bytes.len() / 4,
        forall|i: int|
            0 <= i < bytes.len() / 4 ==> #[trigger] u32_elements(bytes)[i] == bytes[4 * i] + 0x100 * bytes[4 * i + 1] + 0x10000 * bytes[4 * i + 2] + 0x1000000 * bytes[4 * i + 3],
{
    assert forall|i: int| 0 <= i < bytes.len() / 4 implies #[trigger] u32_elements(bytes)[i]
        == bytes[4 * i] + 0x100 * bytes[4 * i + 1] + 0x10000 * bytes[4 * i + 2] + 0x1000000 * bytes[4 * i + 3] by {
        lemma_pow256();
        lemma_element(bytes, 4, i);
        assert(i * 4 == 4 * i);
        lemma_le_step(bytes, 4 * i, 4 * i + 4);
        lemma_le_step(bytes, 4 * i + 1, 4 * i + 4);
        lemma_le_step(bytes, 4 * i + 2, 4 * i + 4);
        lemma_le_step(bytes, 4 * i + 3, 4 * i + 4);
    }
}

/// A 64 bit element is made of eight bytes, the lowest first, and the elements follow each other.
pub proof fn law_u64_elements(bytes: Seq<u8>)
    ensures
        u64_elements(bytes).len() == bytes.len() / 8,
        forall|i: int|
            0 <= i < bytes.len() / 8 ==> #[trigger] u64_elements(bytes)[i] == bytes[8 * i] + 0x100 * bytes[8 * i + 1] + 0x10000 * bytes[8 * i + 2] + 0x1000000 * bytes[8 * i + 3] + 0x100000000 * bytes[8 * i + 4] + 0x10000000000 * bytes[8 * i + 5] + 0x1000000000000 * bytes[8 * i + 6] + 0x100000000000000 * bytes[8 * i + 7],
{
    assert forall|i: int| 0 <= i < bytes.len() / 8 implies #[trigger] u64_elements(bytes)[i]
        == bytes[8 * i] + 0x100 * bytes[8 * i + 1] + 0x10000 * bytes[8 * i + 2] + 0x1000000 * bytes[8 * i + 3] + 0x100000000 * bytes[8 * i + 4] + 0x10000000000 * bytes[8 * i + 5] + 0x1000000000000 * bytes[8 * i + 6] + 0x100000000000000 * bytes[8 * i + 7] by {
        lemma_pow256();
        lemma_element(bytes, 8, i);
        assert(i * 8 == 8 * i);
        lemma_le_step(bytes, 8 * i, 8 * i + 8);
        lemma_le_step(bytes, 8 * i + 1, 8 * i + 8);
        lemma_le_step(bytes, 8 * i + 2, 8 * i + 8);
        lemma_le_step(bytes, 8 * i + 3, 8 * i + 8);
        lemma_le_step(bytes, 8 * i + 4, 8 * i + 8);
        lemma_le_step(bytes, 8 * i + 5, 8 * i + 8);
        lemma_le_step(bytes, 8 * i + 6, 8 * i + 8);
        lemma_le_step(bytes, 8 * i + 7, 8 * i + 8);
    }
}

proof fn lemma_le_byte(value: nat, width: nat, k: int)
    requires
        0 <= k < width,
    ensures
        le_bytes(value, width).len() == width,
        le_bytes(value, width)[k] == value / pow256(k as nat) % 256,
    decreases width,
{
    if width > 1 {
        lemma_le_byte(value / 256, (width - 1) as nat, if k > 0 {
            k - 1
        } else {
            0
        });
    } else {
        assert(le_bytes(value / 256, 0).len() == 0);
    }
    if k > 0 {
        let part = pow256((k - 1) as nat);
        lemma_pow256_positive((k - 1) as nat);
        assert(value / 256 / part == value / (256 * part)) by {
            vstd::arithmetic::div_mod::lemma_div_denominator(value as int, 256, part as int);
        }
        assert(le_bytes(value, width)[k] == le_bytes(value / 256, (width - 1) as nat)[k - 1]);
    } else {
        assert(value / 1 == value);
    }
}

proof fn lemma_pow256_positive(n: nat)
    ensures
        pow256(n) > 0,
    decreases n,
{
    if n > 0 {
        lemma_pow256_positive((n - 1) as nat);
    }
}

proof fn lemma_pack_at(values: Seq<nat>, width: nat, i: int, k: int)
    requires
        0 <= i < values.len(),
        0 <= k < width,
    ensures
        pack_values(values, width).len() == values.len() * width,
        0 <= i * width + k < values.len() * width,
        pack_values(values, width)[i * width + k] == values[i] / pow256(k as nat) % 256,
    decreases values.len(),
{
    let (rest, last) = (values.drop_last(), values.last());
    lemma_le_byte(last, width, k);
    assert(values.len() * width == rest.len() * width + width) by (nonlinear_arith)
        requires
            values.len() == rest.len() + 1,
    ;
    assert(0 <= i * width && i * width + width <= values.len() * width) by (nonlinear_arith)
        requires
            0 <= i < values.len(),
            width > 0,
    ;
    let front = pack_values(rest, width);
    assert(pack_values(values, width) == front + le_bytes(last, width));
    if i < rest.len() {
        lemma_pack_at(rest, width, i, k);
        assert(rest[i] == values[i]);
    } else {
        if rest.len() > 0 {
            lemma_pack_at(rest, width, 0, k);
        } else {
            assert(rest.len() * width == 0) by (nonlinear_arith)
                requires
                    rest.len() == 0,
            ;
            assert(front.len() == 0);
        }
        assert(i * width == rest.len() * width) by (nonlinear_arith)
            requires
                i == rest.len(),
        ;
        assert(values[i] == last);
    }
}

/// Each 16 bit value is packed into its bytes, the lowest first, after those of the values before it.
pub proof fn law_pack_u16_bytes(values: Seq<u16>)
    ensures
        pack_u16(values).len() == 2 * values.len(),
        forall|i: int|
            #![trigger values[i]]
            0 <= i < values.len() ==> {
                &&& pack_u16(values)[2 * i] == values[i] % 256
                &&& pack_u16(values)[2 * i + 1] == values[i] / 0x100 % 256
            },
{
    law_pack_u16(values);
    let plain = values.map_values(|v: u16| v as nat);
    assert forall|i: int|
        #![trigger values[i]]
        0 <= i < values.len() implies {
            &&& pack_u16(values)[2 * i] == values[i] % 256
            &&& pack_u16(values)[2 * i + 1] == values[i] / 0x100 % 256
    } by {
        lemma_pow256();
        assert(i * 2 == 2 * i);
        assert(plain[i] == values[i]);
        assert(plain[i] / 1 == plain[i]);
        lemma_pack_at(plain, 2, i, 0);
        assert(pack_u16(values)[2 * i] == plain[i] / 0x1 % 256);
        lemma_pack_at(plain, 2, i, 1);
        assert(pack_u16(values)[2 * i + 1] == plain[i] / 0x100 % 256);
    }
}

/// Each 32 bit value is packed into its bytes, the lowest first, after those of the values before it.
pub proof fn law_pack_u32_bytes(values: Seq<u32>)
    ensures
        pack_u32(values).len() == 4 * values.len(),
        forall|i: int|
            #![trigger values[i]]
            0 <= i < values.len() ==> {
                &&& pack_u32(values)[4 * i] == values[i] % 256
                &&& pack_u32(values)[4 * i + 1] == values[i] / 0x100 % 256
                &&& pack_u32(values)[4 * i + 2] == values[i] / 0x10000 % 256
                &&& pack_u32(values)[4 * i + 3] == values[i] / 0x1000000 % 256
            },
{
    law_pack_u32(values);
    let plain = values.map_values(|v: u32| v as nat);
    assert forall|i: int|
        #![trigger values[i]]
        0 <= i < values.len() implies {
            &&& pack_u32(values)[4 * i] == values[i] % 256
            &&& pack_u32(values)[4 * i + 1] == values[i] / 0x100 % 256
            &&& pack_u32(values)[4 * i + 2] == values[i] / 0x10000 % 256
            &&& pack_u32(values)[4 * i + 3] == values[i] / 0x1000000 % 256
    } by {
        lemma_pow256();
        assert(i * 4 == 4 * i);
        assert(plain[i] == values[i]);
        assert(plain[i] / 1 == plain[i]);
        lemma_pack_at(plain, 4, i, 0);
        assert(pack_u32(values)[4 * i] == plain[i] / 0x1 % 256);
        lemma_pack_at(plain, 4, i, 1);
        assert(pack_u32(values)[4 * i + 1] == plain[i] / 0x100 % 256);
        lemma_pack_at(plain, 4, i, 2);
        assert(pack_u32(values)[4 * i + 2] == plain[i] / 0x10000 % 256);
        lemma_pack_at(plain, 4, i, 3);
        assert(pack_u32(values)[4 * i + 3] == plain[i] / 0x1000000 % 256);
    }
}

/// Each 64 bit value is packed into its bytes, the lowest first, after those of the values before it.
pub proof fn law_pack_u64_bytes(values: Seq<u64>)
    ensures
        pack_u64(values).len() == 8 * values.len(),
        forall|i: int|
            #![trigger values[i]]
            0 <= i < values.len() ==> {
                &&& pack_u64(values)[8 * i] == values[i] % 256
                &&& pack_u64(values)[8 * i + 1] == values[i] / 0x100 % 256
                &&& pack_u64(values)[8 * i + 2] == values[i] / 0x10000 % 256
                &&& pack_u64(values)[8 * i + 3] == values[i] / 0x1000000 % 256
                &&& pack_u64(values)[8 * i + 4] == values[i] / 0x100000000 % 256
                &&& pack_u64(values)[8 * i + 5] == values[i] / 0x10000000000 % 256
                &&& pack_u64(values)[8 * i + 6] == values[i] / 0x1000000000000 % 256
                &&& pack_u64(values)[8 * i + 7] == values[i] / 0x100000000000000 % 256
            },
{
    law_pack_u64(values);
    let plain = values.map_values(|v: u64| v as nat);
    assert forall|i: int|
        #![trigger values[i]]
        0 <= i < values.len() implies {
            &&& pack_u64(values)[8 * i] == values[i] % 256
            &&& pack_u64(values)[8 * i + 1] == values[i] / 0x100 % 256
            &&& pack_u64(values)[8 * i + 2] == values[i] / 0x10000 % 256
            &&& pack_u64(values)[8 * i + 3] == values[i] / 0x1000000 % 256
            &&& pack_u64(values)[8 * i + 4] == values[i] / 0x100000000 % 256
            &&& pack_u64(values)[8 * i + 5] == values[i] / 0x10000000000 % 256
            &&& pack_u64(values)[8 * i + 6] == values[i] / 0x1000000000000 % 256
            &&& pack_u64(values)[8 * i + 7] == values[i] / 0x100000000000000 % 256
    } by {
        lemma_pow256();
        assert(i * 8 == 8 * i);
        assert(plain[i] == values[i]);
        assert(plain[i] / 1 == plain[i]);
        lemma_pack_at(plain, 8, i, 0);
        assert(pack_u64(values)[8 * i] == plain[i] / 0x1 % 256);
        lemma_pack_at(plain, 8, i, 1);
        assert(pack_u64(values)[8 * i + 1] == plain[i] / 0x100 % 256);
        lemma_pack_at(plain, 8, i, 2);
        assert(pack_u64(values)[8 * i + 2] == plain[i] / 0x10000 % 256);
        lemma_pack_at(plain, 8, i, 3);
        assert(pack_u64(values)[8 * i + 3] == plain[i] / 0x1000000 % 256);
        lemma_pack_at(plain, 8, i, 4);
        assert(pack_u64(values)[8 * i + 4] == plain[i] / 0x100000000 % 256);
        lemma_pack_at(plain, 8, i, 5);
        assert(pack_u64(values)[8 * i + 5] == plain[i] / 0x10000000000 % 256);
        lemma_pack_at(plain, 8, i, 6);
        assert(pack_u64(values)[8 * i + 6] == plain[i] / 0x1000000000000 % 256);
        lemma_pack_at(plain, 8, i, 7);
        assert(pack_u64(values)[8 * i + 7] == plain[i] / 0x100000000000000 % 256);
    }
}

/// Reads element `i`.
fn read_element(bytes: &[u8], width: usize, i: usize) -> (value: u64)
    requires
        0 < width <= 8,
        i < bytes@.len() / (width as nat),
    ensures
        value == element(bytes@, width as nat, i as int),
        value < pow256(width as nat),
{
    let total = bytes.len();
    proof {
        lemma_pow256();
        assert(0 <= i * width && i * width + width <= total) by (nonlinear_arith)
            requires
                0 < width,
                i < (total as nat) / (width as nat),
        ;
    }
    let first = i * width;
    let ghost all = bytes@.subrange(first as int, first + width);
    let mut value: u64 = 0;
    let mut left: usize = width;
    assert(all.skip(width as int) =~= Seq::empty());
    while left > 0
        invariant
            left <= width <= 8,
            first + width <= bytes@.len() == total,
            all == bytes@.subrange(first as int, first + width),
            value == le_value(all.skip(left as int)),
            value < pow256((width - left) as nat),
        decreases left,
    {
        proof {
            lemma_pow256();
            let tail = all.skip(left - 1);
            assert(tail.skip(1) =~= all.skip(left as int));
            assert(tail[0] == bytes@[first + left - 1]);
            lemma_le_value_bound(tail);
            assert(pow256((width - left) as nat) <= pow256(7));
        }
        left = left - 1;
        value = value * 256 + bytes[first + left] as u64;
    }
    assert(all.skip(0) =~= all);
    value
}

/// Unpacks 16 bit elements.
pub fn unpack_u16(bytes: &[u8]) -> (values: Vec<u16>)
    ensures
        values@ == u16_elements(bytes@),
        values@.len() == bytes@.len() / 2,
        forall|i: int|
            0 <= i < bytes@.len() / 2 ==> #[trigger] values@[i] == bytes@[2 * i] + 0x100 * bytes@[2 * i + 1],
{
    proof {
        law_u16_elements(bytes@);
    }
    let n = bytes.len() / 2;
    let mut values: Vec<u16> = Vec::with_capacity(n);
    let mut i: usize = 0;
    while i < n
        invariant
            i <= n == bytes@.len() / 2,
            values@ == u16_elements(bytes@).take(i as int),
        decreases n - i,
    {
        proof {
            lemma_pow256();
        }
        values.push(read_element(bytes, 2, i) as u16);
        i = i + 1;
        assert(values@ =~= u16_elements(bytes@).take(i as int));
    }
    assert(u16_elements(bytes@).take(n as int) =~= u16_elements(bytes@));
    values
}

/// Unpacks 32 bit elements.
pub fn unpack_u32(bytes: &[u8]) -> (values: Vec<u32>)
    ensures
        values@ == u32_elements(bytes@),
        values@.len() == bytes@.len() / 4,
        forall|i: int|
            0 <= i < bytes@.len() / 4 ==> #[trigger] values@[i] == bytes@[4 * i] + 0x100 * bytes@[4 * i + 1] + 0x10000 * bytes@[4 * i + 2] + 0x1000000 * bytes@[4 * i + 3],
{
    proof {
        law_u32_elements(bytes@);
    }
    let n = bytes.len() / 4;
    let mut values: Vec<u32> = Vec::with_capacity(n);
    let mut i: usize = 0;
    while i < n
        invariant
            i <= n == bytes@.len() / 4,
            values@ == u32_elements(bytes@).take(i as int),
        decreases n - i,
    {
        proof {
            lemma_pow256();
        }
        values.push(read_element(bytes, 4, i) as u32);
        i = i + 1;
        assert(values@ =~= u32_elements(bytes@).take(i as int));
    }
    assert(u32_elements(bytes@).take(n as int) =~= u32_elements(bytes@));
    values
}

/// Unpacks 64 bit elements.
pub fn unpack_u64(bytes: &[u8]) -> (values: Vec<u64>)
    ensures
        values@ == u64_elements(bytes@),
        values@.len() == bytes@.len() / 8,
        forall|i: int|
            0 <= i < bytes@.len() / 8 ==> #[trigger] values@[i] == bytes@[8 * i] + 0x100 * bytes@[8 * i + 1] + 0x10000 * bytes@[8 * i + 2] + 0x1000000 * bytes@[8 * i + 3] + 0x100000000 * bytes@[8 * i + 4] + 0x10000000000 * bytes@[8 * i + 5] + 0x1000000000000 * bytes@[8 * i + 6] + 0x100000000000000 * bytes@[8 * i + 7],
{
    proof {
        law_u64_elements(bytes@);
    }
    let n = bytes.len() / 8;
    let mut values: Vec<u64> = Vec::with_capacity(n);
    let mut i: usize = 0;
    while i < n
        invariant
            i <= n == bytes@.len() / 8,
            values@ == u64_elements(bytes@).take(i as int),
        decreases n - i,
    {
        values.push(read_element(bytes, 8, i));
        i = i + 1;
        assert(values@ =~= u64_elements(bytes@).take(i as int));
    }
    assert(u64_elements(bytes@).take(n as int) =~= u64_elements(bytes@));
    values
}

/// Appends the lowest `width` bytes of `value`.
fn append_le(out: &mut Vec<u8>, value: u64, width: usize)
    ensures
        final(out)@ == old(out)@ + le_bytes(value as nat, width as nat),
    decreases width,
{
    if width > 0 {
        out.push((value % 256) as u8);
        append_le(out, value / 256, width - 1);
        assert(out@ =~= old(out)@ + le_bytes(value as nat, width as nat));
    } else {
        assert(out@ =~= old(out)@ + le_bytes(value as nat, width as nat));
    }
}

/// Packs 16 bit values.
pub fn to_bytes_u16(values: &[u16]) -> (out: Vec<u8>)
    ensures
        out@ == pack_u16(values@),
        out@.len() == 2 * values@.len(),
        forall|i: int|
            #![trigger values@[i]]
            0 <= i < values@.len() ==> {
                &&& out@[2 * i] == values@[i] % 256
                &&& out@[2 * i + 1] == values@[i] / 0x100 % 256
            },
{
    proof {
        law_pack_u16_bytes(values@);
    }
    let mut out: Vec<u8> = Vec::new();
    let ghost plain = values@.map_values(|v: u16| v as nat);
    let mut i: usize = 0;
    while i < values.len()
        invariant
            i <= values@.len(),
            plain == values@.map_values(|v: u16| v as nat),
            out@ == pack_values(plain.take(i as int), 2),
        decreases values@.len() - i,
    {
        append_le(&mut out, values[i] as u64, 2);
        i = i + 1;
        assert(plain.take(i as int).drop_last() =~= plain.take(i - 1));
    }
    assert(plain.take(values@.len() as int) =~= plain);
    out
}

/// Packs 32 bit values.
pub fn to_bytes_u32(values: &[u32]) -> (out: Vec<u8>)
    ensures
        out@ == pack_u32(values@),
        out@.len() == 4 * values@.len(),
        forall|i: int|
            #![trigger values@[i]]
            0 <= i < values@.len() ==> {
                &&& out@[4 * i] == values@[i] % 256
                &&& out@[4 * i + 1] == values@[i] / 0x100 % 256
                &&& out@[4 * i + 2] == values@[i] / 0x10000 % 256
                &&& out@[4 * i + 3] == values@[i] / 0x1000000 % 256
            },
{
    proof {
        law_pack_u32_bytes(values@);
    }
    let mut out: Vec<u8> = Vec::new();
    let ghost plain = values@.map_values(|v: u32| v as nat);
    let mut i: usize = 0;
    while i < values.len()
        invariant
            i <= values@.len(),
            plain == values@.map_values(|v: u32| v as nat),
            out@ == pack_values(plain.take(i as int), 4),
        decreases values@.len() - i,
    {
        append_le(&mut out, values[i] as u64, 4);
        i = i + 1;
        assert(plain.take(i as int).drop_last() =~= plain.take(i - 1));
    }
    assert(plain.take(values@.len() as int) =~= plain);
    out
}

/// Packs 64 bit values.
pub fn to_bytes_u64(values: &[u64]) -> (out: Vec<u8>)
    ensures
        out@ == pack_u64(values@),
        out@.len() == 8 * values@.len(),
        forall|i: int|
            #![trigger values@[i]]
            0 <= i < values@.len() ==> {
                &&& out@[8 * i] == values@[i] % 256
                &&& out@[8 * i + 1] == values@[i] / 0x100 % 256
                &&& out@[8 * i + 2] == values@[i] / 0x10000 % 256
                &&& out@[8 * i + 3] == values@[i] / 0x1000000 % 256
                &&& out@[8 * i + 4] == values@[i] / 0x100000000 % 256
                &&& out@[8 * i + 5] == values@[i] / 0x10000000000 % 256
                &&& out@[8 * i + 6] == values@[i] / 0x1000000000000 % 256
                &&& out@[8 * i + 7] == values@[i] / 0x100000000000000 % 256
            },
{
    proof {
        law_pack_u64_bytes(values@);
    }
    let mut out: Vec<u8> = Vec::new();
    let ghost plain = values@.map_values(|v: u64| v as nat);
    let mut i: usize = 0;
    while i < values.len()
        invariant
            i <= values@.len(),
            plain == values@.map_values(|v: u64| v as nat),
            out@ == pack_values(plain.take(i as int), 8),
        decreases values@.len() - i,
    {
        append_le(&mut out, values[i], 8);
        i = i + 1;
        assert(plain.take(i as int).drop_last() =~= plain.take(i - 1));
    }
    assert(plain.take(values@.len() as int) =~= plain);
    out
}

} // verus!
