//! A fixed-length set of bits, packed into bytes with the first bit lowest.

use crate::buffer;
use bytes::Bytes;
use vstd::prelude::*;

verus! {

/// Bit `i` of a byte, counted from the lowest.
pub open spec fn bit_of(byte: u8, i: int) -> bool {
    (byte >> (i as u8)) & 1u8 == 1u8
}

/// The number of bytes that `len` bits are packed into.
pub open spec fn packed_len(len: nat) -> nat {
    (len + 7) / 8
}

/// `bytes` hold `bits`, eight to a byte, and nothing after the last of them.
pub open spec fn packs(bytes: Seq<u8>, bits: Seq<bool>) -> bool {
    &&& bytes.len() == packed_len(bits.len())
    &&& forall|i: int|
        #![trigger bit_of(bytes[i / 8], i % 8)]
        0 <= i < 8 * bytes.len() ==> bit_of(bytes[i / 8], i % 8) == (i < bits.len() && bits[i])
}

/// The bits that are set among the first `len` of `bytes`.
pub open spec fn bits_of(bytes: Seq<u8>, len: nat) -> Seq<bool> {
    Seq::new(len, |i: int| bit_of(bytes[i / 8], i % 8))
}

/// How many of `bits` are set.
pub open spec fn count_set(bits: Seq<bool>) -> nat
    decreases bits.len(),
{
    if bits.len() == 0 {
        0
    } else {
        count_set(bits.drop_last()) + if bits.last() {
            1nat
        } else {
            0nat
        }
    }
}

/// Bits, each either set or clear.
#[derive(Debug, PartialEq, Eq)]
pub struct Bitmap {
    data: Bytes,
    len: usize,
}

impl View for Bitmap {
    type V = Seq<bool>;

    closed spec fn view(&self) -> Seq<bool> {
        bits_of(buffer::contents(self.data), self.len as nat)
    }
}

impl Bitmap {
    /// The bytes hold the bits and nothing else.
    #[verifier::type_invariant]
    closed spec fn inv(self) -> bool {
        packs(buffer::contents(self.data), self@)
    }

    /// Reads `len` bits from packed bytes.
    pub fn from_parts(data: Bytes, len: usize) -> (bitmap: Self)
        requires
            packs(buffer::contents(data), bits_of(buffer::contents(data), len as nat)),
        ensures
            bitmap@ == bits_of(buffer::contents(data), len as nat),
            packs(buffer::contents(data), bitmap@),
            bitmap@.len() == len,
            forall|i: int|
                0 <= i < len ==> #[trigger] bitmap@[i] == bit_of(
                    buffer::contents(data)[i / 8],
                    i % 8,
                ),
    {
        proof {
            law_bits_read(buffer::contents(data), len as nat);
        }
        Bitmap { data, len }
    }

    /// The number of bits.
    pub fn len(&self) -> (len: usize)
        ensures
            len == self@.len(),
    {
        self.len
    }

    /// The packed bytes.
    pub fn bytes(&self) -> (bytes: &[u8])
        ensures
            packs(bytes@, self@),
            self@.len() <= 8 * bytes@.len() < self@.len() + 8,
            forall|k: int, j: int|
                0 <= k < bytes@.len() && 0 <= j < 8 ==> (#[trigger] bit_of(bytes@[k], j) <==> 8 * k
                    + j < self@.len() && self@[8 * k + j]),
    {
        proof {
            use_type_invariant(self);
            law_bits_packed(buffer::contents(self.data), self@);
        }
        buffer::as_slice(&self.data)
    }

    /// The packed bytes, without copying them.
    pub fn into_bytes(self) -> (data: Bytes)
        ensures
            packs(buffer::contents(data), self@),
            self@.len() <= 8 * buffer::contents(data).len() < self@.len() + 8,
            forall|k: int, j: int|
                0 <= k < buffer::contents(data).len() && 0 <= j < 8 ==> (#[trigger] bit_of(
                    buffer::contents(data)[k],
                    j,
                ) <==> 8 * k
                    + j < self@.len() && self@[8 * k + j]),
    {
        proof {
            use_type_invariant(&self);
            law_bits_packed(buffer::contents(self.data), self@);
        }
        self.data
    }
}

/// The byte of `bits` that holds the bits from `8 * k` on.
pub open spec fn byte_of(bits: Seq<bool>, k: int) -> u8 {
    let at = |j: int|
        if 8 * k + j < bits.len() && bits[8 * k + j] {
            1u8
        } else {
            0u8
        };
    at(0) | (at(1) << 1u8) | (at(2) << 2u8) | (at(3) << 3u8) | (at(4) << 4u8) | (at(5) << 5u8) | (at(
        6,
    ) << 6u8) | (at(7) << 7u8)
}

/// The bytes that `bits` are packed into.
pub open spec fn pack(bits: Seq<bool>) -> Seq<u8> {
    Seq::new(packed_len(bits.len()), |k: int| byte_of(bits, k))
}

proof fn lemma_byte_of(bits: Seq<bool>, k: int, j: int)
    requires
        0 <= j < 8,
    ensures
        bit_of(byte_of(bits, k), j) == (8 * k + j < bits.len() && bits[8 * k + j]),
{
    let at = |j: int|
        if 8 * k + j < bits.len() && bits[8 * k + j] {
            1u8
        } else {
            0u8
        };
    let (a0, a1, a2, a3) = (at(0), at(1), at(2), at(3));
    let (a4, a5, a6, a7) = (at(4), at(5), at(6), at(7));
    let b = byte_of(bits, k);
    assert({
        &&& b & 1u8 == a0
        &&& (b >> 1u8) & 1u8 == a1
        &&& (b >> 2u8) & 1u8 == a2
        &&& (b >> 3u8) & 1u8 == a3
        &&& (b >> 4u8) & 1u8 == a4
        &&& (b >> 5u8) & 1u8 == a5
        &&& (b >> 6u8) & 1u8 == a6
        &&& (b >> 7u8) & 1u8 == a7
        &&& b >> 0u8 == b
    }) by (bit_vector)
        requires
            b == a0 | (a1 << 1u8) | (a2 << 2u8) | (a3 << 3u8) | (a4 << 4u8) | (a5 << 5u8) | (a6
                << 6u8) | (a7 << 7u8),
            a0 <= 1 && a1 <= 1 && a2 <= 1 && a3 <= 1 && a4 <= 1 && a5 <= 1 && a6 <= 1 && a7 <= 1,
    ;
    assert(j == 0 || j == 1 || j == 2 || j == 3 || j == 4 || j == 5 || j == 6 || j == 7);
}

proof fn lemma_same_byte(a: u8, b: u8)
    requires
        forall|j: int| 0 <= j < 8 ==> bit_of(a, j) == bit_of(b, j),
    ensures
        a == b,
{
    assert(bit_of(a, 0) == bit_of(b, 0) && bit_of(a, 1) == bit_of(b, 1) && bit_of(a, 2) == bit_of(
        b,
        2,
    ) && bit_of(a, 3) == bit_of(b, 3) && bit_of(a, 4) == bit_of(b, 4) && bit_of(a, 5) == bit_of(
        b,
        5,
    ) && bit_of(a, 6) == bit_of(b, 6) && bit_of(a, 7) == bit_of(b, 7));
    assert(a == b) by (bit_vector)
        requires
            ((a >> 0u8) & 1u8 == 1u8) == ((b >> 0u8) & 1u8 == 1u8),
            ((a >> 1u8) & 1u8 == 1u8) == ((b >> 1u8) & 1u8 == 1u8),
            ((a >> 2u8) & 1u8 == 1u8) == ((b >> 2u8) & 1u8 == 1u8),
            ((a >> 3u8) & 1u8 == 1u8) == ((b >> 3u8) & 1u8 == 1u8),
            ((a >> 4u8) & 1u8 == 1u8) == ((b >> 4u8) & 1u8 == 1u8),
            ((a >> 5u8) & 1u8 == 1u8) == ((b >> 5u8) & 1u8 == 1u8),
            ((a >> 6u8) & 1u8 == 1u8) == ((b >> 6u8) & 1u8 == 1u8),
            ((a >> 7u8) & 1u8 == 1u8) == ((b >> 7u8) & 1u8 == 1u8),
    ;
}

/// There is exactly one way to pack bits into bytes.
pub proof fn law_packing_unique(bytes: Seq<u8>, bits: Seq<bool>)
    ensures
        packs(bytes, bits) <==> bytes == pack(bits),
{
    assert forall|i: int| 0 <= i < 8 * pack(bits).len() implies #[trigger] bit_of(
        pack(bits)[i / 8],
        i % 8,
    ) == (i < bits.len() && bits[i]) by {
        lemma_byte_of(bits, i / 8, i % 8);
        assert(8 * (i / 8) + i % 8 == i);
    }
    if packs(bytes, bits) {
        assert forall|k: int| 0 <= k < bytes.len() implies bytes[k] == pack(bits)[k] by {
            assert forall|j: int| 0 <= j < 8 implies bit_of(bytes[k], j) == bit_of(
                pack(bits)[k],
                j,
            ) by {
                let i = 8 * k + j;
                assert(i / 8 == k && i % 8 == j);
                assert(bit_of(bytes[i / 8], i % 8) == (i < bits.len() && bits[i]));
                assert(bit_of(pack(bits)[i / 8], i % 8) == (i < bits.len() && bits[i]));
            }
            lemma_same_byte(bytes[k], pack(bits)[k]);
        }
        assert(bytes =~= pack(bits));
    }
}

/// Bit `i` of a byte is what is left of it, when it is halved `i` times, as its lowest binary digit.
pub proof fn law_bit_of(byte: u8)
    ensures
        bit_of(byte, 0) <==> byte % 2 == 1,
        bit_of(byte, 1) <==> byte / 2 % 2 == 1,
        bit_of(byte, 2) <==> byte / 4 % 2 == 1,
        bit_of(byte, 3) <==> byte / 8 % 2 == 1,
        bit_of(byte, 4) <==> byte / 16 % 2 == 1,
        bit_of(byte, 5) <==> byte / 32 % 2 == 1,
        bit_of(byte, 6) <==> byte / 64 % 2 == 1,
        bit_of(byte, 7) <==> byte / 128 == 1,
{
    assert({
        &&& ((byte >> 0u8) & 1u8 == 1u8) == (byte % 2 == 1)
        &&& ((byte >> 1u8) & 1u8 == 1u8) == (byte / 2 % 2 == 1)
        &&& ((byte >> 2u8) & 1u8 == 1u8) == (byte / 4 % 2 == 1)
        &&& ((byte >> 3u8) & 1u8 == 1u8) == (byte / 8 % 2 == 1)
        &&& ((byte >> 4u8) & 1u8 == 1u8) == (byte / 16 % 2 == 1)
        &&& ((byte >> 5u8) & 1u8 == 1u8) == (byte / 32 % 2 == 1)
        &&& ((byte >> 6u8) & 1u8 == 1u8) == (byte / 64 % 2 == 1)
        &&& ((byte >> 7u8) & 1u8 == 1u8) == (byte / 128 == 1)
    }) by (bit_vector);
}

/// Bit `i` is read from byte `i / 8`, and is the bit `i % 8` of it.
pub proof fn law_bits_read(bytes: Seq<u8>, len: nat)
    ensures
        bits_of(bytes, len).len() == len,
        forall|i: int|
            0 <= i < len ==> #[trigger] bits_of(bytes, len)[i] == bit_of(bytes[i / 8], i % 8),
{
}

/// Bits are packed eight to a byte: bit `i` into bit `i % 8` of byte `i / 8`, in as many bytes as
/// that takes, and nothing else is set in them.
pub proof fn law_bits_packed(bytes: Seq<u8>, bits: Seq<bool>)
    ensures
        packs(bytes, bits) <==> {
            &&& bits.len() <= 8 * bytes.len() < bits.len() + 8
            &&& forall|k: int, j: int|
                0 <= k < bytes.len() && 0 <= j < 8 ==> (#[trigger] bit_of(bytes[k], j) <==> 8 * k
                    + j < bits.len() && bits[8 * k + j])
        },
        packs(pack(bits), bits),
{
    law_packing_unique(pack(bits), bits);
    if packs(bytes, bits) {
        assert forall|k: int, j: int| 0 <= k < bytes.len() && 0 <= j < 8 implies (
        #[trigger] bit_of(bytes[k], j) <==> 8 * k + j < bits.len() && bits[8 * k + j]) by {
            let i = 8 * k + j;
            assert(i / 8 == k && i % 8 == j);
            assert(bit_of(bytes[i / 8], i % 8) == (i < bits.len() && bits[i]));
        }
    }
    if bits.len() <= 8 * bytes.len() < bits.len() + 8 && forall|k: int, j: int|
        0 <= k < bytes.len() && 0 <= j < 8 ==> (#[trigger] bit_of(bytes[k], j) <==> 8 * k + j
            < bits.len() && bits[8 * k + j]) {
        assert forall|i: int| 0 <= i < 8 * bytes.len() implies #[trigger] bit_of(
            bytes[i / 8],
            i % 8,
        ) == (i < bits.len() && bits[i]) by {
            assert(8 * (i / 8) + i % 8 == i);
        }
    }
}

/// The count of set bits is the number of indices at which a bit is set.
pub proof fn law_count_set(bits: Seq<bool>)
    ensures
        Set::new(|i: int| 0 <= i < bits.len() && bits[i]).finite(),
        count_set(bits) == Set::new(|i: int| 0 <= i < bits.len() && bits[i]).len(),
    decreases bits.len(),
{
    let set = Set::new(|i: int| 0 <= i < bits.len() && bits[i]);
    if bits.len() == 0 {
        assert(set =~= Set::empty());
    } else {
        let rest = bits.drop_last();
        let n = rest.len() as int;
        let before = Set::new(|i: int| 0 <= i < rest.len() && rest[i]);
        law_count_set(rest);
        if bits.last() {
            assert(set =~= before.insert(n));
        } else {
            assert(set =~= before);
        }
    }
}

/// Setting or clearing one bit of a byte leaves the others as they are.
proof fn lemma_bit_change(byte: u8, i: int, j: int)
    requires
        0 <= i < 8,
        0 <= j < 8,
    ensures
        bit_of(byte | (1u8 << (j as usize)), i) == (i == j || bit_of(byte, i)),
        bit_of(byte & !(1u8 << (j as usize)), i) == (i != j && bit_of(byte, i)),
{
    let (x, y) = (i as u8, j as u8);
    assert(1u8 << (j as usize) == 1u8 << y);
    assert({
        &&& (((byte | (1u8 << y)) >> x) & 1u8 == 1u8) == (x == y || (byte >> x) & 1u8 == 1u8)
        &&& (((byte & !(1u8 << y)) >> x) & 1u8 == 1u8) == (x != y && (byte >> x) & 1u8 == 1u8)
    }) by (bit_vector)
        requires
            x < 8,
            y < 8,
    ;
}

/// A byte with its lowest `n` bits set.
proof fn lemma_low_bits(n: usize, i: int)
    requires
        n < 8,
        0 <= i < 8,
    ensures
        1u8 << n >= 1,
        bit_of(((1u8 << n) - 1) as u8, i) == (i < n),
        bit_of(255u8, i),
        !bit_of(0u8, i),
{
    let (x, m) = (i as u8, n as u8);
    assert(1u8 << n == 1u8 << m);
    assert(1u8 << m >= 1) by (bit_vector)
        requires
            m < 8,
    ;
    let low = ((1u8 << m) - 1) as u8;
    assert({
        &&& ((low >> x) & 1u8 == 1u8) == (x < m)
        &&& (255u8 >> x) & 1u8 == 1u8
        &&& (0u8 >> x) & 1u8 == 0u8
    }) by (bit_vector)
        requires
            x < 8,
            m < 8,
            low == ((1u8 << m) - 1) as u8,
    ;
}

/// The number of bytes that `len` bits are packed into.
pub(crate) fn byte_count(len: usize) -> (bytes: usize)
    ensures
        bytes == packed_len(len as nat),
{
    if len % 8 == 0 {
        len / 8
    } else {
        len / 8 + 1
    }
}

impl Bitmap {
    /// `len` clear bits.
    pub fn new_empty(len: usize) -> (bitmap: Self)
        ensures
            bitmap@ == Seq::new(len as nat, |i: int| false),
    {
        let bytes = vec![0u8; byte_count(len)];
        let ghost bits = Seq::new(len as nat, |i: int| false);
        proof {
            assert forall|i: int| 0 <= i < 8 * bytes@.len() implies !(#[trigger] bit_of(bytes@[i / 8], i % 8)) by {
                lemma_low_bits(0, i % 8);
            }
            assert(bits_of(bytes@, len as nat) =~= bits);
        }
        Bitmap { data: buffer::from_vec(bytes), len }
    }

    /// `len` set bits.
    pub fn new_full(len: usize) -> (bitmap: Self)
        ensures
            bitmap@ == Seq::new(len as nat, |i: int| true),
    {
        let mut bytes = vec![255u8; byte_count(len)];
        let remainder = len % 8;
        let ghost bits = Seq::new(len as nat, |i: int| true);
        if remainder != 0 {
            let last = bytes.len() - 1;
            proof {
                lemma_low_bits(remainder, 0);
            }
            bytes[last] = (1u8 << remainder) - 1;
        }
        proof {
            assert forall|i: int| 0 <= i < 8 * bytes@.len() implies #[trigger] bit_of(bytes@[i / 8], i % 8) == (i
                < len) by {
                lemma_low_bits(remainder, i % 8);
                assert(8 * (i / 8) + i % 8 == i);
            }
            assert(bits_of(bytes@, len as nat) =~= bits);
        }
        Bitmap { data: buffer::from_vec(bytes), len }
    }

    /// `len` bits, all set but those at the indices `cleared`.
    pub fn new_full_except(len: usize, cleared: &[usize]) -> (bitmap: Self)
        requires
            forall|i: int| 0 <= i < cleared@.len() ==> cleared@[i] < len,
        ensures
            bitmap@ == Seq::new(len as nat, |i: int| !cleared@.contains(i as usize)),
    {
        let mut bitmap = Bitmap::new_full(len);
        let mut n: usize = 0;
        assert(bitmap@ =~= Seq::new(len as nat, |i: int| !cleared@.take(0).contains(i as usize)));
        while n < cleared.len()
            invariant
                n <= cleared@.len(),
                forall|i: int| 0 <= i < cleared@.len() ==> cleared@[i] < len,
                bitmap@ == Seq::new(
                    len as nat,
                    |i: int| !cleared@.take(n as int).contains(i as usize),
                ),
            decreases cleared@.len() - n,
        {
            let ghost before = bitmap@;
            bitmap.clear(cleared[n]);
            proof {
                let (done, next) = (cleared@.take(n as int), cleared@.take(n + 1));
                assert(next =~= done.push(cleared@[n as int]));
                assert forall|i: int| 0 <= i < len implies bitmap@[i] == !next.contains(
                    i as usize,
                ) by {
                    assert(before[i] == !done.contains(i as usize));
                    if done.contains(i as usize) {
                        let k = choose|k: int| 0 <= k < done.len() && done[k] == i as usize;
                        assert(next[k] == i as usize);
                    }
                    assert(next[n as int] == cleared@[n as int]);
                }
                assert(bitmap@ =~= Seq::new(len as nat, |i: int| !next.contains(i as usize)));
            }
            n = n + 1;
        }
        assert(cleared@.take(cleared@.len() as int) =~= cleared@);
        bitmap
    }

    /// Whether bit `i` is set.
    pub fn get(&self, i: usize) -> (set: bool)
        requires
            i < self@.len(),
        ensures
            set == self@[i as int],
    {
        proof {
            use_type_invariant(self);
            assert((i % 8) as u8 == i % 8);
            assert(bit_of(buffer::contents(self.data)[i as int / 8], i as int % 8) == self@[i as int]);
        }
        (buffer::as_slice(&self.data)[i / 8] >> (i % 8) as u8) & 1 == 1
    }

    /// Sets bit `i`.
    pub fn set(&mut self, i: usize)
        requires
            i < old(self)@.len(),
        ensures
            final(self)@ == old(self)@.update(i as int, true),
    {
        self.put(i, true)
    }

    /// Clears bit `i`.
    pub fn clear(&mut self, i: usize)
        requires
            i < old(self)@.len(),
        ensures
            final(self)@ == old(self)@.update(i as int, false),
    {
        self.put(i, false)
    }

    fn put(&mut self, i: usize, value: bool)
        requires
            i < old(self)@.len(),
        ensures
            final(self)@ == old(self)@.update(i as int, value),
    {
        let mut taken = Bitmap::new_empty(0);
        core::mem::swap(self, &mut taken);
        proof {
            use_type_invariant(&taken);
        }
        let ghost bits = taken@;
        let len = taken.len;
        let mut bytes = buffer::into_vec(taken.data);
        let ghost before = bytes@;
        let at = i / 8;
        let bit = i % 8;
        assert(before.len() == packed_len(len as nat));
        bytes[at] = if value {
            bytes[at] | (1u8 << bit)
        } else {
            bytes[at] & !(1u8 << bit)
        };
        proof {
            let after = bits.update(i as int, value);
            assert forall|k: int| 0 <= k < 8 * bytes@.len() implies #[trigger] bit_of(bytes@[k / 8], k % 8) == (k
                < after.len() && after[k]) by {
                assert(bit_of(before[k / 8], k % 8) == (k < bits.len() && bits[k]));
                if k / 8 == at {
                    lemma_bit_change(before[at as int], k % 8, bit as int);
                }
                assert(8 * (k / 8) + k % 8 == k);
                assert(8 * at + bit == i);
            }
            assert(bits_of(bytes@, len as nat) =~= after);
        }
        *self = Bitmap { data: buffer::from_vec(bytes), len };
    }

    /// How many bits are set.
    pub fn count_ones(&self) -> (count: usize)
        ensures
            count == count_set(self@),
            count == Set::new(|i: int| 0 <= i < self@.len() && self@[i]).len(),
    {
        proof {
            law_count_set(self@);
        }
        let mut count: usize = 0;
        let mut i: usize = 0;
        while i < self.len
            invariant
                i <= self.len == self@.len(),
                count <= i,
                count == count_set(self@.take(i as int)),
            decreases self.len - i,
        {
            assert(self@.take(i + 1).drop_last() =~= self@.take(i as int));
            if self.get(i) {
                count = count + 1;
            }
            i = i + 1;
        }
        assert(self@.take(self@.len() as int) =~= self@);
        count
    }
}

impl Clone for Bitmap {
    fn clone(&self) -> (copy: Self)
        ensures
            copy@ == self@,
    {
        proof {
            use_type_invariant(self);
        }
        Bitmap { data: buffer::share(&self.data), len: self.len }
    }
}

} // verus!
