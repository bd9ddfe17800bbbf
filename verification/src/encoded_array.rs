//! Arrays of `u64` values, stored as narrow offsets from a base where that is possible.

use vstd::prelude::*;

verus! {

/// What an encoded array stores.
#[allow(inconsistent_fields)]
#[verifier::ext_equal]
pub enum ArrayModel {
    U16 { base: u64, offsets: Seq<u16> },
    U32 { base: u64, offsets: Seq<u32> },
    U64(Seq<u64>),
}

impl ArrayModel {
    /// The number of values.
    pub open spec fn len(self) -> nat {
        match self {
            ArrayModel::U16 { base, offsets } => offsets.len(),
            ArrayModel::U32 { base, offsets } => offsets.len(),
            ArrayModel::U64(values) => values.len(),
        }
    }

    /// What is stored of each value.
    pub open spec fn stored(self) -> Seq<int> {
        match self {
            ArrayModel::U16 { base, offsets } => offsets.map_values(|v: u16| v as int),
            ArrayModel::U32 { base, offsets } => offsets.map_values(|v: u32| v as int),
            ArrayModel::U64(values) => values.map_values(|v: u64| v as int),
        }
    }

    /// What each stored value is an offset from.
    pub open spec fn base(self) -> int {
        match self {
            ArrayModel::U16 { base, offsets } => base as int,
            ArrayModel::U32 { base, offsets } => base as int,
            ArrayModel::U64(values) => 0,
        }
    }

    /// The values.
    pub open spec fn values(self) -> Seq<int> {
        Seq::new(self.len(), |i: int| self.base() + self.stored()[i])
    }

    /// Every value fits in 64 bits.
    pub open spec fn valid(self) -> bool {
        forall|i: int| 0 <= i < self.len() ==> #[trigger] self.values()[i] <= u64::MAX
    }
}

/// The largest of `values`, or zero.
pub open spec fn max_of(values: Seq<int>) -> int
    decreases values.len(),
{
    if values.len() == 0 {
        0
    } else if values.len() == 1 || max_of(values.drop_last()) < values.last() {
        values.last()
    } else {
        max_of(values.drop_last())
    }
}

/// The smallest of `values`, or zero.
pub open spec fn min_of(values: Seq<int>) -> int
    decreases values.len(),
{
    if values.len() == 0 {
        0
    } else if values.len() == 1 || values.last() < min_of(values.drop_last()) {
        values.last()
    } else {
        min_of(values.drop_last())
    }
}

/// The narrowest encoding of `values`.
pub open spec fn compact(values: Seq<u64>) -> ArrayModel {
    let plain = values.map_values(|v: u64| v as int);
    let (low, range) = (min_of(plain), max_of(plain) - min_of(plain));
    if range < u16::MAX {
        ArrayModel::U16 {
            base: low as u64,
            offsets: values.map_values(|v: u64| (v - low) as u16),
        }
    } else if range < u32::MAX {
        ArrayModel::U32 {
            base: low as u64,
            offsets: values.map_values(|v: u64| (v - low) as u32),
        }
    } else {
        ArrayModel::U64(values)
    }
}

/// The first index from `i` on after which `values` falls, or, with `ties`, does not rise.
pub open spec fn first_fall(values: Seq<int>, ties: bool, i: int) -> Option<int>
    decreases values.len() - i,
{
    if i + 1 >= values.len() {
        None
    } else if values[i] > values[i + 1] || (ties && values[i] == values[i + 1]) {
        Some(i)
    } else {
        first_fall(values, ties, i + 1)
    }
}

/// `values` are in order, and, with `ties`, no two are the same.
pub open spec fn ordered(values: Seq<int>, ties: bool) -> bool {
    forall|i: int, j: int|
        0 <= i < j < values.len() ==> values[i] < values[j] || (!ties && values[i] == values[j])
}

proof fn lemma_no_fall(values: Seq<int>, ties: bool, i: int, j: int, k: int)
    requires
        first_fall(values, ties, i) is None,
        0 <= i <= j < k < values.len(),
    ensures
        values[j] < values[k] || (!ties && values[j] == values[k]),
    decreases k - i,
{
    if i < j {
        lemma_no_fall(values, ties, i + 1, j, k);
    } else if j + 1 < k {
        lemma_no_fall(values, ties, i + 1, j + 1, k);
    }
}

proof fn lemma_ordered_no_fall(values: Seq<int>, ties: bool, i: int)
    requires
        ordered(values, ties),
        0 <= i,
    ensures
        first_fall(values, ties, i) is None,
    decreases values.len() - i,
{
    if i + 1 < values.len() {
        assert(values[i] < values[i + 1] || (!ties && values[i] == values[i + 1]));
        lemma_ordered_no_fall(values, ties, i + 1);
    }
}

/// Values fall nowhere exactly when they are in order.
pub proof fn law_ordered(values: Seq<int>, ties: bool)
    ensures
        first_fall(values, ties, 0) is None <==> ordered(values, ties),
{
    if first_fall(values, ties, 0) is None {
        assert forall|i: int, j: int| 0 <= i < j < values.len() implies values[i] < values[j] || (
        !ties && values[i] == values[j]) by {
            lemma_no_fall(values, ties, 0, i, j);
        }
    }
    if ordered(values, ties) {
        lemma_ordered_no_fall(values, ties, 0);
    }
}

/// The largest value is one of the values, and none is larger.
pub proof fn law_max(values: Seq<int>)
    ensures
        forall|i: int| 0 <= i < values.len() ==> #[trigger] values[i] <= max_of(values),
        values.len() > 0 ==> values.contains(max_of(values)),
    decreases values.len(),
{
    if values.len() > 0 {
        let rest = values.drop_last();
        law_max(rest);
        assert forall|i: int| 0 <= i < values.len() implies #[trigger] values[i] <= max_of(values) by {
            if i < rest.len() {
                assert(rest[i] <= max_of(rest));
            }
        }
        if rest.len() > 0 {
            let k = choose|k: int| 0 <= k < rest.len() && rest[k] == max_of(rest);
            assert(values[k] == max_of(rest));
        }
        assert(values[values.len() - 1] == values.last());
    }
}

/// The smallest value is one of the values, and none is smaller.
pub proof fn law_min(values: Seq<int>)
    ensures
        forall|i: int| 0 <= i < values.len() ==> min_of(values) <= #[trigger] values[i],
        values.len() > 0 ==> values.contains(min_of(values)),
    decreases values.len(),
{
    if values.len() > 0 {
        let rest = values.drop_last();
        law_min(rest);
        assert forall|i: int| 0 <= i < values.len() implies min_of(values) <= #[trigger] values[i] by {
            if i < rest.len() {
                assert(min_of(rest) <= rest[i]);
            }
        }
        if rest.len() > 0 {
            let k = choose|k: int| 0 <= k < rest.len() && rest[k] == min_of(rest);
            assert(values[k] == min_of(rest));
        }
        assert(values[values.len() - 1] == values.last());
    }
}

/// The narrowest encoding of some values stands for those values.
pub proof fn law_compact(values: Seq<u64>)
    ensures
        compact(values).valid(),
        compact(values).values() == values.map_values(|v: u64| v as int),
{
    let plain = values.map_values(|v: u64| v as int);
    law_min(plain);
    law_max(plain);
    let encoded = compact(values);
    let low = min_of(plain);
    if values.len() > 0 {
        let k = choose|k: int| 0 <= k < plain.len() && plain[k] == low;
        assert(values[k] == low);
    }
    assert forall|i: int| 0 <= i < values.len() implies #[trigger] encoded.values()[i] == plain[i] by {
        assert(low <= plain[i] <= max_of(plain));
        assert(plain[i] == values[i]);
    }
    assert(encoded.values() =~= plain);
}

/// An array has as many values as it stores; each is what is stored of it, added to the base where
/// there is one.
pub proof fn law_array_values(array: ArrayModel)
    ensures
        array.values().len() == array.len() == array.stored().len(),
        match array {
            ArrayModel::U16 { base, offsets } => {
                &&& array.len() == offsets.len()
                &&& forall|i: int|
                    #![trigger offsets[i]]
                    #![trigger array.values()[i]]
                    0 <= i < offsets.len() ==> array.values()[i] == base + offsets[i]
                        && array.stored()[i] == offsets[i]
            },
            ArrayModel::U32 { base, offsets } => {
                &&& array.len() == offsets.len()
                &&& forall|i: int|
                    #![trigger offsets[i]]
                    #![trigger array.values()[i]]
                    0 <= i < offsets.len() ==> array.values()[i] == base + offsets[i]
                        && array.stored()[i] == offsets[i]
            },
            ArrayModel::U64(values) => {
                &&& array.len() == values.len()
                &&& forall|i: int|
                    #![trigger values[i]]
                    #![trigger array.values()[i]]
                    0 <= i < values.len() ==> array.values()[i] == values[i] && array.stored()[i]
                        == values[i]
            },
        },
{
}

/// An array is valid exactly when no base with an offset of it goes beyond 64 bits.
pub proof fn law_array_fits(array: ArrayModel)
    ensures
        array.valid() <==> match array {
            ArrayModel::U16 { base, offsets } => forall|i: int|
                0 <= i < offsets.len() ==> base + #[trigger] offsets[i] <= 0xffff_ffff_ffff_ffff,
            ArrayModel::U32 { base, offsets } => forall|i: int|
                0 <= i < offsets.len() ==> base + #[trigger] offsets[i] <= 0xffff_ffff_ffff_ffff,
            ArrayModel::U64(values) => true,
        },
{
    match array {
        ArrayModel::U16 { base, offsets } => {
            if array.valid() {
                assert forall|i: int| 0 <= i < offsets.len() implies base + #[trigger] offsets[i]
                    <= 0xffff_ffff_ffff_ffff by {
                    assert(array.values()[i] <= u64::MAX);
                }
            }
        },
        ArrayModel::U32 { base, offsets } => {
            if array.valid() {
                assert forall|i: int| 0 <= i < offsets.len() implies base + #[trigger] offsets[i]
                    <= 0xffff_ffff_ffff_ffff by {
                    assert(array.values()[i] <= u64::MAX);
                }
            }
        },
        ArrayModel::U64(values) => {},
    }
}

proof fn lemma_first_fall_at(values: Seq<int>, ties: bool, from: int)
    requires
        0 <= from,
    ensures
        match first_fall(values, ties, from) {
            Some(i) => {
                &&& from <= i && i + 1 < values.len()
                &&& if ties {
                    values[i] >= values[i + 1]
                } else {
                    values[i] > values[i + 1]
                }
                &&& forall|j: int|
                    from <= j < i ==> if ties {
                        #[trigger] values[j] < values[j + 1]
                    } else {
                        values[j] <= values[j + 1]
                    }
            },
            None => forall|j: int|
                from <= j < values.len() - 1 ==> if ties {
                    #[trigger] values[j] < values[j + 1]
                } else {
                    values[j] <= values[j + 1]
                },
        },
    decreases values.len() - from,
{
    if from + 1 < values.len() {
        lemma_first_fall_at(values, ties, from + 1);
    }
}

/// The first fall is at the first index whose value exceeds the next one, or, with ties, is not less
/// than the next one; and there is none where no two neighbours are so.
pub proof fn law_first_fall(values: Seq<int>, ties: bool)
    ensures
        match first_fall(values, ties, 0) {
            Some(i) => {
                &&& 0 <= i && i + 1 < values.len()
                &&& if ties {
                    values[i] >= values[i + 1]
                } else {
                    values[i] > values[i + 1]
                }
                &&& forall|j: int, k: int|
                    0 <= j < k <= i ==> if ties {
                        #[trigger] values[j] < #[trigger] values[k]
                    } else {
                        values[j] <= values[k]
                    }
            },
            None => forall|j: int, k: int|
                0 <= j < k < values.len() ==> if ties {
                    #[trigger] values[j] < #[trigger] values[k]
                } else {
                    values[j] <= values[k]
                },
        },
{
    lemma_first_fall_at(values, ties, 0);
    let end = match first_fall(values, ties, 0) {
        Some(i) => i + 1,
        None => values.len() as int,
    };
    assert forall|j: int, k: int| 0 <= j < k < end implies if ties {
        #[trigger] values[j] < #[trigger] values[k]
    } else {
        values[j] <= values[k]
    } by {
        lemma_rising(values, ties, j, k, end);
    }
}

proof fn lemma_rising(values: Seq<int>, ties: bool, j: int, k: int, end: int)
    requires
        0 <= j < k < end <= values.len(),
        forall|i: int|
            0 <= i < end - 1 ==> if ties {
                #[trigger] values[i] < values[i + 1]
            } else {
                values[i] <= values[i + 1]
            },
    ensures
        if ties {
            values[j] < values[k]
        } else {
            values[j] <= values[k]
        },
    decreases k - j,
{
    assert(if ties {
        values[k - 1] < values[k - 1 + 1]
    } else {
        values[k - 1] <= values[k - 1 + 1]
    });
    if j < k - 1 {
        lemma_rising(values, ties, j, k - 1, end);
    }
}

/// Values are in order exactly when no later one is less, and none is the same if ties count.
pub proof fn law_in_order(values: Seq<int>)
    ensures
        ordered(values, false) <==> forall|i: int, j: int|
            0 <= i < j < values.len() ==> #[trigger] values[i] <= #[trigger] values[j],
        ordered(values, true) <==> forall|i: int, j: int|
            0 <= i < j < values.len() ==> #[trigger] values[i] < #[trigger] values[j],
{
}

/// Values are stored as 16 bit offsets from the smallest exactly when they differ by less than
/// 65535, else as 32 bit offsets from the smallest exactly when they differ by less than
/// 4294967295, and else as they are.
pub proof fn law_narrowest(values: Seq<u64>)
    ensures
        match compact(values) {
            ArrayModel::U16 { base, offsets } => {
                &&& offsets.len() == values.len()
                &&& forall|i: int| 0 <= i < values.len() ==> base + offsets[i] == #[trigger] values[i]
                &&& forall|i: int, j: int|
                    0 <= i < values.len() && 0 <= j < values.len() ==> #[trigger] values[i]
                        - #[trigger] values[j] < 65535
                &&& values.len() > 0 ==> values.contains(base)
                &&& values.len() == 0 ==> base == 0
            },
            ArrayModel::U32 { base, offsets } => {
                &&& offsets.len() == values.len()
                &&& forall|i: int| 0 <= i < values.len() ==> base + offsets[i] == #[trigger] values[i]
                &&& exists|i: int, j: int|
                    0 <= i < values.len() && 0 <= j < values.len() && #[trigger] values[i]
                        - #[trigger] values[j] >= 65535
                &&& forall|i: int, j: int|
                    0 <= i < values.len() && 0 <= j < values.len() ==> #[trigger] values[i]
                        - #[trigger] values[j] < 4294967295
                &&& values.contains(base)
            },
            ArrayModel::U64(stored) => {
                &&& stored == values
                &&& exists|i: int, j: int|
                    0 <= i < values.len() && 0 <= j < values.len() && #[trigger] values[i]
                        - #[trigger] values[j] >= 4294967295
            },
        },
{
    let plain = values.map_values(|v: u64| v as int);
    law_min(plain);
    law_max(plain);
    let (low, high) = (min_of(plain), max_of(plain));
    assert forall|i: int| 0 <= i < values.len() implies low <= #[trigger] values[i] <= high by {
        assert(plain[i] == values[i]);
    }
    if values.len() > 0 {
        let l = choose|l: int| 0 <= l < plain.len() && plain[l] == low;
        let h = choose|h: int| 0 <= h < plain.len() && plain[h] == high;
        assert(values[l] == low && values[h] == high);
        assert(values[h] - values[l] == high - low);
        assert(low as u64 == values[l]);
        assert(values.contains(low as u64));
    }
}

/// Encoded array of u64 values.
#[allow(inconsistent_fields)]
#[derive(Debug, PartialEq, Eq)]
pub enum EncodedU64Array {
    /// `base` plus 16 bit offsets.
    U16 { base: u64, offsets: Vec<u16> },
    /// `base` plus 32 bit offsets.
    U32 { base: u64, offsets: Vec<u32> },
    /// The values themselves.
    U64(Vec<u64>),
}

impl View for EncodedU64Array {
    type V = ArrayModel;

    open spec fn view(&self) -> ArrayModel {
        match self {
            EncodedU64Array::U16 { base, offsets } => ArrayModel::U16 {
                base: *base,
                offsets: offsets@,
            },
            EncodedU64Array::U32 { base, offsets } => ArrayModel::U32 {
                base: *base,
                offsets: offsets@,
            },
            EncodedU64Array::U64(values) => ArrayModel::U64(values@),
        }
    }
}

/// What an array stores is what its fields hold.
pub proof fn law_array_parts(array: EncodedU64Array)
    ensures
        match array {
            EncodedU64Array::U16 { base, offsets } => array@ == (ArrayModel::U16 {
                base,
                offsets: offsets@,
            }),
            EncodedU64Array::U32 { base, offsets } => array@ == (ArrayModel::U32 {
                base,
                offsets: offsets@,
            }),
            EncodedU64Array::U64(values) => array@ == ArrayModel::U64(values@),
        },
{
}

impl EncodedU64Array {
    /// The number of values.
    pub fn len(&self) -> (len: usize)
        ensures
            len == self@.len(),
    {
        match self {
            EncodedU64Array::U16 { base: _, offsets } => offsets.len(),
            EncodedU64Array::U32 { base: _, offsets } => offsets.len(),
            EncodedU64Array::U64(values) => values.len(),
        }
    }

    /// What is stored of value `i`.
    pub(crate) fn stored(&self, i: usize) -> (stored: u64)
        requires
            i < self@.len(),
        ensures
            stored == self@.stored()[i as int],
    {
        match self {
            EncodedU64Array::U16 { base: _, offsets } => offsets[i] as u64,
            EncodedU64Array::U32 { base: _, offsets } => offsets[i] as u64,
            EncodedU64Array::U64(values) => values[i],
        }
    }

    /// Value `i`.
    pub fn value(&self, i: usize) -> (value: u64)
        requires
            self@.valid(),
            i < self@.len(),
        ensures
            value == self@.values()[i as int],
    {
        assert(self@.values()[i as int] <= u64::MAX);
        match self {
            EncodedU64Array::U16 { base, offsets } => *base + offsets[i] as u64,
            EncodedU64Array::U32 { base, offsets } => *base + offsets[i] as u64,
            EncodedU64Array::U64(values) => values[i],
        }
    }
}

impl Clone for EncodedU64Array {
    fn clone(&self) -> (copy: Self)
        ensures
            copy@ == self@,
    {
        match self {
            EncodedU64Array::U16 { base, offsets } => EncodedU64Array::U16 {
                base: *base,
                offsets: offsets.clone(),
            },
            EncodedU64Array::U32 { base, offsets } => EncodedU64Array::U32 {
                base: *base,
                offsets: offsets.clone(),
            },
            EncodedU64Array::U64(values) => EncodedU64Array::U64(values.clone()),
        }
    }
}

impl From<Vec<u64>> for EncodedU64Array {
    /// Picks the narrowest encoding.
    fn from(values: Vec<u64>) -> (array: Self)
        ensures
            array@ == compact(values@),
            array@.valid(),
            array@.len() == values@.len(),
            forall|i: int| 0 <= i < values@.len() ==> array@.values()[i] == #[trigger] values@[i],
    {
        proof {
            law_compact(values@);
            assert forall|i: int| 0 <= i < values@.len() implies compact(values@).values()[i]
                == #[trigger] values@[i] by {
                assert(values@.map_values(|v: u64| v as int)[i] == values@[i]);
            }
        }
        let ghost plain = values@.map_values(|v: u64| v as int);
        let n = values.len();
        let mut low: u64 = 0;
        let mut high: u64 = 0;
        let mut i: usize = 0;
        while i < n
            invariant
                i <= n == values@.len(),
                plain == values@.map_values(|v: u64| v as int),
                low == min_of(plain.take(i as int)),
                high == max_of(plain.take(i as int)),
            decreases n - i,
        {
            assert(plain.take(i + 1).drop_last() =~= plain.take(i as int));
            let value = values[i];
            if i == 0 || value < low {
                low = value;
            }
            if i == 0 || high < value {
                high = value;
            }
            i = i + 1;
        }
        proof {
            assert(plain.take(n as int) =~= plain);
            law_min(plain);
            law_max(plain);
            assert forall|i: int| 0 <= i < n implies low <= #[trigger] values@[i] <= high by {
                assert(plain[i] == values@[i]);
            }
            if n > 0 {
                assert(low <= values@[0] <= high);
            }
        }
        let range = high - low;
        if range < u16::MAX as u64 {
            let mut offsets: Vec<u16> = Vec::with_capacity(n);
            let mut i: usize = 0;
            while i < n
                invariant
                    i <= n == values@.len(),
                    high - low < u16::MAX,
                    forall|i: int| 0 <= i < n ==> low <= #[trigger] values@[i] <= high,
                    offsets@ == values@.map_values(|v: u64| (v - low) as u16).take(i as int),
                decreases n - i,
            {
                offsets.push((values[i] - low) as u16);
                i = i + 1;
                assert(offsets@ =~= values@.map_values(|v: u64| (v - low) as u16).take(i as int));
            }
            assert(offsets@ =~= values@.map_values(|v: u64| (v - low) as u16));
            EncodedU64Array::U16 { base: low, offsets }
        } else if range < u32::MAX as u64 {
            let mut offsets: Vec<u32> = Vec::with_capacity(n);
            let mut i: usize = 0;
            while i < n
                invariant
                    i <= n == values@.len(),
                    high - low < u32::MAX,
                    forall|i: int| 0 <= i < n ==> low <= #[trigger] values@[i] <= high,
                    offsets@ == values@.map_values(|v: u64| (v - low) as u32).take(i as int),
                decreases n - i,
            {
                offsets.push((values[i] - low) as u32);
                i = i + 1;
                assert(offsets@ =~= values@.map_values(|v: u64| (v - low) as u32).take(i as int));
            }
            assert(offsets@ =~= values@.map_values(|v: u64| (v - low) as u32));
            EncodedU64Array::U32 { base: low, offsets }
        } else {
            EncodedU64Array::U64(values)
        }
    }
}

impl vstd::std_specs::convert::FromSpecImpl<Vec<u64>> for EncodedU64Array {
    open spec fn obeys_from_spec() -> bool {
        false
    }

    open spec fn from_spec(values: Vec<u64>) -> Self {
        arbitrary()
    }
}

} // verus!
