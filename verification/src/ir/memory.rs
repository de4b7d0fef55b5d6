use vstd::prelude::*;

verus! {

/// The number of bits needed to write `x` in binary.
pub open spec fn bit_length(x: nat) -> nat
    decreases x,
{
    if x == 0 {
        0
    } else {
        1 + bit_length(x / 2)
    }
}

/// The number of address bits needed to tell apart `value` items.
pub open spec fn spec_min_bits(value: nat) -> nat {
    if value == 0 {
        0
    } else {
        bit_length((value - 1) as nat)
    }
}

/// A number has no more bits than its value.
pub proof fn lemma_bit_length_le(x: nat)
    ensures
        bit_length(x) <= x,
    decreases x,
{
    if x > 0 {
        lemma_bit_length_le(x / 2);
    }
}

/// `bit_length(x)` bits suffice for `x`: `x < 2^bit_length(x)`.
pub proof fn lemma_bit_length_bound(x: nat)
    ensures
        x < vstd::arithmetic::power2::pow2(bit_length(x)),
    decreases x,
{
    vstd::arithmetic::power2::lemma2_to64();
    if x > 0 {
        lemma_bit_length_bound(x / 2);
        vstd::arithmetic::power2::lemma_pow2_unfold(bit_length(x));
    }
}

/// Enough address bits: `value` items can be addressed with
/// `spec_min_bits(value)` bits.
pub proof fn law_min_bits_enough(value: nat)
    ensures
        value <= vstd::arithmetic::power2::pow2(spec_min_bits(value)),
{
    vstd::arithmetic::power2::lemma2_to64();
    if value > 0 {
        lemma_bit_length_bound((value - 1) as nat);
    }
}

/// A positive `x` has its highest bit at `bit_length(x) - 1`:
/// `2^(bit_length(x) - 1) <= x`.
proof fn lemma_bit_length_top(x: nat)
    requires
        x > 0,
    ensures
        vstd::arithmetic::power2::pow2((bit_length(x) - 1) as nat) <= x,
    decreases x,
{
    vstd::arithmetic::power2::lemma2_to64();
    if x >= 2 {
        lemma_bit_length_top(x / 2);
        assert(bit_length(x / 2) >= 1);
        vstd::arithmetic::power2::lemma_pow2_unfold(bit_length(x / 2));
    } else {
        assert(bit_length(0) == 0);
        assert(bit_length(x) == 1);
    }
}

/// No fewer address bits do: for more than one item, one bit less than
/// `spec_min_bits(value)` tells apart fewer than `value` items.
pub proof fn law_min_bits_fewest(value: nat)
    requires
        value > 1,
    ensures
        vstd::arithmetic::power2::pow2((spec_min_bits(value) - 1) as nat) < value,
{
    lemma_bit_length_top((value - 1) as nat);
}

/// The number of address bits needed to tell apart `value` items: zero for
/// none, otherwise the bit length of `value - 1`.
pub fn min_bits_to_represent(value: usize) -> (result: usize)
    ensures
        result == spec_min_bits(value as nat),
{
    if value == 0 {
        return 0;
    }
    proof {
        lemma_bit_length_le((value - 1) as nat);
    }
    let mut x = value - 1;
    let mut bits: usize = 0;
    while x > 0
        invariant
            bits + bit_length(x as nat) == bit_length((value - 1) as nat),
            bit_length((value - 1) as nat) <= value - 1,
        decreases x,
    {
        proof {
            lemma_bit_length_le(x as nat);
        }
        x = x / 2;
        bits = bits + 1;
    }
    bits
}

/// Banking is currently completely ignored.
#[derive(Clone, Copy, PartialEq, Eq, Structural)]
pub struct MemoryLevel {
    pub length: usize,
    pub bank: usize,
}

/// A multidimensional memory of `element`-bit words.
pub struct Memory {
    /// The first level is the outermost "array", and so on.
    levels: Vec<MemoryLevel>,
    element: usize,
}

/// The product of the lengths of the levels.
pub open spec fn spec_flattened_length(levels: Seq<MemoryLevel>) -> nat
    decreases levels.len(),
{
    if levels.len() == 0 {
        1
    } else {
        spec_flattened_length(levels.drop_last()) * (levels.last().length as nat)
    }
}

impl Memory {
    pub closed spec fn spec_levels(&self) -> Seq<MemoryLevel> {
        self.levels@
    }

    pub closed spec fn spec_element(&self) -> usize {
        self.element
    }

    /// A one-level memory of `length` words of `element` bits.
    pub fn new(length: usize, element: usize, bank: usize) -> (result: Self)
        ensures
            result.spec_levels() == seq![MemoryLevel { length, bank }],
            result.spec_element() == element,
    {
        let mut levels = Vec::new();
        levels.push(MemoryLevel { length, bank });
        proof {
            assert(levels@ =~= seq![MemoryLevel { length, bank }]);
        }
        Memory { levels, element }
    }

    pub fn from(levels: Vec<MemoryLevel>, element: usize) -> (result: Self)
        ensures
            result.spec_levels() == levels@,
            result.spec_element() == element,
    {
        Memory { levels, element }
    }

    pub fn levels(&self) -> (result: &Vec<MemoryLevel>)
        ensures
            result@ == self.spec_levels(),
    {
        &self.levels
    }

    pub fn element(&self) -> (result: usize)
        ensures
            result == self.spec_element(),
    {
        self.element
    }

    /// A copy of this memory.
    pub fn duplicate(&self) -> (result: Self)
        ensures
            result.spec_levels() == self.spec_levels(),
            result.spec_element() == self.spec_element(),
    {
        let mut levels = Vec::new();
        let n = self.levels.len();
        let mut i: usize = 0;
        while i < n
            invariant
                0 <= i <= n,
                n == self.levels@.len(),
                levels@ == self.levels@.subrange(0, i as int),
            decreases n - i,
        {
            levels.push(self.levels[i]);
            proof {
                assert(levels@ =~= self.levels@.subrange(0, i + 1));
            }
            i = i + 1;
        }
        proof {
            assert(self.levels@.subrange(0, n as int) =~= self.levels@);
        }
        Memory { levels, element: self.element }
    }

    /// The number of words in the memory: the product of the level lengths.
    pub fn flattened_length(&self) -> (result: usize)
        requires
            forall|i: int|
                0 <= i <= self.spec_levels().len() ==> spec_flattened_length(
                    #[trigger] self.spec_levels().subrange(0, i),
                ) <= usize::MAX,
        ensures
            result == spec_flattened_length(self.spec_levels()),
    {
        let mut result: usize = 1;
        let n = self.levels.len();
        let mut i: usize = 0;
        while i < n
            invariant
                0 <= i <= n,
                n == self.levels@.len(),
                result == spec_flattened_length(self.levels@.subrange(0, i as int)),
                forall|i: int|
                    0 <= i <= self.spec_levels().len() ==> spec_flattened_length(
                        #[trigger] self.spec_levels().subrange(0, i),
                    ) <= usize::MAX,
            decreases n - i,
        {
            proof {
                assert(self.levels@.subrange(0, i + 1).drop_last() =~= self.levels@.subrange(
                    0,
                    i as int,
                ));
                assert(spec_flattened_length(self.spec_levels().subrange(0, i + 1)) <= usize::MAX);
            }
            result = result * self.levels[i].length;
            i = i + 1;
        }
        proof {
            assert(self.levels@.subrange(0, n as int) =~= self.levels@);
        }
        result
    }

    /// The number of bits needed to address any word of the memory.
    pub fn flattened_address_width(&self) -> (result: usize)
        requires
            forall|i: int|
                0 <= i <= self.spec_levels().len() ==> spec_flattened_length(
                    #[trigger] self.spec_levels().subrange(0, i),
                ) <= usize::MAX,
        ensures
            result == spec_min_bits(spec_flattened_length(self.spec_levels())),
    {
        min_bits_to_represent(self.flattened_length())
    }
}

} // verus!
