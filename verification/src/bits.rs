use vstd::prelude::*;

use crate::bitset::{
    bit_set, count_ones_of, highest_one_of, lemma_bit_set_injective,
    lemma_bit_set_ops, lemma_bit_set_single, lemma_low_mask, lemma_ones, ones, ones_of,
};
use crate::popcount::masks_below;
use crate::subsets::{subset_words, subsets_by_mask};
use crate::text::{bracketed, bracketed_list};
use crate::util::{same_set_bits, SameSetBits};

verus! {

/// A word of 32 bits seen as a set of bit indexes.
#[derive(PartialEq, Eq, Structural, PartialOrd, Debug, Clone, Copy)]
pub struct Bits(u32);

impl View for Bits {
    type V = Set<u32>;

    closed spec fn view(&self) -> Set<u32> {
        bit_set(self.0)
    }
}

impl Bits {
    pub const MAX_BITS: u32 = 30;

    pub const MAX_BIT_VALUE: u32 = 31;

    /// The set bit indexes in increasing order.
    pub closed spec fn items(self) -> Seq<u32> {
        ones(self.0)
    }

    pub proof fn lemma_view_injective(a: Bits, b: Bits)
        requires
            a@ == b@,
        ensures
            a == b,
    {
        lemma_bit_set_injective(a.0, b.0);
    }

    /// No bit set.
    pub fn empty() -> (r: Bits)
        ensures
            r@ == Set::<u32>::empty(),
    {
        proof {
            lemma_bit_set_ops(0, 0);
        }
        Bits(0)
    }

    /// The lowest `count` bits set.
    pub fn set_lowest(count: u32) -> (r: Bits)
        requires
            count <= 30,
        ensures
            r@ == Set::new(|i: u32| i < count),
    {
        proof {
            lemma_low_mask(count, 0);
        }
        let bits: u32 = (1u32 << count) - 1;
        proof {
            assert forall|i: u32| #[trigger] bit_set(bits).contains(i) == (i < count) by {
                if i < 32 {
                    lemma_low_mask(count, i);
                }
            }
            assert(bit_set(bits) =~= Set::new(|i: u32| i < count));
        }
        Bits(bits)
    }

    pub fn set_bit(&self, bit: u32) -> (r: Bits)
        requires
            bit <= 31,
        ensures
            r@ == self@.insert(bit),
    {
        proof {
            lemma_bit_set_single(self.0, bit);
        }
        Bits(self.0 | 1u32 << bit)
    }

    pub fn except(&self, other: Bits) -> (r: Bits)
        ensures
            r@ == self@.difference(other@),
    {
        proof {
            lemma_bit_set_ops(self.0, other.0);
        }
        Bits(self.0 & !other.0)
    }

    pub fn except_bit(&self, bit: u32) -> (r: Bits)
        requires
            bit <= 31,
        ensures
            r@ == self@.remove(bit),
    {
        proof {
            lemma_bit_set_single(self.0, bit);
        }
        Bits(self.0 & !(1u32 << bit))
    }

    pub fn union(&self, other: Bits) -> (r: Bits)
        ensures
            r@ == self@.union(other@),
    {
        proof {
            lemma_bit_set_ops(self.0, other.0);
        }
        Bits(self.0 | other.0)
    }

    /// The index of the highest set bit, if any.
    pub fn highest_bit(&self) -> (r: Option<u32>)
        ensures
            r == (if self.items().len() == 0 {
                None::<u32>
            } else {
                Some(self.items().last())
            }),
    {
        highest_one_of(self.0)
    }

    /// The set bit indexes in increasing order.
    pub fn ones(&self) -> (r: Vec<u32>)
        ensures
            r@ == self.items(),
    {
        ones_of(self.0)
    }

    /// The number of set bits.
    pub fn count(&self) -> (r: u32)
        ensures
            r == self.items().len(),
    {
        count_ones_of(self.0)
    }

    /// The numbers below `2^32` with exactly `count` ones, smallest first.
    pub fn same_ones_count(count: u32) -> (r: SameSetBits)
        requires
            1 <= count <= 32,
        ensures
            r.remaining() == masks_below(0x1_0000_0000, count as nat),
            r.remaining().len() == crate::util::binomial(32, count as nat),
    {
        same_set_bits(count as u8)
    }

    /// Every subset of the set bits with `size` members, one for each number
    /// below `2^count` with `size` ones, in increasing order of those numbers.
    pub fn subsets_of_size(&self, size: u32) -> (r: Vec<Bits>)
        requires
            size <= 30,
            size > 0,
            self.items().len() >= size,
        ensures
            r@.len() == subsets_by_mask(self.items(), size as nat).len(),
            r@.len() == crate::util::binomial(self.items().len(), size as nat),
            forall|i: int| 0 <= i < r@.len() ==> #[trigger] r@[i]@ == subsets_by_mask(
                self.items(),
                size as nat,
            )[i],
            forall|i: int| 0 <= i < r@.len() ==> (#[trigger] r@[i])@.subset_of(self@) && r@[i]@.finite() && r@[i]@.len() == size,
            forall|i: int, j: int| 0 <= i < j < r@.len() ==> r@[i]@ != r@[j]@,
            forall|t: Set<u32>| t.subset_of(self@) && t.finite() && t.len() == size ==> exists|i: int| 0 <= i < r@.len() && #[trigger] r@[i]@ == t,
    {
        let items = ones_of(self.0);
        proof {
            lemma_ones(self.0);
        }
        let words = subset_words(&items, size);
        let mut r: Vec<Bits> = Vec::new();
        let mut i: usize = 0;
        while i < words.len()
            invariant
                i <= words.len(),
                words@.len() == subsets_by_mask(self.items(), size as nat).len(),
                forall|j: int| 0 <= j < words@.len() ==> bit_set(#[trigger] words@[j]) == subsets_by_mask(
                    self.items(),
                    size as nat,
                )[j],
                r@.len() == i,
                forall|j: int| 0 <= j < i ==> #[trigger] r@[j]@ == subsets_by_mask(
                    self.items(),
                    size as nat,
                )[j],
            decreases words.len() - i,
        {
            r.push(Bits(words[i]));
            i = i + 1;
        }
        proof {
            crate::subsets::lemma_subsets_by_mask_exact(self.items(), size as nat);
            lemma_ones(self.0);
            let subs = subsets_by_mask(self.items(), size as nat);
            assert forall|a: int| 0 <= a < r@.len() implies (#[trigger] r@[a])@.subset_of(self@) && r@[a]@.finite() && r@[a]@.len() == size by {
                assert(r@[a]@ == subs[a]);
            }
            assert forall|a: int, b: int| 0 <= a < b < r@.len() implies r@[a]@ != r@[b]@ by {
                assert(r@[a]@ == subs[a] && r@[b]@ == subs[b]);
            }
            assert forall|t: Set<u32>| t.subset_of(self@) && t.finite() && t.len() == size implies exists|a: int| 0 <= a < r@.len() && #[trigger] r@[a]@ == t by {
                assert(subs.contains(t));
                let a = choose|a: int| 0 <= a < subs.len() && subs[a] == t;
                assert(r@[a]@ == t);
            }
        }
        r
    }

    /// The set bit indexes in square brackets, such as `[0,4,15]`.
    pub fn to_string(&self) -> (r: String)
        ensures
            r@ == bracketed(self.items()),
    {
        let items = ones_of(self.0);
        bracketed_list(&items)
    }
}

} // verus!
