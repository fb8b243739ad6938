use vstd::prelude::*;

use crate::bitset::{
    bit_set, count_ones_of, has_bit, highest_one_of, lemma_bit_ops, lemma_bit_set_injective,
    lemma_bit_set_ops, lemma_bit_set_single, lemma_drop_lowest, lemma_low_mask, lemma_ones,
    lowest_one_of, ones, ones_of, strictly_increasing,
};
use crate::popcount::masks_below;
use crate::subsets::{subset_words, subsets_by_mask};
use crate::text::{bracketed, bracketed_list};
use crate::util::{same_set_bits, SameSetBits};

verus! {

/// A set of the numbers 0 to 31, one bit per number.
#[derive(PartialEq, Eq, Structural, Debug, Clone, Copy)]
pub struct Set32(u32);

impl View for Set32 {
    type V = Set<u32>;

    closed spec fn view(&self) -> Set<u32> {
        bit_set(self.0)
    }
}

impl Set32 {
    /// The set with no members.
    pub fn empty() -> (r: Set32)
        ensures
            r@ == Set::<u32>::empty(),
            r.items() == Seq::<u32>::empty(),
    {
        proof {
            lemma_bit_set_ops(0, 0);
            lemma_ones(0);
            assert forall|i: u32| i < 32 implies !has_bit(0, i) by {
                lemma_bit_ops(0, 0, i);
            }
            if ones(0).len() > 0 {
                assert(ones(0).contains(ones(0)[0]));
            }
        }
        Set32(0)
    }

    pub const MAX_SIZE: u32 = 32;

    pub const MAX_ITEM_VALUE: u32 = 31;

    pub const MIN_ITEM_VALUE: u32 = 0;

    /// The members in increasing order.
    pub closed spec fn items(self) -> Seq<u32> {
        ones(self.0)
    }

    /// The members in increasing order are the members of the set, each once.
    pub proof fn lemma_items(self)
        ensures
            self.items().to_set() == self@,
            self.items().no_duplicates(),
            strictly_increasing(self.items()),
            self.items().len() <= 32,
            forall|k: int| 0 <= k < self.items().len() ==> #[trigger] self.items()[k] < 32,
            forall|i: u32| self@.contains(i) ==> i < 32,
            self@.finite(),
            self@.len() == self.items().len(),
    {
        lemma_ones(self.0);
        self.items().unique_seq_to_set();
    }

    /// Two sets with the same members are the same value.
    pub proof fn lemma_view_injective(a: Set32, b: Set32)
        requires
            a@ == b@,
        ensures
            a == b,
    {
        lemma_bit_set_injective(a.0, b.0);
    }

    /// The set of the numbers below `count`.
    pub fn fill(count: u32) -> (r: Set32)
        requires
            count <= 32,
        ensures
            r@ == Set::new(|i: u32| i < count),
    {
        let bits: u32 = if count == 32 {
            !0u32
        } else {
            proof {
                lemma_low_mask(count, 0);
            }
            (1u32 << count) - 1
        };
        proof {
            assert forall|i: u32| #[trigger] bit_set(bits).contains(i) == (i < count) by {
                if i < 32 {
                    if count == 32 {
                        lemma_bit_ops(0, 0, i);
                    } else {
                        lemma_low_mask(count, i);
                    }
                }
            }
            assert(bit_set(bits) =~= Set::new(|i: u32| i < count));
        }
        Set32(bits)
    }

    pub fn add(&self, bit: u32) -> (r: Set32)
        requires
            bit <= 31,
        ensures
            r@ == self@.insert(bit),
    {
        proof {
            lemma_bit_set_single(self.0, bit);
        }
        Set32(self.0 | 1u32 << bit)
    }

    pub fn singleton(bit: u32) -> (r: Set32)
        requires
            bit <= 31,
        ensures
            r@ == set![bit],
    {
        proof {
            lemma_bit_set_single(0, bit);
        }
        Set32(1u32 << bit)
    }

    pub fn contains(&self, bit: u32) -> (r: bool)
        requires
            bit <= 31,
        ensures
            r == self@.contains(bit),
    {
        proof {
            lemma_bit_set_single(self.0, bit);
        }
        self.0 & (1u32 << bit) != 0
    }

    pub fn count(&self) -> (r: usize)
        ensures
            r == self@.len(),
            r == self.items().len(),
    {
        proof {
            self.lemma_items();
        }
        count_ones_of(self.0) as usize
    }

    pub fn is_empty(&self) -> (r: bool)
        ensures
            r == (self@ == Set::<u32>::empty()),
    {
        proof {
            lemma_bit_set_ops(0, 0);
            if self@ == Set::<u32>::empty() {
                lemma_bit_set_injective(self.0, 0);
            }
        }
        self.0 == 0
    }

    pub fn difference(&self, other: Set32) -> (r: Set32)
        ensures
            r@ == self@.difference(other@),
    {
        proof {
            lemma_bit_set_ops(self.0, other.0);
        }
        Set32(self.0 & !other.0)
    }

    pub fn remove(&self, bit: u32) -> (r: Set32)
        requires
            bit <= 31,
        ensures
            r@ == self@.remove(bit),
    {
        proof {
            lemma_bit_set_single(self.0, bit);
        }
        Set32(self.0 & !(1u32 << bit))
    }

    pub fn union(&self, other: Set32) -> (r: Set32)
        ensures
            r@ == self@.union(other@),
    {
        proof {
            lemma_bit_set_ops(self.0, other.0);
        }
        Set32(self.0 | other.0)
    }

    pub fn intersect(&self, other: Set32) -> (r: Set32)
        ensures
            r@ == self@.intersect(other@),
    {
        proof {
            lemma_bit_set_ops(self.0, other.0);
        }
        Set32(self.0 & other.0)
    }

    /// The largest member, if any.
    pub fn max_item(&self) -> (r: Option<u32>)
        ensures
            r == (if self.items().len() == 0 {
                None::<u32>
            } else {
                Some(self.items().last())
            }),
            r is None <==> self@ == Set::<u32>::empty(),
            r matches Some(m) ==> self@.contains(m) && forall|i: u32| #[trigger]
                self@.contains(i) ==> i <= m,
    {
        proof {
            self.lemma_items();
            self.lemma_extremes();
        }
        highest_one_of(self.0)
    }

    /// The smallest member, if any.
    pub fn min_item(&self) -> (r: Option<u32>)
        ensures
            r == (if self.items().len() == 0 {
                None::<u32>
            } else {
                Some(self.items()[0])
            }),
            r is None <==> self@ == Set::<u32>::empty(),
            r matches Some(m) ==> self@.contains(m) && forall|i: u32| #[trigger]
                self@.contains(i) ==> m <= i,
    {
        proof {
            self.lemma_items();
            self.lemma_extremes();
        }
        lowest_one_of(self.0)
    }

    proof fn lemma_extremes(self)
        ensures
            self.items().len() == 0 <==> self@ == Set::<u32>::empty(),
            self.items().len() > 0 ==> self@.contains(self.items()[0]) && self@.contains(
                self.items().last(),
            ),
            self.items().len() > 0 ==> forall|i: u32| #[trigger]
                self@.contains(i) ==> self.items()[0] <= i <= self.items().last(),
    {
        self.lemma_items();
        let s = self.items();
        if s.len() == 0 {
            assert(self@ =~= Set::<u32>::empty());
        } else {
            assert(s.to_set().contains(s[0]));
            assert(s.to_set().contains(s.last()));
            assert forall|i: u32| #[trigger] self@.contains(i) implies s[0] <= i <= s.last() by {
                assert(s.to_set().contains(i));
                let k = choose|k: int| 0 <= k < s.len() && s[k] == i;
                if k > 0 {
                    assert(s[0] < s[k]);
                }
                if k < s.len() - 1 {
                    assert(s[k] < s[s.len() - 1]);
                }
            }
        }
    }

    /// The members in increasing order.
    pub fn to_vec(&self) -> (r: Vec<u32>)
        ensures
            r@ == self.items(),
    {
        ones_of(self.0)
    }

    /// Removes and returns the smallest member, if any.
    pub fn next(&mut self) -> (r: Option<u32>)
        ensures
            old(self).items().len() == 0 ==> r is None && *final(self) == *old(self),
            old(self).items().len() > 0 ==> r == Some(old(self).items()[0])
                && final(self).items() == old(self).items().drop_first(),
            final(self)@ == (match r {
                Some(m) => old(self)@.remove(m),
                None => old(self)@,
            }),
    {
        let first = lowest_one_of(self.0);
        match first {
            None => None,
            Some(m) => {
                let ghost before = self.0;
                proof {
                    lemma_ones(before);
                    lemma_bit_set_single(before, m);
                }
                self.0 = self.0 & !(1u32 << m);
                proof {
                    let after = self.0;
                    lemma_ones(after);
                    // the remaining members, in order
                    let s = ones(before);
                    let t = ones(after);
                    assert(bit_set(after) == bit_set(before).remove(m));
                    assert forall|i: u32| i < 32 implies has_bit(after, i) == (has_bit(before, i)
                        && i != m) by {
                        assert(bit_set(after).contains(i) == has_bit(after, i));
                        assert(bit_set(before).contains(i) == has_bit(before, i));
                    }
                    lemma_drop_lowest(before, after, m);
                }
                Some(m)
            }
        }
    }

    /// The numbers below `2^32` with exactly `count` ones, smallest first.
    pub fn same_ones_count(count: u32) -> (r: SameSetBits)
        requires
            1 <= count <= 32,
        ensures
            r.remaining() == masks_below(0x1_0000_0000, count as nat),
            r.remaining().len() == crate::util::binomial(32, count as nat),
    {
        same_set_bits(count as u8)
    }

    /// Every subset with `size` members: the members picked by each number below
    /// `2^count` with `size` ones, from the members in increasing order, in
    /// increasing order of those numbers.
    pub fn subsets_of_size(&self, size: u32) -> (r: Vec<Set32>)
        requires
            size <= 32,
            size > 0,
            self.items().len() >= size,
        ensures
            r@.len() == subsets_by_mask(self.items(), size as nat).len(),
            r@.len() == crate::util::binomial(self.items().len(), size as nat),
            forall|i: int| 0 <= i < r@.len() ==> #[trigger] r@[i]@ == subsets_by_mask(
                self.items(),
                size as nat,
            )[i],
            forall|i: int| 0 <= i < r@.len() ==> (#[trigger] r@[i])@.subset_of(self@) && r@[i]@.finite() && r@[i]@.len() == size,
            forall|i: int, j: int| 0 <= i < j < r@.len() ==> r@[i]@ != r@[j]@,
            forall|t: Set<u32>| t.subset_of(self@) && t.finite() && t.len() == size ==> exists|i: int| 0 <= i < r@.len() && #[trigger] r@[i]@ == t,
    {
        let items = ones_of(self.0);
        proof {
            lemma_ones(self.0);
        }
        let words = subset_words(&items, size);
        let mut r: Vec<Set32> = Vec::new();
        let mut i: usize = 0;
        while i < words.len()
            invariant
                i <= words.len(),
                words@.len() == subsets_by_mask(self.items(), size as nat).len(),
                forall|j: int| 0 <= j < words@.len() ==> bit_set(#[trigger] words@[j]) == subsets_by_mask(
                    self.items(),
                    size as nat,
                )[j],
                r@.len() == i,
                forall|j: int| 0 <= j < i ==> #[trigger] r@[j]@ == subsets_by_mask(
                    self.items(),
                    size as nat,
                )[j],
            decreases words.len() - i,
        {
            r.push(Set32(words[i]));
            i = i + 1;
        }
        proof {
            crate::subsets::lemma_subsets_by_mask_exact(self.items(), size as nat);
            self.lemma_items();
            let subs = subsets_by_mask(self.items(), size as nat);
            assert forall|a: int| 0 <= a < r@.len() implies (#[trigger] r@[a])@.subset_of(self@) && r@[a]@.finite() && r@[a]@.len() == size by {
                assert(r@[a]@ == subs[a]);
            }
            assert forall|a: int, b: int| 0 <= a < b < r@.len() implies r@[a]@ != r@[b]@ by {
                assert(r@[a]@ == subs[a] && r@[b]@ == subs[b]);
            }
            assert forall|t: Set<u32>| t.subset_of(self@) && t.finite() && t.len() == size implies exists|a: int| 0 <= a < r@.len() && #[trigger] r@[a]@ == t by {
                assert(subs.contains(t));
                let a = choose|a: int| 0 <= a < subs.len() && subs[a] == t;
                assert(r@[a]@ == t);
            }
        }
        r
    }

    /// The members in square brackets, such as `[0,4,15]`.
    pub fn to_string(&self) -> (r: String)
        ensures
            r@ == bracketed(self.items()),
    {
        let items = ones_of(self.0);
        bracketed_list(&items)
    }
}

} // verus!
