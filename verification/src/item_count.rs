use vstd::prelude::*;

use crate::arrange::occurrences;
use crate::tally::Tally;

verus! {

/// How many of each number there are to arrange.
pub struct ItemCount(Tally);

/// Counts each number of `items`.
pub fn with_u32_groups(items: &Vec<u32>) -> (r: ItemCount)
    requires
        items@.len() <= u32::MAX,
    ensures
        forall|x: u32| #[trigger] r.count_of(x) == occurrences(items@, x),
{
    ItemCount(Tally::from_items(items))
}

impl ItemCount {
    /// The count of `x`.
    pub closed spec fn count_of(self, x: u32) -> nat {
        self.0.count_of(x)
    }

    /// `s` holds each number exactly as often as it is counted.
    pub open spec fn arranges(self, s: Seq<u32>) -> bool {
        forall|x: u32| #[trigger] occurrences(s, x) == self.count_of(x)
    }

    /// Each number `x` counted `n` times for each pair `(x, n)`.
    pub fn from_counts(counts: &Vec<(u32, u32)>) -> (r: ItemCount)
        requires
            forall|x: u32| #[trigger] crate::arrange::entry_count(counts@, x) <= u32::MAX,
        ensures
            forall|x: u32| #[trigger] r.count_of(x) == crate::arrange::entry_count(counts@, x),
    {
        ItemCount(Tally::from_pairs(counts))
    }

    /// Nothing is left to arrange.
    pub fn is_empty(&self) -> (r: bool)
        ensures
            r == forall|x: u32| #[trigger] self.count_of(x) == 0,
    {
        let r = self.0.is_empty();
        proof {
            assert(r == forall|x: u32| #[trigger] self.0.count_of(x) == 0);
            if r {
                assert forall|x: u32| #[trigger] self.count_of(x) == 0 by {
                    assert(self.0.count_of(x) == 0);
                }
            } else {
                let x = choose|x: u32| #[trigger] self.0.count_of(x) != 0;
                assert(self.count_of(x) != 0);
            }
        }
        r
    }

    /// Each number that can come next, with what is left after it.
    pub fn parts(&self) -> (r: Vec<(u32, ItemCount)>)
        ensures
            forall|x: u32| self.count_of(x) > 0 <==> exists|i: int| 0 <= i < r@.len() && (#[trigger] r@[i]).0 == x,
            forall|i: int, j: int| 0 <= i < j < r@.len() ==> r@[i].0 != r@[j].0,
            forall|i: int, y: u32| 0 <= i < r@.len() ==> #[trigger] r@[i].1.count_of(y) == self.count_of(y) - if y == r@[i].0 {
                1int
            } else {
                0int
            },
    {
        let entries = self.0.entries();
        let mut result: Vec<(u32, ItemCount)> = Vec::new();
        let mut i: usize = 0;
        while i < entries.len()
            invariant
                i <= entries@.len(),
                crate::arrange::valid_entries(entries@),
                forall|x: u32| #[trigger] crate::arrange::entry_count(entries@, x) == self.count_of(x),
                result@.len() == i,
                forall|k: int| 0 <= k < i ==> (#[trigger] result@[k]).0 == entries@[k].0,
                forall|k: int, y: u32| 0 <= k < i ==> #[trigger] result@[k].1.count_of(y) == self.count_of(y) - if y == result@[k].0 {
                    1int
                } else {
                    0int
                },
            decreases entries@.len() - i,
        {
            let (k, _) = entries[i];
            proof {
                crate::arrange::lemma_entry_count_at(entries@, k);
            }
            let mut rest = self.0.duplicate();
            rest.decrement(k);
            result.push((k, ItemCount(rest)));
            proof {
                assert(result@[i as int].0 == k);
            }
            i = i + 1;
        }
        proof {
            assert forall|x: u32| self.count_of(x) > 0 <==> exists|i: int| 0 <= i < result@.len() && (#[trigger] result@[i]).0 == x by {
                crate::arrange::lemma_entry_count_at(entries@, x);
                if self.count_of(x) > 0 {
                    crate::arrange::lemma_entry_count_positive(entries@, x);
                    let j = choose|j: int| 0 <= j < entries@.len() && entries@[j].0 == x;
                    assert(result@[j].0 == x);
                }
                if exists|i: int| 0 <= i < result@.len() && (#[trigger] result@[i]).0 == x {
                    let i = choose|i: int| 0 <= i < result@.len() && (#[trigger] result@[i]).0 == x;
                    assert(entries@[i].0 == x);
                }
            }
        }
        result
    }

    /// Every distinct ordering of the numbers, each once; as many as the
    /// multinomial coefficient of the counts.
    pub fn permute(&self) -> (r: Vec<Vec<u32>>)
        ensures
            forall|s: Seq<u32>| self.arranges(s) <==> exists|i: int| 0 <= i < r@.len() && #[trigger] r@[i]@ == s,
            forall|i: int, j: int| 0 <= i < j < r@.len() ==> r@[i]@ != r@[j]@,
            exists|e: Seq<(u32, u32)>| crate::arrange::valid_entries(e) && (forall|x: u32| #[trigger] crate::arrange::entry_count(e, x) == self.count_of(x))
                && r@.len() * crate::arrange::count_factorials(e) == crate::util::factorial_spec(crate::arrange::entry_total(e)),
    {
        let r = self.0.combinations();
        proof {
            assert forall|s: Seq<u32>| self.arranges(s) == self.0.arranges(s) by {}
            let e = choose|e: Seq<(u32, u32)>| #[trigger] self.0.listed_by(e)
                && r@.len() * crate::arrange::count_factorials(e) == crate::util::factorial_spec(crate::arrange::entry_total(e));
            assert(forall|x: u32| #[trigger] crate::arrange::entry_count(e, x) == self.count_of(x));
        }
        r
    }
}

} // verus!
