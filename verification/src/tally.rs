use vstd::prelude::*;

use crate::arrange::{
    arrangements, count_factorials, entry_count, entry_total, is_arrangement_of,
    lemma_entry_count_at, lemma_occurrences_push, occurrences, valid_entries,
};
use crate::util::factorial_spec;
use crate::collections::{number_map_entries, NumberMap};

verus! {

/// How many times each number has been counted. Only numbers with a positive
/// count are held.
pub struct Tally {
    map: NumberMap,
}

impl Tally {
    #[verifier::type_invariant]
    spec fn counts_positive(self) -> bool {
        forall|k: u32| #[trigger] number_map_entries(self.map).dom().contains(k) ==> number_map_entries(self.map)[k] > 0
    }

    /// The count of `x`; zero when it was never counted.
    pub closed spec fn count_of(self, x: u32) -> nat {
        if number_map_entries(self.map).dom().contains(x) {
            number_map_entries(self.map)[x] as nat
        } else {
            0
        }
    }

    /// The numbers with a positive count.
    pub closed spec fn items(self) -> Set<u32> {
        number_map_entries(self.map).dom()
    }

    pub fn new() -> (r: Tally)
        ensures
            forall|x: u32| #[trigger] r.count_of(x) == 0,
    {
        Tally { map: NumberMap::new() }
    }

    /// No number has a positive count.
    pub fn is_empty(&self) -> (r: bool)
        ensures
            r == forall|x: u32| #[trigger] self.count_of(x) == 0,
    {
        let e = self.entries();
        proof {
            if e@.len() > 0 {
                lemma_entry_count_at(e@, e@[0].0);
                assert(self.count_of(e@[0].0) > 0);
            } else {
                assert forall|x: u32| #[trigger] self.count_of(x) == 0 by {
                    assert(entry_count(e@, x) == 0);
                }
            }
        }
        e.len() == 0
    }

    /// A copy with the same counts.
    pub fn duplicate(&self) -> (r: Tally)
        ensures
            forall|x: u32| #[trigger] r.count_of(x) == self.count_of(x),
            r.items() == self.items(),
    {
        proof {
            use_type_invariant(self);
        }
        Tally { map: self.map.duplicate() }
    }

    /// The counted numbers with their counts, each number once, in no stated
    /// order.
    pub fn entries(&self) -> (r: Vec<(u32, u32)>)
        ensures
            valid_entries(r@),
            forall|x: u32| #[trigger] entry_count(r@, x) == self.count_of(x),
            forall|x: u32| #[trigger] self.items().contains(x) <==> exists|i: int| 0 <= i < r@.len() && r@[i].0 == x,
    {
        proof {
            use_type_invariant(self);
        }
        let entries = self.map.entries();
        let ghost keys = entries@.map_values(|e: (u32, u32)| e.0);
        proof {
            assert forall|i: int, j: int| 0 <= i < j < entries@.len() implies entries@[i].0 != entries@[j].0 by {
                assert(keys[i] == entries@[i].0 && keys[j] == entries@[j].0);
            }
            assert forall|i: int| 0 <= i < entries@.len() implies entries@[i].1 > 0 by {
                assert(keys[i] == entries@[i].0);
                assert(keys.to_set().contains(keys[i]));
            }
            assert forall|x: u32| #[trigger] entry_count(entries@, x) == self.count_of(x) by {
                lemma_entry_count_at(entries@, x);
                if number_map_entries(self.map).dom().contains(x) {
                    assert(keys.to_set().contains(x));
                    let j = choose|j: int| 0 <= j < keys.len() && keys[j] == x;
                    assert(entries@[j].0 == x);
                } else {
                    assert forall|j: int| 0 <= j < entries@.len() implies entries@[j].0 != x by {
                        assert(keys[j] == entries@[j].0);
                        assert(keys.to_set().contains(keys[j]));
                    }
                }
            }
            assert forall|x: u32| #[trigger] self.items().contains(x) <==> exists|i: int| 0 <= i < entries@.len() && entries@[i].0 == x by {
                if self.items().contains(x) {
                    assert(keys.to_set().contains(x));
                    let j = choose|j: int| 0 <= j < keys.len() && keys[j] == x;
                    assert(entries@[j].0 == x);
                }
                if exists|i: int| 0 <= i < entries@.len() && entries@[i].0 == x {
                    let i = choose|i: int| 0 <= i < entries@.len() && entries@[i].0 == x;
                    assert(keys[i] == x);
                    assert(keys.to_set().contains(x));
                }
            }
        }
        entries
    }

    /// Counts `item` `n` more times and returns its new count.
    pub fn increment_by(&mut self, item: u32, n: u32) -> (r: u32)
        requires
            old(self).count_of(item) + n <= u32::MAX,
        ensures
            r == old(self).count_of(item) + n,
            final(self).count_of(item) == r,
            forall|x: u32| x != item ==> #[trigger] final(self).count_of(x) == old(self).count_of(x),
    {
        proof {
            use_type_invariant(&*self);
        }
        match self.map.get(item) {
            None => {
                if n > 0 {
                    self.map.insert(item, n);
                    n
                } else {
                    0
                }
            },
            Some(count) => {
                let new_count = count + n;
                self.map.insert(item, new_count);
                new_count
            },
        }
    }

    /// Counts `item` once more and returns its new count.
    pub fn increment(&mut self, item: u32) -> (r: u32)
        requires
            old(self).count_of(item) < u32::MAX,
        ensures
            r == old(self).count_of(item) + 1,
            final(self).count_of(item) == r,
            forall|x: u32| x != item ==> #[trigger] final(self).count_of(x) == old(self).count_of(x),
    {
        self.increment_by(item, 1)
    }

    /// The count of `item`.
    pub fn count(&self, item: u32) -> (r: u32)
        ensures
            r == self.count_of(item),
    {
        match self.map.get(item) {
            None => 0,
            Some(count) => count,
        }
    }

    /// `item` has a positive count.
    pub fn contains(&self, item: u32) -> (r: bool)
        ensures
            r == (self.count_of(item) > 0),
    {
        proof {
            use_type_invariant(self);
        }
        match self.map.get(item) {
            None => false,
            Some(_) => true,
        }
    }

    /// How many different numbers have a positive count.
    pub fn len(&self) -> (r: usize)
        ensures
            r == self.items().len(),
    {
        self.map.len()
    }

    /// Counts `item` `n` fewer times and returns its new count.
    pub fn decrement_by(&mut self, item: u32, n: u32) -> (r: u32)
        requires
            n <= old(self).count_of(item),
        ensures
            r == old(self).count_of(item) - n,
            final(self).count_of(item) == r,
            forall|x: u32| x != item ==> #[trigger] final(self).count_of(x) == old(self).count_of(x),
    {
        proof {
            use_type_invariant(&*self);
        }
        match self.map.get(item) {
            None => 0,
            Some(count) => {
                if n < count {
                    let new_count = count - n;
                    self.map.insert(item, new_count);
                    new_count
                } else {
                    self.map.remove(item);
                    0
                }
            },
        }
    }

    /// Counts `item` once fewer and returns its new count.
    pub fn decrement(&mut self, item: u32) -> (r: u32)
        requires
            old(self).count_of(item) >= 1,
        ensures
            r == old(self).count_of(item) - 1,
            final(self).count_of(item) == r,
            forall|x: u32| x != item ==> #[trigger] final(self).count_of(x) == old(self).count_of(x),
    {
        self.decrement_by(item, 1)
    }

    /// `s` holds each number exactly as often as the tally counts it.
    pub open spec fn arranges(self, s: Seq<u32>) -> bool {
        forall|x: u32| #[trigger] occurrences(s, x) == self.count_of(x)
    }

    /// The counts, listed as entries.
    pub open spec fn listed_by(self, e: Seq<(u32, u32)>) -> bool {
        valid_entries(e) && forall|x: u32| #[trigger] entry_count(e, x) == self.count_of(x)
    }

    /// Every distinct ordering of the counted numbers, each once. For example,
    /// when 2 is counted twice and 7 once, the orderings are 2,2,7; 2,7,2 and
    /// 7,2,2. An empty tally has one ordering, the empty one. There are as many
    /// as the multinomial coefficient: the factorial of the total count over
    /// the product of the factorials of the counts.
    pub fn combinations(&self) -> (r: Vec<Vec<u32>>)
        ensures
            forall|s: Seq<u32>|
                self.arranges(s) <==> exists|i: int| 0 <= i < r@.len() && #[trigger] r@[i]@ == s,
            forall|i: int, j: int| 0 <= i < j < r@.len() ==> r@[i]@ != r@[j]@,
            exists|e: Seq<(u32, u32)>| #[trigger] self.listed_by(e)
                && r@.len() * count_factorials(e) == factorial_spec(entry_total(e)),
    {
        let entries = self.entries();
        proof {
            assert forall|s: Seq<u32>| self.arranges(s) == is_arrangement_of(s, entries@) by {
                if is_arrangement_of(s, entries@) {
                    assert forall|x: u32| #[trigger] occurrences(s, x) == self.count_of(x) by {
                        assert(entry_count(entries@, x) == self.count_of(x));
                    }
                }
                if self.arranges(s) {
                    assert forall|x: u32| occurrences(s, x) == entry_count(entries@, x) by {
                        assert(entry_count(entries@, x) == self.count_of(x));
                        assert(occurrences(s, x) == self.count_of(x));
                    }
                }
            }
        }
        let r = arrangements(&entries);
        proof {
            assert(self.listed_by(entries@));
        }
        r
    }

    /// Counts each number of `items` once per occurrence.
    pub fn from_items(items: &Vec<u32>) -> (r: Tally)
        requires
            items.len() <= u32::MAX,
        ensures
            forall|x: u32| #[trigger] r.count_of(x) == occurrences(items@, x),
    {
        let mut tally = Tally::new();
        let mut i: usize = 0;
        while i < items.len()
            invariant
                i <= items.len() <= u32::MAX,
                forall|x: u32| #[trigger] tally.count_of(x) == occurrences(items@.take(i as int), x),
            decreases items.len() - i,
        {
            proof {
                assert(items@.take(i + 1) =~= items@.take(i as int).push(items@[i as int]));
                lemma_occurrences_bound(items@.take(i as int), items@[i as int]);
                assert forall|x: u32| occurrences(items@.take(i + 1), x) == occurrences(items@.take(i as int), x)
                    + if items@[i as int] == x { 1nat } else { 0nat } by {
                    lemma_occurrences_push(items@.take(i as int), items@[i as int], x);
                }
            }
            tally.increment(items[i]);
            i = i + 1;
        }
        proof {
            assert(items@.take(items.len() as int) =~= items@);
        }
        tally
    }

    /// Counts each number by the counts paired with it; a number listed more
    /// than once gets the sum of its counts.
    pub fn from_pairs(pairs: &Vec<(u32, u32)>) -> (r: Tally)
        requires
            forall|x: u32| #[trigger] entry_count(pairs@, x) <= u32::MAX,
        ensures
            forall|x: u32| #[trigger] r.count_of(x) == entry_count(pairs@, x),
    {
        let mut tally = Tally::new();
        let mut i: usize = 0;
        while i < pairs.len()
            invariant
                i <= pairs.len(),
                forall|x: u32| #[trigger] entry_count(pairs@, x) <= u32::MAX,
                forall|x: u32| #[trigger] tally.count_of(x) == entry_count(pairs@.take(i as int), x),
            decreases pairs.len() - i,
        {
            let (k, n) = pairs[i];
            proof {
                assert(pairs@.take(i + 1).drop_last() =~= pairs@.take(i as int));
                lemma_entry_count_prefix(pairs@, i + 1, k);
            }
            if n > 0 {
                tally.increment_by(k, n);
            }
            i = i + 1;
        }
        proof {
            assert(pairs@.take(pairs.len() as int) =~= pairs@);
        }
        tally
    }
}

proof fn lemma_occurrences_bound(s: Seq<u32>, x: u32)
    ensures
        occurrences(s, x) <= s.len(),
    decreases s.len(),
{
    if s.len() > 0 {
        lemma_occurrences_bound(s.drop_last(), x);
    }
}

proof fn lemma_entry_count_prefix(e: Seq<(u32, u32)>, n: int, x: u32)
    requires
        0 <= n <= e.len(),
    ensures
        entry_count(e.take(n), x) <= entry_count(e, x),
    decreases e.len() - n,
{
    if n < e.len() {
        lemma_entry_count_prefix(e, n + 1, x);
        assert(e.take(n + 1).drop_last() =~= e.take(n));
    } else {
        assert(e.take(n) =~= e);
    }
}

} // verus!
