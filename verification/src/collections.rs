use vstd::prelude::*;

verus! {

/// A set of numbers held in a `hashbrown::HashSet<u32>`.
#[verifier::external_body]
pub struct NumberSet {
    set: hashbrown::HashSet<u32>,
}

/// The numbers in a `NumberSet`.
pub uninterp spec fn number_set_items(s: NumberSet) -> Set<u32>;

impl NumberSet {
    /// `hashbrown::HashSet::new`: the contract claims the new set is empty.
    #[verifier::external_body]
    pub fn new() -> (r: NumberSet)
        ensures
            number_set_items(r) == Set::<u32>::empty(),
    {
        NumberSet { set: hashbrown::HashSet::new() }
    }

    /// `hashbrown::HashSet::insert`: the contract claims the number is in the set
    /// afterwards, nothing else changes, and `true` comes back exactly when it was
    /// not in the set before. It does not unwind, for the reasons given at
    /// `NumberMap::insert`.
    #[verifier::external_body]
    pub fn insert(&mut self, value: u32) -> (r: bool)
        ensures
            number_set_items(*final(self)) == number_set_items(*old(self)).insert(value),
            r == !number_set_items(*old(self)).contains(value),
        no_unwind
    {
        self.set.insert(value)
    }

    /// `hashbrown::HashSet::remove`: the contract claims the number is not in the
    /// set afterwards, nothing else changes, and `true` comes back exactly when it
    /// was in the set before.
    #[verifier::external_body]
    pub fn remove(&mut self, value: u32) -> (r: bool)
        ensures
            number_set_items(*final(self)) == number_set_items(*old(self)).remove(value),
            r == number_set_items(*old(self)).contains(value),
    {
        self.set.remove(&value)
    }

    /// `hashbrown::HashSet::contains`: claims the answer is membership.
    #[verifier::external_body]
    pub fn contains(&self, value: u32) -> (r: bool)
        ensures
            r == number_set_items(*self).contains(value),
    {
        self.set.contains(&value)
    }

    /// `hashbrown::HashSet::len`: claims the result is its
    /// number of members.
    #[verifier::external_body]
    pub fn len(&self) -> (r: usize)
        ensures
            r == number_set_items(*self).len(),
    {
        self.set.len()
    }

    /// `hashbrown::HashSet::iter`, collected: claims every member comes out once.
    /// The order is the table's and is not stated.
    #[verifier::external_body]
    pub fn to_vec(&self) -> (r: Vec<u32>)
        ensures
            r@.to_set() == number_set_items(*self),
            r@.no_duplicates(),
    {
        self.set.iter().copied().collect()
    }
}

/// A map from numbers to numbers held in a `hashbrown::HashMap<u32, u32>`.
#[verifier::external_body]
pub struct NumberMap {
    map: hashbrown::HashMap<u32, u32>,
}

/// The entries of a `NumberMap`.
pub uninterp spec fn number_map_entries(m: NumberMap) -> Map<u32, u32>;

impl NumberMap {
    /// `hashbrown::HashMap::new`: claims the new map is empty.
    #[verifier::external_body]
    pub fn new() -> (r: NumberMap)
        ensures
            number_map_entries(r).dom() == Set::<u32>::empty(),
    {
        NumberMap { map: hashbrown::HashMap::new() }
    }

    /// `hashbrown::HashMap::get`, copied out: claims the result is the entry's
    /// value, or `None` without an entry.
    #[verifier::external_body]
    pub fn get(&self, key: u32) -> (r: Option<u32>)
        ensures
            r == (if number_map_entries(*self).dom().contains(key) {
                Some(number_map_entries(*self)[key])
            } else {
                None
            }),
    {
        self.map.get(&key).copied()
    }

    /// `hashbrown::HashMap::insert`: claims the entry holds `value` afterwards,
    /// nothing else changes, and the earlier value comes back. It does not
    /// unwind: a failed allocation aborts, and on a 64-bit target a table of
    /// at most 2^32 `u32` keys never reaches the capacity overflow that
    /// panics; on a 32-bit target that overflow comes only where the address
    /// space is exhausted, which is taken as running out of memory.
    #[verifier::external_body]
    pub fn insert(&mut self, key: u32, value: u32) -> (r: Option<u32>)
        ensures
            number_map_entries(*final(self)) == number_map_entries(*old(self)).insert(key, value),
            r == (if number_map_entries(*old(self)).dom().contains(key) {
                Some(number_map_entries(*old(self))[key])
            } else {
                None
            }),
        no_unwind
    {
        self.map.insert(key, value)
    }

    /// `hashbrown::HashMap::remove`: claims the entry is gone afterwards, nothing
    /// else changes, and its value comes back. Removing never allocates and does
    /// not unwind.
    #[verifier::external_body]
    pub fn remove(&mut self, key: u32) -> (r: Option<u32>)
        ensures
            number_map_entries(*final(self)) == number_map_entries(*old(self)).remove(key),
            r == (if number_map_entries(*old(self)).dom().contains(key) {
                Some(number_map_entries(*old(self))[key])
            } else {
                None
            }),
        no_unwind
    {
        self.map.remove(&key)
    }

    /// `hashbrown::HashMap::len`: claims the result is its
    /// number of entries.
    #[verifier::external_body]
    pub fn len(&self) -> (r: usize)
        ensures
            r == number_map_entries(*self).dom().len(),
    {
        self.map.len()
    }

    /// `hashbrown::HashMap::iter`, collected: claims every entry comes out once.
    /// The order is the table's and is not stated.
    #[verifier::external_body]
    pub fn entries(&self) -> (r: Vec<(u32, u32)>)
        ensures
            r@.map_values(|e: (u32, u32)| e.0).to_set() == number_map_entries(*self).dom(),
            r@.map_values(|e: (u32, u32)| e.0).no_duplicates(),
            forall|i: int| 0 <= i < r@.len() ==> #[trigger] number_map_entries(*self)[r@[i].0] == r@[i].1,
    {
        self.map.iter().map(|(k, v)| (*k, *v)).collect()
    }

    /// `Clone::clone` of the map: claims the copy has the same entries.
    #[verifier::external_body]
    pub fn duplicate(&self) -> (r: NumberMap)
        ensures
            number_map_entries(r) == number_map_entries(*self),
    {
        NumberMap { map: self.map.clone() }
    }
}

} // verus!
