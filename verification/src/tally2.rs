use vstd::prelude::*;

verus! {

/// Counts of byte strings held in an `fnv_rs::FnvHashMap<Vec<u8>, u32>`.
#[verifier::external_body]
pub struct WordCounts {
    map: fnv_rs::FnvHashMap<Vec<u8>, u32>,
}

/// The counts held in a `WordCounts`.
pub uninterp spec fn word_counts(m: WordCounts) -> Map<Seq<u8>, u32>;

impl WordCounts {
    /// `FnvHashMap::default`: claims the new map is empty.
    #[verifier::external_body]
    pub fn new() -> (r: WordCounts)
        ensures
            word_counts(r).dom() == Set::<Seq<u8>>::empty(),
    {
        WordCounts { map: fnv_rs::FnvHashMap::default() }
    }

    /// `HashMap::get` on the fnv map, copied out: claims the result is the
    /// entry's count, or `None` without an entry.
    #[verifier::external_body]
    pub fn get(&self, key: &Vec<u8>) -> (r: Option<u32>)
        ensures
            r == (if word_counts(*self).dom().contains(key@) {
                Some(word_counts(*self)[key@])
            } else {
                None
            }),
    {
        self.map.get(key).copied()
    }

    /// `HashMap::insert` on the fnv map: claims the entry holds `value`
    /// afterwards and nothing else changes.
    #[verifier::external_body]
    pub fn insert(&mut self, key: Vec<u8>, value: u32)
        ensures
            word_counts(*final(self)) == word_counts(*old(self)).insert(key@, value),
    {
        self.map.insert(key, value);
    }
}

/// How many times each word, as a list of letter bytes, was counted.
pub struct Tally2(WordCounts);

impl Tally2 {
    /// The count of `w`; zero when it was never counted.
    pub closed spec fn count_of(self, w: Seq<u8>) -> nat {
        if word_counts(self.0).dom().contains(w) {
            word_counts(self.0)[w] as nat
        } else {
            0
        }
    }

    pub fn new() -> (r: Tally2)
        ensures
            forall|w: Seq<u8>| #[trigger] r.count_of(w) == 0,
    {
        Tally2(WordCounts::new())
    }

    /// Counts `item` once more and returns its new count.
    pub fn increment(&mut self, item: Vec<u8>) -> (r: u32)
        requires
            old(self).count_of(item@) < u32::MAX,
        ensures
            r == old(self).count_of(item@) + 1,
            final(self).count_of(item@) == r,
            forall|w: Seq<u8>| w != item@ ==> #[trigger] final(self).count_of(w) == old(self).count_of(w),
    {
        match self.0.get(&item) {
            None => {
                self.0.insert(item, 1);
                1
            },
            Some(count) => {
                let new_count = count + 1;
                self.0.insert(item, new_count);
                new_count
            },
        }
    }
}

/// Hashes the first four bytes of each write: the state turns left by a byte
/// and takes the next byte in.
pub struct ShortVecU8Hasher {
    state: u64,
}

/// The state after taking in the first four bytes (or fewer) of `bytes`.
pub open spec fn short_hash(state: u64, bytes: Seq<u8>) -> u64
    decreases bytes.len(),
{
    if bytes.len() == 0 {
        state
    } else {
        let n = if bytes.len() > 4 {
            4int
        } else {
            bytes.len() as int
        };
        let start = short_hash(state, bytes.take(n - 1));
        ((start << 8u64) | (start >> 56u64)) ^ (bytes[n - 1] as u64)
    }
}

impl ShortVecU8Hasher {
    /// The hash so far.
    pub closed spec fn value(self) -> u64 {
        self.state
    }

    /// Takes in the first four bytes of `bytes`.
    pub fn write(&mut self, bytes: &Vec<u8>)
        ensures
            final(self).value() == short_hash(old(self).value(), bytes@),
    {
        let n = if bytes.len() > 4 {
            4
        } else {
            bytes.len()
        };
        let ghost start = self.state;
        let mut i: usize = 0;
        while i < n
            invariant
                n <= 4,
                n <= bytes@.len(),
                n == (if bytes@.len() > 4 { 4 } else { bytes@.len() }),
                i <= n,
                self.state == short_hash(start, bytes@.take(i as int)),
            decreases n - i,
        {
            let s = self.state;
            self.state = ((s << 8u64) | (s >> 56u64)) ^ (bytes[i] as u64);
            proof {
                let t = bytes@.take(i + 1);
                assert(t.take(i as int) =~= bytes@.take(i as int));
                assert(t[i as int] == bytes@[i as int]);
            }
            i = i + 1;
        }
        proof {
            if bytes@.len() > 4 {
                lemma_short_hash_prefix(start, bytes@);
            } else {
                assert(bytes@.take(n as int) =~= bytes@);
            }
        }
    }

    /// The hash.
    pub fn finish(&self) -> (r: u64)
        ensures
            r == self.value(),
    {
        self.state
    }
}

/// Only the first four bytes count.
proof fn lemma_short_hash_prefix(state: u64, bytes: Seq<u8>)
    requires
        bytes.len() > 4,
    ensures
        short_hash(state, bytes) == short_hash(state, bytes.take(4)),
{
    let t = bytes.take(4);
    assert(t.take(3) =~= bytes.take(3));
    assert(t[3] == bytes[3]);
}

/// Builds hashers that start from zero.
pub struct BuildShortVecU8Hasher;

impl BuildShortVecU8Hasher {
    pub fn build_hasher(&self) -> (r: ShortVecU8Hasher)
        ensures
            r.value() == 0,
    {
        ShortVecU8Hasher { state: 0 }
    }
}

} // verus!
