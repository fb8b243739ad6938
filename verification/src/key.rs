use vstd::prelude::*;
use vstd::string::*;

use crate::bitset::{
    bit_set, count_ones_of, has_bit, highest_one_of, lemma_bit_set_injective,
    lemma_bit_set_ops, lemma_bit_set_single, lemma_letter_word, lemma_letter_words,
    lemma_low_mask, lemma_ones, lowest_one_of, ones, ones_of,
};
use crate::letter::{char_index, is_letter_char, letter_char, Letter};
use crate::prohibited::{allows, Prohibited};
use crate::random::{gen_range_inclusive, random_usize};
use crate::subsets::{subset_words, subsets_by_mask};
use crate::text::push_char;

verus! {

/// The letter indexes of the characters of a string.
pub open spec fn char_indexes(s: Seq<char>) -> Set<u32> {
    s.map_values(|c: char| char_index(c)).to_set()
}

/// Every character of the string is a letter.
pub open spec fn all_letters(s: Seq<char>) -> bool {
    forall|k: int| 0 <= k < s.len() ==> is_letter_char(#[trigger] s[k])
}

/// The characters of letter indexes.
pub open spec fn letter_chars(items: Seq<u32>) -> Seq<char> {
    items.map_values(|i: u32| letter_char(i))
}

/// A key: a set of letters, one bit per letter of the alphabet.
#[derive(PartialEq, Eq, Structural, PartialOrd, Ord, Debug, Clone, Copy, Hash)]
pub struct Key(u32);

impl View for Key {
    type V = Set<u32>;

    closed spec fn view(&self) -> Set<u32> {
        bit_set(self.0)
    }
}

impl Key {
    #[verifier::type_invariant]
    spec fn inv(self) -> bool {
        self.0 < 0x800_0000
    }

    /// The maximum number of letters on a key.
    pub const MAX_SIZE: u8 = 27;

    /// The letter indexes on the key, in increasing order.
    pub closed spec fn items(self) -> Seq<u32> {
        ones(self.0)
    }

    /// The number the key is stored as.
    pub closed spec fn bits(self) -> u32 {
        self.0
    }

    /// The letters in increasing order are the letters of the key, each once,
    /// all below the size of the alphabet.
    pub proof fn lemma_items(self)
        ensures
            self.items().to_set() == self@,
            self.items().no_duplicates(),
            forall|a: int, b: int|
                0 <= a < b < self.items().len() ==> self.items()[a] < self.items()[b],
            self.items().len() <= 32,
            self@.finite(),
            self@.len() == self.items().len(),
            forall|i: u32| self@.contains(i) <==> self.items().contains(i),
            forall|i: u32| self@.contains(i) <==> has_bit(self.bits(), i),
    {
        lemma_ones(self.0);
        self.items().unique_seq_to_set();
    }

    /// Two keys stored as the same number are the same key.
    pub proof fn lemma_bits_injective(a: Key, b: Key)
        requires
            a.bits() == b.bits(),
        ensures
            a == b,
    {
    }

    /// Two keys with the same letters are the same key.
    pub proof fn lemma_view_injective(a: Key, b: Key)
        requires
            a@ == b@,
        ensures
            a == b,
    {
        lemma_bit_set_injective(a.0, b.0);
    }

    /// The letters of a key are letters of the alphabet.
    pub fn lemma_letters_in_alphabet(&self)
        ensures
            forall|i: u32| #[trigger] self@.contains(i) ==> i < 27,
            self.items().len() <= 27,
    {
        proof {
            use_type_invariant(self);
            assert forall|i: u32| #[trigger] self@.contains(i) implies i < 27 by {
                lemma_letter_word(self.0, i);
            }
            lemma_ones(self.0);
            let s = self.items();
            let full = Set::new(|i: u32| i < 27);
            assert forall|i: u32| s.to_set().contains(i) implies full.contains(i) by {
                assert(self@.contains(i));
            }
            assert(s.to_set().subset_of(full));
            s.unique_seq_to_set();
            lemma_range_set_len(27);
            vstd::set_lib::lemma_len_subset(s.to_set(), full);
        }
    }

    /// The key with no letters.
    pub fn empty() -> (r: Key)
        ensures
            r@ == Set::<u32>::empty(),
    {
        proof {
            lemma_bit_set_ops(0, 0);
        }
        Key(0)
    }

    /// The key with the letters of the string. Every character must be a letter.
    pub fn new(letters: &str) -> (r: Key)
        requires
            all_letters(letters@),
        ensures
            r@ == char_indexes(letters@),
    {
        Key::from_str(letters).unwrap()
    }

    /// The key with the letters of the string, or an error when a character is
    /// not a letter.
    pub fn from_str(value: &str) -> (r: Result<Key, &'static str>)
        ensures
            r is Ok <==> all_letters(value@),
            r matches Ok(k) ==> k@ == char_indexes(value@),
    {
        let n = value.unicode_len();
        let mut key = Key::empty();
        let mut i: usize = 0;
        while i < n
            invariant
                n == value@.len(),
                i <= n,
                all_letters(value@.subrange(0, i as int)),
                key@ == char_indexes(value@.subrange(0, i as int)),
            decreases n - i,
        {
            let c = value.get_char(i);
            let res = Letter::from_char(c);
            match res {
                Err(e) => {
                    proof {
                        assert(!(res is Ok));
                        assert(!is_letter_char(c));
                        assert(value@[i as int] == c);
                        assert(!all_letters(value@));
                    }
                    return Err(e);
                },
                Ok(letter) => {
                    key = key.add(letter);
                    proof {
                        let prev = value@.subrange(0, i as int);
                        let next = value@.subrange(0, i as int + 1);
                        assert(next == prev.push(c));
                        assert(next.map_values(|c: char| char_index(c)) =~= prev.map_values(
                            |c: char| char_index(c),
                        ).push(char_index(c)));
                        prev.map_values(|c: char| char_index(c)).lemma_push_to_set_commute(
                            char_index(c),
                        );
                        assert forall|k: int| 0 <= k < next.len() implies is_letter_char(
                            #[trigger] next[k],
                        ) by {
                            if k < i {
                                assert(next[k] == prev[k]);
                            }
                        }
                    }
                },
            }
            i = i + 1;
        }
        proof {
            assert(value@.subrange(0, n as int) =~= value@);
        }
        Ok(key)
    }

    pub fn with_every_letter() -> (r: Key)
        ensures
            r@ == Set::new(|i: u32| i < 27),
    {
        Key::with_first_n_letters(27)
    }

    /// The key with the first `count` letters of the alphabet.
    pub fn with_first_n_letters(count: u8) -> (r: Key)
        requires
            count <= 27,
        ensures
            r@ == Set::new(|i: u32| i < count),
    {
        proof {
            lemma_low_mask(count as u32, 0);
            assert(count <= 27 ==> ((1u32 << count as u32) - 1) as u32 <= 0x7ff_ffffu32)
                by (bit_vector);
        }
        let bits: u32 = (1u32 << (count as u32)) - 1;
        proof {
            assert forall|i: u32| #[trigger] bit_set(bits).contains(i) == (i < count) by {
                if i < 32 {
                    lemma_low_mask(count as u32, i);
                }
            }
            assert(bit_set(bits) =~= Set::new(|i: u32| i < count));
        }
        Key(bits)
    }

    /// The number the key is stored as: bit `i` is set for the letter with index `i`.
    pub fn to_u32(&self) -> (r: u32)
        ensures
            r == self.bits(),
            bit_set(r) == self@,
            r < 0x800_0000,
    {
        proof {
            use_type_invariant(self);
        }
        self.0
    }

    /// The key whose letters are the set bits of `w`, which holds no bit
    /// above the alphabet.
    pub fn from_word(w: u32) -> (r: Key)
        requires
            w < 0x800_0000,
        ensures
            r.bits() == w,
            r@ == bit_set(w),
    {
        Key(w)
    }

    pub fn with_one_letter(r: Letter) -> (k: Key)
        ensures
            k@ == set![r.index()],
    {
        Key::empty().add(r)
    }

    /// Each letter of the key on a key of its own, in increasing order.
    pub fn split_by_letter(&self) -> (r: Vec<Key>)
        ensures
            r@.len() == self.items().len(),
            forall|k: int| 0 <= k < r@.len() ==> #[trigger] r@[k]@ == set![self.items()[k]],
    {
        let letters = self.letters();
        let mut r: Vec<Key> = Vec::new();
        let mut i: usize = 0;
        while i < letters.len()
            invariant
                i <= letters.len(),
                letters@.len() == self.items().len(),
                forall|k: int| 0 <= k < letters@.len() ==> #[trigger] letters@[k].index()
                    == self.items()[k],
                r@.len() == i,
                forall|k: int| 0 <= k < i ==> #[trigger] r@[k]@ == set![self.items()[k]],
            decreases letters.len() - i,
        {
            r.push(Key::with_one_letter(letters[i]));
            i = i + 1;
        }
        r
    }

    pub fn add(&self, r: Letter) -> (k: Key)
        ensures
            k@ == self@.insert(r.index()),
    {
        proof {
            use_type_invariant(self);
        }
        let i = r.to_u32();
        proof {
            lemma_bit_set_single(self.0, i);
            lemma_letter_word(self.0, i);
        }
        Key(self.0 | 1u32 << i)
    }

    pub fn remove(&self, r: Letter) -> (k: Key)
        ensures
            k@ == self@.remove(r.index()),
    {
        proof {
            use_type_invariant(self);
        }
        let i = r.to_u32();
        proof {
            lemma_bit_set_single(self.0, i);
            lemma_letter_word(self.0, i);
        }
        Key(self.0 & !(1u32 << i))
    }

    pub fn contains(&self, r: Letter) -> (b: bool)
        ensures
            b == self@.contains(r.index()),
    {
        let i = r.to_u32();
        proof {
            lemma_bit_set_single(self.0, i);
        }
        self.0 & (1u32 << i) != 0
    }

    /// Every letter of `other` is on this key.
    pub fn contains_all(&self, other: &Key) -> (b: bool)
        ensures
            b == other@.subset_of(self@),
    {
        let both = self.intersect(*other);
        proof {
            if other@.subset_of(self@) {
                assert(both@ =~= other@);
                Key::lemma_view_injective(both, *other);
            }
        }
        both == *other
    }

    /// The number of letters on the key.
    pub fn count_letters(&self) -> (r: u8)
        ensures
            r == self@.len(),
            r == self.items().len(),
            r <= 27,
    {
        proof {
            self.lemma_items();
        }
        self.lemma_letters_in_alphabet();
        count_ones_of(self.0) as u8
    }

    pub fn len(&self) -> (r: u8)
        ensures
            r == self@.len(),
            r == self.items().len(),
            r <= 27,
    {
        self.count_letters()
    }

    pub fn is_empty(&self) -> (b: bool)
        ensures
            b == (self@ == Set::<u32>::empty()),
    {
        proof {
            lemma_bit_set_ops(0, 0);
            if self@ == Set::<u32>::empty() {
                lemma_bit_set_injective(self.0, 0);
            }
        }
        self.0 == 0
    }

    pub fn except(&self, other: Key) -> (r: Key)
        ensures
            r@ == self@.difference(other@),
    {
        proof {
            use_type_invariant(self);
            lemma_bit_set_ops(self.0, other.0);
            lemma_letter_words(self.0, other.0);
        }
        Key(self.0 & !other.0)
    }

    pub fn union(&self, other: Key) -> (r: Key)
        ensures
            r@ == self@.union(other@),
    {
        proof {
            use_type_invariant(self);
            use_type_invariant(&other);
            lemma_bit_set_ops(self.0, other.0);
            lemma_letter_words(self.0, other.0);
        }
        Key(self.0 | other.0)
    }

    pub fn intersect(&self, other: Key) -> (r: Key)
        ensures
            r@ == self@.intersect(other@),
    {
        proof {
            use_type_invariant(self);
            lemma_bit_set_ops(self.0, other.0);
            lemma_letter_words(self.0, other.0);
        }
        Key(self.0 & other.0)
    }

    /// Some prohibited group of letters lies within this key.
    pub fn is_prohibited(&self, prohibited: &Prohibited) -> (r: bool)
        ensures
            r == !allows(prohibited.groups(), self@),
    {
        !prohibited.is_allowed(*self)
    }

    /// No prohibited group of letters lies within this key.
    pub fn is_allowed(&self, prohibited: &Prohibited) -> (r: bool)
        ensures
            r == allows(prohibited.groups(), self@),
    {
        prohibited.is_allowed(*self)
    }

    /// The letter with the highest index, if any.
    pub fn max_letter(&self) -> (r: Option<Letter>)
        ensures
            r is None <==> self.items().len() == 0,
            r matches Some(l) ==> l.index() == self.items().last(),
    {
        self.lemma_letters_in_alphabet();
        proof {
            self.lemma_items();
        }
        match highest_one_of(self.0) {
            None => None,
            Some(m) => {
                proof {
                    assert(self.items().contains(m));
                }
                match Letter::from_u32(m) {
                    Ok(l) => Some(l),
                    Err(_) => None,
                }
            },
        }
    }

    /// The letter with the lowest index, if any.
    pub fn min_letter(&self) -> (r: Option<Letter>)
        ensures
            r is None <==> self.items().len() == 0,
            r matches Some(l) ==> l.index() == self.items()[0],
    {
        self.lemma_letters_in_alphabet();
        proof {
            self.lemma_items();
        }
        match lowest_one_of(self.0) {
            None => None,
            Some(m) => {
                proof {
                    assert(self.items().contains(m));
                }
                match Letter::from_u32(m) {
                    Ok(l) => Some(l),
                    Err(_) => None,
                }
            },
        }
    }

    /// The letters of the key in increasing order.
    pub fn letters(&self) -> (r: Vec<Letter>)
        ensures
            r@.len() == self.items().len(),
            forall|k: int| 0 <= k < r@.len() ==> #[trigger] r@[k].index() == self.items()[k],
    {
        self.lemma_letters_in_alphabet();
        proof {
            self.lemma_items();
        }
        let items = ones_of(self.0);
        proof {
            assert forall|j: int| 0 <= j < items@.len() implies #[trigger] items@[j] < 27 by {
                assert(self.items().contains(items@[j]));
            }
        }
        let mut r: Vec<Letter> = Vec::new();
        let mut i: usize = 0;
        while i < items.len()
            invariant
                i <= items.len(),
                items@ == self.items(),
                forall|j: int| 0 <= j < items@.len() ==> #[trigger] items@[j] < 27,
                r@.len() == i,
                forall|k: int| 0 <= k < i ==> #[trigger] r@[k].index() == self.items()[k],
            decreases items.len() - i,
        {
            match Letter::from_u32(items[i]) {
                Ok(l) => r.push(l),
                Err(_) => {},
            }
            i = i + 1;
        }
        r
    }

    /// The key with the letters of the list.
    pub fn from_letters(letters: &Vec<Letter>) -> (r: Key)
        ensures
            r@ == letters@.map_values(|l: Letter| l.index()).to_set(),
    {
        let mut r = Key::empty();
        let mut i: usize = 0;
        while i < letters.len()
            invariant
                i <= letters.len(),
                r@ == letters@.subrange(0, i as int).map_values(|l: Letter| l.index()).to_set(),
            decreases letters.len() - i,
        {
            r = r.add(letters[i]);
            proof {
                let prev = letters@.subrange(0, i as int);
                let next = letters@.subrange(0, i as int + 1);
                assert(next.map_values(|l: Letter| l.index()) =~= prev.map_values(
                    |l: Letter| l.index(),
                ).push(letters@[i as int].index()));
                prev.map_values(|l: Letter| l.index()).lemma_push_to_set_commute(
                    letters@[i as int].index(),
                );
            }
            i = i + 1;
        }
        proof {
            assert(letters@.subrange(0, letters.len() as int) =~= letters@);
        }
        r
    }

    /// The characters of the letters in increasing order, such as `abc`.
    pub fn to_string(&self) -> (r: String)
        ensures
            r@ == letter_chars(self.items()),
    {
        let letters = self.letters();
        let mut s = String::new();
        let mut i: usize = 0;
        while i < letters.len()
            invariant
                i <= letters.len(),
                letters@.len() == self.items().len(),
                forall|k: int| 0 <= k < letters@.len() ==> #[trigger] letters@[k].index()
                    == self.items()[k],
                s@ == letter_chars(self.items().subrange(0, i as int)),
            decreases letters.len() - i,
        {
            push_char(&mut s, letters[i].to_char());
            proof {
                assert(letter_chars(self.items().subrange(0, i as int + 1)) =~= letter_chars(
                    self.items().subrange(0, i as int),
                ).push(letter_char(self.items()[i as int])));
            }
            i = i + 1;
        }
        proof {
            assert(self.items().subrange(0, letters.len() as int) =~= self.items());
        }
        s
    }

    /// Every key of `size` letters made from the letters of this key: the
    /// letters picked by each number below `2^len` with `size` ones, from the
    /// letters in increasing order, in increasing order of those numbers; the
    /// empty key alone when `size` is 0.
    pub fn subsets_of_size(&self, size: u8) -> (r: Vec<Key>)
        requires
            size <= 27,
            size <= self.items().len(),
        ensures
            size == 0 ==> r@.len() == 1 && r@[0]@ == Set::<u32>::empty(),
            size > 0 ==> r@.len() == subsets_by_mask(self.items(), size as nat).len(),
            size > 0 ==> r@.len() == crate::util::binomial(self.items().len(), size as nat),
            size > 0 ==> forall|i: int|
                0 <= i < r@.len() ==> #[trigger] r@[i]@ == subsets_by_mask(
                    self.items(),
                    size as nat,
                )[i],
            size > 0 ==> forall|i: int| 0 <= i < r@.len() ==> (#[trigger] r@[i])@.subset_of(self@) && r@[i]@.finite() && r@[i]@.len() == size,
            size > 0 ==> forall|i: int, j: int| 0 <= i < j < r@.len() ==> r@[i]@ != r@[j]@,
            size > 0 ==> forall|t: Set<u32>| t.subset_of(self@) && t.finite() && t.len() == size ==> exists|i: int| 0 <= i < r@.len() && #[trigger] r@[i]@ == t,
    {
        if size == 0 {
            let mut r: Vec<Key> = Vec::new();
            r.push(Key::empty());
            return r;
        }
        self.lemma_letters_in_alphabet();
        let items = ones_of(self.0);
        proof {
            lemma_ones(self.0);
            self.lemma_items();
        }
        let words = subset_words(&items, size as u32);
        let mut r: Vec<Key> = Vec::new();
        let mut i: usize = 0;
        while i < words.len()
            invariant
                i <= words.len(),
                items@ == self.items(),
                forall|j: int| 0 <= j < items@.len() ==> #[trigger] items@[j] < 27,
                words@.len() == subsets_by_mask(self.items(), size as nat).len(),
                forall|j: int| 0 <= j < words@.len() ==> bit_set(#[trigger] words@[j]) == subsets_by_mask(
                    self.items(),
                    size as nat,
                )[j],
                r@.len() == i,
                forall|j: int| 0 <= j < i ==> #[trigger] r@[j]@ == subsets_by_mask(
                    self.items(),
                    size as nat,
                )[j],
            decreases words.len() - i,
        {
            let w = words[i];
            proof {
                lemma_picked_below_27(items@, w, size as nat, i as int);
            }
            r.push(Key(w));
            i = i + 1;
        }
        proof {
            crate::subsets::lemma_subsets_by_mask_exact(self.items(), size as nat);
            self.lemma_items();
            let subs = subsets_by_mask(self.items(), size as nat);
            assert forall|a: int| 0 <= a < r@.len() implies (#[trigger] r@[a])@.subset_of(self@) && r@[a]@.finite() && r@[a]@.len() == size by {
                assert(r@[a]@ == subs[a]);
            }
            assert forall|a: int, b: int| 0 <= a < b < r@.len() implies r@[a]@ != r@[b]@ by {
                assert(r@[a]@ == subs[a] && r@[b]@ == subs[b]);
            }
            assert forall|t: Set<u32>| t.subset_of(self@) && t.finite() && t.len() == size implies exists|a: int| 0 <= a < r@.len() && #[trigger] r@[a]@ == t by {
                assert(subs.contains(t));
                let a = choose|a: int| 0 <= a < subs.len() && subs[a] == t;
                assert(r@[a]@ == t);
            }
        }
        r
    }
}

/// A word whose bits are picked from letter indexes is a word of letters.
proof fn lemma_picked_below_27(items: Seq<u32>, w: u32, size: nat, i: int)
    requires
        forall|j: int| 0 <= j < items.len() ==> #[trigger] items[j] < 27,
        0 <= i < subsets_by_mask(items, size).len(),
        bit_set(w) == subsets_by_mask(items, size)[i],
    ensures
        w < 0x800_0000,
{
    assert forall|b: u32| b >= 27 implies !has_bit(w, b) by {
        if has_bit(w, b) {
            assert(bit_set(w).contains(b));
        }
    }
    assert(!has_bit(w, 27) && !has_bit(w, 28) && !has_bit(w, 29) && !has_bit(w, 30) && !has_bit(
        w,
        31,
    ));
    assert(w < 0x800_0000) by (bit_vector)
        requires
            !((w >> 27u32) & 1u32 == 1u32),
            !((w >> 28u32) & 1u32 == 1u32),
            !((w >> 29u32) & 1u32 == 1u32),
            !((w >> 30u32) & 1u32 == 1u32),
            !((w >> 31u32) & 1u32 == 1u32),
    ;
}

/// The numbers below `n` form a set of `n` members.
pub proof fn lemma_range_set_len(n: u32)
    ensures
        Set::new(|i: u32| i < n).finite(),
        Set::new(|i: u32| i < n).len() == n,
    decreases n,
{
    if n == 0 {
        assert(Set::new(|i: u32| i < n) =~= Set::<u32>::empty());
    } else {
        lemma_range_set_len((n - 1) as u32);
        assert(Set::new(|i: u32| i < n) =~= Set::new(|i: u32| i < (n - 1) as u32).insert(
            (n - 1) as u32,
        ));
    }
}

impl Key {
    /// A letter of the key picked at random, or `None` when the key is empty.
    pub fn random_letter(&self) -> (r: Option<Letter>)
        ensures
            r is None <==> self@.len() == 0,
            r matches Some(l) ==> self@.contains(l.index()),
    {
        proof {
            self.lemma_items();
        }
        let total = self.len();
        if total == 0 {
            None
        } else {
            let index = random_usize() % (total as usize);
            let letters = self.letters();
            let letter = letters[index];
            proof {
                assert(self.items().contains(self.items()[index as int]));
            }
            Some(letter)
        }
    }

    /// Each key gives up a random letter to the other: `None` when either key
    /// is empty.
    pub fn swap_random_letter(&self, other: &Key) -> (r: Option<(Key, Key)>)
        ensures
            r is None <==> self@.len() == 0 || other@.len() == 0,
            r matches Some((a, b)) ==> exists|la: u32, lb: u32| #[trigger] self@.contains(la) && #[trigger] other@.contains(lb)
                && a@ == self@.remove(la).insert(lb) && b@ == other@.remove(lb).insert(la),
    {
        let self_letter = match self.random_letter() {
            None => {
                return None;
            },
            Some(l) => l,
        };
        let other_letter = match other.random_letter() {
            None => {
                return None;
            },
            Some(l) => l,
        };
        let new_self = self.remove(self_letter).add(other_letter);
        let new_other = other.remove(other_letter).add(self_letter);
        Some((new_self, new_other))
    }

    /// A random subset of the key's letters whose size lies between `low` and
    /// `high`.
    pub fn random_subset(&self, low: u8, high: u8) -> (r: Key)
        requires
            low <= high,
            high <= self@.len(),
        ensures
            r@.subset_of(self@),
            low <= r@.len() <= high,
    {
        proof {
            self.lemma_items();
        }
        let size = gen_range_inclusive(low, high);
        let mut result = Key::empty();
        let mut remain = *self;
        let mut i: u8 = 0;
        while i < size
            invariant
                i <= size <= high <= self@.len(),
                self@.finite(),
                result@.finite(),
                result@.len() == i,
                remain@.finite(),
                remain@.len() == self@.len() - i,
                result@.subset_of(self@),
                remain@ == self@.difference(result@),
            decreases size - i,
        {
            proof {
                remain.lemma_items();
                result.lemma_items();
            }
            let letter = remain.random_letter().unwrap();
            let ghost l = letter.index();
            remain = remain.remove(letter);
            result = result.add(letter);
            proof {
                assert(!(result@.remove(l)).contains(l));
                assert(result@ =~= result@.remove(l).insert(l));
                assert(remain@ =~= self@.difference(result@));
            }
            i = i + 1;
        }
        result
    }

    /// Splits the letters at random into keys of the given sizes, such as
    /// `abcdef` with sizes 3, 1, 2 into `cab`, `d` and `ef`.
    pub fn random_subsets(&self, groupings: &Vec<u8>) -> (r: Vec<Key>)
        requires
            forall|i: int| 0 <= i < groupings@.len() ==> #[trigger] groupings@[i] > 0,
            byte_sum(groupings@) <= self@.len(),
        ensures
            r@.len() == groupings@.len(),
            forall|i: int| 0 <= i < r@.len() ==> (#[trigger] r@[i])@.len() == groupings@[i] && r@[i]@.subset_of(self@),
            forall|i: int, j: int| 0 <= i < j < r@.len() ==> r@[i]@.disjoint(r@[j]@),
    {
        proof {
            self.lemma_items();
        }
        let mut remaining = *self;
        let mut result: Vec<Key> = Vec::new();
        let mut i: usize = 0;
        while i < groupings.len()
            invariant
                i <= groupings@.len(),
                self@.finite(),
                remaining@.finite(),
                remaining@.subset_of(self@),
                byte_sum(groupings@) <= self@.len(),
                remaining@.len() + byte_sum(groupings@.take(i as int)) == self@.len(),
                result@.len() == i,
                forall|k: int| 0 <= k < i ==> (#[trigger] result@[k])@.len() == groupings@[k] && result@[k]@.subset_of(self@),
                forall|k: int| 0 <= k < i ==> (#[trigger] result@[k])@.disjoint(remaining@),
                forall|k: int, j: int| 0 <= k < j < result@.len() ==> result@[k]@.disjoint(result@[j]@),
            decreases groupings@.len() - i,
        {
            let size = groupings[i];
            proof {
                lemma_byte_sum_prefix(groupings@, i + 1);
                assert(groupings@.take(i + 1).drop_last() =~= groupings@.take(i as int));
            }
            let key = remaining.random_subset(size, size);
            let ghost before = result@;
            let ghost old_remaining = remaining@;
            proof {
                remaining.lemma_items();
                key.lemma_items();
            }
            remaining = remaining.except(key);
            result.push(key);
            proof {
                vstd::set_lib::lemma_set_difference_len(old_remaining, key@);
                assert(old_remaining.intersect(key@) =~= key@);
                assert forall|k: int| 0 <= k < i + 1 implies (#[trigger] result@[k])@.disjoint(remaining@) by {
                    if k < i {
                        assert(result@[k] == before[k]);
                    }
                }
                assert forall|k: int, j: int| 0 <= k < j < result@.len() implies result@[k]@.disjoint(result@[j]@) by {
                    if j == i {
                        assert(result@[k] == before[k]);
                        assert(before[k]@.disjoint(old_remaining));
                    } else {
                        assert(result@[k] == before[k] && result@[j] == before[j]);
                    }
                }
                assert forall|k: int| 0 <= k < i + 1 implies (#[trigger] result@[k])@.len() == groupings@[k] && result@[k]@.subset_of(self@) by {
                    if k < i {
                        assert(result@[k] == before[k]);
                    }
                }
            }
            i = i + 1;
        }
        proof {
            assert(groupings@.take(groupings@.len() as int) =~= groupings@);
        }
        result
    }
}

/// The sum of the bytes.
pub open spec fn byte_sum(s: Seq<u8>) -> nat
    decreases s.len(),
{
    if s.len() == 0 {
        0
    } else {
        byte_sum(s.drop_last()) + s.last() as nat
    }
}

proof fn lemma_byte_sum_prefix(s: Seq<u8>, n: int)
    requires
        0 <= n <= s.len(),
    ensures
        byte_sum(s.take(n)) <= byte_sum(s),
    decreases s.len() - n,
{
    if n < s.len() {
        lemma_byte_sum_prefix(s, n + 1);
        assert(s.take(n + 1).drop_last() =~= s.take(n));
    } else {
        assert(s.take(n) =~= s);
    }
}

impl Default for Key {
    fn default() -> (r: Key)
        ensures
            r@ == Set::<u32>::empty(),
    {
        Key::empty()
    }
}

impl vstd::std_specs::convert::TryFromSpecImpl<&str> for Key {
    open spec fn obeys_try_from_spec() -> bool {
        false
    }

    open spec fn try_from_spec(v: &str) -> Result<Key, &'static str> {
        Err("")
    }
}

impl TryFrom<&str> for Key {
    type Error = &'static str;

    fn try_from(value: &str) -> (r: Result<Key, &'static str>)
        ensures
            r is Ok <==> all_letters(value@),
            r matches Ok(k) ==> k@ == char_indexes(value@),
    {
        Key::from_str(value)
    }
}

} // verus!
