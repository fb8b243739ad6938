use std::collections::HashMap;
use vstd::prelude::*;

use crate::set32::Set32;

verus! {

broadcast use vstd::std_specs::hash::group_hash_axioms;

/// The characters that occur in any of the words.
pub open spec fn word_chars(words: Seq<String>) -> Set<char> {
    Set::new(|c: char| exists|i: int, j: int| 0 <= i < words.len() && 0 <= j < words[i]@.len() && #[trigger] words[i]@[j] == c)
}

/// Numbers the different characters of some words, from zero, in the order
/// they first occur.
pub struct LetterMap {
    pub letter_to_num: HashMap<u32, u32>,
    pub num_to_letter: Vec<char>,
    pub letter_index_set: Set32,
}

proof fn lemma_code_injective(x: char, y: char)
    requires
        x as u32 == y as u32,
    ensures
        x == y,
{
    vstd::utf8::char_u32_cast(x, x as u32);
    vstd::utf8::char_u32_cast(y, y as u32);
}

impl LetterMap {
    /// The two directions agree, and the index set holds every number given.
    pub open spec fn wf(self) -> bool {
        &&& self.num_to_letter@.len() <= 32
        &&& self.num_to_letter@.no_duplicates()
        &&& forall|k: u32| #[trigger] self.letter_to_num@.contains_key(k) <==> exists|i: int|
            0 <= i < self.num_to_letter@.len() && self.num_to_letter@[i] as u32 == k
        &&& forall|i: int| 0 <= i < self.num_to_letter@.len() ==> self.letter_to_num@[#[trigger] self.num_to_letter@[i] as u32] == i
        &&& self.letter_index_set@ == Set::new(|i: u32| i < self.num_to_letter@.len())
    }

    /// Numbers the characters of the words in the order they first occur.
    /// There may be at most 32 different characters.
    pub fn new(words: &Vec<String>) -> (r: LetterMap)
        requires
            word_chars(words@).finite(),
            word_chars(words@).len() <= 32,
        ensures
            r.wf(),
            r.num_to_letter@.to_set() == word_chars(words@),
    {
        assert(Set::<char>::empty().len() == 0);
        let mut letter_to_num: HashMap<u32, u32> = HashMap::new();
        let mut num_to_letter: Vec<char> = Vec::new();
        let ghost all = word_chars(words@);
        let mut i: usize = 0;
        while i < words.len()
            invariant
                i <= words@.len(),
                all == word_chars(words@),
                all.finite(),
                all.len() <= 32,
                num_to_letter@.no_duplicates(),
                num_to_letter@.to_set().subset_of(all),
                forall|c: char| num_to_letter@.contains(c) <==> (exists|a: int, j: int| 0 <= a < i && 0 <= j < words@[a]@.len() && #[trigger] words@[a]@[j] == c),
                forall|k: u32| #[trigger] letter_to_num@.contains_key(k) <==> exists|m: int|
                    0 <= m < num_to_letter@.len() && num_to_letter@[m] as u32 == k,
                forall|m: int| 0 <= m < num_to_letter@.len() ==> letter_to_num@[#[trigger] num_to_letter@[m] as u32] == m,
            decreases words@.len() - i,
        {
            let word = words[i].as_str();
            let n = word.unicode_len();
            let mut j: usize = 0;
            while j < n
                invariant
                    i < words@.len(),
                    word@ == words@[i as int]@,
                    n == word@.len(),
                    j <= n,
                    all == word_chars(words@),
                    all.finite(),
                    all.len() <= 32,
                    num_to_letter@.no_duplicates(),
                    num_to_letter@.to_set().subset_of(all),
                    forall|c: char| num_to_letter@.contains(c) <==> ((exists|a: int, b: int| 0 <= a < i && 0 <= b < words@[a]@.len() && #[trigger] words@[a]@[b] == c)
                        || exists|b: int| 0 <= b < j && word@[b] == c),
                    forall|k: u32| #[trigger] letter_to_num@.contains_key(k) <==> exists|m: int|
                        0 <= m < num_to_letter@.len() && num_to_letter@[m] as u32 == k,
                    forall|m: int| 0 <= m < num_to_letter@.len() ==> letter_to_num@[#[trigger] num_to_letter@[m] as u32] == m,
                decreases n - j,
            {
                let c = word.get_char(j);
                let code = c as u32;
                proof {
                    assert(words@[i as int]@[j as int] == c);
                    assert(all.contains(c));
                }
                let ghost start = num_to_letter@;
                match letter_to_num.get(&code) {
                    Some(_) => {
                        proof {
                            let m = choose|m: int| 0 <= m < num_to_letter@.len() && num_to_letter@[m] as u32 == code;
                            lemma_code_injective(num_to_letter@[m], c);
                            assert(num_to_letter@[m] == c);
                            assert(num_to_letter@.contains(c));
                        }
                    },
                    None => {
                        let ghost before = num_to_letter@;
                        proof {
                            assert(!before.contains(c)) by {
                                if before.contains(c) {
                                    let m = choose|m: int| 0 <= m < before.len() && before[m] == c;
                                    assert(letter_to_num@.contains_key(before[m] as u32));
                                }
                            }
                            assert(before.to_set().insert(c).subset_of(all));
                            before.unique_seq_to_set();
                            vstd::set_lib::lemma_len_subset(before.to_set().insert(c), all);
                        }
                        let next = num_to_letter.len() as u32;
                        letter_to_num.insert(code, next);
                        num_to_letter.push(c);
                        proof {
                            assert(num_to_letter@ == before.push(c));
                            assert forall|a: int, b: int| 0 <= a < b < num_to_letter@.len() implies num_to_letter@[a] != num_to_letter@[b] by {
                                if b == before.len() {
                                    assert(before.contains(num_to_letter@[a]) || a == b);
                                }
                            }
                            assert forall|m: int| 0 <= m < num_to_letter@.len() implies letter_to_num@[#[trigger] num_to_letter@[m] as u32] == m by {
                                if m < before.len() {
                                    assert(num_to_letter@[m] == before[m]);
                                    assert(before[m] != c);
                                    if before[m] as u32 == c as u32 {
                                        lemma_code_injective(before[m], c);
                                    }
                                }
                            }
                            assert forall|k: u32| #[trigger] letter_to_num@.contains_key(k) <==> exists|m: int|
                                0 <= m < num_to_letter@.len() && num_to_letter@[m] as u32 == k by {
                                if k == code {
                                    assert(num_to_letter@[before.len() as int] as u32 == k);
                                } else if letter_to_num@.contains_key(k) {
                                    let m = choose|m: int| 0 <= m < before.len() && before[m] as u32 == k;
                                    assert(num_to_letter@[m] == before[m]);
                                }
                            }
                            assert forall|x: char| num_to_letter@.to_set().contains(x) implies all.contains(x) by {
                                if x != c {
                                    assert(before.contains(x));
                                }
                            }
                        }
                    },
                }
                proof {
                    assert forall|x: char| num_to_letter@.contains(x) <==> (start.contains(x) || x == c) by {
                        if num_to_letter@.len() > start.len() {
                            assert(num_to_letter@ == start.push(c));
                            if num_to_letter@.contains(x) {
                                let m = choose|m: int| 0 <= m < num_to_letter@.len() && num_to_letter@[m] == x;
                                if m < start.len() {
                                    assert(start[m] == x);
                                }
                            }
                            if start.contains(x) {
                                let m = choose|m: int| 0 <= m < start.len() && start[m] == x;
                                assert(num_to_letter@[m] == x);
                            }
                            assert(num_to_letter@[start.len() as int] == c);
                        }
                    }
                    assert forall|x: char| num_to_letter@.contains(x) <==> ((exists|a: int, b: int| 0 <= a < i && 0 <= b < words@[a]@.len() && #[trigger] words@[a]@[b] == x)
                        || exists|b: int| 0 <= b < j + 1 && word@[b] == x) by {
                        assert(start.contains(x) <==> ((exists|a: int, b: int| 0 <= a < i && 0 <= b < words@[a]@.len() && #[trigger] words@[a]@[b] == x)
                            || exists|b: int| 0 <= b < j && word@[b] == x));
                        if x == c {
                            assert(word@[j as int] == x);
                        }
                        if exists|b: int| 0 <= b < j + 1 && word@[b] == x {
                            let b = choose|b: int| 0 <= b < j + 1 && word@[b] == x;
                            if b == j {
                                assert(x == c);
                            } else {
                                assert(exists|b: int| 0 <= b < j && word@[b] == x);
                            }
                        }
                        if exists|b: int| 0 <= b < j && word@[b] == x {
                            let b = choose|b: int| 0 <= b < j && word@[b] == x;
                            assert(0 <= b < j + 1 && word@[b] == x);
                        }
                    }
                }
                j = j + 1;
            }
            proof {
                assert forall|x: char| num_to_letter@.contains(x) <==> (exists|a: int, b: int| 0 <= a < i + 1 && 0 <= b < words@[a]@.len() && #[trigger] words@[a]@[b] == x) by {
                    if exists|b: int| 0 <= b < n && word@[b] == x {
                        let b = choose|b: int| 0 <= b < n && word@[b] == x;
                        assert(words@[i as int]@[b] == x);
                    }
                    if exists|a: int, b: int| 0 <= a < i + 1 && 0 <= b < words@[a]@.len() && #[trigger] words@[a]@[b] == x {
                        let (a, b) = choose|a: int, b: int| 0 <= a < i + 1 && 0 <= b < words@[a]@.len() && #[trigger] words@[a]@[b] == x;
                        if a == i {
                            assert(word@[b] == x);
                        }
                    }
                }
            }
            i = i + 1;
        }
        proof {
            assert(num_to_letter@.to_set() =~= all);
            num_to_letter@.unique_seq_to_set();
            vstd::set_lib::lemma_len_subset(num_to_letter@.to_set(), all);
        }
        let set = Set32::fill(num_to_letter.len() as u32);
        LetterMap { letter_to_num, num_to_letter, letter_index_set: set }
    }

    /// The numbers given, as a set.
    pub fn letter_index_set(&self) -> (r: Set32)
        ensures
            r == self.letter_index_set,
    {
        self.letter_index_set
    }

    /// The character numbered `inx`.
    pub fn letter_for(&self, inx: u32) -> (r: char)
        requires
            self.wf(),
            inx < self.num_to_letter@.len(),
        ensures
            r == self.num_to_letter@[inx as int],
    {
        self.num_to_letter[inx as usize]
    }

    /// A number's character gives the number back: no character has two numbers.
    pub proof fn lemma_round_trip(self, i: int, j: int)
        requires
            self.wf(),
            0 <= i < self.num_to_letter@.len(),
            0 <= j < self.num_to_letter@.len(),
            self.num_to_letter@[i] == self.num_to_letter@[j],
        ensures
            i == j,
    {
    }

    /// The number of the character `c`, which must be one of the characters.
    pub fn index_for(&self, c: char) -> (r: u32)
        requires
            self.wf(),
            self.num_to_letter@.contains(c),
        ensures
            r < self.num_to_letter@.len(),
            self.num_to_letter@[r as int] == c,
    {
        let code = c as u32;
        proof {
            let m = choose|m: int| 0 <= m < self.num_to_letter@.len() && self.num_to_letter@[m] == c;
            assert(self.letter_to_num@.contains_key(self.num_to_letter@[m] as u32));
        }
        let found = self.letter_to_num.get(&code);
        *found.unwrap()
    }
}

} // verus!
