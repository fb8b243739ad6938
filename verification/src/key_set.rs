use vstd::prelude::*;
use vstd::string::StringExecFns;

use crate::key::{all_letters, char_indexes, Key};
use crate::keyboard::{
    key_sets, key_text, layout_pieces, sorted_by_text,
    sorted_keys, spaced_texts,
};
use crate::letter::{char_index, Letter};
use crate::spelling::{different_at, Spelling};
use crate::text::push_char;
use crate::text_order::{lemma_sorted_keys_unique, valid_key};

verus! {

/// The first key that holds `l`, or the number of keys when none does.
pub open spec fn first_holding(keys: Seq<Key>, l: u32) -> int
    decreases keys.len(),
{
    if keys.len() == 0 {
        0
    } else {
        let p = first_holding(keys.drop_last(), l);
        if p < keys.len() - 1 {
            p
        } else if keys.last()@.contains(l) {
            keys.len() - 1
        } else {
            keys.len() as int
        }
    }
}

/// The key sets after putting `a` and `b` on the same key: a new key for
/// both when neither is on a key, the missing one added to the other's key,
/// or the two keys joined in place of the second.
pub open spec fn merged(keys: Seq<Key>, a: u32, b: u32) -> Seq<Set<u32>> {
    let i = first_holding(keys, a);
    let j = first_holding(keys, b);
    let n = keys.len() as int;
    let s = key_sets(keys);
    if i == n && j == n {
        s.push(set![a, b])
    } else if j == n {
        s.update(i, s[i].insert(b))
    } else if i == n {
        s.update(j, s[j].insert(a))
    } else if i == j {
        s
    } else {
        s.update(j, s[i].union(s[j])).remove(i)
    }
}

/// The pairs of `different_at` are of two different letters.
proof fn lemma_pairs_differ(a: Seq<u32>, b: Seq<u32>, i: int)
    requires
        0 <= i < different_at(a, b).len(),
    ensures
        different_at(a, b)[i].0 != different_at(a, b)[i].1,
{
    lemma_pairs_differing(a, b, i);
}

proof fn lemma_pairs_differing(a: Seq<u32>, b: Seq<u32>, i: int)
    requires
        0 <= i < crate::spelling::pairs_differing(a, b).len(),
    ensures
        crate::spelling::pairs_differing(a, b)[i].0 != crate::spelling::pairs_differing(a, b)[i].1,
    decreases a.len(),
{
    let p = crate::spelling::pairs_differing(a.drop_last(), b.drop_last());
    if a.len() > 0 && b.len() > 0 && i < p.len() {
        lemma_pairs_differing(a.drop_last(), b.drop_last(), i);
    }
}

/// One merge step: `next` holds the key sets of `merged(prev, a, b)`,
/// ordered by letters.
pub open spec fn merge_step(prev: Seq<Key>, a: u32, b: u32, next: Seq<Key>) -> bool {
    sorted_by_text(next) && exists|m: Seq<Key>| key_sets(m) == merged(prev, a, b) && next.to_multiset() == m.to_multiset()
}

/// `states` starts with no keys and merges the letter pairs one after the
/// other.
pub open spec fn merge_chain(pairs: Seq<(u32, u32)>, states: Seq<Seq<Key>>) -> bool {
    &&& states.len() == pairs.len() + 1
    &&& states[0] == Seq::<Key>::empty()
    &&& forall|i: int| 0 <= i < pairs.len() ==> #[trigger] merge_step(states[i], pairs[i].0, pairs[i].1, states[i + 1])
}

/// The two letters of each two-letter key, smaller first.
pub open spec fn letter_pairs(keys: Seq<Key>) -> Seq<(u32, u32)> {
    keys.map_values(|k: Key| (k.items()[0], k.items()[1]))
}

/// Some key holds both letters.
pub open spec fn shares_key(keys: Seq<Key>, x: u32, y: u32) -> bool {
    exists|p: int| 0 <= p < keys.len() && keys[p]@.contains(x) && keys[p]@.contains(y)
}

/// The sum of the numbers of letters on the keys.
pub open spec fn letters_total(keys: Seq<Key>) -> nat
    decreases keys.len(),
{
    if keys.len() == 0 {
        0
    } else {
        letters_total(keys.drop_last()) + keys.last()@.len()
    }
}

/// After `merged`, some key holds both letters.
pub proof fn lemma_merged_shares_key(keys: Seq<Key>, a: u32, b: u32)
    ensures
        exists|i: int| 0 <= i < merged(keys, a, b).len() && #[trigger] merged(keys, a, b)[i].contains(a)
            && merged(keys, a, b)[i].contains(b),
{
    lemma_first_holding(keys, a);
    lemma_first_holding(keys, b);
    let i = first_holding(keys, a);
    let j = first_holding(keys, b);
    let n = keys.len() as int;
    let s = key_sets(keys);
    let m = merged(keys, a, b);
    if i == n && j == n {
        assert(m[n].contains(a) && m[n].contains(b));
    } else if j == n {
        assert(m[i].contains(a) && m[i].contains(b));
    } else if i == n {
        assert(m[j].contains(a) && m[j].contains(b));
    } else if i == j {
        assert(m[i].contains(a) && m[i].contains(b));
    } else {
        let u = s.update(j, s[i].union(s[j]));
        assert(u[j].contains(a) && u[j].contains(b));
        if j < i {
            assert(m[j] == u[j]);
            assert(m[j].contains(a) && m[j].contains(b));
        } else {
            assert(m[j - 1] == u[j]);
            assert(m[j - 1].contains(a) && m[j - 1].contains(b));
        }
    }
}

/// Letters that shared a key before `merged` still share one after it.
pub proof fn lemma_merged_keeps_shared(keys: Seq<Key>, a: u32, b: u32, x: u32, y: u32, p: int)
    requires
        0 <= p < keys.len(),
        keys[p]@.contains(x),
        keys[p]@.contains(y),
    ensures
        exists|q: int| 0 <= q < merged(keys, a, b).len() && #[trigger] merged(keys, a, b)[q].contains(x)
            && merged(keys, a, b)[q].contains(y),
{
    lemma_first_holding(keys, a);
    lemma_first_holding(keys, b);
    let i = first_holding(keys, a);
    let j = first_holding(keys, b);
    let n = keys.len() as int;
    let s = key_sets(keys);
    let m = merged(keys, a, b);
    assert(s[p] == keys[p]@);
    if i == n && j == n {
        assert(m[p] == s[p]);
    } else if j == n {
        assert(m[p].contains(x) && m[p].contains(y));
    } else if i == n {
        assert(m[p].contains(x) && m[p].contains(y));
    } else if i == j {
        assert(m[p] == s[p]);
    } else {
        let u = s.update(j, s[i].union(s[j]));
        let q = if p == i { j } else { p };
        assert(u[q].contains(x) && u[q].contains(y));
        if q < i {
            assert(m[q] == u[q]);
        } else {
            assert(m[q - 1] == u[q]);
        }
    }
}

pub proof fn lemma_first_holding(keys: Seq<Key>, l: u32)
    ensures
        0 <= first_holding(keys, l) <= keys.len(),
        first_holding(keys, l) < keys.len() ==> keys[first_holding(keys, l)]@.contains(l),
        forall|k: int| 0 <= k < first_holding(keys, l) ==> !(#[trigger] keys[k])@.contains(l),
    decreases keys.len(),
{
    if keys.len() > 0 {
        lemma_first_holding(keys.drop_last(), l);
        let p = first_holding(keys.drop_last(), l);
        assert forall|k: int| 0 <= k < first_holding(keys, l) implies !(#[trigger] keys[k])@.contains(l) by {
            if k < keys.len() - 1 {
                assert(keys[k] == keys.drop_last()[k]);
            }
        }
        if p < keys.len() - 1 {
            assert(keys[p] == keys.drop_last()[p]);
        }
    }
}

/// Keys kept in the order of their letters, such as `ab cd`.
#[derive(Clone, Hash, PartialEq, Eq, Debug)]
pub struct KeySet(Vec<Key>);

impl View for KeySet {
    type V = Seq<Key>;

    closed spec fn view(&self) -> Seq<Key> {
        self.0@
    }
}

impl KeySet {
    /// The set with no keys.
    pub fn empty() -> (r: KeySet)
        ensures
            r@ == Seq::<Key>::empty(),
    {
        KeySet(Vec::new())
    }

    fn with_unsorted(keys: Vec<Key>) -> (r: KeySet)
        ensures
            r@.to_multiset() == keys@.to_multiset(),
            sorted_by_text(r@),
    {
        KeySet(sorted_keys(&keys))
    }

    /// The set with these keys, ordered by their letters.
    pub fn with_keys(keys: Vec<Key>) -> (r: KeySet)
        ensures
            r@.to_multiset() == keys@.to_multiset(),
            sorted_by_text(r@),
    {
        Self::with_unsorted(keys)
    }

    /// The number of keys.
    pub fn len(&self) -> (r: usize)
        ensures
            r == self@.len(),
    {
        self.0.len()
    }

    /// The number of letters on all the keys together.
    pub fn letter_count(&self) -> (r: u8)
        requires
            letters_total(self@) <= u8::MAX,
        ensures
            r == letters_total(self@),
    {
        let mut total: u8 = 0;
        let mut i: usize = 0;
        while i < self.0.len()
            invariant
                i <= self@.len(),
                self@ == self.0@,
                letters_total(self@) <= u8::MAX,
                total == letters_total(self@.take(i as int)),
            decreases self@.len() - i,
        {
            proof {
                assert(self@.take(i + 1).drop_last() =~= self@.take(i as int));
                lemma_letters_total_prefix(self@, i + 1);
            }
            total = total + self.0[i].len();
            i = i + 1;
        }
        proof {
            assert(self@.take(self@.len() as int) =~= self@);
        }
        total
    }

    /// Whether the keys hold at most `limit` letters together.
    pub fn letters_within(&self, limit: u32) -> (r: bool)
        ensures
            r == (letters_total(self@) <= limit),
    {
        let mut total: u64 = 0;
        let mut i: usize = 0;
        while i < self.0.len()
            invariant
                i <= self@.len(),
                self@ == self.0@,
                total == letters_total(self@.take(i as int)),
                total <= limit,
            decreases self@.len() - i,
        {
            proof {
                assert(self@.take(i + 1).drop_last() =~= self@.take(i as int));
            }
            total = total + self.0[i].len() as u64;
            i = i + 1;
            if total > limit as u64 {
                proof {
                    lemma_letters_total_prefix(self@, i as int);
                }
                return false;
            }
        }
        proof {
            assert(self@.take(self@.len() as int) =~= self@);
        }
        true
    }

    /// Whether the two sets have the same keys in the same order.
    pub fn same_keys(&self, other: &KeySet) -> (r: bool)
        ensures
            r == (self@ == other@),
    {
        if self.0.len() != other.0.len() {
            return false;
        }
        let mut i: usize = 0;
        while i < self.0.len()
            invariant
                i <= self@.len(),
                self@ == self.0@,
                other@ == other.0@,
                self@.len() == other@.len(),
                forall|k: int| 0 <= k < i ==> self@[k] == other@[k],
            decreases self@.len() - i,
        {
            if self.0[i] != other.0[i] {
                return false;
            }
            i = i + 1;
        }
        assert(self@ =~= other@);
        true
    }

    /// The index of the first key that holds `a`.
    pub fn find_key_index(&self, a: Letter) -> (r: Option<usize>)
        ensures
            r is None <==> first_holding(self@, a.index()) == self@.len(),
            r matches Some(i) ==> i == first_holding(self@, a.index()),
    {
        proof {
            lemma_first_holding(self@, a.index());
        }
        let mut i: usize = 0;
        while i < self.0.len()
            invariant
                i <= self@.len(),
                self@ == self.0@,
                i <= first_holding(self@, a.index()),
                0 <= first_holding(self@, a.index()) <= self@.len(),
                first_holding(self@, a.index()) < self@.len() ==> self@[first_holding(self@, a.index())]@.contains(a.index()),
                forall|k: int| 0 <= k < first_holding(self@, a.index()) ==> !(#[trigger] self@[k])@.contains(a.index()),
            decreases self@.len() - i,
        {
            if self.0[i].contains(a) {
                return Some(i);
            }
            i = i + 1;
        }
        None
    }

    /// The set with `a` and `b` on the same key (see `merged`), ordered by
    /// letters again. The letters must differ.
    pub fn with_letters_on_same_key(&self, a: Letter, b: Letter) -> (r: KeySet)
        requires
            a.index() != b.index(),
        ensures
            exists|m: Seq<Key>| key_sets(m) == merged(self@, a.index(), b.index()) && r@.to_multiset() == m.to_multiset(),
            sorted_by_text(r@),
            exists|k: Key| r@.contains(k) && #[trigger] k@.contains(a.index()) && k@.contains(b.index()),
            forall|x: u32, y: u32| shares_key(self@, x, y) ==> #[trigger] shares_key(r@, x, y),
    {
        let r = self.merge_letters(a, b);
        proof {
            let m = choose|m: Seq<Key>| key_sets(m) == merged(self@, a.index(), b.index()) && r@.to_multiset() == m.to_multiset();
            m.to_multiset_ensures();
            r@.to_multiset_ensures();
            assert forall|x: u32, y: u32| shares_key(self@, x, y) implies #[trigger] shares_key(r@, x, y) by {
                let p = choose|p: int| 0 <= p < self@.len() && self@[p]@.contains(x) && self@[p]@.contains(y);
                lemma_merged_keeps_shared(self@, a.index(), b.index(), x, y, p);
                let q = choose|q: int| 0 <= q < merged(self@, a.index(), b.index()).len()
                    && #[trigger] merged(self@, a.index(), b.index())[q].contains(x)
                    && merged(self@, a.index(), b.index())[q].contains(y);
                assert(key_sets(m)[q] == m[q]@);
                assert(m.contains(m[q]));
                assert(m.to_multiset().count(m[q]) > 0);
                assert(r@.to_multiset().count(m[q]) > 0);
                assert(r@.contains(m[q]));
                let w = choose|w: int| 0 <= w < r@.len() && r@[w] == m[q];
                assert(r@[w]@.contains(x) && r@[w]@.contains(y));
            }
        }
        proof {
            let m = choose|m: Seq<Key>| key_sets(m) == merged(self@, a.index(), b.index()) && r@.to_multiset() == m.to_multiset();
            lemma_merged_shares_key(self@, a.index(), b.index());
            let i = choose|i: int| 0 <= i < merged(self@, a.index(), b.index()).len()
                && #[trigger] merged(self@, a.index(), b.index())[i].contains(a.index())
                && merged(self@, a.index(), b.index())[i].contains(b.index());
            assert(key_sets(m)[i] == m[i]@);
            assert(m.contains(m[i]));
            m.to_multiset_ensures();
            r@.to_multiset_ensures();
            assert(m.to_multiset().count(m[i]) > 0);
            assert(r@.to_multiset().count(m[i]) > 0);
            assert(r@.contains(m[i]));
        }
        r
    }

    fn merge_letters(&self, a: Letter, b: Letter) -> (r: KeySet)
        requires
            a.index() != b.index(),
        ensures
            exists|m: Seq<Key>| key_sets(m) == merged(self@, a.index(), b.index()) && r@.to_multiset() == m.to_multiset(),
            sorted_by_text(r@),
    {
        let a_index = self.find_key_index(a);
        let b_index = self.find_key_index(b);
        let ghost s = key_sets(self@);
        let mut keys = self.0.clone();
        proof {
            assert(keys@ =~= self.0@);
        }
        match (a_index, b_index) {
            (None, None) => {
                let key_ab = Key::empty().add(a).add(b);
                keys.push(key_ab);
                proof {
                    assert(key_sets(keys@) =~= merged(self@, a.index(), b.index()));
                }
                Self::with_unsorted(keys)
            },
            (Some(i), None) => {
                let k = keys[i].add(b);
                keys.set(i, k);
                proof {
                    assert(key_sets(keys@) =~= merged(self@, a.index(), b.index()));
                }
                Self::with_unsorted(keys)
            },
            (None, Some(j)) => {
                let k = keys[j].add(a);
                keys.set(j, k);
                proof {
                    assert(key_sets(keys@) =~= merged(self@, a.index(), b.index()));
                }
                Self::with_unsorted(keys)
            },
            (Some(i), Some(j)) => {
                if i == j {
                    proof {
                        assert(key_sets(keys@) =~= merged(self@, a.index(), b.index()));
                    }
                    Self::with_unsorted(keys)
                } else {
                    let merged_key = self.0[i].union(self.0[j]);
                    let mut joined: Vec<Key> = Vec::new();
                    let mut k: usize = 0;
                    while k < self.0.len()
                        invariant
                            k <= self@.len(),
                            self@ == self.0@,
                            i < self@.len(),
                            j < self@.len(),
                            i != j,
                            merged_key@ == self@[i as int]@.union(self@[j as int]@),
                            key_sets(joined@) == if i < k {
                                key_sets(self@).update(j as int, merged_key@).take(k as int).remove(i as int)
                            } else {
                                key_sets(self@).update(j as int, merged_key@).take(k as int)
                            },
                        decreases self@.len() - k,
                    {
                        let ghost t = key_sets(self@).update(j as int, merged_key@);
                        let ghost before = joined@;
                        if k == i {
                        } else if k == j {
                            joined.push(merged_key);
                        } else {
                            joined.push(self.0[k]);
                        }
                        proof {
                            if k == i {
                                assert(t.take(k + 1).remove(i as int) =~= t.take(k as int));
                            } else if i < k {
                                assert(t.take(k + 1).remove(i as int) =~= t.take(k as int).remove(i as int).push(t[k as int]));
                                assert(key_sets(joined@) =~= key_sets(before).push(t[k as int]));
                            } else {
                                assert(t.take(k + 1) =~= t.take(k as int).push(t[k as int]));
                                assert(key_sets(joined@) =~= key_sets(before).push(t[k as int]));
                            }
                        }
                        k = k + 1;
                    }
                    proof {
                        assert(key_sets(self@).update(j as int, merged_key@).take(self@.len() as int) =~= key_sets(self@).update(j as int, merged_key@));
                        assert(key_sets(joined@) =~= merged(self@, a.index(), b.index()));
                    }
                    Self::with_unsorted(joined)
                }
            },
        }
    }

    /// Starting from no keys, puts the two letters of each pair on the same
    /// key, pair by pair. Each pair must hold exactly two letters.
    pub fn with_pairs(pairs: Vec<Key>) -> (r: KeySet)
        requires
            forall|i: int| 0 <= i < pairs@.len() ==> (#[trigger] pairs@[i])@.len() == 2,
        ensures
            sorted_by_text(r@),
            exists|states: Seq<Seq<Key>>| merge_chain(letter_pairs(pairs@), states) && r@ == states.last(),
            forall|i: int| 0 <= i < pairs@.len() ==> #[trigger] shares_key(r@, pairs@[i].items()[0], pairs@[i].items()[1]),
    {
        let mut result = KeySet::empty();
        let mut i: usize = 0;
        let ghost lp = letter_pairs(pairs@);
        let ghost mut states: Seq<Seq<Key>> = seq![Seq::<Key>::empty()];
        while i < pairs.len()
            invariant
                i <= pairs@.len(),
                lp == letter_pairs(pairs@),
                forall|k: int| 0 <= k < pairs@.len() ==> (#[trigger] pairs@[k])@.len() == 2,
                sorted_by_text(result@),
                states.len() == i + 1,
                states[0] == Seq::<Key>::empty(),
                states.last() == result@,
                forall|k: int| 0 <= k < i ==> #[trigger] merge_step(states[k], lp[k].0, lp[k].1, states[k + 1]),
                forall|k: int| 0 <= k < i ==> #[trigger] shares_key(result@, pairs@[k].items()[0], pairs@[k].items()[1]),
            decreases pairs@.len() - i,
        {
            let p = pairs[i];
            proof {
                p.lemma_items();
                assert(p.items()[0] < p.items()[1]);
            }
            let first = p.min_letter().unwrap();
            let second = p.max_letter().unwrap();
            let ghost prev = result;
            result = result.with_letters_on_same_key(first, second);
            proof {
                assert(p.items().last() == p.items()[1]);
                assert(lp[i as int] == (first.index(), second.index()));
                let old_states = states;
                states = states.push(result@);
                assert(merge_step(old_states[i as int], lp[i as int].0, lp[i as int].1, states[i + 1]));
                assert forall|k: int| 0 <= k < i + 1 implies #[trigger] merge_step(states[k], lp[k].0, lp[k].1, states[k + 1]) by {
                    if k < i {
                        assert(states[k] == old_states[k] && states[k + 1] == old_states[k + 1]);
                    }
                }
                assert forall|k: int| 0 <= k < i + 1 implies #[trigger] shares_key(result@, pairs@[k].items()[0], pairs@[k].items()[1]) by {
                    if k < i {
                        assert(shares_key(prev@, pairs@[k].items()[0], pairs@[k].items()[1]));
                    } else {
                        let key = choose|key: Key| result@.contains(key) && #[trigger] key@.contains(first.index()) && key@.contains(second.index());
                        let w = choose|w: int| 0 <= w < result@.len() && result@[w] == key;
                        assert(result@[w]@.contains(pairs@[k].items()[0]));
                    }
                }
            }
            i = i + 1;
        }
        proof {
            assert(merge_chain(lp, states));
        }
        result
    }

    /// The set given by letters in keys separated by commas or spaces, such
    /// as `abc def`, ordered by letters. Every piece must be letters.
    pub fn with_layout(layout: &str) -> (r: KeySet)
        requires
            forall|i: int| 0 <= i < layout_pieces(layout@).len() ==> all_letters(#[trigger] layout_pieces(layout@)[i]),
        ensures
            exists|m: Seq<Key>| key_sets(m) == layout_pieces(layout@).map_values(|p: Seq<char>| char_indexes(p))
                && r@.to_multiset() == m.to_multiset(),
            sorted_by_text(r@),
    {
        let keys = keys_of_layout(layout);
        Self::with_unsorted(keys)
    }

    /// Starting from no keys, puts each pair of letters that differ at the same
    /// position of the two words on the same key; nothing for words of
    /// different lengths.
    pub fn with_word_differences(a: &Spelling, b: &Spelling) -> (r: KeySet)
        ensures
            sorted_by_text(r@),
            forall|i: int| 0 <= i < different_at(a.letters_spec(), b.letters_spec()).len() ==> #[trigger] shares_key(
                r@,
                different_at(a.letters_spec(), b.letters_spec())[i].0,
                different_at(a.letters_spec(), b.letters_spec())[i].1,
            ),
            exists|states: Seq<Seq<Key>>| merge_chain(different_at(a.letters_spec(), b.letters_spec()), states) && r@ == states.last(),
    {
        let pairs = a.different_pairs(b);
        let ghost d = different_at(a.letters_spec(), b.letters_spec());
        let mut result = KeySet::empty();
        let mut i: usize = 0;
        let ghost mut states: Seq<Seq<Key>> = seq![Seq::<Key>::empty()];
        while i < pairs.len()
            invariant
                i <= pairs@.len(),
                pairs@.map_values(|p: (Letter, Letter)| (p.0.index(), p.1.index())) == d,
                d == different_at(a.letters_spec(), b.letters_spec()),
                sorted_by_text(result@),
                states.len() == i + 1,
                states[0] == Seq::<Key>::empty(),
                states.last() == result@,
                forall|k: int| 0 <= k < i ==> #[trigger] merge_step(states[k], d[k].0, d[k].1, states[k + 1]),
                forall|k: int| 0 <= k < i ==> #[trigger] shares_key(result@, d[k].0, d[k].1),
            decreases pairs@.len() - i,
        {
            let (x, y) = pairs[i];
            proof {
                let m = pairs@.map_values(|p: (Letter, Letter)| (p.0.index(), p.1.index()));
                assert(m.len() == pairs@.len());
                assert(m[i as int] == (x.index(), y.index()));
                assert(d[i as int] == (x.index(), y.index()));
                lemma_pairs_differ(a.letters_spec(), b.letters_spec(), i as int);
            }
            let ghost prev = result;
            result = result.with_letters_on_same_key(x, y);
            proof {
                let old_states = states;
                states = states.push(result@);
                assert(merge_step(old_states[i as int], d[i as int].0, d[i as int].1, states[i + 1]));
                assert forall|k: int| 0 <= k < i + 1 implies #[trigger] merge_step(states[k], d[k].0, d[k].1, states[k + 1]) by {
                    if k < i {
                        assert(states[k] == old_states[k] && states[k + 1] == old_states[k + 1]);
                    }
                }
                assert forall|k: int| 0 <= k < i + 1 implies #[trigger] shares_key(result@, d[k].0, d[k].1) by {
                    if k < i {
                        assert(shares_key(prev@, d[k].0, d[k].1));
                    } else {
                        let key = choose|key: Key| result@.contains(key) && #[trigger] key@.contains(x.index()) && key@.contains(y.index());
                        let w = choose|w: int| 0 <= w < result@.len() && result@[w] == key;
                        assert(result@[w]@.contains(d[k].0) && result@[w]@.contains(d[k].1));
                    }
                }
            }
            i = i + 1;
        }
        proof {
            assert(pairs@.map_values(|p: (Letter, Letter)| (p.0.index(), p.1.index())).len() == pairs@.len());
            assert(merge_chain(d, states));
        }
        result
    }

    /// The keys' letters separated by spaces, in the set's order.
    pub fn to_string(&self) -> (r: String)
        ensures
            r@ == spaced_texts(self@),
    {
        let mut result = String::new();
        let mut i: usize = 0;
        while i < self.0.len()
            invariant
                i <= self@.len(),
                self@ == self.0@,
                result@ == spaced_texts(self@.take(i as int)),
            decreases self@.len() - i,
        {
            let text = self.0[i].to_string();
            proof {
                assert(self@.take(i + 1).drop_last() =~= self@.take(i as int));
            }
            if i > 0 {
                push_char(&mut result, ' ');
            }
            result.append(text.as_str());
            proof {
                if i == 0 {
                    assert(result@ =~= key_text(self@[0]));
                }
            }
            i = i + 1;
        }
        proof {
            assert(self@.take(self@.len() as int) =~= self@);
        }
        result
    }
}

/// The keys of a layout's pieces, in order. Every piece must be letters.
pub fn keys_of_layout(s: &str) -> (r: Vec<Key>)
    requires
        forall|i: int| 0 <= i < layout_pieces(s@).len() ==> all_letters(#[trigger] layout_pieces(s@)[i]),
    ensures
        key_sets(r@) == layout_pieces(s@).map_values(|p: Seq<char>| char_indexes(p)),
{
    let n = s.unicode_len();
    let mut keys: Vec<Key> = Vec::new();
    let mut current = Key::empty();
    let mut i: usize = 0;
    proof {
        assert(s@.take(0) =~= Seq::<char>::empty());
        assert(char_indexes(Seq::<char>::empty()) =~= Set::<u32>::empty());
    }
    while i < n
        invariant
            n == s@.len(),
            i <= n,
            forall|k: int| 0 <= k < layout_pieces(s@).len() ==> all_letters(#[trigger] layout_pieces(s@)[k]),
            keys@.len() + 1 == layout_pieces(s@.take(i as int)).len(),
            forall|k: int| 0 <= k < keys@.len() ==> (#[trigger] keys@[k])@ == char_indexes(layout_pieces(s@.take(i as int))[k]),
            current@ == char_indexes(layout_pieces(s@.take(i as int)).last()),
        decreases n - i,
    {
        let c = s.get_char(i);
        proof {
            assert(s@.take(i + 1).drop_last() =~= s@.take(i as int));
            assert(s@.take(i + 1).last() == c);
        }
        if c == ',' || c == ' ' {
            keys.push(current);
            current = Key::empty();
            proof {
                assert(char_indexes(Seq::<char>::empty()) =~= Set::<u32>::empty());
            }
        } else {
            proof {
                crate::keyboard::lemma_piece_letter(s@, i as int);
            }
            let letter = Letter::new(c);
            current = current.add(letter);
            proof {
                let last = layout_pieces(s@.take(i as int)).last();
                assert(last.push(c).map_values(|c: char| char_index(c)) =~= last.map_values(|c: char| char_index(c)).push(char_index(c)));
                last.map_values(|c: char| char_index(c)).lemma_push_to_set_commute(char_index(c));
            }
        }
        i = i + 1;
    }
    keys.push(current);
    proof {
        assert(s@.take(n as int) =~= s@);
        assert(key_sets(keys@) =~= layout_pieces(s@).map_values(|p: Seq<char>| char_indexes(p)));
    }
    keys
}

proof fn lemma_letters_total_prefix(keys: Seq<Key>, n: int)
    requires
        0 <= n <= keys.len(),
    ensures
        letters_total(keys.take(n)) <= letters_total(keys),
    decreases keys.len() - n,
{
    if n < keys.len() {
        lemma_letters_total_prefix(keys, n + 1);
        assert(keys.take(n + 1).drop_last() =~= keys.take(n));
    } else {
        assert(keys.take(n) =~= keys);
    }
}

/// Every key of the list holds only letters of the alphabet.
pub open spec fn valid_keys(keys: Seq<Key>) -> bool {
    forall|t: int| 0 <= t < keys.len() ==> valid_key(#[trigger] keys[t])
}

/// Merging letters of the alphabet into keys of the alphabet leaves only
/// letters of the alphabet.
proof fn lemma_merged_valid(keys: Seq<Key>, a: u32, b: u32)
    requires
        valid_keys(keys),
        a < 27,
        b < 27,
    ensures
        forall|t: int, x: u32| 0 <= t < merged(keys, a, b).len() && #[trigger] merged(keys, a, b)[t].contains(x) ==> x < 27,
{
    lemma_first_holding(keys, a);
    lemma_first_holding(keys, b);
    let i = first_holding(keys, a);
    let j = first_holding(keys, b);
    let n = keys.len() as int;
    let s = key_sets(keys);
    let m = merged(keys, a, b);
    assert forall|t: int, x: u32| 0 <= t < m.len() && #[trigger] m[t].contains(x) implies x < 27 by {
        if i == n && j == n {
            if t < n {
                assert(valid_key(keys[t]));
            }
        } else if j == n {
            assert(valid_key(keys[t]));
        } else if i == n {
            assert(valid_key(keys[t]));
        } else if i == j {
            assert(valid_key(keys[t]));
        } else {
            let u = s.update(j, s[i].union(s[j]));
            let w = if t < i { t } else { t + 1 };
            assert(m[t] == u[w]);
            assert(valid_key(keys[i]));
            assert(valid_key(keys[j]));
            assert(valid_key(keys[w]));
        }
    }
}

/// One merge step has one outcome, and it holds only letters of the
/// alphabet.
pub proof fn lemma_merge_step_unique(prev: Seq<Key>, a: u32, b: u32, n1: Seq<Key>, n2: Seq<Key>)
    requires
        valid_keys(prev),
        a < 27,
        b < 27,
        merge_step(prev, a, b, n1),
        merge_step(prev, a, b, n2),
    ensures
        n1 == n2,
        valid_keys(n1),
{
    broadcast use vstd::seq_lib::group_to_multiset_ensures;

    let m1 = choose|m: Seq<Key>| key_sets(m) == merged(prev, a, b) && n1.to_multiset() == m.to_multiset();
    let m2 = choose|m: Seq<Key>| key_sets(m) == merged(prev, a, b) && n2.to_multiset() == m.to_multiset();
    assert(m1.len() == key_sets(m1).len());
    assert(m2.len() == key_sets(m2).len());
    assert forall|t: int| 0 <= t < m1.len() implies m1[t] == m2[t] by {
        assert(key_sets(m1)[t] == m1[t]@);
        assert(key_sets(m2)[t] == m2[t]@);
        Key::lemma_view_injective(m1[t], m2[t]);
    }
    assert(m1 =~= m2);
    lemma_merged_valid(prev, a, b);
    assert forall|n: Seq<Key>| n.to_multiset() == m1.to_multiset() implies valid_keys(n) by {
        assert forall|t: int| 0 <= t < n.len() implies valid_key(#[trigger] n[t]) by {
            assert(n.contains(n[t]));
            assert(m1.to_multiset().count(n[t]) > 0);
            assert(m1.contains(n[t]));
            let u = choose|u: int| 0 <= u < m1.len() && m1[u] == n[t];
            assert(key_sets(m1)[u] == m1[u]@);
            assert forall|x: u32| #[trigger] n[t]@.contains(x) implies x < 27 by {
                assert(merged(prev, a, b)[u].contains(x));
            }
        }
    }
    assert(valid_keys(n1));
    lemma_sorted_keys_unique(n1, n2);
}

/// Two chains of merges of letters of the alphabet agree up to step `k`.
proof fn lemma_merge_prefix_unique(pairs: Seq<(u32, u32)>, s1: Seq<Seq<Key>>, s2: Seq<Seq<Key>>, k: int)
    requires
        0 <= k <= pairs.len(),
        forall|q: int| 0 <= q < pairs.len() ==> (#[trigger] pairs[q]).0 < 27 && pairs[q].1 < 27,
        merge_chain(pairs, s1),
        merge_chain(pairs, s2),
    ensures
        forall|q: int| 0 <= q <= k ==> #[trigger] s1[q] == s2[q],
        valid_keys(s1[k]),
    decreases k,
{
    if k > 0 {
        lemma_merge_prefix_unique(pairs, s1, s2, k - 1);
        let p = k - 1;
        assert(merge_step(s1[p], pairs[p].0, pairs[p].1, s1[p + 1]));
        assert(merge_step(s2[p], pairs[p].0, pairs[p].1, s2[p + 1]));
        lemma_merge_step_unique(s1[p], pairs[p].0, pairs[p].1, s1[k], s2[k]);
    }
}

/// A chain of merges of letters of the alphabet has one outcome.
pub proof fn lemma_merge_chain_unique(pairs: Seq<(u32, u32)>, s1: Seq<Seq<Key>>, s2: Seq<Seq<Key>>)
    requires
        forall|k: int| 0 <= k < pairs.len() ==> (#[trigger] pairs[k]).0 < 27 && pairs[k].1 < 27,
        merge_chain(pairs, s1),
        merge_chain(pairs, s2),
    ensures
        s1 == s2,
{
    lemma_merge_prefix_unique(pairs, s1, s2, pairs.len() as int);
    assert(s1 =~= s2);
}

} // verus!
