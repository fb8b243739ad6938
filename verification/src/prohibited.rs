use vstd::prelude::*;

use crate::bitset::{bit_set, lemma_bit_set_injective, lemma_bit_set_ops};
use crate::collections::{number_set_items, NumberSet};
use crate::key::Key;

verus! {

/// A set of letters is allowed when none of the prohibited letter sets lies
/// within it.
pub open spec fn allows(prohibited: Set<Set<u32>>, letters: Set<u32>) -> bool {
    !exists|p: Set<u32>| #[trigger] prohibited.contains(p) && p.subset_of(letters)
}

/// Each letter set is a smallest one: no other member lies strictly within it.
pub open spec fn minimal(prohibited: Set<Set<u32>>) -> bool {
    forall|p: Set<u32>, q: Set<u32>|
        #[trigger] prohibited.contains(p) && #[trigger] prohibited.contains(q) && p.subset_of(q)
            ==> p == q
}

/// The letter sets of the words.
pub open spec fn word_groups(words: Set<u32>) -> Set<Set<u32>> {
    words.map(|w: u32| bit_set(w))
}

/// Groups of letters that must not share a key, kept as the smallest such groups.
pub struct Prohibited(NumberSet);

/// `a` lies within `b`.
proof fn lemma_word_subset(a: u32, b: u32)
    ensures
        ((a & !b) == 0) == bit_set(a).subset_of(bit_set(b)),
{
    lemma_bit_set_ops(a, b);
    lemma_bit_set_ops(0, 0);
    if bit_set(a).subset_of(bit_set(b)) {
        assert(bit_set(a & !b) =~= bit_set(0));
        lemma_bit_set_injective(a & !b, 0);
    }
    if (a & !b) == 0 {
        assert forall|i: u32| bit_set(a).contains(i) implies bit_set(b).contains(i) by {
            assert(!bit_set(a & !b).contains(i));
        }
    }
}

impl Prohibited {
    /// The prohibited letter groups.
    pub closed spec fn groups(self) -> Set<Set<u32>> {
        word_groups(number_set_items(self.0))
    }

    /// Every group is a set of letters of the alphabet.
    pub closed spec fn wf(self) -> bool {
        forall|w: u32| #[trigger] number_set_items(self.0).contains(w) ==> w < 0x800_0000
    }

    pub fn new() -> (r: Prohibited)
        ensures
            r.groups() == Set::<Set<u32>>::empty(),
            r.wf(),
    {
        let r = Prohibited(NumberSet::new());
        proof {
            assert(r.groups() =~= Set::<Set<u32>>::empty());
        }
        r
    }

    /// No prohibited group lies within `other`.
    pub fn is_allowed(&self, other: Key) -> (r: bool)
        ensures
            r == allows(self.groups(), other@),
    {
        let items = self.0.to_vec();
        let o = other.to_u32();
        let mut i: usize = 0;
        while i < items.len()
            invariant
                i <= items.len(),
                items@.to_set() == number_set_items(self.0),
                bit_set(o) == other@,
                forall|j: int| 0 <= j < i ==> !bit_set(#[trigger] items@[j]).subset_of(other@),
            decreases items.len() - i,
        {
            proof {
                lemma_word_subset(items[i as int], o);
            }
            if items[i] & !o == 0 {
                proof {
                    let p = bit_set(items@[i as int]);
                    assert(number_set_items(self.0).contains(items@[i as int]));
                    assert(self.groups().contains(p));
                }
                return false;
            }
            i = i + 1;
        }
        proof {
            assert forall|p: Set<u32>| #[trigger] self.groups().contains(p) implies !p.subset_of(
                other@,
            ) by {
                let w = choose|w: u32| number_set_items(self.0).contains(w) && bit_set(w) == p;
                assert(items@.to_set().contains(w));
                let j = choose|j: int| 0 <= j < items@.len() && items@[j] == w;
            }
        }
        true
    }

    /// Prohibits the letters of `key` from sharing a key. Groups that contain
    /// `key` are dropped, and `key` is kept unless a smaller group lies within it.
    pub fn add(&mut self, key: Key)
        requires
            !(key@ == Set::<u32>::empty()),
        ensures
            final(self).groups() == (if exists|p: Set<u32>|
                #[trigger] old(self).groups().contains(p) && p.subset_of(key@) && p != key@ {
                old(self).groups().filter(|p: Set<u32>| !(key@.subset_of(p) && p != key@))
            } else {
                old(self).groups().filter(|p: Set<u32>| !(key@.subset_of(p) && p != key@)).insert(
                    key@,
                )
            }),
            forall|letters: Set<u32>|
                #[trigger] allows(final(self).groups(), letters) == (allows(
                    old(self).groups(),
                    letters,
                ) && !key@.subset_of(letters)),
            minimal(old(self).groups()) ==> minimal(final(self).groups()),
            old(self).wf() ==> final(self).wf(),
    {
        let k = key.to_u32();
        let ghost before = number_set_items(self.0);
        assert(word_groups(before) == old(self).groups());
        let items = self.0.to_vec();
        let mut has_subset = false;
        let mut supersets: Vec<u32> = Vec::new();
        let mut i: usize = 0;
        while i < items.len()
            invariant
                i <= items.len(),
                items@.to_set() == before,
                items@.no_duplicates(),
                bit_set(k) == key@,
                has_subset == exists|j: int|
                    0 <= j < i && #[trigger] bit_set(items@[j]).subset_of(key@) && items@[j] != k,
                forall|w: u32| #[trigger] supersets@.contains(w) <==> exists|j: int|
                    0 <= j < i && items@[j] == w && key@.subset_of(bit_set(w)) && w != k,
            decreases items.len() - i,
        {
            let w = items[i];
            proof {
                lemma_word_subset(w, k);
                lemma_word_subset(k, w);
            }
            let ghost prev = supersets@;
            if w != k && (w & !k) == 0 {
                has_subset = true;
            }
            if w != k && (k & !w) == 0 {
                supersets.push(w);
            }
            proof {
                assert forall|x: u32| #[trigger] supersets@.contains(x) <==> exists|j: int|
                    0 <= j < i + 1 && items@[j] == x && key@.subset_of(bit_set(x)) && x != k by {
                    if supersets@.contains(x) && !prev.contains(x) {
                        assert(items@[i as int] == x);
                    }
                    if exists|j: int| 0 <= j < i + 1 && items@[j] == x && key@.subset_of(bit_set(x)) && x != k {
                        if !(exists|j: int| 0 <= j < i && items@[j] == x && key@.subset_of(bit_set(x)) && x != k) {
                            assert(x == w);
                            assert(supersets@[supersets@.len() - 1] == x);
                        } else {
                            assert(prev.contains(x));
                            let t = choose|t: int| 0 <= t < prev.len() && prev[t] == x;
                            assert(supersets@[t] == x);
                        }
                    }
                }
            }
            i = i + 1;
        }
        let mut j: usize = 0;
        while j < supersets.len()
            invariant
                j <= supersets.len(),
                number_set_items(self.0) == before.difference(supersets@.subrange(0, j as int).to_set()),
            decreases supersets.len() - j,
        {
            self.0.remove(supersets[j]);
            proof {
                let a = supersets@.subrange(0, j as int);
                a.lemma_push_to_set_commute(supersets@[j as int]);
                assert(supersets@.subrange(0, j as int + 1) =~= a.push(supersets@[j as int]));
                assert(number_set_items(self.0) =~= before.difference(supersets@.subrange(0, j as int + 1).to_set()));
            }
            j = j + 1;
        }
        proof {
            assert(supersets@.subrange(0, supersets.len() as int) =~= supersets@);
        }
        let ghost old_groups = word_groups(before);
        let ghost kept = old_groups.filter(|p: Set<u32>| !(key@.subset_of(p) && p != key@));
        proof {
            let mid = number_set_items(self.0);
            let sup = supersets@.to_set();
            assert(old_groups == old(self).groups());
            assert forall|p: Set<u32>| #[trigger] word_groups(mid).contains(p) == kept.contains(p) by {
                if word_groups(mid).contains(p) {
                    let w = choose|w: u32| mid.contains(w) && bit_set(w) == p;
                    assert(before.contains(w));
                    assert(old_groups.contains(p));
                    if key@.subset_of(p) && p != key@ {
                        assert(w != k);
                        let j = choose|j: int| 0 <= j < items@.len() && items@[j] == w;
                        assert(supersets@.contains(w));
                        assert(sup.contains(w));
                    }
                }
                if kept.contains(p) {
                    let w = choose|w: u32| before.contains(w) && bit_set(w) == p;
                    if sup.contains(w) {
                        assert(supersets@.contains(w));
                        let j = choose|j: int| 0 <= j < items@.len() && items@[j] == w && key@.subset_of(bit_set(w)) && w != k;
                        if bit_set(w) == key@ {
                            lemma_bit_set_injective(w, k);
                        }
                    }
                    assert(mid.contains(w));
                }
            }
            assert(word_groups(mid) =~= kept);
            // the flag says whether a smaller group lies within `key`
            assert(has_subset <==> exists|q: Set<u32>|
                #[trigger] old_groups.contains(q) && q.subset_of(key@) && q != key@) by {
                if has_subset {
                    let j = choose|j: int| 0 <= j < items@.len() && #[trigger] bit_set(items@[j]).subset_of(key@) && items@[j] != k;
                    let w = items@[j];
                    assert(before.contains(w));
                    assert(old_groups.contains(bit_set(w)));
                    if bit_set(w) == key@ {
                        lemma_bit_set_injective(w, k);
                    }
                }
                if exists|q: Set<u32>| #[trigger] old_groups.contains(q) && q.subset_of(key@) && q != key@ {
                    let q = choose|q: Set<u32>| #[trigger] old_groups.contains(q) && q.subset_of(key@) && q != key@;
                    let w = choose|w: u32| before.contains(w) && bit_set(w) == q;
                    let j = choose|j: int| 0 <= j < items@.len() && items@[j] == w;
                    assert(bit_set(items@[j]).subset_of(key@));
                }
            }
        }
        if !has_subset {
            self.0.insert(k);
            proof {
                let mid_items = number_set_items(self.0).remove(k);
                assert(word_groups(number_set_items(self.0)) =~= kept.insert(key@)) by {
                    assert forall|p: Set<u32>| #[trigger] word_groups(number_set_items(self.0)).contains(p) implies kept.insert(key@).contains(p) by {
                        let w = choose|w: u32| number_set_items(self.0).contains(w) && bit_set(w) == p;
                        if w != k {
                            assert(word_groups(before.difference(supersets@.to_set())).contains(p));
                        }
                    }
                    assert forall|p: Set<u32>| #[trigger] kept.insert(key@).contains(p) implies word_groups(number_set_items(self.0)).contains(p) by {
                        if p == key@ {
                            assert(number_set_items(self.0).contains(k));
                        } else {
                            assert(word_groups(before.difference(supersets@.to_set())).contains(p));
                            let w = choose|w: u32| before.difference(supersets@.to_set()).contains(w) && bit_set(w) == p;
                            assert(number_set_items(self.0).contains(w));
                        }
                    }
                }
            }
        }
        proof {
            let fin = self.groups();
            assert forall|letters: Set<u32>| #[trigger] allows(fin, letters) == (allows(old_groups, letters) && !key@.subset_of(letters)) by {
                if has_subset {
                    let q = choose|q: Set<u32>| #[trigger] old_groups.contains(q) && q.subset_of(key@) && q != key@;
                    if key@.subset_of(q) {
                        assert(q =~= key@);
                    }
                    assert(kept.contains(q));
                    if allows(fin, letters) {
                        assert forall|p: Set<u32>| #[trigger] old_groups.contains(p) implies !p.subset_of(letters) by {
                            if !kept.contains(p) && p.subset_of(letters) {
                                assert forall|x: u32| q.contains(x) implies letters.contains(x) by {
                                    assert(key@.contains(x));
                                    assert(p.contains(x));
                                }
                                assert(fin.contains(q));
                            }
                        }
                        if key@.subset_of(letters) {
                            assert forall|x: u32| q.contains(x) implies letters.contains(x) by {
                                assert(key@.contains(x));
                            }
                            assert(fin.contains(q));
                        }
                    }
                } else {
                    assert(fin.contains(key@));
                    if allows(fin, letters) {
                        assert forall|p: Set<u32>| #[trigger] old_groups.contains(p) implies !p.subset_of(letters) by {
                            if kept.contains(p) {
                                assert(fin.contains(p));
                            } else if p.subset_of(letters) {
                                assert forall|x: u32| key@.contains(x) implies letters.contains(x) by {
                                    assert(p.contains(x));
                                }
                                assert(key@.subset_of(letters));
                                assert(fin.contains(key@));
                            }
                        }
                    }
                    if allows(old_groups, letters) && !key@.subset_of(letters) {
                        assert forall|p: Set<u32>| #[trigger] fin.contains(p) implies !p.subset_of(letters) by {
                            if p != key@ {
                                assert(kept.contains(p));
                            }
                        }
                    }
                }
            }
            if minimal(old_groups) {
                assert forall|p: Set<u32>, q: Set<u32>| #[trigger] fin.contains(p) && #[trigger] fin.contains(q) && p.subset_of(q) implies p == q by {
                    if p != key@ && q != key@ {
                        assert(kept.contains(p) && kept.contains(q));
                    } else if p == key@ && q != key@ {
                        assert(kept.contains(q));
                    } else if p != key@ && q == key@ {
                        assert(kept.contains(p));
                    }
                }
            }
        }
        proof {
            assert forall|w: u32| number_set_items(self.0).contains(w) implies before.contains(w) || w == k by {}
            if old(self).wf() {
                assert forall|w: u32| #[trigger] number_set_items(self.0).contains(w) implies w < 0x800_0000 by {
                    if w != k {
                        assert(before.contains(w));
                    }
                }
            }
        }
    }

    /// The prohibited groups as keys, each once, in no stated order.
    pub fn keys(&self) -> (r: Vec<Key>)
        requires
            self.wf(),
        ensures
            r@.len() == self.groups().len(),
            forall|i: int| 0 <= i < r@.len() ==> self.groups().contains(#[trigger] r@[i]@),
            forall|p: Set<u32>| self.groups().contains(p) ==> exists|i: int| 0 <= i < r@.len() && #[trigger] r@[i]@ == p,
            forall|i: int, j: int| 0 <= i < j < r@.len() ==> r@[i] != r@[j],
    {
        let items = self.0.to_vec();
        proof {
            items@.unique_seq_to_set();
            self.lemma_groups_len(items@);
        }
        let mut r: Vec<Key> = Vec::new();
        let mut i: usize = 0;
        while i < items.len()
            invariant
                i <= items@.len(),
                self.wf(),
                items@.to_set() == number_set_items(self.0),
                items@.no_duplicates(),
                r@.len() == i,
                forall|k: int| 0 <= k < i ==> (#[trigger] r@[k]).bits() == items@[k] && r@[k]@ == bit_set(items@[k]),
            decreases items@.len() - i,
        {
            proof {
                assert(items@.to_set().contains(items@[i as int]));
            }
            r.push(Key::from_word(items[i]));
            i = i + 1;
        }
        proof {
            assert forall|k: int| 0 <= k < r@.len() implies self.groups().contains(#[trigger] r@[k]@) by {
                assert(items@.to_set().contains(items@[k]));
            }
            assert forall|p: Set<u32>| self.groups().contains(p) implies exists|k: int| 0 <= k < r@.len() && #[trigger] r@[k]@ == p by {
                let w = choose|w: u32| number_set_items(self.0).contains(w) && bit_set(w) == p;
                let k = choose|k: int| 0 <= k < items@.len() && items@[k] == w;
                assert(r@[k]@ == p);
            }
            assert forall|a: int, b: int| 0 <= a < b < r@.len() implies r@[a] != r@[b] by {
                assert(r@[a].bits() != r@[b].bits());
            }
        }
        r
    }

    /// The number of prohibited groups.
    pub fn len(&self) -> (r: usize)
        ensures
            r == self.groups().len(),
    {
        let items = self.0.to_vec();
        proof {
            self.lemma_groups_len(items@);
        }
        self.0.len()
    }

    proof fn lemma_groups_len(self, items: Seq<u32>)
        requires
            items.to_set() == number_set_items(self.0),
        ensures
            number_set_items(self.0).finite(),
            self.groups().len() == number_set_items(self.0).len(),
    {
        let f = |w: u32| bit_set(w);
        assert forall|a: u32, b: u32| number_set_items(self.0).contains(a) && number_set_items(self.0).contains(b) && #[trigger] f(a) == #[trigger] f(b) implies a == b by {
            lemma_bit_set_injective(a, b);
        }
        vstd::set_lib::lemma_map_size(number_set_items(self.0), self.groups(), f);
    }

    /// Prohibits each key in turn.
    pub fn add_many(&mut self, keys: &Vec<Key>)
        requires
            forall|i: int| 0 <= i < keys@.len() ==> !(#[trigger] keys@[i]@ == Set::<u32>::empty()),
        ensures
            forall|letters: Set<u32>|
                #[trigger] allows(final(self).groups(), letters) == (allows(
                    old(self).groups(),
                    letters,
                ) && forall|i: int| 0 <= i < keys@.len() ==> !(#[trigger] keys@[i]@).subset_of(letters)),
    {
        let mut i: usize = 0;
        while i < keys.len()
            invariant
                i <= keys.len(),
                forall|j: int| 0 <= j < keys@.len() ==> !(#[trigger] keys@[j]@ == Set::<u32>::empty()),
                forall|letters: Set<u32>|
                    #[trigger] allows(self.groups(), letters) == (allows(old(self).groups(), letters)
                        && forall|j: int| 0 <= j < i ==> !(#[trigger] keys@[j]@).subset_of(letters)),
            decreases keys.len() - i,
        {
            self.add(keys[i]);
            i = i + 1;
        }
    }
}

} // verus!
