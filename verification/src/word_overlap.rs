use vstd::prelude::*;

use crate::key::Key;
use crate::key_set::{lemma_merge_chain_unique, letters_total, merge_chain, KeySet};
use crate::spelling::{different_at, letter_indexes, pairs_differing, Spelling};

verus! {

/// Putting each pair of letters at which `a` and `b` differ on a shared key,
/// one pair after the other, gives the keys `ks`.
pub open spec fn differs_by(a: Spelling, b: Spelling, ks: Seq<Key>) -> bool {
    exists|states: Seq<Seq<Key>>|
        #[trigger] merge_chain(different_at(a.letters_spec(), b.letters_spec()), states) && ks == states.last()
}

/// The pairs of letters at which two letter sequences differ are letters of
/// the alphabet.
proof fn lemma_pairs_in_alphabet(a: Seq<u32>, b: Seq<u32>)
    requires
        letter_indexes(a),
        letter_indexes(b),
    ensures
        forall|k: int|
            0 <= k < pairs_differing(a, b).len() ==> (#[trigger] pairs_differing(a, b)[k]).0 < 27
                && pairs_differing(a, b)[k].1 < 27,
    decreases a.len(),
{
    if a.len() > 0 && b.len() > 0 {
        let a1 = a.drop_last();
        let b1 = b.drop_last();
        assert(letter_indexes(a1)) by {
            assert forall|i: int| 0 <= i < a1.len() implies #[trigger] a1[i] < 27 by {
                assert(a1[i] == a[i]);
            }
        }
        assert(letter_indexes(b1)) by {
            assert forall|i: int| 0 <= i < b1.len() implies #[trigger] b1[i] < 27 by {
                assert(b1[i] == b[i]);
            }
        }
        lemma_pairs_in_alphabet(a1, b1);
        assert(a.last() == a[a.len() - 1]);
        assert(b.last() == b[b.len() - 1]);
        let p = pairs_differing(a1, b1);
        assert forall|k: int| 0 <= k < pairs_differing(a, b).len() implies (#[trigger] pairs_differing(a, b)[k]).0
            < 27 && pairs_differing(a, b)[k].1 < 27 by {
            if k < p.len() {
                assert(pairs_differing(a, b)[k] == p[k]);
            }
        }
    }
}

/// Two words of the alphabet differ by one key set only.
pub proof fn lemma_differs_by_unique(a: Spelling, b: Spelling, ks1: Seq<Key>, ks2: Seq<Key>)
    requires
        letter_indexes(a.letters_spec()),
        letter_indexes(b.letters_spec()),
        differs_by(a, b, ks1),
        differs_by(a, b, ks2),
    ensures
        ks1 == ks2,
{
    let d = different_at(a.letters_spec(), b.letters_spec());
    let s1 = choose|states: Seq<Seq<Key>>| #[trigger] merge_chain(d, states) && ks1 == states.last();
    let s2 = choose|states: Seq<Seq<Key>>| #[trigger] merge_chain(d, states) && ks2 == states.last();
    lemma_pairs_in_alphabet(a.letters_spec(), b.letters_spec());
    lemma_merge_chain_unique(d, s1, s2);
}

/// Keys worth recording under a limit of `max_pairs`: at least one key, at
/// most `max_pairs` keys and at most twice as many letters.
pub open spec fn within_limit(ks: Seq<Key>, max_pairs: u8) -> bool {
    0 < ks.len() <= max_pairs && letters_total(ks) <= 2 * max_pairs
}

/// Words `i < j` of the list differ by `ks`, and `ks` is within the limit.
pub open spec fn pair_overlaps(words: Seq<Spelling>, i: int, j: int, ks: Seq<Key>, max_pairs: u8) -> bool {
    0 <= i < j < words.len() && differs_by(words[i], words[j], ks) && within_limit(ks, max_pairs)
}

/// The key sets that the entries record.
pub open spec fn recorded_sets(entries: Seq<(KeySet, Vec<u32>)>) -> Set<Seq<Key>> {
    Set::new(|ks: Seq<Key>| exists|p: int| 0 <= p < entries.len() && (#[trigger] entries[p]).0@ == ks)
}

/// The word numbers that the entries record for `ks`.
pub open spec fn recorded_words(entries: Seq<(KeySet, Vec<u32>)>, ks: Seq<Key>) -> Set<u32> {
    Set::new(
        |i: u32|
            exists|p: int| 0 <= p < entries.len() && (#[trigger] entries[p]).0@ == ks && entries[p].1@.contains(i),
    )
}

/// No key set twice, and no word twice for a key set.
pub open spec fn entries_wf(entries: Seq<(KeySet, Vec<u32>)>) -> bool {
    &&& forall|p: int, q: int| 0 <= p < q < entries.len() ==> (#[trigger] entries[p]).0@ != (#[trigger] entries[q]).0@
    &&& forall|p: int| 0 <= p < entries.len() ==> (#[trigger] entries[p]).1@.no_duplicates()
}

/// For each set of letter pairs, the words of a list that pair with another
/// word of the list differing from it in exactly those letters, once the
/// pairs share keys.
pub struct WordOverlap {
    words: Vec<Spelling>,
    pairs: Vec<(KeySet, Vec<u32>)>,
    empty: Vec<u32>,
}

fn holds(v: &Vec<u32>, x: u32) -> (r: bool)
    ensures
        r == v@.contains(x),
{
    let mut i: usize = 0;
    while i < v.len()
        invariant
            i <= v@.len(),
            forall|k: int| 0 <= k < i ==> v@[k] != x,
        decreases v@.len() - i,
    {
        if v[i] == x {
            return true;
        }
        i = i + 1;
    }
    false
}

/// Adds the words `a` and `b` to the entry for `ks`, making the entry when
/// there is none.
fn record(entries: &mut Vec<(KeySet, Vec<u32>)>, ks: KeySet, a: u32, b: u32)
    requires
        entries_wf(old(entries)@),
    ensures
        entries_wf(final(entries)@),
        recorded_sets(final(entries)@) == recorded_sets(old(entries)@).insert(ks@),
        forall|s: Seq<Key>| #[trigger] recorded_words(final(entries)@, s) == if s == ks@ {
            recorded_words(old(entries)@, s).insert(a).insert(b)
        } else {
            recorded_words(old(entries)@, s)
        },
{
    let ghost before = entries@;
    let ghost key = ks@;
    let mut p: usize = 0;
    while p < entries.len()
        invariant
            p <= entries@.len(),
            entries@ == before,
            key == ks@,
            forall|q: int| 0 <= q < p ==> (#[trigger] entries@[q]).0@ != key,
        ensures
            p <= entries@.len(),
            entries@ == before,
            p < entries@.len() ==> entries@[p as int].0@ == key,
            forall|q: int| 0 <= q < p ==> (#[trigger] entries@[q]).0@ != key,
        decreases entries@.len() - p,
    {
        if entries[p].0.same_keys(&ks) {
            break;
        }
        p = p + 1;
    }
    if p < entries.len() {
        let mut entry: (KeySet, Vec<u32>) = (ks, Vec::new());
        entries.set_and_swap(p, &mut entry);
        let (found, mut group) = entry;
        proof {
            assert(found@ == key);
        }
        let ghost old_group = group@;
        if !holds(&group, a) {
            group.push(a);
        }
        proof {
            assert forall|x: u32| group@.contains(x) <==> old_group.contains(x) || x == a by {
                if group@.contains(x) && !old_group.contains(x) {
                    let k = choose|k: int| 0 <= k < group@.len() && group@[k] == x;
                    assert(k == old_group.len());
                }
                if old_group.contains(x) {
                    let k = choose|k: int| 0 <= k < old_group.len() && old_group[k] == x;
                    assert(group@[k] == x);
                }
                if x == a && !old_group.contains(x) {
                    assert(group@[group@.len() - 1] == x);
                }
            }
        }
        let ghost mid = group@;
        if !holds(&group, b) {
            group.push(b);
        }
        proof {
            assert forall|x: u32| group@.contains(x) <==> mid.contains(x) || x == b by {
                if group@.contains(x) && !mid.contains(x) {
                    let k = choose|k: int| 0 <= k < group@.len() && group@[k] == x;
                    assert(k == mid.len());
                }
                if mid.contains(x) {
                    let k = choose|k: int| 0 <= k < mid.len() && mid[k] == x;
                    assert(group@[k] == x);
                }
                if x == b && !mid.contains(x) {
                    assert(group@[group@.len() - 1] == x);
                }
            }
            assert(group@.no_duplicates());
        }
        entries.set(p, (found, group));
        proof {
            let after = entries@;
            assert(after == before.update(p as int, (found, group)));
            assert(recorded_sets(after) =~= recorded_sets(before).insert(key)) by {
                assert forall|s: Seq<Key>| recorded_sets(after).contains(s) implies recorded_sets(before).insert(
                    key,
                ).contains(s) by {
                    let q = choose|q: int| 0 <= q < after.len() && (#[trigger] after[q]).0@ == s;
                    if q != p {
                        assert(before[q] == after[q]);
                    }
                }
                assert forall|s: Seq<Key>| recorded_sets(before).insert(key).contains(s) implies recorded_sets(
                    after,
                ).contains(s) by {
                    if s == key {
                        assert(after[p as int].0@ == s);
                    } else {
                        let q = choose|q: int| 0 <= q < before.len() && (#[trigger] before[q]).0@ == s;
                        assert(after[q] == before[q]);
                    }
                }
            }
            assert forall|s: Seq<Key>| #[trigger] recorded_words(after, s) == if s == key {
                recorded_words(before, s).insert(a).insert(b)
            } else {
                recorded_words(before, s)
            } by {
                let want = if s == key {
                    recorded_words(before, s).insert(a).insert(b)
                } else {
                    recorded_words(before, s)
                };
                assert forall|x: u32| recorded_words(after, s).contains(x) implies want.contains(x) by {
                    let q = choose|q: int|
                        0 <= q < after.len() && (#[trigger] after[q]).0@ == s && after[q].1@.contains(x);
                    if q != p {
                        assert(before[q] == after[q]);
                    } else {
                        assert(group@.contains(x));
                        if old_group.contains(x) {
                            assert(before[p as int].1@.contains(x));
                        }
                    }
                }
                assert forall|x: u32| want.contains(x) implies recorded_words(after, s).contains(x) by {
                    if s == key && (x == a || x == b) {
                        assert(after[p as int].1@.contains(x));
                    } else {
                        let q = choose|q: int|
                            0 <= q < before.len() && (#[trigger] before[q]).0@ == s && before[q].1@.contains(x);
                        if q == p {
                            assert(old_group.contains(x));
                            assert(group@.contains(x));
                            assert(after[p as int].1@.contains(x));
                        } else {
                            assert(after[q] == before[q]);
                        }
                    }
                }
                assert(recorded_words(after, s) =~= want);
            }
            assert forall|q: int, r: int| 0 <= q < r < after.len() implies (#[trigger] after[q]).0@ != (
            #[trigger] after[r]).0@ by {
                if q != p {
                    assert(after[q] == before[q]);
                }
                if r != p {
                    assert(after[r] == before[r]);
                }
            }
            assert forall|q: int| 0 <= q < after.len() implies (#[trigger] after[q]).1@.no_duplicates() by {
                if q != p {
                    assert(after[q] == before[q]);
                }
            }
        }
    } else {
        let mut group: Vec<u32> = Vec::new();
        group.push(a);
        if a != b {
            group.push(b);
        }
        proof {
            assert(group@[0] == a);
            assert(group@[group@.len() - 1] == b);
            assert(group@.contains(a) && group@.contains(b));
            assert forall|x: u32| group@.contains(x) implies x == a || x == b by {
                let k = choose|k: int| 0 <= k < group@.len() && group@[k] == x;
            }
        }
        entries.push((ks, group));
        proof {
            let after = entries@;
            let n = before.len() as int;
            assert(after == before.push((ks, group)));
            assert(after[n].0@ == key);
            assert(recorded_sets(after) =~= recorded_sets(before).insert(key)) by {
                assert forall|s: Seq<Key>| recorded_sets(after).contains(s) implies recorded_sets(before).insert(
                    key,
                ).contains(s) by {
                    let q = choose|q: int| 0 <= q < after.len() && (#[trigger] after[q]).0@ == s;
                    if q < n {
                        assert(before[q] == after[q]);
                    }
                }
                assert forall|s: Seq<Key>| recorded_sets(before).insert(key).contains(s) implies recorded_sets(
                    after,
                ).contains(s) by {
                    if s != key {
                        let q = choose|q: int| 0 <= q < before.len() && (#[trigger] before[q]).0@ == s;
                        assert(after[q] == before[q]);
                    }
                }
            }
            assert forall|s: Seq<Key>| #[trigger] recorded_words(after, s) == if s == key {
                recorded_words(before, s).insert(a).insert(b)
            } else {
                recorded_words(before, s)
            } by {
                let want = if s == key {
                    recorded_words(before, s).insert(a).insert(b)
                } else {
                    recorded_words(before, s)
                };
                assert forall|x: u32| recorded_words(after, s).contains(x) implies want.contains(x) by {
                    let q = choose|q: int|
                        0 <= q < after.len() && (#[trigger] after[q]).0@ == s && after[q].1@.contains(x);
                    if q < n {
                        assert(before[q] == after[q]);
                    } else {
                        assert(s == key);
                        assert(group@.contains(x));
                    }
                }
                assert forall|x: u32| want.contains(x) implies recorded_words(after, s).contains(x) by {
                    if s == key && (x == a || x == b) {
                        assert(after[n].1@.contains(x));
                    } else {
                        let q = choose|q: int|
                            0 <= q < before.len() && (#[trigger] before[q]).0@ == s && before[q].1@.contains(x);
                        assert(after[q] == before[q]);
                    }
                }
                assert(recorded_words(after, s) =~= want);
            }
            assert forall|q: int, r: int| 0 <= q < r < after.len() implies (#[trigger] after[q]).0@ != (
            #[trigger] after[r]).0@ by {
                assert(after[q] == before[q]);
                if r < n {
                    assert(after[r] == before[r]);
                }
            }
            assert forall|q: int| 0 <= q < after.len() implies (#[trigger] after[q]).1@.no_duplicates() by {
                if q < n {
                    assert(after[q] == before[q]);
                }
            }
        }
    }
}

/// Every recorded word pairs with another word by the key set it is
/// recorded for.
spec fn sound(entries: Seq<(KeySet, Vec<u32>)>, words: Seq<Spelling>, max_pairs: u8) -> bool {
    forall|ks: Seq<Key>, x: u32|
        #[trigger] recorded_words(entries, ks).contains(x) ==> exists|j: int|
            pair_overlaps(words, x as int, j, ks, max_pairs) || pair_overlaps(words, j, x as int, ks, max_pairs)
}

/// Words `i < j` differ by some key set, under which both are recorded when it
/// is within the limit.
spec fn pair_done(entries: Seq<(KeySet, Vec<u32>)>, words: Seq<Spelling>, i: int, j: int, max_pairs: u8) -> bool {
    &&& letter_indexes(words[i].letters_spec())
    &&& letter_indexes(words[j].letters_spec())
    &&& exists|ks: Seq<Key>|
        #[trigger] differs_by(words[i], words[j], ks) && (within_limit(ks, max_pairs) ==> recorded_words(entries, ks).contains(
            i as u32,
        ) && recorded_words(entries, ks).contains(j as u32))
}

impl WordOverlap {
    #[verifier::type_invariant]
    spec fn inv(self) -> bool {
        &&& entries_wf(self.pairs@)
        &&& self.empty@.len() == 0
    }

    /// The words, in order; a word's number is its position.
    pub closed spec fn word_list(self) -> Seq<Spelling> {
        self.words@
    }

    /// The numbers of the words recorded for the key set `ks`.
    pub closed spec fn words_for(self, ks: Seq<Key>) -> Set<u32> {
        recorded_words(self.pairs@, ks)
    }

    /// Compares every two words of the list. Where they differ by key sets of
    /// at least one and at most `max_pairs` keys, with at most twice as many
    /// letters, both words are recorded for those keys. The list must not be
    /// empty.
    pub fn calculate(words: &Vec<Spelling>, max_pairs: u8) -> (r: WordOverlap)
        requires
            1 <= words@.len() <= u32::MAX,
        ensures
            r.word_list() == words@,
            forall|ks: Seq<Key>, x: u32|
                #[trigger] r.words_for(ks).contains(x) <==> exists|j: int|
                    pair_overlaps(words@, x as int, j, ks, max_pairs) || pair_overlaps(words@, j, x as int, ks, max_pairs),
    {
        let n: u32 = words.len() as u32;
        let limit: u32 = 2 * (max_pairs as u32);
        let mut entries: Vec<(KeySet, Vec<u32>)> = Vec::new();
        let mut a: u32 = 0;
        proof {
            assert(sound(entries@, words@, max_pairs));
        }
        while a < n - 1
            invariant
                n == words@.len(),
                1 <= n,
                a <= n - 1,
                limit == 2 * max_pairs,
                entries_wf(entries@),
                sound(entries@, words@, max_pairs),
                forall|i: int, j: int| 0 <= i < a && i < j < n ==> #[trigger] pair_done(entries@, words@, i, j, max_pairs),
            decreases n - a,
        {
            let mut b: u32 = a + 1;
            while b < n
                invariant
                    n == words@.len(),
                    a < n - 1,
                    a + 1 <= b <= n,
                    limit == 2 * max_pairs,
                    entries_wf(entries@),
                    sound(entries@, words@, max_pairs),
                    forall|i: int, j: int|
                        (0 <= i < a && i < j < n) || (i == a && a < j < b) ==> #[trigger] pair_done(
                            entries@,
                            words@,
                            i,
                            j,
                            max_pairs,
                        ),
                decreases n - b,
            {
                words[a as usize].lemma_letters();
                words[b as usize].lemma_letters();
                let diff = KeySet::with_word_differences(&words[a as usize], &words[b as usize]);
                let ghost d = diff@;
                let ghost before = entries@;
                proof {
                    let states = choose|states: Seq<Seq<Key>>|
                        merge_chain(different_at(words@[a as int].letters_spec(), words@[b as int].letters_spec()), states)
                            && diff@ == states.last();
                    assert(differs_by(words@[a as int], words@[b as int], d));
                }
                if diff.len() > 0 && diff.len() <= max_pairs as usize && diff.letters_within(limit) {
                    record(&mut entries, diff, a, b);
                    proof {
                        assert(within_limit(d, max_pairs));
                        assert(pair_overlaps(words@, a as int, b as int, d, max_pairs));
                        assert forall|ks: Seq<Key>, x: u32| #[trigger] recorded_words(entries@, ks).contains(
                            x,
                        ) implies exists|j: int|
                            pair_overlaps(words@, x as int, j, ks, max_pairs) || pair_overlaps(
                                words@,
                                j,
                                x as int,
                                ks,
                                max_pairs,
                            ) by {
                            if ks == d && x == a {
                                assert(pair_overlaps(words@, x as int, b as int, ks, max_pairs));
                            } else if ks == d && x == b {
                                assert(pair_overlaps(words@, a as int, x as int, ks, max_pairs));
                            } else {
                                assert(recorded_words(before, ks).contains(x));
                            }
                        }
                    }
                }
                proof {
                    assert forall|i: int, j: int|
                        (0 <= i < a && i < j < n) || (i == a && a < j < b + 1) implies #[trigger] pair_done(
                        entries@,
                        words@,
                        i,
                        j,
                        max_pairs,
                    ) by {
                        if i == a && j == b {
                            assert(differs_by(words@[i], words@[j], d));
                        } else {
                            assert(pair_done(before, words@, i, j, max_pairs));
                            let ks = choose|ks: Seq<Key>|
                                #[trigger] differs_by(words@[i], words@[j], ks) && (within_limit(ks, max_pairs)
                                    ==> recorded_words(before, ks).contains(i as u32) && recorded_words(
                                    before,
                                    ks,
                                ).contains(j as u32));
                            assert(recorded_words(before, ks).subset_of(recorded_words(entries@, ks)));
                            assert(differs_by(words@[i], words@[j], ks));
                        }
                    }
                }
                b = b + 1;
            }
            a = a + 1;
        }
        let r = WordOverlap { words: words.clone(), pairs: entries, empty: Vec::new() };
        proof {
            assert(r.words@ == words@);
            assert forall|ks: Seq<Key>, x: u32|
                (exists|j: int|
                    pair_overlaps(words@, x as int, j, ks, max_pairs) || pair_overlaps(
                        words@,
                        j,
                        x as int,
                        ks,
                        max_pairs,
                    )) implies #[trigger] r.words_for(ks).contains(x) by {
                let j = choose|j: int|
                    pair_overlaps(words@, x as int, j, ks, max_pairs) || pair_overlaps(words@, j, x as int, ks, max_pairs);
                let (lo, hi) = if pair_overlaps(words@, x as int, j, ks, max_pairs) {
                    (x as int, j)
                } else {
                    (j, x as int)
                };
                assert(pair_done(entries@, words@, lo, hi, max_pairs));
                let other = choose|other: Seq<Key>|
                    #[trigger] differs_by(words@[lo], words@[hi], other) && (within_limit(other, max_pairs)
                        ==> recorded_words(entries@, other).contains(lo as u32) && recorded_words(entries@, other).contains(
                        hi as u32,
                    ));
                lemma_differs_by_unique(words@[lo], words@[hi], ks, other);
                assert(r.words_for(ks) == recorded_words(entries@, ks));
            }
        }
        r
    }

    /// The word with number `index`, if there is one.
    pub fn word_from_index(&self, index: u32) -> (r: Option<Spelling>)
        ensures
            r == if index < self.word_list().len() {
                Some(self.word_list()[index as int])
            } else {
                None::<Spelling>
            },
    {
        if (index as usize) < self.words.len() {
            Some(self.words[index as usize])
        } else {
            None
        }
    }

    /// The numbers of the words recorded for `pairs`, each once; none when
    /// nothing is recorded for them.
    pub fn words_for_pairs(&self, pairs: &KeySet) -> (r: &Vec<u32>)
        ensures
            r@.no_duplicates(),
            r@.to_set() == self.words_for(pairs@),
    {
        proof {
            use_type_invariant(self);
        }
        let ghost entries = self.pairs@;
        let mut p: usize = 0;
        while p < self.pairs.len()
            invariant
                p <= entries.len(),
                entries == self.pairs@,
                entries_wf(entries),
                forall|q: int| 0 <= q < p ==> (#[trigger] entries[q]).0@ != pairs@,
            decreases entries.len() - p,
        {
            if self.pairs[p].0.same_keys(pairs) {
                let r = &self.pairs[p].1;
                proof {
                    assert(entries[p as int].0@ == pairs@);
                    assert forall|x: u32| #[trigger] recorded_words(entries, pairs@).contains(x) implies r@.contains(x) by {
                        let q = choose|q: int|
                            0 <= q < entries.len() && (#[trigger] entries[q]).0@ == pairs@ && entries[q].1@.contains(x);
                        if q != p {
                            if q < p {
                                assert(entries[q].0@ != entries[p as int].0@);
                            } else {
                                assert(entries[p as int].0@ != entries[q].0@);
                            }
                        }
                    }
                    assert forall|x: u32| r@.contains(x) implies #[trigger] recorded_words(entries, pairs@).contains(x) by {
                        assert(entries[p as int].1@.contains(x));
                    }
                    assert(r@.to_set() =~= self.words_for(pairs@));
                }
                return r;
            }
            p = p + 1;
        }
        proof {
            assert forall|x: u32| !(#[trigger] recorded_words(entries, pairs@).contains(x)) by {
                if recorded_words(entries, pairs@).contains(x) {
                    let q = choose|q: int|
                        0 <= q < entries.len() && (#[trigger] entries[q]).0@ == pairs@ && entries[q].1@.contains(x);
                }
            }
            assert(self.empty@.to_set() =~= self.words_for(pairs@));
        }
        &self.empty
    }

    /// Every key set recorded, with the numbers of its words.
    pub fn entries(&self) -> (r: &Vec<(KeySet, Vec<u32>)>)
        ensures
            entries_wf(r@),
            forall|ks: Seq<Key>| #[trigger] recorded_words(r@, ks) == self.words_for(ks),
    {
        proof {
            use_type_invariant(self);
        }
        &self.pairs
    }

    /// The words, each word recorded for the key set of every row that names
    /// its number. Every row must name a word of the list.
    pub fn with_rows(words: Vec<Spelling>, rows: Vec<(KeySet, u32)>) -> (r: WordOverlap)
        requires
            forall|k: int| 0 <= k < rows@.len() ==> (#[trigger] rows@[k]).1 < words@.len(),
        ensures
            r.word_list() == words@,
            forall|ks: Seq<Key>, x: u32|
                #[trigger] r.words_for(ks).contains(x) <==> exists|k: int|
                    0 <= k < rows@.len() && (#[trigger] rows@[k]).0@ == ks && rows@[k].1 == x,
    {
        let ghost all = rows@;
        let mut rows = rows;
        let mut entries: Vec<(KeySet, Vec<u32>)> = Vec::new();
        while rows.len() > 0
            invariant
                rows@ == all.take(rows@.len() as int),
                rows@.len() <= all.len(),
                entries_wf(entries@),
                forall|ks: Seq<Key>, x: u32|
                    #[trigger] recorded_words(entries@, ks).contains(x) <==> exists|k: int|
                        rows@.len() <= k < all.len() && (#[trigger] all[k]).0@ == ks && all[k].1 == x,
            decreases rows@.len(),
        {
            let ghost before = entries@;
            let ghost n = rows@.len() - 1;
            let (ks, x) = rows.pop().unwrap();
            proof {
                assert(all[n] == (ks, x));
                assert(rows@ =~= all.take(n));
            }
            let ghost key = ks@;
            record(&mut entries, ks, x, x);
            proof {
                assert forall|s: Seq<Key>, y: u32|
                    #[trigger] recorded_words(entries@, s).contains(y) <==> exists|k: int|
                        n <= k < all.len() && (#[trigger] all[k]).0@ == s && all[k].1 == y by {
                    if s == key && y == x {
                        assert(all[n].0@ == s && all[n].1 == y);
                    } else if recorded_words(entries@, s).contains(y) {
                        assert(recorded_words(before, s).contains(y));
                        let k = choose|k: int| n + 1 <= k < all.len() && (#[trigger] all[k]).0@ == s && all[k].1 == y;
                    } else if exists|k: int| n <= k < all.len() && (#[trigger] all[k]).0@ == s && all[k].1 == y {
                        let k = choose|k: int| n <= k < all.len() && (#[trigger] all[k]).0@ == s && all[k].1 == y;
                        if k > n {
                            assert(recorded_words(before, s).contains(y));
                        }
                    }
                }
            }
        }
        let r = WordOverlap { words, pairs: entries, empty: Vec::new() };
        proof {
            assert forall|ks: Seq<Key>, x: u32|
                #[trigger] r.words_for(ks).contains(x) <==> exists|k: int|
                    0 <= k < all.len() && (#[trigger] all[k]).0@ == ks && all[k].1 == x by {
                assert(r.words_for(ks) == recorded_words(entries@, ks));
            }
        }
        r
    }
}

} // verus!
