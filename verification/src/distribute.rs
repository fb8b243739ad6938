use vstd::prelude::*;

use crate::key::Key;
use crate::keyboard::{disjoint_keys, letters_of, lemma_letters_of};
use crate::partitions::seq_sum;
use crate::tally::Tally;

verus! {

/// The largest letter of a set of letters.
pub open spec fn top_letter(s: Set<u32>) -> u32 {
    choose|x: u32| s.contains(x) && forall|y: u32| #[trigger] s.contains(y) ==> y <= x
}

/// The largest letter of a nonempty key is the last of its letters in order.
pub proof fn lemma_top_letter(k: Key)
    requires
        k@.len() > 0,
    ensures
        k@.contains(top_letter(k@)),
        forall|y: u32| #[trigger] k@.contains(y) ==> y <= top_letter(k@),
        top_letter(k@) == k.items().last(),
{
    k.lemma_items();
    let items = k.items();
    let last = items.last();
    assert(items.len() > 0);
    assert(k@.contains(last)) by {
        assert(items.contains(last));
    }
    assert forall|y: u32| #[trigger] k@.contains(y) implies y <= last by {
        assert(items.contains(y));
        let i = choose|i: int| 0 <= i < items.len() && items[i] == y;
        if i < items.len() - 1 {
            assert(items[i] < items[items.len() - 1]);
        }
    }
    let t = top_letter(k@);
    assert(k@.contains(t) && forall|y: u32| #[trigger] k@.contains(y) ==> y <= t);
    assert(t <= last && last <= t);
}

/// `s` is `n` letters taken from `from`.
pub open spec fn is_pick(s: Set<u32>, from: Set<u32>, n: nat) -> bool {
    s.subset_of(from) && s.finite() && s.len() == n
}

/// Every set of `needed` letters taken from `available`, each once: the
/// subsets that hold its largest letter, then those that do not.
pub fn subsets_including_top(available: Key, needed: u8) -> (r: Vec<Key>)
    ensures
        forall|s: Set<u32>| #[trigger] is_pick(s, available@, needed as nat) <==> exists|i: int|
            0 <= i < r@.len() && r@[i]@ == s,
        forall|i: int, j: int| 0 <= i < j < r@.len() ==> r@[i]@ != r@[j]@,
        r@.len() == crate::util::binomial(available@.len(), needed as nat),
    decreases available@.len(),
{
    proof {
        available.lemma_items();
    }
    if needed == 0 {
        let r = vec![Key::empty()];
        proof {
            assert forall|s: Set<u32>| #[trigger] is_pick(s, available@, needed as nat) <==> exists|i: int|
                0 <= i < r@.len() && #[trigger] r@[i]@ == s by {
                if s.finite() && s.len() == 0 {
                    assert(s =~= Set::<u32>::empty());
                }
                if exists|i: int| 0 <= i < r@.len() && #[trigger] r@[i]@ == s {
                    assert(s == r@[0]@);
                }
            }
        }
        return r;
    }
    match available.max_letter() {
        None => {
            let r: Vec<Key> = Vec::new();
            proof {
                assert forall|s: Set<u32>| !#[trigger] is_pick(s, available@, needed as nat) by {
                    if s.subset_of(available@) && s.finite() {
                        vstd::set_lib::lemma_len_subset(s, available@);
                    }
                }
            }
            r
        },
        Some(top) => {
            let rest = available.remove(top);
            proof {
                lemma_top_letter(available);
                rest.lemma_items();
            }
            let with_top = subsets_including_top(rest, needed - 1);
            let without_top = subsets_including_top(rest, needed);
            let mut r: Vec<Key> = Vec::new();
            let t = top.to_u32();
            let mut i: usize = 0;
            while i < with_top.len()
                invariant
                    t == top.index(),
                    i <= with_top@.len(),
                    r@.len() == i,
                    forall|a: int| 0 <= a < i ==> (#[trigger] r@[a])@ == with_top@[a]@.insert(t),
                decreases with_top@.len() - i,
            {
                r.push(with_top[i].add(top));
                i = i + 1;
            }
            let mut j: usize = 0;
            while j < without_top.len()
                invariant
                    t == top.index(),
                    j <= without_top@.len(),
                    r@.len() == with_top@.len() + j,
                    forall|a: int| 0 <= a < with_top@.len() ==> (#[trigger] r@[a])@ == with_top@[a]@.insert(t),
                    forall|a: int| 0 <= a < j ==> (#[trigger] r@[with_top@.len() + a])@ == without_top@[a]@,
                decreases without_top@.len() - j,
            {
                r.push(without_top[j]);
                j = j + 1;
            }
            proof {
                let n = with_top@.len();
                assert(rest@ == available@.remove(t));
                assert(available@.len() == rest@.len() + 1);
                assert(r@.len() == crate::util::binomial(available@.len(), needed as nat));
                assert forall|a: int| 0 <= a < n implies !(#[trigger] with_top@[a])@.contains(t) by {
                    assert(is_pick(with_top@[a]@, rest@, (needed - 1) as nat));
                }
                assert forall|a: int, b: int| 0 <= a < b < r@.len() implies r@[a]@ != r@[b]@ by {
                    if b < n {
                        assert(r@[a]@ == with_top@[a]@.insert(t));
                        assert(r@[b]@ == with_top@[b]@.insert(t));
                        if r@[a]@ == r@[b]@ {
                            assert(!with_top@[a]@.contains(t));
                            assert(!with_top@[b]@.contains(t));
                            assert(with_top@[a]@ =~= r@[a]@.remove(t));
                            assert(with_top@[b]@ =~= r@[b]@.remove(t));
                        }
                    } else if a < n {
                        assert(r@[a]@.contains(t));
                        assert(r@[n + (b - n)]@ == without_top@[b - n]@);
                        assert(is_pick(without_top@[b - n]@, rest@, needed as nat));
                    } else {
                        assert(r@[n + (a - n)]@ == without_top@[a - n]@);
                        assert(r@[n + (b - n)]@ == without_top@[b - n]@);
                    }
                }
                assert forall|s: Set<u32>| #[trigger] is_pick(s, available@, needed as nat) <==> exists|a: int|
                    0 <= a < r@.len() && #[trigger] r@[a]@ == s by {
                    if s.subset_of(available@) && s.finite() && s.len() == needed {
                        if s.contains(t) {
                            let q = s.remove(t);
                            assert(q.subset_of(rest@));
                            assert(q.len() == needed - 1);
                            assert(is_pick(q, rest@, (needed - 1) as nat));
                            let a = choose|a: int| 0 <= a < with_top@.len() && #[trigger] with_top@[a]@ == q;
                            assert(r@[a]@ == q.insert(t));
                            assert(q.insert(t) =~= s);
                        } else {
                            assert(s.subset_of(rest@));
                            assert(is_pick(s, rest@, needed as nat));
                            let a = choose|a: int| 0 <= a < without_top@.len() && #[trigger] without_top@[a]@ == s;
                            assert(r@[n + a]@ == s);
                        }
                    }
                    if exists|a: int| 0 <= a < r@.len() && #[trigger] r@[a]@ == s {
                        let a = choose|a: int| 0 <= a < r@.len() && #[trigger] r@[a]@ == s;
                        if a < n {
                            let q = with_top@[a]@;
                            assert(is_pick(q, rest@, (needed - 1) as nat));
                            assert(!q.contains(t));
                            assert(s == q.insert(t));
                        } else {
                            assert(r@[n + (a - n)]@ == without_top@[a - n]@);
                            let q = without_top@[a - n]@;
                            assert(is_pick(q, rest@, needed as nat));
                        }
                    }
                }
            }
            r
        },
    }
}

/// `ks`, read from its last key back, puts letters of `free` on keys of the
/// sizes in order: each key holds the largest letter still free and takes the
/// rest of its letters from those still free.
pub open spec fn places(free: Set<u32>, sizes: Seq<u32>, ks: Seq<Key>) -> bool
    decreases sizes.len(),
{
    if sizes.len() == 0 {
        ks.len() == 0
    } else {
        &&& ks.len() > 0
        &&& is_pick(ks.last()@, free, sizes[0] as nat)
        &&& ks.last()@.contains(top_letter(free))
        &&& places(free.difference(ks.last()@), sizes.drop_first(), ks.drop_last())
    }
}

/// The key sizes can be read back from the keys.
pub proof fn lemma_places_sizes(free: Set<u32>, sizes: Seq<u32>, ks: Seq<Key>)
    requires
        places(free, sizes, ks),
    ensures
        ks.len() == sizes.len(),
        forall|i: int| 0 <= i < sizes.len() ==> #[trigger] sizes[i] == ks[ks.len() - 1 - i]@.len(),
    decreases sizes.len(),
{
    if sizes.len() > 0 {
        lemma_places_sizes(free.difference(ks.last()@), sizes.drop_first(), ks.drop_last());
        assert forall|i: int| 0 <= i < sizes.len() implies #[trigger] sizes[i] == ks[ks.len() - 1 - i]@.len() by {
            if i > 0 {
                assert(sizes.drop_first()[i - 1] == sizes[i]);
                assert(ks.drop_last()[ks.drop_last().len() - 1 - (i - 1)] == ks[ks.len() - 1 - i]);
            }
        }
    }
}

/// A placement puts only letters of `free` on its keys, no letter on two
/// keys, as many letters as the sizes add up to; when they add up to all the
/// letters, every letter is placed.
pub proof fn lemma_places_cover(free: Set<u32>, sizes: Seq<u32>, ks: Seq<Key>)
    requires
        free.finite(),
        places(free, sizes, ks),
    ensures
        disjoint_keys(ks),
        letters_of(ks).subset_of(free),
        letters_of(ks).finite(),
        letters_of(ks).len() == seq_sum(sizes),
        seq_sum(sizes) == free.len() ==> letters_of(ks) == free,
    decreases sizes.len(),
{
    if sizes.len() == 0 {
        assert(ks.len() == 0);
        assert(letters_of(ks) =~= Set::<u32>::empty());
    } else {
        let last = ks.last();
        let rest = ks.drop_last();
        let left = free.difference(last@);
        lemma_places_cover(left, sizes.drop_first(), rest);
        lemma_sum_first(sizes);
        assert(letters_of(ks) == letters_of(rest).union(last@));
        assert(letters_of(rest).disjoint(last@));
        vstd::set_lib::lemma_set_disjoint_lens(letters_of(rest), last@);
        assert forall|i: int, j: int| 0 <= i < j < ks.len() implies ks[i]@.disjoint(ks[j]@) by {
            if j < ks.len() - 1 {
                assert(rest[i] == ks[i] && rest[j] == ks[j]);
            } else {
                assert(rest[i] == ks[i]);
                assert forall|l: u32| ks[i]@.contains(l) implies !ks[j]@.contains(l) by {
                    lemma_letters_of(rest, l);
                }
            }
        }
        if seq_sum(sizes) == free.len() {
            vstd::set_lib::lemma_subset_equality(letters_of(ks), free);
        }
    }
}

/// Two placements that hold the same keys, in whatever order, are the same
/// placement of the same sizes: each set of keys comes from one placement.
pub proof fn lemma_places_unique(free: Set<u32>, a1: Seq<u32>, a2: Seq<u32>, k1: Seq<Key>, k2: Seq<Key>)
    requires
        free.finite(),
        places(free, a1, k1),
        places(free, a2, k2),
        forall|i: int| 0 <= i < a1.len() ==> #[trigger] a1[i] >= 1,
        forall|i: int| 0 <= i < a2.len() ==> #[trigger] a2[i] >= 1,
        k1.to_set() == k2.to_set(),
    ensures
        k1 == k2,
        a1 == a2,
    decreases a1.len(),
{
    lemma_places_sizes(free, a1, k1);
    lemma_places_sizes(free, a2, k2);
    lemma_places_cover(free, a1, k1);
    lemma_places_cover(free, a2, k2);
    if a1.len() == 0 {
        if a2.len() > 0 {
            assert(k2.to_set().contains(k2[0]));
            assert(k1.to_set().contains(k2[0]));
        }
        assert(k1 =~= k2);
        assert(a1 =~= a2);
    } else {
        if a2.len() == 0 {
            assert(k1.to_set().contains(k1[0]));
            assert(k2.to_set().contains(k1[0]));
            assert(false);
        }
        let x = k1.last();
        let y = k2.last();
        let t = top_letter(free);
        // both first keys hold the largest free letter, and keys do not overlap
        assert(k1.to_set().contains(x));
        assert(k2.to_set().contains(x));
        let j = choose|j: int| 0 <= j < k2.len() && k2[j] == x;
        if j != k2.len() - 1 {
            assert(k2[j]@.disjoint(k2[k2.len() - 1]@));
            assert(x@.contains(t) && y@.contains(t));
            assert(false);
        }
        assert(x == y);
        let r1 = k1.drop_last();
        let r2 = k2.drop_last();
        // neither rest holds the first key again
        assert(!r1.contains(x)) by {
            if r1.contains(x) {
                let i = choose|i: int| 0 <= i < r1.len() && r1[i] == x;
                assert(k1[i] == x);
                assert(k1[i]@.disjoint(k1[k1.len() - 1]@));
                assert(a1[0] >= 1);
                assert(x@.len() == a1[0]);
                assert(x@.contains(t));
            }
        }
        assert(!r2.contains(y)) by {
            if r2.contains(y) {
                let i = choose|i: int| 0 <= i < r2.len() && r2[i] == y;
                assert(k2[i] == y);
                assert(k2[i]@.disjoint(k2[k2.len() - 1]@));
                assert(y@.contains(t));
            }
        }
        assert(r1.to_set() =~= k1.to_set().remove(x)) by {
            assert(k1 =~= r1.push(x));
            r1.lemma_push_to_set_commute(x);
        }
        assert(r2.to_set() =~= k2.to_set().remove(y)) by {
            assert(k2 =~= r2.push(y));
            r2.lemma_push_to_set_commute(y);
        }
        assert forall|i: int| 0 <= i < a1.drop_first().len() implies #[trigger] a1.drop_first()[i] >= 1 by {
            assert(a1.drop_first()[i] == a1[i + 1]);
        }
        assert forall|i: int| 0 <= i < a2.drop_first().len() implies #[trigger] a2.drop_first()[i] >= 1 by {
            assert(a2.drop_first()[i] == a2[i + 1]);
        }
        lemma_places_unique(free.difference(x@), a1.drop_first(), a2.drop_first(), r1, r2);
        assert(k1 =~= r1.push(x));
        assert(k2 =~= r2.push(y));
        assert(a1[0] == x@.len() && a2[0] == y@.len());
        assert(a1 =~= seq![a1[0]] + a1.drop_first());
        assert(a2 =~= seq![a2[0]] + a2.drop_first());
    }
}

proof fn lemma_sum_first(s: Seq<u32>)
    requires
        s.len() > 0,
    ensures
        seq_sum(s) == s[0] + seq_sum(s.drop_first()),
    decreases s.len(),
{
    if s.len() == 1 {
        assert(s.drop_first().len() == 0);
        assert(s.drop_last().len() == 0);
        assert(seq_sum(s.drop_last()) == 0);
    } else {
        lemma_sum_first(s.drop_last());
        assert(s.drop_last().drop_first() =~= s.drop_first().drop_last());
        assert(s.drop_first().last() == s.last());
    }
}

proof fn lemma_sum_nonnegative(s: Seq<u32>)
    ensures
        seq_sum(s) >= 0,
    decreases s.len(),
{
    if s.len() > 0 {
        lemma_sum_nonnegative(s.drop_last());
    }
}

/// The views of a list of key lists.
pub open spec fn key_lists(r: Seq<Vec<Key>>) -> Seq<Seq<Key>> {
    r.map_values(|v: Vec<Key>| v@)
}

/// What the placements listed so far hold: exactly those whose first key is
/// one of the first `k` choices, each once.
pub open spec fn placed_so_far(letters: Set<u32>, sz: Seq<u32>, t: u32, others: Seq<Set<u32>>, k: int, r: Seq<Seq<Key>>) -> bool {
    &&& forall|ks: Seq<Key>| (places(letters, sz, ks) && exists|c: int| 0 <= c < k && others[c].insert(t) == ks.last()@)
        <==> r.contains(ks)
    &&& r.no_duplicates()
    &&& forall|a: int| 0 <= a < r.len() ==> (#[trigger] r[a]).len() > 0 && exists|c: int|
        0 <= c < k && others[c].insert(t) == r[a].last()@
}

/// Adding the placements that start with the `k`-th choice keeps
/// `placed_so_far`.
proof fn lemma_place_step_shape(
    letters: Set<u32>,
    sz: Seq<u32>,
    t: u32,
    rest: Set<u32>,
    others: Seq<Set<u32>>,
    k: int,
    key: Key,
    before: Seq<Seq<Key>>,
    tails: Seq<Seq<Key>>,
    after: Seq<Seq<Key>>,
)
    requires
        sz.len() > 0,
        sz[0] >= 1,
        t == top_letter(letters),
        letters.contains(t),
        rest == letters.remove(t),
        letters.finite(),
        0 <= k < others.len(),
        forall|s: Set<u32>| #[trigger] is_pick(s, rest, (sz[0] - 1) as nat) <==> others.contains(s),
        others.no_duplicates(),
        key@ == others[k].insert(t),
        forall|q: Seq<Key>| places(letters.difference(key@), sz.drop_first(), q) <==> tails.contains(q),
        tails.no_duplicates(),
        placed_so_far(letters, sz, t, others, k, before),
        after.len() == before.len() + tails.len(),
        forall|a: int| 0 <= a < before.len() ==> after[a] == before[a],
        forall|a: int| 0 <= a < tails.len() ==> #[trigger] after[before.len() + a] == tails[a].push(key),
    ensures
        forall|a: int| 0 <= a < after.len() ==> (#[trigger] after[a]).len() > 0 && exists|c: int|
            0 <= c < k + 1 && others[c].insert(t) == after[a].last()@,
{
    let n = before.len();
    let size = sz[0];
    assert(others.contains(others[k]));
    assert(is_pick(others[k], rest, (size - 1) as nat));
    assert(!others[k].contains(t));
    assert forall|a: int| 0 <= a < after.len() implies (#[trigger] after[a]).len() > 0 && exists|c: int|
        0 <= c < k + 1 && others[c].insert(t) == after[a].last()@ by {
        if a < n {
            assert(after[a] == before[a]);
        } else {
            assert(after[n + (a - n)] == tails[a - n].push(key));
        }
    }
}

proof fn lemma_place_step_distinct(
    letters: Set<u32>,
    sz: Seq<u32>,
    t: u32,
    rest: Set<u32>,
    others: Seq<Set<u32>>,
    k: int,
    key: Key,
    before: Seq<Seq<Key>>,
    tails: Seq<Seq<Key>>,
    after: Seq<Seq<Key>>,
)
    requires
        sz.len() > 0,
        sz[0] >= 1,
        t == top_letter(letters),
        letters.contains(t),
        rest == letters.remove(t),
        letters.finite(),
        0 <= k < others.len(),
        forall|s: Set<u32>| #[trigger] is_pick(s, rest, (sz[0] - 1) as nat) <==> others.contains(s),
        others.no_duplicates(),
        key@ == others[k].insert(t),
        forall|q: Seq<Key>| places(letters.difference(key@), sz.drop_first(), q) <==> tails.contains(q),
        tails.no_duplicates(),
        placed_so_far(letters, sz, t, others, k, before),
        after.len() == before.len() + tails.len(),
        forall|a: int| 0 <= a < before.len() ==> after[a] == before[a],
        forall|a: int| 0 <= a < tails.len() ==> #[trigger] after[before.len() + a] == tails[a].push(key),
    ensures
        after.no_duplicates(),
{
    let n = before.len();
    let size = sz[0];
    assert(others.contains(others[k]));
    assert(is_pick(others[k], rest, (size - 1) as nat));
    assert(!others[k].contains(t));
    assert forall|a: int, b: int| 0 <= a < after.len() && 0 <= b < after.len() && a != b implies after[a] != after[b] by {
        if a < n && b < n {
            assert(after[a] == before[a] && after[b] == before[b]);
        } else if a < n || b < n {
            let (x, y) = if a < n { (a, b) } else { (b, a) };
            assert(after[x] == before[x]);
            let c = choose|c: int| 0 <= c < k && others[c].insert(t) == before[x].last()@;
            assert(after[n + (y - n)] == tails[y - n].push(key));
            assert(others.contains(others[c]));
            assert(is_pick(others[c], rest, (size - 1) as nat));
            assert(others[c] != others[k]);
            if after[x] == after[y] {
                assert(others[c] =~= key@.remove(t));
                assert(others[k] =~= key@.remove(t));
            }
        } else {
            assert(after[n + (a - n)] == tails[a - n].push(key));
            assert(after[n + (b - n)] == tails[b - n].push(key));
            if after[a] == after[b] {
                assert(tails[a - n] =~= after[a].drop_last());
                assert(tails[b - n] =~= after[b].drop_last());
            }
        }
    }
}

proof fn lemma_place_step_into(
    letters: Set<u32>,
    sz: Seq<u32>,
    t: u32,
    rest: Set<u32>,
    others: Seq<Set<u32>>,
    k: int,
    key: Key,
    before: Seq<Seq<Key>>,
    tails: Seq<Seq<Key>>,
    after: Seq<Seq<Key>>,
)
    requires
        sz.len() > 0,
        sz[0] >= 1,
        t == top_letter(letters),
        letters.contains(t),
        rest == letters.remove(t),
        letters.finite(),
        0 <= k < others.len(),
        forall|s: Set<u32>| #[trigger] is_pick(s, rest, (sz[0] - 1) as nat) <==> others.contains(s),
        others.no_duplicates(),
        key@ == others[k].insert(t),
        forall|q: Seq<Key>| places(letters.difference(key@), sz.drop_first(), q) <==> tails.contains(q),
        tails.no_duplicates(),
        placed_so_far(letters, sz, t, others, k, before),
        after.len() == before.len() + tails.len(),
        forall|a: int| 0 <= a < before.len() ==> after[a] == before[a],
        forall|a: int| 0 <= a < tails.len() ==> #[trigger] after[before.len() + a] == tails[a].push(key),
    ensures
        forall|ks: Seq<Key>| places(letters, sz, ks) && (exists|c: int| 0 <= c < k + 1 && others[c].insert(t) == ks.last()@)
            ==> #[trigger] after.contains(ks),
{
    let n = before.len();
    assert forall|ks: Seq<Key>| places(letters, sz, ks) && (exists|c: int| 0 <= c < k + 1 && others[c].insert(t) == ks.last()@)
        implies #[trigger] after.contains(ks) by {
        let c = choose|c: int| 0 <= c < k + 1 && others[c].insert(t) == ks.last()@;
        if c < k {
            assert(before.contains(ks));
            let i = choose|i: int| 0 <= i < before.len() && before[i] == ks;
            assert(after[i] == ks);
        } else {
            let q = ks.drop_last();
            Key::lemma_view_injective(ks.last(), key);
            assert(ks =~= q.push(key));
            assert(tails.contains(q));
            let v = choose|v: int| 0 <= v < tails.len() && tails[v] == q;
            assert(after[n + v] == ks);
        }
    }
}

#[verifier::spinoff_prover]
#[verifier::rlimit(40)]
proof fn lemma_place_step_from(
    letters: Set<u32>,
    sz: Seq<u32>,
    t: u32,
    rest: Set<u32>,
    others: Seq<Set<u32>>,
    k: int,
    key: Key,
    before: Seq<Seq<Key>>,
    tails: Seq<Seq<Key>>,
    after: Seq<Seq<Key>>,
)
    requires
        sz.len() > 0,
        sz[0] >= 1,
        t == top_letter(letters),
        letters.contains(t),
        rest == letters.remove(t),
        letters.finite(),
        0 <= k < others.len(),
        forall|s: Set<u32>| #[trigger] is_pick(s, rest, (sz[0] - 1) as nat) <==> others.contains(s),
        others.no_duplicates(),
        key@ == others[k].insert(t),
        forall|q: Seq<Key>| places(letters.difference(key@), sz.drop_first(), q) <==> tails.contains(q),
        tails.no_duplicates(),
        placed_so_far(letters, sz, t, others, k, before),
        after.len() == before.len() + tails.len(),
        forall|a: int| 0 <= a < before.len() ==> after[a] == before[a],
        forall|a: int| 0 <= a < tails.len() ==> #[trigger] after[before.len() + a] == tails[a].push(key),
    ensures
        forall|ks: Seq<Key>| #[trigger] after.contains(ks) ==> places(letters, sz, ks) && exists|c: int|
            0 <= c < k + 1 && others[c].insert(t) == ks.last()@,
{
    let n = before.len();
    let size = sz[0];
    assert(others.contains(others[k]));
    assert(is_pick(others[k], rest, (size - 1) as nat));
    assert(!others[k].contains(t));
    assert forall|ks: Seq<Key>| #[trigger] after.contains(ks) implies places(letters, sz, ks) && exists|c: int|
        0 <= c < k + 1 && others[c].insert(t) == ks.last()@ by {
        let i = choose|i: int| 0 <= i < after.len() && after[i] == ks;
        if i < n {
            assert(after[i] == before[i]);
            assert(before.contains(ks));
            assert(places(letters, sz, ks) && exists|c: int| 0 <= c < k && others[c].insert(t) == ks.last()@);
        } else {
            assert(after[n + (i - n)] == tails[i - n].push(key));
            assert(tails.contains(tails[i - n]));
            lemma_place_one(letters, sz, t, rest, others, k, key, tails[i - n], ks);
            assert(others[k].insert(t) == ks.last()@);
        }
    }
}

/// A placement of the rest after the `k`-th choice, with that choice's key
/// added, is a placement.
proof fn lemma_place_one(
    letters: Set<u32>,
    sz: Seq<u32>,
    t: u32,
    rest: Set<u32>,
    others: Seq<Set<u32>>,
    k: int,
    key: Key,
    q: Seq<Key>,
    ks: Seq<Key>,
)
    requires
        sz.len() > 0,
        sz[0] >= 1,
        t == top_letter(letters),
        letters.contains(t),
        rest == letters.remove(t),
        letters.finite(),
        0 <= k < others.len(),
        forall|s: Set<u32>| #[trigger] is_pick(s, rest, (sz[0] - 1) as nat) <==> others.contains(s),
        key@ == others[k].insert(t),
        places(letters.difference(key@), sz.drop_first(), q),
        ks == q.push(key),
    ensures
        places(letters, sz, ks),
        ks.last() == key,
{
    let size = sz[0];
    assert(others.contains(others[k]));
    assert(is_pick(others[k], rest, (size - 1) as nat));
    assert(!others[k].contains(t));
    assert(ks.drop_last() =~= q);
    assert(ks.last() == key);
    assert(key@.subset_of(letters));
    assert(key@.finite());
    assert(key@.len() == size);
    assert(is_pick(ks.last()@, letters, sz[0] as nat));
    assert(ks.last()@.contains(top_letter(letters)));
}

proof fn lemma_place_step_exact(
    letters: Set<u32>,
    sz: Seq<u32>,
    t: u32,
    rest: Set<u32>,
    others: Seq<Set<u32>>,
    k: int,
    key: Key,
    before: Seq<Seq<Key>>,
    tails: Seq<Seq<Key>>,
    after: Seq<Seq<Key>>,
)
    requires
        sz.len() > 0,
        sz[0] >= 1,
        t == top_letter(letters),
        letters.contains(t),
        rest == letters.remove(t),
        letters.finite(),
        0 <= k < others.len(),
        forall|s: Set<u32>| #[trigger] is_pick(s, rest, (sz[0] - 1) as nat) <==> others.contains(s),
        others.no_duplicates(),
        key@ == others[k].insert(t),
        forall|q: Seq<Key>| places(letters.difference(key@), sz.drop_first(), q) <==> tails.contains(q),
        tails.no_duplicates(),
        placed_so_far(letters, sz, t, others, k, before),
        after.len() == before.len() + tails.len(),
        forall|a: int| 0 <= a < before.len() ==> after[a] == before[a],
        forall|a: int| 0 <= a < tails.len() ==> #[trigger] after[before.len() + a] == tails[a].push(key),
    ensures
        forall|ks: Seq<Key>| (places(letters, sz, ks) && exists|c: int| 0 <= c < k + 1 && others[c].insert(t) == ks.last()@)
            <==> after.contains(ks),
{
    lemma_place_step_into(letters, sz, t, rest, others, k, key, before, tails, after);
    lemma_place_step_from(letters, sz, t, rest, others, k, key, before, tails, after);
}

proof fn lemma_place_step(
    letters: Set<u32>,
    sz: Seq<u32>,
    t: u32,
    rest: Set<u32>,
    others: Seq<Set<u32>>,
    k: int,
    key: Key,
    before: Seq<Seq<Key>>,
    tails: Seq<Seq<Key>>,
    after: Seq<Seq<Key>>,
)
    requires
        sz.len() > 0,
        sz[0] >= 1,
        t == top_letter(letters),
        letters.contains(t),
        rest == letters.remove(t),
        letters.finite(),
        0 <= k < others.len(),
        forall|s: Set<u32>| #[trigger] is_pick(s, rest, (sz[0] - 1) as nat) <==> others.contains(s),
        others.no_duplicates(),
        key@ == others[k].insert(t),
        forall|q: Seq<Key>| places(letters.difference(key@), sz.drop_first(), q) <==> tails.contains(q),
        tails.no_duplicates(),
        placed_so_far(letters, sz, t, others, k, before),
        after.len() == before.len() + tails.len(),
        forall|a: int| 0 <= a < before.len() ==> after[a] == before[a],
        forall|a: int| 0 <= a < tails.len() ==> #[trigger] after[before.len() + a] == tails[a].push(key),
    ensures
        placed_so_far(letters, sz, t, others, k + 1, after),
{
    lemma_place_step_shape(letters, sz, t, rest, others, k, key, before, tails, after);
    lemma_place_step_distinct(letters, sz, t, rest, others, k, key, before, tails, after);
    lemma_place_step_exact(letters, sz, t, rest, others, k, key, before, tails, after);
}

/// Every way to put letters of `letters` on keys of the sizes from position
/// `from` on (see `places`), each once; each key list is in reverse order of
/// placement.
fn place(letters: Key, sizes: &Vec<u32>, from: usize) -> (r: Vec<Vec<Key>>)
    requires
        from <= sizes@.len(),
        forall|i: int| from <= i < sizes@.len() ==> #[trigger] sizes@[i] >= 1,
        seq_sum(sizes@.skip(from as int)) <= letters@.len(),
    ensures
        forall|ks: Seq<Key>| #[trigger] places(letters@, sizes@.skip(from as int), ks) <==> key_lists(r@).contains(ks),
        key_lists(r@).no_duplicates(),
    decreases sizes@.len() - from,
{
    let ghost sz = sizes@.skip(from as int);
    proof {
        letters.lemma_items();
    }
    if from == sizes.len() {
        let r: Vec<Vec<Key>> = vec![Vec::new()];
        proof {
            assert(sz.len() == 0);
            assert(key_lists(r@)[0] == Seq::<Key>::empty());
            assert forall|ks: Seq<Key>| #[trigger] places(letters@, sz, ks) <==> key_lists(r@).contains(ks) by {
                if places(letters@, sz, ks) {
                    assert(ks =~= key_lists(r@)[0]);
                }
            }
        }
        return r;
    }
    let size = sizes[from];
    proof {
        assert(sz[0] == size);
        lemma_sum_first(sz);
        assert(sz.drop_first() =~= sizes@.skip(from + 1));
        lemma_sum_nonnegative(sz.drop_first());
    }
    letters.lemma_letters_in_alphabet();
    let top = letters.max_letter().unwrap();
    let rest = letters.remove(top);
    proof {
        lemma_top_letter(letters);
        rest.lemma_items();
    }
    let others = subsets_including_top(rest, (size - 1) as u8);
    let ghost t = top.index();
    let ghost choices = others@.map_values(|o: Key| o@);
    proof {
        assert forall|s: Set<u32>| #[trigger] is_pick(s, rest@, (sz[0] - 1) as nat) <==> choices.contains(s) by {
            if is_pick(s, rest@, (sz[0] - 1) as nat) {
                let i = choose|i: int| 0 <= i < others@.len() && others@[i]@ == s;
                assert(choices[i] == s);
            }
            if choices.contains(s) {
                let i = choose|i: int| 0 <= i < choices.len() && choices[i] == s;
                assert(others@[i]@ == s);
            }
        }
        assert(choices.no_duplicates()) by {
            assert forall|i: int, j: int| 0 <= i < choices.len() && 0 <= j < choices.len() && i != j implies choices[i] != choices[j] by {
                if i < j {
                    assert(others@[i]@ != others@[j]@);
                } else {
                    assert(others@[j]@ != others@[i]@);
                }
            }
        }
        assert(key_lists(Seq::<Vec<Key>>::empty()) =~= Seq::<Seq<Key>>::empty());
    }
    let mut result: Vec<Vec<Key>> = Vec::new();
    let mut k: usize = 0;
    while k < others.len()
        invariant
            from < sizes.len(),
            sz == sizes@.skip(from as int),
            sz.len() > 0,
            sz[0] == size,
            size >= 1,
            forall|i: int| from <= i < sizes@.len() ==> #[trigger] sizes@[i] >= 1,
            seq_sum(sz.drop_first()) + size <= letters@.len(),
            sz.drop_first() =~= sizes@.skip(from + 1),
            t == top.index(),
            t == top_letter(letters@),
            letters@.contains(t),
            rest@ == letters@.remove(t),
            letters@.finite(),
            k <= others@.len(),
            choices == others@.map_values(|o: Key| o@),
            forall|s: Set<u32>| #[trigger] is_pick(s, rest@, (sz[0] - 1) as nat) <==> choices.contains(s),
            choices.no_duplicates(),
            placed_so_far(letters@, sz, t, choices, k as int, key_lists(result@)),
        decreases others@.len() - k,
    {
        let key = others[k].add(top);
        let remaining = letters.except(key);
        proof {
            assert(choices[k as int] == others@[k as int]@);
            assert(choices.contains(choices[k as int]));
            assert(is_pick(others@[k as int]@, rest@, (size - 1) as nat));
            assert(!others@[k as int]@.contains(t));
            assert(key@.len() == size);
            assert(key@.subset_of(letters@));
            vstd::set_lib::lemma_set_difference_len(letters@, key@);
            assert(letters@.intersect(key@) =~= key@);
        }
        let tails = place(remaining, sizes, from + 1);
        let ghost before = key_lists(result@);
        let mut u: usize = 0;
        while u < tails.len()
            invariant
                u <= tails@.len(),
                key_lists(result@).len() == before.len() + u,
                forall|a: int| 0 <= a < before.len() ==> key_lists(result@)[a] == before[a],
                forall|a: int| 0 <= a < u ==> #[trigger] key_lists(result@)[before.len() + a] == key_lists(tails@)[a].push(key),
            decreases tails@.len() - u,
        {
            let mut ks = tails[u].clone();
            proof {
                assert(ks@ =~= tails@[u as int]@);
            }
            ks.push(key);
            let ghost prev = key_lists(result@);
            result.push(ks);
            proof {
                assert(key_lists(result@) =~= prev.push(ks@));
            }
            u = u + 1;
        }
        proof {
            assert(remaining@ == letters@.difference(key@));
            lemma_place_step(letters@, sz, t, rest@, choices, k as int, key, before, key_lists(tails@), key_lists(result@));
        }
        k = k + 1;
    }
    proof {
        let r = key_lists(result@);
        assert forall|ks: Seq<Key>| #[trigger] places(letters@, sz, ks) <==> r.contains(ks) by {
            if places(letters@, sz, ks) {
                let last = ks.last()@;
                assert(is_pick(last, letters@, size as nat));
                assert(last.contains(t));
                let q = last.remove(t);
                assert(q.subset_of(rest@));
                assert(is_pick(q, rest@, (size - 1) as nat));
                let c = choose|c: int| 0 <= c < choices.len() && choices[c] == q;
                assert(q.insert(t) =~= last);
            }
        }
    }
    result
}

/// One of the lists holds exactly these keys.
pub open spec fn listed(lists: Seq<Vec<Key>>, ks: Seq<Key>) -> bool {
    exists|i: int| 0 <= i < lists.len() && #[trigger] lists[i]@ == ks
}

/// The keys place the letters for some order of the sizes that the tally
/// counts.
pub open spec fn splits(key_sizes: Tally, letters: Set<u32>, ks: Seq<Key>) -> bool {
    exists|a: Seq<u32>| #[trigger] key_sizes.arranges(a) && places(letters, a, ks)
}

impl Key {
    /// Every way to split the key's letters over keys whose sizes the tally
    /// counts: for each order of the sizes, every placement in which each key
    /// takes the largest letter still free (see `places`). Each set of keys
    /// comes once, its keys listed in reverse order of placement.
    pub fn distribute(&self, key_sizes: &Tally) -> (r: Vec<Vec<Key>>)
        requires
            key_sizes.count_of(0) == 0,
            forall|s: Seq<u32>| #[trigger] key_sizes.arranges(s) ==> seq_sum(s) <= self@.len(),
        ensures
            forall|ks: Seq<Key>| #[trigger] splits(*key_sizes, self@, ks) <==> exists|i: int| 0 <= i < r@.len() && r@[i]@ == ks,
            forall|i: int, j: int| 0 <= i < j < r@.len() ==> r@[i]@ != r@[j]@,
    {
        let orders = key_sizes.combinations();
        let mut result: Vec<Vec<Key>> = Vec::new();
        let mut k: usize = 0;
        while k < orders.len()
            invariant
                k <= orders@.len(),
                key_sizes.count_of(0) == 0,
                forall|s: Seq<u32>| #[trigger] key_sizes.arranges(s) ==> seq_sum(s) <= self@.len(),
                forall|s: Seq<u32>| key_sizes.arranges(s) <==> exists|i: int| 0 <= i < orders@.len() && #[trigger] orders@[i]@ == s,
                forall|i: int, j: int| 0 <= i < j < orders@.len() ==> orders@[i]@ != orders@[j]@,
                forall|ks: Seq<Key>| (exists|c: int| 0 <= c < k && #[trigger] places(self@, orders@[c]@, ks))
                    <==> #[trigger] listed(result@, ks),
                forall|a: int, b: int| 0 <= a < b < result@.len() ==> result@[a]@ != result@[b]@,
                forall|a: int| 0 <= a < result@.len() ==> exists|c: int| 0 <= c < k && places(self@, orders@[c]@, #[trigger] result@[a]@),
            decreases orders@.len() - k,
        {
            let order = &orders[k];
            proof {
                assert(key_sizes.arranges(orders@[k as int]@));
                assert forall|i: int| 0 <= i < order@.len() implies #[trigger] order@[i] >= 1 by {
                    let x = order@[i];
                    if x == 0 {
                        assert(order@.contains(x));
                        lemma_occurrences_contains(order@, x);
                        assert(crate::arrange::occurrences(order@, x) == key_sizes.count_of(x));
                    }
                }
                assert(order@.skip(0) =~= order@);
            }
            let placed = place(*self, order, 0);
            let ghost before = result@;
            let mut u: usize = 0;
            while u < placed.len()
                invariant
                    u <= placed@.len(),
                    result@.len() == before.len() + u,
                    forall|a: int| 0 <= a < before.len() ==> result@[a] == before[a],
                    forall|a: int| 0 <= a < u ==> (#[trigger] result@[before.len() + a])@ == placed@[a]@,
                decreases placed@.len() - u,
            {
                let ks = placed[u].clone();
                proof {
                    assert(ks@ =~= placed@[u as int]@);
                }
                result.push(ks);
                u = u + 1;
            }
            proof {
                let n = before.len();
                let a_k = orders@[k as int]@;
                assert(order@.skip(0) =~= a_k);
                assert forall|a: int| 0 <= a < result@.len() implies exists|c: int| 0 <= c < k + 1 && places(self@, orders@[c]@, #[trigger] result@[a]@) by {
                    if a < n {
                        assert(result@[a] == before[a]);
                    } else {
                        assert(result@[n + (a - n)]@ == placed@[a - n]@);
                        assert(key_lists(placed@)[a - n] == placed@[a - n]@);
                        assert(places(self@, a_k, placed@[a - n]@));
                    }
                }
                assert forall|a: int, b: int| 0 <= a < b < result@.len() implies result@[a]@ != result@[b]@ by {
                    if b < n {
                        assert(result@[a] == before[a]);
                        assert(result@[b] == before[b]);
                    } else if a < n {
                        assert(result@[a] == before[a]);
                        let c = choose|c: int| 0 <= c < k && #[trigger] places(self@, orders@[c]@, before[a]@);
                        assert(result@[n + (b - n)]@ == placed@[b - n]@);
                        assert(key_lists(placed@)[b - n] == placed@[b - n]@);
                        assert(places(self@, a_k, placed@[b - n]@));
                        if result@[a]@ == result@[b]@ {
                            lemma_places_sizes(self@, orders@[c]@, before[a]@);
                            lemma_places_sizes(self@, a_k, placed@[b - n]@);
                            assert(orders@[c]@ =~= a_k);
                        }
                    } else {
                        assert(result@[n + (a - n)]@ == placed@[a - n]@);
                        assert(result@[n + (b - n)]@ == placed@[b - n]@);
                        assert(key_lists(placed@)[a - n] == placed@[a - n]@);
                        assert(key_lists(placed@)[b - n] == placed@[b - n]@);
                    }
                }
                assert forall|ks: Seq<Key>| (exists|c: int| 0 <= c < k + 1 && #[trigger] places(self@, orders@[c]@, ks))
                    <==> #[trigger] listed(result@, ks) by {
                    if exists|c: int| 0 <= c < k + 1 && #[trigger] places(self@, orders@[c]@, ks) {
                        let c = choose|c: int| 0 <= c < k + 1 && #[trigger] places(self@, orders@[c]@, ks);
                        if c < k {
                            assert(listed(before, ks));
                            let i = choose|i: int| 0 <= i < before.len() && #[trigger] before[i]@ == ks;
                            assert(result@[i] == before[i]);
                            assert(result@[i]@ == ks);
                        } else {
                            assert(places(self@, order@.skip(0), ks));
                            let v = choose|v: int| 0 <= v < key_lists(placed@).len() && key_lists(placed@)[v] == ks;
                            assert(result@[n + v]@ == placed@[v]@);
                            assert(result@[n + v]@ == ks);
                        }
                    }
                    if listed(result@, ks) {
                        let i = choose|i: int| 0 <= i < result@.len() && #[trigger] result@[i]@ == ks;
                        if i < n {
                            assert(result@[i] == before[i]);
                            assert(before[i]@ == ks);
                            assert(listed(before, ks));
                        } else {
                            assert(result@[n + (i - n)]@ == placed@[i - n]@);
                            assert(key_lists(placed@)[i - n] == ks);
                            assert(places(self@, a_k, ks));
                        }
                    }
                }
            }
            k = k + 1;
        }
        proof {
            assert forall|ks: Seq<Key>| #[trigger] splits(*key_sizes, self@, ks) <==> exists|i: int| 0 <= i < result@.len() && result@[i]@ == ks by {
                if splits(*key_sizes, self@, ks) {
                    let a = choose|a: Seq<u32>| #[trigger] key_sizes.arranges(a) && places(self@, a, ks);
                    let c = choose|c: int| 0 <= c < orders@.len() && #[trigger] orders@[c]@ == a;
                    assert(places(self@, orders@[c]@, ks));
                    assert(listed(result@, ks));
                }
                if exists|i: int| 0 <= i < result@.len() && result@[i]@ == ks {
                    let i = choose|i: int| 0 <= i < result@.len() && result@[i]@ == ks;
                    assert(listed(result@, ks));
                    let c = choose|c: int| 0 <= c < orders@.len() && #[trigger] places(self@, orders@[c]@, ks);
                    assert(key_sizes.arranges(orders@[c]@));
                }
            }
        }
        result
    }
}

proof fn lemma_occurrences_contains(s: Seq<u32>, x: u32)
    requires
        s.contains(x),
    ensures
        crate::arrange::occurrences(s, x) >= 1,
    decreases s.len(),
{
    if s.last() != x {
        let i = choose|i: int| 0 <= i < s.len() && s[i] == x;
        assert(s.drop_last()[i] == x);
        lemma_occurrences_contains(s.drop_last(), x);
    }
}

} // verus!
