use vstd::arithmetic::power2::{lemma2_to64, lemma_pow2_pos, lemma_pow2_unfold, pow2};
use vstd::bits::{lemma_u64_pow2_no_overflow, lemma_u64_shl_is_mul, lemma_u64_shr_is_div};
use vstd::prelude::*;

use crate::bitset::{bit_set, lemma_bit_set_single};
use crate::popcount::{
    lemma_masks_below,
    lemma_masks_below_gap, lemma_popcount_bound, lemma_popcount_mask, masks_below,
    next_same_popcount, popcount, lemma_masks_below_binomial,
};
use crate::util::binomial;

verus! {

/// Bit `k` of the number `m`.
pub open spec fn nat_bit(m: nat, k: nat) -> bool {
    (m / pow2(k)) % 2 == 1
}

/// The items at the positions `k < upto` whose bit is set in `mask`.
pub open spec fn picked(items: Seq<u32>, mask: nat, upto: int) -> Set<u32> {
    Set::new(|v: u32| exists|k: int| 0 <= k < upto && nat_bit(mask, k as nat) && items[k] == v)
}

/// The items chosen by each number with `size` ones below `2^len(items)`, in
/// increasing order of those numbers.
pub open spec fn subsets_by_mask(items: Seq<u32>, size: nat) -> Seq<Set<u32>> {
    masks_below(pow2(items.len()), size).map_values(
        |m: nat| picked(items, m, items.len() as int),
    )
}

/// There are `C(n, size)` subsets of `size` items out of `n`.
pub proof fn lemma_subsets_count(items: Seq<u32>, size: nat)
    ensures
        subsets_by_mask(items, size).len() == binomial(items.len(), size),
{
    lemma_masks_below_binomial(items.len(), size);
}

/// A bit above the lowest is the bit one lower of half the number.
proof fn lemma_nat_bit_half(m: nat, k: nat)
    ensures
        nat_bit(m, k + 1) == nat_bit(m / 2, k),
        nat_bit(m, 0) == (m % 2 == 1),
{
    lemma_pow2_unfold(k + 1);
    lemma_pow2_pos(k);
    vstd::arithmetic::div_mod::lemma_div_denominator(m as int, 2, pow2(k) as int);
    assert(pow2(0) == 1) by {
        lemma2_to64();
    }
}

/// The items picked by a mask: the first item when the lowest bit is set, and
/// the rest as picked by half the mask.
proof fn lemma_picked_unfold(items: Seq<u32>, m: nat, n: int)
    requires
        1 <= n <= items.len(),
    ensures
        picked(items, m, n) == (if m % 2 == 1 {
            set![items[0]]
        } else {
            Set::<u32>::empty()
        }).union(picked(items.drop_first(), m / 2, n - 1)),
{
    let rest = items.drop_first();
    let left = picked(items, m, n);
    let right = (if m % 2 == 1 {
        set![items[0]]
    } else {
        Set::<u32>::empty()
    }).union(picked(rest, m / 2, n - 1));
    assert forall|v: u32| left.contains(v) <==> right.contains(v) by {
        lemma_nat_bit_half(m, 0);
        if left.contains(v) {
            let k = choose|k: int| 0 <= k < n && nat_bit(m, k as nat) && items[k] == v;
            if k > 0 {
                lemma_nat_bit_half(m, (k - 1) as nat);
                assert(rest[k - 1] == v);
                assert(picked(rest, m / 2, n - 1).contains(v));
            }
        }
        if right.contains(v) {
            if picked(rest, m / 2, n - 1).contains(v) {
                let k = choose|k: int| 0 <= k < n - 1 && nat_bit(m / 2, k as nat) && rest[k] == v;
                lemma_nat_bit_half(m, k as nat);
                assert(items[k + 1] == v);
            } else {
                assert(items[0] == v);
            }
        }
    }
    assert(left =~= right);
}

/// With distinct items, a mask below `2^n` picks as many items as it has ones,
/// all of them among the first `n` items.
pub proof fn lemma_picked_size(items: Seq<u32>, m: nat, n: int)
    requires
        0 <= n <= items.len(),
        items.no_duplicates(),
        m < pow2(n as nat),
    ensures
        picked(items, m, n).finite(),
        picked(items, m, n).len() == popcount(m),
        picked(items, m, n).subset_of(items.take(n).to_set()),
    decreases n,
{
    if n == 0 {
        assert(pow2(0) == 1) by {
            lemma2_to64();
        }
        assert(m == 0);
        assert(picked(items, m, n) =~= Set::<u32>::empty());
        assert(popcount(0) == 0);
    } else {
        let rest = items.drop_first();
        lemma_pow2_unfold(n as nat);
        assert(rest.no_duplicates()) by {
            assert forall|a: int, b: int| 0 <= a < b < rest.len() implies rest[a] != rest[b] by {
                assert(items[a + 1] != items[b + 1]);
            }
        }
        lemma_picked_size(rest, m / 2, n - 1);
        lemma_picked_unfold(items, m, n);
        let tail = picked(rest, m / 2, n - 1);
        assert(!tail.contains(items[0])) by {
            if tail.contains(items[0]) {
                assert(rest.take(n - 1).to_set().contains(items[0]));
                let k = choose|k: int| 0 <= k < n - 1 && #[trigger] rest.take(n - 1)[k] == items[0];
                assert(items[k + 1] == items[0]);
            }
        }
        if m % 2 == 1 {
            assert(set![items[0]].union(tail) =~= tail.insert(items[0]));
        } else {
            assert(Set::<u32>::empty().union(tail) =~= tail);
        }
        assert(popcount(m) == m % 2 + popcount(m / 2));
        assert forall|v: u32| picked(items, m, n).contains(v) implies items.take(n).to_set().contains(v) by {
            if v == items[0] && m % 2 == 1 {
                assert(items.take(n)[0] == v);
            } else {
                assert(tail.contains(v));
                assert(rest.take(n - 1).to_set().contains(v));
                let k = choose|k: int| 0 <= k < n - 1 && #[trigger] rest.take(n - 1)[k] == v;
                assert(items.take(n)[k + 1] == v);
            }
        }
    }
}

/// With distinct items, different masks below `2^n` pick different items.
pub proof fn lemma_picked_distinct(items: Seq<u32>, m1: nat, m2: nat, n: int)
    requires
        0 <= n <= items.len(),
        items.no_duplicates(),
        m1 < pow2(n as nat),
        m2 < pow2(n as nat),
        m1 != m2,
    ensures
        picked(items, m1, n) != picked(items, m2, n),
    decreases n,
{
    if n == 0 {
        assert(pow2(0) == 1) by {
            lemma2_to64();
        }
    } else {
        let rest = items.drop_first();
        lemma_pow2_unfold(n as nat);
        assert(rest.no_duplicates()) by {
            assert forall|a: int, b: int| 0 <= a < b < rest.len() implies rest[a] != rest[b] by {
                assert(items[a + 1] != items[b + 1]);
            }
        }
        lemma_picked_unfold(items, m1, n);
        lemma_picked_unfold(items, m2, n);
        let t1 = picked(rest, m1 / 2, n - 1);
        let t2 = picked(rest, m2 / 2, n - 1);
        lemma_picked_size(rest, m1 / 2, n - 1);
        lemma_picked_size(rest, m2 / 2, n - 1);
        assert(!t1.contains(items[0]) && !t2.contains(items[0])) by {
            if t1.contains(items[0]) {
                assert(rest.take(n - 1).to_set().contains(items[0]));
                let k = choose|k: int| 0 <= k < n - 1 && #[trigger] rest.take(n - 1)[k] == items[0];
                assert(items[k + 1] == items[0]);
            }
            if t2.contains(items[0]) {
                assert(rest.take(n - 1).to_set().contains(items[0]));
                let k = choose|k: int| 0 <= k < n - 1 && #[trigger] rest.take(n - 1)[k] == items[0];
                assert(items[k + 1] == items[0]);
            }
        }
        if m1 % 2 != m2 % 2 {
            if m1 % 2 == 1 {
                assert(picked(items, m1, n).contains(items[0]));
                assert(!picked(items, m2, n).contains(items[0]));
            } else {
                assert(!picked(items, m1, n).contains(items[0]));
                assert(picked(items, m2, n).contains(items[0]));
            }
        } else {
            assert(m1 / 2 != m2 / 2);
            lemma_picked_distinct(rest, m1 / 2, m2 / 2, n - 1);
            if picked(items, m1, n) == picked(items, m2, n) {
                assert forall|v: u32| t1.contains(v) <==> t2.contains(v) by {
                    if t1.contains(v) {
                        assert(picked(items, m1, n).contains(v));
                        assert(v != items[0]);
                    }
                    if t2.contains(v) {
                        assert(picked(items, m2, n).contains(v));
                        assert(v != items[0]);
                    }
                }
                assert(t1 =~= t2);
            }
        }
    }
}

/// The mask that picks exactly the items of `s` among the first `n` items.
pub open spec fn mask_of(items: Seq<u32>, s: Set<u32>, n: int) -> nat
    decreases n,
{
    if n <= 0 || items.len() == 0 {
        0
    } else {
        (if s.contains(items[0]) {
            1nat
        } else {
            0nat
        }) + 2 * mask_of(items.drop_first(), s, n - 1)
    }
}

/// `mask_of` is below `2^n` and picks the items of `s` among the first `n`.
pub proof fn lemma_mask_of(items: Seq<u32>, s: Set<u32>, n: int)
    requires
        0 <= n <= items.len(),
    ensures
        mask_of(items, s, n) < pow2(n as nat),
        picked(items, mask_of(items, s, n), n) == s.intersect(items.take(n).to_set()),
    decreases n,
{
    let m = mask_of(items, s, n);
    if n == 0 {
        assert(pow2(0) == 1) by {
            lemma2_to64();
        }
        assert(picked(items, m, n) =~= Set::<u32>::empty());
        assert(s.intersect(items.take(0).to_set()) =~= Set::<u32>::empty());
    } else {
        let rest = items.drop_first();
        lemma_mask_of(rest, s, n - 1);
        lemma_pow2_unfold(n as nat);
        let h = mask_of(rest, s, n - 1);
        let low: nat = if s.contains(items[0]) { 1 } else { 0 };
        assert(m == low + 2 * h);
        assert(m % 2 == low && m / 2 == h);
        lemma_picked_unfold(items, m, n);
        assert forall|v: u32| picked(items, m, n).contains(v) <==> s.intersect(items.take(n).to_set()).contains(v) by {
            if picked(items, m, n).contains(v) {
                if v == items[0] && low == 1 {
                    assert(items.take(n)[0] == v);
                } else {
                    assert(picked(rest, h, n - 1).contains(v));
                    assert(rest.take(n - 1).to_set().contains(v));
                    let k = choose|k: int| 0 <= k < n - 1 && #[trigger] rest.take(n - 1)[k] == v;
                    assert(items.take(n)[k + 1] == v);
                }
            }
            if s.intersect(items.take(n).to_set()).contains(v) {
                let k = choose|k: int| 0 <= k < n && #[trigger] items.take(n)[k] == v;
                if k == 0 {
                    assert(v == items[0]);
                } else {
                    assert(rest.take(n - 1)[k - 1] == v);
                    assert(s.intersect(rest.take(n - 1).to_set()).contains(v));
                }
            }
        }
        assert(picked(items, m, n) =~= s.intersect(items.take(n).to_set()));
    }
}

/// With distinct items, the subsets by mask are exactly the sets of `size`
/// items, each once.
pub proof fn lemma_subsets_by_mask_exact(items: Seq<u32>, size: nat)
    requires
        items.no_duplicates(),
    ensures
        forall|i: int| 0 <= i < subsets_by_mask(items, size).len() ==> {
            let t = #[trigger] subsets_by_mask(items, size)[i];
            t.subset_of(items.to_set()) && t.finite() && t.len() == size
        },
        subsets_by_mask(items, size).no_duplicates(),
        forall|t: Set<u32>| t.subset_of(items.to_set()) && t.finite() && t.len() == size ==> #[trigger] subsets_by_mask(items, size).contains(t),
{
    let n = items.len() as int;
    let masks = masks_below(pow2(n as nat), size);
    let subs = subsets_by_mask(items, size);
    crate::popcount::lemma_masks_below(pow2(n as nat), size);
    assert(items.take(n) =~= items);
    assert forall|i: int| 0 <= i < subs.len() implies {
        let t = #[trigger] subs[i];
        t.subset_of(items.to_set()) && t.finite() && t.len() == size
    } by {
        assert(subs[i] == picked(items, masks[i], n));
        lemma_picked_size(items, masks[i], n);
    }
    assert forall|i: int, j: int| 0 <= i < subs.len() && 0 <= j < subs.len() && i != j implies subs[i] != subs[j] by {
        assert(subs[i] == picked(items, masks[i], n));
        assert(subs[j] == picked(items, masks[j], n));
        if i < j {
            assert(masks[i] < masks[j]);
        } else {
            assert(masks[j] < masks[i]);
        }
        lemma_picked_distinct(items, masks[i], masks[j], n);
    }
    assert forall|t: Set<u32>| t.subset_of(items.to_set()) && t.finite() && t.len() == size implies #[trigger] subs.contains(t) by {
        lemma_mask_of(items, t, n);
        let m = mask_of(items, t, n);
        assert(t.intersect(items.to_set()) =~= t);
        lemma_picked_size(items, m, n);
        assert(popcount(m) == size);
        assert(masks.contains(m));
        let i = choose|i: int| 0 <= i < masks.len() && #[trigger] masks[i] == m;
        assert(subs[i] == t);
    }
}

/// The word whose bits are the items at the set bits of `mask`.
pub fn pick(items: &Vec<u32>, mask: u64) -> (word: u32)
    requires
        items.len() <= 32,
        forall|k: int| 0 <= k < items.len() ==> #[trigger] items[k] < 32,
    ensures
        bit_set(word) == picked(items@, mask as nat, items.len() as int),
{
    let mut word: u32 = 0;
    let mut k: usize = 0;
    proof {
        assert forall|v: u32| #[trigger] bit_set(0).contains(v) == picked(items@, mask as nat, 0).contains(v) by {
            if v < 32 {
                assert((0u32 >> v) & 1u32 == 0u32) by (bit_vector);
            }
        }
        assert(bit_set(0) =~= picked(items@, mask as nat, 0));
    }
    while k < items.len()
        invariant
            k <= items.len() <= 32,
            forall|i: int| 0 <= i < items.len() ==> #[trigger] items[i] < 32,
            bit_set(word) == picked(items@, mask as nat, k as int),
        decreases items.len() - k,
    {
        let bit = (mask >> (k as u64)) & 1u64 == 1u64;
        proof {
            lemma_u64_shr_is_div(mask, k as u64);
            let y = mask >> (k as u64);
            assert((y & 1u64 == 1u64) == (y % 2 == 1)) by (bit_vector);
            assert(bit == nat_bit(mask as nat, k as nat));
            lemma_bit_set_single(word, items[k as int]);
        }
        let ghost before = word;
        if bit {
            word = word | (1u32 << items[k]);
        }
        proof {
            let next = picked(items@, mask as nat, k as int + 1);
            let prev = picked(items@, mask as nat, k as int);
            assert forall|v: u32| #[trigger] bit_set(word).contains(v) == next.contains(v) by {
                if next.contains(v) {
                    let i = choose|i: int|
                        0 <= i < k + 1 && nat_bit(mask as nat, i as nat) && items@[i] == v;
                    if i < k {
                        assert(prev.contains(v));
                    }
                }
                if prev.contains(v) {
                    let i = choose|i: int|
                        0 <= i < k && nat_bit(mask as nat, i as nat) && items@[i] == v;
                    assert(next.contains(v));
                }
                if bit && v == items[k as int] {
                    assert(next.contains(v));
                }
            }
            assert(bit_set(word) =~= next);
        }
        k = k + 1;
    }
    word
}

/// The words of the subsets of `items` of `size` elements, one for each number
/// below `2^len(items)` with `size` ones, in increasing order of those numbers.
pub fn subset_words(items: &Vec<u32>, size: u32) -> (r: Vec<u32>)
    requires
        1 <= size <= items.len() <= 32,
        forall|k: int| 0 <= k < items.len() ==> #[trigger] items[k] < 32,
    ensures
        r@.len() == subsets_by_mask(items@, size as nat).len(),
        r@.len() == binomial(items@.len(), size as nat),
        forall|i: int|
            0 <= i < r@.len() ==> bit_set(#[trigger] r@[i]) == subsets_by_mask(items@, size as nat)[i],
{
    let len = items.len() as u64;
    let bound: u64 = 1u64 << len;
    proof {
        lemma_u64_pow2_no_overflow(len as nat);
        lemma_u64_shl_is_mul(1u64, len);
        lemma_u64_pow2_no_overflow(size as nat);
        lemma_u64_shl_is_mul(1u64, size as u64);
        lemma2_to64();
        if (size as u64) < len {
            vstd::arithmetic::power2::lemma_pow2_strictly_increases(size as nat, len as nat);
        }
        vstd::arithmetic::power2::lemma_pow2_strictly_increases(len as nat, 33);
    }
    let mut current: u64 = (1u64 << (size as u64)) - 1;
    proof {
        lemma_popcount_mask(size as nat);
        assert forall|m: nat| 0 <= m < current implies popcount(m) != size by {
            lemma_popcount_bound(m, size as nat);
        }
        lemma_masks_below_gap(0, current as nat, size as nat);
        if size as u64 == len {
            assert(current < bound);
        }
        if (size as u64) < len {
            assert(pow2(size as nat) < pow2(len as nat));
        }
    }
    let mut r: Vec<u32> = Vec::new();
    while current < bound
        invariant
            bound == pow2(len as nat),
            len == items.len(),
            1 <= size <= len <= 32,
            forall|k: int| 0 <= k < items.len() ==> #[trigger] items[k] < 32,
            0 < current <= 0x2_0000_0000u64,
            popcount(current as nat) == size,
            bound <= 0x1_0000_0000u64,
            forall|m: nat| bound <= m < current ==> popcount(m) != size,
            r@.len() == masks_below(current as nat, size as nat).len(),
            forall|i: int|
                0 <= i < r@.len() ==> bit_set(#[trigger] r@[i]) == picked(
                    items@,
                    masks_below(current as nat, size as nat)[i],
                    items.len() as int,
                ),
        decreases 0x2_0000_0000u64 - current,
    {
        let word = pick(items, current);
        r.push(word);
        let next = next_same_popcount(current);
        proof {
            assert(masks_below(current as nat + 1, size as nat) == masks_below(
                current as nat,
                size as nat,
            ).push(current as nat));
            lemma_masks_below_gap(current as nat + 1, next as nat, size as nat);
        }
        current = next;
    }
    proof {
        lemma_masks_below_gap(bound as nat, current as nat, size as nat);
        assert forall|i: int| 0 <= i < r@.len() implies bit_set(#[trigger] r@[i])
            == subsets_by_mask(items@, size as nat)[i] by {}
        lemma_subsets_count(items@, size as nat);
    }
    r
}

} // verus!
