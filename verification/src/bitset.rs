use vstd::prelude::*;
use vstd::std_specs::bits::*;

verus! {

/// Bit `i` of the word `x` is set.
pub open spec fn has_bit(x: u32, i: u32) -> bool {
    i < 32 && (x >> i) & 1u32 == 1u32
}

/// The indexes of the set bits of `x` that are below `n`, in increasing order.
pub open spec fn ones_below(x: u32, n: nat) -> Seq<u32>
    decreases n,
{
    if n == 0 {
        Seq::empty()
    } else {
        let rest = ones_below(x, (n - 1) as nat);
        if has_bit(x, (n - 1) as u32) {
            rest.push((n - 1) as u32)
        } else {
            rest
        }
    }
}

/// The indexes of all the set bits of `x`, in increasing order.
pub open spec fn ones(x: u32) -> Seq<u32> {
    ones_below(x, 32)
}

/// The set of indexes of the set bits of `x`.
pub open spec fn bit_set(x: u32) -> Set<u32> {
    Set::new(|i: u32| has_bit(x, i))
}

/// A sequence that is strictly increasing.
pub open spec fn strictly_increasing(s: Seq<u32>) -> bool {
    forall|a: int, b: int| 0 <= a < b < s.len() ==> s[a] < s[b]
}

pub proof fn lemma_ones_below(x: u32, n: nat)
    requires
        n <= 32,
    ensures
        ones_below(x, n).len() <= n,
        strictly_increasing(ones_below(x, n)),
        forall|k: int| 0 <= k < ones_below(x, n).len() ==> #[trigger] ones_below(x, n)[k] < n
            && has_bit(x, ones_below(x, n)[k]),
        forall|i: u32| i < n ==> (has_bit(x, i) <==> ones_below(x, n).contains(i)),
        forall|i: u32| ones_below(x, n).contains(i) ==> i < n && has_bit(x, i),
    decreases n,
{
    if n > 0 {
        lemma_ones_below(x, (n - 1) as nat);
        let rest = ones_below(x, (n - 1) as nat);
        let s = ones_below(x, n);
        assert forall|i: u32| i < n implies (has_bit(x, i) <==> s.contains(i)) by {
            if i < n - 1 {
                if rest.contains(i) {
                    let k = choose|k: int| 0 <= k < rest.len() && rest[k] == i;
                    assert(s[k] == i);
                }
                if s.contains(i) {
                    let k = choose|k: int| 0 <= k < s.len() && s[k] == i;
                    if k < rest.len() {
                        assert(rest[k] == i);
                    }
                }
            } else {
                if has_bit(x, i) {
                    assert(s[s.len() - 1] == i);
                } else {
                    assert(s == rest);
                    if s.contains(i) {
                        let k = choose|k: int| 0 <= k < s.len() && s[k] == i;
                        assert(rest[k] < n - 1);
                    }
                }
            }
        }
        assert forall|i: u32| s.contains(i) implies i < n && has_bit(x, i) by {
            let k = choose|k: int| 0 <= k < s.len() && s[k] == i;
            if k < rest.len() {
                assert(rest[k] == i);
            }
        }
    }
}

/// The set bits of `x` in increasing order are exactly the members of its bit set.
pub proof fn lemma_ones(x: u32)
    ensures
        ones(x).len() <= 32,
        strictly_increasing(ones(x)),
        forall|k: int| 0 <= k < ones(x).len() ==> #[trigger] ones(x)[k] < 32 && has_bit(
            x,
            ones(x)[k],
        ),
        forall|i: u32| has_bit(x, i) <==> ones(x).contains(i),
        ones(x).to_set() =~= bit_set(x),
        ones(x).no_duplicates(),
{
    lemma_ones_below(x, 32);
    assert forall|i: u32| has_bit(x, i) <==> ones(x).contains(i) by {
        if i >= 32 {
            if ones(x).contains(i) {
            }
        }
    }
    let s = ones(x);
    assert forall|a: int, b: int| 0 <= a < s.len() && 0 <= b < s.len() && a != b implies s[a]
        != s[b] by {
        if a < b {
            assert(s[a] < s[b]);
        } else {
            assert(s[b] < s[a]);
        }
    }
}

/// When no bit of `x` in `[k, n)` is set, the indexes below `n` and below `k` agree.
pub proof fn lemma_ones_below_gap(x: u32, k: nat, n: nat)
    requires
        k <= n <= 32,
        forall|i: u32| k <= i < n ==> !has_bit(x, i),
    ensures
        ones_below(x, n) == ones_below(x, k),
    decreases n,
{
    if n > k {
        lemma_ones_below_gap(x, k, (n - 1) as nat);
    }
}

/// The indexes below `k` are a prefix of the indexes below `n`.
pub proof fn lemma_ones_below_prefix(x: u32, k: nat, n: nat)
    requires
        k <= n,
    ensures
        ones_below(x, k).len() <= ones_below(x, n).len(),
        ones_below(x, k) == ones_below(x, n).subrange(0, ones_below(x, k).len() as int),
    decreases n,
{
    if n > k {
        lemma_ones_below_prefix(x, k, (n - 1) as nat);
        assert(ones_below(x, (n - 1) as nat) =~= ones_below(x, n).subrange(
            0,
            ones_below(x, (n - 1) as nat).len() as int,
        ));
        assert(ones_below(x, k) =~= ones_below(x, n).subrange(0, ones_below(x, k).len() as int));
    }
}

/// Bit `i` of a union, intersection and difference of words.
pub proof fn lemma_bit_ops(a: u32, b: u32, i: u32)
    requires
        i < 32,
    ensures
        has_bit(a | b, i) == (has_bit(a, i) || has_bit(b, i)),
        has_bit(a & b, i) == (has_bit(a, i) && has_bit(b, i)),
        has_bit(a & !b, i) == (has_bit(a, i) && !has_bit(b, i)),
        has_bit(a ^ b, i) == (has_bit(a, i) != has_bit(b, i)),
        has_bit(0u32, i) == false,
        has_bit(!0u32, i) == true,
{
    assert(((a | b) >> i) & 1u32 == 1u32 <==> ((a >> i) & 1u32 == 1u32 || (b >> i) & 1u32 == 1u32))
        by (bit_vector);
    assert(((a & b) >> i) & 1u32 == 1u32 <==> ((a >> i) & 1u32 == 1u32 && (b >> i) & 1u32 == 1u32))
        by (bit_vector);
    assert(((a & !b) >> i) & 1u32 == 1u32 <==> ((a >> i) & 1u32 == 1u32 && !((b >> i) & 1u32
        == 1u32))) by (bit_vector);
    assert(((a ^ b) >> i) & 1u32 == 1u32 <==> (((a >> i) & 1u32 == 1u32) != ((b >> i) & 1u32
        == 1u32))) by (bit_vector);
    assert((0u32 >> i) & 1u32 != 1u32) by (bit_vector);
    assert(i < 32 ==> (!0u32 >> i) & 1u32 == 1u32) by (bit_vector);
}

/// Bit `i` of the single-bit word `1 << j`.
pub proof fn lemma_single_bit(j: u32, i: u32)
    requires
        j < 32,
        i < 32,
    ensures
        has_bit(1u32 << j, i) == (i == j),
{
    assert(j < 32 && i < 32 ==> (((1u32 << j) >> i) & 1u32 == 1u32 <==> i == j)) by (bit_vector);
}

/// Bit `i` of the word with the lowest `n` bits set.
pub proof fn lemma_low_mask(n: u32, i: u32)
    requires
        n < 32,
        i < 32,
    ensures
        has_bit(((1u32 << n) - 1) as u32, i) == (i < n),
        (1u32 << n) >= 1,
{
    assert(n < 32 ==> (1u32 << n) >= 1) by (bit_vector);
    assert(n < 32 && i < 32 ==> ((((1u32 << n) - 1) as u32 >> i) & 1u32 == 1u32 <==> i < n))
        by (bit_vector);
}

pub proof fn lemma_bit_set_ops(a: u32, b: u32)
    ensures
        bit_set(a | b) =~= bit_set(a).union(bit_set(b)),
        bit_set(a & b) =~= bit_set(a).intersect(bit_set(b)),
        bit_set(a & !b) =~= bit_set(a).difference(bit_set(b)),
        bit_set(0u32) =~= Set::<u32>::empty(),
{
    assert forall|i: u32| i < 32 implies has_bit(a | b, i) == (has_bit(a, i) || has_bit(b, i))
        && has_bit(a & b, i) == (has_bit(a, i) && has_bit(b, i)) && has_bit(a & !b, i) == (
    has_bit(a, i) && !has_bit(b, i)) && !has_bit(0u32, i) by {
        lemma_bit_ops(a, b, i);
    }
}

pub proof fn lemma_bit_set_single(x: u32, j: u32)
    requires
        j < 32,
    ensures
        bit_set(x | (1u32 << j)) =~= bit_set(x).insert(j),
        bit_set(x & !(1u32 << j)) =~= bit_set(x).remove(j),
        bit_set(1u32 << j) =~= set![j],
        has_bit(x, j) == ((x & (1u32 << j)) != 0),
{
    assert forall|i: u32|
        #![trigger bit_set(x).contains(i)]
        has_bit(x | (1u32 << j), i) == (has_bit(x, i) || i == j) && has_bit(x & !(1u32 << j), i)
            == (has_bit(x, i) && i != j) && has_bit(1u32 << j, i) == (i == j) by {
        if i < 32 {
            lemma_bit_ops(x, 1u32 << j, i);
            lemma_single_bit(j, i);
        }
    }
    assert forall|i: u32| #[trigger]
        bit_set(x | (1u32 << j)).contains(i) == bit_set(x).insert(j).contains(i) by {
        if i < 32 {
            lemma_bit_ops(x, 1u32 << j, i);
            lemma_single_bit(j, i);
        }
    }
    assert forall|i: u32|
        bit_set(x & !(1u32 << j)).contains(i) == bit_set(x).remove(j).contains(i)
        && #[trigger] bit_set(1u32 << j).contains(i) == set![j].contains(i) by {
        if i < 32 {
            lemma_bit_ops(x, 1u32 << j, i);
            lemma_single_bit(j, i);
        }
    }
    assert(j < 32 ==> (((x >> j) & 1u32 == 1u32) <==> (x & (1u32 << j)) != 0)) by (bit_vector);
}

/// A word is determined by its bit set.
pub proof fn lemma_bit_set_injective(x: u32, y: u32)
    requires
        bit_set(x) == bit_set(y),
    ensures
        x == y,
{
    assert forall|i: u32| i < 32 implies has_bit(x, i) == has_bit(y, i) by {
        assert(bit_set(x).contains(i) == has_bit(x, i));
        assert(bit_set(y).contains(i) == has_bit(y, i));
        assert(bit_set(x).contains(i) == bit_set(y).contains(i));
    }
    lemma_bits_ext(x, y);
}


/// The bits of a word below `2^27` are all below 27, and setting or clearing
/// one of those keeps the word below `2^27`.
pub proof fn lemma_letter_word(x: u32, i: u32)
    requires
        x < 0x800_0000,
    ensures
        has_bit(x, i) ==> i < 27,
        i < 27 ==> (x | (1u32 << i)) < 0x800_0000,
        i < 32 ==> (x & !(1u32 << i)) < 0x800_0000,
{
    assert(x < 0x800_0000 && i < 32 && (x >> i) & 1u32 == 1u32 ==> i < 27) by (bit_vector);
    assert(x < 0x800_0000 && i < 27 ==> (x | (1u32 << i)) < 0x800_0000) by (bit_vector);
    assert(x < 0x800_0000 ==> (x & !(1u32 << i)) < 0x800_0000) by (bit_vector);
}

/// Combining two words below `2^27` stays below `2^27`.
pub proof fn lemma_letter_words(x: u32, y: u32)
    requires
        x < 0x800_0000,
    ensures
        (x & y) < 0x800_0000,
        (x & !y) < 0x800_0000,
        y < 0x800_0000 ==> (x | y) < 0x800_0000,
{
    assert(x < 0x800_0000 ==> (x & y) < 0x800_0000 && (x & !y) < 0x800_0000) by (bit_vector);
    assert(x < 0x800_0000 && y < 0x800_0000 ==> (x | y) < 0x800_0000) by (bit_vector);
}

/// Two words that agree on every bit are equal.
pub proof fn lemma_bits_ext(x: u32, y: u32)
    requires
        forall|i: u32| i < 32 ==> has_bit(x, i) == has_bit(y, i),
    ensures
        x == y,
{
    assert(has_bit(x, 0u32) == has_bit(y, 0u32));
    assert(has_bit(x, 1u32) == has_bit(y, 1u32));
    assert(has_bit(x, 2u32) == has_bit(y, 2u32));
    assert(has_bit(x, 3u32) == has_bit(y, 3u32));
    assert(has_bit(x, 4u32) == has_bit(y, 4u32));
    assert(has_bit(x, 5u32) == has_bit(y, 5u32));
    assert(has_bit(x, 6u32) == has_bit(y, 6u32));
    assert(has_bit(x, 7u32) == has_bit(y, 7u32));
    assert(has_bit(x, 8u32) == has_bit(y, 8u32));
    assert(has_bit(x, 9u32) == has_bit(y, 9u32));
    assert(has_bit(x, 10u32) == has_bit(y, 10u32));
    assert(has_bit(x, 11u32) == has_bit(y, 11u32));
    assert(has_bit(x, 12u32) == has_bit(y, 12u32));
    assert(has_bit(x, 13u32) == has_bit(y, 13u32));
    assert(has_bit(x, 14u32) == has_bit(y, 14u32));
    assert(has_bit(x, 15u32) == has_bit(y, 15u32));
    assert(has_bit(x, 16u32) == has_bit(y, 16u32));
    assert(has_bit(x, 17u32) == has_bit(y, 17u32));
    assert(has_bit(x, 18u32) == has_bit(y, 18u32));
    assert(has_bit(x, 19u32) == has_bit(y, 19u32));
    assert(has_bit(x, 20u32) == has_bit(y, 20u32));
    assert(has_bit(x, 21u32) == has_bit(y, 21u32));
    assert(has_bit(x, 22u32) == has_bit(y, 22u32));
    assert(has_bit(x, 23u32) == has_bit(y, 23u32));
    assert(has_bit(x, 24u32) == has_bit(y, 24u32));
    assert(has_bit(x, 25u32) == has_bit(y, 25u32));
    assert(has_bit(x, 26u32) == has_bit(y, 26u32));
    assert(has_bit(x, 27u32) == has_bit(y, 27u32));
    assert(has_bit(x, 28u32) == has_bit(y, 28u32));
    assert(has_bit(x, 29u32) == has_bit(y, 29u32));
    assert(has_bit(x, 30u32) == has_bit(y, 30u32));
    assert(has_bit(x, 31u32) == has_bit(y, 31u32));
    assert(x == y) by (bit_vector)
        requires
            has_bit(x, 0u32) == has_bit(y, 0u32),
            has_bit(x, 1u32) == has_bit(y, 1u32),
            has_bit(x, 2u32) == has_bit(y, 2u32),
            has_bit(x, 3u32) == has_bit(y, 3u32),
            has_bit(x, 4u32) == has_bit(y, 4u32),
            has_bit(x, 5u32) == has_bit(y, 5u32),
            has_bit(x, 6u32) == has_bit(y, 6u32),
            has_bit(x, 7u32) == has_bit(y, 7u32),
            has_bit(x, 8u32) == has_bit(y, 8u32),
            has_bit(x, 9u32) == has_bit(y, 9u32),
            has_bit(x, 10u32) == has_bit(y, 10u32),
            has_bit(x, 11u32) == has_bit(y, 11u32),
            has_bit(x, 12u32) == has_bit(y, 12u32),
            has_bit(x, 13u32) == has_bit(y, 13u32),
            has_bit(x, 14u32) == has_bit(y, 14u32),
            has_bit(x, 15u32) == has_bit(y, 15u32),
            has_bit(x, 16u32) == has_bit(y, 16u32),
            has_bit(x, 17u32) == has_bit(y, 17u32),
            has_bit(x, 18u32) == has_bit(y, 18u32),
            has_bit(x, 19u32) == has_bit(y, 19u32),
            has_bit(x, 20u32) == has_bit(y, 20u32),
            has_bit(x, 21u32) == has_bit(y, 21u32),
            has_bit(x, 22u32) == has_bit(y, 22u32),
            has_bit(x, 23u32) == has_bit(y, 23u32),
            has_bit(x, 24u32) == has_bit(y, 24u32),
            has_bit(x, 25u32) == has_bit(y, 25u32),
            has_bit(x, 26u32) == has_bit(y, 26u32),
            has_bit(x, 27u32) == has_bit(y, 27u32),
            has_bit(x, 28u32) == has_bit(y, 28u32),
            has_bit(x, 29u32) == has_bit(y, 29u32),
            has_bit(x, 30u32) == has_bit(y, 30u32),
            has_bit(x, 31u32) == has_bit(y, 31u32),
    ;
}


/// Clearing the lowest set bit drops the first index.
pub proof fn lemma_drop_lowest(before: u32, after: u32, m: u32)
    requires
        ones(before).len() > 0,
        m == ones(before)[0],
        forall|i: u32| i < 32 ==> has_bit(after, i) == (has_bit(before, i) && i != m),
    ensures
        ones(after) == ones(before).drop_first(),
{
    lemma_ones(before);
    assert(forall|i: u32| i < m ==> !has_bit(before, i)) by {
        assert forall|i: u32| i < m implies !has_bit(before, i) by {
            if has_bit(before, i) {
                assert(ones(before).contains(i));
                let k = choose|k: int| 0 <= k < ones(before).len() && ones(before)[k] == i;
                if k > 0 {
                    assert(ones(before)[0] < ones(before)[k]);
                }
            }
        }
    }
    lemma_ones_below_gap(before, 0, m as nat);
    lemma_ones_below_gap(after, 0, (m + 1) as nat);
    lemma_shift_tail(before, after, (m + 1) as nat, 32);
}

proof fn lemma_shift_tail(before: u32, after: u32, k: nat, n: nat)
    requires
        1 <= k <= n <= 32,
        forall|i: u32| k - 1 <= i < 32 ==> has_bit(after, i) == (has_bit(before, i) && i
            != k - 1),
        has_bit(before, (k - 1) as u32),
        ones_below(before, (k - 1) as nat) == Seq::<u32>::empty(),
        ones_below(after, k) == Seq::<u32>::empty(),
    ensures
        ones_below(after, n) == ones_below(before, n).drop_first(),
    decreases n,
{
    if n == k {
        assert(ones_below(before, k) =~= seq![(k - 1) as u32]);
        assert(ones_below(after, n) =~= ones_below(before, n).drop_first());
    } else {
        lemma_shift_tail(before, after, k, (n - 1) as nat);
        lemma_ones_below_prefix(before, k, (n - 1) as nat);
        assert(ones_below(before, k) =~= seq![(k - 1) as u32]);
        assert(ones_below(after, n) =~= ones_below(before, n).drop_first());
    }
}

/// The indexes of the set bits of `x`, lowest first.
pub fn ones_of(x: u32) -> (r: Vec<u32>)
    ensures
        r@ == ones(x),
{
    let mut r: Vec<u32> = Vec::new();
    let mut i: u32 = 0;
    while i < 32
        invariant
            i <= 32,
            r@ == ones_below(x, i as nat),
        decreases 32 - i,
    {
        if (x >> i) & 1 == 1 {
            r.push(i);
        }
        i = i + 1;
    }
    r
}

/// The number of set bits of `x`.
pub fn count_ones_of(x: u32) -> (r: u32)
    ensures
        r == ones(x).len(),
        r <= 32,
{
    let mut r: u32 = 0;
    let mut i: u32 = 0;
    while i < 32
        invariant
            i <= 32,
            r == ones_below(x, i as nat).len(),
            r <= i,
        decreases 32 - i,
    {
        if (x >> i) & 1 == 1 {
            r = r + 1;
        }
        i = i + 1;
    }
    r
}

/// The index of the highest set bit of `x`, if any.
pub fn highest_one_of(x: u32) -> (r: Option<u32>)
    ensures
        r == (if ones(x).len() == 0 {
            None::<u32>
        } else {
            Some(ones(x).last())
        }),
{
    proof {
        lemma_ones(x);
    }
    let lz = x.leading_zeros();
    proof {
        axiom_u32_leading_zeros(x);
    }
    if lz == 32 {
        proof {
            assert(x == 0);
            assert forall|i: u32| i < 32 implies !has_bit(x, i) by {
                lemma_bit_ops(x, x, i);
            }
            lemma_ones_below_gap(x, 0, 32);
        }
        None
    } else {
        let m = 31 - lz;
        proof {
            assert forall|i: u32| m + 1 <= i < 32 implies !has_bit(x, i) by {}
            lemma_ones_below_gap(x, (m + 1) as nat, 32);
            assert((x >> m) & 1u32 != 0u32 ==> (x >> m) & 1u32 == 1u32) by (bit_vector);
            assert(has_bit(x, m));
        }
        Some(m)
    }
}

/// The index of the lowest set bit of `x`, if any.
pub fn lowest_one_of(x: u32) -> (r: Option<u32>)
    ensures
        r == (if ones(x).len() == 0 {
            None::<u32>
        } else {
            Some(ones(x)[0])
        }),
{
    proof {
        lemma_ones(x);
    }
    let tz = x.trailing_zeros();
    proof {
        axiom_u32_trailing_zeros(x);
    }
    if tz == 32 {
        proof {
            assert forall|i: u32| i < 32 implies !has_bit(x, i) by {
                lemma_bit_ops(x, x, i);
            }
            lemma_ones_below_gap(x, 0, 32);
        }
        None
    } else {
        proof {
            assert forall|i: u32| 0 <= i < tz implies !has_bit(x, i) by {}
            lemma_ones_below_gap(x, 0, tz as nat);
            lemma_ones_below_prefix(x, (tz + 1) as nat, 32);
            assert(ones_below(x, (tz + 1) as nat) =~= seq![tz]);
        }
        Some(tz)
    }
}

} // verus!
