use vstd::arithmetic::power2::{lemma2_to64, pow2};
use vstd::bits::{lemma_u64_pow2_no_overflow, lemma_u64_shl_is_mul};
use vstd::prelude::*;

use crate::bitset::{ones, ones_of};
use crate::popcount::{ lemma_masks_below_gap, lemma_masks_below_prefix, lemma_popcount_bound,
    lemma_popcount_mask, masks_below, next_same_popcount, popcount,
};

verus! {

/// `n!`
pub open spec fn factorial_spec(n: nat) -> nat
    decreases n,
{
    if n == 0 {
        1
    } else {
        n * factorial_spec((n - 1) as nat)
    }
}

/// The product of the `k` numbers `n - k + 1` up to `n`.
pub open spec fn falling(n: nat, k: nat) -> nat
    decreases k,
{
    if k == 0 {
        1
    } else {
        n * falling((n - 1) as nat, (k - 1) as nat)
    }
}

/// The number of ways to choose `k` of `n` items.
pub open spec fn binomial(n: nat, k: nat) -> nat
    decreases n,
{
    if k == 0 {
        1
    } else if n == 0 {
        0
    } else {
        binomial((n - 1) as nat, (k - 1) as nat) + binomial((n - 1) as nat, k)
    }
}

/// Calculates the factorial of `n`.
pub fn factorial(n: u128) -> (r: u128)
    requires
        factorial_spec(n as nat) <= u128::MAX,
    ensures
        r == factorial_spec(n as nat),
{
    let mut result: u128 = 1;
    let mut i: u128 = 0;
    while i < n
        invariant
            i <= n,
            result == factorial_spec(i as nat),
            factorial_spec(n as nat) <= u128::MAX,
        decreases n - i,
    {
        i = i + 1;
        proof {
            lemma_factorial_monotone(i as nat, n as nat);
            assert(factorial_spec(i as nat) == i * factorial_spec((i - 1) as nat));
            assert(result * i == i * result) by (nonlinear_arith);
        }
        result = result * i;
    }
    result
}

pub proof fn lemma_factorial_monotone(a: nat, b: nat)
    requires
        a <= b,
    ensures
        1 <= factorial_spec(a) <= factorial_spec(b),
    decreases b,
{
    if b > 0 && a < b {
        lemma_factorial_monotone(a, (b - 1) as nat);
        assert(factorial_spec((b - 1) as nat) <= b * factorial_spec((b - 1) as nat))
            by (nonlinear_arith)
            requires
                b >= 1,
        ;
    } else if b > 0 {
        lemma_factorial_monotone(0, (b - 1) as nat);
        assert(1 <= b * factorial_spec((b - 1) as nat)) by (nonlinear_arith)
            requires
                b >= 1,
                factorial_spec((b - 1) as nat) >= 1,
        ;
    }
}

/// Counts the number of ways to choose `k` from `n`.
pub fn choose_n_k(n: u32, k: u32) -> (r: u128)
    requires
        k <= n,
        falling(n as nat, k as nat) <= u128::MAX,
        factorial_spec(k as nat) <= u128::MAX,
    ensures
        r == binomial(n as nat, k as nat),
        r == falling(n as nat, k as nat) / factorial_spec(k as nat),
{
    let n = n as u128;
    let k = k as u128;
    let base = n - k;
    let mut temp: u128 = 1;
    let mut i: u128 = base + 1;
    while i <= n
        invariant
            k <= n <= u32::MAX,
            base == n - k,
            base + 1 <= i <= n + 1,
            temp == falling((i - 1) as nat, (i - 1 - base) as nat),
            falling(n as nat, k as nat) <= u128::MAX,
        decreases n + 1 - i,
    {
        proof {
            let j = (i - base) as nat;
            lemma_falling_split(n as nat, (n - i) as nat, j);
            lemma_falling_pos(n as nat, (n - i) as nat);
            lemma_falling_pos(i as nat, j);
            assert(falling(i as nat, j) <= falling(n as nat, (n - i) as nat) * falling(i as nat, j))
                by (nonlinear_arith)
                requires
                    falling(n as nat, (n - i) as nat) >= 1,
            ;
            assert((n - i) + j == k);
            assert(falling(i as nat, j) == i * falling((i - 1) as nat, (j - 1) as nat));
            assert(temp * i == i * temp) by (nonlinear_arith);
        }
        temp = temp * i;
        i = i + 1;
    }
    proof {
        lemma_factorial_monotone(0, k as nat);
        lemma_binomial_falling(n as nat, k as nat);
    }
    temp / factorial(k)
}

/// The product of positive factors is positive.
pub proof fn lemma_falling_pos(n: nat, k: nat)
    requires
        k <= n,
    ensures
        falling(n, k) >= 1,
    decreases k,
{
    if k > 0 {
        lemma_falling_pos((n - 1) as nat, (k - 1) as nat);
        assert(n * falling((n - 1) as nat, (k - 1) as nat) >= 1) by (nonlinear_arith)
            requires
                n >= 1,
                falling((n - 1) as nat, (k - 1) as nat) >= 1,
        ;
    }
}

/// The first `a + b` factors are the first `a` and then the next `b`.
pub proof fn lemma_falling_split(n: nat, a: nat, b: nat)
    requires
        a <= n,
    ensures
        falling(n, a + b) == falling(n, a) * falling((n - a) as nat, b),
    decreases a,
{
    if a == 0 {
        assert(falling(n, 0) == 1);
        assert(a + b == b);
    } else {
        lemma_falling_split((n - 1) as nat, (a - 1) as nat, b);
        assert(falling(n, a + b) == n * falling((n - 1) as nat, (a + b - 1) as nat));
        assert(falling(n, a) == n * falling((n - 1) as nat, (a - 1) as nat));
        assert((a + b - 1) as nat == (a - 1) as nat + b);
        assert(((n - 1) as nat - (a - 1) as nat) as nat == (n - a) as nat);
        assert(n * (falling((n - 1) as nat, (a - 1) as nat) * falling((n - a) as nat, b)) == (n
            * falling((n - 1) as nat, (a - 1) as nat)) * falling((n - a) as nat, b))
            by (nonlinear_arith);
    }
}

/// One factor is the number itself.
pub proof fn lemma_falling_one(m: nat)
    ensures
        falling(m, 1) == m,
{
    let x = falling((m - 1) as nat, 0);
    assert(x == 1);
    assert(falling(m, 1) == m * x);
}

/// Taking one more factor multiplies by the next lower number.
pub proof fn lemma_falling_step(n: nat, j: nat)
    requires
        j < n,
    ensures
        falling(n, j + 1) == falling(n, j) * (n - j),
{
    lemma_falling_split(n, j, 1);
    lemma_falling_one((n - j) as nat);
}

/// The falling product is the binomial coefficient times `k!`.
pub proof fn lemma_binomial_falling(n: nat, k: nat)
    requires
        k <= n,
    ensures
        falling(n, k) == binomial(n, k) * factorial_spec(k),
        falling(n, k) / factorial_spec(k) == binomial(n, k),
    decreases n, k,
{
    lemma_factorial_monotone(0, k);
    if k == 0 {
    } else if k == n {
        lemma_binomial_falling((n - 1) as nat, (k - 1) as nat);
        lemma_binomial_zero_above((n - 1) as nat, k);
        assert(falling(n, k) == n * (binomial((n - 1) as nat, (k - 1) as nat) * factorial_spec(
            (k - 1) as nat,
        )));
        assert(n * (binomial((n - 1) as nat, (k - 1) as nat) * factorial_spec((k - 1) as nat))
            == binomial((n - 1) as nat, (k - 1) as nat) * (k * factorial_spec((k - 1) as nat)))
            by (nonlinear_arith)
            requires
                n == k,
        ;
    } else {
        lemma_binomial_falling((n - 1) as nat, (k - 1) as nat);
        lemma_binomial_falling((n - 1) as nat, k);
        lemma_falling_step((n - 1) as nat, (k - 1) as nat);
        let a = binomial((n - 1) as nat, (k - 1) as nat);
        let b = binomial((n - 1) as nat, k);
        let f = factorial_spec((k - 1) as nat);
        // falling(n-1, k) = falling(n-1, k-1) * (n - k), so b * k! = a * (k-1)! * (n - k)
        assert(b * (k * f) == a * f * (n - k));
        assert(n * (a * f) == (a + b) * (k * f)) by (nonlinear_arith)
            requires
                b * (k * f) == a * f * (n - k),
                k < n,
        ;
    }
    let fk = factorial_spec(k);
    assert((binomial(n, k) * fk) / fk == binomial(n, k)) by (nonlinear_arith)
        requires
            fk >= 1,
    ;
}

pub proof fn lemma_binomial_zero_above(n: nat, k: nat)
    requires
        k > n,
    ensures
        binomial(n, k) == 0,
    decreases n,
{
    if n > 0 {
        lemma_binomial_zero_above((n - 1) as nat, (k - 1) as nat);
        lemma_binomial_zero_above((n - 1) as nat, k);
    }
}

/// Returns the bit indexes set in `n`, starting with the least significant bit.
pub fn set_bits(n: u32) -> (r: Vec<usize>)
    ensures
        r@.len() == ones(n).len(),
        forall|i: int| 0 <= i < r@.len() ==> r@[i] == ones(n)[i],
{
    let items = ones_of(n);
    let mut r: Vec<usize> = Vec::new();
    let mut i: usize = 0;
    while i < items.len()
        invariant
            i <= items.len(),
            items@ == ones(n),
            r@.len() == i,
            forall|j: int| 0 <= j < i ==> r@[j] == ones(n)[j],
        decreases items.len() - i,
    {
        r.push(items[i] as usize);
        i = i + 1;
    }
    r
}

/// Returns the bit indexes set in `n`, starting with the most significant bit.
pub fn set_bits_decreasing(n: u32) -> (r: Vec<usize>)
    ensures
        r@.len() == ones(n).len(),
        forall|i: int| 0 <= i < r@.len() ==> r@[i] == ones(n)[ones(n).len() - 1 - i],
{
    let items = ones_of(n);
    let mut r: Vec<usize> = Vec::new();
    let mut i: usize = items.len();
    while i > 0
        invariant
            i <= items.len(),
            items@ == ones(n),
            r@.len() == items.len() - i,
            forall|j: int| 0 <= j < r@.len() ==> r@[j] == ones(n)[ones(n).len() - 1 - j],
        decreases i,
    {
        i = i - 1;
        r.push(items[i] as usize);
    }
    r
}

/// The sequence of numbers below `2^32` with exactly a given count of set bits,
/// produced one at a time from the smallest.
pub struct SameSetBits {
    current: u64,
    count: u32,
}

impl SameSetBits {
    #[verifier::type_invariant]
    spec fn inv(self) -> bool {
        &&& 1 <= self.count <= 32
        &&& 0 < self.current <= 0x2_0000_0000u64
        &&& popcount(self.current as nat) == self.count
        &&& forall|m: nat| 0x1_0000_0000 <= m < self.current ==> popcount(m) != self.count
    }

    /// The numbers still to come, in increasing order.
    pub closed spec fn remaining(self) -> Seq<nat> {
        let all = masks_below(0x1_0000_0000, self.count as nat);
        all.subrange(masks_below(self.current as nat, self.count as nat).len() as int, all.len() as int)
    }

    /// The count of set bits of every number produced.
    pub closed spec fn ones_count(self) -> nat {
        self.count as nat
    }

    /// Returns the next number, or `None` once every number was produced.
    pub fn next(&mut self) -> (r: Option<u64>)
        ensures
            old(self).remaining().len() == 0 ==> r is None && final(self).remaining() == old(self).remaining(),
            old(self).remaining().len() > 0 ==> r == Some(old(self).remaining()[0] as u64)
                && final(self).remaining() == old(self).remaining().drop_first(),
            final(self).ones_count() == old(self).ones_count(),
    {
        proof {
            use_type_invariant(&*self);
            self.lemma_remaining();
        }
        if self.current >= 0x1_0000_0000u64 {
            None
        } else {
            let result = self.current;
            let next = next_same_popcount(self.current);
            let ghost k = self.count as nat;
            proof {
                assert(masks_below(result as nat + 1, k) == masks_below(result as nat, k).push(
                    result as nat,
                ));
                lemma_masks_below_gap(result as nat + 1, next as nat, k);
                lemma_masks_below_prefix(result as nat + 1, 0x1_0000_0000, k);
                assert forall|m: nat| 0x1_0000_0000 <= m < next implies popcount(m) != k by {}
            }
            self.current = next;
            proof {
                let all = masks_below(0x1_0000_0000, k);
                let before = masks_below(result as nat, k);
                if next <= 0x1_0000_0000u64 {
                    lemma_masks_below_prefix(next as nat, 0x1_0000_0000, k);
                } else {
                    lemma_masks_below_gap(0x1_0000_0000, next as nat, k);
                }
                let upto = masks_below(result as nat + 1, k);
                assert(upto[before.len() as int] == result);
                assert(upto == all.subrange(0, upto.len() as int));
                assert(all[before.len() as int] == upto[before.len() as int]);
                assert(old(self).remaining()[0] == result);
                assert(self.remaining() =~= old(self).remaining().drop_first());
            }
            Some(result)
        }
    }

    proof fn lemma_remaining(self)
        requires
            self.inv(),
        ensures
            masks_below(self.current as nat, self.count as nat).len() <= masks_below(
                0x1_0000_0000,
                self.count as nat,
            ).len(),
            self.current >= 0x1_0000_0000 ==> self.remaining().len() == 0,
            self.current < 0x1_0000_0000 ==> self.remaining().len() > 0,
    {
        let k = self.count as nat;
        if self.current >= 0x1_0000_0000 {
            lemma_masks_below_gap(0x1_0000_0000, self.current as nat, k);
        } else {
            lemma_masks_below_prefix(self.current as nat + 1, 0x1_0000_0000, k);
            assert(masks_below(self.current as nat + 1, k) == masks_below(self.current as nat, k).push(
                self.current as nat,
            ));
        }
    }
}

/// Returns the sequence of numbers with `count` bits set, starting from the
/// smallest: every number below `2^32` with exactly `count` ones, in
/// increasing order.
pub fn same_set_bits(count: u8) -> (r: SameSetBits)
    requires
        1 <= count <= 32,
    ensures
        r.remaining() == masks_below(0x1_0000_0000, count as nat),
        r.remaining().len() == binomial(32, count as nat),
        r.ones_count() == count,
{
    let c = count as u32;
    proof {
        lemma_u64_pow2_no_overflow(c as nat);
        lemma_u64_shl_is_mul(1u64, c as u64);
        lemma2_to64();
        lemma_popcount_mask(c as nat);
        if c < 32 {
            vstd::arithmetic::power2::lemma_pow2_strictly_increases(c as nat, 32);
        }
    }
    let first: u64 = (1u64 << (c as u64)) - 1;
    proof {
        assert forall|m: nat| 0 <= m < first implies popcount(m) != c by {
            lemma_popcount_bound(m, c as nat);
        }
        lemma_masks_below_gap(0, first as nat, c as nat);
    }
    let r = SameSetBits { current: first, count: c };
    proof {
        assert(r.remaining() =~= masks_below(0x1_0000_0000, count as nat));
        crate::popcount::lemma_masks_below_binomial(32, count as nat);
        assert(pow2(32) == 0x1_0000_0000);
    }
    r
}

} // verus!
