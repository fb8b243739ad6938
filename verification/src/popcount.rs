use vstd::arithmetic::power2::{lemma2_to64, lemma_pow2_adds, lemma_pow2_pos, lemma_pow2_unfold, pow2};
use vstd::bits::{lemma_u64_pow2_no_overflow, lemma_u64_shl_is_mul, lemma_u64_shr_is_div};
use vstd::prelude::*;
use vstd::std_specs::bits::*;

verus! {

/// The number of ones in the binary form of `x`.
pub open spec fn popcount(x: nat) -> nat
    decreases x,
{
    if x == 0 {
        0
    } else {
        x % 2 + popcount(x / 2)
    }
}

/// The numbers below `bound` with exactly `k` ones, in increasing order.
pub open spec fn masks_below(bound: nat, k: nat) -> Seq<nat>
    decreases bound,
{
    if bound == 0 {
        Seq::empty()
    } else {
        let rest = masks_below((bound - 1) as nat, k);
        if popcount((bound - 1) as nat) == k {
            rest.push((bound - 1) as nat)
        } else {
            rest
        }
    }
}

pub proof fn lemma_popcount_unfold(x: nat)
    ensures
        popcount(x) == x % 2 + popcount(x / 2),
{
}

/// Placing `a` above `j` low bits holding `b` adds their counts of ones.
pub proof fn lemma_popcount_split(a: nat, b: nat, j: nat)
    requires
        b < pow2(j),
    ensures
        popcount(a * pow2(j) + b) == popcount(a) + popcount(b),
    decreases j,
{
    if j == 0 {
        lemma2_to64();
        assert(b == 0);
        assert(a * pow2(j) + b == a);
    } else {
        lemma_pow2_unfold(j);
        lemma_pow2_pos((j - 1) as nat);
        let h = pow2((j - 1) as nat);
        let c = a * h;
        assert(a * pow2(j) == 2 * c) by (nonlinear_arith)
            requires
                pow2(j) == 2 * h,
                c == a * h,
        ;
        let x = 2 * c + b;
        assert(x % 2 == b % 2);
        assert(x / 2 == c + b / 2);
        assert(b / 2 < h);
        lemma_popcount_split(a, b / 2, (j - 1) as nat);
        lemma_popcount_unfold(x);
        lemma_popcount_unfold(b);
    }
}

/// The number with the lowest `j` bits set has `j` ones.
pub proof fn lemma_popcount_mask(j: nat)
    ensures
        pow2(j) >= 1,
        popcount((pow2(j) - 1) as nat) == j,
    decreases j,
{
    lemma_pow2_pos(j);
    if j == 0 {
        lemma2_to64();
    } else {
        lemma_pow2_unfold(j);
        lemma_popcount_mask((j - 1) as nat);
        let y = (pow2(j) - 1) as nat;
        assert(y % 2 == 1);
        assert(y / 2 == pow2((j - 1) as nat) - 1);
    }
}

/// A number below `2^j` has at most `j` ones, and exactly `j` only when it is
/// `2^j - 1`.
pub proof fn lemma_popcount_bound(b: nat, j: nat)
    requires
        b < pow2(j),
    ensures
        popcount(b) <= j,
        popcount(b) == j ==> b == pow2(j) - 1,
    decreases j,
{
    if j == 0 {
        lemma2_to64();
    } else {
        lemma_pow2_unfold(j);
        lemma_popcount_bound(b / 2, (j - 1) as nat);
        lemma_popcount_unfold(b);
    }
}

/// Only zero has no ones.
pub proof fn lemma_popcount_zero(b: nat)
    ensures
        popcount(b) == 0 <==> b == 0,
    decreases b,
{
    if b > 0 {
        lemma_popcount_zero(b / 2);
    }
}

/// The next number above `n` with as many ones, for `n` made of a prefix `high`,
/// a zero, a run of `q` ones and `p` zeros: the run's top one moves up one place
/// and the rest of the run drops to the bottom.
pub proof fn lemma_next_same_popcount(high: nat, p: nat, q: nat, n: nat, r: nat)
    requires
        q >= 1,
        n == high * pow2(p + q + 1) + (pow2(q) - 1) * pow2(p),
        r == high * pow2(p + q + 1) + pow2(p + q) + pow2((q - 1) as nat) - 1,
    ensures
        n < r,
        popcount(r) == popcount(n),
        forall|m: nat| n < m < r ==> popcount(m) != popcount(n),
{
    let j = p + q + 1;
    let top = pow2(p + q);
    let pp = pow2(p);
    let pq = pow2(q);
    let pq1 = pow2((q - 1) as nat);
    let pj = pow2(j);
    lemma_pow2_pos(p);
    lemma_pow2_pos(q);
    lemma_pow2_pos((q - 1) as nat);
    lemma_pow2_adds(p, q);
    lemma_pow2_adds(p + q, 1);
    lemma2_to64();
    lemma_pow2_unfold(q);
    assert(top == pq * pp);
    assert(pj == 2 * top);
    let ln = ((pq - 1) * pp) as nat;
    assert(ln == top - pp) by (nonlinear_arith)
        requires
            ln == (pq - 1) * pp,
            top == pq * pp,
    ;
    let lr = (top + pq1 - 1) as nat;
    assert(pq1 <= top) by (nonlinear_arith)
        requires
            pq == 2 * pq1,
            top == pq * pp,
            pp >= 1,
    ;
    assert(lr < pj);
    assert(ln < lr);
    // counts of ones of the low parts
    lemma_popcount_mask(q);
    lemma_popcount_split((pq - 1) as nat, 0, p);
    assert(((pq - 1) as nat) * pp + 0 == ln);
    assert(popcount(ln) == q);
    lemma_popcount_mask((q - 1) as nat);
    assert((pq1 - 1) < top);
    lemma_popcount_split(1, (pq1 - 1) as nat, p + q);
    assert(1 * top + (pq1 - 1) == lr);
    assert(popcount(1) == 1);
    assert(popcount(lr) == q);
    lemma_popcount_split(high, ln, j);
    lemma_popcount_split(high, lr, j);
    assert(n == high * pj + ln);
    assert(r == high * pj + lr);
    assert forall|m: nat| n < m < r implies popcount(m) != popcount(n) by {
        let lm = (m - high * pj) as nat;
        assert(m == high * pj + lm);
        assert(ln < lm < lr);
        lemma_popcount_split(high, lm, j);
        if lm < top {
            let a = lm / pp;
            let b = lm % pp;
            assert(lm == a * pp + b) by (nonlinear_arith)
                requires
                    pp > 0,
                    a == lm / pp,
                    b == lm % pp,
            ;
            assert(a < pq) by (nonlinear_arith)
                requires
                    lm == a * pp + b,
                    b >= 0,
                    lm < top,
                    top == pq * pp,
                    pp > 0,
            ;
            assert(a >= pq - 1) by (nonlinear_arith)
                requires
                    lm == a * pp + b,
                    b < pp,
                    lm > ln,
                    ln == (pq - 1) * pp,
                    pp > 0,
            ;
            assert(a == pq - 1);
            assert(b > 0) by (nonlinear_arith)
                requires
                    lm == a * pp + b,
                    lm > ln,
                    ln == (pq - 1) * pp,
                    a == pq - 1,
            ;
            lemma_popcount_split(a, b, p);
            lemma_popcount_zero(b);
            assert(popcount(lm) >= q + 1);
        } else {
            let c = (lm - top) as nat;
            assert(c < pq1 - 1);
            assert(c < top);
            lemma_popcount_split(1, c, p + q);
            assert(1 * top + c == lm);
            lemma_popcount_bound(c, (q - 1) as nat);
            assert(popcount(lm) < q);
        }
    }
}

/// Extending the bound by numbers with a different count of ones adds nothing.
pub proof fn lemma_masks_below_gap(b1: nat, b2: nat, k: nat)
    requires
        b1 <= b2,
        forall|m: nat| b1 <= m < b2 ==> popcount(m) != k,
    ensures
        masks_below(b2, k) == masks_below(b1, k),
    decreases b2,
{
    if b2 > b1 {
        lemma_masks_below_gap(b1, (b2 - 1) as nat, k);
    }
}

/// The numbers in `masks_below` are increasing, below the bound, and have `k` ones;
/// every such number is among them.
pub proof fn lemma_masks_below(bound: nat, k: nat)
    ensures
        forall|i: int, j: int|
            0 <= i < j < masks_below(bound, k).len() ==> masks_below(bound, k)[i] < masks_below(
                bound,
                k,
            )[j],
        forall|i: int|
            0 <= i < masks_below(bound, k).len() ==> #[trigger] masks_below(bound, k)[i] < bound
                && popcount(masks_below(bound, k)[i]) == k,
        forall|m: nat| m < bound && popcount(m) == k ==> masks_below(bound, k).contains(m),
    decreases bound,
{
    if bound > 0 {
        let b = (bound - 1) as nat;
        lemma_masks_below(b, k);
        let s = masks_below(bound, k);
        let rest = masks_below(b, k);
        assert forall|m: nat| m < bound && popcount(m) == k implies s.contains(m) by {
            if m < b {
                let i = choose|i: int| 0 <= i < rest.len() && rest[i] == m;
                assert(s[i] == m);
            } else {
                assert(s[s.len() - 1] == m);
            }
        }
    }
}


/// The numbers below a smaller bound are a prefix of those below a larger one.
pub proof fn lemma_masks_below_prefix(b1: nat, b2: nat, k: nat)
    requires
        b1 <= b2,
    ensures
        masks_below(b1, k).len() <= masks_below(b2, k).len(),
        masks_below(b1, k) == masks_below(b2, k).subrange(0, masks_below(b1, k).len() as int),
    decreases b2,
{
    if b2 > b1 {
        lemma_masks_below_prefix(b1, (b2 - 1) as nat, k);
        assert(masks_below((b2 - 1) as nat, k) =~= masks_below(b2, k).subrange(
            0,
            masks_below((b2 - 1) as nat, k).len() as int,
        ));
        assert(masks_below(b1, k) =~= masks_below(b2, k).subrange(
            0,
            masks_below(b1, k).len() as int,
        ));
    }
}

/// The smallest number above `n` with as many ones as `n`.
pub fn next_same_popcount(n: u64) -> (r: u64)
    requires
        0 < n < 0x1_0000_0000u64,
    ensures
        n < r <= 0x2_0000_0000u64,
        popcount(r as nat) == popcount(n as nat),
        forall|m: nat| n < m < r ==> popcount(m) != popcount(n as nat),
{
    let tz = n.trailing_zeros();
    proof {
        axiom_u64_trailing_zeros(n);
    }
    let right_one: u64 = 1u64 << tz;
    proof {
        let pz = tz as u64;
        let cz = (64 - pz) as u64;
        assert(n << cz == 0);
        assert((n >> pz) & 1u64 == 1u64);
        assert(pz < 32) by (bit_vector)
            requires
                n < 0x1_0000_0000u64,
                (n >> pz) & 1u64 == 1u64,
        ;
        assert(tz < 64 ==> (1u64 << tz) <= 0x8000_0000_0000_0000u64) by (bit_vector);
        assert(n + (1u64 << pz) <= 0x1_0000_0000u64) by (bit_vector)
            requires
                n < 0x1_0000_0000u64,
                n << cz == 0,
                cz == 64u64 - pz,
                pz < 32,
        ;
    }
    let next_higher = n + right_one;
    let pattern = ((n ^ next_higher) >> tz) >> 2u64;
    let r = next_higher | pattern;
    proof {
        let p = tz as u64;
        let cp = (64 - p) as u64;
        assert(n << cp == 0);
        let t = n >> p;
        let q64 = u64_trailing_zeros(!t) as u64;
        axiom_u64_trailing_zeros(!t);
        assert((n >> p) & 1u64 == 1u64);
        assert(!t != 0 && (!t) & 1u64 == 0) by (bit_vector)
            requires
                t & 1u64 == 1u64,
                t == n >> p,
                n < 0x1_0000_0000u64,
        ;
        assert((!t) >> 0u64 == !t) by (bit_vector);
        assert(q64 >= 1);
        assert(q64 < 64);
        let cq = (64 - q64) as u64;
        assert((!t) << cq == 0);
        assert(((!t) >> q64) & 1u64 == 1u64);
        assert(p + q64 <= 32) by (bit_vector)
            requires
                n < 0x1_0000_0000u64,
                p < 32,
                1 <= q64 < 64,
                t == n >> p,
                cq == 64u64 - q64,
                (!t) << cq == 0,
        ;
        let nh = next_higher;
        let pq = (p + q64) as u64;
        let j64 = (pq + 1) as u64;
        let qm = (q64 - 1) as u64;
        assert(n == ((n >> j64) << j64) + ((((1u64 << q64) - 1u64) as u64) << p) && r == ((n
            >> j64) << j64) + (1u64 << pq) + (((1u64 << qm) - 1u64) as u64)) by (bit_vector)
            requires
                1 <= q64,
                p + q64 <= 32,
                pq == p + q64,
                j64 == pq + 1,
                qm == q64 - 1,
                cp == 64u64 - p,
                cq == 64u64 - q64,
                t == n >> p,
                t & 1u64 == 1u64,
                n << cp == 0,
                (!t) << cq == 0,
                ((!t) >> q64) & 1u64 == 1u64,
                nh == n + (1u64 << p),
                r == nh | (((n ^ nh) >> p) >> 2u64),
        ;
        assert(r < 0x2_0000_0000u64) by (bit_vector)
            requires
                n < 0x1_0000_0000u64,
                nh <= 0x1_0000_0000u64,
                r == nh | (((n ^ nh) >> p) >> 2u64),
        ;
        let high = (n >> j64) as nat;
        lemma_u64_shr_is_div(n, j64);
        lemma_u64_pow2_no_overflow(j64 as nat);
        lemma_u64_pow2_no_overflow(q64 as nat);
        lemma_u64_pow2_no_overflow(pq as nat);
        lemma_u64_pow2_no_overflow(qm as nat);
        lemma_u64_pow2_no_overflow(p as nat);
        lemma_pow2_adds(p as nat, q64 as nat);
        lemma_pow2_pos(p as nat);
        lemma_pow2_pos(q64 as nat);
        let pj = pow2(j64 as nat);
        assert(high * pj <= n) by (nonlinear_arith)
            requires
                high == n as nat / pj,
                pj > 0,
        ;
        lemma_u64_shl_is_mul((n >> j64), j64);
        lemma_u64_shl_is_mul(1u64, q64);
        lemma_u64_shl_is_mul(1u64, pq);
        lemma_u64_shl_is_mul(1u64, qm);
        let low_run = (((1u64 << q64) - 1u64) as u64);
        assert(low_run * pow2(p as nat) < pow2((p + q64) as nat)) by (nonlinear_arith)
            requires
                low_run == pow2(q64 as nat) - 1,
                pow2((p + q64) as nat) == pow2(p as nat) * pow2(q64 as nat),
                pow2(p as nat) > 0,
        ;
        lemma_u64_shl_is_mul(low_run, p);
        lemma_next_same_popcount(high, p as nat, q64 as nat, n as nat, r as nat);
    }
    r
}

/// How many numbers from `lo` up to below `hi` have `k` ones.
pub open spec fn count_between(lo: nat, hi: nat, k: nat) -> nat
    decreases hi,
{
    if hi <= lo {
        0
    } else {
        count_between(lo, (hi - 1) as nat, k) + if popcount((hi - 1) as nat) == k {
            1nat
        } else {
            0nat
        }
    }
}

proof fn lemma_masks_count(bound: nat, k: nat)
    ensures
        masks_below(bound, k).len() == count_between(0, bound, k),
    decreases bound,
{
    if bound > 0 {
        lemma_masks_count((bound - 1) as nat, k);
    }
}

proof fn lemma_count_join(a: nat, b: nat, k: nat)
    ensures
        count_between(0, a + b, k) == count_between(0, a, k) + count_between(a, a + b, k),
    decreases b,
{
    if b > 0 {
        lemma_count_join(a, (b - 1) as nat, k);
    }
}

/// Numbers from `2^j` up have one more one than the same numbers from zero.
proof fn lemma_count_shift(j: nat, b: nat, k: nat)
    requires
        b <= pow2(j),
        k >= 1,
    ensures
        count_between(pow2(j), pow2(j) + b, k) == count_between(0, b, (k - 1) as nat),
    decreases b,
{
    if b > 0 {
        lemma_count_shift(j, (b - 1) as nat, k);
        let m = (b - 1) as nat;
        lemma_popcount_split(1, m, j);
        assert(1 * pow2(j) + m == pow2(j) + m);
        assert(popcount(1) == 1) by {
            assert(popcount(0) == 0);
        }
        let hi = pow2(j) + b;
        assert(((hi - 1) as nat) == pow2(j) + m);
        assert(count_between(pow2(j), hi, k) == count_between(pow2(j), (hi - 1) as nat, k) + if popcount(
            (hi - 1) as nat,
        ) == k {
            1nat
        } else {
            0nat
        });
        assert(count_between(0, b, (k - 1) as nat) == count_between(0, m, (k - 1) as nat) + if popcount(m) == (k - 1) as nat {
            1nat
        } else {
            0nat
        });
    }
}

/// Every number from `2^j` up has a one.
proof fn lemma_count_shift_zero(j: nat, b: nat)
    ensures
        count_between(pow2(j), pow2(j) + b, 0) == 0,
    decreases b,
{
    if b > 0 {
        lemma_count_shift_zero(j, (b - 1) as nat);
        lemma_pow2_pos(j);
        lemma_popcount_zero((pow2(j) + b - 1) as nat);
    }
}

/// Among the numbers below `2^n`, `C(n, k)` have `k` ones.
pub proof fn lemma_masks_below_binomial(n: nat, k: nat)
    ensures
        masks_below(pow2(n), k).len() == crate::util::binomial(n, k),
    decreases n,
{
    lemma_masks_count(pow2(n), k);
    if n == 0 {
        lemma2_to64();
        assert(pow2(0) == 1);
        assert(count_between(0, 0, k) == 0);
        lemma_popcount_zero(0);
    } else {
        let h = pow2((n - 1) as nat);
        lemma_pow2_unfold(n);
        assert(pow2(n) == h + h);
        lemma_count_join(h, h, k);
        lemma_masks_below_binomial((n - 1) as nat, k);
        lemma_masks_count(h, k);
        if k == 0 {
            lemma_count_shift_zero((n - 1) as nat, h);
        } else {
            lemma_count_shift((n - 1) as nat, h, k);
            lemma_masks_below_binomial((n - 1) as nat, (k - 1) as nat);
            lemma_masks_count(h, (k - 1) as nat);
        }
    }
}

} // verus!
