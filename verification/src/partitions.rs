use vstd::prelude::*;

use vstd::arithmetic::div_mod::lemma_mod_multiples_basic;

use crate::arrange::{lemma_occurrences_push, occurrences};
use crate::util::{factorial, factorial_spec, lemma_factorial_monotone};

verus! {

/// The ways of writing `sum` as `parts` numbers, each between `min` and `max`.
#[derive(Debug, Clone, Copy)]
pub struct Partitions {
    pub sum: u32,
    pub parts: u32,
    pub min: u32,
    pub max: u32,
}

/// Whether the order of the numbers matters.
#[derive(Debug, Clone, Copy, PartialEq, Eq, Structural)]
pub enum Goal {
    /// Each collection of numbers once, largest first.
    Combinations,
    /// Every order of the numbers.
    Permutations,
}

/// The sum of a sequence of numbers.
pub open spec fn seq_sum(s: Seq<u32>) -> int
    decreases s.len(),
{
    if s.len() == 0 {
        0
    } else {
        seq_sum(s.drop_last()) + s.last()
    }
}

/// Each number lies between `lo` and `hi`.
pub open spec fn within(s: Seq<u32>, lo: u32, hi: u32) -> bool {
    forall|i: int| 0 <= i < s.len() ==> lo <= #[trigger] s[i] <= hi
}

/// No number is larger than one before it.
pub open spec fn nonincreasing(s: Seq<u32>) -> bool {
    forall|i: int, j: int| 0 <= i < j < s.len() ==> s[i] >= s[j]
}

/// The numbers can be chosen at all: `parts` of them between `min` and `max`
/// can reach `sum`.
pub open spec fn solvable(p: Partitions) -> bool {
    p.min * p.parts <= p.sum && p.max * p.parts >= p.sum
}

/// `s` is one of the results for `p` and `goal`. A single part is the sum
/// itself; otherwise there are `parts` numbers between `min` and `max` that add
/// up to `sum`, the first of them positive, largest first for combinations.
pub open spec fn is_partition(p: Partitions, goal: Goal, s: Seq<u32>) -> bool {
    if p.sum == 0 {
        false
    } else if p.parts == 1 {
        s == seq![p.sum]
    } else {
        &&& s.len() == p.parts
        &&& seq_sum(s) == p.sum
        &&& within(s, p.min, p.max)
        &&& s[0] > 0
        &&& goal == Goal::Combinations ==> nonincreasing(s)
    }
}

/// What is left after taking `n` from the sum.
pub open spec fn subtracted(p: Partitions, n: u32, goal: Goal) -> Option<Partitions> {
    if n >= p.sum {
        None
    } else {
        let rest = Partitions {
            sum: (p.sum - n) as u32,
            min: if goal == Goal::Combinations && n > p.min {
                n
            } else {
                p.min
            },
            max: p.max,
            parts: (p.parts - 1) as u32,
        };
        if solvable(rest) {
            Some(rest)
        } else {
            None
        }
    }
}

/// A prefix sums to no more than the whole.
pub proof fn lemma_sum_prefix(s: Seq<u32>, n: int)
    requires
        0 <= n <= s.len(),
    ensures
        seq_sum(s.take(n)) <= seq_sum(s),
    decreases s.len() - n,
{
    if n < s.len() {
        lemma_sum_prefix(s, n + 1);
        assert(s.take(n + 1).drop_last() =~= s.take(n));
    } else {
        assert(s.take(n) =~= s);
    }
}

proof fn lemma_sum_push(s: Seq<u32>, x: u32)
    ensures
        seq_sum(s.push(x)) == seq_sum(s) + x,
{
    assert(s.push(x).drop_last() =~= s);
}

proof fn lemma_sum_bounds(s: Seq<u32>, lo: u32, hi: u32)
    requires
        within(s, lo, hi),
    ensures
        lo * s.len() <= seq_sum(s) <= hi * s.len(),
    decreases s.len(),
{
    if s.len() > 0 {
        assert(within(s.drop_last(), lo, hi)) by {
            assert forall|i: int| 0 <= i < s.drop_last().len() implies lo <= #[trigger] s.drop_last()[i] <= hi by {
                assert(s.drop_last()[i] == s[i]);
            }
        }
        lemma_sum_bounds(s.drop_last(), lo, hi);
        assert(lo <= s.last() <= hi);
        assert(lo * s.len() == lo * (s.len() - 1) + lo) by (nonlinear_arith);
        assert(hi * s.len() == hi * (s.len() - 1) + hi) by (nonlinear_arith);
    } else {
        assert(lo * s.len() == 0 && hi * s.len() == 0) by (nonlinear_arith)
            requires s.len() == 0;
    }
}

proof fn lemma_sum_at_least_first(s: Seq<u32>)
    requires
        s.len() > 0,
    ensures
        seq_sum(s) >= s[0],
    decreases s.len(),
{
    if s.len() > 1 {
        lemma_sum_at_least_first(s.drop_last());
        assert(s.drop_last()[0] == s[0]);
    } else {
        assert(s.drop_last().len() == 0);
        assert(seq_sum(s.drop_last()) == 0);
        assert(s.last() == s[0]);
    }
}

/// Taking `n` first and then any result for the rest gives a result.
proof fn lemma_extend(p: Partitions, goal: Goal, n: u32, rest: Partitions, w: Seq<u32>)
    requires
        p.sum > 0,
        p.parts >= 2,
        p.min <= n <= p.max,
        subtracted(p, n, goal) == Some(rest),
        is_partition(rest, goal, w),
    ensures
        is_partition(p, goal, w.push(n)),
{
    let s = w.push(n);
    lemma_sum_push(w, n);
    if rest.parts == 1 {
        assert(w.len() == 1 && w[0] == rest.sum);
        assert(w.drop_last().len() == 0);
        assert(seq_sum(w.drop_last()) == 0);
        assert(seq_sum(w) == rest.sum);
        assert(rest.min * 1 <= rest.sum <= rest.max * 1);
        assert(s[0] == w[0]);
        assert(s[1] == n);
    } else {
        assert(s[0] == w[0]);
        assert forall|i: int, j: int| 0 <= i < j < s.len() && goal == Goal::Combinations implies s[i] >= s[j] by {
            if j < s.len() - 1 {
                assert(s[i] == w[i] && s[j] == w[j]);
            } else {
                assert(s[i] == w[i]);
                assert(rest.min <= w[i]);
            }
        }
    }
    assert forall|i: int| 0 <= i < s.len() implies p.min <= #[trigger] s[i] <= p.max by {
        if i < s.len() - 1 {
            assert(s[i] == w[i]);
            assert(rest.min <= w[i] <= rest.max);
        }
    }
}

/// Every result for two or more parts is a result for the rest after its last
/// number.
proof fn lemma_split(p: Partitions, goal: Goal, s: Seq<u32>)
    requires
        p.parts >= 2,
        is_partition(p, goal, s),
    ensures
        p.min <= s.last() <= p.max,
        subtracted(p, s.last(), goal) is Some,
        is_partition(subtracted(p, s.last(), goal)->Some_0, goal, s.drop_last()),
{
    let n = s.last();
    let w = s.drop_last();
    assert(s =~= w.push(n));
    lemma_sum_push(w, n);
    assert(w[0] == s[0]);
    lemma_sum_at_least_first(w);
    assert(n < p.sum);
    let lo: u32 = if goal == Goal::Combinations && n > p.min {
        n
    } else {
        p.min
    };
    assert(within(w, lo, p.max)) by {
        assert forall|i: int| 0 <= i < w.len() implies lo <= #[trigger] w[i] <= p.max by {
            assert(w[i] == s[i]);
            if goal == Goal::Combinations {
                assert(s[i] >= s[s.len() - 1]);
            }
        }
    }
    lemma_sum_bounds(w, lo, p.max);
    let rest = Partitions { sum: (p.sum - n) as u32, min: lo, max: p.max, parts: (p.parts - 1) as u32 };
    assert(solvable(rest));
    assert(subtracted(p, n, goal) == Some(rest));
    if rest.parts == 1 {
        assert(w.drop_last().len() == 0);
        assert(seq_sum(w.drop_last()) == 0);
        assert(w =~= seq![rest.sum]);
    } else {
        assert forall|i: int, j: int| 0 <= i < j < w.len() && goal == Goal::Combinations implies w[i] >= w[j] by {
            assert(w[i] == s[i] && w[j] == s[j]);
        }
    }
}

/// The product of the factorials of the numbers.
pub open spec fn size_factorials(s: Seq<u32>) -> nat
    decreases s.len(),
{
    if s.len() == 0 {
        1
    } else {
        size_factorials(s.drop_last()) * factorial_spec(s.last() as nat)
    }
}

/// The product, over the numbers, of how often each has occurred up to and
/// including it: the product of the factorials of the multiplicities.
pub open spec fn repeat_factor(s: Seq<u32>) -> nat
    decreases s.len(),
{
    if s.len() == 0 {
        1
    } else {
        repeat_factor(s.drop_last()) * occurrences(s, s.last())
    }
}

/// The number of ways to put `seq_sum(sizes)` letters on keys of these sizes,
/// where keys are not ordered: the multinomial coefficient divided by the
/// orderings of keys of equal size.
pub open spec fn keyboard_count(sizes: Seq<u32>) -> nat {
    factorial_spec(seq_sum(sizes) as nat) / (size_factorials(sizes) * repeat_factor(sizes))
}

/// `x`, or `u128::MAX` where it is larger.
pub open spec fn capped(x: int) -> int {
    if x > u128::MAX {
        u128::MAX as int
    } else {
        x
    }
}

/// The sum of `keyboard_count` over a list of key size lists.
pub open spec fn keyboard_total(l: Seq<Seq<u32>>) -> nat
    decreases l.len(),
{
    if l.len() == 0 {
        0
    } else {
        keyboard_total(l.drop_last()) + keyboard_count(l.last())
    }
}

/// Taking one list out of a listing takes its count out of the total.
proof fn lemma_keyboard_total_remove(l: Seq<Seq<u32>>, k: int)
    requires
        0 <= k < l.len(),
    ensures
        keyboard_total(l) == keyboard_total(l.remove(k)) + keyboard_count(l[k]),
    decreases l.len(),
{
    if k == l.len() - 1 {
        assert(l.remove(k) =~= l.drop_last());
    } else {
        lemma_keyboard_total_remove(l.drop_last(), k);
        assert(l.remove(k).drop_last() =~= l.drop_last().remove(k));
        assert(l.remove(k).last() == l.last());
        assert(l.drop_last()[k] == l[k]);
    }
}

/// The total does not depend on the order of the listing: two listings of
/// the same key size lists, neither with a list twice, have the same total.
pub proof fn lemma_keyboard_total_order_free(l1: Seq<Seq<u32>>, l2: Seq<Seq<u32>>)
    requires
        l1.no_duplicates(),
        l2.no_duplicates(),
        forall|s: Seq<u32>| l1.contains(s) <==> l2.contains(s),
    ensures
        keyboard_total(l1) == keyboard_total(l2),
    decreases l1.len(),
{
    if l1.len() == 0 {
        if l2.len() > 0 {
            assert(l2.contains(l2[0]));
        }
    } else {
        let x = l1.last();
        assert(l1.contains(x));
        let k = choose|k: int| 0 <= k < l2.len() && l2[k] == x;
        let r1 = l1.drop_last();
        let r2 = l2.remove(k);
        assert forall|s: Seq<u32>| r1.contains(s) <==> r2.contains(s) by {
            if r1.contains(s) {
                let i = choose|i: int| 0 <= i < r1.len() && r1[i] == s;
                assert(l1[i] == s);
                assert(s != x);
                assert(l2.contains(s));
                let j = choose|j: int| 0 <= j < l2.len() && l2[j] == s;
                assert(j != k);
                if j < k {
                    assert(r2[j] == s);
                } else {
                    assert(r2[j - 1] == s);
                }
            }
            if r2.contains(s) {
                let j = choose|j: int| 0 <= j < r2.len() && r2[j] == s;
                let jj = if j < k { j } else { j + 1 };
                assert(l2[jj] == s);
                assert(jj != k);
                assert(s != x);
                assert(l1.contains(s));
                let i = choose|i: int| 0 <= i < l1.len() && l1[i] == s;
                assert(i != l1.len() - 1);
                assert(r1[i] == s);
            }
        }
        assert(r1.no_duplicates()) by {
            assert forall|a: int, b: int| 0 <= a < r1.len() && 0 <= b < r1.len() && a != b implies r1[a] != r1[b] by {
                assert(l1[a] != l1[b]);
            }
        }
        assert(r2.no_duplicates()) by {
            assert forall|a: int, b: int| 0 <= a < r2.len() && 0 <= b < r2.len() && a != b implies r2[a] != r2[b] by {
                let aa = if a < k { a } else { a + 1 };
                let bb = if b < k { b } else { b + 1 };
                assert(r2[a] == l2[aa]);
                assert(r2[b] == l2[bb]);
                assert(l2[aa] != l2[bb]);
            }
        }
        lemma_keyboard_total_order_free(r1, r2);
        lemma_keyboard_total_remove(l2, k);
    }
}

proof fn lemma_factorial_even(n: nat)
    requires
        n >= 2,
    ensures
        factorial_spec(n) % 2 == 0,
    decreases n,
{
    if n == 2 {
        assert(factorial_spec(1) == 1 * factorial_spec(0));
    } else {
        lemma_factorial_even((n - 1) as nat);
        let f = factorial_spec((n - 1) as nat);
        let k = f / 2;
        assert(f == k * 2);
        assert(n * f == (n * k) * 2) by (nonlinear_arith)
            requires f == k * 2;
        lemma_mod_multiples_basic((n * k) as int, 2);
        assert(factorial_spec(n) == n * f);
    }
}

proof fn lemma_element_below_sum(s: Seq<u32>, i: int)
    requires
        0 <= i < s.len(),
    ensures
        s[i] <= seq_sum(s),
        0 <= seq_sum(s),
    decreases s.len(),
{
    if i < s.len() - 1 {
        lemma_element_below_sum(s.drop_last(), i);
        assert(s.drop_last()[i] == s[i]);
    } else if s.len() > 1 {
        lemma_element_below_sum(s.drop_last(), 0);
    } else {
        assert(s.drop_last().len() == 0);
        assert(seq_sum(s.drop_last()) == 0);
    }
}

proof fn lemma_products_positive(s: Seq<u32>)
    ensures
        size_factorials(s) >= 1,
        repeat_factor(s) >= 1,
    decreases s.len(),
{
    if s.len() > 0 {
        lemma_products_positive(s.drop_last());
        lemma_factorial_monotone(0, s.last() as nat);
        assert(occurrences(s, s.last()) >= 1) by {
            lemma_occurrences_push(s.drop_last(), s.last(), s.last());
            assert(s.drop_last().push(s.last()) =~= s);
        }
        let a = size_factorials(s.drop_last());
        let b = factorial_spec(s.last() as nat);
        let c = repeat_factor(s.drop_last());
        let d = occurrences(s, s.last());
        assert(a * b >= 1 && c * d >= 1) by (nonlinear_arith)
            requires a >= 1, b >= 1, c >= 1, d >= 1;
    }
}

/// `a * b`, or `u128::MAX` where that is larger.
fn saturating_product(a: u128, b: u128) -> (r: u128)
    ensures
        r == capped(a * b),
{
    if b == 0 {
        0
    } else if a > u128::MAX / b {
        proof {
            assert(a * b > u128::MAX) by (nonlinear_arith)
                requires a > u128::MAX / b, b > 0;
        }
        u128::MAX
    } else {
        proof {
            assert(a * b <= u128::MAX) by (nonlinear_arith)
                requires a <= u128::MAX / b, b > 0;
        }
        a * b
    }
}

/// `a` comes before `b` when read from the end: a smaller last number, or the
/// same last number and the rest before the rest.
pub open spec fn last_first_less(a: Seq<u32>, b: Seq<u32>) -> bool
    decreases a.len(),
{
    a.len() > 0 && b.len() > 0 && (a.last() < b.last() || (a.last() == b.last() && last_first_less(
        a.drop_last(),
        b.drop_last(),
    )))
}

/// The partition with no sum and no parts.
pub open spec fn nothing() -> Partitions {
    Partitions { sum: 0, min: 0, max: 0, parts: 0 }
}

impl Partitions {
    /// No sum, no parts.
    pub fn empty() -> (r: Partitions)
        ensures
            r == nothing(),
    {
        Partitions { sum: 0, min: 0, max: 0, parts: 0 }
    }

    /// `parts` numbers between `min` and `max` can reach `sum`.
    pub fn has_solution(&self) -> (r: bool)
        ensures
            r == solvable(*self),
    {
        let min = self.min as u64;
        let max = self.max as u64;
        let parts = self.parts as u64;
        let sum = self.sum as u64;
        proof {
            assert(min * parts <= u32::MAX * u32::MAX) by (nonlinear_arith)
                requires min <= u32::MAX, parts <= u32::MAX;
            assert(max * parts <= u32::MAX * u32::MAX) by (nonlinear_arith)
                requires max <= u32::MAX, parts <= u32::MAX;
        }
        min * parts <= sum && max * parts >= sum
    }

    /// What is left after taking `n` as one of the numbers, when the rest can
    /// still be chosen. For combinations the rest are at least `n`, so that each
    /// collection comes out once.
    pub fn subtract(&self, n: u32, goal: Goal) -> (r: Option<Partitions>)
        requires
            n < self.sum ==> self.parts >= 1,
        ensures
            r == subtracted(*self, n, goal),
    {
        if n >= self.sum {
            None
        } else {
            let result = Partitions {
                sum: self.sum - n,
                min: match goal {
                    Goal::Combinations => if n > self.min {
                        n
                    } else {
                        self.min
                    },
                    Goal::Permutations => self.min,
                },
                max: self.max,
                parts: self.parts - 1,
            };
            if result.has_solution() {
                Some(result)
            } else {
                None
            }
        }
    }

    /// Each first number with what is left after it. A sum of zero in no parts
    /// has none; a positive sum in one part is that sum with nothing left;
    /// otherwise each number from `min` to `max`, smallest first, that leaves
    /// a rest that can still be chosen.
    pub fn iterate(self, goal: Goal) -> (r: Vec<(u32, Partitions)>)
        requires
            solvable(self),
        ensures
            self.sum == 0 && self.parts == 0 ==> r@.len() == 0,
            self.sum > 0 && self.parts == 1 ==> r@ == seq![(self.sum, nothing())],
            !(self.sum == 0 && self.parts == 0) && !(self.sum > 0 && self.parts == 1) ==> {
                &&& forall|k: int| 0 <= k < r@.len() ==> self.min <= (#[trigger] r@[k]).0 <= self.max
                    && subtracted(self, r@[k].0, goal) == Some(r@[k].1)
                &&& forall|k: int, l: int| 0 <= k < l < r@.len() ==> r@[k].0 < r@[l].0
                &&& forall|n: u32| self.min <= n <= self.max && (#[trigger] subtracted(self, n, goal)) is Some
                    ==> exists|k: int| 0 <= k < r@.len() && r@[k].0 == n
            },
    {
        if self.sum == 0 && self.parts == 0 {
            Vec::new()
        } else if self.sum > 0 && self.parts == 1 {
            vec![(self.sum, Partitions::empty())]
        } else {
            let mut result: Vec<(u32, Partitions)> = Vec::new();
            let mut i: u64 = self.min as u64;
            while i <= self.max as u64
                invariant
                    solvable(self),
                    self.parts >= 1,
                    self.min <= i,
                    i <= self.max as u64 + 1 || i == self.min as u64,
                    forall|k: int| 0 <= k < result@.len() ==> self.min <= (#[trigger] result@[k]).0 < i
                        && subtracted(self, result@[k].0, goal) == Some(result@[k].1),
                    forall|k: int, l: int| 0 <= k < l < result@.len() ==> result@[k].0 < result@[l].0,
                    forall|n: u32| self.min <= n < i && (#[trigger] subtracted(self, n, goal)) is Some
                        ==> exists|k: int| 0 <= k < result@.len() && result@[k].0 == n,
                decreases self.max as u64 + 1 - i,
            {
                let n = i as u32;
                let ghost before = result@;
                match self.subtract(n, goal) {
                    Some(p) => {
                        result.push((n, p));
                        proof {
                            assert(result@[result@.len() - 1].0 == n);
                        }
                    },
                    None => {},
                }
                proof {
                    assert forall|m: u32| self.min <= m < i + 1 && (#[trigger] subtracted(self, m, goal)) is Some
                        implies exists|k: int| 0 <= k < result@.len() && result@[k].0 == m by {
                        if m < i {
                            let k = choose|k: int| 0 <= k < before.len() && before[k].0 == m;
                            assert(result@[k] == before[k]);
                        } else {
                            assert(result@[result@.len() - 1].0 == m);
                        }
                    }
                }
                i = i + 1;
            }
            result
        }
    }

    /// `iterate` in any order.
    pub fn permutations(self) -> (r: Vec<(u32, Partitions)>)
        requires
            solvable(self),
        ensures
            self.sum == 0 && self.parts == 0 ==> r@.len() == 0,
            self.sum > 0 && self.parts == 1 ==> r@ == seq![(self.sum, nothing())],
            !(self.sum == 0 && self.parts == 0) && !(self.sum > 0 && self.parts == 1) ==> {
                &&& forall|k: int| 0 <= k < r@.len() ==> self.min <= (#[trigger] r@[k]).0 <= self.max
                    && subtracted(self, r@[k].0, Goal::Permutations) == Some(r@[k].1)
                &&& forall|k: int, l: int| 0 <= k < l < r@.len() ==> r@[k].0 < r@[l].0
                &&& forall|n: u32| self.min <= n <= self.max && (#[trigger] subtracted(self, n, Goal::Permutations)) is Some
                    ==> exists|k: int| 0 <= k < r@.len() && r@[k].0 == n
            },
    {
        self.iterate(Goal::Permutations)
    }

    /// `iterate` for collections, largest first.
    pub fn combinations(self) -> (r: Vec<(u32, Partitions)>)
        requires
            solvable(self),
        ensures
            self.sum == 0 && self.parts == 0 ==> r@.len() == 0,
            self.sum > 0 && self.parts == 1 ==> r@ == seq![(self.sum, nothing())],
            !(self.sum == 0 && self.parts == 0) && !(self.sum > 0 && self.parts == 1) ==> {
                &&& forall|k: int| 0 <= k < r@.len() ==> self.min <= (#[trigger] r@[k]).0 <= self.max
                    && subtracted(self, r@[k].0, Goal::Combinations) == Some(r@[k].1)
                &&& forall|k: int, l: int| 0 <= k < l < r@.len() ==> r@[k].0 < r@[l].0
                &&& forall|n: u32| self.min <= n <= self.max && (#[trigger] subtracted(self, n, Goal::Combinations)) is Some
                    ==> exists|k: int| 0 <= k < r@.len() && r@[k].0 == n
            },
    {
        self.iterate(Goal::Combinations)
    }

    /// Every way of writing the sum as the parts, each once (see
    /// `is_partition`), in the order of their last numbers, then of the ones
    /// before (see `last_first_less`). A sum of zero has none.
    pub fn flatten(&self, goal: Goal) -> (r: Vec<Vec<u32>>)
        requires
            self.sum == 0 || self.parts == 1 || solvable(*self),
        ensures
            forall|s: Seq<u32>|
                is_partition(*self, goal, s) <==> exists|i: int| 0 <= i < r@.len() && #[trigger] r@[i]@ == s,
            forall|i: int, j: int| 0 <= i < j < r@.len() ==> r@[i]@ != r@[j]@,
            forall|i: int, j: int| 0 <= i < j < r@.len() ==> last_first_less(r@[i]@, r@[j]@),
        decreases self.parts,
    {
        if self.sum == 0 {
            return Vec::new();
        } else if self.parts == 1 {
            let r = vec![vec![self.sum]];
            proof {
                assert(r@[0]@ =~= seq![self.sum]);
            }
            return r;
        }
        proof {
            if self.parts == 0 {
                assert(self.max * self.parts == 0) by (nonlinear_arith)
                    requires self.parts == 0;
            }
        }
        let pairs = self.iterate(goal);
        let mut result: Vec<Vec<u32>> = Vec::new();
        let mut k: usize = 0;
        while k < pairs.len()
            invariant
                self.sum > 0,
                self.parts >= 2,
                solvable(*self),
                k <= pairs@.len(),
                forall|a: int| 0 <= a < pairs@.len() ==> self.min <= (#[trigger] pairs@[a]).0 <= self.max
                    && subtracted(*self, pairs@[a].0, goal) == Some(pairs@[a].1),
                forall|a: int, b: int| 0 <= a < b < pairs@.len() ==> pairs@[a].0 < pairs@[b].0,
                forall|s: Seq<u32>|
                    (is_partition(*self, goal, s) && exists|a: int| 0 <= a < k && pairs@[a].0 == s.last())
                        <==> exists|i: int| 0 <= i < result@.len() && #[trigger] result@[i]@ == s,
                forall|a: int, b: int| 0 <= a < b < result@.len() ==> result@[a]@ != result@[b]@,
                forall|a: int, b: int| 0 <= a < b < result@.len() ==> last_first_less(result@[a]@, result@[b]@),
                forall|a: int| 0 <= a < result@.len() ==> result@[a]@.len() > 0 && exists|c: int|
                    0 <= c < k && pairs@[c].0 == (#[trigger] result@[a]@).last(),
            decreases pairs@.len() - k,
        {
            let (n, rest) = pairs[k];
            let sub = rest.flatten(goal);
            let ghost before = result@;
            let mut t: usize = 0;
            while t < sub.len()
                invariant
                    k < pairs@.len(),
                    n == pairs@[k as int].0,
                    t <= sub.len(),
                    result@.len() == before.len() + t,
                    forall|a: int| 0 <= a < before.len() ==> result@[a] == before[a],
                    forall|a: int| 0 <= a < t ==> (#[trigger] result@[before.len() + a])@ == sub@[a]@.push(n),
                decreases sub.len() - t,
            {
                let mut w = sub[t].clone();
                proof {
                    assert(w@ =~= sub@[t as int]@);
                }
                w.push(n);
                result.push(w);
                t = t + 1;
            }
            proof {
                let m = before.len();
                assert forall|a: int| 0 <= a < result@.len() implies result@[a]@.len() > 0 && exists|c: int|
                    0 <= c < k + 1 && pairs@[c].0 == (#[trigger] result@[a]@).last() by {
                    if a < m {
                        assert(result@[a] == before[a]);
                        let c = choose|c: int| 0 <= c < k && pairs@[c].0 == before[a]@.last();
                        assert(0 <= c < k + 1 && pairs@[c].0 == result@[a]@.last());
                    } else {
                        assert(result@[m + (a - m)]@ == sub@[a - m]@.push(n));
                        assert(pairs@[k as int].0 == result@[a]@.last());
                    }
                }
                assert forall|a: int, b: int| 0 <= a < b < result@.len() implies result@[a]@ != result@[b]@ by {
                    if b < m {
                        assert(result@[a] == before[a]);
                        assert(result@[b] == before[b]);
                    } else if a < m {
                        assert(result@[a] == before[a]);
                        let c = choose|c: int| 0 <= c < k && pairs@[c].0 == before[a]@.last();
                        assert(result@[m + (b - m)]@ == sub@[b - m]@.push(n));
                        assert(result@[b]@.last() == n);
                        assert(pairs@[c].0 < pairs@[k as int].0);
                    } else {
                        assert(result@[m + (a - m)]@ == sub@[a - m]@.push(n));
                        assert(result@[m + (b - m)]@ == sub@[b - m]@.push(n));
                        if result@[a]@ == result@[b]@ {
                            assert(sub@[a - m]@ =~= result@[a]@.drop_last());
                            assert(sub@[b - m]@ =~= result@[b]@.drop_last());
                        }
                    }
                }
                assert forall|a: int, b: int| 0 <= a < b < result@.len() implies last_first_less(result@[a]@, result@[b]@) by {
                    if b < m {
                        assert(result@[a] == before[a]);
                        assert(result@[b] == before[b]);
                    } else if a < m {
                        assert(result@[a] == before[a]);
                        let c = choose|c: int| 0 <= c < k && pairs@[c].0 == before[a]@.last();
                        assert(result@[m + (b - m)]@ == sub@[b - m]@.push(n));
                        assert(result@[b]@.last() == n);
                        assert(pairs@[c].0 < pairs@[k as int].0);
                        assert(before[a]@.len() > 0);
                    } else {
                        assert(result@[m + (a - m)]@ == sub@[a - m]@.push(n));
                        assert(result@[m + (b - m)]@ == sub@[b - m]@.push(n));
                        assert(sub@[a - m]@ =~= result@[a]@.drop_last());
                        assert(sub@[b - m]@ =~= result@[b]@.drop_last());
                        assert(last_first_less(sub@[a - m]@, sub@[b - m]@));
                    }
                }
                assert forall|s: Seq<u32>|
                    (is_partition(*self, goal, s) && exists|a: int| 0 <= a < k + 1 && pairs@[a].0 == s.last())
                        <==> exists|i: int| 0 <= i < result@.len() && #[trigger] result@[i]@ == s by {
                    if is_partition(*self, goal, s) && exists|a: int| 0 <= a < k + 1 && pairs@[a].0 == s.last() {
                        let a = choose|a: int| 0 <= a < k + 1 && pairs@[a].0 == s.last();
                        if a < k {
                            let i = choose|i: int| 0 <= i < before.len() && #[trigger] before[i]@ == s;
                            assert(result@[i] == before[i]);
                        } else {
                            lemma_split(*self, goal, s);
                            let q = s.drop_last();
                            assert(s =~= q.push(n));
                            assert(is_partition(rest, goal, q));
                            assert(exists|u: int| 0 <= u < sub@.len() && #[trigger] sub@[u]@ == q);
                            let u = choose|u: int| 0 <= u < sub@.len() && #[trigger] sub@[u]@ == q;
                            assert(result@[m + u]@ == sub@[u]@.push(n));
                        }
                    }
                    if exists|i: int| 0 <= i < result@.len() && #[trigger] result@[i]@ == s {
                        let i = choose|i: int| 0 <= i < result@.len() && #[trigger] result@[i]@ == s;
                        if i < m {
                            assert(result@[i] == before[i]);
                            assert(exists|ii: int| 0 <= ii < before.len() && #[trigger] before[ii]@ == s);
                        } else {
                            let u = i - m;
                            assert(result@[m + u]@ == sub@[u]@.push(n));
                            let q = sub@[u]@;
                            assert(is_partition(rest, goal, q));
                            lemma_extend(*self, goal, n, rest, q);
                            assert(s.last() == pairs@[k as int].0);
                        }
                    }
                }
            }
            k = k + 1;
        }
        proof {
            assert forall|s: Seq<u32>| is_partition(*self, goal, s) implies exists|i: int|
                0 <= i < result@.len() && #[trigger] result@[i]@ == s by {
                lemma_split(*self, goal, s);
                let n = s.last();
                assert(exists|a: int| 0 <= a < pairs@.len() && pairs@[a].0 == n);
            }
        }
        result
    }

    /// The collections of numbers, each once, largest first, in the order of
    /// `flatten`.
    pub fn calculate(&self) -> (r: Vec<Vec<u32>>)
        requires
            self.sum == 0 || self.parts == 1 || solvable(*self),
        ensures
            forall|s: Seq<u32>|
                is_partition(*self, Goal::Combinations, s) <==> exists|i: int| 0 <= i < r@.len() && #[trigger] r@[i]@ == s,
            forall|i: int, j: int| 0 <= i < j < r@.len() ==> r@[i]@ != r@[j]@,
            forall|i: int, j: int| 0 <= i < j < r@.len() ==> last_first_less(r@[i]@, r@[j]@),
    {
        self.flatten(Goal::Combinations)
    }
}

/// The number of different keyboards whose keys have these sizes, when the
/// letters are all different and the keys are not ordered.
pub fn unique_keyboards(sizes: &Vec<u32>) -> (r: u128)
    requires
        factorial_spec(seq_sum(sizes@) as nat) <= u128::MAX,
    ensures
        r == keyboard_count(sizes@),
{
    let mut sum: u128 = 0;
    let mut den: u128 = 1;
    let mut i: usize = 0;
    proof {
        lemma_products_positive(sizes@);
        assert(sizes@.take(0) =~= Seq::<u32>::empty());
        assert(seq_sum(Seq::<u32>::empty()) == 0);
        assert(size_factorials(Seq::<u32>::empty()) == 1);
        assert(repeat_factor(Seq::<u32>::empty()) == 1);
    }
    while i < sizes.len()
        invariant
            i <= sizes.len(),
            factorial_spec(seq_sum(sizes@) as nat) <= u128::MAX,
            sum == seq_sum(sizes@.take(i as int)),
            sum <= i * u32::MAX,
            den == capped((size_factorials(sizes@.take(i as int)) * repeat_factor(sizes@.take(i as int))) as int),
        decreases sizes.len() - i,
    {
        let size = sizes[i];
        let ghost prefix = sizes@.take(i as int);
        let ghost next = sizes@.take(i + 1);
        proof {
            assert(next.drop_last() =~= prefix);
            assert(next.last() == size);
            lemma_element_below_sum(sizes@, i as int);
            lemma_factorial_monotone(size as nat, seq_sum(sizes@) as nat);
            lemma_products_positive(prefix);
            lemma_factorial_monotone(0, size as nat);
        }
        let f = factorial(size as u128);
        let mut seen: u128 = 0;
        let mut j: usize = 0;
        while j <= i
            invariant
                i < sizes.len(),
                j <= i + 1,
                next == sizes@.take(i + 1),
                size == sizes@[i as int],
                seen == occurrences(next.take(j as int), size),
                seen <= j,
            decreases i + 1 - j,
        {
            proof {
                assert(next.take(j + 1) =~= next.take(j as int).push(next[j as int]));
                lemma_occurrences_push(next.take(j as int), next[j as int], size);
            }
            if sizes[j] == size {
                seen = seen + 1;
            }
            j = j + 1;
        }
        proof {
            assert(next.take(i + 1) =~= next);
            let p = size_factorials(prefix) * repeat_factor(prefix);
            let q = size_factorials(next) * repeat_factor(next);
            assert(q == p * (f * seen)) by (nonlinear_arith)
                requires
                    q == size_factorials(prefix) * f * (repeat_factor(prefix) * seen),
                    p == size_factorials(prefix) * repeat_factor(prefix);
            assert(seen >= 1) by {
                lemma_occurrences_push(prefix, size, size);
                assert(prefix.push(size) =~= next);
            }
            assert(p >= 1) by (nonlinear_arith)
                requires
                    p == size_factorials(prefix) * repeat_factor(prefix),
                    size_factorials(prefix) >= 1,
                    repeat_factor(prefix) >= 1;
            lemma_capped_product(p as int, f as int, seen as int);
        }
        den = saturating_product(saturating_product(den, f), seen);
        sum = sum + size as u128;
        i = i + 1;
    }
    proof {
        assert(sizes@.take(sizes.len() as int) =~= sizes@);
        lemma_products_positive(sizes@);
        let t = size_factorials(sizes@) * repeat_factor(sizes@);
        let n = factorial_spec(seq_sum(sizes@) as nat);
        assert(t >= 1) by (nonlinear_arith)
            requires
                t == size_factorials(sizes@) * repeat_factor(sizes@),
                size_factorials(sizes@) >= 1,
                repeat_factor(sizes@) >= 1;
        if t > u128::MAX {
            lemma_factorial_monotone(0, seq_sum(sizes@) as nat);
            if seq_sum(sizes@) >= 2 {
                lemma_factorial_even(seq_sum(sizes@) as nat);
            } else if seq_sum(sizes@) == 1 {
                assert(factorial_spec(1) == 1 * factorial_spec(0));
            }
            assert(n < u128::MAX);
            assert(n / t == 0) by (nonlinear_arith)
                requires n < t, n >= 0;
            assert((n as int) / (u128::MAX as int) == 0) by (nonlinear_arith)
                requires n < u128::MAX;
        }
    }
    factorial(sum) / den
}

/// Capping before or after multiplying by positive factors gives the same.
proof fn lemma_capped_product(p: int, f: int, c: int)
    requires
        p >= 1,
        f >= 1,
        c >= 1,
    ensures
        capped(capped(capped(p) * f) * c) == capped(p * (f * c)),
{
    assert(p * (f * c) == (p * f) * c) by (nonlinear_arith);
    if p > u128::MAX {
        assert(p * f >= p) by (nonlinear_arith)
            requires f >= 1, p >= 1;
        assert((p * f) * c >= p * f) by (nonlinear_arith)
            requires c >= 1, p * f >= 1;
        assert(u128::MAX * f >= u128::MAX) by (nonlinear_arith)
            requires f >= 1;
        assert(u128::MAX * c >= u128::MAX) by (nonlinear_arith)
            requires c >= 1;
    } else if p * f > u128::MAX {
        assert((p * f) * c >= p * f) by (nonlinear_arith)
            requires c >= 1, p * f >= 1;
        assert(u128::MAX * c >= u128::MAX) by (nonlinear_arith)
            requires c >= 1;
    }
}

impl Partitions {
    /// The number of different keyboards over all the collections of key sizes:
    /// the sum of `keyboard_count` over the results of `calculate`, capped at
    /// `u128::MAX`.
    pub fn total_unique_keyboards(&self) -> (r: u128)
        requires
            self.sum == 0 || self.parts == 1 || solvable(*self),
            factorial_spec(self.sum as nat) <= u128::MAX,
        ensures
            exists|l: Seq<Seq<u32>>|
                (forall|s: Seq<u32>| is_partition(*self, Goal::Combinations, s) <==> #[trigger] l.contains(s))
                    && l.no_duplicates() && r == capped(keyboard_total(l) as int),
            forall|l: Seq<Seq<u32>>|
                (forall|s: Seq<u32>| is_partition(*self, Goal::Combinations, s) <==> #[trigger] l.contains(s))
                    && #[trigger] l.no_duplicates() ==> r == capped(keyboard_total(l) as int),
    {
        let all = self.calculate();
        let ghost l = all@.map_values(|v: Vec<u32>| v@);
        let mut total: u128 = 0;
        let mut k: usize = 0;
        proof {
            assert(l.take(0) =~= Seq::<Seq<u32>>::empty());
        }
        while k < all.len()
            invariant
                k <= all.len(),
                l == all@.map_values(|v: Vec<u32>| v@),
                forall|i: int| 0 <= i < all@.len() ==> is_partition(*self, Goal::Combinations, #[trigger] all@[i]@),
                factorial_spec(self.sum as nat) <= u128::MAX,
                total == capped(keyboard_total(l.take(k as int)) as int),
            decreases all.len() - k,
        {
            proof {
                let s = all@[k as int]@;
                assert(is_partition(*self, Goal::Combinations, s));
                if self.parts == 1 {
                    assert(s.drop_last().len() == 0);
                    assert(seq_sum(s.drop_last()) == 0);
                }
                assert(seq_sum(s) == self.sum);
                assert(l.take(k + 1).drop_last() =~= l.take(k as int));
                assert(l.take(k + 1).last() == s);
            }
            let count = unique_keyboards(&all[k]);
            total = if total > u128::MAX - count {
                u128::MAX
            } else {
                total + count
            };
            k = k + 1;
        }
        proof {
            assert(l.take(all.len() as int) =~= l);
            assert forall|s: Seq<u32>| is_partition(*self, Goal::Combinations, s) <==> #[trigger] l.contains(s) by {
                if l.contains(s) {
                    let i = choose|i: int| 0 <= i < l.len() && l[i] == s;
                    assert(all@[i]@ == s);
                }
                if is_partition(*self, Goal::Combinations, s) {
                    let i = choose|i: int| 0 <= i < all@.len() && #[trigger] all@[i]@ == s;
                    assert(l[i] == s);
                }
            }
            assert forall|i: int, j: int| 0 <= i < l.len() && 0 <= j < l.len() && i != j implies l[i] != l[j] by {
                if i < j {
                    assert(all@[i]@ != all@[j]@);
                } else {
                    assert(all@[j]@ != all@[i]@);
                }
            }
            assert(l.no_duplicates());
            assert((forall|s: Seq<u32>| is_partition(*self, Goal::Combinations, s) <==> #[trigger] l.contains(s))
                && l.no_duplicates() && total == capped(keyboard_total(l) as int));
            assert forall|m: Seq<Seq<u32>>|
                (forall|s: Seq<u32>| is_partition(*self, Goal::Combinations, s) <==> #[trigger] m.contains(s))
                    && #[trigger] m.no_duplicates() implies total == capped(keyboard_total(m) as int) by {
                assert forall|s: Seq<u32>| l.contains(s) <==> m.contains(s) by {
                    assert(is_partition(*self, Goal::Combinations, s) <==> l.contains(s));
                    assert(is_partition(*self, Goal::Combinations, s) <==> m.contains(s));
                }
                lemma_keyboard_total_order_free(l, m);
            }
        }
        total
    }
}

} // verus!
