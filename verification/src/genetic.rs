use vstd::prelude::*;

use crate::key::Key;
use crate::keyboard::{disjoint_keys, one_trade, trade_chain, has_swap, is_ordered_swap, is_some_swap, is_swap, key_sets, lemma_swap_keeps, letters_of, swap_sets, Keyboard};

verus! {

/// What a worker of the genetic search reports after scoring a keyboard.
#[derive(Debug, Clone, Copy, PartialEq, Eq, Structural)]
pub enum StatusMessage {
    CalculatedEstimate,
    CalulatedPrecise,
}

/// Counts of the reports so far.
pub struct StatusCounts {
    pub precise: u64,
    pub estimate: u64,
}

impl StatusCounts {
    pub fn new() -> (r: StatusCounts)
        ensures
            r.precise == 0 && r.estimate == 0,
    {
        StatusCounts { precise: 0, estimate: 0 }
    }

    /// Counts one report and says whether the total is now a multiple of
    /// `every`, when progress is printed.
    pub fn record(&mut self, msg: StatusMessage, every: u64) -> (r: bool)
        requires
            every > 0,
            old(self).precise < u64::MAX,
            old(self).estimate < u64::MAX,
        ensures
            final(self).precise == old(self).precise + if msg == StatusMessage::CalulatedPrecise {
                1int
            } else {
                0int
            },
            final(self).estimate == old(self).estimate + if msg == StatusMessage::CalculatedEstimate {
                1int
            } else {
                0int
            },
            r == ((final(self).precise as int + final(self).estimate as int) % (every as int) == 0),
    {
        match msg {
            StatusMessage::CalculatedEstimate => {
                self.estimate = self.estimate + 1;
            },
            StatusMessage::CalulatedPrecise => {
                self.precise = self.precise + 1;
            },
        }
        let total = (self.precise as u128) + (self.estimate as u128);
        total % (every as u128) == 0
    }
}

/// How many more random trades each of the twelve candidates made from one
/// trade of `every_swap` gets.
pub open spec fn extra_trades(m: int) -> u32 {
    if m == 0 {
        0
    } else if m <= 2 {
        1
    } else if m <= 5 {
        2
    } else if m <= 8 {
        4
    } else {
        8
    }
}

/// How many more random trades the twelve candidates made from one trade get,
/// candidate by candidate.
pub open spec fn trade_counts() -> Seq<nat> {
    seq![0nat, 1nat, 1nat, 2nat, 2nat, 2nat, 4nat, 4nat, 4nat, 8nat, 8nat, 8nat]
}

/// The twelve candidates of a trade get no more trades, then one, one, two,
/// two, two, four, four, four, eight, eight and eight more.
pub proof fn lemma_extra_trades_table()
    ensures
        trade_counts().len() == 12,
        forall|m: int| 0 <= m < 12 ==> extra_trades(m) as nat == #[trigger] trade_counts()[m],
{
    let t = trade_counts();
    assert(t[0] == 0 && t[1] == 1 && t[2] == 1 && t[3] == 2 && t[4] == 2 && t[5] == 2);
    assert(t[6] == 4 && t[7] == 4 && t[8] == 4 && t[9] == 8 && t[10] == 8 && t[11] == 8);
}

/// A trade always changes the keys: the letter that comes to the first key
/// was not on it before.
pub proof fn lemma_trade_changes(from: Seq<Key>, to: Seq<Key>)
    requires
        disjoint_keys(from),
        one_trade(from, to),
    ensures
        key_sets(to) != key_sets(from),
{
    let (a, b, la, lb) = choose|a: int, b: int, la: u32, lb: u32|
        is_swap(from, a, b, la, lb) && key_sets(to) == #[trigger] swap_sets(from, a, b, la, lb);
    if a < b {
        assert(from[a]@.disjoint(from[b]@));
    } else {
        assert(from[b]@.disjoint(from[a]@));
    }
    assert(!from[a]@.contains(lb));
    assert(key_sets(from)[a] == from[a]@);
    assert(key_sets(to)[a] == from[a]@.remove(la).insert(lb));
    assert(key_sets(to)[a].contains(lb));
}

fn extra_trades_exec(m: usize) -> (r: u32)
    ensures
        r == extra_trades(m as int),
{
    if m == 0 {
        0
    } else if m <= 2 {
        1
    } else if m <= 5 {
        2
    } else if m <= 8 {
        4
    } else {
        8
    }
}

/// `s` is what `every_swap` gives for the keys `parent`, and every twelfth
/// keyboard of `r`, from the first, has the keys of the next of `s`.
pub open spec fn led_by_trades(parent: Seq<Key>, r: Seq<Keyboard>, s: Seq<Keyboard>) -> bool {
    &&& r.len() == 12 * s.len()
    &&& forall|j: int| 0 <= j < s.len() ==> is_some_swap(parent, #[trigger] s[j])
    &&& forall|a: int, b: int, la: u32, lb: u32| is_ordered_swap(parent, a, b, la, lb) ==> #[trigger] has_swap(s, parent, a, b, la, lb)
    &&& forall|i: int, j: int| 0 <= i < j < s.len() ==> s[i]@ != s[j]@
    &&& forall|i: int| 0 <= i < r.len() && i % 12 == 0 ==> (#[trigger] r[i])@ == s[i / 12]@
    &&& forall|i: int| 0 <= i < r.len() ==> traded_from(s[i / 12]@, extra_trades(i % 12) as nat, (#[trigger] r[i])@)
    &&& forall|i: int| 0 <= i < r.len() ==> traded_from(s[i / 12]@, trade_counts()[i % 12], (#[trigger] r[i])@)
}

/// `to` is reached from `from` by exactly `n` trades of two letters, one
/// after the other.
pub open spec fn traded_from(from: Seq<Key>, n: nat, to: Seq<Key>) -> bool {
    exists|c: Seq<Seq<Key>>| c.len() == n + 1 && c[0] == from && c.last() == to && #[trigger] trade_chain(c)
}

/// The candidates of the next generation of the genetic search: for every
/// trade that `every_swap` makes, in its order, twelve keyboards, the traded
/// keyboard and then copies of it traded again at random 1, 1, 2, 2, 2, 4, 4,
/// 4, 8, 8 and 8 more times. Every candidate has the parent's letters and
/// key sizes. The parent needs two keys or more, none of them empty. The
/// candidates are only letter trades: moving a single letter to another key,
/// which would change the key sizes, is not among them.
pub fn children(parent: &Keyboard) -> (r: Vec<Keyboard>)
    requires
        parent@.len() >= 2,
        forall|i: int| 0 <= i < parent@.len() ==> (#[trigger] parent@[i])@.len() > 0,
    ensures
        exists|s: Seq<Keyboard>| #[trigger] led_by_trades(parent@, r@, s),
        forall|i: int| 0 <= i < r@.len() ==> (#[trigger] r@[i])@.len() == parent@.len() && letters_of(r@[i]@) == letters_of(parent@)
            && forall|k: int| 0 <= k < parent@.len() ==> (#[trigger] r@[i]@[k])@.len() == parent@[k]@.len(),
        forall|i: int| 0 <= i < r@.len() && i % 12 == 1 ==> traded_from(r@[i - 1]@, 1, (#[trigger] r@[i])@)
            && key_sets(r@[i]@) != key_sets(r@[i - 1]@),
{
    parent.lemma_disjoint();
    proof {
        assert forall|i: int| 0 <= i < parent@.len() implies (#[trigger] parent@[i])@.finite() by {
            parent@[i].lemma_items();
        }
    }
    let swaps = parent.every_swap();
    let mut result: Vec<Keyboard> = Vec::new();
    let mut j: usize = 0;
    while j < swaps.len()
        invariant
            j <= swaps@.len(),
            result@.len() == 12 * j,
            forall|k: int| 0 <= k < swaps@.len() ==> is_some_swap(parent@, #[trigger] swaps@[k]),
            forall|i: int| 0 <= i < result@.len() && i % 12 == 0 ==> (#[trigger] result@[i])@ == swaps@[i / 12]@,
            forall|i: int| 0 <= i < result@.len() ==> traded_from(swaps@[i / 12]@, extra_trades(i % 12) as nat, (#[trigger] result@[i])@),
            forall|i: int| 0 <= i < result@.len() ==> (#[trigger] result@[i])@.len() == parent@.len() && letters_of(result@[i]@)
                == letters_of(parent@) && forall|k: int| 0 <= k < parent@.len() ==> (#[trigger] result@[i]@[k])@.len() == parent@[k]@.len(),
            parent@.len() >= 2,
            forall|i: int| 0 <= i < parent@.len() ==> (#[trigger] parent@[i])@.len() > 0,
            forall|i: int| 0 <= i < parent@.len() ==> (#[trigger] parent@[i])@.finite(),
            crate::keyboard::disjoint_keys(parent@),
            forall|i: int| 0 <= i < result@.len() && i % 12 == 1 ==> key_sets((#[trigger] result@[i])@) != key_sets(swaps@[i / 12]@),
        decreases swaps@.len() - j,
    {
        let swapped = &swaps[j];
        swapped.lemma_disjoint();
        proof {
            assert(is_some_swap(parent@, swaps@[j as int]));
            let (a, b, la, lb) = choose|a: int, b: int, la: u32, lb: u32|
                is_ordered_swap(parent@, a, b, la, lb) && key_sets(swaps@[j as int]@) == swap_sets(parent@, a, b, la, lb);
            lemma_swap_keeps(parent@, swaps@[j as int]@, a, b, la, lb);
        }
        let mut m: usize = 0;
        while m < 12
            invariant
                j < swaps@.len(),
                *swapped == swaps@[j as int],
                m <= 12,
                result@.len() == 12 * j + m,
                forall|i: int| 0 <= i < result@.len() && i % 12 == 0 ==> (#[trigger] result@[i])@ == swaps@[i / 12]@,
                forall|i: int| 0 <= i < result@.len() ==> traded_from(swaps@[i / 12]@, extra_trades(i % 12) as nat, (#[trigger] result@[i])@),
                forall|i: int| 0 <= i < result@.len() ==> (#[trigger] result@[i])@.len() == parent@.len() && letters_of(result@[i]@)
                    == letters_of(parent@) && forall|k: int| 0 <= k < parent@.len() ==> (#[trigger] result@[i]@[k])@.len() == parent@[k]@.len(),
                swapped@.len() == parent@.len(),
                letters_of(swapped@) == letters_of(parent@),
                forall|k: int| 0 <= k < parent@.len() ==> (#[trigger] swapped@[k])@.len() == parent@[k]@.len(),
                parent@.len() >= 2,
                forall|i: int| 0 <= i < parent@.len() ==> (#[trigger] parent@[i])@.len() > 0,
                disjoint_keys(swapped@),
                forall|i: int| 0 <= i < result@.len() && i % 12 == 1 ==> key_sets((#[trigger] result@[i])@) != key_sets(swaps@[i / 12]@),
            decreases 12 - m,
        {
            proof {
                assert forall|i: int| 0 <= i < swapped@.len() implies (#[trigger] swapped@[i])@.len() > 0 by {
                    assert(swapped@[i]@.len() == parent@[i]@.len());
                }
            }
            let child = match swapped.swap_random_letters_n_times(extra_trades_exec(m)) {
                Ok(k) => k,
                Err(_) => {
                    proof {
                        assert(false);
                    }
                    swapped.clone()
                },
            };
            let ghost before = result@;
            result.push(child);
            proof {
                assert forall|i: int| 0 <= i < result@.len() && i % 12 == 0 implies (#[trigger] result@[i])@ == swaps@[i / 12]@ by {
                    if i < before.len() {
                        assert(result@[i] == before[i]);
                    } else {
                        assert(i == 12 * j + m);
                        assert(m == 0) by (nonlinear_arith)
                            requires i == 12 * j + m, i % 12 == 0, m < 12;
                        assert(i / 12 == j) by (nonlinear_arith)
                            requires i == 12 * j;
                    }
                }
                assert forall|i: int| 0 <= i < result@.len() implies traded_from(swaps@[i / 12]@, extra_trades(i % 12) as nat, (#[trigger] result@[i])@) by {
                    if i < before.len() {
                        assert(result@[i] == before[i]);
                    } else {
                        assert(i == 12 * j + m);
                        assert(i / 12 == j && i % 12 == m) by (nonlinear_arith)
                            requires i == 12 * j + m, 0 <= m < 12, j >= 0;
                        assert(result@[i] == child);
                    }
                }
                assert forall|i: int| 0 <= i < result@.len() && i % 12 == 1 implies key_sets((#[trigger] result@[i])@) != key_sets(swaps@[i / 12]@) by {
                    if i < before.len() {
                        assert(result@[i] == before[i]);
                    } else {
                        assert(i == 12 * j + m);
                        assert(i / 12 == j && i % 12 == m) by (nonlinear_arith)
                            requires i == 12 * j + m, 0 <= m < 12, j >= 0;
                        assert(result@[i] == child);
                        assert(traded_from(swapped@, 1, child@));
                        let c = choose|c: Seq<Seq<Key>>| c.len() == 1 + 1 && c[0] == swapped@ && c.last() == child@ && #[trigger] trade_chain(c);
                        assert(one_trade(c[0], c[0int + 1]));
                        lemma_trade_changes(swapped@, child@);
                    }
                }
                assert forall|i: int| 0 <= i < result@.len() implies (#[trigger] result@[i])@.len() == parent@.len() && letters_of(result@[i]@)
                    == letters_of(parent@) && forall|k: int| 0 <= k < parent@.len() ==> (#[trigger] result@[i]@[k])@.len() == parent@[k]@.len() by {
                    if i < before.len() {
                        assert(result@[i] == before[i]);
                    } else {
                        assert(result@[i] == child);
                        assert forall|k: int| 0 <= k < parent@.len() implies (#[trigger] result@[i]@[k])@.len() == parent@[k]@.len() by {
                            assert(child@[k]@.len() == swapped@[k]@.len());
                        }
                    }
                }
            }
            m = m + 1;
        }
        j = j + 1;
    }
    proof {
        assert(result@.len() == 12 * swaps@.len());
        lemma_extra_trades_table();
        assert forall|i: int| 0 <= i < result@.len() implies traded_from(swaps@[i / 12]@, trade_counts()[i % 12], (#[trigger] result@[i])@) by {
            assert(traded_from(swaps@[i / 12]@, extra_trades(i % 12) as nat, result@[i]@));
            assert(0 <= i % 12 < 12);
            assert(extra_trades(i % 12) as nat == trade_counts()[i % 12]);
        }
        assert(led_by_trades(parent@, result@, swaps@));
        assert forall|i: int| 0 <= i < result@.len() && i % 12 == 1 implies traded_from(result@[i - 1]@, 1, (#[trigger] result@[i])@)
            && key_sets(result@[i]@) != key_sets(result@[i - 1]@) by {
            assert((i - 1) % 12 == 0 && (i - 1) / 12 == i / 12) by (nonlinear_arith)
                requires i % 12 == 1, i >= 1;
            assert(result@[i - 1]@ == swaps@[(i - 1) / 12]@);
            assert(traded_from(swaps@[i / 12]@, extra_trades(i % 12) as nat, result@[i]@));
        }
    }
    result
}

} // verus!
