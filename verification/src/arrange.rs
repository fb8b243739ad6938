use vstd::prelude::*;

use crate::util::{factorial_spec, lemma_factorial_monotone};

verus! {

/// How many times `x` occurs in `s`.
pub open spec fn occurrences(s: Seq<u32>, x: u32) -> nat
    decreases s.len(),
{
    if s.len() == 0 {
        0
    } else {
        occurrences(s.drop_last(), x) + if s.last() == x {
            1nat
        } else {
            0nat
        }
    }
}

/// The count that a list of `(item, count)` entries gives `x`.
pub open spec fn entry_count(e: Seq<(u32, u32)>, x: u32) -> nat
    decreases e.len(),
{
    if e.len() == 0 {
        0
    } else {
        entry_count(e.drop_last(), x) + if e.last().0 == x {
            e.last().1 as nat
        } else {
            0nat
        }
    }
}

/// The sum of all counts of a list of entries.
pub open spec fn entry_total(e: Seq<(u32, u32)>) -> nat
    decreases e.len(),
{
    if e.len() == 0 {
        0
    } else {
        entry_total(e.drop_last()) + e.last().1 as nat
    }
}

/// The product of the factorials of the counts.
pub open spec fn count_factorials(e: Seq<(u32, u32)>) -> nat
    decreases e.len(),
{
    if e.len() == 0 {
        1
    } else {
        count_factorials(e.drop_last()) * factorial_spec(e.last().1 as nat)
    }
}

/// No item is listed twice and every count is positive.
pub open spec fn valid_entries(e: Seq<(u32, u32)>) -> bool {
    &&& forall|i: int, j: int| 0 <= i < j < e.len() ==> e[i].0 != e[j].0
    &&& forall|i: int| 0 <= i < e.len() ==> e[i].1 > 0
}

/// Some entry lists `k`.
pub open spec fn lists(e: Seq<(u32, u32)>, k: u32) -> bool {
    exists|c: int| 0 <= c < e.len() && e[c].0 == k
}

/// `s` holds each item exactly as often as the entries count it.
pub open spec fn is_arrangement_of(s: Seq<u32>, e: Seq<(u32, u32)>) -> bool {
    forall|x: u32| occurrences(s, x) == entry_count(e, x)
}

pub proof fn lemma_occurrences_push(s: Seq<u32>, x: u32, y: u32)
    ensures
        occurrences(s.push(x), y) == occurrences(s, y) + if x == y {
            1nat
        } else {
            0nat
        },
{
    assert(s.push(x).drop_last() =~= s);
}

pub proof fn lemma_occurrences_last(s: Seq<u32>)
    requires
        s.len() > 0,
    ensures
        occurrences(s, s.last()) >= 1,
{
}

/// With distinct items, the count of a listed item is its entry's count, and an
/// unlisted item counts zero.
pub proof fn lemma_entry_count_at(e: Seq<(u32, u32)>, x: u32)
    requires
        forall|i: int, j: int| 0 <= i < j < e.len() ==> e[i].0 != e[j].0,
    ensures
        forall|j: int| 0 <= j < e.len() && e[j].0 == x ==> entry_count(e, x) == e[j].1,
        (forall|j: int| 0 <= j < e.len() ==> e[j].0 != x) ==> entry_count(e, x) == 0,
    decreases e.len(),
{
    if e.len() > 0 {
        lemma_entry_count_at(e.drop_last(), x);
        assert forall|j: int| 0 <= j < e.len() && e[j].0 == x implies entry_count(e, x) == e[j].1 by {
            if j < e.len() - 1 {
                assert(e.drop_last()[j] == e[j]);
                assert(e.last().0 != x);
            } else {
                assert forall|k: int| 0 <= k < e.drop_last().len() implies e.drop_last()[k].0 != x by {
                    assert(e.drop_last()[k] == e[k]);
                }
            }
        }
        if forall|j: int| 0 <= j < e.len() ==> e[j].0 != x {
            assert forall|k: int| 0 <= k < e.drop_last().len() implies e.drop_last()[k].0 != x by {
                assert(e.drop_last()[k] == e[k]);
            }
        }
    }
}

pub proof fn lemma_entry_count_positive(e: Seq<(u32, u32)>, x: u32)
    requires
        entry_count(e, x) > 0,
    ensures
        exists|j: int| 0 <= j < e.len() && e[j].0 == x,
    decreases e.len(),
{
    if e.last().0 != x {
        lemma_entry_count_positive(e.drop_last(), x);
        let j = choose|j: int| 0 <= j < e.drop_last().len() && e.drop_last()[j].0 == x;
        assert(e[j] == e.drop_last()[j]);
    } else {
        assert(e[e.len() - 1].0 == x);
    }
}

pub proof fn lemma_entry_total_zero(e: Seq<(u32, u32)>)
    requires
        forall|i: int| 0 <= i < e.len() ==> e[i].1 > 0,
    ensures
        (entry_total(e) == 0) == (e.len() == 0),
    decreases e.len(),
{
    if e.len() > 0 {
        assert(e.last().1 > 0);
    }
}

pub proof fn lemma_entries_take(e: Seq<(u32, u32)>, i: int)
    requires
        0 <= i < e.len(),
    ensures
        e.take(i + 1).drop_last() =~= e.take(i),
        e.take(i + 1).last() == e[i],
{
}

/// The entries with one fewer of the item at `j`; an entry whose count drops to
/// zero leaves the list.
pub fn without_one(e: &Vec<(u32, u32)>, j: usize) -> (r: Vec<(u32, u32)>)
    requires
        valid_entries(e@),
        j < e.len(),
    ensures
        valid_entries(r@),
        forall|y: u32|
            #[trigger] entry_count(r@, y) == entry_count(e@, y) - if y == e@[j as int].0 {
                1int
            } else {
                0int
            },
        entry_total(r@) == entry_total(e@) - 1,
        forall|a: int| 0 <= a < r@.len() ==> lists(e@, #[trigger] r@[a].0),
        count_factorials(r@) * e@[j as int].1 == count_factorials(e@),
{
    let ghost key = e@[j as int].0;
    let ghost cj = e@[j as int].1;
    let mut r: Vec<(u32, u32)> = Vec::new();
    let mut i: usize = 0;
    while i < e.len()
        invariant
            valid_entries(e@),
            j < e.len(),
            i <= e.len(),
            key == e@[j as int].0,
            forall|a: int, b: int| 0 <= a < b < r@.len() ==> r@[a].0 != r@[b].0,
            forall|a: int| 0 <= a < r@.len() ==> r@[a].1 > 0,
            forall|a: int| 0 <= a < r@.len() ==> lists(e@.take(i as int), #[trigger] r@[a].0),
            forall|y: u32|
                #[trigger] entry_count(r@, y) + if i > j && y == key {
                    1int
                } else {
                    0int
                } == entry_count(e@.take(i as int), y),
            entry_total(r@) + if i > j {
                1int
            } else {
                0int
            } == entry_total(e@.take(i as int)),
            cj == e@[j as int].1,
            count_factorials(r@) * (if i > j {
                cj as int
            } else {
                1int
            }) == count_factorials(e@.take(i as int)),
        decreases e.len() - i,
    {
        let (k, c) = e[i];
        let ghost p_before = count_factorials(r@);
        let ghost before = r@;
        proof {
            lemma_entries_take(e@, i as int);
        }
        if i == j {
            if c > 1 {
                r.push((k, c - 1));
            }
        } else {
            r.push((k, c));
        }
        proof {
            if r@.len() > before.len() {
                assert(r@.drop_last() =~= before);
                assert forall|a: int| 0 <= a < before.len() implies before[a].0 != k by {
                    assert(lists(e@.take(i as int), before[a].0));
                    let cc = choose|cc: int| 0 <= cc < i && e@.take(i as int)[cc].0 == before[a].0;
                    assert(e@[cc].0 != e@[i as int].0);
                }
                assert forall|a: int| 0 <= a < r@.len() implies lists(e@.take(i + 1), #[trigger] r@[a].0) by {
                    if a < before.len() {
                        assert(r@[a] == before[a]);
                        assert(lists(e@.take(i as int), before[a].0));
                        let cc = choose|cc: int| 0 <= cc < i && e@.take(i as int)[cc].0 == before[a].0;
                        assert(e@.take(i + 1)[cc] == e@[cc]);
                    } else {
                        assert(e@.take(i + 1)[i as int].0 == r@[a].0);
                    }
                }
            } else {
                assert(r@ =~= before);
                assert forall|a: int| 0 <= a < r@.len() implies lists(e@.take(i + 1), #[trigger] r@[a].0) by {
                    assert(lists(e@.take(i as int), before[a].0));
                    let cc = choose|cc: int| 0 <= cc < i && e@.take(i as int)[cc].0 == before[a].0;
                    assert(e@.take(i + 1)[cc] == e@[cc]);
                }
            }
            let pr = count_factorials(e@.take(i as int));
            assert(count_factorials(e@.take(i + 1)) == pr * factorial_spec(c as nat));
            if i == j {
                if c > 1 {
                    assert(count_factorials(r@) == p_before * factorial_spec((c - 1) as nat));
                    assert(factorial_spec(c as nat) == c * factorial_spec((c - 1) as nat));
                    assert(count_factorials(r@) * c == pr * factorial_spec(c as nat)) by (nonlinear_arith)
                        requires
                            count_factorials(r@) == p_before * factorial_spec((c - 1) as nat),
                            factorial_spec(c as nat) == c * factorial_spec((c - 1) as nat),
                            p_before * 1 == pr;
                } else {
                    assert(c == 1);
                    assert(r@ =~= before);
                    assert(count_factorials(r@) == p_before);
                    assert(factorial_spec(0) == 1);
                    assert(factorial_spec(1) == 1 * factorial_spec(0));
                    assert(p_before * 1 == pr);
                    assert((c as nat) == 1nat);
                    assert(factorial_spec(c as nat) == c * factorial_spec((c - 1) as nat));
                    assert(((c - 1) as nat) == 0nat);
                    assert(factorial_spec((c - 1) as nat) == 1);
                    assert(factorial_spec(c as nat) == 1) by (nonlinear_arith)
                        requires
                            factorial_spec(c as nat) == c * factorial_spec((c - 1) as nat),
                            factorial_spec((c - 1) as nat) == 1,
                            c == 1;
                    assert(count_factorials(r@) * c == pr * factorial_spec(c as nat)) by (nonlinear_arith)
                        requires
                            c == 1,
                            count_factorials(r@) == p_before,
                            factorial_spec(c as nat) == 1,
                            p_before * 1 == pr;
                }
            } else if i > j {
                assert(count_factorials(r@) == p_before * factorial_spec(c as nat));
                assert(count_factorials(r@) * cj == pr * factorial_spec(c as nat)) by (nonlinear_arith)
                    requires
                        count_factorials(r@) == p_before * factorial_spec(c as nat),
                        p_before * cj == pr;
            } else {
                assert(count_factorials(r@) == p_before * factorial_spec(c as nat));
            }
            assert forall|y: u32|
                #[trigger] entry_count(r@, y) + if i + 1 > j && y == key {
                    1int
                } else {
                    0int
                } == entry_count(e@.take(i + 1), y) by {
                assert(entry_count(before, y) + if i > j && y == key {
                    1int
                } else {
                    0int
                } == entry_count(e@.take(i as int), y));
            }
        }
        i = i + 1;
    }
    proof {
        assert(e@.take(e.len() as int) =~= e@);
    }
    r
}

/// The count factorials of entries are positive.
pub proof fn lemma_count_factorials_positive(e: Seq<(u32, u32)>)
    ensures
        count_factorials(e) >= 1,
    decreases e.len(),
{
    if e.len() > 0 {
        lemma_count_factorials_positive(e.drop_last());
        lemma_factorial_monotone(0, e.last().1 as nat);
        let a = count_factorials(e.drop_last());
        let b = factorial_spec(e.last().1 as nat);
        assert(a * b >= 1) by (nonlinear_arith)
            requires a >= 1, b >= 1;
    }
}

/// Every arrangement of the entries' items, each exactly once.
pub fn arrangements(e: &Vec<(u32, u32)>) -> (r: Vec<Vec<u32>>)
    requires
        valid_entries(e@),
    ensures
        forall|s: Seq<u32>|
            is_arrangement_of(s, e@) <==> exists|i: int| 0 <= i < r@.len() && #[trigger] r@[i]@ == s,
        forall|i: int, j: int| 0 <= i < j < r@.len() ==> r@[i]@ != r@[j]@,
        r@.len() * count_factorials(e@) == factorial_spec(entry_total(e@)),
    decreases entry_total(e@),
{
    proof {
        lemma_entry_total_zero(e@);
    }
    if e.len() == 0 {
        let r: Vec<Vec<u32>> = vec![Vec::new()];
        proof {
            assert forall|s: Seq<u32>| is_arrangement_of(s, e@) implies exists|i: int|
                0 <= i < r@.len() && #[trigger] r@[i]@ == s by {
                if s.len() > 0 {
                    lemma_occurrences_last(s);
                    assert(occurrences(s, s.last()) == entry_count(e@, s.last()));
                }
                assert(s =~= r@[0]@);
            }
            assert forall|s: Seq<u32>| (exists|i: int| 0 <= i < r@.len() && #[trigger] r@[i]@ == s)
                implies is_arrangement_of(s, e@) by {
                assert(s =~= Seq::<u32>::empty());
            }
            assert(count_factorials(e@) == 1);
            assert(factorial_spec(0) == 1);
        }
        return r;
    }
    let mut result: Vec<Vec<u32>> = Vec::new();
    let mut j: usize = 0;
    let ghost n = entry_total(e@);
    proof {
        assert(e@.take(0) =~= Seq::<(u32, u32)>::empty());
        assert(n >= 1);
    }
    while j < e.len()
        invariant
            valid_entries(e@),
            e@.len() > 0,
            j <= e.len(),
            n == entry_total(e@),
            n >= 1,
            result@.len() * count_factorials(e@) == factorial_spec((n - 1) as nat) * entry_total(e@.take(j as int)),
            forall|s: Seq<u32>|
                (s.len() > 0 && is_arrangement_of(s, e@) && exists|k: int| 0 <= k < j && e@[k].0 == s.last())
                    <==> exists|i: int| 0 <= i < result@.len() && #[trigger] result@[i]@ == s,
            forall|a: int, b: int| 0 <= a < b < result@.len() ==> result@[a]@ != result@[b]@,
            forall|a: int| 0 <= a < result@.len() ==> result@[a]@.len() > 0 && exists|k: int|
                0 <= k < j && e@[k].0 == (#[trigger] result@[a]@).last(),
        decreases e.len() - j,
    {
        let rest = without_one(e, j);
        let key = e[j].0;
        let sub = arrangements(&rest);
        let ghost before = result@;
        proof {
            lemma_entries_take(e@, j as int);
            let c = e@[j as int].1 as int;
            let pe = count_factorials(e@);
            let pr = count_factorials(rest@);
            let f = factorial_spec((n - 1) as nat) as int;
            let tj = entry_total(e@.take(j as int)) as int;
            assert(entry_total(e@.take(j + 1)) == tj + c);
            assert(sub@.len() * pr == f);
            assert(pr * c == pe);
            assert((before.len() + sub@.len()) * pe == f * (tj + c)) by (nonlinear_arith)
                requires
                    sub@.len() * pr == f,
                    pr * c == pe,
                    before.len() * pe == f * tj;
        }
        let mut t: usize = 0;
        while t < sub.len()
            invariant
                valid_entries(e@),
                j < e.len(),
                key == e@[j as int].0,
                t <= sub.len(),
                result@.len() == before.len() + t,
                forall|a: int| 0 <= a < before.len() ==> result@[a] == before[a],
                forall|a: int| 0 <= a < t ==> (#[trigger] result@[before.len() + a])@ == sub@[a]@.push(key),
                forall|a: int, b: int| 0 <= a < b < before.len() ==> before[a]@ != before[b]@,
                forall|a: int| 0 <= a < before.len() ==> before[a]@.len() > 0 && exists|k: int|
                    0 <= k < j && e@[k].0 == (#[trigger] before[a]@).last(),
                forall|a: int, b: int| 0 <= a < b < sub@.len() ==> sub@[a]@ != sub@[b]@,
            decreases sub.len() - t,
        {
            let mut p = sub[t].clone();
            proof {
                assert(p@ =~= sub@[t as int]@);
            }
            p.push(key);
            result.push(p);
            t = t + 1;
        }
        proof {
            let n = before.len();
            assert forall|a: int| 0 <= a < result@.len() implies result@[a]@.len() > 0 && exists|k: int|
                0 <= k < j + 1 && e@[k].0 == (#[trigger] result@[a]@).last() by {
                if a < n {
                    assert(result@[a] == before[a]);
                    let k = choose|k: int| 0 <= k < j && e@[k].0 == before[a]@.last();
                    assert(0 <= k < j + 1 && e@[k].0 == result@[a]@.last());
                } else {
                    assert(result@[n + (a - n)]@ == sub@[a - n]@.push(key));
                    assert(e@[j as int].0 == result@[a]@.last());
                }
            }
            assert forall|a: int, b: int| 0 <= a < b < result@.len() implies result@[a]@ != result@[b]@ by {
                if b < n {
                    assert(result@[a] == before[a]);
                    assert(result@[b] == before[b]);
                } else if a < n {
                    assert(result@[a] == before[a]);
                    let k = choose|k: int| 0 <= k < j && e@[k].0 == before[a]@.last();
                    assert(result@[n + (b - n)]@ == sub@[b - n]@.push(key));
                    assert(result@[b]@.last() == key);
                    assert(e@[k].0 != e@[j as int].0);
                } else {
                    assert(result@[n + (a - n)]@ == sub@[a - n]@.push(key));
                    assert(result@[n + (b - n)]@ == sub@[b - n]@.push(key));
                    if result@[a]@ == result@[b]@ {
                        assert(sub@[a - n]@ =~= result@[a]@.drop_last());
                        assert(sub@[b - n]@ =~= result@[b]@.drop_last());
                    }
                }
            }
            assert forall|s: Seq<u32>|
                (s.len() > 0 && is_arrangement_of(s, e@) && exists|k: int| 0 <= k < j + 1 && e@[k].0 == s.last())
                    <==> exists|i: int| 0 <= i < result@.len() && #[trigger] result@[i]@ == s by {
                if s.len() > 0 && is_arrangement_of(s, e@) && exists|k: int| 0 <= k < j + 1 && e@[k].0 == s.last() {
                    let k = choose|k: int| 0 <= k < j + 1 && e@[k].0 == s.last();
                    if k < j {
                        let i = choose|i: int| 0 <= i < before.len() && #[trigger] before[i]@ == s;
                        assert(result@[i] == before[i]);
                    } else {
                        let q = s.drop_last();
                        assert(s =~= q.push(key));
                        assert forall|y: u32| occurrences(q, y) == entry_count(rest@, y) by {
                            lemma_occurrences_push(q, key, y);
                            assert(entry_count(rest@, y) == entry_count(e@, y) - if y == key { 1int } else { 0int });
                        }
                        assert(is_arrangement_of(q, rest@));
                        assert(exists|u: int| 0 <= u < sub@.len() && #[trigger] sub@[u]@ == q);
                        let u = choose|u: int| 0 <= u < sub@.len() && #[trigger] sub@[u]@ == q;
                        assert(result@[n + u]@ == sub@[u]@.push(key));
                    }
                }
                if exists|i: int| 0 <= i < result@.len() && #[trigger] result@[i]@ == s {
                    let i = choose|i: int| 0 <= i < result@.len() && #[trigger] result@[i]@ == s;
                    if i < n {
                        assert(result@[i] == before[i]);
                        assert(exists|ii: int| 0 <= ii < before.len() && #[trigger] before[ii]@ == s);
                    } else {
                        let u = i - n;
                        assert(result@[n + u]@ == sub@[u]@.push(key));
                        let q = sub@[u]@;
                        assert(is_arrangement_of(q, rest@));
                        assert forall|y: u32| occurrences(s, y) == entry_count(e@, y) by {
                            lemma_occurrences_push(q, key, y);
                            assert(entry_count(rest@, y) == entry_count(e@, y) - if y == key { 1int } else { 0int });
                        }
                        assert(s.last() == e@[j as int].0);
                    }
                }
            }
        }
        j = j + 1;
    }
    proof {
        assert(e@.take(e@.len() as int) =~= e@);
        assert(factorial_spec(n) == n * factorial_spec((n - 1) as nat));
        assert(result@.len() * count_factorials(e@) == factorial_spec(n)) by (nonlinear_arith)
            requires
                result@.len() * count_factorials(e@) == factorial_spec((n - 1) as nat) * n,
                factorial_spec(n) == n * factorial_spec((n - 1) as nat);
        assert forall|s: Seq<u32>| is_arrangement_of(s, e@) implies exists|i: int|
            0 <= i < result@.len() && #[trigger] result@[i]@ == s by {
            lemma_entry_count_at(e@, e@[0].0);
            assert(entry_count(e@, e@[0].0) > 0);
            assert(occurrences(s, e@[0].0) > 0);
            if s.len() == 0 {
                assert(occurrences(s, e@[0].0) == 0);
            }
            lemma_occurrences_last(s);
            lemma_entry_count_positive(e@, s.last());
        }
    }
    result
}

} // verus!
