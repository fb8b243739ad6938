use vstd::prelude::*;

use crate::util::factorial_spec;

verus! {

/// `t` orders the numbers of `s`: as many, each once, the same numbers. For a
/// list with no number twice, these are its permutations.
pub open spec fn is_ordering_of(t: Seq<u32>, s: Seq<u32>) -> bool {
    t.len() == s.len() && t.no_duplicates() && t.to_set() == s.to_set()
}

/// `t` lists each number of `s` once, however often `s` lists it.
pub open spec fn orders_values(t: Seq<u32>, s: Seq<u32>) -> bool {
    t.no_duplicates() && t.to_set() == s.to_set()
}

/// `s` without any copy of `x`.
pub open spec fn without_all(s: Seq<u32>, x: u32) -> Seq<u32>
    decreases s.len(),
{
    if s.len() == 0 {
        s
    } else if s.last() == x {
        without_all(s.drop_last(), x)
    } else {
        without_all(s.drop_last(), x).push(s.last())
    }
}

proof fn lemma_without_all(s: Seq<u32>, x: u32)
    ensures
        without_all(s, x).len() <= s.len(),
        s.contains(x) ==> without_all(s, x).len() < s.len(),
        forall|y: u32| without_all(s, x).contains(y) <==> s.contains(y) && y != x,
        s.no_duplicates() ==> without_all(s, x).no_duplicates(),
    decreases s.len(),
{
    if s.len() > 0 {
        let p = s.drop_last();
        lemma_without_all(p, x);
        assert(without_all(s, x) == if s.last() == x {
            without_all(p, x)
        } else {
            without_all(p, x).push(s.last())
        });
        assert forall|y: u32| without_all(s, x).contains(y) <==> s.contains(y) && y != x by {
            if s.contains(y) && y != x {
                let k = choose|k: int| 0 <= k < s.len() && s[k] == y;
                if k < s.len() - 1 {
                    assert(p[k] == y);
                    assert(p.contains(y));
                    assert(without_all(p, x).contains(y));
                    let j = choose|j: int| 0 <= j < without_all(p, x).len() && without_all(p, x)[j] == y;
                    assert(without_all(s, x)[j] == y);
                } else {
                    let w = without_all(s, x);
                    assert(w[w.len() - 1] == y);
                }
            }
            if without_all(s, x).contains(y) {
                let k = choose|k: int| 0 <= k < without_all(s, x).len() && without_all(s, x)[k] == y;
                if s.last() == x || k < without_all(p, x).len() {
                    assert(without_all(p, x)[k] == y);
                    assert(without_all(p, x).contains(y));
                    assert(p.contains(y));
                    let m = choose|m: int| 0 <= m < p.len() && p[m] == y;
                    assert(s[m] == y);
                } else {
                    assert(y == s.last());
                    assert(s[s.len() - 1] == y);
                }
            }
        }
        if s.contains(x) && s.last() != x {
            let k = choose|k: int| 0 <= k < s.len() && s[k] == x;
            assert(p[k] == x);
        }
        if s.no_duplicates() {
            assert(p.no_duplicates()) by {
                assert forall|a: int, b: int| 0 <= a < b < p.len() implies p[a] != p[b] by {
                    assert(s[a] != s[b]);
                }
            }
            if s.last() != x {
                assert(!p.contains(s.last())) by {
                    if p.contains(s.last()) {
                        let k = choose|k: int| 0 <= k < p.len() && p[k] == s.last();
                        assert(s[k] == s[s.len() - 1]);
                    }
                }
                let w = without_all(p, x);
                assert forall|a: int, b: int| 0 <= a < b < w.push(s.last()).len() implies w.push(s.last())[a] != w.push(s.last())[b] by {
                    if b == w.len() {
                        assert(w.contains(w[a]));
                    }
                }
            }
        }
    }
}

/// The numbers of `s` other than `x`, in order.
fn without_value(s: &Vec<u32>, x: u32) -> (r: Vec<u32>)
    ensures
        r@ == without_all(s@, x),
{
    let mut r: Vec<u32> = Vec::new();
    let mut i: usize = 0;
    while i < s.len()
        invariant
            i <= s@.len(),
            r@ == without_all(s@.take(i as int), x),
        decreases s@.len() - i,
    {
        proof {
            assert(s@.take(i + 1).drop_last() =~= s@.take(i as int));
        }
        if s[i] != x {
            r.push(s[i]);
        }
        i = i + 1;
    }
    proof {
        assert(s@.take(s@.len() as int) =~= s@);
    }
    r
}

/// The numbers of `s` but the one at `at`, in order.
fn without_position(s: &Vec<u32>, at: usize) -> (r: Vec<u32>)
    requires
        at < s@.len(),
    ensures
        r@ == s@.remove(at as int),
{
    let mut r: Vec<u32> = Vec::new();
    let mut i: usize = 0;
    while i < s.len()
        invariant
            at < s@.len(),
            i <= s@.len(),
            r@ == if i <= at {
                s@.take(i as int)
            } else {
                s@.take(i as int).remove(at as int)
            },
        decreases s@.len() - i,
    {
        if i != at {
            r.push(s[i]);
        }
        proof {
            if i < at {
                assert(s@.take(i + 1) =~= s@.take(i as int).push(s@[i as int]));
            } else if i == at {
                assert(s@.take(i + 1).remove(at as int) =~= s@.take(i as int));
            } else {
                assert(s@.take(i + 1).remove(at as int) =~= s@.take(i as int).remove(at as int).push(s@[i as int]));
            }
        }
        i = i + 1;
    }
    proof {
        assert(s@.take(s@.len() as int) =~= s@);
    }
    r
}

/// Every ordering of the numbers: each number in turn taken last, after an
/// ordering of the rest. The rest leaves out every copy of that number when
/// `by_value`, and only its position otherwise. An empty list has one
/// ordering, the empty one.
pub fn orderings(s: &Vec<u32>, by_value: bool) -> (r: Vec<Vec<u32>>)
    ensures
        s@.no_duplicates() ==> forall|t: Seq<u32>| is_ordering_of(t, s@) <==> exists|i: int| 0 <= i < r@.len() && #[trigger] r@[i]@ == t,
        s@.no_duplicates() ==> forall|i: int, j: int| 0 <= i < j < r@.len() ==> r@[i]@ != r@[j]@,
        s@.no_duplicates() ==> r@.len() == factorial_spec(s@.len()),
        !by_value ==> r@.len() == factorial_spec(s@.len()),
        !by_value ==> forall|i: int| 0 <= i < r@.len() ==> (#[trigger] r@[i])@.to_multiset() == s@.to_multiset(),
        !by_value ==> forall|t: Seq<u32>| #[trigger] t.to_multiset() == s@.to_multiset() ==> exists|i: int| 0 <= i < r@.len() && #[trigger] r@[i]@ == t,
        by_value ==> forall|i: int| 0 <= i < r@.len() ==> orders_values(#[trigger] r@[i]@, s@),
        by_value ==> forall|t: Seq<u32>| #[trigger] orders_values(t, s@) ==> exists|i: int| 0 <= i < r@.len() && #[trigger] r@[i]@ == t,
    decreases s@.len(),
{
    broadcast use vstd::seq_lib::group_to_multiset_ensures;

    if s.len() == 0 {
        let r: Vec<Vec<u32>> = vec![Vec::new()];
        proof {
            assert(r@[0]@ =~= s@);
            assert(r@[0]@.to_set() =~= s@.to_set());
            assert forall|t: Seq<u32>| #[trigger] orders_values(t, s@) implies exists|i: int| 0 <= i < r@.len() && #[trigger] r@[i]@ == t by {
                if t.len() > 0 {
                    assert(t.to_set().contains(t[0]));
                }
                assert(t =~= r@[0]@);
            }
            assert forall|t: Seq<u32>| #[trigger] t.to_multiset() == s@.to_multiset() implies exists|i: int| 0 <= i < r@.len() && #[trigger] r@[i]@ == t by {
                t.to_multiset_ensures();
                s@.to_multiset_ensures();
                assert(t.to_multiset().len() == s@.to_multiset().len());
                assert(t.len() == 0);
                assert(t =~= r@[0]@);
            }
            assert forall|t: Seq<u32>| is_ordering_of(t, s@) <==> exists|i: int| 0 <= i < r@.len() && #[trigger] r@[i]@ == t by {
                if is_ordering_of(t, s@) {
                    assert(t =~= r@[0]@);
                }
                if exists|i: int| 0 <= i < r@.len() && #[trigger] r@[i]@ == t {
                    assert(t =~= Seq::<u32>::empty());
                    assert(t.to_set() =~= s@.to_set());
                }
            }
        }
        return r;
    }
    let mut result: Vec<Vec<u32>> = Vec::new();
    let mut i: usize = 0;
    while i < s.len()
        invariant
            i <= s@.len(),
            s@.len() > 0,
            s@.no_duplicates() ==> forall|t: Seq<u32>|
                (is_ordering_of(t, s@) && exists|k: int| 0 <= k < i && s@[k] == t.last())
                    <==> exists|a: int| 0 <= a < result@.len() && #[trigger] result@[a]@ == t,
            s@.no_duplicates() ==> forall|a: int, b: int| 0 <= a < b < result@.len() ==> result@[a]@ != result@[b]@,
            s@.no_duplicates() ==> forall|a: int| 0 <= a < result@.len() ==> result@[a]@.len() > 0 && exists|k: int|
                0 <= k < i && s@[k] == (#[trigger] result@[a]@).last(),
            s@.no_duplicates() ==> result@.len() == i * factorial_spec((s@.len() - 1) as nat),
            !by_value ==> result@.len() == i * factorial_spec((s@.len() - 1) as nat),
            !by_value ==> forall|a: int| 0 <= a < result@.len() ==> (#[trigger] result@[a])@.to_multiset() == s@.to_multiset(),
            !by_value ==> forall|t: Seq<u32>|
                #[trigger] t.to_multiset() == s@.to_multiset() && (exists|k: int| 0 <= k < i && s@[k] == t.last())
                    ==> exists|a: int| 0 <= a < result@.len() && #[trigger] result@[a]@ == t,
            by_value ==> forall|a: int| 0 <= a < result@.len() ==> orders_values(#[trigger] result@[a]@, s@),
            by_value ==> forall|t: Seq<u32>|
                #[trigger] orders_values(t, s@) && (exists|k: int| 0 <= k < i && s@[k] == t.last())
                    ==> exists|a: int| 0 <= a < result@.len() && #[trigger] result@[a]@ == t,
        decreases s@.len() - i,
    {
        let x = s[i];
        let rest = if by_value {
            without_value(s, x)
        } else {
            without_position(s, i)
        };
        proof {
            lemma_without_all(s@, x);
            assert(s@.contains(x));
            if s@.no_duplicates() {
                lemma_without_all_distinct(s@, i as int);
            }
        }
        let sub = orderings(&rest, by_value);
        let ghost before = result@;
        proof {
            if !by_value {
                let f = factorial_spec((s@.len() - 1) as nat);
                assert(rest@ == s@.remove(i as int));
                assert(sub@.len() == f);
                assert(before.len() + sub@.len() == (i + 1) * f) by (nonlinear_arith)
                    requires before.len() == i * f, sub@.len() == f;
            }
            if s@.no_duplicates() {
                assert(rest@.len() == s@.len() - 1) by {
                    assert(rest@ == s@.remove(i as int));
                }
                let f = factorial_spec((s@.len() - 1) as nat);
                assert(sub@.len() == f);
                assert(before.len() + sub@.len() == (i + 1) * f) by (nonlinear_arith)
                    requires before.len() == i * f, sub@.len() == f;
            }
        }
        let mut t: usize = 0;
        while t < sub.len()
            invariant
                i < s@.len(),
                x == s@[i as int],
                t <= sub.len(),
                result@.len() == before.len() + t,
                forall|a: int| 0 <= a < before.len() ==> result@[a] == before[a],
                forall|a: int| 0 <= a < t ==> (#[trigger] result@[before.len() + a])@ == sub@[a]@.push(x),
            decreases sub.len() - t,
        {
            let mut p = sub[t].clone();
            proof {
                assert(p@ =~= sub@[t as int]@);
            }
            p.push(x);
            result.push(p);
            t = t + 1;
        }
        proof {
            if by_value {
                let n = before.len();
                assert(rest@ == without_all(s@, x));
                lemma_without_all(s@, x);
                assert(rest@.to_set() =~= s@.to_set().remove(x)) by {
                    assert forall|y: u32| rest@.to_set().contains(y) <==> s@.to_set().remove(x).contains(y) by {
                        assert(rest@.contains(y) <==> s@.contains(y) && y != x);
                    }
                }
                assert(s@.contains(x)) by {
                    assert(s@[i as int] == x);
                }
                assert forall|a: int| 0 <= a < result@.len() implies orders_values(#[trigger] result@[a]@, s@) by {
                    if a < n {
                        assert(result@[a] == before[a]);
                    } else {
                        let q = sub@[a - n]@;
                        assert(result@[n + (a - n)]@ == q.push(x));
                        assert(orders_values(q, rest@));
                        assert(!q.contains(x)) by {
                            if q.contains(x) {
                                assert(q.to_set().contains(x));
                            }
                        }
                        assert forall|c: int, d: int| 0 <= c < d < q.push(x).len() implies q.push(x)[c] != q.push(x)[d] by {
                            if d == q.len() {
                                assert(q.contains(q[c]));
                            }
                        }
                        assert forall|y: u32| q.push(x).to_set().contains(y) <==> s@.to_set().contains(y) by {
                            assert(q.push(x).to_set().contains(y) <==> q.push(x).contains(y));
                            assert(q.to_set().contains(y) <==> q.contains(y));
                            if q.push(x).contains(y) {
                                let c = choose|c: int| 0 <= c < q.push(x).len() && q.push(x)[c] == y;
                                if c < q.len() {
                                    assert(q.contains(y));
                                } else {
                                    assert(y == x);
                                }
                            }
                            if q.contains(y) {
                                let c = choose|c: int| 0 <= c < q.len() && q[c] == y;
                                assert(q.push(x)[c] == y);
                            }
                            if y == x {
                                assert(q.push(x)[q.len() as int] == x);
                            }
                        }
                        assert(q.push(x).to_set() =~= s@.to_set());
                    }
                }
                assert forall|u: Seq<u32>|
                    #[trigger] orders_values(u, s@) && (exists|k: int| 0 <= k < i + 1 && s@[k] == u.last())
                        implies exists|a: int| 0 <= a < result@.len() && #[trigger] result@[a]@ == u by {
                    let k = choose|k: int| 0 <= k < i + 1 && s@[k] == u.last();
                    if exists|k2: int| 0 <= k2 < i && s@[k2] == u.last() {
                        let a = choose|a: int| 0 <= a < before.len() && #[trigger] before[a]@ == u;
                        assert(result@[a] == before[a]);
                    } else {
                        assert(k == i);
                        assert(u.last() == x);
                        let q = u.drop_last();
                        assert(u.len() > 0) by {
                            assert(s@.to_set().contains(x));
                            assert(u.to_set().contains(x));
                        }
                        assert(u =~= q.push(x));
                        assert(q.no_duplicates()) by {
                            assert forall|c: int, d: int| 0 <= c < d < q.len() implies q[c] != q[d] by {
                                assert(u[c] != u[d]);
                            }
                        }
                        assert forall|y: u32| q.to_set().contains(y) <==> rest@.to_set().contains(y) by {
                            assert(q.to_set().contains(y) <==> q.contains(y));
                            assert(u.to_set().contains(y) <==> u.contains(y));
                            if q.contains(y) {
                                let c = choose|c: int| 0 <= c < q.len() && q[c] == y;
                                assert(u[c] == y);
                                assert(u[c] != u[u.len() - 1]);
                            }
                            if rest@.to_set().contains(y) {
                                assert(s@.to_set().contains(y) && y != x);
                                assert(u.contains(y));
                                let c = choose|c: int| 0 <= c < u.len() && u[c] == y;
                                assert(c != u.len() - 1);
                                assert(q[c] == y);
                            }
                        }
                        assert(q.to_set() =~= rest@.to_set());
                        assert(orders_values(q, rest@));
                        let v = choose|v: int| 0 <= v < sub@.len() && #[trigger] sub@[v]@ == q;
                        assert(result@[n + v]@ == sub@[v]@.push(x));
                    }
                }
            }
            if !by_value {
                let n = before.len();
                assert(rest@ == s@.remove(i as int));
                s@.to_multiset_ensures();
                assert(s@.remove(i as int).to_multiset() == s@.to_multiset().remove(x));
                assert forall|a: int| 0 <= a < result@.len() implies (#[trigger] result@[a])@.to_multiset() == s@.to_multiset() by {
                    if a < n {
                        assert(result@[a] == before[a]);
                    } else {
                        assert(result@[n + (a - n)]@ == sub@[a - n]@.push(x));
                        assert(sub@[a - n]@.to_multiset() == rest@.to_multiset());
                        sub@[a - n]@.to_multiset_ensures();
                        assert(sub@[a - n]@.push(x).to_multiset() == rest@.to_multiset().insert(x));
                        assert(s@.to_multiset().count(x) > 0);
                        assert(rest@.to_multiset().insert(x) =~= s@.to_multiset());
                    }
                }
                assert forall|u: Seq<u32>|
                    #[trigger] u.to_multiset() == s@.to_multiset() && (exists|k: int| 0 <= k < i + 1 && s@[k] == u.last())
                        implies exists|a: int| 0 <= a < result@.len() && #[trigger] result@[a]@ == u by {
                    let k = choose|k: int| 0 <= k < i + 1 && s@[k] == u.last();
                    if k < i {
                        let a = choose|a: int| 0 <= a < before.len() && #[trigger] before[a]@ == u;
                        assert(result@[a] == before[a]);
                    } else {
                        let q = u.drop_last();
                        u.to_multiset_ensures();
                        assert(u.to_multiset().len() == s@.to_multiset().len());
                        assert(u.len() == s@.len());
                        assert(u =~= q.push(x));
                        assert(u.remove(u.len() - 1) =~= q);
                        assert(q.to_multiset() == u.to_multiset().remove(u[u.len() - 1]));
                        assert(q.to_multiset() == rest@.to_multiset());
                        let v = choose|v: int| 0 <= v < sub@.len() && #[trigger] sub@[v]@ == q;
                        assert(result@[n + v]@ == sub@[v]@.push(x));
                    }
                }
            }
            if s@.no_duplicates() {
                let n = before.len();
                let r0 = s@.remove(i as int);
                assert(rest@ == r0);
                assert forall|a: int| 0 <= a < result@.len() implies result@[a]@.len() > 0 && exists|k: int|
                    0 <= k < i + 1 && s@[k] == (#[trigger] result@[a]@).last() by {
                    if a < n {
                        assert(result@[a] == before[a]);
                        let k = choose|k: int| 0 <= k < i && s@[k] == before[a]@.last();
                        assert(0 <= k < i + 1 && s@[k] == result@[a]@.last());
                    } else {
                        assert(result@[n + (a - n)]@ == sub@[a - n]@.push(x));
                    }
                }
                assert forall|a: int, b: int| 0 <= a < b < result@.len() implies result@[a]@ != result@[b]@ by {
                    if b < n {
                        assert(result@[a] == before[a]);
                        assert(result@[b] == before[b]);
                    } else if a < n {
                        assert(result@[a] == before[a]);
                        let k = choose|k: int| 0 <= k < i && s@[k] == before[a]@.last();
                        assert(result@[n + (b - n)]@ == sub@[b - n]@.push(x));
                        assert(s@[k] != s@[i as int]);
                    } else {
                        assert(result@[n + (a - n)]@ == sub@[a - n]@.push(x));
                        assert(result@[n + (b - n)]@ == sub@[b - n]@.push(x));
                        if result@[a]@ == result@[b]@ {
                            assert(sub@[a - n]@ =~= result@[a]@.drop_last());
                            assert(sub@[b - n]@ =~= result@[b]@.drop_last());
                        }
                    }
                }
                assert forall|u: Seq<u32>|
                    (is_ordering_of(u, s@) && exists|k: int| 0 <= k < i + 1 && s@[k] == u.last())
                        <==> exists|a: int| 0 <= a < result@.len() && #[trigger] result@[a]@ == u by {
                    if is_ordering_of(u, s@) && exists|k: int| 0 <= k < i + 1 && s@[k] == u.last() {
                        let k = choose|k: int| 0 <= k < i + 1 && s@[k] == u.last();
                        if k < i {
                            let a = choose|a: int| 0 <= a < before.len() && #[trigger] before[a]@ == u;
                            assert(result@[a] == before[a]);
                        } else {
                            let q = u.drop_last();
                            assert(u =~= q.push(x));
                            lemma_ordering_split(u, s@, i as int);
                            assert(is_ordering_of(q, rest@));
                            assert(exists|v: int| 0 <= v < sub@.len() && #[trigger] sub@[v]@ == q);
                            let v = choose|v: int| 0 <= v < sub@.len() && #[trigger] sub@[v]@ == q;
                            assert(result@[n + v]@ == sub@[v]@.push(x));
                        }
                    }
                    if exists|a: int| 0 <= a < result@.len() && #[trigger] result@[a]@ == u {
                        let a = choose|a: int| 0 <= a < result@.len() && #[trigger] result@[a]@ == u;
                        if a < n {
                            assert(result@[a] == before[a]);
                            assert(exists|aa: int| 0 <= aa < before.len() && #[trigger] before[aa]@ == u);
                        } else {
                            let v = a - n;
                            assert(result@[n + v]@ == sub@[v]@.push(x));
                            let q = sub@[v]@;
                            assert(is_ordering_of(q, rest@));
                            lemma_ordering_extend(q, s@, i as int);
                            assert(u.last() == s@[i as int]);
                        }
                    }
                }
            }
        }
        i = i + 1;
    }
    proof {
        if by_value {
            assert forall|u: Seq<u32>| #[trigger] orders_values(u, s@) implies exists|a: int|
                0 <= a < result@.len() && #[trigger] result@[a]@ == u by {
                assert(s@.to_set().contains(s@[0]));
                assert(u.to_set().contains(s@[0]));
                assert(u.len() > 0);
                assert(u.contains(u[u.len() - 1]));
                assert(u.to_set().contains(u.last()));
                assert(s@.contains(u.last()));
                let k = choose|k: int| 0 <= k < s@.len() && s@[k] == u.last();
            }
        }
        if !by_value {
            let n = s@.len();
            assert(factorial_spec(n) == n * factorial_spec((n - 1) as nat));
            assert(result@.len() == factorial_spec(n)) by (nonlinear_arith)
                requires
                    result@.len() == n * factorial_spec((n - 1) as nat),
                    factorial_spec(n) == n * factorial_spec((n - 1) as nat);
            assert forall|u: Seq<u32>| #[trigger] u.to_multiset() == s@.to_multiset() implies exists|a: int|
                0 <= a < result@.len() && #[trigger] result@[a]@ == u by {
                u.to_multiset_ensures();
                s@.to_multiset_ensures();
                assert(u.to_multiset().len() == s@.to_multiset().len());
                assert(u.len() == s@.len());
                assert(u.contains(u[u.len() - 1]));
                assert(s@.to_multiset().count(u.last()) > 0);
                assert(s@.contains(u.last()));
                let k = choose|k: int| 0 <= k < s@.len() && s@[k] == u.last();
            }
        }
        if s@.no_duplicates() {
            let n = s@.len();
            assert(factorial_spec(n) == n * factorial_spec((n - 1) as nat));
            assert(result@.len() == factorial_spec(n)) by (nonlinear_arith)
                requires
                    result@.len() == n * factorial_spec((n - 1) as nat),
                    factorial_spec(n) == n * factorial_spec((n - 1) as nat);
            assert forall|u: Seq<u32>| is_ordering_of(u, s@) implies exists|a: int|
                0 <= a < result@.len() && #[trigger] result@[a]@ == u by {
                assert(u.len() > 0);
                assert(u.to_set().contains(u.last()));
                assert(s@.to_set().contains(u.last()));
                let k = choose|k: int| 0 <= k < s@.len() && s@[k] == u.last();
            }
        }
    }
    result
}

/// Without every copy of `s[i]`, a list with no number twice loses just that
/// position.
proof fn lemma_without_all_distinct(s: Seq<u32>, i: int)
    requires
        s.no_duplicates(),
        0 <= i < s.len(),
    ensures
        without_all(s, s[i]) == s.remove(i),
    decreases s.len(),
{
    let p = s.drop_last();
    if i == s.len() - 1 {
        assert(!p.contains(s[i])) by {
            if p.contains(s[i]) {
                let k = choose|k: int| 0 <= k < p.len() && p[k] == s[i];
                assert(s[k] == s[i]);
            }
        }
        lemma_without_all_absent(p, s[i]);
        assert(s.remove(i) =~= p);
    } else {
        assert(p.no_duplicates()) by {
            assert forall|a: int, b: int| 0 <= a < b < p.len() implies p[a] != p[b] by {
                assert(s[a] != s[b]);
            }
        }
        assert(p[i] == s[i]);
        lemma_without_all_distinct(p, i);
        assert(s.last() != s[i]);
        assert(s.remove(i) =~= p.remove(i).push(s.last()));
    }
}

proof fn lemma_without_all_absent(s: Seq<u32>, x: u32)
    requires
        !s.contains(x),
    ensures
        without_all(s, x) == s,
    decreases s.len(),
{
    if s.len() > 0 {
        assert(!s.drop_last().contains(x)) by {
            if s.drop_last().contains(x) {
                let k = choose|k: int| 0 <= k < s.drop_last().len() && s.drop_last()[k] == x;
                assert(s[k] == x);
            }
        }
        lemma_without_all_absent(s.drop_last(), x);
        assert(s.drop_last().push(s.last()) =~= s);
    }
}

/// An ordering of a list with no number twice, ending in `s[i]`, is an
/// ordering of the rest followed by `s[i]`.
proof fn lemma_ordering_split(u: Seq<u32>, s: Seq<u32>, i: int)
    requires
        s.no_duplicates(),
        0 <= i < s.len(),
        is_ordering_of(u, s),
        u.last() == s[i],
    ensures
        is_ordering_of(u.drop_last(), s.remove(i)),
{
    let q = u.drop_last();
    let x = s[i];
    assert(q.no_duplicates()) by {
        assert forall|a: int, b: int| 0 <= a < b < q.len() implies q[a] != q[b] by {
            assert(u[a] != u[b]);
        }
    }
    assert(!q.contains(x)) by {
        if q.contains(x) {
            let k = choose|k: int| 0 <= k < q.len() && q[k] == x;
            assert(u[k] == u[u.len() - 1]);
        }
    }
    assert forall|y: u32| q.to_set().contains(y) <==> s.remove(i).to_set().contains(y) by {
        assert(q.to_set().contains(y) <==> q.contains(y));
        assert(s.remove(i).to_set().contains(y) <==> s.remove(i).contains(y));
        assert(u.to_set().contains(y) <==> u.contains(y));
        assert(s.to_set().contains(y) <==> s.contains(y));
        if q.contains(y) {
            let k = choose|k: int| 0 <= k < q.len() && q[k] == y;
            assert(u[k] == y);
            assert(u.contains(y));
            assert(s.contains(y));
            let m = choose|m: int| 0 <= m < s.len() && s[m] == y;
            assert(y != x);
            assert(m != i);
            if m < i {
                assert(s.remove(i)[m] == y);
            } else {
                assert(s.remove(i)[m - 1] == y);
            }
        }
        if s.remove(i).contains(y) {
            let m = choose|m: int| 0 <= m < s.remove(i).len() && s.remove(i)[m] == y;
            let mm = if m < i { m } else { m + 1 };
            assert(s[mm] == y);
            assert(mm != i);
            assert(y != x);
            assert(s.contains(y));
            assert(u.contains(y));
            let k = choose|k: int| 0 <= k < u.len() && u[k] == y;
            assert(k != u.len() - 1);
            assert(q[k] == y);
        }
    }
    assert(q.to_set() =~= s.remove(i).to_set());
}

/// An ordering of the rest followed by `s[i]` orders a list with no number
/// twice.
proof fn lemma_ordering_extend(q: Seq<u32>, s: Seq<u32>, i: int)
    requires
        s.no_duplicates(),
        0 <= i < s.len(),
        is_ordering_of(q, s.remove(i)),
    ensures
        is_ordering_of(q.push(s[i]), s),
{
    let x = s[i];
    let u = q.push(x);
    assert(!q.contains(x)) by {
        if q.contains(x) {
            assert(q.to_set().contains(x));
            assert(s.remove(i).to_set().contains(x));
            assert(s.remove(i).contains(x));
            let m = choose|m: int| 0 <= m < s.remove(i).len() && s.remove(i)[m] == x;
            let mm = if m < i { m } else { m + 1 };
            assert(s[mm] == x);
        }
    }
    assert forall|a: int, b: int| 0 <= a < b < u.len() implies u[a] != u[b] by {
        if b == u.len() - 1 {
            assert(q.contains(u[a]));
        } else {
            assert(q[a] != q[b]);
        }
    }
    assert forall|y: u32| u.to_set().contains(y) <==> s.to_set().contains(y) by {
        assert(u.to_set().contains(y) <==> u.contains(y));
        assert(s.to_set().contains(y) <==> s.contains(y));
        assert(q.to_set().contains(y) <==> q.contains(y));
        assert(s.remove(i).to_set().contains(y) <==> s.remove(i).contains(y));
        if u.contains(y) {
            let k = choose|k: int| 0 <= k < u.len() && u[k] == y;
            if k == u.len() - 1 {
                assert(s[i] == y);
            } else {
                assert(q[k] == y);
                assert(s.remove(i).contains(y));
                let m = choose|m: int| 0 <= m < s.remove(i).len() && s.remove(i)[m] == y;
                let mm = if m < i { m } else { m + 1 };
                assert(s[mm] == y);
            }
        }
        if s.contains(y) {
            let m = choose|m: int| 0 <= m < s.len() && s[m] == y;
            if m == i {
                assert(u[u.len() - 1] == y);
            } else {
                if m < i {
                    assert(s.remove(i)[m] == y);
                } else {
                    assert(s.remove(i)[m - 1] == y);
                }
                assert(q.contains(y));
                let k = choose|k: int| 0 <= k < q.len() && q[k] == y;
                assert(u[k] == y);
            }
        }
    }
    assert(u.to_set() =~= s.to_set());
}

/// Every permutation of the numbers, each once when no number is listed
/// twice; none for an empty list. A number listed more than once is taken
/// once: each result lists every distinct number once, and every such order
/// is among the results.
pub fn permutations(items: &Vec<u32>) -> (r: Vec<Vec<u32>>)
    ensures
        items@.len() == 0 ==> r@.len() == 0,
        items@.len() > 0 && items@.no_duplicates() ==> forall|t: Seq<u32>| is_ordering_of(t, items@) <==> exists|i: int|
            0 <= i < r@.len() && #[trigger] r@[i]@ == t,
        items@.no_duplicates() ==> forall|i: int, j: int| 0 <= i < j < r@.len() ==> r@[i]@ != r@[j]@,
        items@.len() > 0 && items@.no_duplicates() ==> r@.len() == factorial_spec(items@.len()),
        forall|i: int| 0 <= i < r@.len() ==> orders_values(#[trigger] r@[i]@, items@),
        items@.len() > 0 ==> forall|t: Seq<u32>| #[trigger] orders_values(t, items@) ==> exists|i: int|
            0 <= i < r@.len() && #[trigger] r@[i]@ == t,
{
    if items.len() == 0 {
        Vec::new()
    } else {
        orderings(items, true)
    }
}

} // verus!
