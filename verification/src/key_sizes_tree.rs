use vstd::prelude::*;

use crate::arrange::occurrences;
use crate::partitions::{is_partition, nonincreasing, solvable, Goal, Partitions};
use crate::tally::Tally;

verus! {

/// The views of a list of number lists.
pub open spec fn lists_view(v: Seq<Vec<u32>>) -> Seq<Seq<u32>> {
    v.map_values(|l: Vec<u32>| l@)
}

/// `s` orders the numbers of `part`: each occurs as often in both.
pub open spec fn reorders(s: Seq<u32>, part: Seq<u32>) -> bool {
    forall|x: u32| #[trigger] occurrences(s, x) == occurrences(part, x)
}

/// The lists that start with `x`, with that first number taken off, in order.
pub open spec fn children_of(lists: Seq<Seq<u32>>, x: u32) -> Seq<Seq<u32>>
    decreases lists.len(),
{
    if lists.len() == 0 {
        Seq::empty()
    } else {
        let rest = children_of(lists.drop_last(), x);
        let l = lists.last();
        if l.len() > 0 && l[0] == x {
            rest.push(l.drop_first())
        } else {
            rest
        }
    }
}

/// Some list starts with `x`.
pub open spec fn starts_some(lists: Seq<Seq<u32>>, x: u32) -> bool {
    exists|i: int| 0 <= i < lists.len() && lists[i].len() > 0 && #[trigger] lists[i][0] == x
}

/// A number occurs in a list as often as the list's multiset counts it.
proof fn lemma_occurrences_count(s: Seq<u32>, x: u32)
    ensures
        occurrences(s, x) == s.to_multiset().count(x),
    decreases s.len(),
{
    broadcast use vstd::seq_lib::group_to_multiset_ensures;

    if s.len() > 0 {
        lemma_occurrences_count(s.drop_last(), x);
        assert(s.drop_last().push(s.last()) =~= s);
        assert(s.to_multiset() =~= s.drop_last().to_multiset().insert(s.last()));
    }
}

/// Two lists, each largest first, with every number occurring as often in
/// both, are the same list.
proof fn lemma_nonincreasing_unique(s: Seq<u32>, t: Seq<u32>)
    requires
        nonincreasing(s),
        nonincreasing(t),
        forall|x: u32| #[trigger] occurrences(s, x) == occurrences(t, x),
    ensures
        s == t,
{
    assert forall|x: u32| s.to_multiset().count(x) == t.to_multiset().count(x) by {
        lemma_occurrences_count(s, x);
        lemma_occurrences_count(t, x);
        assert(occurrences(s, x) == occurrences(t, x));
    }
    assert(s.to_multiset() =~= t.to_multiset());
    let geq = |a: u32, b: u32| a >= b;
    assert(vstd::relations::total_ordering(geq));
    assert(vstd::relations::sorted_by(s, geq));
    assert(vstd::relations::sorted_by(t, geq));
    vstd::seq_lib::lemma_sorted_unique(s, t, geq);
}

/// Every order of key sizes for a number of keys and letters, as lists of
/// sizes. A layout of 1,2,3 differs from 3,2,1.
pub struct KeySizesTree(pub Vec<Vec<u32>>);

impl KeySizesTree {
    /// Every order of every collection of key sizes that `p` allows.
    pub fn new(p: &Partitions) -> (r: KeySizesTree)
        requires
            p.sum == 0 || p.parts == 1 || solvable(*p),
        ensures
            forall|s: Seq<u32>|
                (exists|part: Seq<u32>| is_partition(*p, Goal::Combinations, part) && #[trigger] reorders(s, part))
                    <==> lists_view(r.0@).contains(s),
            lists_view(r.0@).no_duplicates(),
    {
        let parts = p.calculate();
        let mut all: Vec<Vec<u32>> = Vec::new();
        let mut k: usize = 0;
        while k < parts.len()
            invariant
                k <= parts.len(),
                forall|s: Seq<u32>| is_partition(*p, Goal::Combinations, s) <==> exists|i: int|
                    0 <= i < parts@.len() && #[trigger] parts@[i]@ == s,
                forall|s: Seq<u32>|
                    (exists|i: int| 0 <= i < k && #[trigger] reorders(s, parts@[i]@))
                        <==> lists_view(all@).contains(s),
                forall|i: int, j: int| 0 <= i < j < parts@.len() ==> parts@[i]@ != parts@[j]@,
                lists_view(all@).no_duplicates(),
            decreases parts.len() - k,
        {
            proof {
                assert(is_partition(*p, Goal::Combinations, parts@[k as int]@));
                if p.parts == 1 {
                    assert(parts@[k as int]@.len() == 1);
                }
            }
            let tally = Tally::from_items(&parts[k]);
            let orders = tally.combinations();
            let ghost before = all@;
            let mut t: usize = 0;
            while t < orders.len()
                invariant
                    t <= orders.len(),
                    all@.len() == before.len() + t,
                    forall|a: int| 0 <= a < before.len() ==> all@[a] == before[a],
                    forall|a: int| 0 <= a < t ==> (#[trigger] all@[before.len() + a])@ == orders@[a]@,
                decreases orders.len() - t,
            {
                let o = orders[t].clone();
                proof {
                    assert(o@ =~= orders@[t as int]@);
                }
                all.push(o);
                t = t + 1;
            }
            proof {
                let n = before.len();
                let part = parts@[k as int]@;
                assert forall|x: int, y: int| 0 <= x < y < all@.len() implies lists_view(all@)[x] != lists_view(all@)[y] by {
                    if y < n {
                        assert(all@[x] == before[x] && all@[y] == before[y]);
                        assert(lists_view(before)[x] != lists_view(before)[y]);
                    } else if x >= n {
                        assert(all@[n + (x - n)]@ == orders@[x - n]@);
                        assert(all@[n + (y - n)]@ == orders@[y - n]@);
                    } else {
                        assert(all@[x] == before[x]);
                        assert(all@[n + (y - n)]@ == orders@[y - n]@);
                        let e = before[x]@;
                        assert(lists_view(before)[x] == e);
                        assert(lists_view(before).contains(e));
                        let i = choose|i: int| 0 <= i < k && #[trigger] reorders(e, parts@[i]@);
                        if e == orders@[y - n]@ {
                            assert(tally.arranges(e));
                            assert(reorders(e, part));
                            assert(is_partition(*p, Goal::Combinations, parts@[i]@));
                            assert(is_partition(*p, Goal::Combinations, part));
                            assert(nonincreasing(parts@[i]@) && nonincreasing(part)) by {
                                if p.parts == 1 {
                                    assert(parts@[i]@.len() == 1 && part.len() == 1);
                                }
                            }
                            assert forall|z: u32| #[trigger] occurrences(parts@[i]@, z) == occurrences(part, z) by {
                                assert(occurrences(e, z) == occurrences(parts@[i]@, z));
                                assert(occurrences(e, z) == occurrences(part, z));
                            }
                            lemma_nonincreasing_unique(parts@[i]@, part);
                        }
                    }
                }
                assert forall|s: Seq<u32>|
                    (exists|i: int| 0 <= i < k + 1 && #[trigger] reorders(s, parts@[i]@))
                        <==> lists_view(all@).contains(s) by {
                    if exists|i: int| 0 <= i < k + 1 && #[trigger] reorders(s, parts@[i]@) {
                        let i = choose|i: int| 0 <= i < k + 1 && #[trigger] reorders(s, parts@[i]@);
                        if i < k {
                            assert(lists_view(before).contains(s));
                            let a = choose|a: int| 0 <= a < lists_view(before).len() && lists_view(before)[a] == s;
                            assert(all@[a] == before[a]);
                            assert(lists_view(all@)[a] == s);
                        } else {
                            assert(tally.arranges(s));
                            let a = choose|a: int| 0 <= a < orders@.len() && #[trigger] orders@[a]@ == s;
                            assert(all@[n + a]@ == orders@[a]@);
                            assert(lists_view(all@)[n + a] == s);
                        }
                    }
                    if lists_view(all@).contains(s) {
                        let a = choose|a: int| 0 <= a < lists_view(all@).len() && lists_view(all@)[a] == s;
                        if a < n {
                            assert(all@[a] == before[a]);
                            assert(lists_view(before)[a] == s);
                            assert(lists_view(before).contains(s));
                        } else {
                            assert(all@[n + (a - n)]@ == orders@[a - n]@);
                            assert(tally.arranges(orders@[a - n]@));
                            assert(reorders(s, parts@[k as int]@));
                        }
                    }
                }
            }
            k = k + 1;
        }
        proof {
            assert forall|s: Seq<u32>|
                (exists|part: Seq<u32>| is_partition(*p, Goal::Combinations, part) && #[trigger] reorders(s, part))
                    <==> lists_view(all@).contains(s) by {
                if exists|part: Seq<u32>| is_partition(*p, Goal::Combinations, part) && #[trigger] reorders(s, part) {
                    let part = choose|part: Seq<u32>| is_partition(*p, Goal::Combinations, part) && #[trigger] reorders(s, part);
                    let i = choose|i: int| 0 <= i < parts@.len() && #[trigger] parts@[i]@ == part;
                    assert(reorders(s, parts@[i]@));
                }
                if lists_view(all@).contains(s) {
                    let i = choose|i: int| 0 <= i < parts@.len() && #[trigger] reorders(s, parts@[i]@);
                    assert(is_partition(*p, Goal::Combinations, parts@[i]@));
                }
            }
        }
        KeySizesTree(all)
    }

    /// A copy with the same lists.
    pub fn duplicate(&self) -> (r: KeySizesTree)
        ensures
            lists_view(r.0@) == lists_view(self.0@),
    {
        let mut lists: Vec<Vec<u32>> = Vec::new();
        let mut i: usize = 0;
        while i < self.0.len()
            invariant
                i <= self.0@.len(),
                lists_view(lists@) == lists_view(self.0@).take(i as int),
            decreases self.0@.len() - i,
        {
            let l = self.0[i].clone();
            proof {
                assert(l@ =~= self.0@[i as int]@);
            }
            let ghost before = lists@;
            lists.push(l);
            proof {
                assert(lists@ == before.push(l));
                assert(lists_view(lists@) =~= lists_view(before).push(l@));
                assert(lists_view(self.0@).take(i + 1) =~= lists_view(self.0@).take(i as int).push(self.0@[i as int]@));
            }
            i = i + 1;
        }
        proof {
            assert(lists_view(self.0@).take(self.0@.len() as int) =~= lists_view(self.0@));
        }
        KeySizesTree(lists)
    }

    /// There is nothing left to place: every list is empty or all zeros.
    pub fn is_empty(&self) -> (r: bool)
        ensures
            r == forall|i: int, j: int| 0 <= i < self.0@.len() && 0 <= j < self.0@[i]@.len() ==> #[trigger] self.0@[i]@[j] == 0,
    {
        let mut i: usize = 0;
        while i < self.0.len()
            invariant
                i <= self.0@.len(),
                forall|a: int, j: int| 0 <= a < i && 0 <= j < self.0@[a]@.len() ==> #[trigger] self.0@[a]@[j] == 0,
            decreases self.0@.len() - i,
        {
            let list = &self.0[i];
            let mut j: usize = 0;
            while j < list.len()
                invariant
                    i < self.0@.len(),
                    list@ == self.0@[i as int]@,
                    j <= list@.len(),
                    forall|b: int| 0 <= b < j ==> #[trigger] list@[b] == 0,
                decreases list@.len() - j,
            {
                if list[j] != 0 {
                    return false;
                }
                j = j + 1;
            }
            i = i + 1;
        }
        true
    }

    /// Each different first size, with the lists that start with it, that
    /// size taken off. The first sizes come in the order they first appear.
    pub fn next(self) -> (r: Vec<(u32, KeySizesTree)>)
        ensures
            forall|x: u32| starts_some(lists_view(self.0@), x) <==> exists|k: int| 0 <= k < r@.len() && (#[trigger] r@[k]).0 == x,
            forall|k: int, l: int| 0 <= k < l < r@.len() ==> r@[k].0 != r@[l].0,
            forall|k: int| 0 <= k < r@.len() ==> lists_view((#[trigger] r@[k]).1.0@) == children_of(lists_view(self.0@), r@[k].0),
    {
        let ghost view = lists_view(self.0@);
        let mut firsts: Vec<u32> = Vec::new();
        let mut i: usize = 0;
        while i < self.0.len()
            invariant
                i <= self.0@.len(),
                view == lists_view(self.0@),
                forall|x: u32| starts_some(view.take(i as int), x) <==> firsts@.contains(x),
                firsts@.no_duplicates(),
            decreases self.0@.len() - i,
        {
            proof {
                assert forall|x: u32| starts_some(view.take(i + 1), x) <==> (starts_some(view.take(i as int), x)
                    || (view[i as int].len() > 0 && view[i as int][0] == x)) by {
                    if starts_some(view.take(i + 1), x) {
                        let a = choose|a: int| 0 <= a < i + 1 && view.take(i + 1)[a].len() > 0 && #[trigger] view.take(i + 1)[a][0] == x;
                        if a < i {
                            assert(view.take(i as int)[a] == view[a]);
                        }
                    }
                    if starts_some(view.take(i as int), x) {
                        let a = choose|a: int| 0 <= a < i && view.take(i as int)[a].len() > 0 && #[trigger] view.take(i as int)[a][0] == x;
                        assert(view.take(i + 1)[a] == view[a]);
                    }
                    if view[i as int].len() > 0 && view[i as int][0] == x {
                        assert(view.take(i + 1)[i as int] == view[i as int]);
                    }
                }
            }
            let list = &self.0[i];
            let ghost old_firsts = firsts@;
            proof {
                assert(view[i as int] == list@);
            }
            if list.len() > 0 {
                let x = list[0];
                let mut found = false;
                let mut j: usize = 0;
                while j < firsts.len()
                    invariant
                        j <= firsts@.len(),
                        found == exists|b: int| 0 <= b < j && firsts@[b] == x,
                    decreases firsts@.len() - j,
                {
                    if firsts[j] == x {
                        found = true;
                    }
                    j = j + 1;
                }
                if !found {
                    firsts.push(x);
                    proof {
                        assert forall|a: int, b: int| 0 <= a < b < firsts@.len() implies firsts@[a] != firsts@[b] by {
                            if b == firsts@.len() - 1 {
                                assert(firsts@[b] == x);
                            }
                        }
                    }
                }
                proof {
                    assert forall|y: u32| firsts@.contains(y) <==> (old_firsts.contains(y) || y == x) by {
                        if y == x && found {
                            let b = choose|b: int| 0 <= b < old_firsts.len() && old_firsts[b] == x;
                            assert(old_firsts.contains(y));
                        }
                        if !found {
                            assert(firsts@ == old_firsts.push(x));
                            if old_firsts.contains(y) {
                                let b = choose|b: int| 0 <= b < old_firsts.len() && old_firsts[b] == y;
                                assert(firsts@[b] == y);
                            }
                            if firsts@.contains(y) {
                                let b = choose|b: int| 0 <= b < firsts@.len() && firsts@[b] == y;
                                if b < old_firsts.len() {
                                    assert(old_firsts[b] == y);
                                }
                            }
                            assert(firsts@[old_firsts.len() as int] == x);
                        }
                    }
                }
            }
            proof {
                assert forall|y: u32| starts_some(view.take(i + 1), y) <==> firsts@.contains(y) by {
                    assert(starts_some(view.take(i + 1), y) <==> (starts_some(view.take(i as int), y)
                        || (view[i as int].len() > 0 && view[i as int][0] == y)));
                    assert(starts_some(view.take(i as int), y) <==> old_firsts.contains(y));
                }
            }
            i = i + 1;
        }
        proof {
            assert(view.take(self.0@.len() as int) =~= view);
        }
        let mut result: Vec<(u32, KeySizesTree)> = Vec::new();
        let mut k: usize = 0;
        while k < firsts.len()
            invariant
                k <= firsts@.len(),
                view == lists_view(self.0@),
                result@.len() == k,
                forall|a: int| 0 <= a < k ==> (#[trigger] result@[a]).0 == firsts@[a],
                forall|a: int| 0 <= a < k ==> lists_view((#[trigger] result@[a]).1.0@) == children_of(view, result@[a].0),
            decreases firsts@.len() - k,
        {
            let x = firsts[k];
            let mut children: Vec<Vec<u32>> = Vec::new();
            let mut i: usize = 0;
            while i < self.0.len()
                invariant
                    i <= self.0@.len(),
                    view == lists_view(self.0@),
                    lists_view(children@) == children_of(view.take(i as int), x),
                decreases self.0@.len() - i,
            {
                let list = &self.0[i];
                proof {
                    assert(view.take(i + 1).drop_last() =~= view.take(i as int));
                    assert(view.take(i + 1).last() == list@);
                }
                if list.len() > 0 && list[0] == x {
                    let t = tail(list);
                    let ghost before = children@;
                    children.push(t);
                    proof {
                        assert(lists_view(children@) =~= lists_view(before).push(list@.drop_first()));
                    }
                } else {
                }
                i = i + 1;
            }
            proof {
                assert(view.take(self.0@.len() as int) =~= view);
            }
            result.push((x, KeySizesTree(children)));
            proof {
                assert(result@[k as int].0 == x);
            }
            k = k + 1;
        }
        proof {
            assert forall|x: u32| starts_some(lists_view(self.0@), x) <==> exists|k: int|
                0 <= k < result@.len() && (#[trigger] result@[k]).0 == x by {
                if firsts@.contains(x) {
                    let b = choose|b: int| 0 <= b < firsts@.len() && firsts@[b] == x;
                    assert(result@[b].0 == x);
                }
                if exists|k: int| 0 <= k < result@.len() && (#[trigger] result@[k]).0 == x {
                    let k = choose|k: int| 0 <= k < result@.len() && (#[trigger] result@[k]).0 == x;
                    assert(firsts@[k] == x);
                }
            }
            assert forall|k: int, l: int| 0 <= k < l < result@.len() implies result@[k].0 != result@[l].0 by {
                assert(result@[k].0 == firsts@[k] && result@[l].0 == firsts@[l]);
            }
        }
        result
    }
}

/// All but the first number.
fn tail(v: &Vec<u32>) -> (r: Vec<u32>)
    requires
        v@.len() > 0,
    ensures
        r@ == v@.drop_first(),
{
    let mut r: Vec<u32> = Vec::new();
    let mut i: usize = 1;
    while i < v.len()
        invariant
            1 <= i <= v@.len(),
            r@ == v@.subrange(1, i as int),
        decreases v@.len() - i,
    {
        r.push(v[i]);
        proof {
            assert(r@ =~= v@.subrange(1, i + 1));
        }
        i = i + 1;
    }
    proof {
        assert(v@.subrange(1, v@.len() as int) =~= v@.drop_first());
    }
    r
}

} // verus!
