use vstd::prelude::*;

verus! {

/// The state from which a tree of items is grown lazily: each state gives its
/// children, pairs of an item and the state below it, and every item along a
/// path from the root to a leaf is collected into a result.
pub trait Seed<N: Clone, T: Clone>: Sized {
    /// What adding an item to a result gives.
    spec fn add_spec(result: T, item: N) -> T;

    /// The result with nothing collected yet.
    spec fn empty_value() -> T;

    /// The state is a leaf.
    spec fn leaf(&self) -> bool;

    /// The children of the state, in order.
    spec fn children_spec(&self) -> Vec<(N, Self)>;

    /// Adds an item to a result.
    fn add(result: T, item: &N) -> (r: T)
        ensures
            r == Self::add_spec(result, *item);

    /// The result with nothing collected yet.
    fn empty_result() -> (r: T)
        ensures
            r == Self::empty_value();

    /// The result holds nothing.
    fn is_empty_result(result: &T) -> (r: bool)
        ensures
            r == (*result == Self::empty_value());

    /// This state is a leaf.
    fn is_empty(&self) -> (r: bool)
        ensures
            r == self.leaf();

    /// The children of the state.
    fn children(&self) -> (r: Vec<(N, Self)>)
        ensures
            r@ == self.children_spec()@;
}

/// Each result with `item` added, in order.
pub open spec fn add_all<N: Clone, T: Clone, S: Seed<N, T>>(results: Seq<T>, item: N) -> Seq<T>
    decreases results.len(),
{
    if results.len() == 0 {
        results
    } else {
        add_all::<N, T, S>(results.drop_last(), item).push(S::add_spec(results.last(), item))
    }
}

/// The results along every path from `seed` down to a leaf, or down `depth`
/// levels, depth first: a leaf (or the last level) gives the empty result,
/// and otherwise each child in order gives its own results with its item
/// added.
pub open spec fn grown<N: Clone, T: Clone, S: Seed<N, T>>(seed: S, depth: nat) -> Seq<T>
    decreases depth, 0nat,
{
    if seed.leaf() || depth == 0 {
        seq![S::empty_value()]
    } else {
        grown_children::<N, T, S>(seed.children_spec()@, (depth - 1) as nat)
    }
}

/// The results of the children, one child after the other, each with its
/// item added.
pub open spec fn grown_children<N: Clone, T: Clone, S: Seed<N, T>>(children: Seq<(N, S)>, depth: nat) -> Seq<T>
    decreases depth, children.len() + 1,
{
    if children.len() == 0 {
        Seq::empty()
    } else {
        grown_children::<N, T, S>(children.drop_last(), depth) + add_all::<N, T, S>(
            grown::<N, T, S>(children.last().1, depth),
            children.last().0,
        )
    }
}

/// The results that hold something, in order.
pub open spec fn non_empty<N: Clone, T: Clone, S: Seed<N, T>>(results: Seq<T>) -> Seq<T>
    decreases results.len(),
{
    if results.len() == 0 {
        results
    } else if results.last() == S::empty_value() {
        non_empty::<N, T, S>(results.drop_last())
    } else {
        non_empty::<N, T, S>(results.drop_last()).push(results.last())
    }
}

/// Every result along a path from `seed` to a leaf, depth first; a leaf
/// gives the empty result.
pub fn dfs_include_empty<N: Clone, T: Clone, S: Seed<N, T>>(seed: &S) -> (r: Vec<T>)
    ensures
        r@ == grown(*seed, usize::MAX as nat),
        seed.leaf() ==> r@ == seq![S::empty_value()],
{
    grow(seed, usize::MAX)
}

/// `dfs_include_empty` without the empty results.
pub fn dfs<N: Clone, T: Clone, S: Seed<N, T>>(seed: &S) -> (r: Vec<T>)
    ensures
        r@ == non_empty::<N, T, S>(grown(*seed, usize::MAX as nat)),
        seed.leaf() ==> r@.len() == 0,
{
    let mut all = grow(seed, usize::MAX);
    let ghost full = all@;
    let mut result: Vec<T> = Vec::new();
    let mut i: usize = 0;
    while i < all.len()
        invariant
            i <= all@.len(),
            all@.len() == full.len(),
            forall|k: int| i <= k < full.len() ==> all@[k] == full[k],
            result@ == non_empty::<N, T, S>(full.take(i as int)),
        decreases all.len() - i,
    {
        proof {
            assert(full.take(i + 1).drop_last() =~= full.take(i as int));
        }
        if !S::is_empty_result(&all[i]) {
            let mut kept = S::empty_result();
            all.set_and_swap(i, &mut kept);
            result.push(kept);
        }
        i = i + 1;
    }
    proof {
        assert(full.take(full.len() as int) =~= full);
        if seed.leaf() {
            assert(full =~= seq![S::empty_value()]);
            assert(non_empty::<N, T, S>(full.take(0)) =~= Seq::<T>::empty());
            assert(full.take(1) =~= full);
        }
    }
    result
}

/// The results along every path from `seed` down to a leaf, or down `depth`
/// levels, depth first: each child's results, with the child's item added.
pub fn grow<N: Clone, T: Clone, S: Seed<N, T>>(seed: &S, depth: usize) -> (r: Vec<T>)
    ensures
        r@ == grown(*seed, depth as nat),
    decreases depth,
{
    let mut result: Vec<T> = Vec::new();
    if seed.is_empty() || depth == 0 {
        result.push(S::empty_result());
        proof {
            assert(result@ =~= seq![S::empty_value()]);
        }
    } else {
        let children = seed.children();
        let ghost d = (depth - 1) as nat;
        let ghost cs = children@;
        proof {
            assert(cs.take(0) =~= Seq::<(N, S)>::empty());
            assert(result@ =~= grown_children::<N, T, S>(cs.take(0), d));
        }
        let mut i: usize = 0;
        while i < children.len()
            invariant
                depth > 0,
                d == depth - 1,
                cs == children@,
                i <= cs.len(),
                result@ == grown_children::<N, T, S>(cs.take(i as int), d),
            decreases children.len() - i,
        {
            let mut below = grow(&children[i].1, depth - 1);
            let ghost b0 = below@;
            let ghost start = result@;
            let ghost item = cs[i as int].0;
            proof {
                assert(b0.take(0) =~= Seq::<T>::empty());
                assert(result@ =~= start + add_all::<N, T, S>(b0.take(0), item));
            }
            let mut j: usize = 0;
            while j < below.len()
                invariant
                    i < cs.len(),
                    cs == children@,
                    item == cs[i as int].0,
                    j <= below@.len(),
                    below@.len() == b0.len(),
                    forall|k: int| j <= k < b0.len() ==> below@[k] == b0[k],
                    result@ == start + add_all::<N, T, S>(b0.take(j as int), item),
                decreases below.len() - j,
            {
                let mut t = S::empty_result();
                below.set_and_swap(j, &mut t);
                let next = S::add(t, &children[i].0);
                result.push(next);
                proof {
                    assert(b0.take(j + 1).drop_last() =~= b0.take(j as int));
                    assert(b0.take(j + 1).last() == b0[j as int]);
                    assert(add_all::<N, T, S>(b0.take(j + 1), item) == add_all::<N, T, S>(b0.take(j as int), item).push(
                        S::add_spec(b0[j as int], item),
                    ));
                    assert(result@ =~= start + add_all::<N, T, S>(b0.take(j + 1), item));
                }
                j = j + 1;
            }
            proof {
                assert(b0.take(b0.len() as int) =~= b0);
                assert(cs.take(i + 1).drop_last() =~= cs.take(i as int));
                assert(cs.take(i + 1).last() == cs[i as int]);
                assert(grown_children::<N, T, S>(cs.take(i + 1), d) == grown_children::<N, T, S>(cs.take(i as int), d)
                    + add_all::<N, T, S>(grown::<N, T, S>(cs[i as int].1, d), item));
            }
            i = i + 1;
        }
        proof {
            assert(cs.take(cs.len() as int) =~= cs);
        }
    }
    result
}

} // verus!
