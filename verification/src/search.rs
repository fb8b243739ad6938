use vstd::prelude::*;

use crate::distribute::{is_pick, subsets_including_top};
use crate::key::Key;
use crate::letter::Letter;
use crate::arrange::{lemma_occurrences_push, occurrences};
use crate::key_sizes_tree::{children_of, lists_view, reorders, starts_some, KeySizesTree};
use crate::keyboard::{letters_of, lemma_letters_of, Keyboard};
use crate::partitions::{is_partition, seq_sum, solvable, Goal, Partitions};
use crate::prohibited::{allows, Prohibited};

verus! {

/// The smallest letter of a set of letters.
pub open spec fn bottom_letter(s: Set<u32>) -> u32 {
    choose|x: u32| s.contains(x) && forall|y: u32| #[trigger] s.contains(y) ==> x <= y
}

/// The smallest letter of a nonempty key is the first of its letters in order.
pub proof fn lemma_bottom_letter(k: Key)
    requires
        k@.len() > 0,
    ensures
        k@.contains(bottom_letter(k@)),
        forall|y: u32| #[trigger] k@.contains(y) ==> bottom_letter(k@) <= y,
        bottom_letter(k@) == k.items()[0],
{
    k.lemma_items();
    let items = k.items();
    let first = items[0];
    assert(items.len() > 0);
    assert(k@.contains(first)) by {
        assert(items.contains(first));
    }
    assert forall|y: u32| #[trigger] k@.contains(y) implies first <= y by {
        assert(items.contains(y));
        let i = choose|i: int| 0 <= i < items.len() && items[i] == y;
        if i > 0 {
            assert(items[0] < items[i]);
        }
    }
    let b = bottom_letter(k@);
    assert(k@.contains(b) && forall|y: u32| #[trigger] k@.contains(y) ==> b <= y);
    assert(b <= first && first <= b);
}

/// The keys, in order, each take the smallest letter of `free` that is not on
/// an earlier key, and the rest of their letters from those not on an earlier
/// key.
pub open spec fn canonical(free: Set<u32>, e: Seq<Key>) -> bool
    decreases e.len(),
{
    if e.len() == 0 {
        true
    } else {
        &&& e[0]@.subset_of(free)
        &&& e[0]@.contains(bottom_letter(free))
        &&& canonical(free.difference(e[0]@), e.drop_first())
    }
}

/// The sizes of the keys, in order, start one of the lists; no keys start
/// every list.
pub open spec fn sizes_start_list(lists: Seq<Seq<u32>>, e: Seq<Key>) -> bool {
    e.len() == 0 || exists|i: int|
        0 <= i < lists.len() && lists[i].len() >= e.len() && forall|j: int|
            0 <= j < e.len() ==> #[trigger] lists[i][j] == e[j]@.len()
}

/// No key holds a prohibited group.
pub open spec fn all_allowed(groups: Set<Set<u32>>, ks: Seq<Key>) -> bool {
    forall|j: int| 0 <= j < ks.len() ==> allows(groups, #[trigger] ks[j]@)
}

/// A keyboard that the search reports from the keys `p`: those keys followed by
/// more keys `e` (see `canonical`) whose sizes start one of the lists, where
/// every keyboard on the way, but the last, holds no prohibited group. The
/// keyboard with no keys is never reported.
#[verifier::opaque]
pub open spec fn searched(groups: Set<Set<u32>>, free: Set<u32>, lists: Seq<Seq<u32>>, p: Seq<Key>, kb: Seq<Key>) -> bool {
    exists|e: Seq<Key>|
        #![trigger p + e]
        p + e == kb && kb.len() > 0 && canonical(free, e) && sizes_start_list(lists, e) && (e.len() == 0 || (
        all_allowed(groups, p) && all_allowed(groups, e.drop_last())))
}

/// A report's further keys are the rest of the keyboard after `p`.
pub proof fn lemma_searched_witness(groups: Set<Set<u32>>, free: Set<u32>, lists: Seq<Seq<u32>>, p: Seq<Key>, kb: Seq<Key>)
    requires
        searched(groups, free, lists, p, kb),
    ensures
        kb.len() >= p.len(),
        kb.len() > 0,
        p + kb.skip(p.len() as int) == kb,
        canonical(free, kb.skip(p.len() as int)),
        sizes_start_list(lists, kb.skip(p.len() as int)),
        kb.skip(p.len() as int).len() == 0 || (all_allowed(groups, p) && all_allowed(groups, kb.skip(p.len() as int).drop_last())),
{
    reveal(searched);
    let e = choose|e: Seq<Key>| #![trigger p + e] p + e == kb && kb.len() > 0 && canonical(free, e) && sizes_start_list(lists, e) && (e.len() == 0 || (
        all_allowed(groups, p) && all_allowed(groups, e.drop_last())));
    lemma_suffix(p, e, kb);
}

/// Further keys that meet the conditions make a report.
pub proof fn lemma_searched_intro(groups: Set<Set<u32>>, free: Set<u32>, lists: Seq<Seq<u32>>, p: Seq<Key>, e: Seq<Key>)
    requires
        (p + e).len() > 0,
        canonical(free, e),
        sizes_start_list(lists, e),
        e.len() == 0 || (all_allowed(groups, p) && all_allowed(groups, e.drop_last())),
    ensures
        searched(groups, free, lists, p, p + e),
{
    reveal(searched);
}

/// Every number of every list is positive, and every list adds up to `total`.
pub open spec fn lists_fit(lists: Seq<Seq<u32>>, total: nat) -> bool {
    forall|i: int|
        0 <= i < lists.len() ==> seq_sum(#[trigger] lists[i]) == total && forall|j: int|
            0 <= j < lists[i].len() ==> lists[i][j] >= 1
}

/// A list of the children of `x` is a list that started with `x`, without it.
pub proof fn lemma_children_of(lists: Seq<Seq<u32>>, x: u32, c: Seq<u32>)
    ensures
        children_of(lists, x).contains(c) <==> exists|i: int|
            0 <= i < lists.len() && lists[i].len() > 0 && lists[i][0] == x && #[trigger] lists[i].drop_first() == c,
    decreases lists.len(),
{
    if lists.len() > 0 {
        let p = lists.drop_last();
        lemma_children_of(p, x, c);
        let rest = children_of(p, x);
        let l = lists.last();
        if children_of(lists, x).contains(c) {
            if l.len() > 0 && l[0] == x && l.drop_first() == c {
                assert(lists[lists.len() - 1].drop_first() == c);
            } else {
                if l.len() > 0 && l[0] == x {
                    let k = choose|k: int| 0 <= k < rest.push(l.drop_first()).len() && rest.push(l.drop_first())[k] == c;
                    if k < rest.len() {
                        assert(rest[k] == c);
                    }
                }
                assert(rest.contains(c));
                let i = choose|i: int| 0 <= i < p.len() && p[i].len() > 0 && p[i][0] == x && #[trigger] p[i].drop_first() == c;
                assert(lists[i] == p[i]);
            }
        }
        if exists|i: int| 0 <= i < lists.len() && lists[i].len() > 0 && lists[i][0] == x && #[trigger] lists[i].drop_first() == c {
            let i = choose|i: int| 0 <= i < lists.len() && lists[i].len() > 0 && lists[i][0] == x && #[trigger] lists[i].drop_first() == c;
            if i < lists.len() - 1 {
                assert(p[i] == lists[i]);
                assert(rest.contains(c));
                let k = choose|k: int| 0 <= k < rest.len() && rest[k] == c;
                if l.len() > 0 && l[0] == x {
                    assert(rest.push(l.drop_first())[k] == c);
                }
            } else {
                assert(rest.push(l.drop_first())[rest.len() as int] == c);
            }
        }
    }
}

/// The children of a list's first number fit what is left.
pub proof fn lemma_children_fit(lists: Seq<Seq<u32>>, total: nat, x: u32)
    requires
        lists_fit(lists, total),
        x <= total,
    ensures
        lists_fit(children_of(lists, x), (total - x) as nat),
{
    let c = children_of(lists, x);
    assert forall|k: int| 0 <= k < c.len() implies seq_sum(#[trigger] c[k]) == (total - x) as nat && forall|j: int|
        0 <= j < c[k].len() ==> c[k][j] >= 1 by {
        assert(c.contains(c[k]));
        lemma_children_of(lists, x, c[k]);
        let i = choose|i: int| 0 <= i < lists.len() && lists[i].len() > 0 && lists[i][0] == x && #[trigger] lists[i].drop_first() == c[k];
        lemma_sum_first(lists[i]);
        assert forall|j: int| 0 <= j < c[k].len() implies c[k][j] >= 1 by {
            assert(c[k][j] == lists[i][j + 1]);
        }
    }
}

proof fn lemma_sum_first(s: Seq<u32>)
    requires
        s.len() > 0,
    ensures
        seq_sum(s) == s[0] + seq_sum(s.drop_first()),
    decreases s.len(),
{
    if s.len() == 1 {
        assert(s.drop_first().len() == 0);
        assert(s.drop_last().len() == 0);
        assert(seq_sum(s.drop_last()) == 0);
    } else {
        lemma_sum_first(s.drop_last());
        assert(s.drop_last().drop_first() =~= s.drop_first().drop_last());
        assert(s.drop_first().last() == s.last());
    }
}

#[verifier::spinoff_prover]
#[verifier::rlimit(60)]
proof fn lemma_expand_forward(groups: Set<Set<u32>>, free: Set<u32>, lists: Seq<Seq<u32>>, p: Seq<Key>, kb: Seq<Key>, x: u32)
    requires
        kb.len() > p.len(),
        kb.take(p.len() as int) == p,
        all_allowed(groups, p),
        x == kb[p.len() as int]@.len(),
    ensures
        searched(groups, free, lists, p, kb) ==> ({
            let k = kb[p.len() as int];
            &&& k@.subset_of(free)
            &&& k@.contains(bottom_letter(free))
            &&& starts_some(lists, x)
            &&& searched(groups, free.difference(k@), children_of(lists, x), p.push(k), kb)
        }),
{
    reveal(searched);
    let k = kb[p.len() as int];
    let q = p.push(k);
    let e = kb.skip(p.len() as int);
    let e1 = e.drop_first();
    assert(p + e =~= kb);
    assert(e[0] == k);
    assert(q + e1 =~= kb);
    if searched(groups, free, lists, p, kb) {
        let e0 = choose|e0: Seq<Key>| #![trigger p + e0] p + e0 == kb && kb.len() > 0 && canonical(free, e0) && sizes_start_list(lists, e0) && (e0.len() == 0 || (
            all_allowed(groups, p) && all_allowed(groups, e0.drop_last())));
        assert(e0 =~= e) by {
            assert forall|j: int| 0 <= j < e0.len() implies e0[j] == e[j] by {
                assert((p + e0)[p.len() + j] == kb[p.len() + j]);
            }
        }
        let i = choose|i: int| 0 <= i < lists.len() && lists[i].len() >= e.len() && forall|j: int|
            0 <= j < e.len() ==> #[trigger] lists[i][j] == e[j]@.len();
        assert(lists[i][0] == x);
        assert(starts_some(lists, x));
        let c = lists[i].drop_first();
        lemma_children_of(lists, x, c);
        assert(children_of(lists, x).contains(c));
        let ci = choose|ci: int| 0 <= ci < children_of(lists, x).len() && children_of(lists, x)[ci] == c;
        assert(sizes_start_list(children_of(lists, x), e1)) by {
            assert forall|j: int| 0 <= j < e1.len() implies #[trigger] children_of(lists, x)[ci][j] == e1[j]@.len() by {
                assert(c[j] == lists[i][j + 1]);
                assert(e1[j] == e[j + 1]);
            }
        }
        if e1.len() > 0 {
            assert(all_allowed(groups, q)) by {
                assert forall|j: int| 0 <= j < q.len() implies allows(groups, #[trigger] q[j]@) by {
                    if j < p.len() {
                        assert(q[j] == p[j]);
                    } else {
                        assert(e.drop_last()[0] == k);
                    }
                }
            }
            assert(all_allowed(groups, e1.drop_last())) by {
                assert forall|j: int| 0 <= j < e1.drop_last().len() implies allows(groups, #[trigger] e1.drop_last()[j]@) by {
                    assert(e1.drop_last()[j] == e.drop_last()[j + 1]);
                }
            }
        }
        assert(searched(groups, free.difference(k@), children_of(lists, x), q, kb));
    }
}

/// What follows a prefix in a sequence is the rest of the sequence.
proof fn lemma_suffix(p: Seq<Key>, f: Seq<Key>, kb: Seq<Key>)
    requires
        p + f == kb,
    ensures
        f == kb.skip(p.len() as int),
{
    assert forall|j: int| 0 <= j < f.len() implies f[j] == kb.skip(p.len() as int)[j] by {
        assert((p + f)[p.len() + j] == kb[p.len() + j]);
    }
    assert(f =~= kb.skip(p.len() as int));
}

/// Sizes that start a child list, after the first size, start the list it
/// came from.
proof fn lemma_sizes_extend(lists: Seq<Seq<u32>>, x: u32, e: Seq<Key>)
    requires
        e.len() > 0,
        e[0]@.len() == x,
        starts_some(lists, x),
        sizes_start_list(children_of(lists, x), e.drop_first()),
    ensures
        sizes_start_list(lists, e),
{
    let e1 = e.drop_first();
    if e1.len() == 0 {
        let i = choose|i: int| 0 <= i < lists.len() && lists[i].len() > 0 && #[trigger] lists[i][0] == x;
        assert(lists[i][0] == e[0]@.len());
        return;
    }
    let ch = children_of(lists, x);
    let ci = choose|ci: int| 0 <= ci < ch.len() && ch[ci].len() >= e1.len() && forall|j: int|
        0 <= j < e1.len() ==> #[trigger] ch[ci][j] == e1[j]@.len();
    let c = ch[ci];
    lemma_children_of(lists, x, c);
    assert(ch.contains(c));
    let i = choose|i: int| 0 <= i < lists.len() && lists[i].len() > 0 && lists[i][0] == x && #[trigger] lists[i].drop_first() == c;
    assert forall|j: int| 0 <= j < e.len() implies #[trigger] lists[i][j] == e[j]@.len() by {
        if j > 0 {
            assert(lists[i][j] == c[j - 1]);
            assert(e[j] == e1[j - 1]);
        }
    }
}

/// Allowed keys before the last, with one more key in front.
proof fn lemma_allowed_extend(groups: Set<Set<u32>>, p: Seq<Key>, e: Seq<Key>)
    requires
        e.len() > 1,
        all_allowed(groups, p.push(e[0])),
        all_allowed(groups, e.drop_first().drop_last()),
    ensures
        all_allowed(groups, p),
        all_allowed(groups, e.drop_last()),
{
    assert forall|j: int| 0 <= j < p.len() implies allows(groups, #[trigger] p[j]@) by {
        assert(p.push(e[0])[j] == p[j]);
    }
    assert forall|j: int| 0 <= j < e.drop_last().len() implies allows(groups, #[trigger] e.drop_last()[j]@) by {
        if j == 0 {
            assert(p.push(e[0])[p.len() as int] == e[0]);
        } else {
            assert(e.drop_last()[j] == e.drop_first().drop_last()[j - 1]);
        }
    }
}

#[verifier::spinoff_prover]
#[verifier::rlimit(100)]
proof fn lemma_expand_backward(groups: Set<Set<u32>>, free: Set<u32>, lists: Seq<Seq<u32>>, p: Seq<Key>, kb: Seq<Key>, x: u32)
    requires
        kb.len() > p.len(),
        kb.take(p.len() as int) == p,
        all_allowed(groups, p),
        x == kb[p.len() as int]@.len(),
        kb[p.len() as int]@.subset_of(free),
        kb[p.len() as int]@.contains(bottom_letter(free)),
        starts_some(lists, x),
        searched(groups, free.difference(kb[p.len() as int]@), children_of(lists, x), p.push(kb[p.len() as int]), kb),
    ensures
        searched(groups, free, lists, p, kb),
{
    let k = kb[p.len() as int];
    let q = p.push(k);
    let e = kb.skip(p.len() as int);
    assert(p + e =~= kb);
    assert(e[0] == k);
    lemma_searched_witness(groups, free.difference(k@), children_of(lists, x), q, kb);
    assert(e.drop_first() =~= kb.skip(q.len() as int));
    assert(canonical(free, e));
    lemma_sizes_extend(lists, x, e);
    if e.len() > 1 {
        lemma_allowed_extend(groups, p, e);
    }
    lemma_searched_intro(groups, free, lists, p, e);
}

/// A reported keyboard longer than `p` goes through its next key: the search
/// from `p` reports it exactly when that key is a valid next key and the
/// search from `p` with that key reports it.
pub proof fn lemma_expand(groups: Set<Set<u32>>, free: Set<u32>, lists: Seq<Seq<u32>>, p: Seq<Key>, kb: Seq<Key>, x: u32)
    requires
        kb.len() > p.len(),
        kb.take(p.len() as int) == p,
        all_allowed(groups, p),
        x == kb[p.len() as int]@.len(),
    ensures
        searched(groups, free, lists, p, kb) <==> ({
            let k = kb[p.len() as int];
            &&& k@.subset_of(free)
            &&& k@.contains(bottom_letter(free))
            &&& starts_some(lists, x)
            &&& searched(groups, free.difference(k@), children_of(lists, x), p.push(k), kb)
        }),
{
    lemma_expand_forward(groups, free, lists, p, kb, x);
    let k = kb[p.len() as int];
    if k@.subset_of(free) && k@.contains(bottom_letter(free)) && starts_some(lists, x)
        && searched(groups, free.difference(k@), children_of(lists, x), p.push(k), kb) {
        lemma_expand_backward(groups, free, lists, p, kb, x);
    }
}

/// The keys of each keyboard.
pub open spec fn kb_views(r: Seq<Keyboard>) -> Seq<Seq<Key>> {
    r.map_values(|k: Keyboard| k@)
}

/// `kb` goes from `p` through a next key of `x` letters (see `lemma_expand`).
#[verifier::opaque]
pub open spec fn step_to(groups: Set<Set<u32>>, free: Set<u32>, x: u32, children: Seq<Seq<u32>>, p: Seq<Key>, kb: Seq<Key>) -> bool {
    &&& kb.len() > p.len()
    &&& kb.take(p.len() as int) == p
    &&& kb[p.len() as int]@.len() == x
    &&& kb[p.len() as int]@.subset_of(free)
    &&& kb[p.len() as int]@.contains(bottom_letter(free))
    &&& searched(groups, free.difference(kb[p.len() as int]@), children, p.push(kb[p.len() as int]), kb)
}

/// The search from `p` reports `p` itself exactly when it has keys, and
/// nothing shorter.
proof fn lemma_searched_self(groups: Set<Set<u32>>, free: Set<u32>, lists: Seq<Seq<u32>>, p: Seq<Key>, kb: Seq<Key>)
    requires
        kb.len() <= p.len(),
    ensures
        searched(groups, free, lists, p, kb) <==> (kb == p && p.len() > 0),
{
    reveal(searched);
    if searched(groups, free, lists, p, kb) {
        let e = choose|e: Seq<Key>| #![trigger p + e] p + e == kb && kb.len() > 0 && canonical(free, e) && sizes_start_list(lists, e) && (e.len() == 0 || (
            all_allowed(groups, p) && all_allowed(groups, e.drop_last())));
        assert(e.len() == 0);
        assert(p + e =~= p);
    }
    if kb == p && p.len() > 0 {
        let e = Seq::<Key>::empty();
        assert(p + e =~= kb);
        assert(p + e == kb && kb.len() > 0 && canonical(free, e) && sizes_start_list(lists, e) && (e.len() == 0 || (
            all_allowed(groups, p) && all_allowed(groups, e.drop_last()))));
    }
}

/// Reported keyboards start with `p`.
proof fn lemma_searched_prefix(groups: Set<Set<u32>>, free: Set<u32>, lists: Seq<Seq<u32>>, p: Seq<Key>, kb: Seq<Key>)
    requires
        searched(groups, free, lists, p, kb),
    ensures
        kb.len() >= p.len(),
        kb.take(p.len() as int) == p,
{
    reveal(searched);
    let e = choose|e: Seq<Key>| #![trigger p + e] p + e == kb && kb.len() > 0 && canonical(free, e) && sizes_start_list(lists, e) && (e.len() == 0 || (
        all_allowed(groups, p) && all_allowed(groups, e.drop_last())));
    assert(kb.take(p.len() as int) =~= p);
}

/// With no further list or with a pruned prefix, only the prefix is reported.
proof fn lemma_searched_stop(groups: Set<Set<u32>>, free: Set<u32>, lists: Seq<Seq<u32>>, p: Seq<Key>, kb: Seq<Key>)
    requires
        !all_allowed(groups, p) || forall|i: int| 0 <= i < lists.len() ==> #[trigger] lists[i].len() == 0,
        kb.len() > p.len(),
    ensures
        !searched(groups, free, lists, p, kb),
{
    reveal(searched);
    if searched(groups, free, lists, p, kb) {
        let e = choose|e: Seq<Key>| #![trigger p + e] p + e == kb && kb.len() > 0 && canonical(free, e) && sizes_start_list(lists, e) && (e.len() == 0 || (
            all_allowed(groups, p) && all_allowed(groups, e.drop_last())));
        assert(e.len() > 0);
        let i = choose|i: int| 0 <= i < lists.len() && lists[i].len() >= e.len() && forall|j: int|
            0 <= j < e.len() ==> #[trigger] lists[i][j] == e[j]@.len();
    }
}

proof fn lemma_element_below_sum(s: Seq<u32>, i: int)
    requires
        0 <= i < s.len(),
    ensures
        s[i] <= seq_sum(s),
    decreases s.len(),
{
    lemma_sum_nonnegative(s.drop_last());
    if i < s.len() - 1 {
        lemma_element_below_sum(s.drop_last(), i);
        assert(s.drop_last()[i] == s[i]);
    }
}

proof fn lemma_sum_nonnegative(s: Seq<u32>)
    ensures
        seq_sum(s) >= 0,
    decreases s.len(),
{
    if s.len() > 0 {
        lemma_sum_nonnegative(s.drop_last());
    }
}

/// Appends `found` to `result`.
fn append_keyboards(result: &mut Vec<Keyboard>, found: Vec<Keyboard>)
    ensures
        kb_views(final(result)@) == kb_views(old(result)@) + kb_views(found@),
{
    let mut i: usize = 0;
    let ghost start = kb_views(result@);
    while i < found.len()
        invariant
            i <= found@.len(),
            kb_views(result@) == start + kb_views(found@).take(i as int),
        decreases found@.len() - i,
    {
        let k = found[i].clone();
        let ghost before = kb_views(result@);
        result.push(k);
        proof {
            assert(kb_views(result@) =~= before.push(k@));
            assert(kb_views(found@).take(i + 1) =~= kb_views(found@).take(i as int).push(found@[i as int]@));
        }
        i = i + 1;
    }
    proof {
        assert(kb_views(found@).take(found@.len() as int) =~= kb_views(found@));
    }
}

/// The keyboards listed while trying the first `t` choices of the other
/// letters of the next key: exactly those that go through a next key of `x`
/// letters made of the smallest letter `l` and one of those choices, each once.
#[verifier::opaque]
pub open spec fn expanded_so_far(groups: Set<Set<u32>>, free: Set<u32>, x: u32, children: Seq<Seq<u32>>, p: Seq<Key>, l: u32, opts: Seq<Set<u32>>, t: int, rv: Seq<Seq<Key>>) -> bool {
    &&& forall|kb: Seq<Key>| #[trigger] rv.contains(kb) <==> (step_to(groups, free, x, children, p, kb)
        && exists|c: int| 0 <= c < t && opts[c].insert(l) == kb[p.len() as int]@)
    &&& rv.no_duplicates()
}

/// The keyboards listed after the first `k` next sizes: the prefix itself
/// when it has keys, and those that go through a next key of one of those
/// sizes, each once.
#[verifier::opaque]
pub open spec fn searched_so_far(groups: Set<Set<u32>>, free: Set<u32>, lists: Seq<Seq<u32>>, p: Seq<Key>, xs: Seq<u32>, k: int, rv: Seq<Seq<Key>>) -> bool {
    &&& forall|kb: Seq<Key>| #[trigger] rv.contains(kb) <==> ((kb == p && p.len() > 0) || exists|j: int|
        0 <= j < k && step_to(groups, free, xs[j], children_of(lists, xs[j]), p, kb))
    &&& rv.no_duplicates()
}

proof fn lemma_expand_start(groups: Set<Set<u32>>, free: Set<u32>, x: u32, children: Seq<Seq<u32>>, p: Seq<Key>, l: u32, opts: Seq<Set<u32>>)
    ensures
        expanded_so_far(groups, free, x, children, p, l, opts, 0, Seq::empty()),
{
    reveal(expanded_so_far);
}

/// A keyboard found after key `key` goes through that key.
proof fn lemma_found_one(groups: Set<Set<u32>>, free: Set<u32>, x: u32, children: Seq<Seq<u32>>, p: Seq<Key>, l: u32, key: Key, z: Seq<Key>)
    requires
        l == bottom_letter(free),
        key@.contains(l),
        key@.len() == x,
        key@.subset_of(free),
        searched(groups, free.difference(key@), children, p.push(key), z),
    ensures
        step_to(groups, free, x, children, p, z),
        z[p.len() as int] == key,
{
    reveal(step_to);
    let q = p.push(key);
    lemma_searched_witness(groups, free.difference(key@), children, q, z);
    assert(z[p.len() as int] == (q + z.skip(q.len() as int))[p.len() as int]);
    assert(z.take(p.len() as int) =~= p) by {
        assert forall|j: int| 0 <= j < p.len() implies z[j] == p[j] by {
            assert(z[j] == (q + z.skip(q.len() as int))[j]);
        }
    }
}

/// What the search finds after key `key` goes through that key.
#[verifier::spinoff_prover]
proof fn lemma_found_through(
    groups: Set<Set<u32>>,
    free: Set<u32>,
    x: u32,
    children: Seq<Seq<u32>>,
    p: Seq<Key>,
    l: u32,
    rest: Set<u32>,
    opts: Seq<Set<u32>>,
    t: int,
    key: Key,
    before: Seq<Seq<Key>>,
    fv: Seq<Seq<Key>>,
)
    requires
        0 <= t < opts.len(),
        l == bottom_letter(free),
        free.contains(l),
        rest == free.remove(l),
        forall|a: int| 0 <= a < opts.len() ==> #[trigger] opts[a].subset_of(rest),
        forall|a: int, b: int| 0 <= a < b < opts.len() ==> opts[a] != opts[b],
        key@ == opts[t].insert(l),
        key@.len() == x,
        key@.subset_of(free),
        forall|z: Seq<Key>| #[trigger] fv.contains(z) <==> searched(groups, free.difference(key@), children, p.push(key), z),
        fv.no_duplicates(),
    ensures
        forall|z: Seq<Key>| #[trigger] fv.contains(z) ==> step_to(groups, free, x, children, p, z) && z[p.len() as int] == key,
{
    reveal(step_to);
    let q = p.push(key);
    assert(key@.contains(l));
    assert forall|z: Seq<Key>| #[trigger] fv.contains(z) implies step_to(groups, free, x, children, p, z) && z[p.len() as int] == key by {
        lemma_found_one(groups, free, x, children, p, l, key, z);
    }
}

/// Going through a next key of `x` letters makes a longer keyboard whose
/// next key has `x` letters.
proof fn lemma_step_to_shape(groups: Set<Set<u32>>, free: Set<u32>, x: u32, children: Seq<Seq<u32>>, p: Seq<Key>, z: Seq<Key>)
    requires
        step_to(groups, free, x, children, p, z),
    ensures
        z.len() > p.len(),
        z[p.len() as int]@.len() == x,
{
    reveal(step_to);
}

/// Going through key `key` means the search after that key reports it.
proof fn lemma_step_to_key(groups: Set<Set<u32>>, free: Set<u32>, x: u32, children: Seq<Seq<u32>>, p: Seq<Key>, z: Seq<Key>, key: Key)
    requires
        step_to(groups, free, x, children, p, z),
        z[p.len() as int] == key,
    ensures
        searched(groups, free.difference(key@), children, p.push(key), z),
{
    reveal(step_to);
}

#[verifier::spinoff_prover]
#[verifier::rlimit(100)]
proof fn lemma_expand_step_members(
    groups: Set<Set<u32>>,
    free: Set<u32>,
    x: u32,
    children: Seq<Seq<u32>>,
    p: Seq<Key>,
    l: u32,
    rest: Set<u32>,
    opts: Seq<Set<u32>>,
    t: int,
    key: Key,
    before: Seq<Seq<Key>>,
    fv: Seq<Seq<Key>>,
)
    requires
        0 <= t < opts.len(),
        l == bottom_letter(free),
        free.contains(l),
        rest == free.remove(l),
        forall|a: int| 0 <= a < opts.len() ==> #[trigger] opts[a].subset_of(rest),
        forall|a: int, b: int| 0 <= a < b < opts.len() ==> opts[a] != opts[b],
        key@ == opts[t].insert(l),
        key@.len() == x,
        key@.subset_of(free),
        forall|z: Seq<Key>| #[trigger] fv.contains(z) <==> searched(groups, free.difference(key@), children, p.push(key), z),
        fv.no_duplicates(),
        forall|z: Seq<Key>| #[trigger] fv.contains(z) ==> step_to(groups, free, x, children, p, z) && z[p.len() as int] == key,
        forall|kb: Seq<Key>| #[trigger] before.contains(kb) <==> (step_to(groups, free, x, children, p, kb)
            && exists|c: int| 0 <= c < t && opts[c].insert(l) == kb[p.len() as int]@),
    ensures
        forall|z: Seq<Key>| #[trigger] (before + fv).contains(z) <==> (step_to(groups, free, x, children, p, z)
            && exists|c: int| 0 <= c < t + 1 && opts[c].insert(l) == z[p.len() as int]@),
{
    let q = p.push(key);
    let n = before.len();
    let after = before + fv;
    assert forall|z: Seq<Key>| #[trigger] after.contains(z) <==> (step_to(groups, free, x, children, p, z)
        && exists|c: int| 0 <= c < t + 1 && opts[c].insert(l) == z[p.len() as int]@) by {
        if after.contains(z) {
            let a = choose|a: int| 0 <= a < after.len() && after[a] == z;
            if a < n {
                assert(before[a] == z);
                assert(before.contains(z));
            } else {
                assert(fv[a - n] == z);
                assert(fv.contains(z));
            }
        }
        if step_to(groups, free, x, children, p, z) && exists|c: int| 0 <= c < t + 1 && opts[c].insert(l) == z[p.len() as int]@ {
            let c = choose|c: int| 0 <= c < t + 1 && opts[c].insert(l) == z[p.len() as int]@;
            if c < t {
                assert(before.contains(z));
                let a = choose|a: int| 0 <= a < before.len() && before[a] == z;
                assert(after[a] == z);
            } else {
                Key::lemma_view_injective(z[p.len() as int], key);
                lemma_step_to_key(groups, free, x, children, p, z, key);
                assert(fv.contains(z));
                let v = choose|v: int| 0 <= v < fv.len() && fv[v] == z;
                assert(after[n + v] == z);
            }
        }
    }
}

#[verifier::spinoff_prover]
#[verifier::rlimit(100)]
proof fn lemma_expand_step_distinct(
    groups: Set<Set<u32>>,
    free: Set<u32>,
    x: u32,
    children: Seq<Seq<u32>>,
    p: Seq<Key>,
    l: u32,
    rest: Set<u32>,
    opts: Seq<Set<u32>>,
    t: int,
    key: Key,
    before: Seq<Seq<Key>>,
    fv: Seq<Seq<Key>>,
)
    requires
        0 <= t < opts.len(),
        l == bottom_letter(free),
        free.contains(l),
        rest == free.remove(l),
        forall|a: int| 0 <= a < opts.len() ==> #[trigger] opts[a].subset_of(rest),
        forall|a: int, b: int| 0 <= a < b < opts.len() ==> opts[a] != opts[b],
        key@ == opts[t].insert(l),
        key@.len() == x,
        key@.subset_of(free),
        forall|z: Seq<Key>| #[trigger] fv.contains(z) <==> searched(groups, free.difference(key@), children, p.push(key), z),
        fv.no_duplicates(),
        forall|z: Seq<Key>| #[trigger] fv.contains(z) ==> step_to(groups, free, x, children, p, z) && z[p.len() as int] == key,
        forall|kb: Seq<Key>| #[trigger] before.contains(kb) ==> (step_to(groups, free, x, children, p, kb)
            && exists|c: int| 0 <= c < t && opts[c].insert(l) == kb[p.len() as int]@),
        before.no_duplicates(),
    ensures
        (before + fv).no_duplicates(),
{
    let n = before.len();
    let after = before + fv;
    assert forall|a: int, b: int| 0 <= a < after.len() && 0 <= b < after.len() && a != b implies after[a] != after[b] by {
        if a < n && b < n {
            assert(after[a] == before[a] && after[b] == before[b]);
        } else if a >= n && b >= n {
            assert(after[a] == fv[a - n] && after[b] == fv[b - n]);
        } else {
            let (u, w) = if a < n { (a, b) } else { (b, a) };
            assert(after[u] == before[u]);
            assert(after[w] == fv[w - n]);
            assert(fv.contains(after[w]));
            assert(before.contains(before[u]));
            if after[u] == after[w] {
                let z = after[w];
                let c = choose|c: int| 0 <= c < t && opts[c].insert(l) == z[p.len() as int]@;
                assert(z[p.len() as int] == key);
                assert(opts[c].subset_of(rest));
                assert(opts[t].subset_of(rest));
                assert(!rest.contains(l));
                assert(!opts[c].contains(l));
                assert(!opts[t].contains(l));
                assert(opts[c] =~= key@.remove(l));
                assert(opts[t] =~= key@.remove(l));
            }
        }
    }
}

/// Appending what the search finds after key `key` (the `t`-th choice) keeps
/// `expanded_so_far`.
proof fn lemma_expand_step(
    groups: Set<Set<u32>>,
    free: Set<u32>,
    x: u32,
    children: Seq<Seq<u32>>,
    p: Seq<Key>,
    l: u32,
    rest: Set<u32>,
    opts: Seq<Set<u32>>,
    t: int,
    key: Key,
    before: Seq<Seq<Key>>,
    fv: Seq<Seq<Key>>,
)
    requires
        0 <= t < opts.len(),
        l == bottom_letter(free),
        free.contains(l),
        rest == free.remove(l),
        forall|a: int| 0 <= a < opts.len() ==> #[trigger] opts[a].subset_of(rest),
        forall|a: int, b: int| 0 <= a < b < opts.len() ==> opts[a] != opts[b],
        key@ == opts[t].insert(l),
        key@.len() == x,
        key@.subset_of(free),
        forall|z: Seq<Key>| #[trigger] fv.contains(z) <==> searched(groups, free.difference(key@), children, p.push(key), z),
        fv.no_duplicates(),
        expanded_so_far(groups, free, x, children, p, l, opts, t, before),
    ensures
        expanded_so_far(groups, free, x, children, p, l, opts, t + 1, before + fv),
{
    reveal(expanded_so_far);
    lemma_found_through(groups, free, x, children, p, l, rest, opts, t, key, before, fv);
    lemma_expand_step_members(groups, free, x, children, p, l, rest, opts, t, key, before, fv);
    lemma_expand_step_distinct(groups, free, x, children, p, l, rest, opts, t, key, before, fv);
}

/// With no further list or with a pruned prefix, the search reports the
/// prefix alone, when it has keys.
proof fn lemma_stop_result(groups: Set<Set<u32>>, free: Set<u32>, lists: Seq<Seq<u32>>, p: Seq<Key>, rv: Seq<Seq<Key>>)
    requires
        rv == (if p.len() > 0 {
            seq![p]
        } else {
            Seq::<Seq<Key>>::empty()
        }),
        !all_allowed(groups, p) || forall|i: int| 0 <= i < lists.len() ==> #[trigger] lists[i].len() == 0,
    ensures
        forall|kb: Seq<Key>| #[trigger] rv.contains(kb) <==> searched(groups, free, lists, p, kb),
        rv.no_duplicates(),
{
    assert forall|kb: Seq<Key>| #[trigger] rv.contains(kb) <==> searched(groups, free, lists, p, kb) by {
        if rv.contains(kb) {
            assert(rv[0] == kb);
        }
        if kb.len() > p.len() {
            lemma_searched_stop(groups, free, lists, p, kb);
        } else {
            lemma_searched_self(groups, free, lists, p, kb);
            if kb == p && p.len() > 0 {
                assert(rv[0] == kb);
            }
        }
    }
}

/// Once every choice is tried, `expanded_so_far` is `step_to`.
proof fn lemma_expand_done(
    groups: Set<Set<u32>>,
    free: Set<u32>,
    x: u32,
    children: Seq<Seq<u32>>,
    p: Seq<Key>,
    l: u32,
    rest: Set<u32>,
    opts: Seq<Set<u32>>,
    rv: Seq<Seq<Key>>,
)
    requires
        x >= 1,
        l == bottom_letter(free),
        rest == free.remove(l),
        free.finite(),
        forall|s: Set<u32>| #[trigger] is_pick(s, rest, (x - 1) as nat) ==> opts.contains(s),
        expanded_so_far(groups, free, x, children, p, l, opts, opts.len() as int, rv),
    ensures
        forall|kb: Seq<Key>| #[trigger] rv.contains(kb) <==> step_to(groups, free, x, children, p, kb),
        rv.no_duplicates(),
{
    reveal(expanded_so_far);
    reveal(step_to);
    assert forall|kb: Seq<Key>| step_to(groups, free, x, children, p, kb) implies #[trigger] rv.contains(kb) by {
        let k = kb[p.len() as int];
        let q = k@.remove(l);
        assert(q.subset_of(rest));
        assert(is_pick(q, rest, (x - 1) as nat));
        let c = choose|c: int| 0 <= c < opts.len() && opts[c] == q;
        assert(q.insert(l) =~= k@);
    }
}

proof fn lemma_searched_start(groups: Set<Set<u32>>, free: Set<u32>, lists: Seq<Seq<u32>>, p: Seq<Key>, xs: Seq<u32>, rv: Seq<Seq<Key>>)
    requires
        rv == (if p.len() > 0 {
            seq![p]
        } else {
            Seq::<Seq<Key>>::empty()
        }),
    ensures
        searched_so_far(groups, free, lists, p, xs, 0, rv),
{
    reveal(searched_so_far);
    assert forall|kb: Seq<Key>| #[trigger] rv.contains(kb) <==> (kb == p && p.len() > 0) by {
        if rv.contains(kb) {
            assert(rv[0] == kb);
        }
        if kb == p && p.len() > 0 {
            assert(rv[0] == kb);
        }
    }
}

/// Appending the keyboards through a next key of size `xs[k]` keeps
/// `searched_so_far`.
#[verifier::spinoff_prover]
proof fn lemma_searched_step(
    groups: Set<Set<u32>>,
    free: Set<u32>,
    lists: Seq<Seq<u32>>,
    p: Seq<Key>,
    xs: Seq<u32>,
    k: int,
    before: Seq<Seq<Key>>,
    fv: Seq<Seq<Key>>,
)
    requires
        0 <= k < xs.len(),
        forall|i: int, j: int| 0 <= i < j < xs.len() ==> xs[i] != xs[j],
        forall|z: Seq<Key>| #[trigger] fv.contains(z) <==> step_to(groups, free, xs[k], children_of(lists, xs[k]), p, z),
        fv.no_duplicates(),
        searched_so_far(groups, free, lists, p, xs, k, before),
    ensures
        searched_so_far(groups, free, lists, p, xs, k + 1, before + fv),
{
    reveal(searched_so_far);
    let n = before.len();
    let after = before + fv;
    let x = xs[k];
    assert forall|kb: Seq<Key>| #[trigger] after.contains(kb) <==> ((kb == p && p.len() > 0) || exists|j: int|
        0 <= j < k + 1 && step_to(groups, free, xs[j], children_of(lists, xs[j]), p, kb)) by {
        if after.contains(kb) {
            let a = choose|a: int| 0 <= a < after.len() && after[a] == kb;
            if a < n {
                assert(before[a] == kb);
                assert(before.contains(kb));
            } else {
                assert(fv[a - n] == kb);
                assert(fv.contains(kb));
            }
        }
        if (kb == p && p.len() > 0) || exists|j: int| 0 <= j < k + 1 && step_to(groups, free, xs[j], children_of(lists, xs[j]), p, kb) {
            if (kb == p && p.len() > 0) || exists|j: int| 0 <= j < k && step_to(groups, free, xs[j], children_of(lists, xs[j]), p, kb) {
                assert(before.contains(kb));
                let a = choose|a: int| 0 <= a < before.len() && before[a] == kb;
                assert(after[a] == kb);
            } else {
                assert(fv.contains(kb));
                let v = choose|v: int| 0 <= v < fv.len() && fv[v] == kb;
                assert(after[n + v] == kb);
            }
        }
    }
    assert forall|a: int, b: int| 0 <= a < after.len() && 0 <= b < after.len() && a != b implies after[a] != after[b] by {
        if a < n && b < n {
            assert(after[a] == before[a] && after[b] == before[b]);
        } else if a >= n && b >= n {
            assert(after[a] == fv[a - n] && after[b] == fv[b - n]);
        } else {
            let (u, w) = if a < n { (a, b) } else { (b, a) };
            assert(after[u] == before[u]);
            assert(after[w] == fv[w - n]);
            assert(fv.contains(after[w]));
            assert(before.contains(before[u]));
            if after[u] == after[w] {
                let z = after[w];
                assert(step_to(groups, free, x, children_of(lists, x), p, z));
                lemma_step_to_shape(groups, free, x, children_of(lists, x), p, z);
                if !(z == p && p.len() > 0) {
                    let j = choose|j: int| 0 <= j < k && step_to(groups, free, xs[j], children_of(lists, xs[j]), p, z);
                    lemma_step_to_shape(groups, free, xs[j], children_of(lists, xs[j]), p, z);
                    assert(xs[j] != xs[k]);
                }
            }
        }
    }
}

/// Once every next size is tried, `searched_so_far` is `searched`.
#[verifier::spinoff_prover]
proof fn lemma_searched_done(
    groups: Set<Set<u32>>,
    free: Set<u32>,
    lists: Seq<Seq<u32>>,
    p: Seq<Key>,
    xs: Seq<u32>,
    rv: Seq<Seq<Key>>,
)
    requires
        all_allowed(groups, p),
        forall|x: u32| starts_some(lists, x) <==> xs.contains(x),
        searched_so_far(groups, free, lists, p, xs, xs.len() as int, rv),
    ensures
        forall|kb: Seq<Key>| #[trigger] rv.contains(kb) <==> searched(groups, free, lists, p, kb),
        rv.no_duplicates(),
{
    reveal(searched_so_far);
    reveal(step_to);
    assert forall|kb: Seq<Key>| #[trigger] rv.contains(kb) <==> searched(groups, free, lists, p, kb) by {
        if kb.len() <= p.len() {
            lemma_searched_self(groups, free, lists, p, kb);
            if rv.contains(kb) && !(kb == p && p.len() > 0) {
                let j = choose|j: int| 0 <= j < xs.len() && step_to(groups, free, xs[j], children_of(lists, xs[j]), p, kb);
            }
        } else if kb.take(p.len() as int) == p {
            let x = kb[p.len() as int]@.len();
            lemma_key_len_bound(kb[p.len() as int]);
            lemma_expand(groups, free, lists, p, kb, x as u32);
            if searched(groups, free, lists, p, kb) {
                assert(xs.contains(x as u32));
                let j = choose|j: int| 0 <= j < xs.len() && xs[j] == x as u32;
                assert(step_to(groups, free, xs[j], children_of(lists, xs[j]), p, kb));
            }
            if rv.contains(kb) {
                let j = choose|j: int| 0 <= j < xs.len() && step_to(groups, free, xs[j], children_of(lists, xs[j]), p, kb);
                assert(xs.contains(xs[j]));
            }
        } else {
            if searched(groups, free, lists, p, kb) {
                lemma_searched_prefix(groups, free, lists, p, kb);
            }
            if rv.contains(kb) {
                let j = choose|j: int| 0 <= j < xs.len() && step_to(groups, free, xs[j], children_of(lists, xs[j]), p, kb);
            }
        }
    }
}

impl Keyboard {
    /// The keyboards that go from this one through a next key of `x` letters
    /// (see `step_to`), the next key taking the smallest letter left.
    fn expand_with_size(&self, letters: Key, x: u32, sub: &KeySizesTree, prohibited: &Prohibited) -> (r: Vec<Keyboard>)
        requires
            1 <= x <= letters@.len(),
            lists_fit(lists_view(sub.0@), (letters@.len() - x) as nat),
            letters@.disjoint(letters_of(self@)),
        ensures
            forall|kb: Seq<Key>| #[trigger] kb_views(r@).contains(kb) <==> step_to(prohibited.groups(), letters@, x, lists_view(sub.0@), self@, kb),
            kb_views(r@).no_duplicates(),
        decreases letters@.len(), 0nat,
    {
        let ghost groups = prohibited.groups();
        let ghost p = self@;
        let ghost children = lists_view(sub.0@);
        proof {
            letters.lemma_items();
        }
        letters.lemma_letters_in_alphabet();
        let low = letters.min_letter().unwrap();
        let rest = letters.remove(low);
        proof {
            lemma_bottom_letter(letters);
            rest.lemma_items();
        }
        let others = subsets_including_top(rest, (x - 1) as u8);
        let ghost l = low.index();
        let ghost opts = others@.map_values(|o: Key| o@);
        proof {
            assert forall|a: int| 0 <= a < opts.len() implies #[trigger] opts[a].subset_of(rest@) && is_pick(opts[a], rest@, (x - 1) as nat) by {
                assert(is_pick(others@[a]@, rest@, (x - 1) as nat));
            }
            assert forall|a: int, b: int| 0 <= a < b < opts.len() implies opts[a] != opts[b] by {
                assert(others@[a]@ != others@[b]@);
            }
            assert forall|s: Set<u32>| #[trigger] is_pick(s, rest@, (x - 1) as nat) implies opts.contains(s) by {
                let i = choose|i: int| 0 <= i < others@.len() && others@[i]@ == s;
                assert(opts[i] == s);
            }
            assert(kb_views(Seq::<Keyboard>::empty()) =~= Seq::<Seq<Key>>::empty());
            lemma_expand_start(groups, letters@, x, children, p, l, opts);
        }
        let mut result: Vec<Keyboard> = Vec::new();
        let mut t: usize = 0;
        while t < others.len()
            invariant
                1 <= x <= letters@.len(),
                lists_fit(children, (letters@.len() - x) as nat),
                children == lists_view(sub.0@),
                letters@.disjoint(letters_of(p)),
                p == self@,
                groups == prohibited.groups(),
                l == low.index(),
                l == bottom_letter(letters@),
                letters@.contains(l),
                rest@ == letters@.remove(l),
                letters@.finite(),
                t <= others@.len(),
                opts == others@.map_values(|o: Key| o@),
                forall|a: int| 0 <= a < opts.len() ==> #[trigger] opts[a].subset_of(rest@) && is_pick(opts[a], rest@, (x - 1) as nat),
                forall|a: int, b: int| 0 <= a < b < opts.len() ==> opts[a] != opts[b],
                forall|s: Set<u32>| #[trigger] is_pick(s, rest@, (x - 1) as nat) ==> opts.contains(s),
                expanded_so_far(groups, letters@, x, children, p, l, opts, t as int, kb_views(result@)),
            decreases others@.len() - t,
        {
            let key = others[t].add(low);
            let remaining = letters.except(key);
            proof {
                assert(opts[t as int] == others@[t as int]@);
                assert(others@[t as int]@.subset_of(rest@));
                assert(!others@[t as int]@.contains(l));
                assert(is_pick(opts[t as int], rest@, (x - 1) as nat));
                assert(key@.len() == x);
                assert(key@.subset_of(letters@));
                vstd::set_lib::lemma_set_difference_len(letters@, key@);
                assert(letters@.intersect(key@) =~= key@);
                assert(key@.disjoint(letters_of(p)));
            }
            let kb = self.add_key(key);
            proof {
                assert(kb@.drop_last() =~= p);
                assert(letters_of(kb@) == letters_of(p).union(key@));
                assert(remaining@.disjoint(letters_of(kb@)));
                assert(kb@ == p.push(key));
            }
            let found = kb.with_dfs_util(remaining, sub.duplicate(), prohibited);
            let ghost before = kb_views(result@);
            append_keyboards(&mut result, found);
            proof {
                lemma_expand_step(groups, letters@, x, children, p, l, rest@, opts, t as int, key, before, kb_views(found@));
            }
            t = t + 1;
        }
        proof {
            lemma_expand_done(groups, letters@, x, children, p, l, rest@, opts, kb_views(result@));
        }
        result
    }

    /// Every keyboard the search reaches from this one (see `searched`): the
    /// keyboard itself when it has keys, and, unless one of its keys holds a
    /// prohibited group or no key sizes are left, the keyboards reached by
    /// adding each possible next key. Each keyboard comes once.
    pub fn with_dfs_util(self, letters: Key, key_sizes: KeySizesTree, prohibited: &Prohibited) -> (r: Vec<Keyboard>)
        requires
            lists_fit(lists_view(key_sizes.0@), letters@.len()),
            letters@.disjoint(letters_of(self@)),
        ensures
            forall|kb: Seq<Key>| #[trigger] kb_views(r@).contains(kb) <==> searched(prohibited.groups(), letters@, lists_view(key_sizes.0@), self@, kb),
            kb_views(r@).no_duplicates(),
        decreases letters@.len(), 1nat,
    {
        let ghost groups = prohibited.groups();
        let ghost p = self@;
        let ghost lists = lists_view(key_sizes.0@);
        let pruned = self.has_prohibited_keys(prohibited);
        let mut result: Vec<Keyboard> = Vec::new();
        if self.len() > 0 {
            result.push(self.clone());
        }
        proof {
            assert(pruned == !all_allowed(groups, p));
            assert(kb_views(result@) =~= if p.len() > 0 { seq![p] } else { Seq::<Seq<Key>>::empty() });
        }
        if pruned || key_sizes.is_empty() {
            proof {
                if !pruned {
                    assert forall|i: int| 0 <= i < lists.len() implies #[trigger] lists[i].len() == 0 by {
                        if lists[i].len() > 0 {
                            assert(lists[i][0] >= 1);
                            assert(key_sizes.0@[i]@[0] == 0);
                        }
                    }
                }
                lemma_stop_result(groups, letters@, lists, p, kb_views(result@));
            }
            return result;
        }
        let pairs = key_sizes.next();
        let ghost xs = pairs@.map_values(|e: (u32, KeySizesTree)| e.0);
        proof {
            lemma_searched_start(groups, letters@, lists, p, xs, kb_views(result@));
            assert forall|x: u32| starts_some(lists, x) <==> xs.contains(x) by {
                if starts_some(lists, x) {
                    let j = choose|j: int| 0 <= j < pairs@.len() && (#[trigger] pairs@[j]).0 == x;
                    assert(xs[j] == x);
                }
                if xs.contains(x) {
                    let j = choose|j: int| 0 <= j < xs.len() && xs[j] == x;
                    assert(pairs@[j].0 == x);
                }
            }
            assert forall|i: int, j: int| 0 <= i < j < xs.len() implies xs[i] != xs[j] by {
                assert(pairs@[i].0 != pairs@[j].0);
            }
        }
        let mut k: usize = 0;
        while k < pairs.len()
            invariant
                lists_fit(lists, letters@.len()),
                letters@.disjoint(letters_of(p)),
                p == self@,
                groups == prohibited.groups(),
                all_allowed(groups, p),
                k <= pairs@.len(),
                xs == pairs@.map_values(|e: (u32, KeySizesTree)| e.0),
                forall|x: u32| starts_some(lists, x) <==> xs.contains(x),
                forall|i: int, j: int| 0 <= i < j < xs.len() ==> xs[i] != xs[j],
                forall|x: u32| starts_some(lists, x) <==> exists|j: int| 0 <= j < pairs@.len() && (#[trigger] pairs@[j]).0 == x,
                forall|j: int| 0 <= j < pairs@.len() ==> lists_view((#[trigger] pairs@[j]).1.0@) == children_of(lists, pairs@[j].0),
                searched_so_far(groups, letters@, lists, p, xs, k as int, kb_views(result@)),
            decreases pairs@.len() - k,
        {
            let x = pairs[k].0;
            proof {
                assert(xs[k as int] == x);
                assert(starts_some(lists, x));
                let i = choose|i: int| 0 <= i < lists.len() && lists[i].len() > 0 && #[trigger] lists[i][0] == x;
                lemma_element_below_sum(lists[i], 0);
                lemma_children_fit(lists, letters@.len(), x);
            }
            let found = self.expand_with_size(letters, x, &pairs[k].1, prohibited);
            let ghost before = kb_views(result@);
            append_keyboards(&mut result, found);
            proof {
                lemma_searched_step(groups, letters@, lists, p, xs, k as int, before, kb_views(found@));
            }
            k = k + 1;
        }
        proof {
            lemma_searched_done(groups, letters@, lists, p, xs, kb_views(result@));
        }
        result
    }
}

proof fn lemma_key_len_bound(k: Key)
    ensures
        k@.len() <= 32,
{
    k.lemma_items();
}

/// Removing an element takes it out of the sum.
proof fn lemma_sum_remove(t: Seq<u32>, i: int)
    requires
        0 <= i < t.len(),
    ensures
        seq_sum(t) == seq_sum(t.remove(i)) + t[i],
    decreases t.len(),
{
    if i == t.len() - 1 {
        assert(t.remove(i) =~= t.drop_last());
    } else {
        lemma_sum_remove(t.drop_last(), i);
        assert(t.remove(i).drop_last() =~= t.drop_last().remove(i));
        assert(t.remove(i).last() == t.last());
    }
}

/// Removing an element takes one occurrence of it away.
proof fn lemma_occurrences_remove(t: Seq<u32>, i: int, x: u32)
    requires
        0 <= i < t.len(),
    ensures
        occurrences(t, x) == occurrences(t.remove(i), x) + if t[i] == x {
            1nat
        } else {
            0nat
        },
    decreases t.len(),
{
    if i == t.len() - 1 {
        assert(t.remove(i) =~= t.drop_last());
    } else {
        lemma_occurrences_remove(t.drop_last(), i, x);
        assert(t.remove(i).drop_last() =~= t.drop_last().remove(i));
        assert(t.remove(i).last() == t.last());
    }
}

/// An element that occurs is at some position.
proof fn lemma_occurs_at(t: Seq<u32>, x: u32)
    requires
        occurrences(t, x) > 0,
    ensures
        exists|i: int| 0 <= i < t.len() && t[i] == x,
    decreases t.len(),
{
    if t.last() != x {
        lemma_occurs_at(t.drop_last(), x);
        let i = choose|i: int| 0 <= i < t.drop_last().len() && t.drop_last()[i] == x;
        assert(t[i] == x);
    } else {
        assert(t[t.len() - 1] == x);
    }
}

/// Two orderings of the same numbers have the same sum.
pub proof fn lemma_reorder_sum(s: Seq<u32>, t: Seq<u32>)
    requires
        forall|x: u32| #[trigger] occurrences(s, x) == occurrences(t, x),
    ensures
        seq_sum(s) == seq_sum(t),
    decreases s.len(),
{
    if s.len() == 0 {
        if t.len() > 0 {
            assert(occurrences(t, t.last()) > 0);
            assert(occurrences(s, t.last()) == 0);
        }
    } else {
        let y = s.last();
        let p = s.drop_last();
        assert(s == p.push(y));
        lemma_occurrences_push(p, y, y);
        assert(occurrences(t, y) > 0);
        lemma_occurs_at(t, y);
        let i = choose|i: int| 0 <= i < t.len() && t[i] == y;
        let t2 = t.remove(i);
        assert forall|x: u32| #[trigger] occurrences(p, x) == occurrences(t2, x) by {
            lemma_occurrences_push(p, y, x);
            lemma_occurrences_remove(t, i, x);
        }
        lemma_reorder_sum(p, t2);
        lemma_sum_remove(t, i);
    }
}

/// A number of an ordering occurs in what it orders.
proof fn lemma_reorder_member(s: Seq<u32>, t: Seq<u32>, i: int)
    requires
        forall|x: u32| #[trigger] occurrences(s, x) == occurrences(t, x),
        0 <= i < s.len(),
    ensures
        exists|j: int| 0 <= j < t.len() && t[j] == s[i],
{
    lemma_occurrences_positive(s, i);
    assert(occurrences(t, s[i]) > 0);
    lemma_occurs_at(t, s[i]);
}

proof fn lemma_occurrences_positive(s: Seq<u32>, i: int)
    requires
        0 <= i < s.len(),
    ensures
        occurrences(s, s[i]) > 0,
    decreases s.len(),
{
    if i < s.len() - 1 {
        lemma_occurrences_positive(s.drop_last(), i);
        assert(s.drop_last()[i] == s[i]);
    }
}

/// The lists are every order of every collection of key sizes that `p`
/// allows.
pub open spec fn size_orders(p: Partitions, lists: Seq<Seq<u32>>) -> bool {
    forall|s: Seq<u32>| (exists|part: Seq<u32>| is_partition(p, Goal::Combinations, part) && #[trigger] reorders(s, part))
        <==> lists.contains(s)
}

impl Keyboard {
    /// Every keyboard of `letters` that the search reaches, adding keys one at
    /// a time with sizes in any order of a collection that `key_sizes` allows
    /// (see `searched`): intermediate keyboards too, and a keyboard with a
    /// prohibited group ends its branch. The letters must number the sum, and
    /// no collection may hold a size of zero.
    pub fn with_dfs(letters: Key, key_sizes: &Partitions, prohibited: &Prohibited) -> (r: Vec<Keyboard>)
        requires
            letters@.len() == key_sizes.sum,
            key_sizes.sum == 0 || key_sizes.parts == 1 || solvable(*key_sizes),
            forall|s: Seq<u32>, i: int| is_partition(*key_sizes, Goal::Combinations, s) && 0 <= i < s.len() ==> #[trigger] s[i] >= 1,
        ensures
            exists|lists: Seq<Seq<u32>>|
                #[trigger] size_orders(*key_sizes, lists) && forall|kb: Seq<Key>| #[trigger] kb_views(r@).contains(kb) <==> searched(
                    prohibited.groups(),
                    letters@,
                    lists,
                    Seq::empty(),
                    kb,
                ),
            kb_views(r@).no_duplicates(),
    {
        let tree = KeySizesTree::new(key_sizes);
        let ghost lists = lists_view(tree.0@);
        proof {
            assert forall|i: int| 0 <= i < lists.len() implies seq_sum(#[trigger] lists[i]) == letters@.len() && forall|j: int|
                0 <= j < lists[i].len() ==> lists[i][j] >= 1 by {
                assert(lists.contains(lists[i]));
                let part = choose|part: Seq<u32>| is_partition(*key_sizes, Goal::Combinations, part) && #[trigger] reorders(lists[i], part);
                lemma_reorder_sum(lists[i], part);
                if key_sizes.parts == 1 {
                    assert(part.drop_last().len() == 0);
                    assert(seq_sum(part.drop_last()) == 0);
                }
                assert forall|j: int| 0 <= j < lists[i].len() implies lists[i][j] >= 1 by {
                    lemma_reorder_member(lists[i], part, j);
                    let m = choose|m: int| 0 <= m < part.len() && part[m] == lists[i][j];
                    assert(part[m] >= 1);
                }
            }
        }
        let start = Keyboard::empty();
        proof {
            assert(letters_of(start@) =~= Set::<u32>::empty()) by {
                assert forall|l: u32| !letters_of(start@).contains(l) by {
                    lemma_letters_of(start@, l);
                }
            }
        }
        let r = start.with_dfs_util(letters, tree, prohibited);
        proof {
            assert(start@ == Seq::<Key>::empty());
            assert(size_orders(*key_sizes, lists));
        }
        r
    }
}

/// A next key for the search from `free` with size lists `lists`: a size
/// that starts a list, the smallest free letter, and the rest of its letters
/// free.
pub open spec fn next_key(free: Set<u32>, lists: Seq<Seq<u32>>, k: Key) -> bool {
    &&& k@.len() <= u32::MAX
    &&& starts_some(lists, k@.len() as u32)
    &&& k@.subset_of(free)
    &&& k@.contains(bottom_letter(free))
}

/// One step of the search from `kb0`: the keyboard with one more key, the
/// letters still free, and the size lists for what is left.
pub open spec fn is_step(free: Set<u32>, lists: Seq<Seq<u32>>, kb0: Seq<Key>, step: (Keyboard, Key, KeySizesTree)) -> bool {
    let k = step.0@.last();
    &&& step.0@.len() == kb0.len() + 1
    &&& step.0@.drop_last() == kb0
    &&& next_key(free, lists, k)
    &&& step.1@ == free.difference(k@)
    &&& lists_view(step.2.0@) == children_of(lists, k@.len() as u32)
}

/// A step, with size lists that fit the letters left and no letter both on
/// the keyboard and left.
#[verifier::opaque]
pub open spec fn good_step(free: Set<u32>, lists: Seq<Seq<u32>>, kb0: Seq<Key>, step: (Keyboard, Key, KeySizesTree)) -> bool {
    &&& is_step(free, lists, kb0, step)
    &&& lists_fit(lists_view(step.2.0@), step.1@.len())
    &&& step.1@.disjoint(letters_of(step.0@))
}

/// The step through key `key` is a good step.
proof fn lemma_good_step(free: Set<u32>, lists: Seq<Seq<u32>>, kb0: Seq<Key>, step: (Keyboard, Key, KeySizesTree), key: Key, x: u32)
    requires
        step.0@ == kb0.push(key),
        key@.len() == x,
        starts_some(lists, x),
        key@.subset_of(free),
        key@.contains(bottom_letter(free)),
        step.1@ == free.difference(key@),
        lists_view(step.2.0@) == children_of(lists, x),
        lists_fit(children_of(lists, x), (free.len() - x) as nat),
        free.finite(),
        free.disjoint(letters_of(kb0)),
    ensures
        good_step(free, lists, kb0, step),
{
    reveal(good_step);
    assert(step.0@.drop_last() =~= kb0);
    assert(step.0@.last() == key);
    vstd::set_lib::lemma_set_difference_len(free, key@);
    assert(free.intersect(key@) =~= key@);
    assert(letters_of(step.0@) == letters_of(kb0).union(key@));
}

impl Keyboard {
    /// Every next step of the search from this keyboard (see `is_step`), each
    /// next key once; none when no size list has a size left. The loop that
    /// decides which steps to follow belongs to the caller.
    pub fn dfs_children(&self, letters: Key, key_sizes: KeySizesTree) -> (r: Vec<(Keyboard, Key, KeySizesTree)>)
        requires
            lists_fit(lists_view(key_sizes.0@), letters@.len()),
            letters@.disjoint(letters_of(self@)),
        ensures
            forall|i: int| 0 <= i < r@.len() ==> is_step(letters@, lists_view(key_sizes.0@), self@, #[trigger] r@[i]),
            forall|i: int| 0 <= i < r@.len() ==> lists_fit(lists_view((#[trigger] r@[i]).2.0@), r@[i].1@.len())
                && r@[i].1@.disjoint(letters_of(r@[i].0@)),
            forall|k: Key| #[trigger] next_key(letters@, lists_view(key_sizes.0@), k) ==> exists|i: int| 0 <= i < r@.len() && r@[i].0@.last() == k,
            forall|i: int, j: int| 0 <= i < j < r@.len() ==> r@[i].0@.last() != r@[j].0@.last(),
    {
        let ghost lists = lists_view(key_sizes.0@);
        let ghost p = self@;
        let mut result: Vec<(Keyboard, Key, KeySizesTree)> = Vec::new();
        if key_sizes.is_empty() {
            proof {
                assert forall|k: Key| #[trigger] next_key(letters@, lists, k) implies exists|i: int| 0 <= i < result@.len() && result@[i].0@.last() == k by {
                    let i = choose|i: int| 0 <= i < lists.len() && lists[i].len() > 0 && #[trigger] lists[i][0] == k@.len() as u32;
                    assert(lists[i][0] >= 1);
                    assert(key_sizes.0@[i]@[0] == 0);
                }
            }
            return result;
        }
        let pairs = key_sizes.next();
        proof {
            letters.lemma_items();
        }
        let mut j: usize = 0;
        while j < pairs.len()
            invariant
                lists_fit(lists, letters@.len()),
                letters@.disjoint(letters_of(p)),
                p == self@,
                letters@.finite(),
                j <= pairs@.len(),
                forall|x: u32| starts_some(lists, x) <==> exists|a: int| 0 <= a < pairs@.len() && (#[trigger] pairs@[a]).0 == x,
                forall|a: int, b: int| 0 <= a < b < pairs@.len() ==> pairs@[a].0 != pairs@[b].0,
                forall|a: int| 0 <= a < pairs@.len() ==> lists_view((#[trigger] pairs@[a]).1.0@) == children_of(lists, pairs@[a].0),
                forall|i: int| 0 <= i < result@.len() ==> good_step(letters@, lists, p, #[trigger] result@[i]),
                forall|k: Key| #[trigger] next_key(letters@, lists, k) && (exists|a: int| 0 <= a < j && pairs@[a].0 == k@.len())
                    ==> exists|i: int| 0 <= i < result@.len() && result@[i].0@.last() == k,
                forall|i: int| 0 <= i < result@.len() ==> exists|a: int| 0 <= a < j && pairs@[a].0 == (#[trigger] result@[i]).0@.last()@.len(),
                forall|i: int, b: int| 0 <= i < b < result@.len() ==> result@[i].0@.last() != result@[b].0@.last(),
            decreases pairs@.len() - j,
        {
            let x = pairs[j].0;
            proof {
                assert(starts_some(lists, x));
                let i = choose|i: int| 0 <= i < lists.len() && lists[i].len() > 0 && #[trigger] lists[i][0] == x;
                lemma_element_below_sum(lists[i], 0);
                lemma_children_fit(lists, letters@.len(), x);
            }
            letters.lemma_letters_in_alphabet();
            proof {
                letters.lemma_items();
            }
            let low = letters.min_letter().unwrap();
            let rest = letters.remove(low);
            proof {
                lemma_bottom_letter(letters);
                rest.lemma_items();
            }
            let others = subsets_including_top(rest, (x - 1) as u8);
            let ghost l = low.index();
            let ghost before = result@;
            let mut t: usize = 0;
            while t < others.len()
                invariant
                    lists_fit(lists, letters@.len()),
                    letters@.disjoint(letters_of(p)),
                    p == self@,
                    letters@.finite(),
                    j < pairs@.len(),
                    x == pairs@[j as int].0,
                    1 <= x <= letters@.len(),
                    lists_view(pairs@[j as int].1.0@) == children_of(lists, x),
                    lists_fit(children_of(lists, x), (letters@.len() - x) as nat),
                    starts_some(lists, x),
                    l == low.index(),
                    l == bottom_letter(letters@),
                    letters@.contains(l),
                    rest@ == letters@.remove(l),
                    forall|s: Set<u32>| #[trigger] is_pick(s, rest@, (x - 1) as nat) <==> exists|i: int|
                        0 <= i < others@.len() && others@[i]@ == s,
                    t <= others@.len(),
                    result@.len() == before.len() + t,
                    forall|i: int| 0 <= i < before.len() ==> result@[i] == before[i],
                    forall|i: int| 0 <= i < t ==> (#[trigger] result@[before.len() + i]).0@.last()@ == others@[i]@.insert(l),
                    forall|i: int| 0 <= i < result@.len() ==> good_step(letters@, lists, p, #[trigger] result@[i]),
                decreases others@.len() - t,
            {
                let key = others[t].add(low);
                let remaining = letters.except(key);
                proof {
                    assert(is_pick(others@[t as int]@, rest@, (x - 1) as nat));
                    assert(!others@[t as int]@.contains(l));
                    assert(key@.len() == x);
                    assert(key@.subset_of(letters@));
                    vstd::set_lib::lemma_set_difference_len(letters@, key@);
                    assert(letters@.intersect(key@) =~= key@);
                    assert(key@.disjoint(letters_of(p)));
                }
                let kb = self.add_key(key);
                let sub = pairs[j].1.duplicate();
                proof {
                    assert(kb@.drop_last() =~= p);
                    assert(letters_of(kb@) == letters_of(p).union(key@));
                }
                let ghost mid = result@;
                let step = (kb, remaining, sub);
                proof {
                    lemma_good_step(letters@, lists, p, step, key, x);
                }
                result.push(step);
                proof {
                    assert(result@[result@.len() - 1] == step);
                    assert forall|i: int| 0 <= i < result@.len() implies good_step(letters@, lists, p, #[trigger] result@[i]) by {
                        if i < mid.len() {
                            assert(result@[i] == mid[i]);
                        }
                    }
                }
                t = t + 1;
            }
            proof {
                let n = before.len();
                assert forall|k: Key| #[trigger] next_key(letters@, lists, k) && (exists|a: int| 0 <= a < j + 1 && pairs@[a].0 == k@.len())
                    implies exists|i: int| 0 <= i < result@.len() && result@[i].0@.last() == k by {
                    let a = choose|a: int| 0 <= a < j + 1 && pairs@[a].0 == k@.len();
                    if a < j {
                        let i = choose|i: int| 0 <= i < before.len() && before[i].0@.last() == k;
                        assert(result@[i] == before[i]);
                    } else {
                        let q = k@.remove(l);
                        assert(q.subset_of(rest@));
                        assert(is_pick(q, rest@, (x - 1) as nat));
                        let c = choose|c: int| 0 <= c < others@.len() && others@[c]@ == q;
                        assert(q.insert(l) =~= k@);
                        assert(result@[n + c].0@.last()@ == k@);
                        Key::lemma_view_injective(result@[n + c].0@.last(), k);
                    }
                }
                assert forall|i: int| 0 <= i < result@.len() implies exists|a: int| 0 <= a < j + 1 && pairs@[a].0 == (#[trigger] result@[i]).0@.last()@.len() by {
                    if i < n {
                        assert(result@[i] == before[i]);
                        let a = choose|a: int| 0 <= a < j && pairs@[a].0 == before[i].0@.last()@.len();
                    } else {
                        assert(is_pick(others@[i - n]@, rest@, (x - 1) as nat));
                        assert(result@[n + (i - n)].0@.last()@ == others@[i - n]@.insert(l));
                    }
                }
                assert forall|i: int, b: int| 0 <= i < b < result@.len() implies result@[i].0@.last() != result@[b].0@.last() by {
                    if b < n {
                        assert(result@[i] == before[i] && result@[b] == before[b]);
                    } else if i < n {
                        assert(result@[i] == before[i]);
                        let a = choose|a: int| 0 <= a < j && pairs@[a].0 == before[i].0@.last()@.len();
                        assert(is_pick(others@[b - n]@, rest@, (x - 1) as nat));
                        assert(result@[n + (b - n)].0@.last()@ == others@[b - n]@.insert(l));
                        assert(result@[b].0@.last()@.len() == x);
                        assert(pairs@[a].0 != pairs@[j as int].0);
                    } else {
                        assert(result@[n + (i - n)].0@.last()@ == others@[i - n]@.insert(l));
                        assert(result@[n + (b - n)].0@.last()@ == others@[b - n]@.insert(l));
                        assert(is_pick(others@[i - n]@, rest@, (x - 1) as nat));
                        assert(is_pick(others@[b - n]@, rest@, (x - 1) as nat));
                        if result@[i].0@.last() == result@[b].0@.last() {
                            assert(others@[i - n]@ =~= result@[i].0@.last()@.remove(l));
                            assert(others@[b - n]@ =~= result@[b].0@.last()@.remove(l));
                        }
                    }
                }
            }
            j = j + 1;
        }
        proof {
            assert forall|k: Key| #[trigger] next_key(letters@, lists, k) implies exists|i: int| 0 <= i < result@.len() && result@[i].0@.last() == k by {
                let a = choose|a: int| 0 <= a < pairs@.len() && (#[trigger] pairs@[a]).0 == k@.len() as u32;
            }
            reveal(good_step);
        }
        result
    }
}

/// The ways to place `letter` in a search that keeps at most ten keys: for
/// each of the first nine keys (or fewer), the keys with the letter added to
/// that key, or `None` where that key would then hold a prohibited group;
/// and, while there are at most nine keys, last, the keys with a new key of
/// the letter alone.
pub fn place_letter(keys: &Vec<Key>, letter: Letter, prohibited: &Prohibited) -> (r: Vec<Option<Vec<Key>>>)
    ensures
        r@.len() == (if keys@.len() < 9 { keys@.len() as int } else { 9 }) + 1,
        forall|i: int|
            0 <= i < r@.len() && i < keys@.len() ==> ((#[trigger] r@[i]) is Some <==> allows(
                prohibited.groups(),
                keys@[i]@.insert(letter.index()),
            )) && (r@[i] matches Some(v) ==> v@.len() == keys@.len() && v@[i]@ == keys@[i]@.insert(letter.index())
                && forall|j: int| 0 <= j < keys@.len() && j != i ==> v@[j] == keys@[j]),
        keys@.len() <= 9 ==> (r@[keys@.len() as int] matches Some(v) && v@.drop_last() == keys@ && v@.last()@ == set![
            letter.index(),
        ]),
{
    let n = keys.len();
    let last: usize = if n < 9 {
        n
    } else {
        9
    };
    let mut r: Vec<Option<Vec<Key>>> = Vec::new();
    let mut i: usize = 0;
    while i <= last
        invariant
            n == keys@.len(),
            last == (if n < 9 { n } else { 9 }),
            i <= last + 1,
            r@.len() == i,
            forall|k: int|
                0 <= k < i && k < n ==> ((#[trigger] r@[k]) is Some <==> allows(
                    prohibited.groups(),
                    keys@[k]@.insert(letter.index()),
                )) && (r@[k] matches Some(v) ==> v@.len() == n && v@[k]@ == keys@[k]@.insert(letter.index())
                    && forall|j: int| 0 <= j < n && j != k ==> v@[j] == keys@[j]),
            n <= 9 && n < i ==> (r@[n as int] matches Some(v) && v@.drop_last() == keys@ && v@.last()@ == set![
                letter.index(),
            ]),
        decreases last + 1 - i,
    {
        let ghost before = r@;
        if i == n {
            let mut v = keys.clone();
            proof {
                assert(v@ =~= keys@);
            }
            v.push(Key::with_one_letter(letter));
            proof {
                assert(v@.drop_last() =~= keys@);
            }
            r.push(Some(v));
        } else {
            let key = keys[i].add(letter);
            if key.is_prohibited(prohibited) {
                r.push(None);
            } else {
                let mut v = keys.clone();
                proof {
                    assert(v@ =~= keys@);
                }
                v.set(i, key);
                r.push(Some(v));
            }
        }
        proof {
            assert forall|k: int| 0 <= k < i && k < n implies #[trigger] r@[k] == before[k] by {}
        }
        i = i + 1;
    }
    r
}

} // verus!
