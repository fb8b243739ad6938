use vstd::prelude::*;

use vstd::relations::{sorted_by, total_ordering};

use crate::key::Key;
use crate::keyboard::{key_text, sorted_by_text, text_le};
use crate::letter::letter_char;

verus! {

/// The two texts agree before position `i`.
proof fn lemma_take_agrees(a: Seq<char>, b: Seq<char>, i: int, k: int)
    requires
        0 <= k < i <= a.len(),
        i <= b.len(),
        a.take(i) =~= b.take(i),
    ensures
        a[k] == b[k],
{
    assert(a.take(i)[k] == a[k]);
    assert(b.take(i)[k] == b[k]);
}

/// `a` comes before `b` at position `i`.
proof fn lemma_before_at(a: Seq<char>, b: Seq<char>, i: int)
    requires
        0 <= i < a.len(),
        i < b.len(),
        forall|k: int| 0 <= k < i ==> a[k] == b[k],
        a[i] < b[i],
    ensures
        text_le(a, b),
{
    assert(a.take(i) =~= b.take(i));
}

/// `a` starts `b`.
proof fn lemma_starts(a: Seq<char>, b: Seq<char>)
    requires
        a.len() <= b.len(),
        forall|k: int| 0 <= k < a.len() ==> a[k] == b[k],
    ensures
        text_le(a, b),
{
    assert(a =~= b.subrange(0, a.len() as int));
}

/// Two texts each no later than the other are the same text.
pub proof fn lemma_text_le_antisymmetric(a: Seq<char>, b: Seq<char>)
    requires
        text_le(a, b),
        text_le(b, a),
    ensures
        a == b,
{
    if a.is_prefix_of(b) {
        if b.is_prefix_of(a) {
            assert(a =~= b);
        } else {
            let j = choose|j: int| 0 <= j < b.len() && j < a.len() && b.take(j) =~= a.take(j) && b[j] < a[j];
            assert(b.subrange(0, a.len() as int)[j] == b[j]);
        }
    } else {
        let i = choose|i: int| 0 <= i < a.len() && i < b.len() && a.take(i) =~= b.take(i) && a[i] < b[i];
        if b.is_prefix_of(a) {
            assert(a.subrange(0, b.len() as int)[i] == a[i]);
        } else {
            let j = choose|j: int| 0 <= j < b.len() && j < a.len() && b.take(j) =~= a.take(j) && b[j] < a[j];
            if i < j {
                lemma_take_agrees(a, b, j, i);
            } else if j < i {
                lemma_take_agrees(a, b, i, j);
            }
        }
    }
}

/// The order of texts is transitive.
pub proof fn lemma_text_le_transitive(a: Seq<char>, b: Seq<char>, c: Seq<char>)
    requires
        text_le(a, b),
        text_le(b, c),
    ensures
        text_le(a, c),
{
    if a.is_prefix_of(b) {
        assert(forall|k: int| 0 <= k < a.len() ==> #[trigger] a[k] == b.subrange(0, a.len() as int)[k]);
        if b.is_prefix_of(c) {
            assert(forall|k: int| 0 <= k < b.len() ==> #[trigger] b[k] == c.subrange(0, b.len() as int)[k]);
            lemma_starts(a, c);
        } else {
            let j = choose|j: int| 0 <= j < b.len() && j < c.len() && b.take(j) =~= c.take(j) && b[j] < c[j];
            assert forall|k: int| 0 <= k < j && k < a.len() implies a[k] == c[k] by {
                lemma_take_agrees(b, c, j, k);
            }
            if j < a.len() {
                lemma_before_at(a, c, j);
            } else {
                lemma_starts(a, c);
            }
        }
    } else {
        let i = choose|i: int| 0 <= i < a.len() && i < b.len() && a.take(i) =~= b.take(i) && a[i] < b[i];
        assert forall|k: int| 0 <= k < i implies a[k] == b[k] by {
            lemma_take_agrees(a, b, i, k);
        }
        if b.is_prefix_of(c) {
            assert(forall|k: int| 0 <= k < b.len() ==> #[trigger] b[k] == c.subrange(0, b.len() as int)[k]);
            lemma_before_at(a, c, i);
        } else {
            let j = choose|j: int| 0 <= j < b.len() && j < c.len() && b.take(j) =~= c.take(j) && b[j] < c[j];
            assert forall|k: int| 0 <= k < j implies b[k] == c[k] by {
                lemma_take_agrees(b, c, j, k);
            }
            if i <= j {
                lemma_before_at(a, c, i);
            } else {
                lemma_before_at(a, c, j);
            }
        }
    }
}

/// Of two texts, one comes no later than the other.
pub proof fn lemma_text_le_total(a: Seq<char>, b: Seq<char>)
    ensures
        text_le(a, b) || text_le(b, a),
    decreases a.len(),
{
    if a.len() == 0 {
        lemma_starts(a, b);
    } else if b.len() == 0 {
        lemma_starts(b, a);
    } else if a[0] != b[0] {
        if a[0] < b[0] {
            lemma_before_at(a, b, 0);
        } else {
            lemma_before_at(b, a, 0);
        }
    } else {
        let a1 = a.drop_first();
        let b1 = b.drop_first();
        lemma_text_le_total(a1, b1);
        if text_le(a1, b1) {
            lemma_lift(a, b);
        } else {
            lemma_lift(b, a);
        }
    }
}

/// Texts with the same first character are in the order of their rests.
proof fn lemma_lift(a: Seq<char>, b: Seq<char>)
    requires
        a.len() > 0,
        b.len() > 0,
        a[0] == b[0],
        text_le(a.drop_first(), b.drop_first()),
    ensures
        text_le(a, b),
{
    let a1 = a.drop_first();
    let b1 = b.drop_first();
    if a1.is_prefix_of(b1) {
        assert forall|k: int| 0 <= k < a.len() implies a[k] == b[k] by {
            if k > 0 {
                assert(a[k] == a1[k - 1]);
                assert(a1[k - 1] == b1.subrange(0, a1.len() as int)[k - 1]);
            }
        }
        lemma_starts(a, b);
    } else {
        let i = choose|i: int| 0 <= i < a1.len() && i < b1.len() && a1.take(i) =~= b1.take(i) && a1[i] < b1[i];
        assert forall|k: int| 0 <= k < i + 1 implies a[k] == b[k] by {
            if k > 0 {
                lemma_take_agrees(a1, b1, i, k - 1);
            }
        }
        lemma_before_at(a, b, i + 1);
    }
}

/// Every letter of the key is a letter of the alphabet.
pub open spec fn valid_key(k: Key) -> bool {
    forall|i: u32| #[trigger] k@.contains(i) ==> i < 27
}

/// Keys in the order of their texts; keys with the same text (which only keys
/// outside the alphabet can share) in the order of their numbers.
pub open spec fn key_le(x: Key, y: Key) -> bool {
    if key_text(x) == key_text(y) {
        x.bits() <= y.bits()
    } else {
        text_le(key_text(x), key_text(y))
    }
}

/// The order of keys is a total order.
pub proof fn lemma_key_le_total_ordering()
    ensures
        total_ordering(|x: Key, y: Key| key_le(x, y)),
{
    let leq = |x: Key, y: Key| key_le(x, y);
    assert forall|x: Key| #[trigger] leq(x, x) by {}
    assert forall|x: Key, y: Key| #[trigger] leq(x, y) && #[trigger] leq(y, x) implies x == y by {
        if key_text(x) == key_text(y) {
            Key::lemma_bits_injective(x, y);
        } else {
            lemma_text_le_antisymmetric(key_text(x), key_text(y));
        }
    }
    assert forall|x: Key, y: Key, z: Key| #[trigger] leq(x, y) && #[trigger] leq(y, z) implies leq(x, z) by {
        let (tx, ty, tz) = (key_text(x), key_text(y), key_text(z));
        if tx == ty && ty == tz {
        } else if tx == ty {
        } else if ty == tz {
        } else if tx == tz {
            lemma_text_le_antisymmetric(tx, ty);
        } else {
            lemma_text_le_transitive(tx, ty, tz);
        }
    }
    assert forall|x: Key, y: Key| #[trigger] leq(x, y) || #[trigger] leq(y, x) by {
        lemma_text_le_total(key_text(x), key_text(y));
    }
}

/// Letters of the alphabet have different characters.
proof fn lemma_letter_char_injective(i: u32, j: u32)
    requires
        i < 27,
        j < 27,
        letter_char(i) == letter_char(j),
    ensures
        i == j,
{
    if i < 26 && j < 26 {
        assert((('a' as u32 + i) as char) as u32 == 'a' as u32 + i);
        assert((('a' as u32 + j) as char) as u32 == 'a' as u32 + j);
    } else if i < 26 {
        assert((('a' as u32 + i) as char) as u32 == 'a' as u32 + i);
    } else if j < 26 {
        assert((('a' as u32 + j) as char) as u32 == 'a' as u32 + j);
    }
}

/// Keys of the alphabet with the same text are the same key.
pub proof fn lemma_key_text_injective(x: Key, y: Key)
    requires
        valid_key(x),
        valid_key(y),
        key_text(x) == key_text(y),
    ensures
        x == y,
{
    x.lemma_items();
    y.lemma_items();
    let sx = x.items();
    let sy = y.items();
    assert(key_text(x).len() == sx.len());
    assert(key_text(y).len() == sy.len());
    assert forall|t: int| 0 <= t < sx.len() implies sx[t] == sy[t] by {
        assert(key_text(x)[t] == letter_char(sx[t]));
        assert(key_text(y)[t] == letter_char(sy[t]));
        assert(sx.contains(sx[t]));
        assert(sy.contains(sy[t]));
        assert(x@.contains(sx[t]));
        assert(y@.contains(sy[t]));
        lemma_letter_char_injective(sx[t], sy[t]);
    }
    assert(sx =~= sy);
    Key::lemma_view_injective(x, y);
}

/// Keys of the alphabet in the order of their texts are in `key_le` order,
/// any two of them and not only neighbours.
pub proof fn lemma_sorted_by_key_le(n: Seq<Key>)
    requires
        sorted_by_text(n),
        forall|t: int| 0 <= t < n.len() ==> valid_key(#[trigger] n[t]),
    ensures
        sorted_by(n, |x: Key, y: Key| key_le(x, y)),
    decreases n.len(),
{
    let leq = |x: Key, y: Key| key_le(x, y);
    lemma_key_le_total_ordering();
    if n.len() > 1 {
        let m = n.drop_last();
        assert(sorted_by_text(m)) by {
            assert forall|i: int| 0 <= i < m.len() - 1 implies text_le(key_text(#[trigger] m[i]), key_text(m[i + 1])) by {
                assert(m[i] == n[i] && m[i + 1] == n[i + 1]);
                assert(text_le(key_text(n[i]), key_text(n[i + 1])));
            }
        }
        assert forall|t: int| 0 <= t < m.len() implies valid_key(#[trigger] m[t]) by {
            assert(m[t] == n[t]);
            assert(valid_key(n[t]));
        }
        lemma_sorted_by_key_le(m);
        let last = n.len() - 1;
        assert(key_le(n[last - 1], n[last])) by {
            assert(text_le(key_text(n[last - 1]), key_text(n[last])));
            assert(valid_key(n[last - 1]));
            assert(valid_key(n[last]));
            if key_text(n[last - 1]) == key_text(n[last]) {
                lemma_key_text_injective(n[last - 1], n[last]);
            }
        }
        assert forall|i: int, j: int| 0 <= i < j < n.len() implies #[trigger] leq(n[i], n[j]) by {
            if j < last {
                assert(m[i] == n[i] && m[j] == n[j]);
                assert(leq(m[i], m[j]));
            } else if i < last - 1 {
                assert(m[i] == n[i] && m[last - 1] == n[last - 1]);
                assert(leq(m[i], m[last - 1]));
                assert(leq(n[last - 1], n[last]));
            }
        }
    }
}

/// Keys of the alphabet have one order by their texts: two sorted
/// arrangements of the same keys are the same sequence.
pub proof fn lemma_sorted_keys_unique(l1: Seq<Key>, l2: Seq<Key>)
    requires
        sorted_by_text(l1),
        sorted_by_text(l2),
        l1.to_multiset() == l2.to_multiset(),
        forall|t: int| 0 <= t < l1.len() ==> valid_key(#[trigger] l1[t]),
    ensures
        l1 == l2,
{
    broadcast use vstd::seq_lib::group_to_multiset_ensures;

    assert forall|t: int| 0 <= t < l2.len() implies valid_key(#[trigger] l2[t]) by {
        assert(l2.contains(l2[t]));
        assert(l1.to_multiset().count(l2[t]) > 0);
        assert(l1.contains(l2[t]));
        let u = choose|u: int| 0 <= u < l1.len() && l1[u] == l2[t];
        assert(valid_key(l1[u]));
    }
    lemma_sorted_by_key_le(l1);
    lemma_sorted_by_key_le(l2);
    lemma_key_le_total_ordering();
    vstd::seq_lib::lemma_sorted_unique(l1, l2, |x: Key, y: Key| key_le(x, y));
}

} // verus!
