use vstd::prelude::*;
use vstd::string::StringExecFns;

use crate::key::{all_letters, char_indexes, letter_chars, Key};
use crate::text::push_char;
use crate::letter::{char_index, is_letter_char, Letter};
use crate::prohibited::{allows, Prohibited};
use crate::random::gen_range_below;
use crate::tally::Tally;

verus! {

/// No letter is on two keys.
pub open spec fn disjoint_keys(keys: Seq<Key>) -> bool {
    forall|i: int, j: int| 0 <= i < j < keys.len() ==> keys[i]@.disjoint(keys[j]@)
}

/// The letters on any of the keys.
pub open spec fn letters_of(keys: Seq<Key>) -> Set<u32>
    decreases keys.len(),
{
    if keys.len() == 0 {
        Set::empty()
    } else {
        letters_of(keys.drop_last()).union(keys.last()@)
    }
}

/// `o` names the key that holds letter `l`, or is `None` when no key holds it.
pub open spec fn locates(keys: Seq<Key>, l: u32, o: Option<usize>) -> bool {
    match o {
        Some(i) => i < keys.len() && keys[i as int]@.contains(l),
        None => forall|i: int| 0 <= i < keys.len() ==> !(#[trigger] keys[i]@).contains(l),
    }
}

/// The keys with more than one letter, in order.
pub open spec fn multi_letter_keys(keys: Seq<Key>) -> Seq<Key>
    decreases keys.len(),
{
    if keys.len() == 0 {
        Seq::empty()
    } else if keys.last()@.len() > 1 {
        multi_letter_keys(keys.drop_last()).push(keys.last())
    } else {
        multi_letter_keys(keys.drop_last())
    }
}

/// The number of keys with `n` letters.
pub open spec fn size_count(keys: Seq<Key>, n: nat) -> nat
    decreases keys.len(),
{
    if keys.len() == 0 {
        0
    } else {
        size_count(keys.drop_last(), n) + if keys.last()@.len() == n {
            1nat
        } else {
            0nat
        }
    }
}

/// A key separator in a layout.
pub open spec fn is_separator(c: char) -> bool {
    c == ',' || c == ' '
}

/// The pieces of a layout between separators; an empty layout is one empty
/// piece.
pub open spec fn layout_pieces(s: Seq<char>) -> Seq<Seq<char>>
    decreases s.len(),
{
    if s.len() == 0 {
        seq![Seq::empty()]
    } else {
        let p = layout_pieces(s.drop_last());
        if is_separator(s.last()) {
            p.push(Seq::empty())
        } else {
            p.update(p.len() - 1, p.last().push(s.last()))
        }
    }
}

/// Every piece of the layout is letters, and no letter is in two pieces.
pub open spec fn valid_layout(s: Seq<char>) -> bool {
    &&& forall|i: int| 0 <= i < layout_pieces(s).len() ==> all_letters(#[trigger] layout_pieces(s)[i])
    &&& forall|i: int, j: int| 0 <= i < j < layout_pieces(s).len() ==>
        char_indexes(layout_pieces(s)[i]).disjoint(char_indexes(layout_pieces(s)[j]))
}

pub proof fn lemma_layout_pieces_len(s: Seq<char>)
    ensures
        layout_pieces(s).len() >= 1,
    decreases s.len(),
{
    if s.len() > 0 {
        lemma_layout_pieces_len(s.drop_last());
    }
}

/// The letter sets of the keys.
pub open spec fn key_sets(keys: Seq<Key>) -> Seq<Set<u32>> {
    keys.map_values(|k: Key| k@)
}

/// One-letter sets for the letters of `items` that are not in `present`, in order.
pub open spec fn missing_singletons(items: Seq<u32>, present: Set<u32>) -> Seq<Set<u32>>
    decreases items.len(),
{
    if items.len() == 0 {
        Seq::empty()
    } else if present.contains(items.last()) {
        missing_singletons(items.drop_last(), present)
    } else {
        missing_singletons(items.drop_last(), present).push(set![items.last()])
    }
}

/// The characters of a key's letters in alphabet order.
pub open spec fn key_text(k: Key) -> Seq<char> {
    letter_chars(k.items())
}

/// `a` comes no later than `b` in dictionary order of characters.
pub open spec fn text_le(a: Seq<char>, b: Seq<char>) -> bool {
    a.is_prefix_of(b) || exists|i: int|
        0 <= i < a.len() && i < b.len() && a.take(i) =~= b.take(i) && a[i] < b[i]
}

/// Each key's text comes no later than the next one's.
pub open spec fn sorted_by_text(keys: Seq<Key>) -> bool {
    forall|i: int| 0 <= i < keys.len() - 1 ==> text_le(key_text(#[trigger] keys[i]), key_text(keys[i + 1]))
}

/// The texts of the keys separated by single spaces.
pub open spec fn spaced_texts(keys: Seq<Key>) -> Seq<char>
    decreases keys.len(),
{
    if keys.len() == 0 {
        Seq::empty()
    } else if keys.len() == 1 {
        key_text(keys[0])
    } else {
        spaced_texts(keys.drop_last()).push(' ') + key_text(keys.last())
    }
}

/// Of two texts, one comes no later than the other.
pub proof fn lemma_text_le_total(a: Seq<char>, b: Seq<char>)
    ensures
        text_le(a, b) || text_le(b, a),
{
    lemma_text_le_total_from(a, b, 0);
}

proof fn lemma_text_le_total_from(a: Seq<char>, b: Seq<char>, i: int)
    requires
        0 <= i <= a.len(),
        i <= b.len(),
        a.take(i) =~= b.take(i),
    ensures
        text_le(a, b) || text_le(b, a),
    decreases a.len() - i,
{
    if i == a.len() {
        assert(a.take(i) =~= a);
        assert(a.is_prefix_of(b));
    } else if i == b.len() {
        assert(b.take(i) =~= b);
        assert(b.is_prefix_of(a));
    } else if a[i] != b[i] {
        if a[i] < b[i] {
            assert(text_le(a, b));
        } else {
            assert(b[i] < a[i]);
            assert(text_le(b, a));
        }
    } else {
        assert(a.take(i + 1) =~= a.take(i).push(a[i]));
        assert(b.take(i + 1) =~= b.take(i).push(b[i]));
        lemma_text_le_total_from(a, b, i + 1);
    }
}

/// Whether `a`'s text comes no later than `b`'s.
fn key_text_le(a: Key, b: Key) -> (r: bool)
    ensures
        r == text_le(key_text(a), key_text(b)),
{
    let sa = a.to_string();
    let sb = b.to_string();
    let ta = sa.as_str();
    let tb = sb.as_str();
    let la = ta.unicode_len();
    let lb = tb.unicode_len();
    let ghost x = key_text(a);
    let ghost y = key_text(b);
    let mut i: usize = 0;
    while i < la && i < lb
        invariant
            x == key_text(a),
            y == key_text(b),
            ta@ == x,
            tb@ == y,
            la == x.len(),
            lb == y.len(),
            i <= la && i <= lb,
            x.take(i as int) =~= y.take(i as int),
        decreases la - i,
    {
        let ca = ta.get_char(i);
        let cb = tb.get_char(i);
        if ca != cb {
            proof {
                assert(ca == x[i as int] && cb == y[i as int]);
                if ca < cb {
                    assert(0 <= i < x.len() && i < y.len() && x.take(i as int) =~= y.take(i as int) && x[i as int] < y[i as int]);
                    assert(text_le(x, y));
                } else {
                    if text_le(x, y) {
                        if x.is_prefix_of(y) {
                            assert(x =~= y.take(x.len() as int));
                            assert(y.take(x.len() as int)[i as int] == y[i as int]);
                            assert(x[i as int] == y[i as int]);
                        } else {
                            let j = choose|j: int| 0 <= j < x.len() && j < y.len() && x.take(j) =~= y.take(j) && x[j] < y[j];
                            if j < i {
                                assert(x.take(i as int)[j] == y.take(i as int)[j]);
                            } else if j > i {
                                assert(x.take(j)[i as int] == y.take(j)[i as int]);
                            } else {
                                assert(x[j] < y[j]);
                                assert(!(ca < cb));
                            }
                        }
                    }
                    assert(!text_le(x, y));
                }
            }
            return ca < cb;
        }
        proof {
            assert(x.take(i + 1) =~= x.take(i as int).push(x[i as int]));
            assert(y.take(i + 1) =~= y.take(i as int).push(y[i as int]));
        }
        i = i + 1;
    }
    proof {
        if la <= lb {
            assert(x =~= x.take(i as int));
            assert(x.is_prefix_of(y));
        } else {
            assert(y =~= y.take(i as int));
            if text_le(x, y) {
                if x.is_prefix_of(y) {
                    assert(false);
                } else {
                    let j = choose|j: int| 0 <= j < x.len() && j < y.len() && x.take(j) =~= y.take(j) && x[j] < y[j];
                    assert(x.take(i as int)[j] == y.take(i as int)[j]);
                }
            }
        }
    }
    la <= lb
}

/// The keys ordered by their texts.
pub(crate) fn sorted_keys(keys: &Vec<Key>) -> (r: Vec<Key>)
    ensures
        r@.to_multiset() == keys@.to_multiset(),
        sorted_by_text(r@),
{
    let mut sorted: Vec<Key> = Vec::new();
    let mut i: usize = 0;
    proof {
        assert(keys@.take(0) =~= Seq::<Key>::empty());
    }
    while i < keys.len()
        invariant
            i <= keys@.len(),
            sorted@.to_multiset() == keys@.take(i as int).to_multiset(),
            sorted_by_text(sorted@),
        decreases keys@.len() - i,
    {
        let key = keys[i];
        let mut p: usize = 0;
        while p < sorted.len() && key_text_le(sorted[p], key)
            invariant
                p <= sorted@.len(),
                forall|q: int| 0 <= q < p ==> text_le(key_text(#[trigger] sorted@[q]), key_text(key)),
            decreases sorted@.len() - p,
        {
            p = p + 1;
        }
        let ghost before = sorted@;
        proof {
            if p < before.len() {
                assert(!text_le(key_text(before[p as int]), key_text(key)));
                lemma_text_le_total(key_text(before[p as int]), key_text(key));
            }
        }
        sorted.insert(p, key);
        proof {
            vstd::seq_lib::to_multiset_insert(before, p as int, key);
            assert(keys@.take(i + 1) =~= keys@.take(i as int).push(key));
            vstd::seq_lib::to_multiset_build(keys@.take(i as int), key);
            assert(sorted@ =~= before.insert(p as int, key));
            assert forall|q: int| 0 <= q < sorted@.len() - 1 implies text_le(key_text(#[trigger] sorted@[q]), key_text(sorted@[q + 1])) by {
                if q + 1 < p {
                    assert(sorted@[q] == before[q] && sorted@[q + 1] == before[q + 1]);
                } else if q + 1 == p {
                    assert(sorted@[q] == before[q] && sorted@[q + 1] == key);
                } else if q == p {
                    assert(sorted@[q] == key && sorted@[q + 1] == before[q]);
                } else {
                    assert(sorted@[q] == before[q - 1] && sorted@[q + 1] == before[q]);
                }
            }
        }
        i = i + 1;
    }
    proof {
        assert(keys@.take(keys@.len() as int) =~= keys@);
    }
    sorted
}

/// The texts of the keys separated by commas.
pub open spec fn comma_texts(keys: Seq<Key>) -> Seq<char>
    decreases keys.len(),
{
    if keys.len() == 0 {
        Seq::empty()
    } else if keys.len() == 1 {
        key_text(keys[0])
    } else {
        comma_texts(keys.drop_last()).push(',') + key_text(keys.last())
    }
}

/// The keys to type, in order, for letters, as key numbers: five bits per
/// letter, the key's index plus one, the first letter in the highest bits.
pub open spec fn spell_code(indexes: Seq<usize>) -> u128
    decreases indexes.len(),
{
    if indexes.len() == 0 {
        0
    } else {
        (spell_code(indexes.drop_last()) << 5u128) | ((indexes.last() + 1) as u128)
    }
}

/// A spelling of `n` keys fits in `5 * n` bits.
proof fn lemma_spell_code_bound(x: Seq<usize>)
    requires
        x.len() <= 25,
        forall|i: int| 0 <= i < x.len() ==> #[trigger] x[i] < 31,
    ensures
        spell_code(x) < (1u128 << (5 * x.len()) as u128),
    decreases x.len(),
{
    if x.len() == 0 {
        assert(0u128 < (1u128 << 0u128)) by (bit_vector);
    } else {
        let y = x.drop_last();
        assert forall|i: int| 0 <= i < y.len() implies #[trigger] y[i] < 31 by {
            assert(y[i] == x[i]);
        }
        lemma_spell_code_bound(y);
        let c = spell_code(y);
        let d = (x.last() + 1) as u128;
        let k = (5 * y.len()) as u128;
        assert(x.last() == x[x.len() - 1]);
        assert(d < 32);
        assert(k <= 120);
        assert(((c << 5u128) | d) < (1u128 << (k + 5))) by (bit_vector)
            requires
                c < (1u128 << k),
                k <= 120,
                d < 32;
        assert((5 * x.len()) as u128 == k + 5);
    }
}

/// Two spellings with different key sequences differ: each key of a
/// sequence of at most 25, on a keyboard of at most 30 keys, takes its own
/// five bits, and none of them is zero, so the number gives back the whole
/// sequence, its length included.
pub proof fn lemma_spell_code_injective(x: Seq<usize>, y: Seq<usize>)
    requires
        x.len() <= 25,
        y.len() <= 25,
        forall|i: int| 0 <= i < x.len() ==> #[trigger] x[i] < 31,
        forall|i: int| 0 <= i < y.len() ==> #[trigger] y[i] < 31,
        spell_code(x) == spell_code(y),
    ensures
        x == y,
    decreases x.len(),
{
    if x.len() == 0 && y.len() == 0 {
        assert(x =~= y);
    } else if x.len() == 0 || y.len() == 0 {
        let z = if x.len() == 0 { y } else { x };
        let c = spell_code(z.drop_last());
        let d = (z.last() + 1) as u128;
        assert(z.last() == z[z.len() - 1]);
        assert(1 <= d < 32);
        assert(((c << 5u128) | d) != 0) by (bit_vector)
            requires
                1 <= d < 32;
    } else {
        let x1 = x.drop_last();
        let y1 = y.drop_last();
        assert forall|i: int| 0 <= i < x1.len() implies #[trigger] x1[i] < 31 by {
            assert(x1[i] == x[i]);
        }
        assert forall|i: int| 0 <= i < y1.len() implies #[trigger] y1[i] < 31 by {
            assert(y1[i] == y[i]);
        }
        lemma_spell_code_bound(x1);
        lemma_spell_code_bound(y1);
        let a = spell_code(x1);
        let b = spell_code(y1);
        let da = (x.last() + 1) as u128;
        let db = (y.last() + 1) as u128;
        let ka = (5 * x1.len()) as u128;
        let kb = (5 * y1.len()) as u128;
        assert(x.last() == x[x.len() - 1] && y.last() == y[y.len() - 1]);
        assert(a < (1u128 << 120u128)) by (bit_vector)
            requires
                a < (1u128 << ka),
                ka <= 120;
        assert(b < (1u128 << 120u128)) by (bit_vector)
            requires
                b < (1u128 << kb),
                kb <= 120;
        assert(a == b && da == db) by (bit_vector)
            requires
                ((a << 5u128) | da) == ((b << 5u128) | db),
                a < (1u128 << 120u128),
                b < (1u128 << 120u128),
                da < 32,
                db < 32;
        lemma_spell_code_injective(x1, y1);
        assert(x.last() == y.last());
        assert(x =~= x1.push(x.last()));
        assert(y =~= y1.push(y.last()));
    }
}

/// Read as five-bit digits, the lowest first, a spelling of at most 25 keys
/// holds the last key's index plus one, then the one before it plus one, and
/// so on back to the first; above those digits it is zero.
pub proof fn lemma_spell_code_digits(x: Seq<usize>)
    requires
        x.len() <= 25,
        forall|i: int| 0 <= i < x.len() ==> #[trigger] x[i] < 31,
    ensures
        forall|k: int| 0 <= k < x.len() ==> (spell_code(x) >> (5 * k) as u128) % 32 == (#[trigger] x[x.len() - 1 - k] + 1) as u128,
        spell_code(x) >> (5 * x.len()) as u128 == 0,
    decreases x.len(),
{
    if x.len() == 0 {
        assert(0u128 >> 0u128 == 0) by (bit_vector);
    } else {
        let y = x.drop_last();
        assert forall|i: int| 0 <= i < y.len() implies #[trigger] y[i] < 31 by {
            assert(y[i] == x[i]);
        }
        lemma_spell_code_bound(y);
        lemma_spell_code_digits(y);
        let c = spell_code(y);
        let d = (x.last() + 1) as u128;
        let n = (5 * y.len()) as u128;
        assert(x.last() == x[x.len() - 1]);
        assert(d < 32);
        assert(c < (1u128 << 120u128)) by (bit_vector)
            requires
                c < (1u128 << n),
                n <= 120;
        assert(spell_code(x) == (c << 5u128) | d);
        assert forall|k: int| 0 <= k < x.len() implies (spell_code(x) >> (5 * k) as u128) % 32 == (#[trigger] x[x.len() - 1 - k] + 1) as u128 by {
            if k == 0 {
                assert((((c << 5u128) | d) >> 0u128) % 32 == d) by (bit_vector)
                    requires
                        d < 32;
            } else {
                let t = (5 * (k - 1)) as u128;
                assert(t <= 115);
                assert(((c << 5u128) | d) >> (t + 5) == c >> t) by (bit_vector)
                    requires
                        c < (1u128 << 120u128),
                        d < 32,
                        t <= 115;
                assert((5 * k) as u128 == t + 5);
                assert(x[x.len() - 1 - k] == y[y.len() - 1 - (k - 1)]);
            }
        }
        assert(c >> n == 0);
        assert(((c << 5u128) | d) >> (n + 5) == c >> n) by (bit_vector)
            requires
                c < (1u128 << 120u128),
                d < 32,
                n <= 120;
        assert((5 * x.len()) as u128 == n + 5);
    }
}

/// Some key holds both letters.
pub open spec fn on_one_key(keys: Seq<Key>, x: u32, y: u32) -> bool {
    exists|k: int| 0 <= k < keys.len() && (#[trigger] keys[k]@).contains(x) && keys[k]@.contains(y)
}

/// On a keyboard of at most 30 keys with no letter on two keys, two letter
/// sequences of at most 25 letters spell as the same number exactly when they
/// are as long and each letter of one shares a key with the letter at the
/// same place of the other.
pub proof fn lemma_spelling_collides(keys: Seq<Key>, a: Seq<u32>, b: Seq<u32>, ia: Seq<usize>, ib: Seq<usize>)
    requires
        keys.len() <= 30,
        disjoint_keys(keys),
        a.len() <= 25,
        b.len() <= 25,
        ia.len() == a.len(),
        ib.len() == b.len(),
        forall|i: int| 0 <= i < ia.len() ==> locates(keys, a[i], Some(#[trigger] ia[i])),
        forall|i: int| 0 <= i < ib.len() ==> locates(keys, b[i], Some(#[trigger] ib[i])),
    ensures
        (spell_code(ia) == spell_code(ib)) <==> (a.len() == b.len() && forall|i: int|
            0 <= i < a.len() ==> #[trigger] on_one_key(keys, a[i], b[i])),
{
    assert forall|i: int| 0 <= i < ia.len() implies #[trigger] ia[i] < 31 by {
        assert(locates(keys, a[i], Some(ia[i])));
    }
    assert forall|i: int| 0 <= i < ib.len() implies #[trigger] ib[i] < 31 by {
        assert(locates(keys, b[i], Some(ib[i])));
    }
    if spell_code(ia) == spell_code(ib) {
        lemma_spell_code_injective(ia, ib);
        assert forall|i: int| 0 <= i < a.len() implies #[trigger] on_one_key(keys, a[i], b[i]) by {
            assert(locates(keys, a[i], Some(ia[i])));
            assert(locates(keys, b[i], Some(ib[i])));
            let k = ia[i] as int;
            assert(keys[k]@.contains(a[i]) && keys[k]@.contains(b[i]));
        }
    }
    if a.len() == b.len() && forall|i: int| 0 <= i < a.len() ==> #[trigger] on_one_key(keys, a[i], b[i]) {
        assert forall|i: int| 0 <= i < ia.len() implies ia[i] == ib[i] by {
            assert(on_one_key(keys, a[i], b[i]));
            let k = choose|k: int| 0 <= k < keys.len() && (#[trigger] keys[k]@).contains(a[i]) && keys[k]@.contains(b[i]);
            assert(locates(keys, a[i], Some(ia[i])));
            assert(locates(keys, b[i], Some(ib[i])));
            let p = ia[i] as int;
            let q = ib[i] as int;
            if p != k {
                if p < k {
                    assert(keys[p]@.disjoint(keys[k]@));
                } else {
                    assert(keys[k]@.disjoint(keys[p]@));
                }
            }
            if q != k {
                if q < k {
                    assert(keys[q]@.disjoint(keys[k]@));
                } else {
                    assert(keys[k]@.disjoint(keys[q]@));
                }
            }
        }
        assert(ia =~= ib);
    }
}

/// The key sets after letter `la` of key `a` and letter `lb` of key `b` trade
/// places.
pub open spec fn swap_sets(keys: Seq<Key>, a: int, b: int, la: u32, lb: u32) -> Seq<Set<u32>> {
    key_sets(keys).update(a, keys[a]@.remove(la).insert(lb)).update(b, keys[b]@.remove(lb).insert(la))
}

/// A trade of two letters on two different keys.
pub open spec fn is_swap(keys: Seq<Key>, a: int, b: int, la: u32, lb: u32) -> bool {
    &&& 0 <= a < keys.len()
    &&& 0 <= b < keys.len()
    &&& a != b
    &&& keys[a]@.contains(la)
    &&& keys[b]@.contains(lb)
}

/// One of the keyboards holds the given trade.
pub open spec fn has_swap(r: Seq<Keyboard>, keys: Seq<Key>, a: int, b: int, la: u32, lb: u32) -> bool {
    exists|k: int| 0 <= k < r.len() && key_sets(#[trigger] r[k]@) == swap_sets(keys, a, b, la, lb)
}

/// `to` is `from` after one trade of two letters on two different keys.
pub open spec fn one_trade(from: Seq<Key>, to: Seq<Key>) -> bool {
    exists|a: int, b: int, la: u32, lb: u32| is_swap(from, a, b, la, lb) && key_sets(to) == #[trigger] swap_sets(from, a, b, la, lb)
}

/// Each set of keys of `c` is the one before after one trade.
pub open spec fn trade_chain(c: Seq<Seq<Key>>) -> bool {
    forall|i: int| 0 <= i < c.len() - 1 ==> #[trigger] one_trade(c[i], c[i + 1])
}

/// The position of the first candidate that `groups` allows; the number of
/// candidates when it allows none.
pub open spec fn first_allowed_at(row: Seq<Key>, groups: Set<Set<u32>>) -> int
    decreases row.len(),
{
    if row.len() == 0 {
        0
    } else if allows(groups, row[0]@) {
        0
    } else {
        1 + first_allowed_at(row.drop_first(), groups)
    }
}

/// `first_allowed_at` is a position of the row or its length; the candidate
/// there is allowed, and none before it is.
pub proof fn lemma_first_allowed_at(row: Seq<Key>, groups: Set<Set<u32>>)
    ensures
        0 <= first_allowed_at(row, groups) <= row.len(),
        first_allowed_at(row, groups) < row.len() ==> allows(groups, row[first_allowed_at(row, groups)]@),
        forall|u: int| 0 <= u < first_allowed_at(row, groups) ==> !allows(groups, #[trigger] row[u]@),
    decreases row.len(),
{
    if row.len() > 0 && !allows(groups, row[0]@) {
        let rest = row.drop_first();
        lemma_first_allowed_at(rest, groups);
        assert forall|u: int| 0 <= u < first_allowed_at(row, groups) implies !allows(groups, #[trigger] row[u]@) by {
            if u > 0 {
                assert(row[u] == rest[u - 1]);
            }
        }
        if first_allowed_at(row, groups) < row.len() {
            assert(row[first_allowed_at(row, groups)] == rest[first_allowed_at(rest, groups)]);
        }
    }
}

/// The keys picked from rows of candidates: from each row, its first allowed
/// candidate.
pub open spec fn picked_keys(draws: Seq<Vec<Key>>, groups: Set<Set<u32>>) -> Seq<Key> {
    draws.map_values(|row: Vec<Key>| row@[first_allowed_at(row@, groups)])
}

/// The position of the first of the candidate keys that `prohibited` allows,
/// or `None` when it allows none of them.
pub fn first_allowed(candidates: &Vec<Key>, prohibited: &Prohibited) -> (r: Option<usize>)
    ensures
        r is None <==> first_allowed_at(candidates@, prohibited.groups()) == candidates@.len(),
        r matches Some(t) ==> t == first_allowed_at(candidates@, prohibited.groups()),
        r is None <==> forall|t: int| 0 <= t < candidates@.len() ==> !allows(prohibited.groups(), #[trigger] candidates@[t]@),
        r matches Some(t) ==> t < candidates@.len() && allows(prohibited.groups(), candidates@[t as int]@)
            && forall|u: int| 0 <= u < t ==> !allows(prohibited.groups(), #[trigger] candidates@[u]@),
{
    proof {
        lemma_first_allowed_at(candidates@, prohibited.groups());
    }
    let mut t: usize = 0;
    while t < candidates.len()
        invariant
            t <= candidates@.len(),
            forall|u: int| 0 <= u < t ==> !allows(prohibited.groups(), #[trigger] candidates@[u]@),
            0 <= first_allowed_at(candidates@, prohibited.groups()) <= candidates@.len(),
            first_allowed_at(candidates@, prohibited.groups()) < candidates@.len() ==> allows(
                prohibited.groups(),
                candidates@[first_allowed_at(candidates@, prohibited.groups())]@,
            ),
            forall|u: int| 0 <= u < first_allowed_at(candidates@, prohibited.groups()) ==> !allows(prohibited.groups(), #[trigger] candidates@[u]@),
        decreases candidates@.len() - t,
    {
        if candidates[t].is_allowed(prohibited) {
            return Some(t);
        }
        t = t + 1;
    }
    None
}

/// A trade that `every_swap` makes: a letter of a key with a letter of a
/// later key.
pub open spec fn is_ordered_swap(keys: Seq<Key>, a: int, b: int, la: u32, lb: u32) -> bool {
    is_swap(keys, a, b, la, lb) && a < b
}

/// The trade `t` comes before the place `(a, b, la)` that `every_swap` has
/// reached: an earlier first key, an earlier second key, a first letter among
/// `done_a`, or the letter `la` with a second letter among `done_b`.
pub open spec fn swap_before(
    t: (int, int, u32, u32),
    a: int,
    b: int,
    done_a: Seq<u32>,
    la: u32,
    done_b: Seq<u32>,
) -> bool {
    ||| t.0 < a
    ||| t.0 == a && t.1 < b
    ||| t.0 == a && t.1 == b && done_a.contains(t.2)
    ||| t.0 == a && t.1 == b && t.2 == la && done_b.contains(t.3)
}

/// The keyboards made so far are the trades `made`, each once, all before
/// the place `every_swap` has reached.
pub open spec fn swaps_so_far(
    keys: Seq<Key>,
    result: Seq<Keyboard>,
    made: Seq<(int, int, u32, u32)>,
    a: int,
    b: int,
    done_a: Seq<u32>,
    la: u32,
    done_b: Seq<u32>,
) -> bool {
    &&& made.len() == result.len()
    &&& forall|k: int|
        0 <= k < made.len() ==> is_ordered_swap(keys, (#[trigger] made[k]).0, made[k].1, made[k].2, made[k].3)
            && key_sets(result[k]@) == swap_sets(keys, made[k].0, made[k].1, made[k].2, made[k].3)
            && swap_before(made[k], a, b, done_a, la, done_b)
    &&& forall|i: int, j: int| 0 <= i < j < made.len() ==> made[i] != made[j]
}

/// On keys with no letter on two of them, different trades of a letter of a
/// key with a letter of a later key give different keys.
pub proof fn lemma_swap_sets_injective(keys: Seq<Key>, t1: (int, int, u32, u32), t2: (int, int, u32, u32))
    requires
        disjoint_keys(keys),
        is_ordered_swap(keys, t1.0, t1.1, t1.2, t1.3),
        is_ordered_swap(keys, t2.0, t2.1, t2.2, t2.3),
        swap_sets(keys, t1.0, t1.1, t1.2, t1.3) == swap_sets(keys, t2.0, t2.1, t2.2, t2.3),
    ensures
        t1 == t2,
{
    let s = key_sets(keys);
    let s1 = swap_sets(keys, t1.0, t1.1, t1.2, t1.3);
    let s2 = swap_sets(keys, t2.0, t2.1, t2.2, t2.3);
    let (a1, b1, la1, lb1) = t1;
    let (a2, b2, la2, lb2) = t2;
    assert(keys[a1]@.disjoint(keys[b1]@));
    assert(keys[a2]@.disjoint(keys[b2]@));
    assert(s1[a1].contains(lb1));
    assert(!s[a1].contains(lb1));
    assert(s1[b1].contains(la1));
    assert(!s[b1].contains(la1));
    if a1 != a2 && a1 != b2 {
        assert(s2[a1] == s[a1]);
    }
    if b1 != a2 && b1 != b2 {
        assert(s2[b1] == s[b1]);
    }
    assert(a1 == a2 && b1 == b2);
    assert(s2[a1].contains(lb1));
    assert(!s1[a1].contains(la1));
    assert(!keys[a1]@.contains(lb2));
    assert(keys[a1]@.contains(la1));
}

/// The keyboard's keys are those of some trade that `every_swap` makes.
pub open spec fn is_some_swap(keys: Seq<Key>, k: Keyboard) -> bool {
    exists|a: int, b: int, la: u32, lb: u32| is_ordered_swap(keys, a, b, la, lb) && key_sets(k@) == swap_sets(keys, a, b, la, lb)
}

proof fn lemma_has_swap_push(r: Seq<Keyboard>, x: Keyboard, keys: Seq<Key>, a: int, b: int, la: u32, lb: u32)
    requires
        has_swap(r, keys, a, b, la, lb),
    ensures
        has_swap(r.push(x), keys, a, b, la, lb),
{
    let k = choose|k: int| 0 <= k < r.len() && key_sets(#[trigger] r[k]@) == swap_sets(keys, a, b, la, lb);
    assert(r.push(x)[k] == r[k]);
}

/// Keys, each a set of letters, with no letter on two keys.
pub struct Keyboard {
    keys: Vec<Key>,
    letter_to_key_index: Vec<Option<usize>>,
}

impl View for Keyboard {
    type V = Seq<Key>;

    closed spec fn view(&self) -> Seq<Key> {
        self.keys@
    }
}

pub proof fn lemma_letters_of(keys: Seq<Key>, l: u32)
    ensures
        letters_of(keys).contains(l) <==> exists|i: int| 0 <= i < keys.len() && (#[trigger] keys[i]@).contains(l),
    decreases keys.len(),
{
    if keys.len() > 0 {
        lemma_letters_of(keys.drop_last(), l);
        if letters_of(keys.drop_last()).contains(l) {
            let i = choose|i: int| 0 <= i < keys.drop_last().len() && (#[trigger] keys.drop_last()[i]@).contains(l);
            assert(keys[i] == keys.drop_last()[i]);
        }
        if exists|i: int| 0 <= i < keys.len() && (#[trigger] keys[i]@).contains(l) {
            let i = choose|i: int| 0 <= i < keys.len() && (#[trigger] keys[i]@).contains(l);
            if i < keys.len() - 1 {
                assert(keys[i] == keys.drop_last()[i]);
            }
        }
    }
}

impl Clone for Keyboard {
    fn clone(&self) -> (r: Keyboard)
        ensures
            r@ == self@,
    {
        proof {
            use_type_invariant(self);
        }
        let keys = self.keys.clone();
        let index = self.letter_to_key_index.clone();
        proof {
            assert(keys@ =~= self.keys@);
            assert(index@ =~= self.letter_to_key_index@);
        }
        Keyboard { keys, letter_to_key_index: index }
    }
}

impl Keyboard {
    #[verifier::type_invariant]
    spec fn inv(self) -> bool {
        &&& self.letter_to_key_index@.len() == 27
        &&& disjoint_keys(self.keys@)
        &&& forall|l: int| 0 <= l < 27 ==> locates(self.keys@, l as u32, #[trigger] self.letter_to_key_index@[l])
    }

    /// The keys hold no letter twice.
    pub fn lemma_disjoint(&self)
        ensures
            disjoint_keys(self@),
    {
        proof {
            use_type_invariant(self);
        }
    }

    /// The keyboard with these keys, in this order. No letter may be on two keys.
    pub fn with_keys(keys: Vec<Key>) -> (r: Keyboard)
        requires
            disjoint_keys(keys@),
        ensures
            r@ == keys@,
    {
        let mut index: Vec<Option<usize>> = Vec::new();
        let mut l: usize = 0;
        while l < 27
            invariant
                l <= 27,
                index@.len() == l,
                forall|m: int| 0 <= m < l ==> #[trigger] index@[m] == None::<usize>,
            decreases 27 - l,
        {
            index.push(None);
            l = l + 1;
        }
        let mut i: usize = 0;
        while i < keys.len()
            invariant
                i <= keys@.len(),
                disjoint_keys(keys@),
                index@.len() == 27,
                forall|m: int| 0 <= m < 27 ==> locates(keys@.take(i as int), m as u32, #[trigger] index@[m]),
            decreases keys@.len() - i,
        {
            let key = keys[i];
            let letters = key.letters();
            key.lemma_letters_in_alphabet();
            proof {
                key.lemma_items();
            }
            let ghost before = index@;
            let mut t: usize = 0;
            while t < letters.len()
                invariant
                    i < keys@.len(),
                    key == keys@[i as int],
                    disjoint_keys(keys@),
                    t <= letters@.len(),
                    letters@.len() == key.items().len(),
                    forall|k: int| 0 <= k < letters@.len() ==> #[trigger] letters@[k].index() == key.items()[k],
                    forall|u: u32| key@.contains(u) <==> key.items().contains(u),
                    forall|u: u32| #[trigger] key@.contains(u) ==> u < 27,
                    index@.len() == 27,
                    forall|m: int| 0 <= m < 27 ==> locates(keys@.take(i as int), m as u32, #[trigger] before[m]),
                    forall|m: int| 0 <= m < 27 ==> if key.items().take(t as int).contains(m as u32) {
                        #[trigger] index@[m] == Some(i)
                    } else {
                        index@[m] == before[m]
                    },
                decreases letters@.len() - t,
            {
                let at = letters[t].to_usize();
                index.set(at, Some(i));
                proof {
                    assert forall|m: int| 0 <= m < 27 implies if key.items().take(t + 1).contains(m as u32) {
                        #[trigger] index@[m] == Some(i)
                    } else {
                        index@[m] == before[m]
                    } by {
                        if key.items().take(t + 1).contains(m as u32) {
                            let k = choose|k: int| 0 <= k < t + 1 && #[trigger] key.items().take(t + 1)[k] == m as u32;
                            if k < t {
                                assert(key.items().take(t as int)[k] == m as u32);
                            } else {
                                assert(m == at);
                            }
                        } else {
                            assert(key.items().take(t + 1)[t as int] == key.items()[t as int]);
                            if key.items().take(t as int).contains(m as u32) {
                                let k = choose|k: int| 0 <= k < t && #[trigger] key.items().take(t as int)[k] == m as u32;
                                assert(key.items().take(t + 1)[k] == m as u32);
                            }
                        }
                    }
                }
                t = t + 1;
            }
            proof {
                assert(key.items().take(letters@.len() as int) =~= key.items());
                assert forall|m: int| 0 <= m < 27 implies locates(keys@.take(i + 1), m as u32, #[trigger] index@[m]) by {
                    let prefix = keys@.take(i as int);
                    let next = keys@.take(i + 1);
                    assert(next[i as int] == key);
                    assert forall|j: int| 0 <= j < i implies next[j] == prefix[j] && prefix[j] == keys@[j] by {}
                    if key@.contains(m as u32) {
                        assert(key.items().contains(m as u32));
                    } else {
                        assert(!key.items().contains(m as u32));
                        match before[m] {
                            Some(j) => {},
                            None => {
                                assert forall|j: int| 0 <= j < next.len() implies !(#[trigger] next[j]@).contains(m as u32) by {
                                    if j < i {
                                        assert(!prefix[j]@.contains(m as u32));
                                    }
                                }
                            },
                        }
                    }
                    if key@.contains(m as u32) {
                        assert forall|j: int| 0 <= j < i implies !(#[trigger] keys@[j]@).contains(m as u32) by {
                            assert(keys@[j]@.disjoint(keys@[i as int]@));
                        }
                    }
                }
            }
            i = i + 1;
        }
        proof {
            assert(keys@.take(keys@.len() as int) =~= keys@);
        }
        Keyboard { keys, letter_to_key_index: index }
    }

    /// The keyboard with no keys.
    pub fn empty() -> (r: Keyboard)
        ensures
            r@ == Seq::<Key>::empty(),
    {
        let keys: Vec<Key> = Vec::new();
        proof {
            assert(keys@ =~= Seq::<Key>::empty());
        }
        Keyboard::with_keys(keys)
    }

    /// The keys, in order.
    pub fn keys(&self) -> (r: Vec<Key>)
        ensures
            r@ == self@,
    {
        let r = self.keys.clone();
        proof {
            assert(r@ =~= self.keys@);
        }
        r
    }

    /// The number of keys.
    pub fn len(&self) -> (r: usize)
        ensures
            r == self@.len(),
    {
        self.keys.len()
    }

    /// The index of the key that holds `letter`, or `None` when no key does.
    pub fn find_key_index(&self, letter: Letter) -> (r: Option<usize>)
        ensures
            locates(self@, letter.index(), r),
    {
        proof {
            use_type_invariant(self);
        }
        let at = letter.to_usize();
        self.letter_to_key_index[at]
    }

    /// The key that holds `letter`, or `None` when no key does.
    pub fn find_key(&self, letter: Letter) -> (r: Option<Key>)
        ensures
            r is Some <==> letters_of(self@).contains(letter.index()),
            r matches Some(k) ==> k@.contains(letter.index()) && self@.contains(k),
    {
        proof {
            lemma_letters_of(self@, letter.index());
        }
        match self.find_key_index(letter) {
            None => None,
            Some(i) => {
                proof {
                    use_type_invariant(self);
                }
                Some(self.keys[i])
            },
        }
    }

    /// Each letter of `alphabet` on a key of its own, in alphabet order.
    pub fn with_every_letter_on_own_key(alphabet: Key) -> (r: Keyboard)
        ensures
            key_sets(r@) == alphabet.items().map_values(|l: u32| set![l]),
    {
        let letters = alphabet.letters();
        proof {
            alphabet.lemma_items();
        }
        let mut keys: Vec<Key> = Vec::new();
        let mut i: usize = 0;
        while i < letters.len()
            invariant
                i <= letters@.len(),
                letters@.len() == alphabet.items().len(),
                forall|k: int| 0 <= k < letters@.len() ==> #[trigger] letters@[k].index() == alphabet.items()[k],
                alphabet.items().no_duplicates(),
                keys@.len() == i,
                forall|k: int| 0 <= k < i ==> (#[trigger] keys@[k])@ == set![alphabet.items()[k]],
            decreases letters@.len() - i,
        {
            let key = Key::with_one_letter(letters[i]);
            keys.push(key);
            i = i + 1;
        }
        proof {
            assert forall|a: int, b: int| 0 <= a < b < keys@.len() implies keys@[a]@.disjoint(keys@[b]@) by {
                assert(keys@[a]@ == set![alphabet.items()[a]]);
                assert(keys@[b]@ == set![alphabet.items()[b]]);
            }
        }
        let r = Keyboard::with_keys(keys);
        proof {
            assert(key_sets(r@) =~= alphabet.items().map_values(|l: u32| set![l]));
        }
        r
    }

    /// The keyboard without its keys of one letter or none.
    pub fn without_keys_with_one_letter(&self) -> (r: Keyboard)
        ensures
            r@ == multi_letter_keys(self@),
    {
        proof {
            use_type_invariant(self);
        }
        let mut keys: Vec<Key> = Vec::new();
        let mut i: usize = 0;
        while i < self.keys.len()
            invariant
                i <= self@.len(),
                disjoint_keys(self@),
                self@ == self.keys@,
                keys@ == multi_letter_keys(self@.take(i as int)),
                disjoint_keys(keys@),
                forall|a: int| 0 <= a < keys@.len() ==> (#[trigger] keys@[a])@.subset_of(letters_of(self@.take(i as int))),
            decreases self@.len() - i,
        {
            let key = self.keys[i];
            let ghost prefix = self@.take(i as int);
            let ghost next = self@.take(i + 1);
            proof {
                assert(next.drop_last() =~= prefix);
                assert(next.last() == key);
                assert forall|a: int| 0 <= a < keys@.len() implies (#[trigger] keys@[a])@.subset_of(letters_of(next)) by {}
            }
            if key.len() > 1 {
                let ghost before = keys@;
                keys.push(key);
                proof {
                    assert forall|a: int, b: int| 0 <= a < b < keys@.len() implies keys@[a]@.disjoint(keys@[b]@) by {
                        if b == keys@.len() - 1 {
                            assert(keys@[a] == before[a]);
                            assert forall|l: u32| keys@[a]@.contains(l) implies !key@.contains(l) by {
                                assert(letters_of(prefix).contains(l));
                                lemma_letters_of(prefix, l);
                                let j = choose|j: int| 0 <= j < prefix.len() && (#[trigger] prefix[j]@).contains(l);
                                assert(prefix[j] == self@[j]);
                                assert(self@[j]@.disjoint(self@[i as int]@));
                            }
                        }
                    }
                }
            }
            i = i + 1;
        }
        proof {
            assert(self@.take(self@.len() as int) =~= self@);
        }
        Keyboard::with_keys(keys)
    }

    /// The keyboard given by letters in keys separated by commas or spaces,
    /// such as `abc,def,ghi` or `abc def ghi`.
    pub fn with_layout(s: &str) -> (r: Keyboard)
        requires
            valid_layout(s@),
        ensures
            key_sets(r@) == layout_pieces(s@).map_values(|p: Seq<char>| char_indexes(p)),
    {
        let n = s.unicode_len();
        let mut keys: Vec<Key> = Vec::new();
        let mut current = Key::empty();
        let mut i: usize = 0;
        proof {
            assert(s@.take(0) =~= Seq::<char>::empty());
            assert(char_indexes(Seq::<char>::empty()) =~= Set::<u32>::empty());
        }
        while i < n
            invariant
                n == s@.len(),
                i <= n,
                valid_layout(s@),
                keys@.len() + 1 == layout_pieces(s@.take(i as int)).len(),
                forall|k: int| 0 <= k < keys@.len() ==> (#[trigger] keys@[k])@ == char_indexes(layout_pieces(s@.take(i as int))[k]),
                current@ == char_indexes(layout_pieces(s@.take(i as int)).last()),
            decreases n - i,
        {
            let c = s.get_char(i);
            proof {
                lemma_pieces_prefix(s@, i as int);
            }
            if c == ',' || c == ' ' {
                keys.push(current);
                current = Key::empty();
                proof {
                    assert(char_indexes(Seq::<char>::empty()) =~= Set::<u32>::empty());
                }
            } else {
                proof {
                    lemma_piece_char(s@, i as int);
                }
                let letter = Letter::new(c);
                current = current.add(letter);
                proof {
                    let last = layout_pieces(s@.take(i as int)).last();
                    assert(last.push(c).map_values(|c: char| char_index(c)) =~= last.map_values(|c: char| char_index(c)).push(char_index(c)));
                    last.map_values(|c: char| char_index(c)).lemma_push_to_set_commute(char_index(c));
                }
            }
            i = i + 1;
        }
        keys.push(current);
        proof {
            assert(s@.take(n as int) =~= s@);
            let pieces = layout_pieces(s@);
            assert forall|a: int, b: int| 0 <= a < b < keys@.len() implies keys@[a]@.disjoint(keys@[b]@) by {
                assert(keys@[a]@ == char_indexes(pieces[a]));
                assert(keys@[b]@ == char_indexes(pieces[b]));
            }
        }
        let r = Keyboard::with_keys(keys);
        proof {
            assert(key_sets(r@) =~= layout_pieces(s@).map_values(|p: Seq<char>| char_indexes(p)));
        }
        r
    }

    /// Some key holds a prohibited group of letters.
    pub fn has_prohibited_keys(&self, prohibited: &Prohibited) -> (r: bool)
        ensures
            r == exists|i: int| 0 <= i < self@.len() && !allows(prohibited.groups(), (#[trigger] self@[i])@),
    {
        let mut i: usize = 0;
        while i < self.keys.len()
            invariant
                i <= self@.len(),
                self@ == self.keys@,
                forall|j: int| 0 <= j < i ==> allows(prohibited.groups(), (#[trigger] self@[j])@),
            decreases self@.len() - i,
        {
            if !prohibited.is_allowed(self.keys[i]) {
                return true;
            }
            i = i + 1;
        }
        false
    }

    /// The letters on the keyboard.
    pub fn letters(&self) -> (r: Key)
        ensures
            r@ == letters_of(self@),
    {
        let mut total = Key::empty();
        let mut i: usize = 0;
        while i < self.keys.len()
            invariant
                i <= self@.len(),
                self@ == self.keys@,
                total@ == letters_of(self@.take(i as int)),
            decreases self@.len() - i,
        {
            total = total.union(self.keys[i]);
            proof {
                assert(self@.take(i + 1).drop_last() =~= self@.take(i as int));
            }
            i = i + 1;
        }
        proof {
            assert(self@.take(self@.len() as int) =~= self@);
        }
        total
    }

    /// The number of letters on the largest key, or `None` without keys.
    pub fn max_key_size(&self) -> (r: Option<u32>)
        ensures
            r is None <==> self@.len() == 0,
            r matches Some(m) ==> (exists|i: int| 0 <= i < self@.len() && (#[trigger] self@[i])@.len() == m)
                && forall|i: int| 0 <= i < self@.len() ==> (#[trigger] self@[i])@.len() <= m,
    {
        if self.keys.len() == 0 {
            return None;
        }
        let mut best: u32 = self.keys[0].count_letters() as u32;
        let mut i: usize = 1;
        proof {
            assert((self@[0])@.len() == best);
        }
        while i < self.keys.len()
            invariant
                1 <= i <= self@.len(),
                self@ == self.keys@,
                exists|j: int| 0 <= j < i && (#[trigger] self@[j])@.len() == best,
                forall|j: int| 0 <= j < i ==> (#[trigger] self@[j])@.len() <= best,
            decreases self@.len() - i,
        {
            let size = self.keys[i].count_letters() as u32;
            if size > best {
                best = size;
            }
            i = i + 1;
        }
        Some(best)
    }

    /// The number of letters on the smallest key, or `None` without keys.
    pub fn min_key_size(&self) -> (r: Option<u32>)
        ensures
            r is None <==> self@.len() == 0,
            r matches Some(m) ==> (exists|i: int| 0 <= i < self@.len() && (#[trigger] self@[i])@.len() == m)
                && forall|i: int| 0 <= i < self@.len() ==> (#[trigger] self@[i])@.len() >= m,
    {
        if self.keys.len() == 0 {
            return None;
        }
        let mut best: u32 = self.keys[0].count_letters() as u32;
        let mut i: usize = 1;
        proof {
            assert((self@[0])@.len() == best);
        }
        while i < self.keys.len()
            invariant
                1 <= i <= self@.len(),
                self@ == self.keys@,
                exists|j: int| 0 <= j < i && (#[trigger] self@[j])@.len() == best,
                forall|j: int| 0 <= j < i ==> (#[trigger] self@[j])@.len() >= best,
            decreases self@.len() - i,
        {
            let size = self.keys[i].count_letters() as u32;
            if size < best {
                best = size;
            }
            i = i + 1;
        }
        Some(best)
    }

    /// How many keys there are of each size.
    pub fn key_sizes(&self) -> (r: Tally)
        requires
            self@.len() <= u32::MAX,
        ensures
            forall|n: u32| #[trigger] r.count_of(n) == size_count(self@, n as nat),
    {
        let mut total = Tally::new();
        let mut i: usize = 0;
        while i < self.keys.len()
            invariant
                i <= self@.len() <= u32::MAX,
                self@ == self.keys@,
                forall|n: u32| #[trigger] total.count_of(n) == size_count(self@.take(i as int), n as nat),
            decreases self@.len() - i,
        {
            proof {
                assert(self@.take(i + 1).drop_last() =~= self@.take(i as int));
                lemma_size_count_bound(self@.take(i as int), self.keys@[i as int]@.len());
            }
            let size = self.keys[i].len() as u32;
            total.increment(size);
            i = i + 1;
        }
        proof {
            assert(self@.take(self@.len() as int) =~= self@);
        }
        total
    }

    /// The keyboard with one more key, which must hold no letter already on it.
    pub fn add_key(&self, key: Key) -> (r: Keyboard)
        requires
            key@.disjoint(letters_of(self@)),
        ensures
            r@ == self@.push(key),
    {
        proof {
            use_type_invariant(self);
        }
        let mut keys = self.keys.clone();
        proof {
            assert(keys@ =~= self.keys@);
        }
        keys.push(key);
        proof {
            assert forall|a: int, b: int| 0 <= a < b < keys@.len() implies keys@[a]@.disjoint(keys@[b]@) by {
                if b == keys@.len() - 1 {
                    assert forall|l: u32| keys@[a]@.contains(l) implies !key@.contains(l) by {
                        lemma_letters_of(self@, l);
                        assert(self@[a]@.contains(l));
                    }
                }
            }
        }
        Keyboard::with_keys(keys)
    }

    /// The keyboard with a key of its own for each letter of `alphabet` that is
    /// not on it yet, in alphabet order, after its keys.
    pub fn fill_missing(&self, alphabet: Key) -> (r: Keyboard)
        ensures
            key_sets(r@) == key_sets(self@) + missing_singletons(alphabet.items(), letters_of(self@)),
    {
        proof {
            use_type_invariant(self);
            alphabet.lemma_items();
        }
        let letters = alphabet.letters();
        let mut keys = self.keys.clone();
        proof {
            assert(keys@ =~= self.keys@);
        }
        let ghost present = letters_of(self@);
        let mut i: usize = 0;
        while i < letters.len()
            invariant
                i <= letters@.len(),
                letters@.len() == alphabet.items().len(),
                forall|k: int| 0 <= k < letters@.len() ==> #[trigger] letters@[k].index() == alphabet.items()[k],
                alphabet.items().no_duplicates(),
                present == letters_of(self@),
                disjoint_keys(keys@),
                key_sets(keys@) == key_sets(self@) + missing_singletons(alphabet.items().take(i as int), present),
                forall|l: u32| letters_of(keys@).contains(l) ==> present.contains(l) || alphabet.items().take(i as int).contains(l),
            decreases letters@.len() - i,
        {
            let letter = letters[i];
            let ghost items = alphabet.items();
            proof {
                assert(items.take(i + 1).drop_last() =~= items.take(i as int));
                assert(items.take(i + 1).last() == letter.index());
                lemma_letters_of(self@, letter.index());
            }
            match self.find_key_index(letter) {
                None => {
                    let key = Key::with_one_letter(letter);
                    let ghost before = keys@;
                    proof {
                        assert(!present.contains(letter.index()));
                        assert(!items.take(i as int).contains(letter.index())) by {
                            if items.take(i as int).contains(letter.index()) {
                                let k = choose|k: int| 0 <= k < i && items.take(i as int)[k] == letter.index();
                                assert(items[k] == items[i as int]);
                            }
                        }
                    }
                    keys.push(key);
                    proof {
                        assert forall|a: int, b: int| 0 <= a < b < keys@.len() implies keys@[a]@.disjoint(keys@[b]@) by {
                            if b == keys@.len() - 1 {
                                assert forall|l: u32| keys@[a]@.contains(l) implies !key@.contains(l) by {
                                    lemma_letters_of(before, l);
                                    assert(before[a] == keys@[a]);
                                }
                            }
                        }
                        assert(key_sets(keys@) =~= key_sets(before).push(set![letter.index()]));
                        assert forall|l: u32| letters_of(keys@).contains(l) implies present.contains(l) || items.take(i + 1).contains(l) by {
                            lemma_letters_of(keys@, l);
                            lemma_letters_of(before, l);
                            let j = choose|j: int| 0 <= j < keys@.len() && (#[trigger] keys@[j]@).contains(l);
                            if j < before.len() {
                                assert(before[j] == keys@[j]);
                                if items.take(i as int).contains(l) {
                                    let k = choose|k: int| 0 <= k < i && items.take(i as int)[k] == l;
                                    assert(items.take(i + 1)[k] == l);
                                }
                            } else {
                                assert(items.take(i + 1)[i as int] == l);
                            }
                        }
                    }
                },
                Some(_) => {
                    proof {
                        assert(present.contains(letter.index()));
                        assert forall|l: u32| letters_of(keys@).contains(l) implies present.contains(l) || items.take(i + 1).contains(l) by {
                            if items.take(i as int).contains(l) {
                                let k = choose|k: int| 0 <= k < i && items.take(i as int)[k] == l;
                                assert(items.take(i + 1)[k] == l);
                            }
                        }
                    }
                },
            }
            i = i + 1;
        }
        proof {
            assert(alphabet.items().take(letters@.len() as int) =~= alphabet.items());
        }
        Keyboard::with_keys(keys)
    }

    /// The keys' letters, keys ordered by their letters and separated by
    /// spaces, such as `abc def ghi`.
    pub fn to_string(&self) -> (r: String)
        ensures
            exists|l: Seq<Key>| l.to_multiset() == self@.to_multiset() && sorted_by_text(l) && r@ == spaced_texts(l),
    {
        let sorted = sorted_keys(&self.keys);
        let mut result = String::new();
        let mut i: usize = 0;
        proof {
            assert(sorted@.take(0) =~= Seq::<Key>::empty());
        }
        while i < sorted.len()
            invariant
                i <= sorted@.len(),
                result@ == spaced_texts(sorted@.take(i as int)),
            decreases sorted@.len() - i,
        {
            let text = sorted[i].to_string();
            proof {
                assert(sorted@.take(i + 1).drop_last() =~= sorted@.take(i as int));
            }
            if i > 0 {
                push_char(&mut result, ' ');
            }
            result.append(text.as_str());
            proof {
                if i == 0 {
                    assert(result@ =~= key_text(sorted@[0]));
                }
            }
            i = i + 1;
        }
        proof {
            assert(sorted@.take(sorted@.len() as int) =~= sorted@);
        }
        result
    }

    /// The keys to type for the letters, their letters separated by commas,
    /// such as `tmn,ehx,ehx`. Every letter must be on the keyboard.
    pub fn spell(&self, letters: &Vec<Letter>) -> (r: String)
        requires
            forall|i: int| 0 <= i < letters@.len() ==> letters_of(self@).contains(#[trigger] letters@[i].index()),
        ensures
            exists|ks: Seq<Key>| ks.len() == letters@.len() && (forall|i: int| 0 <= i < ks.len() ==> (#[trigger] ks[i])@.contains(letters@[i].index()) && self@.contains(ks[i]))
                && r@ == comma_texts(ks),
    {
        let mut result = String::new();
        let ghost mut ks: Seq<Key> = Seq::empty();
        let mut i: usize = 0;
        while i < letters.len()
            invariant
                i <= letters@.len(),
                forall|j: int| 0 <= j < letters@.len() ==> letters_of(self@).contains(#[trigger] letters@[j].index()),
                ks.len() == i,
                forall|j: int| 0 <= j < i ==> (#[trigger] ks[j])@.contains(letters@[j].index()) && self@.contains(ks[j]),
                result@ == comma_texts(ks),
            decreases letters@.len() - i,
        {
            let found = self.find_key(letters[i]);
            proof {
                assert(letters_of(self@).contains(letters@[i as int].index()));
            }
            let key = found.unwrap();
            let text = key.to_string();
            if i > 0 {
                push_char(&mut result, ',');
            }
            result.append(text.as_str());
            proof {
                let old_ks = ks;
                ks = ks.push(key);
                assert(ks.drop_last() =~= old_ks);
                if i == 0 {
                    assert(result@ =~= key_text(ks[0]));
                }
            }
            i = i + 1;
        }
        result
    }

    /// The keys to type for the letters as one number (see `spell_code`). Every
    /// letter must be on the keyboard.
    pub fn spell_serialized(&self, letters: &Vec<Letter>) -> (r: u128)
        requires
            forall|i: int| 0 <= i < letters@.len() ==> letters_of(self@).contains(#[trigger] letters@[i].index()),
        ensures
            exists|ix: Seq<usize>| ix.len() == letters@.len() && (forall|i: int| 0 <= i < ix.len() ==> locates(self@, letters@[i].index(), Some(#[trigger] ix[i])))
                && r == spell_code(ix),
    {
        proof {
            use_type_invariant(self);
        }
        let mut result: u128 = 0;
        let ghost mut ix: Seq<usize> = Seq::empty();
        let mut i: usize = 0;
        while i < letters.len()
            invariant
                i <= letters@.len(),
                forall|j: int| 0 <= j < letters@.len() ==> letters_of(self@).contains(#[trigger] letters@[j].index()),
                ix.len() == i,
                forall|j: int| 0 <= j < i ==> locates(self@, letters@[j].index(), Some(#[trigger] ix[j])),
                result == spell_code(ix),
            decreases letters@.len() - i,
        {
            let found = self.find_key_index(letters[i]);
            proof {
                lemma_letters_of(self@, letters@[i as int].index());
                assert(letters_of(self@).contains(letters@[i as int].index()));
            }
            let index = found.unwrap();
            let code = (index as u128) + 1;
            proof {
                let old_ix = ix;
                ix = ix.push(index);
                assert(ix.drop_last() =~= old_ix);
            }
            result = (result << 5u128) | code;
            i = i + 1;
        }
        result
    }

    /// The keyboard with letter `la` of key `a` and letter `lb` of key `b`
    /// trading places.
    pub fn swap_letters(&self, a: usize, b: usize, la: Letter, lb: Letter) -> (r: Keyboard)
        requires
            is_swap(self@, a as int, b as int, la.index(), lb.index()),
        ensures
            key_sets(r@) == swap_sets(self@, a as int, b as int, la.index(), lb.index()),
    {
        proof {
            use_type_invariant(self);
        }
        let a_after = self.keys[a].remove(la).add(lb);
        let b_after = self.keys[b].remove(lb).add(la);
        let mut keys = self.keys.clone();
        proof {
            assert(keys@ =~= self.keys@);
        }
        keys.set(a, a_after);
        keys.set(b, b_after);
        proof {
            let ks = self@;
            assert(ks[a as int]@.disjoint(ks[b as int]@)) by {
                if a < b {
                } else {
                    assert(ks[b as int]@.disjoint(ks[a as int]@));
                    assert forall|l: u32| ks[a as int]@.contains(l) implies !ks[b as int]@.contains(l) by {}
                }
            }
            assert forall|x: int, y: int| 0 <= x < y < keys@.len() implies keys@[x]@.disjoint(keys@[y]@) by {
                assert forall|l: u32| keys@[x]@.contains(l) implies !keys@[y]@.contains(l) by {
                    if keys@[y]@.contains(l) {
                        // each letter of a new key was on key a or key b, or on the same key before
                        let src_x: int = if x == a as int {
                            if l == lb.index() { b as int } else { a as int }
                        } else if x == b as int {
                            if l == la.index() { a as int } else { b as int }
                        } else {
                            x
                        };
                        let src_y: int = if y == a as int {
                            if l == lb.index() { b as int } else { a as int }
                        } else if y == b as int {
                            if l == la.index() { a as int } else { b as int }
                        } else {
                            y
                        };
                        assert(ks[src_x]@.contains(l));
                        assert(ks[src_y]@.contains(l));
                        if src_x != src_y {
                            if src_x < src_y {
                                assert(ks[src_x]@.disjoint(ks[src_y]@));
                            } else {
                                assert(ks[src_y]@.disjoint(ks[src_x]@));
                            }
                        } else {
                            assert(x != y);
                            if x != a as int && x != b as int {
                                assert(src_x == x);
                                assert(y == a as int || y == b as int);
                                if y == a as int {
                                    assert(l != la.index() || l == lb.index());
                                    if l == lb.index() {
                                        assert(ks[b as int]@.contains(l));
                                        assert(x != b as int);
                                    }
                                } else {
                                    if l == la.index() {
                                        assert(ks[a as int]@.contains(l));
                                    }
                                }
                            } else if y != a as int && y != b as int {
                                assert(src_y == y);
                            } else {
                                assert(l == la.index() || l == lb.index());
                            }
                        }
                    }
                }
            }
        }
        let r = Keyboard::with_keys(keys);
        proof {
            assert(key_sets(r@) =~= swap_sets(self@, a as int, b as int, la.index(), lb.index()));
        }
        r
    }

    /// Every keyboard made by trading a letter of one key with a letter of a
    /// later key: one keyboard for each such trade, no two the same. The
    /// keyboard needs two keys or more.
    pub fn every_swap(&self) -> (r: Vec<Keyboard>)
        requires
            self@.len() >= 2,
        ensures
            forall|k: int| 0 <= k < r@.len() ==> is_some_swap(self@, #[trigger] r@[k]),
            forall|a: int, b: int, la: u32, lb: u32| is_ordered_swap(self@, a, b, la, lb) ==> #[trigger] has_swap(r@, self@, a, b, la, lb),
            forall|i: int, j: int| 0 <= i < j < r@.len() ==> r@[i]@ != r@[j]@,
    {
        proof {
            use_type_invariant(self);
        }
        let ghost keys = self@;
        let ghost mut made: Seq<(int, int, u32, u32)> = Seq::empty();
        let n = self.keys.len();
        let mut result: Vec<Keyboard> = Vec::new();
        let mut a: usize = 0;
        while a < n - 1
            invariant
                keys == self@,
                disjoint_keys(keys),
                n == keys.len(),
                n >= 2,
                a <= n - 1,
                swaps_so_far(keys, result@, made, a as int, 0, Seq::empty(), 0, Seq::empty()),
                forall|x: int, b: int, la: u32, lb: u32| x < a && is_ordered_swap(keys, x, b, la, lb) ==> #[trigger] has_swap(result@, keys, x, b, la, lb),
            decreases n - 1 - a,
        {
            let mut b: usize = a + 1;
            proof {
                assert forall|k: int| 0 <= k < made.len() implies swap_before(#[trigger] made[k], a as int, b as int, Seq::empty(), 0, Seq::empty()) by {
                    assert(swap_before(made[k], a as int, 0, Seq::empty(), 0, Seq::empty()));
                }
            }
            while b < n
                invariant
                    keys == self@,
                    disjoint_keys(keys),
                    n == keys.len(),
                    a < n - 1,
                    a + 1 <= b <= n,
                    swaps_so_far(keys, result@, made, a as int, b as int, Seq::empty(), 0, Seq::empty()),
                    forall|x: int, y: int, la: u32, lb: u32| (x < a || (x == a && y < b)) && is_ordered_swap(keys, x, y, la, lb) ==> #[trigger] has_swap(result@, keys, x, y, la, lb),
                decreases n - b,
            {
                let a_key = self.keys[a];
                let b_key = self.keys[b];
                let a_letters = a_key.letters();
                let b_letters = b_key.letters();
                proof {
                    a_key.lemma_items();
                    b_key.lemma_items();
                    assert(a_key.items().take(0) =~= Seq::<u32>::empty());
                }
                let mut t: usize = 0;
                while t < a_letters.len()
                    invariant
                        keys == self@,
                        disjoint_keys(keys),
                        n == keys.len(),
                        a < b < n,
                        a_key == keys[a as int],
                        b_key == keys[b as int],
                        a_letters@.len() == a_key.items().len(),
                        forall|k: int| 0 <= k < a_letters@.len() ==> #[trigger] a_letters@[k].index() == a_key.items()[k],
                        b_letters@.len() == b_key.items().len(),
                        forall|k: int| 0 <= k < b_letters@.len() ==> #[trigger] b_letters@[k].index() == b_key.items()[k],
                        forall|l: u32| a_key@.contains(l) <==> a_key.items().contains(l),
                        forall|l: u32| b_key@.contains(l) <==> b_key.items().contains(l),
                        a_key.items().no_duplicates(),
                        b_key.items().no_duplicates(),
                        t <= a_letters@.len(),
                        swaps_so_far(keys, result@, made, a as int, b as int, a_key.items().take(t as int), 0, Seq::empty()),
                        forall|x: int, y: int, la: u32, lb: u32| (x < a || (x == a && y < b)) && is_ordered_swap(keys, x, y, la, lb) ==> #[trigger] has_swap(result@, keys, x, y, la, lb),
                        forall|la: u32, lb: u32| a_key.items().take(t as int).contains(la) && is_ordered_swap(keys, a as int, b as int, la, lb) ==> #[trigger] has_swap(result@, keys, a as int, b as int, la, lb),
                    decreases a_letters@.len() - t,
                {
                    let la = a_letters[t];
                    proof {
                        assert(b_key.items().take(0) =~= Seq::<u32>::empty());
                        assert forall|k: int| 0 <= k < made.len() implies swap_before(#[trigger] made[k], a as int, b as int, a_key.items().take(t as int), la.index(), b_key.items().take(0)) by {
                            assert(swap_before(made[k], a as int, b as int, a_key.items().take(t as int), 0, Seq::empty()));
                        }
                    }
                    let mut u: usize = 0;
                    while u < b_letters.len()
                        invariant
                            keys == self@,
                            disjoint_keys(keys),
                            n == keys.len(),
                            a < b < n,
                            a_key == keys[a as int],
                            b_key == keys[b as int],
                            a_letters@.len() == a_key.items().len(),
                            forall|k: int| 0 <= k < a_letters@.len() ==> #[trigger] a_letters@[k].index() == a_key.items()[k],
                            b_letters@.len() == b_key.items().len(),
                            forall|k: int| 0 <= k < b_letters@.len() ==> #[trigger] b_letters@[k].index() == b_key.items()[k],
                            forall|l: u32| a_key@.contains(l) <==> a_key.items().contains(l),
                            forall|l: u32| b_key@.contains(l) <==> b_key.items().contains(l),
                            a_key.items().no_duplicates(),
                            b_key.items().no_duplicates(),
                            t < a_letters@.len(),
                            la == a_letters@[t as int],
                            u <= b_letters@.len(),
                            swaps_so_far(keys, result@, made, a as int, b as int, a_key.items().take(t as int), la.index(), b_key.items().take(u as int)),
                            forall|x: int, y: int, la: u32, lb: u32| (x < a || (x == a && y < b)) && is_ordered_swap(keys, x, y, la, lb) ==> #[trigger] has_swap(result@, keys, x, y, la, lb),
                            forall|la: u32, lb: u32| a_key.items().take(t as int).contains(la) && is_ordered_swap(keys, a as int, b as int, la, lb) ==> #[trigger] has_swap(result@, keys, a as int, b as int, la, lb),
                            forall|lb: u32| b_key.items().take(u as int).contains(lb) && is_ordered_swap(keys, a as int, b as int, la.index(), lb) ==> #[trigger] has_swap(result@, keys, a as int, b as int, la.index(), lb),
                        decreases b_letters@.len() - u,
                    {
                        let lb = b_letters[u];
                        let ghost before = result@;
                        let ghost made_before = made;
                        let ghost cur = (a as int, b as int, la.index(), lb.index());
                        proof {
                            assert(a_key.items().contains(la.index()));
                            assert(b_key.items().contains(lb.index()));
                        }
                        let k = self.swap_letters(a, b, la, lb);
                        result.push(k);
                        proof {
                            made = made.push(cur);
                            let last = result@.len() - 1;
                            assert(result@[last] == k);
                            assert(is_ordered_swap(keys, a as int, b as int, la.index(), lb.index()));
                            assert(!a_key.items().take(t as int).contains(la.index())) by {
                                if a_key.items().take(t as int).contains(la.index()) {
                                    let j = choose|j: int| 0 <= j < t && a_key.items().take(t as int)[j] == la.index();
                                    assert(a_key.items()[j] == a_key.items()[t as int]);
                                }
                            }
                            assert(!b_key.items().take(u as int).contains(lb.index())) by {
                                if b_key.items().take(u as int).contains(lb.index()) {
                                    let j = choose|j: int| 0 <= j < u && b_key.items().take(u as int)[j] == lb.index();
                                    assert(b_key.items()[j] == b_key.items()[u as int]);
                                }
                            }
                            assert(b_key.items().take(u + 1) =~= b_key.items().take(u as int).push(lb.index()));
                            assert forall|i: int| 0 <= i < made.len() implies is_ordered_swap(keys, (#[trigger] made[i]).0, made[i].1, made[i].2, made[i].3)
                                && key_sets(result@[i]@) == swap_sets(keys, made[i].0, made[i].1, made[i].2, made[i].3)
                                && swap_before(made[i], a as int, b as int, a_key.items().take(t as int), la.index(), b_key.items().take(u + 1)) by {
                                if i < made_before.len() {
                                    assert(made[i] == made_before[i]);
                                    assert(result@[i] == before[i]);
                                    assert(swap_before(made_before[i], a as int, b as int, a_key.items().take(t as int), la.index(), b_key.items().take(u as int)));
                                    if b_key.items().take(u as int).contains(made[i].3) {
                                        let j = choose|j: int| 0 <= j < u && b_key.items().take(u as int)[j] == made[i].3;
                                        assert(b_key.items().take(u + 1)[j] == made[i].3);
                                    }
                                } else {
                                    assert(b_key.items().take(u + 1)[u as int] == lb.index());
                                }
                            }
                            assert forall|i: int, j: int| 0 <= i < j < made.len() implies made[i] != made[j] by {
                                if j < made_before.len() {
                                    assert(made[i] == made_before[i] && made[j] == made_before[j]);
                                } else {
                                    assert(made[i] == made_before[i]);
                                    assert(swap_before(made_before[i], a as int, b as int, a_key.items().take(t as int), la.index(), b_key.items().take(u as int)));
                                }
                            }
                            assert forall|x: int, y: int, la2: u32, lb2: u32| has_swap(before, keys, x, y, la2, lb2)
                                implies #[trigger] has_swap(result@, keys, x, y, la2, lb2) by {
                                lemma_has_swap_push(before, k, keys, x, y, la2, lb2);
                            }
                            assert(has_swap(result@, keys, a as int, b as int, la.index(), lb.index()));
                            assert forall|lb2: u32| b_key.items().take(u + 1).contains(lb2) && is_ordered_swap(keys, a as int, b as int, la.index(), lb2)
                                implies #[trigger] has_swap(result@, keys, a as int, b as int, la.index(), lb2) by {
                                let j = choose|j: int| 0 <= j < u + 1 && #[trigger] b_key.items().take(u + 1)[j] == lb2;
                                if j < u {
                                    assert(b_key.items().take(u as int)[j] == lb2);
                                } else {
                                    assert(lb2 == lb.index());
                                }
                            }
                        }
                        u = u + 1;
                    }
                    proof {
                        assert(b_key.items().take(b_letters@.len() as int) =~= b_key.items());
                        assert(a_key.items().take(t + 1) =~= a_key.items().take(t as int).push(la.index()));
                        assert forall|k: int| 0 <= k < made.len() implies swap_before(#[trigger] made[k], a as int, b as int, a_key.items().take(t + 1), 0, Seq::empty()) by {
                            assert(swap_before(made[k], a as int, b as int, a_key.items().take(t as int), la.index(), b_key.items()));
                            if a_key.items().take(t as int).contains(made[k].2) {
                                let j = choose|j: int| 0 <= j < t && a_key.items().take(t as int)[j] == made[k].2;
                                assert(a_key.items().take(t + 1)[j] == made[k].2);
                            }
                            if made[k].0 == a && made[k].1 == b && made[k].2 == la.index() {
                                assert(a_key.items().take(t + 1)[t as int] == la.index());
                            }
                        }
                        assert forall|la2: u32, lb2: u32| a_key.items().take(t + 1).contains(la2) && is_ordered_swap(keys, a as int, b as int, la2, lb2)
                            implies #[trigger] has_swap(result@, keys, a as int, b as int, la2, lb2) by {
                            let j = choose|j: int| 0 <= j < t + 1 && #[trigger] a_key.items().take(t + 1)[j] == la2;
                            if j < t {
                                assert(a_key.items().take(t as int)[j] == la2);
                            } else {
                                assert(la2 == la.index());
                                assert(b_key.items().contains(lb2));
                            }
                        }
                    }
                    t = t + 1;
                }
                proof {
                    assert(a_key.items().take(a_letters@.len() as int) =~= a_key.items());
                    assert forall|k: int| 0 <= k < made.len() implies swap_before(#[trigger] made[k], a as int, b + 1, Seq::empty(), 0, Seq::empty()) by {
                        assert(swap_before(made[k], a as int, b as int, a_key.items(), 0, Seq::empty()));
                    }
                    assert forall|x: int, y: int, la2: u32, lb2: u32| (x < a || (x == a && y < b + 1)) && is_ordered_swap(keys, x, y, la2, lb2)
                        implies #[trigger] has_swap(result@, keys, x, y, la2, lb2) by {
                        if x == a && y == b {
                            assert(a_key.items().contains(la2));
                        }
                    }
                }
                b = b + 1;
            }
            proof {
                assert forall|k: int| 0 <= k < made.len() implies swap_before(#[trigger] made[k], a + 1, 0, Seq::empty(), 0, Seq::empty()) by {
                    assert(swap_before(made[k], a as int, n as int, Seq::empty(), 0, Seq::empty()));
                }
                assert forall|x: int, y: int, la2: u32, lb2: u32| x < a + 1 && is_ordered_swap(keys, x, y, la2, lb2)
                    implies #[trigger] has_swap(result@, keys, x, y, la2, lb2) by {
                    if x == a {
                        assert(y < n);
                    }
                }
            }
            a = a + 1;
        }
        proof {
            assert forall|x: int, y: int, la2: u32, lb2: u32| is_ordered_swap(keys, x, y, la2, lb2)
                implies #[trigger] has_swap(result@, keys, x, y, la2, lb2) by {
                assert(x < n - 1);
            }
            assert forall|k: int| 0 <= k < result@.len() implies is_some_swap(keys, #[trigger] result@[k]) by {
                let t = made[k];
                assert(is_ordered_swap(keys, t.0, t.1, t.2, t.3) && key_sets(result@[k]@) == swap_sets(keys, t.0, t.1, t.2, t.3));
            }
            assert forall|i: int, j: int| 0 <= i < j < result@.len() implies result@[i]@ != result@[j]@ by {
                let ti = made[i];
                let tj = made[j];
                assert(key_sets(result@[i]@) == swap_sets(keys, ti.0, ti.1, ti.2, ti.3));
                assert(key_sets(result@[j]@) == swap_sets(keys, tj.0, tj.1, tj.2, tj.3));
                if result@[i]@ == result@[j]@ {
                    lemma_swap_sets_injective(keys, ti, tj);
                }
            }
        }
        result
    }

    /// Trades a random letter of one random key with a random letter of
    /// another. Fails on a keyboard with fewer than two keys. Every key must
    /// hold a letter.
    pub fn swap_random_letters(&self) -> (r: Result<Keyboard, &'static str>)
        requires
            forall|i: int| 0 <= i < self@.len() ==> (#[trigger] self@[i])@.len() > 0,
        ensures
            r is Err <==> self@.len() < 2,
            r matches Ok(k) ==> exists|a: int, b: int, la: u32, lb: u32|
                is_swap(self@, a, b, la, lb) && #[trigger] swap_sets(self@, a, b, la, lb) == key_sets(k@),
    {
        let total_keys = self.keys.len();
        if total_keys == 1 {
            Err("It is not possible to swap letters on a keyboard with only 1 key.")
        } else if total_keys == 0 {
            Err("It is not possible to swap letters on a keyboard with 0 keys.")
        } else {
            let from_index = gen_range_below(total_keys);
            let other = gen_range_below(total_keys - 1);
            let to_index = if other >= from_index {
                other + 1
            } else {
                other
            };
            let a_key = self.keys[from_index];
            let b_key = self.keys[to_index];
            proof {
                assert(self@[from_index as int]@.len() > 0);
                assert(self@[to_index as int]@.len() > 0);
            }
            let la = a_key.random_letter().unwrap();
            let lb = b_key.random_letter().unwrap();
            let k = self.swap_letters(from_index, to_index, la, lb);
            proof {
                assert(is_swap(self@, from_index as int, to_index as int, la.index(), lb.index()));
            }
            Ok(k)
        }
    }

    /// Trades random letters `count` times in a row; see `swap_random_letters`.
    pub fn swap_random_letters_n_times(&self, count: u32) -> (r: Result<Keyboard, &'static str>)
        requires
            forall|i: int| 0 <= i < self@.len() ==> (#[trigger] self@[i])@.len() > 0,
        ensures
            r is Err <==> count > 0 && self@.len() < 2,
            r matches Ok(k) ==> k@.len() == self@.len() && letters_of(k@) == letters_of(self@)
                && forall|i: int| 0 <= i < k@.len() ==> (#[trigger] k@[i])@.len() == self@[i]@.len(),
            count == 0 ==> (r matches Ok(k) && k@ == self@),
            r matches Ok(k) ==> exists|c: Seq<Seq<Key>>|
                c.len() == count + 1 && c[0] == self@ && c.last() == k@ && #[trigger] trade_chain(c),
        decreases count,
    {
        self.lemma_disjoint();
        if count == 0 {
            let r = self.clone();
            proof {
                let c = seq![self@];
                assert(c.last() == r@);
                assert(trade_chain(c));
            }
            Ok(r)
        } else {
            match self.swap_random_letters() {
                Err(e) => Err(e),
                Ok(k) => {
                    let ghost (a, b, la, lb) = choose|a: int, b: int, la: u32, lb: u32|
                        is_swap(self@, a, b, la, lb) && #[trigger] swap_sets(self@, a, b, la, lb) == key_sets(k@);
                    proof {
                        assert forall|i: int| 0 <= i < self@.len() implies (#[trigger] self@[i])@.finite() by {
                            self@[i].lemma_items();
                        }
                        lemma_swap_keeps(self@, k@, a, b, la, lb);
                    }
                    let r = k.swap_random_letters_n_times(count - 1);
                    proof {
                        if r is Ok {
                            let kk = r->Ok_0;
                            let c1 = choose|c: Seq<Seq<Key>>|
                                c.len() == count && c[0] == k@ && c.last() == kk@ && #[trigger] trade_chain(c);
                            let c = seq![self@] + c1;
                            assert(one_trade(self@, k@));
                            assert forall|i: int| 0 <= i < c.len() - 1 implies #[trigger] one_trade(c[i], c[i + 1]) by {
                                if i > 0 {
                                    assert(c[i] == c1[i - 1] && c[i + 1] == c1[i]);
                                    assert(one_trade(c1[i - 1], c1[i - 1 + 1]));
                                }
                            }
                            assert(trade_chain(c));
                            assert(c.last() == c1.last());
                        }
                    }
                    r
                },
            }
        }
    }

    /// The keyboard of `alphabet` with the key sizes of `layout`, each key the
    /// first candidate of its row of `draws` that `prohibited` allows, or
    /// `None` when some row holds no allowed candidate. The rows come in key
    /// order; every candidate of a row has the key's size, lies within the
    /// alphabet and shares no letter with the keys picked from earlier rows.
    /// Only the last row may lack an allowed candidate, and there are fewer
    /// rows than keys only when it does.
    pub fn from_draws(alphabet: Key, layout: &Vec<u32>, draws: &Vec<Vec<Key>>, prohibited: &Prohibited) -> (r: Option<Keyboard>)
        requires
            crate::partitions::seq_sum(layout@) == alphabet@.len(),
            draws@.len() <= layout@.len(),
            forall|i: int| 0 <= i < draws@.len() - 1 ==> first_allowed_at((#[trigger] draws@[i])@, prohibited.groups()) < draws@[i]@.len(),
            draws@.len() < layout@.len() ==> draws@.len() > 0 && first_allowed_at(draws@.last()@, prohibited.groups()) == draws@.last()@.len(),
            forall|i: int, t: int| 0 <= i < draws@.len() && 0 <= t < draws@[i]@.len() ==> {
                let c = (#[trigger] draws@[i]@[t])@;
                &&& c.len() == layout@[i]
                &&& c.subset_of(alphabet@)
                &&& forall|j: int| 0 <= j < i ==> c.disjoint((#[trigger] picked_keys(draws@, prohibited.groups())[j])@)
            },
        ensures
            r is None <==> exists|i: int| 0 <= i < draws@.len() && first_allowed_at((#[trigger] draws@[i])@, prohibited.groups()) == draws@[i]@.len(),
            r matches Some(k) ==> k@ == picked_keys(draws@, prohibited.groups()) && k@.len() == layout@.len(),
            r matches Some(k) ==> forall|i: int| 0 <= i < k@.len() ==> (#[trigger] k@[i])@.len() == layout@[i]
                && k@[i]@.subset_of(alphabet@) && allows(prohibited.groups(), k@[i]@),
            r matches Some(k) ==> letters_of(k@) == alphabet@,
    {
        let ghost groups = prohibited.groups();
        let ghost picks = picked_keys(draws@, groups);
        proof {
            alphabet.lemma_items();
        }
        let mut keys: Vec<Key> = Vec::new();
        let mut remain = alphabet;
        let mut i: usize = 0;
        while i < draws.len()
            invariant
                i <= draws@.len(),
                draws@.len() <= layout@.len(),
                groups == prohibited.groups(),
                picks == picked_keys(draws@, groups),
                crate::partitions::seq_sum(layout@) == alphabet@.len(),
                alphabet@.finite(),
                remain@.finite(),
                remain@.subset_of(alphabet@),
                remain@.len() + crate::partitions::seq_sum(layout@.take(i as int)) == alphabet@.len(),
                keys@ == picks.take(i as int),
                forall|k: int| 0 <= k < i ==> (#[trigger] keys@[k])@.len() == layout@[k] && keys@[k]@.subset_of(alphabet@)
                    && allows(groups, keys@[k]@),
                forall|k: int| 0 <= k < i ==> (#[trigger] keys@[k])@.disjoint(remain@),
                disjoint_keys(keys@),
                forall|l: u32| #[trigger] alphabet@.contains(l) ==> remain@.contains(l) || exists|k: int| 0 <= k < i && (#[trigger] keys@[k])@.contains(l),
                forall|k: int| 0 <= k < i ==> first_allowed_at((#[trigger] draws@[k])@, groups) < draws@[k]@.len(),
                forall|k: int, t: int| 0 <= k < draws@.len() && 0 <= t < draws@[k]@.len() ==> {
                    let c = (#[trigger] draws@[k]@[t])@;
                    &&& c.len() == layout@[k]
                    &&& c.subset_of(alphabet@)
                    &&& forall|j: int| 0 <= j < k ==> c.disjoint((#[trigger] picked_keys(draws@, prohibited.groups())[j])@)
                },
            decreases draws@.len() - i,
        {
            let row = &draws[i];
            proof {
                crate::partitions::lemma_sum_prefix(layout@, i + 1);
                assert(layout@.take(i + 1).drop_last() =~= layout@.take(i as int));
                lemma_first_allowed_at(row@, groups);
            }
            let t = match first_allowed(row, prohibited) {
                None => {
                    return None;
                },
                Some(t) => t,
            };
            let key = row[t];
            let ghost before = keys@;
            let ghost old_remain = remain@;
            proof {
                key.lemma_items();
                assert(picks[i as int] == key);
                assert(key@.len() == layout@[i as int]);
                assert forall|l: u32| key@.contains(l) implies old_remain.contains(l) by {
                    assert(alphabet@.contains(l));
                    if !old_remain.contains(l) {
                        let k = choose|k: int| 0 <= k < i && (#[trigger] before[k])@.contains(l);
                        assert(before[k] == picks[k]);
                        assert(key@.disjoint(picks[k]@));
                    }
                }
                assert(key@.subset_of(old_remain));
            }
            keys.push(key);
            remain = remain.except(key);
            proof {
                vstd::set_lib::lemma_set_difference_len(old_remain, key@);
                assert(old_remain.intersect(key@) =~= key@);
                assert(keys@ =~= picks.take(i + 1));
                assert forall|k: int| 0 <= k < i + 1 implies (#[trigger] keys@[k])@.len() == layout@[k] && keys@[k]@.subset_of(alphabet@)
                    && allows(groups, keys@[k]@) by {
                    if k < i {
                        assert(keys@[k] == before[k]);
                    }
                }
                assert forall|k: int| 0 <= k < i + 1 implies (#[trigger] keys@[k])@.disjoint(remain@) by {
                    if k < i {
                        assert(keys@[k] == before[k]);
                    }
                }
                assert forall|l: u32| #[trigger] alphabet@.contains(l) implies remain@.contains(l) || exists|k: int|
                    0 <= k < i + 1 && (#[trigger] keys@[k])@.contains(l) by {
                    if old_remain.contains(l) {
                        if key@.contains(l) {
                            assert(keys@[i as int]@.contains(l));
                        }
                    } else {
                        let k = choose|k: int| 0 <= k < i && (#[trigger] before[k])@.contains(l);
                        assert(keys@[k] == before[k]);
                    }
                }
                assert forall|a: int, b: int| 0 <= a < b < keys@.len() implies keys@[a]@.disjoint(keys@[b]@) by {
                    if b == i {
                        assert(keys@[a] == before[a]);
                        assert(before[a]@.disjoint(old_remain));
                    } else {
                        assert(keys@[a] == before[a] && keys@[b] == before[b]);
                    }
                }
            }
            i = i + 1;
        }
        proof {
            assert(draws@.len() == layout@.len());
            assert(picks.take(draws@.len() as int) =~= picks);
            assert forall|k: int| 0 <= k < draws@.len() implies first_allowed_at((#[trigger] draws@[k])@, groups) != draws@[k]@.len() by {}
        }
        let k = Keyboard::with_keys(keys);
        proof {
            assert(layout@.take(layout@.len() as int) =~= layout@);
            assert(remain@.len() == 0);
            assert forall|l: u32| #[trigger] letters_of(k@).contains(l) == alphabet@.contains(l) by {
                lemma_letters_of(k@, l);
                if alphabet@.contains(l) {
                    if remain@.contains(l) {
                        vstd::set_lib::lemma_set_empty_equivalency_len(remain@);
                        assert(remain@ == Set::<u32>::empty());
                    }
                    let j = choose|j: int| 0 <= j < keys@.len() && (#[trigger] keys@[j])@.contains(l);
                    assert(k@[j]@.contains(l));
                }
                if letters_of(k@).contains(l) {
                    let j = choose|j: int| 0 <= j < k@.len() && (#[trigger] k@[j]@).contains(l);
                    assert(keys@[j]@.subset_of(alphabet@));
                }
            }
            assert(letters_of(k@) =~= alphabet@);
        }
        Some(k)
    }

    /// One try at a random keyboard of `alphabet`: picks one of the layouts
    /// (lists of key sizes) at random, then, key by key, draws five random
    /// keys of the key's size from the letters left and keeps the first that
    /// `prohibited` allows; the keyboard is what `from_draws` makes of these
    /// draws. `None` when a key finds no allowed candidate.
    pub fn random_one(alphabet: Key, layouts: &Vec<Vec<u32>>, prohibited: &Prohibited) -> (r: Option<Keyboard>)
        requires
            layouts@.len() > 0,
            forall|i: int| 0 <= i < layouts@.len() ==> crate::partitions::seq_sum(#[trigger] layouts@[i]@) == alphabet@.len(),
        ensures
            r matches Some(k) ==> exists|li: int| 0 <= li < layouts@.len() && #[trigger] layouts@[li]@.len() == k@.len()
                && forall|i: int| 0 <= i < k@.len() ==> (#[trigger] k@[i])@.len() == layouts@[li]@[i]
                    && k@[i]@.subset_of(alphabet@) && allows(prohibited.groups(), k@[i]@),
            r matches Some(k) ==> letters_of(k@) == alphabet@,
            (forall|s: Set<u32>| s.subset_of(alphabet@) ==> #[trigger] allows(prohibited.groups(), s)) ==> r is Some,
    {
        let ghost allow_all = forall|s: Set<u32>| s.subset_of(alphabet@) ==> #[trigger] allows(prohibited.groups(), s);
        let ghost groups = prohibited.groups();
        let layout_index = gen_range_below(layouts.len());
        let layout = &layouts[layout_index];
        proof {
            alphabet.lemma_items();
        }
        let mut draws: Vec<Vec<Key>> = Vec::new();
        let mut remain = alphabet;
        let mut failed = false;
        while draws.len() < layout.len() && !failed
            invariant
                draws@.len() <= layout@.len(),
                groups == prohibited.groups(),
                crate::partitions::seq_sum(layout@) == alphabet@.len(),
                alphabet@.finite(),
                remain@.finite(),
                remain@.subset_of(alphabet@),
                !failed ==> remain@.len() + crate::partitions::seq_sum(layout@.take(draws@.len() as int)) == alphabet@.len(),
                !failed ==> forall|l: u32| alphabet@.contains(l) && !remain@.contains(l) ==> exists|j: int|
                    0 <= j < draws@.len() && (#[trigger] picked_keys(draws@, groups)[j])@.contains(l),
                !failed ==> forall|j: int| 0 <= j < draws@.len() ==> (#[trigger] picked_keys(draws@, groups)[j])@.disjoint(remain@),
                forall|i: int| 0 <= i < draws@.len() - 1 ==> first_allowed_at((#[trigger] draws@[i])@, groups) < draws@[i]@.len(),
                !failed ==> forall|i: int| 0 <= i < draws@.len() ==> first_allowed_at((#[trigger] draws@[i])@, groups) < draws@[i]@.len(),
                failed ==> draws@.len() > 0 && first_allowed_at(draws@.last()@, groups) == draws@.last()@.len(),
                forall|i: int, t: int| 0 <= i < draws@.len() && 0 <= t < draws@[i]@.len() ==> {
                    let c = (#[trigger] draws@[i]@[t])@;
                    &&& c.len() == layout@[i]
                    &&& c.subset_of(alphabet@)
                    &&& forall|j: int| 0 <= j < i ==> c.disjoint((#[trigger] picked_keys(draws@, groups)[j])@)
                },
                allow_all == forall|s: Set<u32>| s.subset_of(alphabet@) ==> #[trigger] allows(groups, s),
                allow_all ==> !failed,
            decreases layout@.len() - draws@.len(), if failed { 0int } else { 1int },
        {
            let i = draws.len();
            let size = layout[i];
            remain.lemma_letters_in_alphabet();
            proof {
                crate::partitions::lemma_sum_prefix(layout@, i + 1);
                assert(layout@.take(i + 1).drop_last() =~= layout@.take(i as int));
                remain.lemma_items();
            }
            let mut candidates: Vec<Key> = Vec::new();
            while candidates.len() < 5
                invariant
                    size <= remain@.len(),
                    size <= 27,
                    candidates@.len() <= 5,
                    forall|t: int| 0 <= t < candidates@.len() ==> (#[trigger] candidates@[t])@.len() == size
                        && candidates@[t]@.subset_of(remain@),
                decreases 5 - candidates@.len(),
            {
                candidates.push(remain.random_subset(size as u8, size as u8));
            }
            let pick = first_allowed(&candidates, prohibited);
            let picked: Option<Key> = match pick {
                None => None,
                Some(t) => Some(candidates[t]),
            };
            let ghost before = draws@;
            let ghost old_remain = remain@;
            proof {
                lemma_first_allowed_at(candidates@, groups);
                if allow_all {
                    assert(candidates@[0]@.subset_of(alphabet@));
                    assert(allows(groups, candidates@[0]@));
                }
            }
            draws.push(candidates);
            proof {
                assert forall|j: int| 0 <= j < i implies #[trigger] picked_keys(draws@, groups)[j] == picked_keys(before, groups)[j] by {
                    assert(draws@[j] == before[j]);
                }
                assert(draws@[i as int]@ == candidates@);
            }
            match picked {
                None => {
                    failed = true;
                    proof {
                        assert(draws@.last() == draws@[i as int]);
                        assert forall|k: int| 0 <= k < draws@.len() - 1 implies first_allowed_at((#[trigger] draws@[k])@, groups) < draws@[k]@.len() by {
                            assert(draws@[k] == before[k]);
                        }
                    }
                },
                Some(key) => {
                    proof {
                        key.lemma_items();
                        assert(picked_keys(draws@, groups)[i as int] == key);
                    }
                    remain = remain.except(key);
                    proof {
                        vstd::set_lib::lemma_set_difference_len(old_remain, key@);
                        assert(old_remain.intersect(key@) =~= key@);
                        assert forall|l: u32| alphabet@.contains(l) && !remain@.contains(l) implies exists|j: int|
                            0 <= j < draws@.len() && (#[trigger] picked_keys(draws@, groups)[j])@.contains(l) by {
                            if old_remain.contains(l) {
                                assert(key@.contains(l));
                                assert(picked_keys(draws@, groups)[i as int]@.contains(l));
                            } else {
                                let j = choose|j: int| 0 <= j < before.len() && (#[trigger] picked_keys(before, groups)[j])@.contains(l);
                                assert(picked_keys(draws@, groups)[j] == picked_keys(before, groups)[j]);
                            }
                        }
                        assert forall|j: int| 0 <= j < draws@.len() implies (#[trigger] picked_keys(draws@, groups)[j])@.disjoint(remain@) by {
                            if j < i {
                                assert(picked_keys(draws@, groups)[j] == picked_keys(before, groups)[j]);
                            }
                        }
                        assert forall|k: int| 0 <= k < draws@.len() implies first_allowed_at((#[trigger] draws@[k])@, groups) < draws@[k]@.len() by {
                            if k < i {
                                assert(draws@[k] == before[k]);
                            }
                        }
                    }
                },
            }
            proof {
                assert forall|k: int, u: int| 0 <= k < draws@.len() && 0 <= u < draws@[k]@.len() implies {
                    let c = (#[trigger] draws@[k]@[u])@;
                    &&& c.len() == layout@[k]
                    &&& c.subset_of(alphabet@)
                    &&& forall|j: int| 0 <= j < k ==> c.disjoint((#[trigger] picked_keys(draws@, groups)[j])@)
                } by {
                    if k < i {
                        assert(draws@[k] == before[k]);
                        assert forall|j: int| 0 <= j < k implies draws@[k]@[u]@.disjoint((#[trigger] picked_keys(draws@, groups)[j])@) by {
                            assert(picked_keys(draws@, groups)[j] == picked_keys(before, groups)[j]);
                        }
                    } else {
                        assert(draws@[k]@[u] == candidates@[u]);
                        assert forall|j: int| 0 <= j < k implies draws@[k]@[u]@.disjoint((#[trigger] picked_keys(draws@, groups)[j])@) by {
                            assert(picked_keys(draws@, groups)[j] == picked_keys(before, groups)[j]);
                            assert(picked_keys(before, groups)[j]@.disjoint(old_remain));
                        }
                    }
                }
            }
        }
        let r = Keyboard::from_draws(alphabet, layout, &draws, prohibited);
        proof {
            if r is Some {
                assert(layouts@[layout_index as int]@.len() == r->Some_0@.len());
            }
            if allow_all {
                assert(draws@.len() == layout@.len());
                assert forall|i: int| 0 <= i < draws@.len() implies first_allowed_at((#[trigger] draws@[i])@, groups) != draws@[i]@.len() by {}
            }
        }
        r
    }
}

/// A trade of two letters between two keys keeps the number of keys, the
/// size of each key and the keyboard's letters.
pub proof fn lemma_swap_keeps(keys: Seq<Key>, after: Seq<Key>, a: int, b: int, la: u32, lb: u32)
    requires
        is_swap(keys, a, b, la, lb),
        disjoint_keys(keys),
        swap_sets(keys, a, b, la, lb) == key_sets(after),
        forall|i: int| 0 <= i < keys.len() ==> (#[trigger] keys[i])@.finite(),
    ensures
        after.len() == keys.len(),
        letters_of(after) == letters_of(keys),
        forall|i: int| 0 <= i < after.len() ==> (#[trigger] after[i])@.len() == keys[i]@.len(),
{
    let ks = key_sets(keys);
    assert(key_sets(after).len() == after.len());
    assert(after.len() == keys.len());
    assert forall|i: int| 0 <= i < after.len() implies (#[trigger] after[i])@.len() == keys[i]@.len() by {
        assert(key_sets(after)[i] == after[i]@);
        if i == a {
            assert(!keys[a]@.contains(lb)) by {
                if a < b {
                    assert(keys[a]@.disjoint(keys[b]@));
                } else {
                    assert(keys[b]@.disjoint(keys[a]@));
                }
            }
        } else if i == b {
            assert(!keys[b]@.contains(la)) by {
                if a < b {
                    assert(keys[a]@.disjoint(keys[b]@));
                } else {
                    assert(keys[b]@.disjoint(keys[a]@));
                }
            }
        }
    }
    assert forall|l: u32| letters_of(after).contains(l) <==> letters_of(keys).contains(l) by {
        lemma_letters_of(after, l);
        lemma_letters_of(keys, l);
        if letters_of(after).contains(l) {
            let i = choose|i: int| 0 <= i < after.len() && (#[trigger] after[i]@).contains(l);
            assert(key_sets(after)[i] == after[i]@);
            if i == a {
                if l == lb {
                    assert(keys[b]@.contains(l));
                } else {
                    assert(keys[a]@.contains(l));
                }
            } else if i == b {
                if l == la {
                    assert(keys[a]@.contains(l));
                } else {
                    assert(keys[b]@.contains(l));
                }
            } else {
                assert(keys[i]@.contains(l));
            }
        }
        if letters_of(keys).contains(l) {
            let i = choose|i: int| 0 <= i < keys.len() && (#[trigger] keys[i]@).contains(l);
            assert(key_sets(after)[a] == after[a]@);
            assert(key_sets(after)[b] == after[b]@);
            assert(key_sets(after)[i] == after[i]@);
            if i == a {
                if l == la {
                    assert(after[b]@.contains(l));
                } else {
                    assert(after[a]@.contains(l));
                }
            } else if i == b {
                if l == lb {
                    assert(after[a]@.contains(l));
                } else {
                    assert(after[b]@.contains(l));
                }
            } else {
                assert(after[i]@.contains(l));
            }
        }
    }
    assert(letters_of(after) =~= letters_of(keys));
}

proof fn lemma_size_count_bound(keys: Seq<Key>, n: nat)
    ensures
        size_count(keys, n) <= keys.len(),
    decreases keys.len(),
{
    if keys.len() > 0 {
        lemma_size_count_bound(keys.drop_last(), n);
    }
}

/// The pieces of a prefix of a layout agree with the pieces of the layout,
/// but for the last piece of the prefix, which may continue.
proof fn lemma_pieces_prefix(s: Seq<char>, i: int)
    requires
        0 <= i < s.len(),
    ensures
        s.take(i + 1).drop_last() =~= s.take(i),
        s.take(i + 1).last() == s[i],
{
}

/// A character of a valid layout that is no separator is a letter.
proof fn lemma_piece_char(s: Seq<char>, i: int)
    requires
        0 <= i < s.len(),
        valid_layout(s),
        !is_separator(s[i]),
    ensures
        is_letter_char(s[i]),
{
    lemma_piece_letter(s, i);
}

/// A character of a layout whose pieces are letters is a letter or a
/// separator.
pub proof fn lemma_piece_letter(s: Seq<char>, i: int)
    requires
        0 <= i < s.len(),
        forall|k: int| 0 <= k < layout_pieces(s).len() ==> all_letters(#[trigger] layout_pieces(s)[k]),
        !is_separator(s[i]),
    ensures
        is_letter_char(s[i]),
{
    lemma_pieces_extend(s, i + 1);
    lemma_layout_pieces_len(s.take(i));
    let p = layout_pieces(s.take(i + 1));
    assert(s.take(i + 1).drop_last() =~= s.take(i));
    let k = p.len() - 1;
    assert(p.last().last() == s[i]);
    assert(p.last().is_prefix_of(layout_pieces(s)[k]));
    assert(layout_pieces(s)[k][p.last().len() - 1] == s[i]);
    assert(all_letters(layout_pieces(s)[k]));
}

/// The pieces of a prefix are the first pieces of the whole, the last of them
/// a prefix of its piece.
proof fn lemma_pieces_extend(s: Seq<char>, i: int)
    requires
        0 <= i <= s.len(),
    ensures
        layout_pieces(s.take(i)).len() <= layout_pieces(s).len(),
        forall|k: int| 0 <= k < layout_pieces(s.take(i)).len() - 1 ==> #[trigger] layout_pieces(s.take(i))[k] == layout_pieces(s)[k],
        layout_pieces(s.take(i)).last().is_prefix_of(layout_pieces(s)[layout_pieces(s.take(i)).len() - 1]),
    decreases s.len() - i,
{
    lemma_layout_pieces_len(s.take(i));
    if i == s.len() {
        assert(s.take(i) =~= s);
    } else {
        lemma_pieces_extend(s, i + 1);
        assert(s.take(i + 1).drop_last() =~= s.take(i));
        lemma_layout_pieces_len(s.take(i + 1));
        let p = layout_pieces(s.take(i));
        let q = layout_pieces(s.take(i + 1));
        if is_separator(s[i]) {
            assert(q == p.push(Seq::<char>::empty()));
            assert(q[p.len() - 1] == p.last());
        } else {
            assert(q == p.update(p.len() - 1, p.last().push(s[i])));
            assert(p.last().is_prefix_of(q.last()));
        }
        assert forall|k: int| 0 <= k < p.len() - 1 implies #[trigger] p[k] == layout_pieces(s)[k] by {
            assert(p[k] == q[k]);
        }
    }
}

} // verus!
