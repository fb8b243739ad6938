use vstd::prelude::*;

use crate::key::Key;
use crate::keyboard::{disjoint_keys, Keyboard};
use crate::letter::Letter;

verus! {

/// A key with room for at most `max_size` letters, filled in increasing
/// letter order.
#[derive(Clone, Copy)]
pub struct SizeLimitedKey {
    pub key: Key,
    pub max_size: usize,
}

impl SizeLimitedKey {
    /// An empty key with room for `size` letters.
    pub fn new(size: usize) -> (r: SizeLimitedKey)
        ensures
            r.key@ == Set::<u32>::empty(),
            r.max_size == size,
    {
        SizeLimitedKey { key: Key::empty(), max_size: size }
    }

    /// The key has room for another letter, and `letter` comes after every
    /// letter on it.
    pub fn has_space(&self, letter: Letter) -> (r: bool)
        ensures
            r == (self.key@.len() < self.max_size && forall|l: u32| #[trigger] self.key@.contains(l) ==> l < letter.index()),
    {
        proof {
            self.key.lemma_items();
        }
        let below_max = (self.key.len() as usize) < self.max_size;
        let in_order = match self.key.max_letter() {
            None => true,
            Some(top) => top.to_u32() < letter.to_u32(),
        };
        proof {
            let items = self.key.items();
            if items.len() > 0 {
                assert forall|l: u32| #[trigger] self.key@.contains(l) implies l <= items.last() by {
                    assert(items.contains(l));
                    let i = choose|i: int| 0 <= i < items.len() && items[i] == l;
                    if i < items.len() - 1 {
                        assert(items[i] < items[items.len() - 1]);
                    }
                }
                assert(self.key@.contains(items.last())) by {
                    assert(items.contains(items.last()));
                }
            } else {
                assert forall|l: u32| !#[trigger] self.key@.contains(l) by {
                    assert(!items.contains(l));
                }
            }
        }
        below_max && in_order
    }

    /// The key with `letter` added.
    pub fn insert_letter(&self, letter: Letter) -> (r: SizeLimitedKey)
        ensures
            r.key@ == self.key@.insert(letter.index()),
            r.max_size == self.max_size,
    {
        SizeLimitedKey { key: self.key.add(letter), max_size: self.max_size }
    }
}

/// Keys with size limits being filled letter by letter.
#[derive(Clone)]
pub struct KeyboardInProcess(pub Vec<SizeLimitedKey>);

impl KeyboardInProcess {
    /// Seven empty keys of three letters and three of two.
    pub fn new() -> (r: KeyboardInProcess)
        ensures
            r.0@.len() == 10,
            forall|i: int| 0 <= i < 10 ==> (#[trigger] r.0@[i]).key@ == Set::<u32>::empty() && r.0@[i].max_size
                == if i < 7 {
                3usize
            } else {
                2usize
            },
    {
        let mut items: Vec<SizeLimitedKey> = Vec::new();
        let mut i: usize = 0;
        while i < 10
            invariant
                i <= 10,
                items@.len() == i,
                forall|k: int| 0 <= k < i ==> (#[trigger] items@[k]).key@ == Set::<u32>::empty() && items@[k].max_size
                    == if k < 7 {
                    3usize
                } else {
                    2usize
                },
            decreases 10 - i,
        {
            let size: usize = if i < 7 {
                3
            } else {
                2
            };
            items.push(SizeLimitedKey::new(size));
            i = i + 1;
        }
        KeyboardInProcess(items)
    }

    /// The positions of the keys with space for `letter`, in order.
    pub fn slot_indexes(&self, letter: Letter) -> (r: Vec<usize>)
        ensures
            forall|i: int, j: int| 0 <= i < j < r@.len() ==> r@[i] < r@[j],
            forall|s: usize| r@.contains(s) <==> s < self.0@.len() && (self.0@[s as int].key@.len() < self.0@[s as int].max_size
                && forall|l: u32| #[trigger] self.0@[s as int].key@.contains(l) ==> l < letter.index()),
    {
        let mut r: Vec<usize> = Vec::new();
        let mut i: usize = 0;
        while i < self.0.len()
            invariant
                i <= self.0@.len(),
                forall|a: int, b: int| 0 <= a < b < r@.len() ==> r@[a] < r@[b],
                forall|a: int| 0 <= a < r@.len() ==> r@[a] < i,
                forall|s: usize| r@.contains(s) <==> s < i && (self.0@[s as int].key@.len() < self.0@[s as int].max_size
                    && forall|l: u32| #[trigger] self.0@[s as int].key@.contains(l) ==> l < letter.index()),
            decreases self.0@.len() - i,
        {
            let ghost before = r@;
            if self.0[i].has_space(letter) {
                r.push(i);
                proof {
                    assert(r@[r@.len() - 1] == i);
                }
            }
            proof {
                assert forall|s: usize| r@.contains(s) <==> s < i + 1 && (self.0@[s as int].key@.len() < self.0@[s as int].max_size
                    && forall|l: u32| #[trigger] self.0@[s as int].key@.contains(l) ==> l < letter.index()) by {
                    if r@.contains(s) && !before.contains(s) {
                        let k = choose|k: int| 0 <= k < r@.len() && r@[k] == s;
                        assert(k == r@.len() - 1);
                    }
                    if before.contains(s) {
                        let k = choose|k: int| 0 <= k < before.len() && before[k] == s;
                        assert(r@[k] == s);
                    }
                    if s == i && self.0@[s as int].key@.len() < self.0@[s as int].max_size
                        && forall|l: u32| #[trigger] self.0@[s as int].key@.contains(l) ==> l < letter.index() {
                        assert(r@[r@.len() - 1] == s);
                    }
                }
            }
            i = i + 1;
        }
        r
    }

    /// The keys with `letter` added to the one at `slot`.
    pub fn insert_in_slot(&self, slot: usize, letter: Letter) -> (r: KeyboardInProcess)
        ensures
            r.0@.len() == self.0@.len(),
            forall|i: int| 0 <= i < r.0@.len() ==> (#[trigger] r.0@[i]).max_size == self.0@[i].max_size
                && r.0@[i].key@ == if i == slot {
                self.0@[i].key@.insert(letter.index())
            } else {
                self.0@[i].key@
            },
    {
        let mut keys: Vec<SizeLimitedKey> = Vec::new();
        let mut i: usize = 0;
        while i < self.0.len()
            invariant
                i <= self.0@.len(),
                keys@.len() == i,
                forall|k: int| 0 <= k < i ==> (#[trigger] keys@[k]).max_size == self.0@[k].max_size
                    && keys@[k].key@ == if k == slot {
                    self.0@[k].key@.insert(letter.index())
                } else {
                    self.0@[k].key@
                },
            decreases self.0@.len() - i,
        {
            if i == slot {
                keys.push(self.0[i].insert_letter(letter));
            } else {
                keys.push(self.0[i]);
            }
            i = i + 1;
        }
        KeyboardInProcess(keys)
    }

    /// The keyboard of the keys; no letter may be on two keys.
    pub fn as_keyboard(&self) -> (r: Keyboard)
        requires
            disjoint_keys(self.0@.map_values(|s: SizeLimitedKey| s.key)),
        ensures
            r@ == self.0@.map_values(|s: SizeLimitedKey| s.key),
    {
        let mut keys: Vec<Key> = Vec::new();
        let mut i: usize = 0;
        while i < self.0.len()
            invariant
                i <= self.0@.len(),
                keys@ == self.0@.map_values(|s: SizeLimitedKey| s.key).take(i as int),
            decreases self.0@.len() - i,
        {
            keys.push(self.0[i].key);
            proof {
                assert(keys@ =~= self.0@.map_values(|s: SizeLimitedKey| s.key).take(i + 1));
            }
            i = i + 1;
        }
        proof {
            assert(keys@ =~= self.0@.map_values(|s: SizeLimitedKey| s.key));
        }
        Keyboard::with_keys(keys)
    }
}

} // verus!
