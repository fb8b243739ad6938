use vstd::prelude::*;

verus! {

/// A tree of words by letter index, counting how often each word was added.
pub struct Node {
    count: u32,
    children: Vec<Option<Box<Node>>>,
}

impl Node {
    /// The longest word that can be added.
    pub const MAX_WORD_LENGTH: usize = 35;

    /// How often the word `w` was added below this node.
    pub closed spec fn count_of(self, w: Seq<u8>) -> nat
        decreases w.len(),
    {
        if w.len() == 0 {
            self.count as nat
        } else if w[0] < self.children@.len() {
            match self.children@[w[0] as int] {
                Some(child) => child.count_of(w.drop_first()),
                None => 0,
            }
        } else {
            0
        }
    }

    /// A node with no words.
    pub fn new() -> (r: Node)
        ensures
            forall|w: Seq<u8>| #[trigger] r.count_of(w) == 0,
    {
        let mut children: Vec<Option<Box<Node>>> = Vec::new();
        let mut i: usize = 0;
        while i < 27
            invariant
                i <= 27,
                children@.len() == i,
                forall|k: int| 0 <= k < i ==> #[trigger] children@[k] is None,
            decreases 27 - i,
        {
            children.push(None);
            i = i + 1;
        }
        Node { count: 0, children }
    }

    fn insert_helper(&mut self, word: &Vec<u8>, word_index: usize) -> (r: u32)
        requires
            word_index <= word@.len(),
            forall|i: int| 0 <= i < word@.len() ==> #[trigger] word@[i] < 27,
            old(self).count_of(word@.skip(word_index as int)) < u32::MAX,
        ensures
            r == old(self).count_of(word@.skip(word_index as int)) + 1,
            final(self).count_of(word@.skip(word_index as int)) == r,
            forall|w: Seq<u8>| w != word@.skip(word_index as int) ==> #[trigger] final(self).count_of(w) == old(self).count_of(w),
        decreases word@.len() - word_index,
    {
        let ghost suffix = word@.skip(word_index as int);
        if word_index == word.len() {
            self.count = self.count + 1;
            proof {
                assert forall|w: Seq<u8>| w != suffix implies #[trigger] self.count_of(w) == old(self).count_of(w) by {
                    assert(suffix.len() == 0);
                    if w.len() == 0 {
                        assert(w =~= suffix);
                    }
                }
            }
            self.count
        } else {
            let letter = word[word_index] as usize;
            proof {
                assert(suffix[0] == word@[word_index as int]);
                assert(suffix.drop_first() =~= word@.skip(word_index + 1));
            }
            while self.children.len() <= letter
                invariant
                    letter < 27,
                    self.count == old(self).count,
                    self.children@.len() >= old(self).children@.len(),
                    forall|k: int| 0 <= k < old(self).children@.len() ==> #[trigger] self.children@[k] == old(self).children@[k],
                    forall|k: int| old(self).children@.len() <= k < self.children@.len() ==> #[trigger] self.children@[k] is None,
                decreases 27 - self.children@.len(),
            {
                self.children.push(None);
            }
            let ghost grown = *self;
            proof {
                assert forall|w: Seq<u8>| #[trigger] grown.count_of(w) == old(self).count_of(w) by {
                    if w.len() > 0 && w[0] < grown.children@.len() && w[0] >= old(self).children@.len() {
                        assert(grown.children@[w[0] as int] is None);
                    }
                }
            }
            let taken = self.children[letter].take();
            proof {
                assert(taken == grown.children@[letter as int]);
            }
            let mut node: Box<Node> = match taken {
                None => Box::new(Node::new()),
                Some(child) => child,
            };
            let ghost before_node = *node;
            proof {
                assert forall|x: Seq<u8>| #[trigger] before_node.count_of(x) == (match grown.children@[letter as int] {
                    Some(c) => c.count_of(x),
                    None => 0,
                }) by {}
                assert(before_node.count_of(suffix.drop_first()) == old(self).count_of(suffix));
            }
            let r = node.insert_helper(word, word_index + 1);
            let ghost after_node = *node;
            self.children.set(letter, Some(node));
            proof {
                assert(self.children@ == grown.children@.update(letter as int, Some(Box::new(after_node))));
                assert(self.count == grown.count);
                assert(self.count_of(suffix) == after_node.count_of(suffix.drop_first()));
                assert forall|w: Seq<u8>| w != suffix implies #[trigger] self.count_of(w) == old(self).count_of(w) by {
                    assert(grown.count_of(w) == old(self).count_of(w));
                    if w.len() > 0 && w[0] == letter {
                        assert(w.drop_first() != suffix.drop_first()) by {
                            if w.drop_first() == suffix.drop_first() {
                                assert forall|i: int| 0 <= i < w.len() implies w[i] == suffix[i] by {
                                    if i > 0 {
                                        assert(w[i] == w.drop_first()[i - 1]);
                                        assert(suffix[i] == suffix.drop_first()[i - 1]);
                                    }
                                }
                                assert(w =~= suffix);
                            }
                        }
                        assert(self.count_of(w) == after_node.count_of(w.drop_first()));
                        assert(after_node.count_of(w.drop_first()) == before_node.count_of(w.drop_first()));
                    } else if w.len() > 0 {
                        if w[0] < self.children@.len() {
                            assert(self.children@[w[0] as int] == grown.children@[w[0] as int]);
                        }
                    }
                }
            }
            r
        }
    }

    /// Adds a word of letter indexes and returns how often it has now been
    /// added. The word must have between one and `MAX_WORD_LENGTH` letters,
    /// each below the alphabet size.
    pub fn insert(&mut self, word: &Vec<u8>) -> (r: u32)
        requires
            0 < word@.len() <= 35,
            forall|i: int| 0 <= i < word@.len() ==> #[trigger] word@[i] < 27,
            old(self).count_of(word@) < u32::MAX,
        ensures
            r == old(self).count_of(word@) + 1,
            final(self).count_of(word@) == r,
            forall|w: Seq<u8>| w != word@ ==> #[trigger] final(self).count_of(w) == old(self).count_of(w),
            inserted(*old(self), word@, r, *final(self)),
    {
        proof {
            assert(word@.skip(0) =~= word@);
        }
        self.insert_helper(word, 0)
    }
}

/// What one `insert` of `word` does: the node `after` counts `word` once
/// more, returned as `r`, and every other word as `before` did.
pub open spec fn inserted(before: Node, word: Seq<u8>, r: u32, after: Node) -> bool {
    &&& r == before.count_of(word) + 1
    &&& after.count_of(word) == r
    &&& forall|w: Seq<u8>| w != word ==> #[trigger] after.count_of(w) == before.count_of(w)
}

/// How many of `words` are `w`.
pub open spec fn times(words: Seq<Seq<u8>>, w: Seq<u8>) -> nat
    decreases words.len(),
{
    if words.len() == 0 {
        0
    } else {
        times(words.drop_last(), w) + if words.last() == w {
            1nat
        } else {
            0nat
        }
    }
}

proof fn lemma_history_prefix(states: Seq<Node>, words: Seq<Seq<u8>>, counts: Seq<u32>, k: int)
    requires
        states.len() == words.len() + 1,
        counts.len() == words.len(),
        forall|w: Seq<u8>| #[trigger] states[0].count_of(w) == 0,
        forall|i: int| 0 <= i < words.len() ==> inserted(#[trigger] states[i], words[i], counts[i], states[i + 1]),
        0 <= k <= words.len(),
    ensures
        forall|w: Seq<u8>| #[trigger] states[k].count_of(w) == times(words.take(k), w),
    decreases k,
{
    if k == 0 {
        assert(words.take(0) =~= Seq::<Seq<u8>>::empty());
    } else {
        lemma_history_prefix(states, words, counts, k - 1);
        assert(inserted(states[k - 1], words[k - 1], counts[k - 1], states[k]));
        assert(words.take(k).drop_last() =~= words.take(k - 1));
        assert(words.take(k).last() == words[k - 1]);
        assert forall|w: Seq<u8>| #[trigger] states[k].count_of(w) == times(words.take(k), w) by {
            assert(states[k - 1].count_of(w) == times(words.take(k - 1), w));
        }
    }
}

/// Inserting words one after the other into a new node: each insert returns
/// how many times its word has been inserted so far, itself included, and
/// the node counts each word as often as it was inserted.
pub proof fn lemma_insert_history(states: Seq<Node>, words: Seq<Seq<u8>>, counts: Seq<u32>)
    requires
        states.len() == words.len() + 1,
        counts.len() == words.len(),
        forall|w: Seq<u8>| #[trigger] states[0].count_of(w) == 0,
        forall|i: int| 0 <= i < words.len() ==> inserted(#[trigger] states[i], words[i], counts[i], states[i + 1]),
    ensures
        forall|i: int| 0 <= i < words.len() ==> #[trigger] counts[i] == times(words.take(i + 1), words[i]),
        forall|w: Seq<u8>| #[trigger] states.last().count_of(w) == times(words, w),
{
    assert forall|i: int| 0 <= i < words.len() implies #[trigger] counts[i] == times(words.take(i + 1), words[i]) by {
        lemma_history_prefix(states, words, counts, i);
        assert(inserted(states[i], words[i], counts[i], states[i + 1]));
        assert(words.take(i + 1).drop_last() =~= words.take(i));
        assert(words.take(i + 1).last() == words[i]);
        assert(states[i].count_of(words[i]) == times(words.take(i), words[i]));
    }
    lemma_history_prefix(states, words, counts, words.len() as int);
    assert(words.take(words.len() as int) =~= words);
}

} // verus!
