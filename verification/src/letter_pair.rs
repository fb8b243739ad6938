use vstd::prelude::*;

use crate::letter::{letter_char, Letter};
use crate::text::push_char;

verus! {

/// Two different letters, the smaller first.
#[derive(PartialEq, Eq, Structural, PartialOrd, Ord, Hash, Debug, Clone, Copy)]
pub struct LetterPair {
    a: Letter,
    b: Letter,
}

impl LetterPair {
    #[verifier::type_invariant]
    spec fn inv(self) -> bool {
        self.a.index() < self.b.index()
    }

    /// The smaller letter.
    pub closed spec fn first(self) -> u32 {
        self.a.index()
    }

    /// The larger letter.
    pub closed spec fn second(self) -> u32 {
        self.b.index()
    }

    /// The smaller letter comes first, and both are letters of the alphabet.
    pub fn lemma_ordered(&self)
        ensures
            self.first() < self.second() < 27,
    {
        proof {
            use_type_invariant(self);
        }
        let _ = self.b.to_u32();
    }

    /// The pair of `a` and `b` in either order, or an error when they are the
    /// same letter.
    pub fn try_new(a: Letter, b: Letter) -> (r: Result<LetterPair, &'static str>)
        ensures
            r is Err <==> a.index() == b.index(),
            r matches Ok(p) ==> p.first() == (if a.index() < b.index() { a.index() } else { b.index() })
                && p.second() == (if a.index() < b.index() { b.index() } else { a.index() }),
    {
        let x = a.to_u8();
        let y = b.to_u8();
        if x == y {
            Err("The letters in a LetterPair must be different.")
        } else if x < y {
            Ok(LetterPair { a, b })
        } else {
            Ok(LetterPair { a: b, b: a })
        }
    }

    /// The pair of two different letters, in either order: the smaller
    /// letter comes first.
    pub fn new(a: Letter, b: Letter) -> (r: LetterPair)
        requires
            a.index() != b.index(),
        ensures
            r.first() == if a.index() < b.index() {
                a.index()
            } else {
                b.index()
            },
            r.second() == if a.index() < b.index() {
                b.index()
            } else {
                a.index()
            },
    {
        let r = LetterPair::try_new(a, b).unwrap();
        r.lemma_ordered();
        r
    }

    /// Pairs with the same letters are the same pair, whatever order the
    /// letters were given in.
    pub proof fn lemma_same_letters(p: LetterPair, q: LetterPair)
        requires
            p.first() == q.first(),
            p.second() == q.second(),
        ensures
            p == q,
    {
        Letter::lemma_index_injective(p.a, q.a);
        Letter::lemma_index_injective(p.b, q.b);
    }

    /// The smaller letter.
    pub fn first_letter(&self) -> (r: Letter)
        ensures
            r.index() == self.first(),
    {
        self.a
    }

    /// The larger letter.
    pub fn second_letter(&self) -> (r: Letter)
        ensures
            r.index() == self.second(),
    {
        self.b
    }

    /// The two letters, smaller first, such as `xy`.
    pub fn to_string(&self) -> (r: String)
        ensures
            r@ == seq![letter_char(self.first()), letter_char(self.second())],
    {
        let mut s = String::new();
        push_char(&mut s, self.a.to_char());
        push_char(&mut s, self.b.to_char());
        proof {
            assert(s@ =~= seq![letter_char(self.first()), letter_char(self.second())]);
        }
        s
    }
}

impl vstd::std_specs::convert::TryFromSpecImpl<(Letter, Letter)> for LetterPair {
    open spec fn obeys_try_from_spec() -> bool {
        false
    }

    open spec fn try_from_spec(v: (Letter, Letter)) -> Result<LetterPair, &'static str> {
        Err("")
    }
}

impl TryFrom<(Letter, Letter)> for LetterPair {
    type Error = &'static str;

    fn try_from(value: (Letter, Letter)) -> (r: Result<LetterPair, &'static str>)
        ensures
            r is Err <==> value.0.index() == value.1.index(),
            r matches Ok(p) ==> p.first() == (if value.0.index() < value.1.index() { value.0.index() } else { value.1.index() })
                && p.second() == (if value.0.index() < value.1.index() { value.1.index() } else { value.0.index() }),
    {
        LetterPair::try_new(value.0, value.1)
    }
}

} // verus!
