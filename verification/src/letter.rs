use vstd::prelude::*;
use vstd::string::*;

use crate::text::push_char;

verus! {

/// The number of letters in the alphabet: `a` to `z` and the apostrophe.
pub const ALPHABET_SIZE: usize = 27;

/// The character of the letter with index `i`: `a`..`z` for 0..=25, and the
/// apostrophe for 26.
pub open spec fn letter_char(i: u32) -> char {
    if i < 26 {
        ('a' as u32 + i) as char
    } else {
        '\''
    }
}

/// The characters that are letters of the alphabet.
pub open spec fn is_letter_char(c: char) -> bool {
    ('a' <= c && c <= 'z') || c == '\''
}

/// The index of a letter character.
pub open spec fn char_index(c: char) -> u32 {
    if c == '\'' {
        26
    } else {
        (c as u32 - 'a' as u32) as u32
    }
}

/// One letter of the alphabet, stored as its index.
#[derive(PartialEq, Eq, Structural, PartialOrd, Ord, Debug, Clone, Copy, Hash)]
pub struct Letter(u8);

impl Letter {
    pub const ALPHABET: [char; 27] = [
        'a', 'b', 'c', 'd', 'e', 'f', 'g', 'h', 'i', 'j', 'k', 'l', 'm', 'n', 'o', 'p', 'q', 'r',
        's', 't', 'u', 'v', 'w', 'x', 'y', 'z', '\'',
    ];

    pub const ALPHABET_SIZE: usize = 27;

    #[verifier::type_invariant]
    spec fn inv(self) -> bool {
        self.0 < 27
    }

    /// The position of the letter in the alphabet.
    pub closed spec fn index(self) -> u32 {
        self.0 as u32
    }

    pub broadcast proof fn lemma_index_injective(a: Letter, b: Letter)
        ensures
            #[trigger] a.index() == #[trigger] b.index() <==> a == b,
    {
    }

    /// The letter whose character is `c`.
    pub fn new(c: char) -> (r: Letter)
        requires
            is_letter_char(c),
        ensures
            r.index() == char_index(c),
            letter_char(r.index()) == c,
    {
        Letter::from_char(c).unwrap()
    }

    /// The letter whose character is `c`, or an error when `c` is not in the
    /// alphabet.
    pub fn from_char(c: char) -> (r: Result<Letter, &'static str>)
        ensures
            r is Ok <==> is_letter_char(c),
            r matches Ok(l) ==> l.index() == char_index(c) && letter_char(l.index()) == c,
    {
        if c >= 'a' && c <= 'z' {
            let index = (c as u32) - ('a' as u32);
            Ok(Letter(index as u8))
        } else if c == '\'' {
            Ok(Letter(26))
        } else {
            Err("Could not convert the character into a Letter.")
        }
    }

    /// The letter with index `value`, or an error when `value` is not below the
    /// size of the alphabet.
    pub fn from_u32(value: u32) -> (r: Result<Letter, &'static str>)
        ensures
            r is Ok <==> value < 27,
            r matches Ok(l) ==> l.index() == value,
    {
        if value >= 27 {
            Err(
                "Letter only accepts u32 values in the range 0 up to including the size of the alphabet.",
            )
        } else {
            Ok(Letter(value as u8))
        }
    }

    pub fn to_char(&self) -> (r: char)
        ensures
            r == letter_char(self.index()),
            is_letter_char(r),
            char_index(r) == self.index(),
    {
        proof {
            use_type_invariant(self);
        }
        if self.0 < 26 {
            (97u8 + self.0) as char
        } else {
            '\''
        }
    }

    pub fn to_u32(&self) -> (r: u32)
        ensures
            r == self.index(),
            r < 27,
    {
        proof {
            use_type_invariant(self);
        }
        self.0 as u32
    }

    pub fn to_usize(&self) -> (r: usize)
        ensures
            r == self.index(),
            r < 27,
    {
        proof {
            use_type_invariant(self);
        }
        self.0 as usize
    }

    pub fn to_u8(&self) -> (r: u8)
        ensures
            r == self.index(),
            r < 27,
    {
        proof {
            use_type_invariant(self);
        }
        self.0
    }

    /// The letter as a one-character string.
    pub fn to_string(&self) -> (r: String)
        ensures
            r@ == seq![letter_char(self.index())],
    {
        let mut s = String::new();
        push_char(&mut s, self.to_char());
        s
    }
}

impl Default for Letter {
    fn default() -> (r: Letter)
        ensures
            r.index() == 0,
    {
        Letter(0)
    }
}

impl TryFrom<char> for Letter {
    type Error = &'static str;

    fn try_from(value: char) -> (r: Result<Letter, &'static str>)
        ensures
            r is Ok <==> is_letter_char(value),
            r matches Ok(l) ==> l.index() == char_index(value) && letter_char(l.index()) == value,
    {
        Letter::from_char(value)
    }
}

impl vstd::std_specs::convert::TryFromSpecImpl<char> for Letter {
    open spec fn obeys_try_from_spec() -> bool {
        false
    }

    open spec fn try_from_spec(v: char) -> Result<Letter, &'static str> {
        Err("")
    }
}

impl vstd::std_specs::convert::TryFromSpecImpl<u32> for Letter {
    open spec fn obeys_try_from_spec() -> bool {
        false
    }

    open spec fn try_from_spec(v: u32) -> Result<Letter, &'static str> {
        Err("")
    }
}

impl TryFrom<u32> for Letter {
    type Error = &'static str;

    fn try_from(value: u32) -> (r: Result<Letter, &'static str>)
        ensures
            r is Ok <==> value < 27,
            r matches Ok(l) ==> l.index() == value,
    {
        Letter::from_u32(value)
    }
}

} // verus!
