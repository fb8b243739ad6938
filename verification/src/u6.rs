use vstd::prelude::*;

use crate::text::{decimal, push_char, push_decimal};

verus! {

/// A number from 0 to 31, shown with a braille suffix.
#[derive(PartialEq, Eq, Structural, PartialOrd, Ord, Debug, Clone, Copy, Default)]
pub struct U6(u8);

impl U6 {
    #[verifier::type_invariant]
    spec fn inv(self) -> bool {
        self.0 <= 31
    }

    pub closed spec fn value(self) -> nat {
        self.0 as nat
    }

    pub fn max() -> (r: U6)
        ensures
            r.value() == 31,
    {
        U6(31)
    }

    pub fn min() -> (r: U6)
        ensures
            r.value() == 0,
    {
        U6(0)
    }

    pub fn new(value: u32) -> (r: U6)
        requires
            value <= 31,
        ensures
            r.value() == value,
    {
        U6(value as u8)
    }

    /// The low five bits of `value`.
    pub fn from_u32(value: u32) -> (r: U6)
        ensures
            r.value() == value % 32,
    {
        proof {
            assert(value & 31 == value % 32) by (bit_vector);
        }
        U6((value & 31) as u8)
    }

    /// The number in decimal followed by the braille character U+2807.
    pub fn to_string(&self) -> (r: String)
        ensures
            r@ == decimal(self.value()).push('\u{2807}'),
    {
        let mut s = String::new();
        push_decimal(&mut s, self.0 as u32);
        push_char(&mut s, '\u{2807}');
        s
    }
}

} // verus!
