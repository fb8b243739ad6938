use vstd::prelude::*;

use crate::text::{decimal, push_decimal};

verus! {

/// A number from 0 to 31.
#[derive(PartialEq, Eq, Structural, PartialOrd, Ord, Debug, Clone, Copy, Default)]
pub struct U5(u8);

impl U5 {
    #[verifier::type_invariant]
    spec fn inv(self) -> bool {
        self.0 < 32
    }

    pub closed spec fn value(self) -> nat {
        self.0 as nat
    }

    pub fn new(value: u32) -> (r: U5)
        requires
            value < 32,
        ensures
            r.value() == value,
    {
        U5(value as u8)
    }

    pub fn to_u8(&self) -> (r: u8)
        ensures
            r == self.value(),
            r < 32,
    {
        proof {
            use_type_invariant(self);
        }
        self.0
    }

    pub fn to_u32(&self) -> (r: u32)
        ensures
            r == self.value(),
            r < 32,
    {
        proof {
            use_type_invariant(self);
        }
        self.0 as u32
    }

    /// A printable character for the number: `A` for 0 and the characters
    /// after it for the larger numbers.
    pub fn serialize(&self) -> (r: char)
        ensures
            r as nat == 0x41 + self.value(),
    {
        proof {
            use_type_invariant(self);
        }
        (0x41u8 + self.0) as char
    }

    pub fn to_usize(&self) -> (r: usize)
        ensures
            r == self.value(),
            r < 32,
    {
        proof {
            use_type_invariant(self);
        }
        self.0 as usize
    }

    /// The number in decimal.
    pub fn to_string(&self) -> (r: String)
        ensures
            r@ == decimal(self.value()),
    {
        let mut s = String::new();
        push_decimal(&mut s, self.0 as u32);
        s
    }
}

} // verus!
