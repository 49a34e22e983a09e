//! The two-valued digit {0, 1}.
use vstd::prelude::*;
use crate::word::{Scalar, wrap};

verus! {

/// A binary digit. As a multiplier, `Zero` kills and `One` is the identity.
#[derive(Debug, Clone, Copy, PartialEq, Eq, Structural)]
pub enum Binary {
    One,
    Zero,
}

impl Binary {
    /// The digit as the integer 0 or 1.
    pub open spec fn value(self) -> int {
        match self {
            Binary::One => 1,
            Binary::Zero => 0,
        }
    }

    /// `Zero` for 0, `One` for any other value.
    pub fn from_i32(x: i32) -> (r: Binary)
        ensures
            r == binary_of(x == 0),
    {
        if x == 0 {
            Binary::Zero
        } else {
            Binary::One
        }
    }

    pub fn to_u32(self) -> (r: u32)
        ensures
            r as int == self.value(),
    {
        match self {
            Binary::One => 1,
            Binary::Zero => 0,
        }
    }

    pub fn to_i32(self) -> (r: i32)
        ensures
            r as int == self.value(),
    {
        match self {
            Binary::One => 1,
            Binary::Zero => 0,
        }
    }
}

/// `Zero` exactly for the additive identity.
pub open spec fn binary_of(is_zero: bool) -> Binary {
    if is_zero {
        Binary::Zero
    } else {
        Binary::One
    }
}

impl Scalar for Binary {
    open spec fn factor(self) -> int {
        self.value()
    }

    fn to_word(self) -> (r: u32) {
        self.to_u32()
    }
}

} // verus!
