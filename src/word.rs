//! Coefficient and scalar kinds: 32-bit words whose arithmetic wraps modulo 2^32.
use vstd::prelude::*;

verus! {

/// 2^32, the modulus of every coefficient operation.
pub open spec fn modulus() -> int {
    0x1_0000_0000
}

/// The residue of `x` modulo 2^32, in [0, 2^32).
pub open spec fn wrap(x: int) -> int {
    x % modulus()
}

/// A coefficient of a polynomial: a 32-bit word with wrapping ring operations.
pub trait Coef: Copy + Sized {
    /// The residue class of the coefficient modulo 2^32, as a value in [0, 2^32).
    spec fn residue(self) -> int;

    /// The coefficient whose residue is `wrap(x)`.
    spec fn of_residue(x: int) -> Self;

    proof fn lemma_residue(c: Self, x: int)
        ensures
            0 <= c.residue() < modulus(),
            Self::of_residue(c.residue()) == c,
            Self::of_residue(x).residue() == wrap(x),
    ;

    fn zero() -> (r: Self)
        ensures
            r.residue() == 0,
    ;

    fn is_zero_coef(self) -> (r: bool)
        ensures
            r == (self.residue() == 0),
    ;

    fn add_coef(self, rhs: Self) -> (r: Self)
        ensures
            r.residue() == wrap(self.residue() + rhs.residue()),
    ;

    fn sub_coef(self, rhs: Self) -> (r: Self)
        ensures
            r.residue() == wrap(self.residue() - rhs.residue()),
    ;

    fn neg_coef(self) -> (r: Self)
        ensures
            r.residue() == wrap(-self.residue()),
    ;

    fn scale<S: Scalar>(self, k: S) -> (r: Self)
        ensures
            r.residue() == wrap(self.residue() * k.factor()),
    ;
}

/// A multiplier of coefficients: an integer value.
pub trait Scalar: Copy + Sized {
    /// The integer the scalar stands for.
    spec fn factor(self) -> int;

    /// The scalar as a 32-bit word, equal to its factor modulo 2^32.
    fn to_word(self) -> (r: u32)
        ensures
            r as int == wrap(self.factor()),
    ;
}

impl Coef for i32 {
    open spec fn residue(self) -> int {
        wrap(self as int)
    }

    open spec fn of_residue(x: int) -> i32 {
        if wrap(x) < 0x8000_0000 {
            wrap(x) as i32
        } else {
            (wrap(x) - modulus()) as i32
        }
    }

    proof fn lemma_residue(c: i32, x: int) {
    }

    fn zero() -> (r: i32) {
        0
    }

    fn is_zero_coef(self) -> (r: bool) {
        self == 0
    }

    fn add_coef(self, rhs: i32) -> (r: i32) {
        self.wrapping_add(rhs)
    }

    fn sub_coef(self, rhs: i32) -> (r: i32) {
        self.wrapping_sub(rhs)
    }

    fn neg_coef(self) -> (r: i32) {
        0i32.wrapping_sub(self)
    }

    fn scale<S: Scalar>(self, k: S) -> (r: i32) {
        let w = k.to_word();
        let p = self.to_word().wrapping_mul(w);
        proof {
            lemma_mul_wrap(self as int, k.factor(), w as int);
        }
        signed_of_word(p)
    }
}

impl Scalar for i32 {
    open spec fn factor(self) -> int {
        self as int
    }

    fn to_word(self) -> (r: u32) {
        if self < 0 {
            (self as i64 + 0x1_0000_0000) as u32
        } else {
            self as u32
        }
    }
}

impl Scalar for u32 {
    open spec fn factor(self) -> int {
        self as int
    }

    fn to_word(self) -> (r: u32) {
        self
    }
}

/// The i32 with the same residue as the word `w`.
pub fn signed_of_word(w: u32) -> (r: i32)
    ensures
        r.residue() == w as int,
{
    if w < 0x8000_0000 {
        w as i32
    } else {
        (w as i64 - 0x1_0000_0000) as i32
    }
}

/// Multiplying by a value or by its residue gives the same residue.
pub proof fn lemma_mul_wrap(a: int, k: int, w: int)
    requires
        w == wrap(k),
    ensures
        wrap(wrap(a) * w) == wrap(a * k),
        wrap(wrap(a) * k) == wrap(a * k),
        wrap(a * w) == wrap(a * k),
{
    vstd::arithmetic::div_mod::lemma_mul_mod_noop(a, k, modulus());
    vstd::arithmetic::div_mod::lemma_mul_mod_noop_left(a, k, modulus());
    vstd::arithmetic::div_mod::lemma_mul_mod_noop_right(a, k, modulus());
}

} // verus!
