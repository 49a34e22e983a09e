//! Boolean logic driven by a single NAND primitive, and the expression trees it
//! evaluates.
use vstd::prelude::*;
use crate::binary::Binary;

verus! {

/// NAND on truth values.
pub open spec fn nand_of(a: bool, b: bool) -> bool {
    !(a && b)
}

/// A leaf domain that can produce its own `true` and `false` values.
pub trait AsLogic: Sized + Clone {
    /// The truth value a leaf stands for.
    spec fn truth(&self) -> bool;

    fn logic_true() -> (r: Self)
        ensures
            r.truth(),
    ;

    fn logic_false() -> (r: Self)
        ensures
            !r.truth(),
    ;

    /// A clone stands for the same truth value as the value it was cloned from.
    proof fn lemma_clone_truth(a: Self, b: Self)
        requires
            vstd::pervasive::strictly_cloned(a, b),
        ensures
            a.truth() == b.truth(),
    ;
}

/// A logical processor: it computes NAND over its leaf type, and every other
/// gate from it. An implementer may replace `not`, `and`, `or` and `xor` with
/// native versions, which must agree with the NAND-only definitions stated here.
pub trait Logip {
    type R: AsLogic;

    fn nand(&self, lhs: Self::R, rhs: Self::R) -> (r: Self::R)
        ensures
            r.truth() == nand_of(lhs.truth(), rhs.truth()),
    ;

    /// not(b) = nand(b, b)
    fn not(&self, b: Self::R) -> (r: Self::R)
        ensures
            r.truth() == nand_of(b.truth(), b.truth()),
    {
        let c = b.clone();
        proof {
            Self::R::lemma_clone_truth(b, c);
        }
        self.nand(c, b)
    }

    /// and(a, b) = not(nand(a, b))
    fn and(&self, lhs: Self::R, rhs: Self::R) -> (r: Self::R)
        ensures
            r.truth() == nand_of(nand_of(lhs.truth(), rhs.truth()), nand_of(lhs.truth(), rhs.truth())),
    {
        let x = self.nand(lhs, rhs);
        self.not(x)
    }

    /// or(a, b) = nand(not(a), not(b))
    fn or(&self, lhs: Self::R, rhs: Self::R) -> (r: Self::R)
        ensures
            r.truth() == nand_of(nand_of(lhs.truth(), lhs.truth()), nand_of(rhs.truth(), rhs.truth())),
    {
        let a = self.not(lhs);
        let b = self.not(rhs);
        self.nand(a, b)
    }

    /// xor(a, b) = nand(nand(a, m), nand(m, b)) where m = nand(a, b)
    fn xor(&self, lhs: Self::R, rhs: Self::R) -> (r: Self::R)
        ensures
            r.truth() == nand_of(
                nand_of(lhs.truth(), nand_of(lhs.truth(), rhs.truth())),
                nand_of(nand_of(lhs.truth(), rhs.truth()), rhs.truth()),
            ),
    {
        let l2 = lhs.clone();
        let r2 = rhs.clone();
        proof {
            Self::R::lemma_clone_truth(lhs, l2);
            Self::R::lemma_clone_truth(rhs, r2);
        }
        let x = self.nand(l2, r2);
        let x2 = x.clone();
        proof {
            Self::R::lemma_clone_truth(x, x2);
        }
        let a = self.nand(lhs, x2);
        let b = self.nand(x, rhs);
        self.nand(a, b)
    }
}

/// The NAND-only definitions of the gates compute negation, conjunction,
/// disjunction and exclusive or.
pub proof fn lemma_nand_gates(a: bool, b: bool)
    ensures
        nand_of(a, a) == !a,
        nand_of(nand_of(a, b), nand_of(a, b)) == (a && b),
        nand_of(nand_of(a, a), nand_of(b, b)) == (a || b),
        nand_of(nand_of(a, nand_of(a, b)), nand_of(nand_of(a, b), b)) == (a != b),
{
}

/// A boolean expression over leaves of type R. `Nand` holds its right operand
/// first and its left operand second.
pub enum LogicExpr<R: AsLogic> {
    Nand(Box<LogicExpr<R>>, Box<LogicExpr<R>>),
    Not(Box<LogicExpr<R>>),
    And(Box<LogicExpr<R>>, Box<LogicExpr<R>>),
    Or(Box<LogicExpr<R>>, Box<LogicExpr<R>>),
    Xor(Box<LogicExpr<R>>, Box<LogicExpr<R>>),
    Leaf(R),
}

/// The truth value of an expression.
pub open spec fn truth_of<R: AsLogic>(e: LogicExpr<R>) -> bool
    decreases e,
{
    match e {
        LogicExpr::Nand(rhs, lhs) => !(truth_of(*lhs) && truth_of(*rhs)),
        LogicExpr::Not(x) => !truth_of(*x),
        LogicExpr::And(lhs, rhs) => truth_of(*lhs) && truth_of(*rhs),
        LogicExpr::Or(lhs, rhs) => truth_of(*lhs) || truth_of(*rhs),
        LogicExpr::Xor(lhs, rhs) => truth_of(*lhs) != truth_of(*rhs),
        LogicExpr::Leaf(r) => r.truth(),
    }
}

/// Evaluates the tree bottom-up with the processor's gates: left operand before
/// right, except for `Nand`, whose stored right operand is evaluated first.
pub fn eval_logic_expr<P: Logip>(pros: &P, exp: LogicExpr<P::R>) -> (r: P::R)
    ensures
        r.truth() == truth_of(exp),
    decreases exp,
{
    match exp {
        LogicExpr::Nand(rhs, lhs) => {
            let a = eval_logic_expr(pros, *lhs);
            let b = eval_logic_expr(pros, *rhs);
            pros.nand(a, b)
        },
        LogicExpr::Not(x) => {
            let a = eval_logic_expr(pros, *x);
            pros.not(a)
        },
        LogicExpr::And(lhs, rhs) => {
            let a = eval_logic_expr(pros, *lhs);
            let b = eval_logic_expr(pros, *rhs);
            pros.and(a, b)
        },
        LogicExpr::Or(lhs, rhs) => {
            let a = eval_logic_expr(pros, *lhs);
            let b = eval_logic_expr(pros, *rhs);
            pros.or(a, b)
        },
        LogicExpr::Xor(lhs, rhs) => {
            let a = eval_logic_expr(pros, *lhs);
            let b = eval_logic_expr(pros, *rhs);
            pros.xor(a, b)
        },
        LogicExpr::Leaf(elem) => elem,
    }
}

impl AsLogic for Binary {
    open spec fn truth(&self) -> bool {
        *self == Binary::One
    }

    fn logic_true() -> (r: Binary) {
        Binary::One
    }

    fn logic_false() -> (r: Binary) {
        Binary::Zero
    }

    proof fn lemma_clone_truth(a: Binary, b: Binary) {
    }
}

/// A processor over plaintext binary digits, with native gates.
pub struct PlainLogip;

impl Logip for PlainLogip {
    type R = Binary;

    fn nand(&self, lhs: Binary, rhs: Binary) -> (r: Binary) {
        match (lhs, rhs) {
            (Binary::One, Binary::One) => Binary::Zero,
            _ => Binary::One,
        }
    }

    fn not(&self, b: Binary) -> (r: Binary) {
        match b {
            Binary::One => Binary::Zero,
            Binary::Zero => Binary::One,
        }
    }

    fn and(&self, lhs: Binary, rhs: Binary) -> (r: Binary) {
        match (lhs, rhs) {
            (Binary::One, Binary::One) => Binary::One,
            _ => Binary::Zero,
        }
    }

    fn or(&self, lhs: Binary, rhs: Binary) -> (r: Binary) {
        match (lhs, rhs) {
            (Binary::Zero, Binary::Zero) => Binary::Zero,
            _ => Binary::One,
        }
    }

    fn xor(&self, lhs: Binary, rhs: Binary) -> (r: Binary) {
        if lhs == rhs {
            Binary::Zero
        } else {
            Binary::One
        }
    }
}

} // verus!
