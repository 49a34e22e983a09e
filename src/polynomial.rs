//! Polynomials of the negacyclic ring R_N = Z[X] / (X^N + 1), with coefficients
//! taken modulo 2^32.
use vstd::prelude::*;
use vstd::arithmetic::div_mod::{
    lemma_add_mod_noop, lemma_sub_mod_noop, lemma_fundamental_div_mod_converse_div,
    lemma_fundamental_div_mod_converse_mod,
};
use num::Integer;
use vstd::arithmetic::power2::pow2;
use crate::torus::{Torus, signed_digit, unsigned_digits};
use crate::word::{Coef, Scalar, modulus, wrap};

verus! {

/// P(X) = sum of `self.0[i] * X^i`, read modulo X^N + 1.
#[derive(Debug, Clone, Copy, PartialEq)]
pub struct Polynomial<T, const N: usize>(pub [T; N]);

/// The coefficient-wise negation of a residue sequence.
pub open spec fn negated(p: Seq<int>) -> Seq<int> {
    Seq::new(p.len(), |i: int| wrap(-p[i]))
}

/// The coefficient-wise sum of two residue sequences.
pub open spec fn summed(p: Seq<int>, q: Seq<int>) -> Seq<int> {
    Seq::new(p.len(), |i: int| wrap(p[i] + q[i]))
}

/// The coefficient-wise difference of two residue sequences.
pub open spec fn subtracted(p: Seq<int>, q: Seq<int>) -> Seq<int> {
    Seq::new(p.len(), |i: int| wrap(p[i] - q[i]))
}

/// Every coefficient multiplied by `k`.
pub open spec fn scaled(p: Seq<int>, k: int) -> Seq<int> {
    Seq::new(p.len(), |i: int| wrap(p[i] * k))
}

/// Coefficient `i` of X^n * p modulo X^len + 1: it comes from p[(i - n) mod len],
/// negated once for each time the shift wraps past X^len.
pub open spec fn rotated_coef(p: Seq<int>, n: int, i: int) -> int {
    let len = p.len() as int;
    if ((i - n) / len) % 2 == 0 {
        p[(i - n) % len]
    } else {
        wrap(-p[(i - n) % len])
    }
}

/// X^n * p modulo X^len + 1.
pub open spec fn rotated(p: Seq<int>, n: int) -> Seq<int> {
    Seq::new(p.len(), |i: int| rotated_coef(p, n, i))
}

/// Term `j` of the convolution sum for degree `k`: a[k - j] * b[j] where both
/// indices fall inside the sequences, else 0.
pub open spec fn conv_term(a: Seq<int>, b: Seq<int>, k: int, j: int) -> int {
    if 0 <= k - j < a.len() && 0 <= j < b.len() {
        a[k - j] * b[j]
    } else {
        0
    }
}

/// The sum of the convolution terms for degree `k` with index below `j`.
pub open spec fn conv_upto(a: Seq<int>, b: Seq<int>, k: int, j: int) -> int
    decreases j,
{
    if j <= 0 {
        0
    } else {
        conv_upto(a, b, k, j - 1) + conv_term(a, b, k, j - 1)
    }
}

/// Coefficient `k` of the plain product of a and b: the sum of a[k - j] * b[j].
pub open spec fn conv(a: Seq<int>, b: Seq<int>, k: int) -> int {
    conv_upto(a, b, k, b.len() as int)
}

/// Coefficient `s` of a * b modulo X^len + 1, where X^len = -1 folds degree
/// s + len onto degree s with its sign flipped.
pub open spec fn negacyclic(a: Seq<int>, b: Seq<int>, s: int) -> int {
    if s < a.len() - 1 {
        conv(a, b, s) - conv(a, b, s + a.len())
    } else {
        conv(a, b, s)
    }
}

/// The residues of a * b in R_len.
pub open spec fn crossed(a: Seq<int>, b: Seq<int>) -> Seq<int> {
    Seq::new(a.len(), |s: int| wrap(negacyclic(a, b, s)))
}

/// The residues of a * b + c in R_len.
pub open spec fn crossed_plus(a: Seq<int>, b: Seq<int>, c: Seq<int>) -> Seq<int> {
    Seq::new(a.len(), |s: int| wrap(c[s] + negacyclic(a, b, s)))
}

/// Terms with an index up to k - len(a) + 1 (where a[k - j] lies past the end of a)
/// sum to 0.
proof fn lemma_conv_below(a: Seq<int>, b: Seq<int>, k: int, j: int)
    requires
        j <= k - a.len() + 1 || j <= 0,
    ensures
        conv_upto(a, b, k, j) == 0,
    decreases j,
{
    if j > 0 {
        lemma_conv_below(a, b, k, j - 1);
    }
}

/// Terms with an index above `hi` (past k, or past the end of b) add nothing.
proof fn lemma_conv_above(a: Seq<int>, b: Seq<int>, k: int, j: int, hi: int)
    requires
        hi == if k < b.len() - 1 { k } else { b.len() - 1 },
        hi + 1 <= j <= b.len(),
    ensures
        conv_upto(a, b, k, j) == conv_upto(a, b, k, hi + 1),
    decreases j - hi,
{
    if j > hi + 1 {
        lemma_conv_above(a, b, k, j - 1, hi);
    }
}

/// Coefficient `k` of the plain product of `l` and `r`, modulo 2^32.
pub fn convolution<T: Coef, S: Scalar, const N: usize>(l: &[T; N], r: &[S; N], k: usize) -> (c: T)
    requires
        k < 2 * N - 1,
    ensures
        c.residue() == wrap(conv(l@.map_values(|x: T| x.residue()), r@.map_values(|y: S| y.factor()), k as int)),
{
    if k < N {
        convolution_at(l, r, k, false)
    } else {
        convolution_at(l, r, k - N, true)
    }
}

/// Coefficient s (or s + N, when `folded`) of the plain product, modulo 2^32.
fn convolution_at<T: Coef, S: Scalar, const N: usize>(l: &[T; N], r: &[S; N], s: usize, folded: bool) -> (c: T)
    requires
        s < N,
    ensures
        c.residue() == wrap(conv(l@.map_values(|x: T| x.residue()), r@.map_values(|y: S| y.factor()),
            if folded { s + N } else { s as int })),
{
    let ghost a = l@.map_values(|x: T| x.residue());
    let ghost b = r@.map_values(|y: S| y.factor());
    let ghost k: int = if folded { s + N } else { s as int };
    let lo: usize = if folded { s + 1 } else { 0 };
    let hi: usize = if folded { N - 1 } else { s };
    let mut acc = T::zero();
    let mut j: usize = lo;
    proof {
        lemma_conv_below(a, b, k, lo as int);
    }
    while j <= hi
        invariant
            lo <= j <= hi + 1,
            hi < N,
            s < N,
            k == (if folded { s + N } else { s as int }),
            lo == (if folded { s + 1 } else { 0 }),
            hi == (if folded { N - 1 } else { s as int }),
            a == l@.map_values(|x: T| x.residue()),
            b == r@.map_values(|y: S| y.factor()),
            acc.residue() == wrap(conv_upto(a, b, k, j as int)),
        decreases hi + 1 - j,
    {
        let idx: usize = if folded { N - (j - s) } else { s - j };
        let term = l[idx].scale(r[j]);
        proof {
            lemma_add_mod_noop(conv_term(a, b, k, j as int), conv_upto(a, b, k, j as int), modulus());
        }
        acc = term.add_coef(acc);
        j += 1;
    }
    proof {
        lemma_conv_above(a, b, k, N as int, hi as int);
    }
    acc
}

/// Relies on num's `Integer::mod_floor` for i32: the floored remainder, which for a
/// positive modulus lies in [0, m) and differs from `a` by a multiple of `m`.
#[verifier::external_body]
fn floor_mod(a: i32, m: i32) -> (r: i32)
    requires
        m > 0,
    ensures
        r as int == (a as int) % (m as int),
{
    a.mod_floor(&m)
}

/// For a shift `m` = n mod 2N of at most N, coefficient `i` of the rotation is
/// -p[N + i - m] below `m` and p[i - m] from `m` on.
proof fn lemma_rotate_low(p: Seq<int>, n: int, m: int, i: int)
    requires
        p.len() > 0,
        0 <= i < p.len(),
        m == n % (2 * p.len() as int),
        0 <= m <= p.len(),
    ensures
        i < m ==> rotated_coef(p, n, i) == wrap(-p[p.len() + i - m]),
        i >= m ==> rotated_coef(p, n, i) == p[i - m],
{
    let len = p.len() as int;
    let t = n / (2 * len);
    vstd::arithmetic::div_mod::lemma_fundamental_div_mod(n, 2 * len);
    assert(n == 2 * len * t + m);
    if i < m {
        assert(i - n == (-2 * t - 1) * len + (len + i - m)) by (nonlinear_arith)
            requires n == 2 * len * t + m;
        lemma_fundamental_div_mod_converse_div(i - n, len, -2 * t - 1, len + i - m);
        lemma_fundamental_div_mod_converse_mod(i - n, len, -2 * t - 1, len + i - m);
        assert((-2 * t - 1) % 2 == 1) by (nonlinear_arith);
    } else {
        assert(i - n == (-2 * t) * len + (i - m)) by (nonlinear_arith)
            requires n == 2 * len * t + m;
        lemma_fundamental_div_mod_converse_div(i - n, len, -2 * t, i - m);
        lemma_fundamental_div_mod_converse_mod(i - n, len, -2 * t, i - m);
        assert((-2 * t) % 2 == 0) by (nonlinear_arith);
    }
}

/// For a shift `m` = n mod 2N above N, with k = 2N - m, coefficient `i` of the
/// rotation is -p[i + k - N] from N - k on and p[k + i] below it.
proof fn lemma_rotate_high(p: Seq<int>, n: int, m: int, i: int)
    requires
        p.len() > 0,
        0 <= i < p.len(),
        m == n % (2 * p.len() as int),
        p.len() < m < 2 * p.len(),
    ensures
        i + 2 * p.len() - m >= p.len() ==> rotated_coef(p, n, i) == wrap(-p[i + p.len() - m]),
        i + 2 * p.len() - m < p.len() ==> rotated_coef(p, n, i) == p[i + 2 * p.len() - m],
{
    let len = p.len() as int;
    let t = n / (2 * len);
    vstd::arithmetic::div_mod::lemma_fundamental_div_mod(n, 2 * len);
    assert(n == 2 * len * t + m);
    if i + 2 * len - m >= len {
        assert(i - n == (-2 * t - 1) * len + (i + len - m)) by (nonlinear_arith)
            requires n == 2 * len * t + m;
        lemma_fundamental_div_mod_converse_div(i - n, len, -2 * t - 1, i + len - m);
        lemma_fundamental_div_mod_converse_mod(i - n, len, -2 * t - 1, i + len - m);
        assert((-2 * t - 1) % 2 == 1) by (nonlinear_arith);
    } else {
        assert(i - n == (-2 * t - 2) * len + (i + 2 * len - m)) by (nonlinear_arith)
            requires n == 2 * len * t + m;
        lemma_fundamental_div_mod_converse_div(i - n, len, -2 * t - 2, i + 2 * len - m);
        lemma_fundamental_div_mod_converse_mod(i - n, len, -2 * t - 2, i + 2 * len - m);
        assert((-2 * t - 2) % 2 == 0) by (nonlinear_arith);
    }
}

impl<T, const N: usize> Polynomial<T, N> {
    pub fn new(coeffis: [T; N]) -> (r: Self)
        ensures
            r.0 == coeffis,
    {
        Polynomial(coeffis)
    }

    pub fn coefficient(&self) -> (r: &[T; N])
        ensures
            *r == self.0,
    {
        &self.0
    }

    /// The coefficients, lowest degree first.
    pub fn iter(&self) -> (r: std::slice::Iter<'_, T>)
        ensures
            vstd::std_specs::iter::IteratorSpec::remaining(&r) == self.0@.as_ref(),
    {
        self.0.as_slice().iter()
    }
}

impl<S: Scalar, const N: usize> Polynomial<S, N> {
    /// The integer values of the coefficients, as multipliers.
    pub open spec fn factors(self) -> Seq<int> {
        self.0@.map_values(|k: S| k.factor())
    }
}

/// Coefficient `s` of l * r in R_N, modulo 2^32.
fn negacyclic_coef<T: Coef, S: Scalar, const N: usize>(l: &[T; N], r: &[S; N], s: usize) -> (c: T)
    requires
        s < N,
    ensures
        c.residue() == wrap(negacyclic(l@.map_values(|x: T| x.residue()), r@.map_values(|y: S| y.factor()), s as int)),
{
    let ghost a = l@.map_values(|x: T| x.residue());
    let ghost b = r@.map_values(|y: S| y.factor());
    if s < N - 1 {
        let hi = convolution_at(l, r, s, false);
        let lo = convolution_at(l, r, s, true);
        proof {
            lemma_sub_mod_noop(conv(a, b, s as int), conv(a, b, s + N), modulus());
        }
        hi.sub_coef(lo)
    } else {
        convolution_at(l, r, s, false)
    }
}

impl<T: Copy, const N: usize> Polynomial<T, N> {
    pub fn coef_(&self, i: usize) -> (r: T)
        requires
            i < N,
        ensures
            r == self.0[i as int],
    {
        self.0[i]
    }
}

impl<T: Coef, const N: usize> Polynomial<T, N> {
    /// The residues of the coefficients, lowest degree first.
    pub open spec fn residues(self) -> Seq<int> {
        self.0@.map_values(|c: T| c.residue())
    }

    /// The zero polynomial.
    pub fn zero() -> (r: Self)
        ensures
            r.residues() == Seq::new(N as nat, |i: int| 0int),
    {
        let z = T::zero();
        let r = Polynomial([z; N]);
        assert(r.residues() =~= Seq::new(N as nat, |i: int| 0int));
        r
    }

    pub fn is_zero(&self) -> (r: bool)
        ensures
            r == (forall|i: int| 0 <= i < N ==> self.residues()[i] == 0),
    {
        let mut i: usize = 0;
        while i < N
            invariant
                0 <= i <= N,
                forall|j: int| 0 <= j < i ==> self.residues()[j] == 0,
            decreases N - i,
        {
            if !self.0[i].is_zero_coef() {
                assert(self.residues()[i as int] != 0);
                return false;
            }
            i += 1;
        }
        true
    }

    /// Adds `rhs` to the constant coefficient.
    pub fn add_constant(&mut self, rhs: T)
        requires
            N > 0,
        ensures
            final(self).residues() == old(self).residues().update(0, wrap(old(self).residues()[0] + rhs.residue())),
    {
        self.0[0] = self.0[0].add_coef(rhs);
        assert(final(self).residues() =~= old(self).residues().update(0, wrap(old(self).residues()[0] + rhs.residue())));
    }

    /// Coefficient-wise sum.
    pub fn add(self, rhs: &Polynomial<T, N>) -> (r: Self)
        ensures
            r.residues() == summed(self.residues(), rhs.residues()),
    {
        let mut out = self;
        let mut i: usize = 0;
        while i < N
            invariant
                0 <= i <= N,
                forall|j: int| 0 <= j < i ==> (#[trigger] out.0[j]).residue() == summed(self.residues(), rhs.residues())[j],
                forall|j: int| i <= j < N ==> out.0[j] == self.0[j],
            decreases N - i,
        {
            out.0[i] = out.0[i].add_coef(rhs.0[i]);
            i += 1;
        }
        assert(out.residues() =~= summed(self.residues(), rhs.residues()));
        out
    }

    /// Coefficient-wise difference.
    pub fn sub(self, rhs: &Polynomial<T, N>) -> (r: Self)
        ensures
            r.residues() == subtracted(self.residues(), rhs.residues()),
    {
        let mut out = self;
        let mut i: usize = 0;
        while i < N
            invariant
                0 <= i <= N,
                forall|j: int| 0 <= j < i ==> (#[trigger] out.0[j]).residue() == subtracted(self.residues(), rhs.residues())[j],
                forall|j: int| i <= j < N ==> out.0[j] == self.0[j],
            decreases N - i,
        {
            out.0[i] = out.0[i].sub_coef(rhs.0[i]);
            i += 1;
        }
        assert(out.residues() =~= subtracted(self.residues(), rhs.residues()));
        out
    }

    /// Coefficient-wise negation.
    pub fn neg(self) -> (r: Self)
        ensures
            r.residues() == negated(self.residues()),
    {
        let mut out = self;
        let mut i: usize = 0;
        while i < N
            invariant
                0 <= i <= N,
                forall|j: int| 0 <= j < i ==> (#[trigger] out.0[j]).residue() == negated(self.residues())[j],
                forall|j: int| i <= j < N ==> out.0[j] == self.0[j],
            decreases N - i,
        {
            out.0[i] = out.0[i].neg_coef();
            i += 1;
        }
        assert(out.residues() =~= negated(self.residues()));
        out
    }

    /// Every coefficient multiplied by the scalar `k`.
    pub fn mul<S: Scalar>(self, k: S) -> (r: Self)
        ensures
            r.residues() == scaled(self.residues(), k.factor()),
    {
        let mut out = self;
        let mut i: usize = 0;
        while i < N
            invariant
                0 <= i <= N,
                forall|j: int| 0 <= j < i ==> (#[trigger] out.0[j]).residue() == scaled(self.residues(), k.factor())[j],
                forall|j: int| i <= j < N ==> out.0[j] == self.0[j],
            decreases N - i,
        {
            out.0[i] = out.0[i].scale(k);
            i += 1;
        }
        assert(out.residues() =~= scaled(self.residues(), k.factor()));
        out
    }

    /// Adds `rhs` coefficient-wise in place.
    pub fn add_assign(&mut self, rhs: &Polynomial<T, N>)
        ensures
            final(self).residues() == summed(old(self).residues(), rhs.residues()),
    {
        let sum = self.add(rhs);
        *self = sum;
    }

    /// The product self * rhs in R_N, computed term by term.
    pub fn cross<S: Scalar>(&self, rhs: &Polynomial<S, N>) -> (r: Self)
        ensures
            r.residues() == crossed(self.residues(), rhs.factors()),
    {
        let mut out = *self;
        let mut s: usize = 0;
        while s < N
            invariant
                0 <= s <= N,
                forall|j: int| 0 <= j < s ==> (#[trigger] out.0[j]).residue() == crossed(self.residues(), rhs.factors())[j],
            decreases N - s,
        {
            out.0[s] = negacyclic_coef(&self.0, &rhs.0, s);
            s += 1;
        }
        assert(out.residues() =~= crossed(self.residues(), rhs.factors()));
        out
    }

    /// self * rhs + acc in R_N.
    pub fn mul_add<S: Scalar>(&self, rhs: &Polynomial<S, N>, acc: Polynomial<T, N>) -> (r: Self)
        ensures
            r.residues() == crossed_plus(self.residues(), rhs.factors(), acc.residues()),
    {
        let mut out = acc;
        let mut s: usize = 0;
        while s < N
            invariant
                0 <= s <= N,
                forall|j: int| 0 <= j < s ==> (#[trigger] out.0[j]).residue() == crossed_plus(self.residues(), rhs.factors(), acc.residues())[j],
                forall|j: int| s <= j < N ==> out.0[j] == acc.0[j],
            decreases N - s,
        {
            let c = negacyclic_coef(&self.0, &rhs.0, s);
            proof {
                lemma_add_mod_noop(acc.0[s as int].residue(), negacyclic(self.residues(), rhs.factors(), s as int), modulus());
                T::lemma_residue(acc.0[s as int], 0);
            }
            out.0[s] = out.0[s].add_coef(c);
            s += 1;
        }
        assert(out.residues() =~= crossed_plus(self.residues(), rhs.factors(), acc.residues()));
        out
    }

    /// X^n * self modulo X^N + 1.
    pub fn rotate(&self, n: i32) -> (r: Self)
        requires
            0 < N <= 0x3fff_ffff,
        ensures
            r.residues() == rotated(self.residues(), n as int),
    {
        let m = floor_mod(n, 2 * (N as i32)) as usize;
        let mut out = *self;
        let mut i: usize = 0;
        if m <= N {
            while i < N
                invariant
                    0 <= i <= N,
                    N <= 0x3fff_ffff,
                    m as int == (n as int) % (2 * N as int),
                    m <= N,
                    forall|j: int| 0 <= j < i ==> (#[trigger] out.0[j]).residue() == rotated_coef(self.residues(), n as int, j),
                decreases N - i,
            {
                proof {
                    lemma_rotate_low(self.residues(), n as int, m as int, i as int);
                }
                out.0[i] = if i < m {
                    self.0[N + i - m].neg_coef()
                } else {
                    self.0[i - m]
                };
                i += 1;
            }
        } else {
            let k: usize = 2 * N - m;
            while i < N
                invariant
                    0 <= i <= N,
                    N <= 0x3fff_ffff,
                    m as int == (n as int) % (2 * N as int),
                    N < m < 2 * N,
                    k == 2 * N - m,
                    forall|j: int| 0 <= j < i ==> (#[trigger] out.0[j]).residue() == rotated_coef(self.residues(), n as int, j),
                decreases N - i,
            {
                proof {
                    lemma_rotate_high(self.residues(), n as int, m as int, i as int);
                }
                out.0[i] = if i + k >= N {
                    self.0[i + k - N].neg_coef()
                } else {
                    self.0[k + i]
                };
                i += 1;
            }
        }
        assert(out.residues() =~= rotated(self.residues(), n as int));
        out
    }
}

} // verus!

verus! {

/// Multiply-add agrees exactly with a product followed by a sum:
/// mul_add(a, b, c) == cross(a, b) + c, coefficient by coefficient modulo 2^32.
pub proof fn lemma_mul_add_is_cross_then_add<T: Coef, S: Scalar, const N: usize>(
    a: Polynomial<T, N>,
    b: Polynomial<S, N>,
    c: Polynomial<T, N>,
)
    ensures
        crossed_plus(a.residues(), b.factors(), c.residues()) == summed(crossed(a.residues(), b.factors()), c.residues()),
{
    assert forall|s: int| 0 <= s < N implies #[trigger] crossed_plus(a.residues(), b.factors(), c.residues())[s]
        == summed(crossed(a.residues(), b.factors()), c.residues())[s] by {
        let x = negacyclic(a.residues(), b.factors(), s);
        let y = c.residues()[s];
        lemma_add_mod_noop(x, y, modulus());
        lemma_add_mod_noop(y, x, modulus());
        T::lemma_residue(c.0[s], 0);
        vstd::arithmetic::div_mod::lemma_small_mod(y as nat, modulus() as nat);
    }
    assert(crossed_plus(a.residues(), b.factors(), c.residues()) =~= summed(crossed(a.residues(), b.factors()), c.residues()));
}

/// Rotation is periodic with period 2N, and rotating by N negates:
/// rotate(a, n + 2N) == rotate(a, n) and rotate(a, N) == -a.
pub proof fn lemma_rotate_period<T: Coef, const N: usize>(a: Polynomial<T, N>, n: int)
    requires
        N > 0,
    ensures
        rotated(a.residues(), n + 2 * N) == rotated(a.residues(), n),
        rotated(a.residues(), N as int) == negated(a.residues()),
{
    let p = a.residues();
    let len = N as int;
    assert forall|i: int| 0 <= i < len implies #[trigger] rotated(p, n + 2 * N)[i] == rotated(p, n)[i] by {
        let q = (i - n) / len;
        let r = (i - n) % len;
        vstd::arithmetic::div_mod::lemma_fundamental_div_mod(i - n, len);
        assert(i - (n + 2 * N) == (q - 2) * len + r) by (nonlinear_arith)
            requires
                i - n == len * q + r,
                len == N,
        ;
        lemma_fundamental_div_mod_converse_div(i - (n + 2 * N), len, q - 2, r);
        lemma_fundamental_div_mod_converse_mod(i - (n + 2 * N), len, q - 2, r);
        assert((q - 2) % 2 == q % 2) by (nonlinear_arith);
    }
    assert forall|i: int| 0 <= i < len implies #[trigger] rotated(p, len)[i] == negated(p)[i] by {
        lemma_fundamental_div_mod_converse_div(i - len, len, -1, i);
        lemma_fundamental_div_mod_converse_mod(i - len, len, -1, i);
    }
    assert(rotated(p, n + 2 * N) =~= rotated(p, n));
    assert(rotated(p, len) =~= negated(p));
}

} // verus!

verus! {

/// Multiplication in a ring whose operands may differ in type.
pub trait Cross<T> {
    type Output;

    fn cross(&self, rhs: &T) -> Self::Output;
}

impl<T: Coef, S: Scalar, const N: usize> Cross<Polynomial<S, N>> for Polynomial<T, N> {
    type Output = Polynomial<T, N>;

    fn cross(&self, rhs: &Polynomial<S, N>) -> (r: Polynomial<T, N>)
        ensures
            r.residues() == crossed(self.residues(), rhs.factors()),
    {
        Polynomial::<T, N>::cross(self, rhs)
    }
}

impl<const N: usize> Polynomial<Torus, N> {
    /// The signed base-2^bits decomposition of every coefficient, transposed:
    /// polynomial `l` of the result holds digit `l` of each coefficient.
    pub fn decomposition<const L: usize>(&self, bits: u32) -> (r: [Polynomial<i32, N>; L])
        requires
            L * bits <= 32,
        ensures
            forall|l: int, i: int| 0 <= l < L && 0 <= i < N ==> (#[trigger] r[l].0[i]) as int == signed_digit(
                unsigned_digits(self.0[i].0 as int, bits as nat, L as nat), pow2(bits as nat) as int, l),
    {
        let mut out: [Polynomial<i32, N>; L] = [Polynomial([0i32; N]); L];
        let mut i: usize = 0;
        while i < N
            invariant
                0 <= i <= N,
                L * bits <= 32,
                forall|l: int, j: int| 0 <= l < L && 0 <= j < i ==> (#[trigger] out[l].0[j]) as int == signed_digit(
                    unsigned_digits(self.0[j].0 as int, bits as nat, L as nat), pow2(bits as nat) as int, l),
            decreases N - i,
        {
            let digits = self.0[i].decomposition_i32::<L>(bits);
            let mut l: usize = 0;
            while l < L
                invariant
                    0 <= l <= L,
                    0 <= i < N,
                    forall|m: int| 0 <= m < L ==> (#[trigger] digits[m]) as int == signed_digit(
                        unsigned_digits(self.0[i as int].0 as int, bits as nat, L as nat), pow2(bits as nat) as int, m),
                    forall|m: int, j: int| 0 <= m < L && 0 <= j < i ==> (#[trigger] out[m].0[j]) as int == signed_digit(
                        unsigned_digits(self.0[j].0 as int, bits as nat, L as nat), pow2(bits as nat) as int, m),
                    forall|m: int| 0 <= m < l ==> (#[trigger] out[m].0[i as int]) as int == signed_digit(
                        unsigned_digits(self.0[i as int].0 as int, bits as nat, L as nat), pow2(bits as nat) as int, m),
                decreases L - l,
            {
                let mut p = out[l];
                p.0[i] = digits[l];
                out[l] = p;
                l += 1;
            }
            i += 1;
        }
        out
    }
}

} // verus!
