//! The torus R/Z, held as 32 fractional bits.
use vstd::prelude::*;
use vstd::std_specs::ops::{AddSpec, NegSpec};
use crate::binary::Binary;
use vstd::arithmetic::power2::{pow2, lemma_pow2_pos, lemma_pow2_strictly_increases, lemma_pow2_adds};
use vstd::arithmetic::div_mod::lemma_fundamental_div_mod_converse_mod;
use vstd::bits::{low_bits_mask, lemma_u64_shr_is_div, lemma_u64_shl_is_mul, lemma_u64_pow2_no_overflow, lemma_u64_low_bits_mask_is_mod};
use crate::word::{Coef, Scalar, modulus, wrap, lemma_mul_wrap};

verus! {

/// A fixed-point fraction: the word `u` stands for the real number u / 2^32.
#[derive(Debug, Clone, Copy, PartialEq, Eq, Structural)]
pub struct Decimal<U>(pub U);

/// An element of the torus with 32 bits of precision.
pub type Torus = Decimal<u32>;

impl<U> Decimal<U> {
    pub fn from_bits(u: U) -> (r: Self)
        ensures
            r.0 == u,
    {
        Decimal(u)
    }
}

impl<U: Copy> Decimal<U> {
    pub fn inner(&self) -> (r: U)
        ensures
            r == self.0,
    {
        self.0
    }
}

impl Decimal<u32> {
    /// The torus element whose word is `wrap(x)`.
    pub open spec fn of_int(x: int) -> Torus {
        Decimal(wrap(x) as u32)
    }

    pub fn zero_torus() -> (r: Torus)
        ensures
            r.0 == 0,
    {
        Decimal(0)
    }

    pub fn is_zero(&self) -> (r: bool)
        ensures
            r == (self.0 == 0),
    {
        self.0 == 0
    }
}

impl core::ops::Add for Decimal<u32> {
    type Output = Decimal<u32>;

    fn add(self, rhs: Decimal<u32>) -> (r: Decimal<u32>) {
        Decimal(self.0.wrapping_add(rhs.0))
    }
}

impl vstd::std_specs::ops::AddSpecImpl for Decimal<u32> {
    open spec fn obeys_add_spec() -> bool {
        true
    }

    open spec fn add_req(self, rhs: Decimal<u32>) -> bool {
        true
    }

    open spec fn add_spec(self, rhs: Decimal<u32>) -> Decimal<u32> {
        Decimal::of_int(self.0 + rhs.0)
    }
}

impl core::ops::AddAssign for Decimal<u32> {
    fn add_assign(&mut self, rhs: Decimal<u32>)
        ensures
            *final(self) == Decimal::of_int(old(self).0 + rhs.0),
    {
        self.0 = self.0.wrapping_add(rhs.0);
    }
}

impl core::ops::SubAssign for Decimal<u32> {
    fn sub_assign(&mut self, rhs: Decimal<u32>)
        ensures
            *final(self) == Decimal::of_int(old(self).0 - rhs.0),
    {
        self.0 = self.0.wrapping_sub(rhs.0);
    }
}

impl core::ops::Sub for Decimal<u32> {
    type Output = Decimal<u32>;

    fn sub(self, rhs: Decimal<u32>) -> (r: Decimal<u32>) {
        Decimal(self.0.wrapping_sub(rhs.0))
    }
}

impl vstd::std_specs::ops::SubSpecImpl for Decimal<u32> {
    open spec fn obeys_sub_spec() -> bool {
        true
    }

    open spec fn sub_req(self, rhs: Decimal<u32>) -> bool {
        true
    }

    open spec fn sub_spec(self, rhs: Decimal<u32>) -> Decimal<u32> {
        Decimal::of_int(self.0 - rhs.0)
    }
}

impl core::ops::Neg for Decimal<u32> {
    type Output = Decimal<u32>;

    fn neg(self) -> (r: Decimal<u32>) {
        Decimal(0u32.wrapping_sub(self.0))
    }
}

impl vstd::std_specs::ops::NegSpecImpl for Decimal<u32> {
    open spec fn obeys_neg_spec() -> bool {
        true
    }

    open spec fn neg_req(self) -> bool {
        true
    }

    open spec fn neg_spec(self) -> Decimal<u32> {
        Decimal::of_int(-self.0)
    }
}

impl core::ops::Mul<u32> for Decimal<u32> {
    type Output = Decimal<u32>;

    fn mul(self, rhs: u32) -> (r: Decimal<u32>) {
        Decimal(self.0.wrapping_mul(rhs))
    }
}

impl vstd::std_specs::ops::MulSpecImpl<u32> for Decimal<u32> {
    open spec fn obeys_mul_spec() -> bool {
        true
    }

    open spec fn mul_req(self, rhs: u32) -> bool {
        true
    }

    open spec fn mul_spec(self, rhs: u32) -> Decimal<u32> {
        Decimal::of_int(self.0 * rhs)
    }
}

impl core::ops::Mul<i32> for Decimal<u32> {
    type Output = Decimal<u32>;

    /// A negative factor k is applied as -(t * |k|).
    fn mul(self, rhs: i32) -> (r: Decimal<u32>) {
        if rhs < 0 {
            let m = (-(rhs as i64)) as u32;
            let p = self.0.wrapping_mul(m);
            proof {
                assert(m as int == -(rhs as int));
                vstd::arithmetic::div_mod::lemma_mul_mod_noop_right(self.0 as int, -(rhs as int), modulus());
                vstd::arithmetic::div_mod::lemma_sub_mod_noop(0, self.0 * (-(rhs as int)), modulus());
                assert(-(self.0 * (-(rhs as int))) == self.0 * rhs) by (nonlinear_arith);
            }
            Decimal(0u32.wrapping_sub(p))
        } else {
            Decimal(self.0.wrapping_mul(rhs as u32))
        }
    }
}

impl vstd::std_specs::ops::MulSpecImpl<i32> for Decimal<u32> {
    open spec fn obeys_mul_spec() -> bool {
        true
    }

    open spec fn mul_req(self, rhs: i32) -> bool {
        true
    }

    open spec fn mul_spec(self, rhs: i32) -> Decimal<u32> {
        Decimal::of_int(self.0 * rhs)
    }
}

impl core::ops::Mul<Binary> for Decimal<u32> {
    type Output = Decimal<u32>;

    fn mul(self, rhs: Binary) -> (r: Decimal<u32>) {
        Decimal(self.0.wrapping_mul(rhs.to_u32()))
    }
}

impl vstd::std_specs::ops::MulSpecImpl<Binary> for Decimal<u32> {
    open spec fn obeys_mul_spec() -> bool {
        true
    }

    open spec fn mul_req(self, rhs: Binary) -> bool {
        true
    }

    open spec fn mul_spec(self, rhs: Binary) -> Decimal<u32> {
        Decimal::of_int(self.0 * rhs.value())
    }
}

impl Coef for Decimal<u32> {
    open spec fn residue(self) -> int {
        self.0 as int
    }

    open spec fn of_residue(x: int) -> Torus {
        Decimal::of_int(x)
    }

    proof fn lemma_residue(c: Torus, x: int) {
    }

    fn zero() -> (r: Torus) {
        Decimal(0)
    }

    fn is_zero_coef(self) -> (r: bool) {
        self.0 == 0
    }

    fn add_coef(self, rhs: Torus) -> (r: Torus) {
        self + rhs
    }

    fn sub_coef(self, rhs: Torus) -> (r: Torus) {
        self - rhs
    }

    fn neg_coef(self) -> (r: Torus) {
        core::ops::Neg::neg(self)
    }

    fn scale<S: Scalar>(self, k: S) -> (r: Torus) {
        let w = k.to_word();
        proof {
            lemma_mul_wrap(self.0 as int, k.factor(), w as int);
        }
        self * w
    }
}

/// The word after the tail below the top `width` bits is rounded half up:
/// 2^(31 - width) is added (wrapping) when `width` < 32.
pub open spec fn rounded_word(u: int, width: int) -> int {
    if width < 32 {
        wrap(u + pow2((31 - width) as nat))
    } else {
        u
    }
}

/// The `i`-th base-2^bits digit, from the top, of the rounded word, for an
/// expansion into `len` digits.
pub open spec fn unsigned_digit(u: int, bits: nat, len: nat, i: int) -> int {
    (rounded_word(u, (len * bits) as int) / pow2((32 - bits * (i + 1)) as nat) as int) % pow2(bits) as int
}

/// All `len` unsigned digits of `u`.
pub open spec fn unsigned_digits(u: int, bits: nat, len: nat) -> Seq<int> {
    Seq::new(len, |i: int| unsigned_digit(u, bits, len, i))
}

/// The carry that flows into digit `i` from the digits below it (those with a
/// larger index) when each digit of at least half the base `bg` is made negative.
pub open spec fn carry_into(us: Seq<int>, bg: int, i: int) -> int
    decreases us.len() - i,
{
    if i + 1 >= us.len() || i + 1 < 0 {
        0
    } else if 2 * (us[i + 1] + carry_into(us, bg, i + 1)) >= bg {
        1
    } else {
        0
    }
}

/// The signed form of digit `i`: the digit plus its incoming carry, minus the base
/// when that reaches half of it.
pub open spec fn signed_digit(us: Seq<int>, bg: int, i: int) -> int {
    let v = us[i] + carry_into(us, bg, i);
    if 2 * v >= bg {
        v - bg
    } else {
        v
    }
}

impl Decimal<u32> {
    /// The base-2^bits digits of the rounded word, most significant first, each in
    /// [0, 2^bits).
    pub fn decomposition_u32<const L: usize>(self, bits: u32) -> (r: [u32; L])
        requires
            L * bits <= 32,
        ensures
            forall|i: int| 0 <= i < L ==> r[i] as int == unsigned_digit(self.0 as int, bits as nat, L as nat, i),
            forall|i: int| 0 <= i < L ==> (#[trigger] r[i] as int) < pow2(bits as nat),
    {
        if L == 0 {
            return [0u32; L];
        }
        assert(bits <= 32) by (nonlinear_arith)
            requires
                L * bits <= 32,
                L >= 1,
        ;
        let width: u64 = (L as u64) * (bits as u64);
        let u: u64 = self.0 as u64;
        let rounded: u64 = if width < 32 {
            let half: u64 = 1u64 << (31 - width);
            proof {
                lemma_u64_pow2_no_overflow((31 - width) as nat);
                lemma_pow2_strictly_increases((31 - width) as nat, 32);
                vstd::arithmetic::power2::lemma2_to64();
                lemma_u64_shl_is_mul(1, (31 - width) as u64);
            }
            (u + half) % 0x1_0000_0000
        } else {
            u
        };
        assert(rounded as int == rounded_word(self.0 as int, (L * bits) as int));
        proof {
            lemma_u64_pow2_no_overflow(bits as nat);
            lemma_u64_shl_is_mul(1, bits as u64);
        }
        let mask: u64 = (1u64 << (bits as u64)) - 1;
        assert(mask == low_bits_mask(bits as nat));
        let mut res: [u32; L] = [0u32; L];
        let mut i: usize = 0;
        while i < L
            invariant
                0 <= i <= L,
                L * bits <= 32,
                bits <= 32,
                rounded < 0x1_0000_0000,
                rounded as int == rounded_word(self.0 as int, (L * bits) as int),
                mask == low_bits_mask(bits as nat),
                forall|j: int| 0 <= j < i ==> res[j] as int == unsigned_digit(self.0 as int, bits as nat, L as nat, j),
                forall|j: int| 0 <= j < i ==> (#[trigger] res[j] as int) < pow2(bits as nat),
            decreases L - i,
        {
            assert(bits * (i + 1) <= 32) by (nonlinear_arith)
                requires
                    i + 1 <= L,
                    L * bits <= 32,
            ;
            let shift: u64 = 32 - (bits as u64) * (i as u64 + 1);
            let top: u64 = rounded >> shift;
            proof {
                lemma_u64_shr_is_div(rounded, shift);
                lemma_u64_low_bits_mask_is_mod(top, bits as nat);
                lemma_u64_pow2_no_overflow(bits as nat);
                assert(low_bits_mask(bits as nat) as u64 == mask);
                lemma_pow2_pos(bits as nat);
                lemma_pow2_pos(shift as nat);
            }
            let digit: u64 = top & mask;
            proof {
                vstd::arithmetic::div_mod::lemma_mod_pos_bound(top as int, pow2(bits as nat) as int);
            }
            assert(digit <= top) by (bit_vector)
                requires
                    digit == top & mask,
            ;
            assert(top <= rounded) by (bit_vector)
                requires
                    top == rounded >> shift,
            ;
            assert(shift as nat == (32 - bits * (i + 1)) as nat);
            assert(top as int == rounded as int / pow2(shift as nat) as int);
            assert(digit as int == (top as int) % (pow2(bits as nat) as int));
            assert(digit as int == unsigned_digit(self.0 as int, bits as nat, L as nat, i as int));
            res[i] = digit as u32;
            i += 1;
        }
        res
    }

    /// The signed base-2^bits digits: `r[i]` is `signed_digit` of the unsigned
    /// digits, and lies in [-2^bits / 2, 2^bits / 2).
    pub fn decomposition_i32<const L: usize>(self, bits: u32) -> (r: [i32; L])
        requires
            L * bits <= 32,
        ensures
            forall|i: int| 0 <= i < L ==> r[i] as int == signed_digit(
                unsigned_digits(self.0 as int, bits as nat, L as nat), pow2(bits as nat) as int, i),
            forall|i: int| 0 <= i < L ==> -pow2(bits as nat) <= 2 * #[trigger] r[i] < pow2(bits as nat),
    {
        if L == 0 {
            return [0i32; L];
        }
        assert(bits <= 32) by (nonlinear_arith)
            requires
                L * bits <= 32,
                L >= 1,
        ;
        let us = self.decomposition_u32::<L>(bits);
        let ghost digits = unsigned_digits(self.0 as int, bits as nat, L as nat);
        proof {
            lemma_u64_pow2_no_overflow(bits as nat);
            lemma_u64_shl_is_mul(1, bits as u64);
            if bits < 32 {
                lemma_pow2_strictly_increases(bits as nat, 32);
            }
            vstd::arithmetic::power2::lemma2_to64();
        }
        let bg: u64 = 1u64 << (bits as u64);
        let mut out: [i32; L] = [0i32; L];
        let mut carry: u64 = 0;
        let mut i: usize = L;
        while i > 0
            invariant
                0 <= i <= L,
                bg as int == pow2(bits as nat),
                bg <= 0x1_0000_0000,
                digits == unsigned_digits(self.0 as int, bits as nat, L as nat),
                forall|j: int| 0 <= j < L ==> us[j] as int == digits[j],
                forall|j: int| 0 <= j < L ==> (#[trigger] us[j] as int) < pow2(bits as nat),
                carry as int == carry_into(digits, bg as int, i - 1),
                carry <= 1,
                forall|j: int| i <= j < L ==> out[j] as int == signed_digit(digits, bg as int, j),
                forall|j: int| i <= j < L ==> -(bg as int) <= 2 * #[trigger] out[j] < bg,
            decreases i,
        {
            i -= 1;
            let v: u64 = us[i] as u64 + carry;
            assert(us[i as int] < bg);
            if 2 * v >= bg {
                out[i] = (v as i64 - bg as i64) as i32;
                carry = 1;
            } else {
                out[i] = v as i32;
                carry = 0;
            }
        }
        out
    }
}

/// Adding a torus element and then its opposite gives the start value back.
pub proof fn lemma_add_then_neg(a: Torus, b: Torus)
    ensures
        a.add_spec(b).add_spec(b.neg_spec()) == a,
{
}

} // verus!

verus! {

/// The weight 2^(32 - bits * (i + 1)) of digit `i`, in units of 2^-32.
pub open spec fn digit_weight(bits: nat, i: int) -> int {
    pow2((32 - bits * (i + 1)) as nat) as int
}

/// The sum of the first `k` digits times their weights.
pub open spec fn weighted_sum(ds: Seq<int>, bits: nat, k: int) -> int
    decreases k,
{
    if k <= 0 {
        0
    } else {
        weighted_sum(ds, bits, k - 1) + ds[k - 1] * digit_weight(bits, k - 1)
    }
}

/// The `len` signed digits of `u`, as `decomposition_i32` returns them.
pub open spec fn signed_digits(u: int, bits: nat, len: nat) -> Seq<int> {
    Seq::new(len, |i: int| signed_digit(unsigned_digits(u, bits, len), pow2(bits) as int, i))
}

/// The unsigned digits of a word `r` below 2^32 rebuild it down to the
/// precision of the last digit taken.
proof fn lemma_unsigned_sum(r: int, ds: Seq<int>, bits: nat, k: nat)
    requires
        0 <= r < 0x1_0000_0000,
        k <= ds.len(),
        k * bits <= 32,
        forall|i: int| 0 <= i < k ==> #[trigger] ds[i] == (r / digit_weight(bits, i)) % pow2(bits) as int,
    ensures
        weighted_sum(ds, bits, k as int) == r - r % pow2((32 - k * bits) as nat) as int,
    decreases k,
{
    if k == 0 {
        assert(k * bits == 0) by (nonlinear_arith) requires k == 0;
        vstd::arithmetic::power2::lemma2_to64();
        vstd::arithmetic::div_mod::lemma_small_mod(r as nat, 0x1_0000_0000);
    } else {
        let k1 = (k - 1) as nat;
        assert(k1 * bits <= 32) by (nonlinear_arith)
            requires
                k * bits <= 32,
                k1 == k - 1,
        ;
        lemma_unsigned_sum(r, ds, bits, k1);
        let s = (32 - k * bits) as nat;
        assert(32 - k1 * bits == s + bits) by (nonlinear_arith)
            requires
                k1 == k - 1,
                s == 32 - k * bits,
                k * bits <= 32,
        ;
        assert(32 - bits * (k1 + 1) == s) by (nonlinear_arith)
            requires
                k1 == k - 1,
                s == 32 - k * bits,
        ;
        lemma_pow2_adds(s, bits);
        lemma_pow2_pos(s);
        lemma_pow2_pos(bits);
        vstd::arithmetic::div_mod::lemma_mod_breakdown(r, pow2(s) as int, pow2(bits) as int);
        assert(digit_weight(bits, k1 as int) == pow2(s));
        let d = ds[k1 as int];
        assert(d == (r / pow2(s) as int) % pow2(bits) as int);
        assert(pow2((32 - k1 * bits) as nat) == pow2(s) * pow2(bits));
        assert(weighted_sum(ds, bits, k as int) == weighted_sum(ds, bits, k1 as int) + d * pow2(s));
        assert(r % (pow2(s) * pow2(bits)) as int == pow2(s) * d + r % pow2(s) as int);
    }
}

/// With the incoming carries made explicit, the signed digits sum to the
/// unsigned ones, less 2^32 times the carry that leaves the top digit.
proof fn lemma_signed_sum(us: Seq<int>, bits: nat, k: int)
    requires
        us.len() * bits <= 32,
        0 <= k <= us.len(),
    ensures
        weighted_sum(Seq::new(us.len(), |i: int| signed_digit(us, pow2(bits) as int, i)), bits, k)
            == weighted_sum(us, bits, k)
            + carry_into(us, pow2(bits) as int, k - 1) * digit_weight(bits, k - 1)
            - carry_into(us, pow2(bits) as int, -1) * 0x1_0000_0000,
    decreases k,
{
    let bg = pow2(bits) as int;
    let ds = Seq::new(us.len(), |i: int| signed_digit(us, bg, i));
    if k == 0 {
        vstd::arithmetic::power2::lemma2_to64();
        assert(bits * (-1 + 1) == 0) by (nonlinear_arith);
        assert(digit_weight(bits, -1) == 0x1_0000_0000);
    } else {
        lemma_signed_sum(us, bits, k - 1);
        let i = k - 1;
        assert(i * bits <= 32 && (i + 1) * bits <= 32) by (nonlinear_arith)
            requires
                us.len() * bits <= 32,
                0 <= i < us.len(),
        ;
        let e = (32 - bits * (i + 1)) as nat;
        assert(32 - bits * i == e + bits) by (nonlinear_arith)
            requires
                e == 32 - bits * (i + 1),
                (i + 1) * bits <= 32,
        ;
        lemma_pow2_adds(e, bits);
        assert(digit_weight(bits, i - 1) == bg * digit_weight(bits, i)) by (nonlinear_arith)
            requires
                digit_weight(bits, i - 1) == pow2(e + bits),
                pow2(e + bits) == pow2(e) * pow2(bits),
                digit_weight(bits, i) == pow2(e),
                bg == pow2(bits),
        ;
        assert(ds[i] == us[i] + carry_into(us, bg, i) - bg * carry_into(us, bg, i - 1));
        assert(carry_into(us, bg, us.len() - 1) == 0);
        assert(ds[i] * digit_weight(bits, i) == us[i] * digit_weight(bits, i)
            + carry_into(us, bg, i) * digit_weight(bits, i)
            - carry_into(us, bg, i - 1) * digit_weight(bits, i - 1)) by (nonlinear_arith)
            requires
                ds[i] == us[i] + carry_into(us, bg, i) - bg * carry_into(us, bg, i - 1),
                digit_weight(bits, i - 1) == bg * digit_weight(bits, i),
        ;
    }
}

/// The signed digits rebuild the torus value up to half a unit of the last
/// digit: t - sum of d_i * 2^-(i+1)bits lies in [-2^-(L bits) / 2, 2^-(L bits) / 2)
/// on the torus, and each digit lies in [-2^bits / 2, 2^bits / 2).
pub proof fn lemma_decomposition_error(t: Torus, bits: nat, len: nat)
    requires
        len * bits <= 32,
    ensures
        wrap(t.0 - weighted_sum(signed_digits(t.0 as int, bits, len), bits, len as int)
            + pow2((32 - len * bits) as nat) as int / 2) < pow2((32 - len * bits) as nat),
        forall|i: int| 0 <= i < len ==> -pow2(bits) <= 2 * #[trigger] signed_digits(t.0 as int, bits, len)[i] < pow2(bits),
{
    let us = unsigned_digits(t.0 as int, bits, len);
    let bg = pow2(bits) as int;
    let width = (len * bits) as int;
    let r = rounded_word(t.0 as int, width);
    let w = pow2((32 - len * bits) as nat) as int;
    vstd::arithmetic::power2::lemma2_to64();
    lemma_pow2_pos(bits);
    lemma_pow2_pos((32 - len * bits) as nat);
    assert(0 <= r < 0x1_0000_0000);
    assert forall|i: int| 0 <= i < len implies #[trigger] us[i] == (r / digit_weight(bits, i)) % bg by {}
    lemma_unsigned_sum(r, us, bits, len);
    lemma_signed_sum(us, bits, len as int);
    assert(carry_into(us, bg, len - 1) == 0);
    let c = carry_into(us, bg, -1);
    let total = weighted_sum(signed_digits(t.0 as int, bits, len), bits, len as int);
    assert(signed_digits(t.0 as int, bits, len) == Seq::new(us.len(), |i: int| signed_digit(us, bg, i)));
    assert(total == r - r % w - c * 0x1_0000_0000);
    vstd::arithmetic::div_mod::lemma_mod_pos_bound(r, w);
    if width < 32 {
        let h = pow2((31 - width) as nat) as int;
        lemma_pow2_adds((31 - width) as nat, 1);
        assert(w == 2 * h);
        assert(r == wrap(t.0 + h));
        // t - total = (r % w - h) + (t + h - r) + c * 2^32, where t + h - r is a multiple of 2^32
        vstd::arithmetic::div_mod::lemma_fundamental_div_mod(t.0 + h, modulus());
        let q = (t.0 + h) / modulus();
        assert(t.0 - total + w / 2 == r % w + (q + c) * modulus()) by (nonlinear_arith)
            requires
                total == r - r % w - c * 0x1_0000_0000,
                t.0 + h == modulus() * q + r,
                w / 2 == h,
                modulus() == 0x1_0000_0000,
        ;
        lemma_fundamental_div_mod_converse_mod(t.0 - total + w / 2, modulus(), q + c, r % w);
        assert(w <= 0x1_0000_0000) by {
            if ((32 - len * bits) as nat) < 32 {
                lemma_pow2_strictly_increases((32 - len * bits) as nat, 32);
            }
        }
    } else {
        assert(w == 1);
        assert(r == t.0);
        vstd::arithmetic::div_mod::lemma_small_mod(0, 1);
        assert(r % w == 0);
        lemma_fundamental_div_mod_converse_mod(t.0 - total, modulus(), c, 0);
    }
    assert forall|i: int| 0 <= i < len implies -pow2(bits) <= 2 * #[trigger] signed_digits(t.0 as int, bits, len)[i] < pow2(bits) by {
        lemma_pow2_pos((32 - bits * (i + 1)) as nat);
        vstd::arithmetic::div_mod::lemma_div_pos_is_pos(r, digit_weight(bits, i));
        vstd::arithmetic::div_mod::lemma_mod_pos_bound(r / digit_weight(bits, i), bg);
    }
}

} // verus!
