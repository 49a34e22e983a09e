use nander::binary::Binary;
use nander::polynomial::{convolution, Cross, Polynomial};
use nander::torus::{Decimal, Torus};

fn torus(x: f64) -> Torus {
    let frac = x - x.floor();
    Decimal::from_bits(((frac * 4294967296.0) as u64 % 4294967296) as u32)
}

fn to_real(t: Torus) -> f64 {
    t.inner() as f64 / 4294967296.0
}

fn torus_range_eq(result: Torus, expect: Torus, acc: f32) -> bool {
    let result = to_real(result);
    let expect = to_real(expect);
    let d = (result - expect).abs();
    d.min(1.0 - d) < acc as f64
}

#[test]
fn polynomial_new() {
    let _interger_pol = Polynomial::new([2, 3, 4, 5]);
    let _float_pol = Polynomial::new([3.2, 4.5, 5.6, 7.8]);
    let _decimal_pol = Polynomial::new([Decimal(2_u32), Decimal(5_u32)]);
}

#[test]
fn polynomial_add() {
    let l_integer = Polynomial::new([2, 3, 4, 5]);
    let r_integer = Polynomial::new([4, 5, 6, 7]);
    assert!(l_integer.add(&r_integer).0 == [6, 8, 10, 12]);

    let l_dec = Polynomial::new([torus(0.5), torus(0.75)]);
    let r_dec = Polynomial::new([torus(0.75), torus(0.5)]);
    let res = l_dec.add(&r_dec).0;
    assert!(torus_range_eq(res[0], torus(0.25), 1e-9));
    assert!(torus_range_eq(res[1], torus(0.25), 1e-9));
}

#[test]
fn polynomial_schalar() {
    let integer = Polynomial::new([2, 3, 4, 5]);
    assert!(integer.mul(3).0 == [6, 9, 12, 15]);

    let dec = Polynomial::new([torus(0.5), torus(0.75)]);
    let res = dec.mul(3).0;
    assert!(torus_range_eq(res[0], torus(0.5), 1e-9));
    assert!(torus_range_eq(res[1], torus(0.25), 1e-9));
}

#[test]
fn polynomial_cross() {
    let l_f = Polynomial::new([2, 3, 4]);
    let r_i = Polynomial::new([4, 5, 6]);
    assert_eq!((l_f.cross(&r_i)).0, [-30, -2, 43]);

    let acc: f32 = 1e-6;
    {
        let l_d = Polynomial::new([torus(0.5), torus(0.75)]);
        let r_i = Polynomial::new([2, 3]);
        let res = l_d.cross(&r_i);
        assert!(torus_range_eq(res.coef_(0), torus(0.75), acc));
        assert!(torus_range_eq(res.coef_(1), torus(0.0), acc));
    }
    {
        let l = Polynomial::new([torus(0.5)]);
        let r = Polynomial::new([1]);
        let res = l.cross(&r);
        assert!(torus_range_eq(res.coef_(0), l.coef_(0), acc), "identity part1");
    }
    {
        let l = Polynomial::new([torus(0.25), torus(0.5)]);
        let r = Polynomial::new([1, 0]);
        let res = l.cross(&r);
        assert!(torus_range_eq(res.coef_(0), l.coef_(0), acc), "identity part2");
        assert!(torus_range_eq(res.coef_(1), l.coef_(1), acc), "identity part2");
    }
    {
        let l = Polynomial::new([torus(0.5), torus(0.25), torus(0.125)]);
        let r = Polynomial::new([1, 0, 0]);
        let res = l.cross(&r);
        assert!(torus_range_eq(res.coef_(0), l.coef_(0), acc), "identity part3");
        assert!(torus_range_eq(res.coef_(1), l.coef_(1), acc), "identity part3");
        assert!(torus_range_eq(res.coef_(2), l.coef_(2), acc), "identity part3");
    }
    {
        let l = Polynomial::new([torus(0.25)]);
        let r = Polynomial::new([-1]);
        let res = l.cross(&r);
        assert!(torus_range_eq(res.coef_(0), torus(0.75), acc), "times -1 flips");
    }
    {
        let pol_i32 = Polynomial::new([1, -1, 1]);
        let pol_torus = Polynomial::new([torus(0.5), torus(0.25), torus(0.125)]);
        let res = pol_torus.cross(&pol_i32);
        assert!(torus_range_eq(res.coef_(0), torus(3.0 / 8.0), acc), "normal 0");
        assert!(torus_range_eq(res.coef_(1), torus(-3.0 / 8.0), acc), "normal 1");
        assert!(torus_range_eq(res.coef_(2), torus(3.0 / 8.0), acc), "normal 2");
    }
}

#[test]
fn polynomial_mul_add() {
    let l_f = Polynomial::new([2, 3, 4]);
    let r_i = Polynomial::new([4, 5, 6]);
    let a_i = Polynomial::new([1, 1, 1]);

    assert_eq!((&l_f).mul_add(&r_i, a_i), Polynomial::new([-29, -1, 44]));
    assert_eq!(l_f.mul_add(&r_i, a_i), Polynomial::new([-29, -1, 44]));

    let acc: f32 = 1e-6;
    {
        let l_d = Polynomial::new([torus(0.5), torus(0.75)]);
        let r_i = Polynomial::new([2, 3]);
        let a_d = Polynomial::new([torus(0.125), torus(0.25)]);
        let res = l_d.mul_add(&r_i, a_d);
        assert!(torus_range_eq(res.coef_(0), torus(0.875), acc));
        assert!(torus_range_eq(res.coef_(1), torus(0.25), acc));
    }
}

#[test]
fn polynomial_decomposition() {
    let pol = Polynomial::new([Decimal(0x8000_0000_u32)]);
    let res = pol.decomposition::<7>(4);
    let decomp = pol.coef_(0).decomposition_i32::<7>(4);
    let mut expect = [Polynomial::new([0i32]); 7];
    for i in 0..7 {
        expect[i] = Polynomial::new([decomp[i]]);
    }
    assert_eq!(res, expect, "one coefficient");

    let pol = Polynomial::new([Decimal(0x0000_0001_u32), Decimal(0x0002_8000_u32)]);
    let res = pol.decomposition::<2>(16);
    assert_eq!(res, [Polynomial::new([0, 3]), Polynomial::new([1, -32768])], "two coefficients");

    let pol = Polynomial::new([Decimal(0b000001_000010_000011_100000_000000_00u32)]);
    let res = pol.decomposition::<3>(6);
    assert_eq!(res, [Polynomial::new([1]), Polynomial::new([2]), Polynomial::new([4])], "part 3");
}

#[test]
fn polynomial_rotate() {
    let pol = Polynomial::new([1, 2, 3, 4, 5]);
    assert_eq!(pol.rotate(1), Polynomial::new([-5, 1, 2, 3, 4]));
    assert_eq!(pol.rotate(3), Polynomial::new([-3, -4, -5, 1, 2]));
    assert_eq!(pol.rotate(-1), Polynomial::new([2, 3, 4, 5, -1]));
    assert_eq!(pol.rotate(-3), Polynomial::new([4, 5, -1, -2, -3]));
    assert_eq!(pol.rotate(10), pol);
}

#[test]
fn polynomial_rotate_doc_examples() {
    assert_eq!(Polynomial::new([1, 2, 3]).rotate(1), Polynomial::new([-3, 1, 2]));
    assert_eq!(Polynomial::new([1, 2, 3]).rotate(-1), Polynomial::new([2, 3, -1]));
    assert_eq!(Polynomial::new([1, 2, 3]).rotate(3), Polynomial::new([-1, -2, -3]));
    assert_eq!(Polynomial::new([1, 2, 3]).rotate(6), Polynomial::new([1, 2, 3]));
    assert_eq!(Polynomial::new([1, 2, 3]).rotate(i32::MIN), Polynomial::new([3, -1, -2]));
}

#[test]
fn polynomial_rotate_period_and_negation() {
    let p = Polynomial::new([7, -2, 0, 9, 4, -11]);
    for n in -20..20 {
        assert_eq!(p.rotate(n + 12), p.rotate(n));
    }
    assert_eq!(p.rotate(6), p.neg());
}

#[test]
fn polynomial_mul_add_is_cross_then_add() {
    let a = Polynomial::new([3, -1, 4, 1]);
    let b = Polynomial::new([-5, 9, 2, 6]);
    let c = Polynomial::new([5, 3, -5, 8]);
    assert_eq!(a.mul_add(&b, c), a.cross(&b).add(&c));
    let a = Polynomial::new([torus(0.3), torus(0.9)]);
    let b = Polynomial::new([Binary::One, Binary::One]);
    let c = Polynomial::new([torus(0.125), torus(0.5)]);
    assert_eq!(a.mul_add(&b, c), a.cross(&b).add(&c));
}

#[test]
fn polynomial_cross_trait_and_binary() {
    let l = Polynomial::new([torus(0.5), torus(0.25)]);
    let r = Polynomial::new([Binary::Zero, Binary::One]);
    let res = Cross::cross(&l, &r);
    assert_eq!(res.coef_(0), -torus(0.25));
    assert_eq!(res.coef_(1), torus(0.5));
}

#[test]
fn polynomial_elementwise() {
    let p = Polynomial::new([1, -2, 3]);
    let q = Polynomial::new([4, 5, -6]);
    assert_eq!(p.sub(&q), Polynomial::new([-3, -7, 9]));
    assert_eq!(p.neg(), Polynomial::new([-1, 2, -3]));
    let mut s = p;
    s.add_assign(&q);
    assert_eq!(s, Polynomial::new([5, 3, -3]));
    s.add_constant(10);
    assert_eq!(s, Polynomial::new([15, 3, -3]));
    assert_eq!(*p.coefficient(), [1, -2, 3]);
    assert!(Polynomial::<i32, 4>::zero().is_zero());
    assert!(!p.is_zero());
    assert_eq!(Polynomial::new([i32::MAX]).add(&Polynomial::new([1])), Polynomial::new([i32::MIN]));
}

#[test]
fn polynomial_convolution_terms() {
    let l = [2, 3, 4];
    let r = [4, 5, 6];
    assert_eq!(convolution(&l, &r, 0), 8);
    assert_eq!(convolution(&l, &r, 2), 2 * 6 + 3 * 5 + 4 * 4);
    assert_eq!(convolution(&l, &r, 4), 24);
}

#[test]
fn polynomial_empty() {
    let p: Polynomial<i32, 0> = Polynomial::new([]);
    let q: Polynomial<i32, 0> = Polynomial::new([]);
    assert_eq!(p.cross(&q), p);
    assert_eq!(p.mul_add(&q, p), p);
    assert!(p.is_zero());
    let t: Polynomial<Torus, 0> = Polynomial::new([]);
    let d: [Polynomial<i32, 0>; 3] = t.decomposition::<3>(8);
    assert_eq!(d, [p; 3]);
}

#[test]
fn polynomial_iter_in_order() {
    let p = Polynomial::new([4, 1, 3]);
    let v: Vec<i32> = p.iter().copied().collect();
    assert_eq!(v, vec![4, 1, 3]);
}
