use exact_complex::complex::Complex;
use exact_complex::error::FendError;
use exact_complex::exact::Exact;
use exact_complex::realnum::{BitwiseBop, Real};
use exact_complex::elementary::RealFn;
use exact_complex::format::{Base, FormattingStyle, UseParentheses};
use std::cmp::Ordering;

fn r(n: i64) -> Real {
    Real::from_i64(n)
}

fn q(n: i128, d: i128) -> Real {
    Real::from_fraction(n, d).unwrap()
}

fn c(re: i64, im: i64) -> Complex {
    Complex::new(r(re), r(im))
}

fn ex(z: Complex) -> Exact<Complex> {
    Exact::new(z, true)
}

#[test]
fn fractions_are_reduced() {
    assert_eq!(q(6, 4).parts(), (3, 2));
    assert_eq!(q(-6, 4).parts(), (-3, 2));
    assert_eq!(q(0, 5).parts(), (0, 1));
    assert_eq!(Real::from_fraction(1i128 << 70, 1), Err(FendError::OutOfRange));
}

#[test]
fn real_arithmetic() {
    assert_eq!(q(1, 2).add(q(1, 3)), Ok(q(5, 6)));
    assert_eq!(q(1, 2).sub(q(1, 3)), Ok(q(1, 6)));
    assert_eq!(q(2, 3).mul(q(3, 4)), Ok(q(1, 2)));
    assert_eq!(q(2, 3).div(q(-4, 9)), Ok(q(-3, 2)));
    assert_eq!(q(2, 3).div(r(0)), Err(FendError::DivideByZero));
    assert_eq!(r(i64::MAX).add(r(1)), Err(FendError::OutOfRange));
}

#[test]
fn complex_addition() {
    assert_eq!(ex(c(1, 2)).add(ex(c(3, -5))), Ok(ex(c(4, -3))));
    let approximate = Exact::new(c(1, 1), false);
    assert_eq!(approximate.add(ex(c(1, 1))), Ok(Exact::new(c(2, 2), false)));
}

#[test]
fn complex_multiplication() {
    // (1 + 2i)(3 + 4i) = -5 + 10i
    assert_eq!(ex(c(1, 2)).mul(&ex(c(3, 4))), Ok(ex(c(-5, 10))));
    // i * i = -1
    assert_eq!(ex(Complex::i()).mul(&ex(Complex::i())), Ok(ex(c(-1, 0))));
    // an exact zero factor keeps the product exact
    let approximate = Exact::new(c(3, 4), false);
    assert_eq!(ex(c(0, 0)).mul(&approximate), Ok(ex(c(0, 0))));
    assert_eq!(ex(c(2, 0)).mul(&approximate), Ok(Exact::new(c(6, 8), false)));
}

#[test]
fn complex_division() {
    // (1 + 2i) / (3 + 4i) = (11 + 2i) / 25
    let quotient = ex(c(1, 2)).div(ex(c(3, 4))).unwrap();
    assert_eq!(quotient, ex(Complex::new(q(11, 25), q(2, 25))));
    // real operands take the real quotient
    assert_eq!(ex(c(6, 0)).div(ex(c(4, 0))), Ok(ex(Complex::new(q(3, 2), r(0)))));
    // (4 + 2i) / 2i = 1 - 2i
    assert_eq!(ex(c(4, 2)).div(ex(c(0, 2))), Ok(ex(c(1, -2))));
    assert_eq!(ex(c(1, 1)).div(ex(c(0, 0))), Err(FendError::DivideByZero));
    assert_eq!(ex(c(1, 0)).div(ex(c(0, 0))), Err(FendError::DivideByZero));
}

#[test]
fn division_then_multiplication_gives_back_the_dividend() {
    let a = ex(c(7, -3));
    let b = ex(c(2, 5));
    let quotient = a.div(b).unwrap();
    assert_eq!(quotient.mul(&b), Ok(a));
}

#[test]
fn powers_by_repeated_squaring() {
    // (1 + i)^4 = -4
    assert_eq!(c(1, 1).pow_n(4), Ok(ex(c(-4, 0))));
    assert_eq!(c(1, 1).pow_n(0), Ok(ex(c(1, 0))));
    assert_eq!(c(0, 1).pow_n(3), Ok(ex(c(0, -1))));
    assert_eq!(c(3, 0).pow_n(40), Err(FendError::OutOfRange));
}

#[test]
fn powers_add_their_exponents() {
    let z = c(2, -1);
    let a = z.pow_n(3).unwrap();
    let b = z.pow_n(2).unwrap();
    assert_eq!(a.mul(&b), z.pow_n(5));
}

/// An oracle for the real functions whose value at `x` is `100 · code + x`, approximate.
fn oracle(k: RealFn, x: Real) -> Result<Exact<Real>, FendError> {
    let code = match k {
        RealFn::Exp => 1,
        RealFn::Ln => 2,
        RealFn::Log2 => 3,
        RealFn::Log10 => 4,
        RealFn::Sin => 5,
        RealFn::Cos => 6,
        RealFn::Sinh => 7,
        RealFn::Cosh => 8,
        RealFn::Tanh => 9,
        RealFn::Asin => 10,
        RealFn::Acos => 11,
        RealFn::Atan => 12,
        RealFn::Asinh => 13,
        RealFn::Acosh => 14,
        RealFn::Atanh => 15,
        RealFn::Atan2(_) => 16,
        RealFn::Pow(_) => 17,
        RealFn::Pi => 18,
    };
    Ok(Exact::new(r(100 * code).add(x)?, false))
}

fn no_oracle(_: RealFn, _: Real) -> Result<Exact<Real>, FendError> {
    Err(FendError::OutOfRange)
}

#[test]
fn real_and_imaginary_powers() {
    assert_eq!(c(2, 0).pow(c(10, 0), &no_oracle), Ok(ex(c(1024, 0))));
    assert_eq!(c(2, 0).pow(c(-2, 0), &no_oracle), Ok(ex(Complex::new(q(1, 4), r(0)))));
    assert_eq!(c(0, 0).pow(c(-1, 0), &no_oracle), Err(FendError::DivideByZero));
    // (2i)^2 = -4
    assert_eq!(c(0, 2).pow(c(2, 0), &no_oracle), Ok(ex(c(-4, 0))));
    // i^-1 = -i
    assert_eq!(c(0, 1).pow(c(-1, 0), &no_oracle), Ok(ex(c(0, -1))));
    // (2i)^-1 = 2^-1 · i^-1 = -i/2
    assert_eq!(c(0, 2).pow(c(-1, 0), &no_oracle), Ok(ex(Complex::new(r(0), q(-1, 2)))));
    // (2i)^-2 = 2^-2 · i^-2 = -1/4
    assert_eq!(c(0, 2).pow(c(-2, 0), &no_oracle), Ok(ex(Complex::new(q(-1, 4), r(0)))));
}

#[test]
fn other_powers_go_through_logarithms() {
    // a fractional exponent of a non-negative real: the real power
    let half = Complex::new(q(1, 2), r(0));
    assert_eq!(c(2, 0).pow(half, &oracle), Ok(Exact::new(c(1702, 0), false)));
    // other powers need logarithms: without them, the error comes back
    assert_eq!(c(1, 1).pow(c(2, 0), &no_oracle), Err(FendError::OutOfRange));
    assert_eq!(c(2, 0).pow(c(0, 1), &no_oracle), Err(FendError::OutOfRange));
    assert_eq!(c(-2, 0).pow(half, &no_oracle), Err(FendError::OutOfRange));
    // e^(w ln z) for z = 2 and w = i: ln 2 = 202, w ln z = 202i, e^(202i) = 100 (cos 202 + i sin 202)
    assert_eq!(c(2, 0).pow(c(0, 1), &oracle), Ok(Exact::new(c(100 * 802, 100 * 702), false)));
}

#[test]
fn conjugate_and_negation() {
    assert_eq!(c(3, 4).conjugate(), c(3, -4));
    assert_eq!(c(3, 4).conjugate().conjugate(), c(3, 4));
    assert_eq!(c(3, -4).neg(), c(-3, 4));
    assert_eq!(Complex::i(), c(0, 1));
    assert_eq!(Complex::from_u64(7), c(7, 0));
}

#[test]
fn real_parts_and_integers() {
    assert_eq!(c(3, 0).expect_real(), Ok(r(3)));
    assert_eq!(c(3, 1).expect_real(), Err(FendError::ExpectedARealNumber));
    assert_eq!(c(3, 0).try_as_usize(), Ok(3));
    assert_eq!(c(3, 1).try_as_usize(), Err(FendError::ComplexToInteger));
    assert_eq!(c(-3, 0).try_as_usize(), Err(FendError::NegativeNumbersNotAllowed));
    assert_eq!(Complex::new(q(1, 2), r(0)).try_as_usize(), Err(FendError::ExpectedAnInteger));
    assert!(c(1, 0).is_definitely_one());
    assert!(!c(1, 1).is_definitely_one());
    assert!(!Complex::new(q(2, 3), r(0)).is_definitely_one());
}

#[test]
fn factorials() {
    assert_eq!(c(5, 0).factorial(), Ok(c(120, 0)));
    assert_eq!(c(0, 0).factorial(), Ok(c(1, 0)));
    assert_eq!(c(20, 0).factorial(), Ok(c(2_432_902_008_176_640_000, 0)));
    assert_eq!(c(21, 0).factorial(), Err(FendError::OutOfRange));
    assert_eq!(c(5, 1).factorial(), Err(FendError::FactorialComplex));
    assert_eq!(c(-1, 0).factorial(), Err(FendError::NegativeNumbersNotAllowed));
    assert_eq!(Complex::new(q(1, 2), r(0)).factorial(), Err(FendError::ExpectedAnInteger));
}

#[test]
fn remainders() {
    assert_eq!(c(7, 0).modulo(c(4, 0)), Ok(c(3, 0)));
    assert_eq!(c(-7, 0).modulo(c(4, 0)), Ok(c(1, 0)));
    assert_eq!(c(7, 0).modulo(c(-4, 0)), Ok(c(3, 0)));
    assert_eq!(c(-8, 0).modulo(c(4, 0)), Ok(c(0, 0)));
    assert_eq!(c(7, 0).modulo(c(0, 0)), Err(FendError::DivideByZero));
    assert_eq!(c(7, 1).modulo(c(2, 0)), Err(FendError::ExpectedARealNumber));
    assert_eq!(Complex::new(q(7, 2), r(0)).modulo(c(2, 0)), Err(FendError::ExpectedAnInteger));
}

#[test]
fn bitwise_operations() {
    assert_eq!(c(12, 0).bitwise(c(10, 0), BitwiseBop::And), Ok(c(8, 0)));
    assert_eq!(c(12, 0).bitwise(c(10, 0), BitwiseBop::Or), Ok(c(14, 0)));
    assert_eq!(c(12, 0).bitwise(c(10, 0), BitwiseBop::Xor), Ok(c(6, 0)));
    assert_eq!(c(1, 0).bitwise(c(10, 0), BitwiseBop::LeftShift), Ok(c(1024, 0)));
    assert_eq!(c(1024, 0).bitwise(c(3, 0), BitwiseBop::RightShift), Ok(c(128, 0)));
    assert_eq!(c(5, 0).bitwise(c(100, 0), BitwiseBop::RightShift), Ok(c(0, 0)));
    assert_eq!(c(1, 0).bitwise(c(63, 0), BitwiseBop::LeftShift), Err(FendError::OutOfRange));
    assert_eq!(c(0, 0).bitwise(c(200, 0), BitwiseBop::LeftShift), Ok(c(0, 0)));
    assert_eq!(c(-1, 0).bitwise(c(1, 0), BitwiseBop::And), Err(FendError::NegativeNumbersNotAllowed));
    assert_eq!(c(1, 1).bitwise(c(1, 0), BitwiseBop::And), Err(FendError::ExpectedARealNumber));
}

#[test]
fn selections() {
    assert_eq!(c(5, 0).combination(c(2, 0)), Ok(c(10, 0)));
    assert_eq!(c(5, 0).permutation(c(2, 0)), Ok(c(20, 0)));
    assert_eq!(c(6, 0).combination(c(6, 0)), Ok(c(1, 0)));
    assert_eq!(c(5, 0).combination(c(7, 0)), Err(FendError::NegativeNumbersNotAllowed));
    assert_eq!(c(5, 1).permutation(c(2, 0)), Err(FendError::ExpectedARealNumber));
}

#[test]
fn magnitudes() {
    assert_eq!(c(3, 4).abs(), Ok(Exact::new(r(5), true)));
    assert_eq!(c(-3, 0).abs(), Ok(Exact::new(r(3), true)));
    assert_eq!(c(0, -7).abs(), Ok(Exact::new(r(7), true)));
    assert_eq!(Complex::new(q(3, 5), q(4, 5)).abs(), Ok(Exact::new(r(1), true)));
    // |1 + i| = √2, rounded down to a multiple of 2^-32
    let root = c(1, 1).abs().unwrap();
    assert!(!root.exact);
    assert_eq!(root.value, q(6_074_000_999, 1 << 32));
}

#[test]
fn square_roots() {
    assert_eq!(q(9, 4).sqrt(), Ok(Exact::new(q(3, 2), true)));
    assert_eq!(r(-1).sqrt(), Err(FendError::NegativeNumbersNotAllowed));
    let two = r(2).sqrt().unwrap();
    assert!(!two.exact);
    let (n, d) = two.value.parts();
    let (n, d) = (n as i128, d as i128);
    assert!(n * n <= 2 * d * d);
}

#[test]
fn comparisons() {
    assert_eq!(c(1, 1).partial_cmp(&c(1, 1)), Some(Ordering::Equal));
    assert_eq!(c(1, 1).partial_cmp(&c(2, 1)), Some(Ordering::Less));
    assert_eq!(c(2, 3).partial_cmp(&c(2, 1)), Some(Ordering::Greater));
    assert_eq!(c(1, 3).partial_cmp(&c(2, 1)), None);
    assert_eq!(c(2, 1).partial_cmp(&c(1, 3)), None);
}

#[test]
fn serialization_round_trip() {
    let z = Complex::new(q(-3, 7), q(22, 5));
    let bytes = z.serialize();
    assert_eq!(bytes.len(), 32);
    assert_eq!(Complex::deserialize(&bytes), Ok(z));
    assert_eq!(Complex::deserialize(&bytes[..31]), Err(FendError::DeserializationError));
    let mut broken = bytes.clone();
    for b in broken[8..16].iter_mut() {
        *b = 0;
    }
    assert_eq!(Complex::deserialize(&broken), Err(FendError::DeserializationError));
}

#[test]
fn trigonometric_combinations() {
    let z = c(1, 2);
    // sin(a + bi) = sin a cosh b + i cos a sinh b
    assert_eq!(z.sin(&oracle), Ok(Exact::new(c(501 * 802, 601 * 702), false)));
    // cos(a + bi) = cos a cosh b - i sin a sinh b
    assert_eq!(z.cos(&oracle), Ok(Exact::new(c(601 * 802, -501 * 702), false)));
    // e^(a + bi) = e^a (cos b + i sin b)
    assert_eq!(z.exp(&oracle), Ok(Exact::new(c(101 * 602, 101 * 502), false)));
    // sinh(a + bi) = sinh a cos b + i cosh a sin b
    assert_eq!(z.sinh(&oracle), Ok(c(701 * 602, 801 * 502)));
    // cosh(a + bi) = cosh a cos b + i sinh a sin b
    assert_eq!(z.cosh(&oracle), Ok(c(801 * 602, 701 * 502)));
    // real arguments use the real functions
    assert_eq!(c(3, 0).sin(&oracle), Ok(Exact::new(c(503, 0), false)));
    assert_eq!(c(3, 0).tanh(&oracle), Ok(c(903, 0)));
    assert_eq!(c(3, 0).exp(&oracle), Ok(Exact::new(c(103 * 600, 103 * 500), false)));
}

#[test]
fn tangents_are_quotients() {
    let z = c(1, 2);
    let expected = z.sin(&oracle).unwrap().div(z.cos(&oracle).unwrap());
    assert_eq!(z.tan(&oracle), expected);
    let n = Exact::new(z.sinh(&oracle).unwrap(), false);
    let d = Exact::new(z.cosh(&oracle).unwrap(), false);
    assert_eq!(z.tanh(&oracle), Ok(n.div(d).unwrap().value));
}

#[test]
fn logarithms() {
    // a positive real: the real logarithm
    assert_eq!(c(3, 0).ln(&oracle), Ok(Exact::new(c(203, 0), false)));
    // ln(3 + 4i) = ln 5 + i atan2(4, 3)
    assert_eq!(c(3, 4).ln(&oracle), Ok(Exact::new(c(205, 1604), false)));
    // ln(-2) = ln 2 + i atan2(0, -2)
    assert_eq!(c(-2, 0).ln(&oracle), Ok(Exact::new(c(202, 1600), false)));
    assert_eq!(c(3, 4).arg(&oracle), Ok(Exact::new(r(1604), false)));
    assert_eq!(c(8, 0).log2(&oracle), Ok(c(308, 0)));
    assert_eq!(c(8, 0).log10(&oracle), Ok(c(408, 0)));
    // log_2(-2) = ln(-2) / ln(2)
    let expected = c(-2, 0).ln(&oracle).unwrap().div(c(2, 0).ln(&oracle).unwrap()).unwrap().value;
    assert_eq!(c(-2, 0).log2(&oracle), Ok(expected));
    assert_eq!(c(3, 4).log(c(2, 0), &oracle), Ok(Exact::new(c(205, 1604), false).div(Exact::new(c(202, 0), false)).unwrap().value));
}

#[test]
fn inverse_functions() {
    assert_eq!(c(3, 0).asinh(&oracle), Ok(c(1303, 0)));
    assert_eq!(c(3, 0).acosh(&oracle), Ok(c(1403, 0)));
    assert_eq!(c(3, 0).atanh(&oracle), Ok(c(1503, 0)));
    assert_eq!(c(3, 1).asinh(&oracle), Err(FendError::ExpectedARealNumber));
    assert_eq!(c(3, 0).atan(&oracle), Ok(c(1203, 0)));
    let half = Complex::new(q(1, 2), r(0));
    assert_eq!(half.asin(&oracle), Ok(Complex::new(r(1000).add(q(1, 2)).unwrap(), r(0))));
    assert_eq!(half.acos(&oracle), Ok(Complex::new(r(1100).add(q(1, 2)).unwrap(), r(0))));
    // outside the unit interval, the complex formulas are used
    let w = c(2, 0);
    let asin = w.asin_ln(&oracle).unwrap().mul(&Exact::new(Complex::i(), true)).unwrap().neg().value;
    assert_eq!(w.asin(&oracle), Ok(asin));
    let half_pi = Exact::new(Complex::pi(&oracle).unwrap(), true).div(Exact::new(c(2, 0), true)).unwrap();
    let acos = half_pi.add(w.asin_ln(&oracle).unwrap().mul(&Exact::new(Complex::i(), true)).unwrap()).unwrap().value;
    assert_eq!(w.acos(&oracle), Ok(acos));
    assert_eq!(Complex::pi(&oracle), Ok(c(1800, 0)));
    assert_eq!(c(1, 1).atan(&no_oracle), Err(FendError::OutOfRange));
}

#[test]
fn fractional_powers() {
    let half = Complex::new(q(1, 2), r(0));
    assert_eq!(c(4, 0).frac_pow(half, &oracle), Ok(Exact::new(c(1704, 0), false)));
    let via_log = c(-4, 0).exp_of_log(half, &oracle);
    assert_eq!(c(-4, 0).frac_pow(half, &oracle), via_log);
}

fn text(z: Complex, exact: bool, style: FormattingStyle, parens: UseParentheses) -> String {
    let f = z.format(exact, style, Base::decimal(), parens).unwrap();
    f.value.to_string()
}

#[test]
fn formatting() {
    assert_eq!(text(c(3, 0), true, FormattingStyle::Auto, UseParentheses::No), "3");
    assert_eq!(text(c(-3, 4), true, FormattingStyle::Auto, UseParentheses::No), "-3 + 4i");
    assert_eq!(text(c(3, -4), true, FormattingStyle::Auto, UseParentheses::IfComplex), "(3 - 4i)");
    assert_eq!(text(c(0, 2), true, FormattingStyle::Auto, UseParentheses::IfComplex), "2i");
    let third = Complex::new(q(1, 3), r(0));
    assert_eq!(text(third, true, FormattingStyle::Exact, UseParentheses::No), "1/3");
    assert_eq!(text(third, true, FormattingStyle::Exact, UseParentheses::IfComplexOrFraction), "(1/3)");
    assert_eq!(text(third, false, FormattingStyle::Auto, UseParentheses::No), "0.3333333333");
    assert_eq!(text(third, true, FormattingStyle::DecimalPlaces(3), UseParentheses::No), "0.333");
    let mixed = Complex::new(q(-7, 2), r(0));
    assert_eq!(text(mixed, true, FormattingStyle::MixedFraction, UseParentheses::No), "-3 1/2");
    assert_eq!(text(mixed, true, FormattingStyle::ImproperFraction, UseParentheses::No), "-7/2");
    let f = third.format(true, FormattingStyle::DecimalPlaces(3), Base::decimal(), UseParentheses::No).unwrap();
    assert!(!f.exact);
    let quarter = Complex::new(q(1, 4), r(0));
    let f = quarter.format(true, FormattingStyle::DecimalPlaces(2), Base::decimal(), UseParentheses::No).unwrap();
    assert!(f.exact);
    assert_eq!(f.value.to_string(), "0.25");
    let hex = Base::new(16).unwrap();
    let f = c(255, 0).format(true, FormattingStyle::Exact, hex, UseParentheses::No).unwrap();
    assert_eq!(f.value.to_string(), "ff");
    assert_eq!(Base::new(1), Err(FendError::InvalidBase));
    assert_eq!(Base::new(37), Err(FendError::InvalidBase));
}

#[test]
fn addition_and_multiplication_commute() {
    let a = Exact::new(Complex::new(q(1, 2), r(-3)), true);
    let b = Exact::new(c(4, 5), false);
    assert_eq!(a.add(b), b.add(a));
    assert_eq!(a.mul(&b), b.mul(&a));
    assert_eq!(a.mul(&b), Ok(Exact::new(Complex::new(q(17, 1), q(-19, 2)), false)));
}

#[test]
fn powers_of_i_repeat_every_four() {
    let turns = [c(1, 0), c(0, 1), c(-1, 0), c(0, -1)];
    for y in -9i64..=12 {
        let expected = turns[y.rem_euclid(4) as usize];
        assert_eq!(Complex::i().pow(c(y, 0), &no_oracle), Ok(ex(expected)));
    }
}

#[test]
fn remainders_lie_below_the_divisor() {
    for a in -20i64..=20 {
        for b in [-7i64, -3, 1, 2, 5] {
            let m = c(a, 0).modulo(c(b, 0)).unwrap().real.parts();
            assert_eq!(m.1, 1);
            assert!(0 <= m.0 && m.0 < b.abs());
            assert_eq!((a - m.0) % b, 0);
        }
    }
}

#[test]
fn significant_figures() {
    let sf = |z: Complex, k: usize| text(z, true, FormattingStyle::SignificantFigures(k), UseParentheses::No);
    assert_eq!(sf(Complex::new(q(1, 3), r(0)), 3), "0.333");
    assert_eq!(sf(Complex::new(q(1, 300), r(0)), 2), "0.0033");
    assert_eq!(sf(Complex::new(q(617, 5), r(0)), 5), "123.40");
    assert_eq!(sf(c(12345, 0), 2), "12345");
    assert_eq!(sf(c(0, 0), 3), "0");
    assert_eq!(sf(Complex::new(q(-1, 300), q(1, 3)), 1), "-0.003 + 0.3i");
    let f = Complex::new(q(617, 5), r(0))
        .format(true, FormattingStyle::SignificantFigures(5), Base::decimal(), UseParentheses::No)
        .unwrap();
    assert!(f.exact);
}

#[test]
fn multiplication_is_associative() {
    let a = ex(Complex::new(q(1, 2), r(3)));
    let b = ex(c(-2, 5));
    let d = ex(Complex::new(r(4), q(-1, 3)));
    let left = a.mul(&b).unwrap().mul(&d).unwrap();
    let right = a.mul(&b.mul(&d).unwrap()).unwrap();
    assert_eq!(left, right);
}

#[test]
fn imaginary_unit_is_written_without_a_coefficient() {
    assert_eq!(text(Complex::i(), true, FormattingStyle::Auto, UseParentheses::IfComplex), "i");
    assert_eq!(text(c(0, -1), true, FormattingStyle::Auto, UseParentheses::No), "-i");
    assert_eq!(text(c(3, -1), true, FormattingStyle::Auto, UseParentheses::No), "3 - i");
    assert_eq!(text(c(3, 1), true, FormattingStyle::Auto, UseParentheses::IfComplex), "(3 + i)");
    assert_eq!(text(c(0, 2), true, FormattingStyle::Auto, UseParentheses::No), "2i");
    let f = Complex::i().format(true, FormattingStyle::Auto, Base::decimal(), UseParentheses::No).unwrap();
    assert!(f.exact);
}

#[test]
fn approximate_results_are_rounded_to_fit() {
    let a = Exact::new(q(1_000_000_007, 4_000_000_007), false);
    let b = Exact::new(q(3_000_000_001, 4_000_000_009), false);
    let p = a.mul(b).unwrap();
    assert!(!p.exact);
    assert_eq!(p.value.parts(), (1_500_000_011_000_000_003, 8_000_000_032_000_000_031));
    // the same product of exact numbers does not fit exactly
    let ea = Exact::new(q(1_000_000_007, 4_000_000_007), true);
    let eb = Exact::new(q(3_000_000_001, 4_000_000_009), true);
    assert_eq!(ea.mul(eb), Err(FendError::OutOfRange));
    // a value too large to be held fails even when approximate
    let big = Exact::new(r(i64::MAX), false);
    assert_eq!(big.mul(big), Err(FendError::OutOfRange));
    assert_eq!(Real::from_signed_fraction(3, -6), Ok(q(-1, 2)));
    assert_eq!(Real::from_signed_fraction(3, 0), Err(FendError::DivideByZero));
}

/// An oracle whose values are approximate with denominators near `2^32`.
fn fine_oracle(k: RealFn, x: Real) -> Result<Exact<Real>, FendError> {
    let (n, d) = x.parts();
    let scale: i128 = (1i128 << 32) + 15;
    let shift: i128 = match k {
        RealFn::Sin => 1,
        RealFn::Cos => 2,
        RealFn::Sinh => 3,
        _ => 4,
    };
    let v = Real::from_fraction_rounded((n as i128) * scale + shift * (d as i128), (d as i128) * scale)?;
    Ok(Exact::new(v, false))
}

#[test]
fn complex_functions_of_approximate_values_succeed() {
    let z = c(1, 2);
    let s = z.sin(&fine_oracle).unwrap();
    assert!(!s.exact);
    let t = z.tan(&fine_oracle).unwrap();
    assert!(!t.exact);
    assert!(z.exp(&fine_oracle).is_ok());
    assert!(z.cosh(&fine_oracle).is_ok());
    assert!(z.tanh(&fine_oracle).is_ok());
}

#[test]
fn a_first_power_needs_no_square() {
    assert_eq!(c(4_000_000_000, 0).pow_n(1), Ok(ex(c(4_000_000_000, 0))));
    assert_eq!(c(3, 4).abs(), Ok(Exact::new(r(5), true)));
}

#[test]
fn integers_within_the_representation() {
    assert_eq!(Complex::try_from_u64(7), Ok(c(7, 0)));
    assert_eq!(Complex::try_from_u64(u64::MAX), Err(FendError::OutOfRange));
}

#[test]
fn magnitudes_ignore_signs() {
    for z in [c(1, 1), c(-3, 4), c(2, -7), Complex::new(q(1, 3), q(-5, 2))] {
        assert_eq!(z.conjugate().abs(), z.abs());
        assert_eq!(z.neg().abs(), z.abs());
    }
}

#[test]
fn decoding_gives_lowest_terms() {
    let mut bytes = Vec::new();
    bytes.extend_from_slice(&2i64.to_le_bytes());
    bytes.extend_from_slice(&2i64.to_le_bytes());
    bytes.extend_from_slice(&(-6i64).to_le_bytes());
    bytes.extend_from_slice(&4i64.to_le_bytes());
    let z = Complex::deserialize(&bytes).unwrap();
    assert_eq!(z, Complex::new(r(1), q(-3, 2)));
    assert_eq!(z.partial_cmp(&Complex::new(r(1), q(-3, 2))), Some(Ordering::Equal));
    assert_eq!(z.real.parts(), (1, 1));
}

#[test]
fn multiplication_then_division_gives_back_the_factor() {
    let a = ex(Complex::new(q(2, 3), r(-5)));
    let b = ex(c(7, 4));
    let p = a.mul(&b).unwrap();
    assert_eq!(p.div(b), Ok(a));
}
