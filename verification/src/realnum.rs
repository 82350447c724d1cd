use crate::error::FendError;
use crate::rat::{
    abs, checked, fits, gcd, lemma_assoc, lemma_eqv_refl_sym, lemma_eqv_trans, lemma_gcd_divides,
    lemma_normalize, lemma_times_congr, lemma_valid_ops, limit, normalize, rat_int, Rat,
};
use vstd::arithmetic::div_mod::*;
use vstd::arithmetic::mul::lemma_mul_inequality;
use vstd::arithmetic::power2::{lemma2_to64, lemma2_to64_rest, lemma_pow2_strictly_increases, pow2};
use vstd::bits::{lemma_u64_shl_is_mul, lemma_u64_shr_is_div};
use vstd::prelude::*;

verus! {

/// An exact rational number with 64-bit parts; arithmetic gives its results in lowest terms.
#[derive(Clone, Copy, Debug, PartialEq, Eq, Hash, Structural)]
pub struct Real {
    num: i64,
    den: i64,
}

impl View for Real {
    type V = Rat;

    closed spec fn view(&self) -> Rat {
        Rat { n: self.num as int, d: self.den as int }
    }
}

/// The outcome of an operation on reals, with the value seen as a rational.
pub open spec fn rres(r: Result<Real, FendError>) -> Result<Rat, FendError> {
    match r {
        Ok(x) => Ok(x@),
        Err(e) => Err(e),
    }
}

/// The checked value `q`, or `OutOfRange` when the exact result does not fit.
pub open spec fn lift_rat(q: Option<Rat>) -> Result<Rat, FendError> {
    match q {
        Some(v) => Ok(v),
        None => Err(FendError::OutOfRange),
    }
}

pub open spec fn add_spec(a: Rat, b: Rat) -> Result<Rat, FendError> {
    lift_rat(checked(a.plus(b)))
}

pub open spec fn sub_spec(a: Rat, b: Rat) -> Result<Rat, FendError> {
    lift_rat(checked(a.minus(b)))
}

pub open spec fn mul_spec(a: Rat, b: Rat) -> Result<Rat, FendError> {
    lift_rat(checked(a.times(b)))
}

/// Quotient: `DivideByZero` exactly when the divisor is zero.
pub open spec fn div_spec(a: Rat, b: Rat) -> Result<Rat, FendError> {
    if b.is_zero() {
        Err(FendError::DivideByZero)
    } else {
        lift_rat(checked(a.over(b)))
    }
}

/// Both parts halved, rounding down, until each is within the fixed-width bounds.
pub open spec fn shrink(m: nat, d: nat) -> (nat, nat)
    decreases m + d,
{
    if m <= limit() && d <= limit() {
        (m, d)
    } else {
        shrink(m / 2, d / 2)
    }
}

/// `q` reduced when that fits the fixed-width representation; otherwise an approximation
/// of it: its numerator and denominator halved together until both fit, then reduced.
/// `None` when the denominator vanishes first, that is, when `q` is too large to be held.
pub open spec fn rounded(q: Rat) -> Option<Rat> {
    match checked(q) {
        Some(v) => Some(v),
        None => {
            let s = shrink(abs(q.n), q.d as nat);
            if s.1 == 0 {
                None
            } else {
                checked(
                    Rat {
                        n: if q.n < 0 {
                            -(s.0 as int)
                        } else {
                            s.0 as int
                        },
                        d: s.1 as int,
                    },
                )
            }
        },
    }
}

/// A rounded value is a valid rational that fits, and denotes `q` when `q` itself fits.
pub proof fn lemma_rounded(q: Rat)
    requires
        q.valid(),
    ensures
        rounded(q) matches Some(v) ==> v.valid() && fits(v),
        checked(q) matches Some(v) ==> rounded(q) == Some(v) && v.eqv(q),
{
    lemma_normalize(q);
    if checked(q) is None {
        let s = shrink(abs(q.n), q.d as nat);
        lemma_shrink(abs(q.n), q.d as nat);
        if s.1 != 0 {
            let t = Rat {
                n: if q.n < 0 {
                    -(s.0 as int)
                } else {
                    s.0 as int
                },
                d: s.1 as int,
            };
            lemma_normalize(t);
        }
    }
}

/// Shrinking ends with both parts within the bounds.
pub proof fn lemma_shrink(m: nat, d: nat)
    ensures
        shrink(m, d).0 <= limit(),
        shrink(m, d).1 <= limit(),
        shrink(m, d).0 <= m,
        shrink(m, d).1 <= d,
    decreases m + d,
{
    if !(m <= limit() && d <= limit()) {
        lemma_shrink(m / 2, d / 2);
    }
}

/// Factorial of a rational: it must be a non-negative integer, and the result must fit.
pub open spec fn factorial_spec(q: Rat) -> Result<Rat, FendError> {
    if !q.is_integer() {
        Err(FendError::ExpectedAnInteger)
    } else if q.int_value() < 0 {
        Err(FendError::NegativeNumbersNotAllowed)
    } else if factorial(q.int_value() as nat) > limit() {
        Err(FendError::OutOfRange)
    } else {
        Ok(rat_int(factorial(q.int_value() as nat) as int))
    }
}

/// Products of two stored parts stay far inside the range of `i128`.
proof fn lemma_product_bound(x: int, y: int)
    requires
        -limit() <= x <= limit(),
        -limit() <= y <= limit(),
    ensures
        -limit() * limit() <= x * y <= limit() * limit(),
        limit() * limit() < 0x4000_0000_0000_0000_0000_0000_0000_0000,
        x > 0 && y > 0 ==> x * y > 0,
        x > 0 && y < 0 ==> x * y < 0,
        x * (-y) == -(x * y),
{
    assert(x > 0 && y > 0 ==> x * y > 0) by (nonlinear_arith);
    assert(x > 0 && y < 0 ==> x * y < 0) by (nonlinear_arith);
    assert(x * (-y) == -(x * y)) by (nonlinear_arith);
    assert(-limit() * limit() <= x * y <= limit() * limit()) by (nonlinear_arith)
        requires
            -limit() <= x <= limit(),
            -limit() <= y <= limit(),
    ;
}

/// `n!`.
pub open spec fn factorial(n: nat) -> nat
    decreases n,
{
    if n == 0 {
        1
    } else {
        n * factorial((n - 1) as nat)
    }
}

/// Factorials are positive and grow with their argument.
pub proof fn lemma_factorial_mono(a: nat, b: nat)
    requires
        a <= b,
    ensures
        1 <= factorial(a) <= factorial(b),
    decreases b,
{
    if a < b {
        lemma_factorial_mono(a, (b - 1) as nat);
        lemma_mul_inequality(1, b as int, factorial((b - 1) as nat) as int);
    } else if b > 0 {
        lemma_factorial_mono((b - 1) as nat, (b - 1) as nat);
        lemma_mul_inequality(1, b as int, factorial((b - 1) as nat) as int);
    }
}

/// For a positive denominator, a numerator is a multiple of it exactly when its magnitude is,
/// and the quotients differ only in sign.
proof fn lemma_integer_parts(n: int, d: int)
    requires
        d > 0,
    ensures
        (n % d == 0) <==> (abs(n) as int % d == 0),
        n % d == 0 ==> n == d * (n / d),
        n % d == 0 ==> (abs(n) as int) / d == abs(n / d),
{
    lemma_fundamental_div_mod(n, d);
    let a = abs(n) as int;
    lemma_fundamental_div_mod(a, d);
    if n % d == 0 {
        let k = n / d;
        if n < 0 {
            assert(a == d * (-k)) by (nonlinear_arith)
                requires
                    n == d * k + 0,
                    a == -n,
            ;
            lemma_div_multiples_vanish(-k, d);
            vstd::arithmetic::mul::lemma_mul_is_commutative(-k, d);
            lemma_mod_multiples_basic(-k, d);
            assert(k < 0) by (nonlinear_arith)
                requires
                    n == d * k,
                    n < 0,
                    d > 0,
            ;
        } else {
            assert(k >= 0) by (nonlinear_arith)
                requires
                    n == d * k + 0,
                    n >= 0,
                    d > 0,
            ;
        }
    }
    if a % d == 0 {
        let k = a / d;
        if n < 0 {
            assert(n == (-k) * d) by (nonlinear_arith)
                requires
                    a == d * k + 0,
                    a == -n,
            ;
            lemma_mod_multiples_basic(-k, d);
        }
    }
}

/// A rational as a `usize`: it must be a non-negative integer that fits.
pub open spec fn usize_spec(q: Rat) -> Result<usize, FendError> {
    if !q.is_integer() {
        Err(FendError::ExpectedAnInteger)
    } else if q.int_value() < 0 {
        Err(FendError::NegativeNumbersNotAllowed)
    } else if q.int_value() > usize::MAX {
        Err(FendError::TooLargeForUsize)
    } else {
        Ok(q.int_value() as usize)
    }
}

/// Euclidean remainder of two integers: `a % |b|`, in `0 .. |b|`, for `b != 0`.
pub open spec fn modulo_spec(a: Rat, b: Rat) -> Result<Rat, FendError> {
    if !a.is_integer() || !b.is_integer() {
        Err(FendError::ExpectedAnInteger)
    } else if b.int_value() == 0 {
        Err(FendError::DivideByZero)
    } else {
        Ok(rat_int(a.int_value() % (abs(b.int_value()) as int)))
    }
}

/// The bitwise operators on non-negative integers.
#[derive(Clone, Copy, Debug, PartialEq, Eq, Structural)]
pub enum BitwiseBop {
    And,
    Or,
    Xor,
    LeftShift,
    RightShift,
}

/// A bitwise operation on two non-negative integers below `2^63`.
pub open spec fn bitwise_int_spec(a: u64, b: u64, op: BitwiseBop) -> Result<Rat, FendError> {
    match op {
        BitwiseBop::And => Ok(rat_int((a & b) as int)),
        BitwiseBop::Or => Ok(rat_int((a | b) as int)),
        BitwiseBop::Xor => Ok(rat_int((a ^ b) as int)),
        BitwiseBop::LeftShift => if a * pow2(b as nat) <= limit() {
            Ok(rat_int(a * pow2(b as nat)))
        } else {
            Err(FendError::OutOfRange)
        },
        BitwiseBop::RightShift => Ok(rat_int(a as int / pow2(b as nat) as int)),
    }
}

/// A bitwise operation on two rationals: both must be non-negative integers.
pub open spec fn bitwise_spec(a: Rat, b: Rat, op: BitwiseBop) -> Result<Rat, FendError> {
    if !a.is_integer() || !b.is_integer() {
        Err(FendError::ExpectedAnInteger)
    } else if a.int_value() < 0 || b.int_value() < 0 {
        Err(FendError::NegativeNumbersNotAllowed)
    } else {
        bitwise_int_spec(a.int_value() as u64, b.int_value() as u64, op)
    }
}

/// `n! / (n - r)!`, each factor computed in turn.
pub open spec fn permutation_spec(n: Rat, r: Rat) -> Result<Rat, FendError> {
    match factorial_spec(n) {
        Err(e) => Err(e),
        Ok(nf) => match sub_spec(n, r) {
            Err(e) => Err(e),
            Ok(m) => match factorial_spec(m) {
                Err(e) => Err(e),
                Ok(mf) => div_spec(nf, mf),
            },
        },
    }
}

/// `n! / (r! (n - r)!)`, each factor computed in turn.
pub open spec fn combination_spec(n: Rat, r: Rat) -> Result<Rat, FendError> {
    match factorial_spec(n) {
        Err(e) => Err(e),
        Ok(nf) => match factorial_spec(r) {
            Err(e) => Err(e),
            Ok(rf) => match sub_spec(n, r) {
                Err(e) => Err(e),
                Ok(m) => match factorial_spec(m) {
                    Err(e) => Err(e),
                    Ok(mf) => match mul_spec(rf, mf) {
                        Err(e) => Err(e),
                        Ok(den) => div_spec(nf, den),
                    },
                },
            },
        },
    }
}

/// `q` raised to the natural power `k`.
pub open spec fn rpow(q: Rat, k: nat) -> Rat
    decreases k,
{
    if k == 0 {
        rat_int(1)
    } else {
        q.times(rpow(q, (k - 1) as nat))
    }
}

/// The steps of raising to a power by repeated squaring: the result takes a factor of the
/// base when the remaining exponent is odd, and the base is squared while exponent remains.
pub open spec fn rpow_loop(result: Rat, base: Rat, exp: nat) -> Result<Rat, FendError>
    decreases exp,
{
    if exp == 0 {
        Ok(result)
    } else {
        let r1 = if exp % 2 == 1 {
            mul_spec(result, base)
        } else {
            Ok(result)
        };
        match r1 {
            Err(e) => Err(e),
            Ok(r) => if exp / 2 == 0 {
                Ok(r)
            } else {
                match mul_spec(base, base) {
                    Err(e) => Err(e),
                    Ok(b) => rpow_loop(r, b, exp / 2),
                }
            },
        }
    }
}

/// A rational raised to an integer power; negative powers are reciprocals of positive ones.
pub open spec fn pow_spec(q: Rat, e: Rat) -> Result<Rat, FendError> {
    if !e.is_integer() {
        Err(FendError::ExpectedAnInteger)
    } else {
        let k = abs(e.int_value());
        match rpow_loop(rat_int(1), q, k) {
            Err(err) => Err(err),
            Ok(p) => if e.int_value() < 0 {
                div_spec(rat_int(1), p)
            } else {
                Ok(p)
            },
        }
    }
}

pub proof fn lemma_rpow_valid(q: Rat, k: nat)
    requires
        q.valid(),
    ensures
        rpow(q, k).valid(),
    decreases k,
{
    if k > 0 {
        lemma_rpow_valid(q, (k - 1) as nat);
        lemma_valid_ops(q, rpow(q, (k - 1) as nat));
    }
}

proof fn lemma_rpow_congr(a: Rat, b: Rat, k: nat)
    requires
        a.eqv(b),
    ensures
        rpow(a, k).eqv(rpow(b, k)),
    decreases k,
{
    if k > 0 {
        lemma_rpow_congr(a, b, (k - 1) as nat);
        lemma_times_congr(a, rpow(a, (k - 1) as nat), b, rpow(b, (k - 1) as nat));
    }
}

proof fn lemma_rpow_square(b: Rat, k: nat)
    requires
        b.valid(),
    ensures
        rpow(b.times(b), k).eqv(rpow(b, 2 * k)),
    decreases k,
{
    if k > 0 {
        let k1 = (k - 1) as nat;
        let bb = b.times(b);
        lemma_valid_ops(b, b);
        lemma_rpow_square(b, k1);
        lemma_rpow_valid(b, 2 * k1);
        lemma_rpow_valid(b, 2 * k1 + 1);
        lemma_eqv_refl_sym(bb, bb);
        lemma_times_congr(bb, rpow(bb, k1), bb, rpow(b, 2 * k1));
        lemma_assoc(b, b, rpow(b, 2 * k1));
        assert(rpow(b, 2 * k) == b.times(rpow(b, 2 * k1 + 1)));
        lemma_valid_ops(bb, rpow(b, 2 * k1));
        lemma_eqv_trans(rpow(bb, k), bb.times(rpow(b, 2 * k1)), rpow(b, 2 * k));
    }
}

/// Multiplying by one keeps the number.
proof fn lemma_times_one(q: Rat)
    ensures
        q.times(rat_int(1)).eqv(q),
{
    assert((q.n * 1) * q.d == q.n * (q.d * 1)) by (nonlinear_arith);
}

/// Repeated squaring computes the power: when it succeeds from `result` and `base`, the
/// outcome denotes `result · base^exp`.
proof fn lemma_rpow_loop(result: Rat, base: Rat, exp: nat)
    requires
        result.valid(),
        base.valid(),
    ensures
        rpow_loop(result, base, exp) matches Ok(v) ==> v.eqv(result.times(rpow(base, exp)))
            && v.valid(),
    decreases exp,
{
    lemma_rpow_valid(base, exp);
    lemma_valid_ops(result, rpow(base, exp));
    if exp == 0 {
        lemma_times_one(result);
        lemma_eqv_refl_sym(result.times(rat_int(1)), result);
    } else {
        let h = exp / 2;
        lemma_valid_ops(result, base);
        lemma_valid_ops(base, base);
        crate::exact::lemma_checked(result.times(base));
        crate::exact::lemma_checked(base.times(base));
        let r1 = if exp % 2 == 1 {
            mul_spec(result, base)
        } else {
            Ok(result)
        };
        if let Ok(r) = r1 {
            // r denotes result · base^(exp % 2)
            lemma_rpow_valid(base, 2 * h);
            lemma_valid_ops(result, rpow(base, 2 * h));
            lemma_valid_ops(result.times(base), rpow(base, 2 * h));
            let target = result.times(rpow(base, exp));
            let mid = r.times(rpow(base, 2 * h));
            if exp % 2 == 1 {
                assert(exp == 2 * h + 1);
                lemma_eqv_refl_sym(rpow(base, 2 * h), rpow(base, 2 * h));
                lemma_times_congr(r, rpow(base, 2 * h), result.times(base), rpow(base, 2 * h));
                lemma_assoc(result, base, rpow(base, 2 * h));
                lemma_valid_ops(r, rpow(base, 2 * h));
                lemma_eqv_trans(mid, result.times(base).times(rpow(base, 2 * h)), target);
            } else {
                assert(exp == 2 * h);
                lemma_eqv_refl_sym(mid, target);
            }
            lemma_valid_ops(r, rpow(base, 2 * h));
            if h == 0 {
                assert(exp == 1);
                lemma_times_one(r);
                lemma_eqv_refl_sym(rpow(base, 0), rat_int(1));
                assert(mid == r.times(rat_int(1)));
                lemma_eqv_refl_sym(r.times(rat_int(1)), r);
                lemma_eqv_trans(r, mid, target);
            } else if let Ok(b) = mul_spec(base, base) {
                lemma_rpow_loop(r, b, h);
                lemma_rpow_congr(b, base.times(base), h);
                lemma_rpow_square(base, h);
                lemma_rpow_valid(base.times(base), h);
                lemma_rpow_valid(b, h);
                lemma_eqv_trans(rpow(b, h), rpow(base.times(base), h), rpow(base, 2 * h));
                lemma_eqv_refl_sym(r, r);
                lemma_times_congr(r, rpow(b, h), r, rpow(base, 2 * h));
                if let Ok(v) = rpow_loop(r, b, h) {
                    lemma_valid_ops(r, rpow(b, h));
                    lemma_eqv_trans(v, r.times(rpow(b, h)), mid);
                    lemma_eqv_trans(v, mid, target);
                }
            }
        }
    }
}

/// Greatest common divisor of two unsigned integers, by Euclid's algorithm.
fn gcd_u128(a: u128, b: u128) -> (g: u128)
    ensures
        g == gcd(a as nat, b as nat),
{
    let mut x = a;
    let mut y = b;
    while y != 0
        invariant
            gcd(x as nat, y as nat) == gcd(a as nat, b as nat),
        decreases y,
    {
        let t = x % y;
        x = y;
        y = t;
    }
    x
}

/// The `Real` that holds the parts of `q` as they are.
pub closed spec fn real_of(q: Rat) -> Real {
    Real { num: q.n as i64, den: q.d as i64 }
}

/// A `Real` is determined by the rational it holds.
pub proof fn lemma_real_of(x: Real)
    requires
        x.inv(),
    ensures
        real_of(x@) == x,
{
}

impl Real {
    /// Every stored value is within the fixed-width bounds, with a positive denominator.
    #[verifier::type_invariant]
    pub open spec fn inv(self) -> bool {
        fits(self@)
    }

    /// The rational `n / d` in reduced form, or `OutOfRange` when the reduced form
    /// does not fit in 64-bit parts.
    pub fn from_fraction(n: i128, d: i128) -> (r: Result<Real, FendError>)
        requires
            d > 0,
            n > i128::MIN,
        ensures
            rres(r) == lift_rat(checked(Rat { n: n as int, d: d as int })),
    {
        let an: u128 = if n < 0 {
            (-n) as u128
        } else {
            n as u128
        };
        let du = d as u128;
        let g = gcd_u128(an, du);
        proof {
            lemma_gcd_divides(an as nat, du as nat);
        }
        let qn = an / g;
        let qd = du / g;
        let ghost q = Rat { n: n as int, d: d as int };
        proof {
            assert(an as int == abs(n as int));
            lemma_fundamental_div_mod(an as int, g as int);
            assert(an as int == g as int * (qn as int));
            if n < 0 {
                assert(n as int == g as int * (-(qn as int))) by (nonlinear_arith)
                    requires
                        an as int == g as int * (qn as int),
                        n as int == -(an as int),
                ;
                lemma_div_multiples_vanish(-(qn as int), g as int);
            }
            assert(normalize(q).d == qd as int);
            assert(normalize(q).n == if n < 0 {
                -(qn as int)
            } else {
                qn as int
            });
        }
        if qn <= 0x7fff_ffff_ffff_ffffu128 && qd <= 0x7fff_ffff_ffff_ffffu128 {
            proof {
                lemma_normalize(q);
            }
            let m = qn as i64;
            let num: i64 = if n < 0 {
                -m
            } else {
                m
            };
            Ok(Real { num, den: qd as i64 })
        } else {
            Err(FendError::OutOfRange)
        }
    }

    pub fn zero() -> (r: Real)
        ensures
            r@ == rat_int(0),
    {
        Real { num: 0, den: 1 }
    }

    pub fn one() -> (r: Real)
        ensures
            r@ == rat_int(1),
    {
        Real { num: 1, den: 1 }
    }

    /// The integer `i`; every `i64` but the most negative one is representable.
    pub fn from_i64(i: i64) -> (r: Real)
        requires
            i > i64::MIN,
        ensures
            r@ == rat_int(i as int),
    {
        Real { num: i, den: 1 }
    }

    /// The integer `i`, within the 63-bit magnitude of the representation.
    pub fn from_u64(i: u64) -> (r: Real)
        requires
            i <= 0x7fff_ffff_ffff_ffff,
        ensures
            r@ == rat_int(i as int),
    {
        Real { num: i as i64, den: 1 }
    }

    pub fn neg(self) -> (r: Real)
        ensures
            r@ == self@.negated(),
    {
        proof {
            use_type_invariant(&self);
        }
        Real { num: -self.num, den: self.den }
    }

    pub fn add(self, o: Real) -> (r: Result<Real, FendError>)
        ensures
            rres(r) == add_spec(self@, o@),
    {
        proof {
            use_type_invariant(&self);
            use_type_invariant(&o);
            lemma_product_bound(self.num as int, o.den as int);
            lemma_product_bound(o.num as int, self.den as int);
            lemma_product_bound(self.den as int, o.den as int);
        }
        let n = (self.num as i128) * (o.den as i128) + (o.num as i128) * (self.den as i128);
        let d = (self.den as i128) * (o.den as i128);
        Real::from_fraction(n, d)
    }

    pub fn sub(self, o: Real) -> (r: Result<Real, FendError>)
        ensures
            rres(r) == sub_spec(self@, o@),
    {
        self.add(o.neg())
    }

    pub fn mul(self, o: Real) -> (r: Result<Real, FendError>)
        ensures
            rres(r) == mul_spec(self@, o@),
    {
        proof {
            use_type_invariant(&self);
            use_type_invariant(&o);
            lemma_product_bound(self.num as int, o.num as int);
            lemma_product_bound(self.den as int, o.den as int);
        }
        let n = (self.num as i128) * (o.num as i128);
        let d = (self.den as i128) * (o.den as i128);
        Real::from_fraction(n, d)
    }

    /// Division; `DivideByZero` exactly when the divisor is zero.
    pub fn div(self, o: Real) -> (r: Result<Real, FendError>)
        ensures
            rres(r) == div_spec(self@, o@),
    {
        proof {
            use_type_invariant(&self);
            use_type_invariant(&o);
            lemma_product_bound(self.num as int, o.den as int);
            lemma_product_bound(self.den as int, o.num as int);
        }
        if o.num == 0 {
            return Err(FendError::DivideByZero);
        }
        proof {
            lemma_product_bound(self.num as int, -(o.den as int));
            lemma_product_bound(self.den as int, -(o.num as int));
        }
        let n = (self.num as i128) * (o.den as i128);
        let d = (self.den as i128) * (o.num as i128);
        if d < 0 {
            Real::from_fraction(-n, -d)
        } else {
            Real::from_fraction(n, d)
        }
    }

    /// The rational `n / d` for a denominator of either sign, in lowest terms with a positive
    /// denominator: `DivideByZero` for a zero denominator, and `OutOfRange` when a part is the
    /// most negative `i128` or the reduced form does not fit.
    pub fn from_signed_fraction(n: i128, d: i128) -> (r: Result<Real, FendError>)
        ensures
            d == 0 ==> r == Err::<Real, FendError>(FendError::DivideByZero),
            d != 0 && (n == i128::MIN || d == i128::MIN) ==> r == Err::<Real, FendError>(
                FendError::OutOfRange,
            ),
            d > 0 && n != i128::MIN ==> rres(r) == lift_rat(checked(Rat { n: n as int, d: d as int })),
            d < 0 && n != i128::MIN && d != i128::MIN ==> rres(r) == lift_rat(
                checked(Rat { n: -(n as int), d: -(d as int) }),
            ),
    {
        if d == 0 {
            return Err(FendError::DivideByZero);
        }
        if n == i128::MIN || d == i128::MIN {
            return Err(FendError::OutOfRange);
        }
        if d < 0 {
            Real::from_fraction(-n, -d)
        } else {
            Real::from_fraction(n, d)
        }
    }

    /// The rational `n / d` reduced, or rounded as `rounded` says when that does not fit.
    pub fn from_fraction_rounded(n: i128, d: i128) -> (r: Result<Real, FendError>)
        requires
            d > 0,
            n > i128::MIN,
        ensures
            rres(r) == lift_rat(rounded(Rat { n: n as int, d: d as int })),
    {
        let ghost q = Rat { n: n as int, d: d as int };
        match Real::from_fraction(n, d) {
            Ok(v) => {
                return Ok(v);
            },
            Err(_) => {},
        }
        let mut m: u128 = if n < 0 {
            (-n) as u128
        } else {
            n as u128
        };
        let mut e: u128 = d as u128;
        proof {
            assert(m as int == abs(q.n));
        }
        while m > 0x7fff_ffff_ffff_ffffu128 || e > 0x7fff_ffff_ffff_ffffu128
            invariant
                shrink(m as nat, e as nat) == shrink(abs(q.n), q.d as nat),
            decreases m + e,
        {
            m = m / 2;
            e = e / 2;
        }
        if e == 0 {
            return Err(FendError::OutOfRange);
        }
        let sn: i128 = if n < 0 {
            -(m as i128)
        } else {
            m as i128
        };
        Real::from_fraction(sn, e as i128)
    }

    /// The sum, rounded as `rounded` says when it does not fit.
    pub fn add_rounded(self, o: Real) -> (r: Result<Real, FendError>)
        ensures
            rres(r) == lift_rat(rounded(self@.plus(o@))),
    {
        proof {
            use_type_invariant(&self);
            use_type_invariant(&o);
            lemma_product_bound(self.num as int, o.den as int);
            lemma_product_bound(o.num as int, self.den as int);
            lemma_product_bound(self.den as int, o.den as int);
        }
        let n = (self.num as i128) * (o.den as i128) + (o.num as i128) * (self.den as i128);
        let d = (self.den as i128) * (o.den as i128);
        Real::from_fraction_rounded(n, d)
    }

    /// The product, rounded as `rounded` says when it does not fit.
    pub fn mul_rounded(self, o: Real) -> (r: Result<Real, FendError>)
        ensures
            rres(r) == lift_rat(rounded(self@.times(o@))),
    {
        proof {
            use_type_invariant(&self);
            use_type_invariant(&o);
            lemma_product_bound(self.num as int, o.num as int);
            lemma_product_bound(self.den as int, o.den as int);
        }
        let n = (self.num as i128) * (o.num as i128);
        let d = (self.den as i128) * (o.den as i128);
        Real::from_fraction_rounded(n, d)
    }

    /// The quotient, rounded as `rounded` says when it does not fit; `DivideByZero` exactly
    /// when the divisor is zero.
    pub fn div_rounded(self, o: Real) -> (r: Result<Real, FendError>)
        ensures
            o@.is_zero() ==> r == Err::<Real, FendError>(FendError::DivideByZero),
            !o@.is_zero() ==> rres(r) == lift_rat(rounded(self@.over(o@))),
    {
        proof {
            use_type_invariant(&self);
            use_type_invariant(&o);
            lemma_product_bound(self.num as int, o.den as int);
            lemma_product_bound(self.den as int, o.num as int);
        }
        if o.num == 0 {
            return Err(FendError::DivideByZero);
        }
        proof {
            lemma_product_bound(self.num as int, -(o.den as int));
            lemma_product_bound(self.den as int, -(o.num as int));
        }
        let n = (self.num as i128) * (o.den as i128);
        let d = (self.den as i128) * (o.num as i128);
        if d < 0 {
            Real::from_fraction_rounded(-n, -d)
        } else {
            Real::from_fraction_rounded(n, d)
        }
    }

    pub fn is_zero(&self) -> (b: bool)
        ensures
            b == self@.is_zero(),
    {
        self.num == 0
    }

    /// Both denote the same rational number.
    pub fn eq_value(&self, o: &Real) -> (b: bool)
        ensures
            b == self@.eqv(o@),
    {
        proof {
            use_type_invariant(self);
            use_type_invariant(o);
            lemma_product_bound(self.num as int, o.den as int);
            lemma_product_bound(o.num as int, self.den as int);
        }
        (self.num as i128) * (o.den as i128) == (o.num as i128) * (self.den as i128)
    }

    pub fn lt(&self, o: &Real) -> (b: bool)
        ensures
            b == self@.lt(o@),
    {
        proof {
            use_type_invariant(self);
            use_type_invariant(o);
            lemma_product_bound(self.num as int, o.den as int);
            lemma_product_bound(o.num as int, self.den as int);
        }
        (self.num as i128) * (o.den as i128) < (o.num as i128) * (self.den as i128)
    }

    pub fn le(&self, o: &Real) -> (b: bool)
        ensures
            b == self@.le(o@),
    {
        proof {
            use_type_invariant(self);
            use_type_invariant(o);
            lemma_product_bound(self.num as int, o.den as int);
            lemma_product_bound(o.num as int, self.den as int);
        }
        (self.num as i128) * (o.den as i128) <= (o.num as i128) * (self.den as i128)
    }

    /// The value is one.
    pub fn is_definitely_one(&self) -> (b: bool)
        ensures
            b == self@.eqv(rat_int(1)),
    {
        self.num == self.den
    }

    /// The magnitude of the numerator.
    fn magnitude(&self) -> (r: u64)
        ensures
            r as int == abs(self@.n),
            r <= limit(),
    {
        proof {
            use_type_invariant(self);
        }
        if self.num < 0 {
            (-self.num) as u64
        } else {
            self.num as u64
        }
    }

    pub fn is_integer(&self) -> (b: bool)
        ensures
            b == self@.is_integer(),
    {
        proof {
            use_type_invariant(self);
            lemma_integer_parts(self@.n, self@.d);
        }
        self.magnitude() % (self.den as u64) == 0
    }

    /// The integer denoted, for an integral value.
    pub fn int_value(&self) -> (r: i64)
        requires
            self@.is_integer(),
        ensures
            r as int == self@.int_value(),
            -limit() <= r <= limit(),
    {
        proof {
            use_type_invariant(self);
            lemma_integer_parts(self@.n, self@.d);
            lemma_div_basics_5(abs(self@.n) as int, self@.d);
            lemma_div_pos_is_pos(abs(self@.n) as int, self@.d);
        }
        let m = self.magnitude() / (self.den as u64);
        if self.num < 0 {
            -(m as i64)
        } else {
            m as i64
        }
    }

    /// The value as a `usize`: it must be a non-negative integer that fits.
    pub fn try_as_usize(&self) -> (r: Result<usize, FendError>)
        ensures
            r == usize_spec(self@),
    {
        if !self.is_integer() {
            return Err(FendError::ExpectedAnInteger);
        }
        let v = self.int_value();
        if v < 0 {
            return Err(FendError::NegativeNumbersNotAllowed);
        }
        if (v as u64) > (usize::MAX as u64) {
            return Err(FendError::TooLargeForUsize);
        }
        Ok(v as usize)
    }

    /// The factorial of a non-negative integer.
    pub fn factorial(self) -> (r: Result<Real, FendError>)
        ensures
            rres(r) == factorial_spec(self@),
    {
        if !self.is_integer() {
            return Err(FendError::ExpectedAnInteger);
        }
        let v = self.int_value();
        if v < 0 {
            return Err(FendError::NegativeNumbersNotAllowed);
        }
        let k = v as u64;
        let mut acc: u64 = 1;
        let mut i: u64 = 0;
        while i < k
            invariant
                i <= k,
                self@.is_integer(),
                k == self@.int_value(),
                k <= limit(),
                acc as int == factorial(i as nat),
                acc <= limit(),
            decreases k - i,
        {
            i = i + 1;
            assert(factorial(i as nat) == i * factorial((i - 1) as nat));
            if acc > 0x7fff_ffff_ffff_ffffu64 / i {
                proof {
                    lemma_factorial_mono(i as nat, k as nat);
                    assert(i * acc > limit()) by (nonlinear_arith)
                        requires
                            acc > limit() / (i as int),
                            i > 0,
                    ;
                    assert(factorial(i as nat) > limit());
                }
                return Err(FendError::OutOfRange);
            }
            proof {
                assert(acc * i <= limit() && acc * i == i * acc) by (nonlinear_arith)
                    requires
                        acc <= limit() / (i as int),
                        i > 0,
                ;
            }
            acc = acc * i;
        }
        proof {
            lemma_factorial_mono(k as nat, k as nat);
        }
        Ok(Real { num: acc as i64, den: 1 })
    }

    /// Euclidean remainder of two integers.
    pub fn modulo(self, rhs: Real) -> (r: Result<Real, FendError>)
        ensures
            rres(r) == modulo_spec(self@, rhs@),
    {
        if !self.is_integer() || !rhs.is_integer() {
            return Err(FendError::ExpectedAnInteger);
        }
        let a = self.int_value();
        let b = rhs.int_value();
        if b == 0 {
            return Err(FendError::DivideByZero);
        }
        let m: u64 = if b < 0 {
            (-b) as u64
        } else {
            b as u64
        };
        let res: u64 = if a >= 0 {
            (a as u64) % m
        } else {
            let t = ((-a) as u64) % m;
            proof {
                let q = ((-a) as u64 / m) as int;
                lemma_fundamental_div_mod((-a) as int, m as int);
                if t == 0 {
                    assert(a as int == (-q) * m as int + 0) by (nonlinear_arith)
                        requires
                            -(a as int) == m as int * q + t as int,
                            t == 0,
                    ;
                    lemma_fundamental_div_mod_converse(a as int, m as int, -q, 0);
                } else {
                    assert(a as int == (-q - 1) * m as int + (m - t) as int) by (nonlinear_arith)
                        requires
                            -(a as int) == m as int * q + t as int,
                    ;
                    lemma_fundamental_div_mod_converse(a as int, m as int, -q - 1, (m - t) as int);
                }
            }
            if t == 0 {
                0
            } else {
                m - t
            }
        };
        proof {
            if a >= 0 {
                lemma_mod_pos_bound(a as int, m as int);
            }
            assert(abs(b as int) == m);
        }
        Ok(Real { num: res as i64, den: 1 })
    }

    /// A bitwise operation on two non-negative integers.
    pub fn bitwise(self, rhs: Real, op: BitwiseBop) -> (r: Result<Real, FendError>)
        ensures
            rres(r) == bitwise_spec(self@, rhs@, op),
    {
        if !self.is_integer() || !rhs.is_integer() {
            return Err(FendError::ExpectedAnInteger);
        }
        let a = self.int_value();
        let b = rhs.int_value();
        if a < 0 || b < 0 {
            return Err(FendError::NegativeNumbersNotAllowed);
        }
        let x = a as u64;
        let y = b as u64;
        let v: u64 = match op {
            BitwiseBop::And => {
                assert(x & y <= x) by (bit_vector);
                x & y
            },
            BitwiseBop::Or => {
                assert(x < 0x8000_0000_0000_0000u64 && y < 0x8000_0000_0000_0000u64 ==> x | y
                    < 0x8000_0000_0000_0000u64) by (bit_vector);
                x | y
            },
            BitwiseBop::Xor => {
                assert(x < 0x8000_0000_0000_0000u64 && y < 0x8000_0000_0000_0000u64 ==> x ^ y
                    < 0x8000_0000_0000_0000u64) by (bit_vector);
                x ^ y
            },
            BitwiseBop::LeftShift => {
                if y >= 63 {
                    if x == 0 {
                        proof {
                            assert(x * pow2(y as nat) == 0) by (nonlinear_arith)
                                requires
                                    x == 0,
                            ;
                        }
                        0
                    } else {
                        proof {
                            lemma2_to64_rest();
                            if y > 63 {
                                lemma_pow2_strictly_increases(63, y as nat);
                            }
                            assert(x * pow2(y as nat) >= pow2(y as nat)) by (nonlinear_arith)
                                requires
                                    x >= 1,
                            ;
                        }
                        return Err(FendError::OutOfRange);
                    }
                } else {
                    let cap = 0x7fff_ffff_ffff_ffffu64 >> y;
                    proof {
                        lemma_u64_shr_is_div(0x7fff_ffff_ffff_ffffu64, y);
                        lemma2_to64();
                        vstd::arithmetic::power2::lemma_pow2_pos(y as nat);
                    }
                    if x > cap {
                        proof {
                            assert(x * pow2(y as nat) > limit()) by (nonlinear_arith)
                                requires
                                    x > limit() / (pow2(y as nat) as int),
                                    pow2(y as nat) > 0,
                            ;
                        }
                        return Err(FendError::OutOfRange);
                    }
                    proof {
                        assert(x * pow2(y as nat) <= limit()) by (nonlinear_arith)
                            requires
                                x <= limit() / (pow2(y as nat) as int),
                                pow2(y as nat) > 0,
                        ;
                        lemma_u64_shl_is_mul(x, y);
                    }
                    x << y
                }
            },
            BitwiseBop::RightShift => {
                if y >= 64 {
                    proof {
                        lemma2_to64_rest();
                        lemma_pow2_strictly_increases(63, y as nat);
                        lemma_small_mod(x as nat, pow2(y as nat));
                        lemma_fundamental_div_mod(x as int, pow2(y as nat) as int);
                        assert(x as int / pow2(y as nat) as int == 0) by (nonlinear_arith)
                            requires
                                x as int == pow2(y as nat) as int * (x as int / pow2(y as nat) as int) + x as int,
                                pow2(y as nat) > 0,
                        ;
                    }
                    0
                } else {
                    proof {
                        lemma_u64_shr_is_div(x, y);
                        vstd::arithmetic::power2::lemma_pow2_pos(y as nat);
                        lemma_div_basics_5(x as int, pow2(y as nat) as int);
                    }
                    x >> y
                }
            },
        };
        Ok(Real { num: v as i64, den: 1 })
    }

    /// The number of ordered selections of `rhs` items out of `self`: `n! / (n - r)!`.
    pub fn permutation(self, rhs: Real) -> (r: Result<Real, FendError>)
        ensures
            rres(r) == permutation_spec(self@, rhs@),
    {
        let n_factorial = self.factorial()?;
        let n_minus_r = self.sub(rhs)?;
        let n_minus_r_factorial = n_minus_r.factorial()?;
        n_factorial.div(n_minus_r_factorial)
    }

    /// The number of unordered selections of `rhs` items out of `self`: `n! / (r! (n - r)!)`.
    pub fn combination(self, rhs: Real) -> (r: Result<Real, FendError>)
        ensures
            rres(r) == combination_spec(self@, rhs@),
    {
        let n_factorial = self.factorial()?;
        let r_factorial = rhs.factorial()?;
        let n_minus_r_factorial = self.sub(rhs)?.factorial()?;
        let denominator = r_factorial.mul(n_minus_r_factorial)?;
        n_factorial.div(denominator)
    }

    /// `self` raised to an integer power, by repeated squaring; negative powers are
    /// reciprocals, so zero has none.
    pub fn pow(self, rhs: Real) -> (r: Result<Real, FendError>)
        ensures
            rres(r) == pow_spec(self@, rhs@),
    {
        if !rhs.is_integer() {
            return Err(FendError::ExpectedAnInteger);
        }
        let e = rhs.int_value();
        let k: u64 = if e < 0 {
            (-e) as u64
        } else {
            e as u64
        };
        let mut result = Real::one();
        let mut base = self;
        let mut exp = k;
        while exp > 0
            invariant
                rhs@.is_integer(),
                e == rhs@.int_value(),
                k == abs(e as int),
                rpow_loop(rat_int(1), self@, k as nat) == rpow_loop(result@, base@, exp as nat),
            decreases exp,
        {
            proof {
                assert((exp & 1 == 1) == (exp % 2 == 1)) by (bit_vector);
                assert(exp >> 1 == exp / 2) by (bit_vector);
            }
            if exp & 1 == 1 {
                result = result.mul(base)?;
            }
            exp = exp >> 1;
            if exp > 0 {
                base = base.mul(base)?;
            }
        }
        if e < 0 {
            Real::one().div(result)
        } else {
            Ok(result)
        }
    }

    /// The numerator and the positive denominator.
    pub fn parts(&self) -> (r: (i64, i64))
        ensures
            r.0 as int == self@.n,
            r.1 as int == self@.d,
            fits(self@),
    {
        proof {
            use_type_invariant(self);
        }
        (self.num, self.den)
    }
}

} // verus!
