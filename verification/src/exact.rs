use crate::error::FendError;
use crate::rat::{abs, checked, fits, gcd, lemma_normalize, lemma_valid_ops, rat_int, Rat};
use crate::realnum::{lemma_rounded, rounded, Real};
use vstd::prelude::*;

verus! {

/// A value together with a flag that tells whether it is known to be exact.
#[derive(Clone, Copy, Debug, PartialEq, Eq)]
pub struct Exact<T> {
    pub value: T,
    pub exact: bool,
}

impl<T> Exact<T> {
    pub fn new(value: T, exact: bool) -> (r: Exact<T>)
        ensures
            r.value == value,
            r.exact == exact,
    {
        Exact { value, exact }
    }

    /// The same value, exact only if it was exact and `x` holds.
    pub fn combine(self, x: bool) -> (r: Exact<T>)
        ensures
            r.value == self.value,
            r.exact == (self.exact && x),
    {
        Exact { value: self.value, exact: self.exact && x }
    }
}

/// An exact-or-approximate rational: the number and its exactness flag.
pub type XRat = (Rat, bool);

pub open spec fn xview(x: Exact<Real>) -> XRat {
    (x.value@, x.exact)
}

pub open spec fn xres(r: Result<Exact<Real>, FendError>) -> Result<XRat, FendError> {
    match r {
        Ok(x) => Ok(xview(x)),
        Err(e) => Err(e),
    }
}

/// A checked rational with the given exactness, or `OutOfRange`.
pub open spec fn lift(q: Option<Rat>, exact: bool) -> Result<XRat, FendError> {
    match q {
        Some(v) => Ok((v, exact)),
        None => Err(FendError::OutOfRange),
    }
}

/// The outcome of an operation whose exact result is `q`: for an exact outcome, `q` reduced
/// or `OutOfRange` when that does not fit; for an approximate one, `q` rounded (see
/// `rounded`), `OutOfRange` only when `q` is too large to be held.
pub open spec fn settle(q: Rat, exact: bool) -> Result<XRat, FendError> {
    if exact {
        lift(checked(q), true)
    } else {
        match rounded(q) {
            Some(v) => Ok((v, false)),
            None => Err(FendError::OutOfRange),
        }
    }
}

/// Sum: exact when both operands are.
pub open spec fn xadd(a: XRat, b: XRat) -> Result<XRat, FendError> {
    settle(a.0.plus(b.0), a.1 && b.1)
}

pub open spec fn xneg(a: XRat) -> XRat {
    (a.0.negated(), a.1)
}

/// Product: an exact zero factor gives itself back as an exact zero;
/// otherwise the product is exact when both factors are.
pub open spec fn xmul(a: XRat, b: XRat) -> Result<XRat, FendError> {
    if a.1 && a.0.is_zero() {
        Ok(a)
    } else if b.1 && b.0.is_zero() {
        Ok(b)
    } else {
        settle(a.0.times(b.0), a.1 && b.1)
    }
}

/// Quotient: `DivideByZero` for a zero divisor; an exact zero dividend gives an exact zero;
/// otherwise the quotient is exact when both operands are.
pub open spec fn xdiv(a: XRat, b: XRat) -> Result<XRat, FendError> {
    if b.0.is_zero() {
        Err(FendError::DivideByZero)
    } else if a.1 && a.0.is_zero() {
        Ok((rat_int(0), true))
    } else {
        settle(a.0.over(b.0), a.1 && b.1)
    }
}

/// A checked result denotes the rational it was computed from.
pub proof fn lemma_checked(q: Rat)
    requires
        q.valid(),
    ensures
        checked(q) matches Some(v) ==> v.eqv(q) && fits(v),
{
    lemma_normalize(q);
}

/// Zero always fits: its checked form is the zero `0 / 1`.
pub proof fn lemma_checked_zero(q: Rat)
    requires
        q.valid(),
        q.is_zero(),
    ensures
        checked(q) == Some(rat_int(0)),
{
    let b = q.d as nat;
    assert(gcd(abs(q.n), b) == gcd(b, 0nat % b));
    assert(0nat % b == 0) by (nonlinear_arith)
        requires
            b > 0,
    ;
    assert(gcd(b, 0) == b);
    assert(q.n / q.d == 0 && q.d / q.d == 1) by (nonlinear_arith)
        requires
            q.n == 0,
            q.d > 0,
    ;
}

/// What the operations compute, as numbers: an exact sum, product or quotient denotes the
/// sum, product or quotient of the operands; every outcome is a valid rational.
pub proof fn lemma_x_values(a: XRat, b: XRat)
    requires
        a.0.valid(),
        b.0.valid(),
    ensures
        xadd(a, b) matches Ok(r) ==> (r.1 ==> r.0.eqv(a.0.plus(b.0))) && r.1 == (a.1 && b.1)
            && r.0.valid(),
        xmul(a, b) matches Ok(r) ==> (r.1 ==> r.0.eqv(a.0.times(b.0))) && r.0.valid(),
        xmul(a, b) matches Ok(r) ==> (r.1 <==> (a.1 && b.1) || (a.1 && a.0.is_zero()) || (b.1
            && b.0.is_zero())),
        xdiv(a, b) matches Ok(r) ==> (r.1 ==> r.0.eqv(a.0.over(b.0))) && r.0.valid(),
        xdiv(a, b) matches Ok(r) ==> (r.1 <==> (a.1 && b.1) || (a.1 && a.0.is_zero())),
        xdiv(a, b) is Err ==> (b.0.is_zero() <==> xdiv(a, b) == Err::<XRat, FendError>(
            FendError::DivideByZero)),
{
    lemma_valid_ops(a.0, b.0);
    lemma_checked(a.0.plus(b.0));
    lemma_checked(a.0.times(b.0));
    lemma_rounded(a.0.plus(b.0));
    lemma_rounded(a.0.times(b.0));
    let t = a.0.times(b.0);
    if a.0.is_zero() {
        assert(t.n == 0 && a.0.n * t.d == 0) by (nonlinear_arith)
            requires
                a.0.n == 0,
                t.n == a.0.n * b.0.n,
        ;
        assert(a.0.eqv(t));
    }
    if b.0.is_zero() {
        assert(t.n == 0 && b.0.n * t.d == 0) by (nonlinear_arith)
            requires
                b.0.n == 0,
                t.n == a.0.n * b.0.n,
        ;
        assert(b.0.eqv(t));
    }
    if !b.0.is_zero() {
        lemma_checked(a.0.over(b.0));
        lemma_rounded(a.0.over(b.0));
        if a.0.is_zero() {
            let r = b.0.recip();
            let o = a.0.over(b.0);
            assert(o.n == 0 && 0 * o.d == 0) by (nonlinear_arith)
                requires
                    a.0.n == 0,
                    o.n == a.0.n * r.n,
            ;
            assert(rat_int(0).eqv(o));
        }
    }
}

impl Exact<Real> {
    /// Sum of two exact-or-approximate reals; an approximate sum is rounded when it does not
    /// fit.
    pub fn add(self, rhs: Exact<Real>) -> (r: Result<Exact<Real>, FendError>)
        ensures
            xres(r) == xadd(xview(self), xview(rhs)),
    {
        if self.exact && rhs.exact {
            Ok(Exact::new(self.value.add(rhs.value)?, true))
        } else {
            Ok(Exact::new(self.value.add_rounded(rhs.value)?, false))
        }
    }

    pub fn neg(self) -> (r: Exact<Real>)
        ensures
            xview(r) == xneg(xview(self)),
    {
        Exact::new(self.value.neg(), self.exact)
    }

    /// Product of two exact-or-approximate reals; an approximate product is rounded when it
    /// does not fit.
    pub fn mul(self, rhs: Exact<Real>) -> (r: Result<Exact<Real>, FendError>)
        ensures
            xres(r) == xmul(xview(self), xview(rhs)),
    {
        if self.exact && self.value.is_zero() {
            return Ok(self);
        }
        if rhs.exact && rhs.value.is_zero() {
            return Ok(rhs);
        }
        if self.exact && rhs.exact {
            Ok(Exact::new(self.value.mul(rhs.value)?, true))
        } else {
            Ok(Exact::new(self.value.mul_rounded(rhs.value)?, false))
        }
    }

    /// Quotient of two exact-or-approximate reals; an approximate quotient is rounded when it
    /// does not fit.
    pub fn div(self, rhs: Exact<Real>) -> (r: Result<Exact<Real>, FendError>)
        ensures
            xres(r) == xdiv(xview(self), xview(rhs)),
    {
        if rhs.value.is_zero() {
            return Err(FendError::DivideByZero);
        }
        if self.exact && self.value.is_zero() {
            return Ok(Exact::new(Real::zero(), true));
        }
        if self.exact && rhs.exact {
            Ok(Exact::new(self.value.div(rhs.value)?, true))
        } else {
            Ok(Exact::new(self.value.div_rounded(rhs.value)?, false))
        }
    }
}

/// `q` has a numerator of magnitude at most `n` and a positive denominator at most `d`.
pub open spec fn bounded(q: Rat, n: int, d: int) -> bool {
    abs(q.n) <= n && 0 < q.d <= d
}

/// Bounds on the parts of sums, differences, products and negations.
pub proof fn lemma_bound_ops(a: Rat, b: Rat, na: int, da: int, nb: int, db: int)
    requires
        bounded(a, na, da),
        bounded(b, nb, db),
    ensures
        bounded(a.times(b), na * nb, da * db),
        bounded(a.plus(b), na * db + nb * da, da * db),
        bounded(a.minus(b), na * db + nb * da, da * db),
        bounded(a.negated(), na, da),
{
    assert(abs(a.n * b.n) <= na * nb && 0 < a.d * b.d <= da * db) by (nonlinear_arith)
        requires
            abs(a.n) <= na,
            abs(b.n) <= nb,
            0 < a.d <= da,
            0 < b.d <= db,
    ;
    assert(abs(a.n * b.d + b.n * a.d) <= na * db + nb * da) by (nonlinear_arith)
        requires
            abs(a.n) <= na,
            abs(b.n) <= nb,
            0 < a.d <= da,
            0 < b.d <= db,
    ;
    assert(abs(a.n * b.d + (-b.n) * a.d) <= na * db + nb * da) by (nonlinear_arith)
        requires
            abs(a.n) <= na,
            abs(b.n) <= nb,
            0 < a.d <= da,
            0 < b.d <= db,
    ;
}

/// An outcome whose exact value has parts within the fixed-width bounds is that value
/// reduced, whether exact or not: it denotes the same number and its parts are no larger.
pub proof fn lemma_settle_fits(q: Rat, e: bool)
    requires
        q.valid(),
        fits(q),
    ensures
        settle(q, e) matches Ok(r) && r.0.eqv(q) && r.0.valid() && abs(r.0.n) <= abs(q.n) && r.0.d
            <= q.d && (r.0.is_zero() ==> r.0 == rat_int(0)),
{
    lemma_normalize(q);
    lemma_rounded(q);
    crate::rat::lemma_eqv_sign(crate::rat::normalize(q), q);
    if q.is_zero() {
        lemma_checked_zero(q);
    }
}

/// A product whose exact value fits is computed without rounding.
pub proof fn lemma_xmul_fits(a: XRat, b: XRat)
    requires
        a.0.valid(),
        b.0.valid(),
        fits(a.0.times(b.0)),
    ensures
        xmul(a, b) matches Ok(r) && r.0.eqv(a.0.times(b.0)) && r.0.valid() && abs(r.0.n) <= abs(
            a.0.times(b.0).n,
        ) && r.0.d <= a.0.times(b.0).d,
        (a.0.is_zero() ==> a.0 == rat_int(0)) && (b.0.is_zero() ==> b.0 == rat_int(0)) ==> (
        xmul(a, b) matches Ok(r) && (r.0.is_zero() ==> r.0 == rat_int(0))),
{
    assert(a.0.times(b.0).is_zero() <==> a.0.is_zero() || b.0.is_zero()) by (nonlinear_arith);
    lemma_x_values(a, b);
    lemma_valid_ops(a.0, b.0);
    lemma_settle_fits(a.0.times(b.0), a.1 && b.1);
    assert(a.0.d <= a.0.d * b.0.d && b.0.d <= a.0.d * b.0.d) by (nonlinear_arith)
        requires
            a.0.d > 0,
            b.0.d > 0,
    ;
}

/// A sum whose exact value fits is computed without rounding.
pub proof fn lemma_xadd_fits(a: XRat, b: XRat)
    requires
        a.0.valid(),
        b.0.valid(),
        fits(a.0.plus(b.0)),
    ensures
        xadd(a, b) matches Ok(r) && r.0.eqv(a.0.plus(b.0)) && r.0.valid() && abs(r.0.n) <= abs(
            a.0.plus(b.0).n,
        ) && r.0.d <= a.0.plus(b.0).d && (r.0.is_zero() ==> r.0 == rat_int(0)),
{
    lemma_valid_ops(a.0, b.0);
    lemma_settle_fits(a.0.plus(b.0), a.1 && b.1);
}

/// A quotient by a non-zero number whose exact value fits is computed without rounding.
pub proof fn lemma_xdiv_fits(a: XRat, b: XRat)
    requires
        a.0.valid(),
        b.0.valid(),
        !b.0.is_zero(),
        fits(a.0.over(b.0)),
    ensures
        xdiv(a, b) matches Ok(r) && r.0.eqv(a.0.over(b.0)) && r.0.valid() && abs(r.0.n) <= abs(
            a.0.over(b.0).n,
        ) && r.0.d <= a.0.over(b.0).d,
{
    lemma_x_values(a, b);
    lemma_valid_ops(a.0, b.0);
    lemma_settle_fits(a.0.over(b.0), a.1 && b.1);
}

} // verus!
