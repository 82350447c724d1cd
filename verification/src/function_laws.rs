use crate::complex::{cint, xcadd, xcdiv, xcmul, CRat, XC};
use crate::elementary::{
    acos_outcome, asin_ln_outcome, asin_outcome, atan_outcome, cos_outcome, cosh_outcome, cr,
    exp_log_outcome, exp_outcome, frac_pow_outcome, gives, imag_unit, in_unit_interval,
    ln_outcome, log_fixed_outcome, log_outcome, pi_outcome, positive_real, real_only_outcome,
    sin_outcome, sinh_outcome, tan_outcome, tanh_outcome, RealFn,
};
use crate::rat::rat_int;
use crate::error::FendError;
use crate::exact::{xmul, xview, Exact};
use crate::realnum::{real_of, Real};
use vstd::prelude::*;

verus! {

/// The exponential `e^(a + bi)`: when it is computed, `f` gave `e^a`, `cos b` and `sin b`, the
/// real part is the product of `e^a` and `cos b`, the imaginary part that of `e^a` and `sin b`,
/// and the outcome is as exact as `e^a`.
pub proof fn law_exp_parts<F: Fn(RealFn, Real) -> Result<Exact<Real>, FendError>>(
    f: F,
    z: CRat,
    r: Result<XC, FendError>,
)
    requires
        exp_outcome(f, z, r),
        r is Ok,
    ensures
        exists|e: Exact<Real>, c: Exact<Real>, s: Exact<Real>|
            #![trigger gives(f, RealFn::Exp, real_of(z.re), Ok::<Exact<Real>, FendError>(e)), gives(f, RealFn::Cos, real_of(z.im), Ok::<Exact<Real>, FendError>(c)), gives(f, RealFn::Sin, real_of(z.im), Ok::<Exact<Real>, FendError>(s))]
            gives(f, RealFn::Exp, real_of(z.re), Ok::<Exact<Real>, FendError>(e)) && gives(
                f,
                RealFn::Cos,
                real_of(z.im),
                Ok::<Exact<Real>, FendError>(c),
            ) && gives(f, RealFn::Sin, real_of(z.im), Ok::<Exact<Real>, FendError>(s)) && (xmul(
                xview(e),
                xview(c),
            ) matches Ok(p) && p.0 == r->Ok_0.0.re) && (xmul(xview(e), xview(s)) matches Ok(q)
                && q.0 == r->Ok_0.0.im) && r->Ok_0.1 == e.exact,
{
}

/// The sine of `a + bi` with `b` not zero: `f` gave `sin a`, `cos a`, `cosh b` and `sinh b`; the
/// real part is the product of `sin a` and `cosh b`, the imaginary part that of `cos a` and
/// `sinh b`, with the hyperbolic values taken as approximate.
pub proof fn law_sin_parts<F: Fn(RealFn, Real) -> Result<Exact<Real>, FendError>>(f: F, z: CRat, r: Result<XC, FendError>)
    requires
        !z.is_real(),
        sin_outcome(f, z, r),
        r is Ok,
    ensures
        exists|s: Exact<Real>, c: Exact<Real>, ch: Exact<Real>, sh: Exact<Real>|
            #![trigger gives(f, RealFn::Sin, real_of(z.re), Ok::<Exact<Real>, FendError>(s)), gives(f, RealFn::Cos, real_of(z.re), Ok::<Exact<Real>, FendError>(c)), gives(f, RealFn::Cosh, real_of(z.im), Ok::<Exact<Real>, FendError>(ch)), gives(f, RealFn::Sinh, real_of(z.im), Ok::<Exact<Real>, FendError>(sh))]
            gives(f, RealFn::Sin, real_of(z.re), Ok::<Exact<Real>, FendError>(s)) && gives(f, RealFn::Cos, real_of(z.re), Ok::<Exact<Real>, FendError>(c)) && gives(f, RealFn::Cosh, real_of(z.im), Ok::<Exact<Real>, FendError>(ch)) && gives(f, RealFn::Sinh, real_of(z.im), Ok::<Exact<Real>, FendError>(sh))
                && (xmul(xview(s), (ch.value@, false)) matches Ok(p) && p.0 == r->Ok_0.0.re) && (xmul(
                xview(c),
                (sh.value@, false),
            ) matches Ok(q) && q.0 == r->Ok_0.0.im),
{
}

/// The cosine of `a + bi` with `b` not zero: `f` gave `cos a`, `sin a`, `cosh b` and `sinh b`;
/// the real part is the product of `cos a` and `cosh b`, the imaginary part the negated
/// product of `sin a` and `sinh b`.
pub proof fn law_cos_parts<F: Fn(RealFn, Real) -> Result<Exact<Real>, FendError>>(f: F, z: CRat, r: Result<XC, FendError>)
    requires
        !z.is_real(),
        cos_outcome(f, z, r),
        r is Ok,
    ensures
        exists|s: Exact<Real>, c: Exact<Real>, ch: Exact<Real>, sh: Exact<Real>|
            #![trigger gives(f, RealFn::Sin, real_of(z.re), Ok::<Exact<Real>, FendError>(s)), gives(f, RealFn::Cos, real_of(z.re), Ok::<Exact<Real>, FendError>(c)), gives(f, RealFn::Cosh, real_of(z.im), Ok::<Exact<Real>, FendError>(ch)), gives(f, RealFn::Sinh, real_of(z.im), Ok::<Exact<Real>, FendError>(sh))]
            gives(f, RealFn::Sin, real_of(z.re), Ok::<Exact<Real>, FendError>(s)) && gives(f, RealFn::Cos, real_of(z.re), Ok::<Exact<Real>, FendError>(c)) && gives(f, RealFn::Cosh, real_of(z.im), Ok::<Exact<Real>, FendError>(ch)) && gives(f, RealFn::Sinh, real_of(z.im), Ok::<Exact<Real>, FendError>(sh))
                && (xmul(xview(c), (ch.value@, false)) matches Ok(p) && p.0 == r->Ok_0.0.re) && (xmul(
                xview(s),
                (sh.value@, false),
            ) matches Ok(q) && q.0.negated() == r->Ok_0.0.im),
{
}

/// The tangent is the quotient of the sine and the cosine of the same number.
pub proof fn law_tan_is_sin_over_cos<F: Fn(RealFn, Real) -> Result<Exact<Real>, FendError>>(f: F, z: CRat, r: Result<XC, FendError>)
    requires
        tan_outcome(f, z, r),
        r is Ok,
    ensures
        exists|n: XC, d: XC|
            #![trigger sin_outcome(f, z, Ok::<XC, FendError>(n)), cos_outcome(f, z, Ok::<XC, FendError>(d))]
            sin_outcome(f, z, Ok::<XC, FendError>(n)) && cos_outcome(f, z, Ok::<XC, FendError>(d))
                && r == xcdiv(n, d),
{
}

/// The hyperbolic sine of `a + bi` with `b` not zero: the real part is the product of
/// `sinh a` (approximate) and `cos b`, the imaginary part that of `cosh a` (approximate) and
/// `sin b`, each as `f` gave it.
pub proof fn law_sinh_parts<F: Fn(RealFn, Real) -> Result<Exact<Real>, FendError>>(f: F, z: CRat, r: Result<CRat, FendError>)
    requires
        !z.is_real(),
        sinh_outcome(f, z, r),
        r is Ok,
    ensures
        exists|sh: Exact<Real>, c: Exact<Real>, ch: Exact<Real>, s: Exact<Real>|
            #![trigger gives(f, RealFn::Sinh, real_of(z.re), Ok::<Exact<Real>, FendError>(sh)), gives(f, RealFn::Cos, real_of(z.im), Ok::<Exact<Real>, FendError>(c)), gives(f, RealFn::Cosh, real_of(z.re), Ok::<Exact<Real>, FendError>(ch)), gives(f, RealFn::Sin, real_of(z.im), Ok::<Exact<Real>, FendError>(s))]
            gives(f, RealFn::Sinh, real_of(z.re), Ok::<Exact<Real>, FendError>(sh)) && gives(f, RealFn::Cos, real_of(z.im), Ok::<Exact<Real>, FendError>(c)) && gives(f, RealFn::Cosh, real_of(z.re), Ok::<Exact<Real>, FendError>(ch)) && gives(f, RealFn::Sin, real_of(z.im), Ok::<Exact<Real>, FendError>(s))
                && (xmul((sh.value@, false), xview(c)) matches Ok(p) && p.0 == r->Ok_0.re) && (xmul(
                (ch.value@, false),
                xview(s),
            ) matches Ok(q) && q.0 == r->Ok_0.im),
{
}

/// The hyperbolic cosine of `a + bi` with `b` not zero: the real part is the product of
/// `cosh a` (approximate) and `cos b`, the imaginary part that of `sinh a` (approximate) and
/// `sin b`, each as `f` gave it.
pub proof fn law_cosh_parts<F: Fn(RealFn, Real) -> Result<Exact<Real>, FendError>>(f: F, z: CRat, r: Result<CRat, FendError>)
    requires
        !z.is_real(),
        cosh_outcome(f, z, r),
        r is Ok,
    ensures
        exists|sh: Exact<Real>, c: Exact<Real>, ch: Exact<Real>, s: Exact<Real>|
            #![trigger gives(f, RealFn::Sinh, real_of(z.re), Ok::<Exact<Real>, FendError>(sh)), gives(f, RealFn::Cos, real_of(z.im), Ok::<Exact<Real>, FendError>(c)), gives(f, RealFn::Cosh, real_of(z.re), Ok::<Exact<Real>, FendError>(ch)), gives(f, RealFn::Sin, real_of(z.im), Ok::<Exact<Real>, FendError>(s))]
            gives(f, RealFn::Sinh, real_of(z.re), Ok::<Exact<Real>, FendError>(sh)) && gives(f, RealFn::Cos, real_of(z.im), Ok::<Exact<Real>, FendError>(c)) && gives(f, RealFn::Cosh, real_of(z.re), Ok::<Exact<Real>, FendError>(ch)) && gives(f, RealFn::Sin, real_of(z.im), Ok::<Exact<Real>, FendError>(s))
                && (xmul((ch.value@, false), xview(c)) matches Ok(p) && p.0 == r->Ok_0.re) && (xmul(
                (sh.value@, false),
                xview(s),
            ) matches Ok(q) && q.0 == r->Ok_0.im),
{
}

/// The hyperbolic tangent: of a real number, `f`'s `tanh` of it; otherwise the quotient of
/// the hyperbolic sine and cosine of the same number, taken as approximate.
pub proof fn law_tanh<F: Fn(RealFn, Real) -> Result<Exact<Real>, FendError>>(f: F, z: CRat, r: Result<CRat, FendError>)
    requires
        tanh_outcome(f, z, r),
        r is Ok,
    ensures
        z.is_real() ==> exists|v: Exact<Real>|
            #[trigger] gives(f, RealFn::Tanh, real_of(z.re), Ok::<Exact<Real>, FendError>(v)) && r == Ok::<CRat, FendError>(cr(v.value@)),
        !z.is_real() ==> exists|n: CRat, d: CRat|
            #![trigger sinh_outcome(f, z, Ok::<CRat, FendError>(n)), cosh_outcome(f, z, Ok::<CRat, FendError>(d))]
            sinh_outcome(f, z, Ok::<CRat, FendError>(n)) && cosh_outcome(f, z, Ok::<CRat, FendError>(d))
                && (xcdiv((n, false), (d, false)) matches Ok(q) && r == Ok::<CRat, FendError>(q.0)),
{
}

/// The logarithm of a positive real is `f`'s real logarithm of it.
pub proof fn law_ln_of_positive_real<F: Fn(RealFn, Real) -> Result<Exact<Real>, FendError>>(f: F, z: CRat, r: Result<XC, FendError>)
    requires
        positive_real(z),
        ln_outcome(f, z, r),
        r is Ok,
    ensures
        exists|v: Exact<Real>|
            #[trigger] gives(f, RealFn::Ln, real_of(z.re), Ok::<Exact<Real>, FendError>(v)) && r == Ok::<XC, FendError>((cr(v.value@), v.exact)),
{
}

/// The logarithm to a base is the logarithm of the number divided by that of the base.
pub proof fn law_log_is_quotient_of_logarithms<F: Fn(RealFn, Real) -> Result<Exact<Real>, FendError>>(
    f: F,
    z: CRat,
    base: CRat,
    r: Result<CRat, FendError>,
)
    requires
        log_outcome(f, z, base, r),
        r is Ok,
    ensures
        exists|a: XC, b: XC|
            #![trigger ln_outcome(f, z, Ok::<XC, FendError>(a)), ln_outcome(f, base, Ok::<XC, FendError>(b))]
            ln_outcome(f, z, Ok::<XC, FendError>(a)) && ln_outcome(f, base, Ok::<XC, FendError>(b))
                && (xcdiv(a, b) matches Ok(q) && r == Ok::<CRat, FendError>(q.0)),
{
}

/// A logarithm to a fixed base: for a positive real, `f`'s real function `k` of it; otherwise
/// the logarithm to that base as a quotient of logarithms.
pub proof fn law_log_fixed<F: Fn(RealFn, Real) -> Result<Exact<Real>, FendError>>(f: F, z: CRat, k: RealFn, base: int, r: Result<CRat, FendError>)
    requires
        log_fixed_outcome(f, z, k, base, r),
        r is Ok,
    ensures
        positive_real(z) ==> exists|v: Exact<Real>|
            #[trigger] gives(f, k, real_of(z.re), Ok::<Exact<Real>, FendError>(v)) && r == Ok::<CRat, FendError>(cr(v.value@)),
        !positive_real(z) ==> log_outcome(f, z, cint(base), r),
{
}

/// A real-only function (inverse hyperbolic functions) refuses a number with an imaginary
/// part, and otherwise is `f`'s function `k` of the real part.
pub proof fn law_real_only<F: Fn(RealFn, Real) -> Result<Exact<Real>, FendError>>(f: F, z: CRat, k: RealFn, r: Result<CRat, FendError>)
    requires
        real_only_outcome(f, z, k, r),
    ensures
        !z.is_real() ==> r == Err::<CRat, FendError>(FendError::ExpectedARealNumber),
        z.is_real() && r is Ok ==> exists|v: Exact<Real>|
            #[trigger] gives(f, k, real_of(z.re), Ok::<Exact<Real>, FendError>(v)) && r == Ok::<CRat, FendError>(cr(v.value@)),
{
}

/// The inverse sine: inside the unit interval `f`'s real arcsine; otherwise
/// `-(L · i)` for an outcome `L` of `ln(i·z + √(1 - z²))`.
pub proof fn law_asin<F: Fn(RealFn, Real) -> Result<Exact<Real>, FendError>>(f: F, z: CRat, r: Result<CRat, FendError>)
    requires
        asin_outcome(f, z, r),
        r is Ok,
    ensures
        in_unit_interval(z) ==> exists|v: Exact<Real>|
            #[trigger] gives(f, RealFn::Asin, real_of(z.re), Ok::<Exact<Real>, FendError>(v)) && r == Ok::<CRat, FendError>(cr(v.value@)),
        !in_unit_interval(z) ==> exists|l: XC|
            #[trigger] asin_ln_outcome(f, z, Ok::<XC, FendError>(l)) && (xcmul(l, (imag_unit(), true)) matches Ok(
                m,
            ) && r == Ok::<CRat, FendError>(m.0.cneg())),
{
}

/// The inverse cosine: inside the unit interval `f`'s real arccosine; otherwise `π/2 + L · i`
/// for `π` as `f` gives it and an outcome `L` of `ln(i·z + √(1 - z²))`.
pub proof fn law_acos<F: Fn(RealFn, Real) -> Result<Exact<Real>, FendError>>(f: F, z: CRat, r: Result<CRat, FendError>)
    requires
        acos_outcome(f, z, r),
        r is Ok,
    ensures
        in_unit_interval(z) ==> exists|v: Exact<Real>|
            #[trigger] gives(f, RealFn::Acos, real_of(z.re), Ok::<Exact<Real>, FendError>(v)) && r == Ok::<CRat, FendError>(cr(v.value@)),
        !in_unit_interval(z) ==> exists|p: Exact<Real>, l: XC|
            #![trigger gives(f, RealFn::Pi, real_of(rat_int(0)), Ok::<Exact<Real>, FendError>(p)), asin_ln_outcome(f, z, Ok::<XC, FendError>(l))]
            gives(f, RealFn::Pi, real_of(rat_int(0)), Ok::<Exact<Real>, FendError>(p)) && asin_ln_outcome(f, z, Ok::<XC, FendError>(l)) && (xcdiv(
                (cr(p.value@), true),
                (cint(2), true),
            ) matches Ok(hp) && (xcmul(l, (imag_unit(), true)) matches Ok(m) && (xcadd(hp, m) matches Ok(
                t,
            ) && r == Ok::<CRat, FendError>(t.0)))),
{
}

/// The inverse tangent of a real number is `f`'s real arctangent of it.
pub proof fn law_atan_of_real<F: Fn(RealFn, Real) -> Result<Exact<Real>, FendError>>(f: F, z: CRat, r: Result<CRat, FendError>)
    requires
        z.is_real(),
        atan_outcome(f, z, r),
        r is Ok,
    ensures
        exists|v: Exact<Real>|
            #[trigger] gives(f, RealFn::Atan, real_of(z.re), Ok::<Exact<Real>, FendError>(v)) && r == Ok::<CRat, FendError>(cr(v.value@)),
{
}

/// A fractional power of a non-negative real to a real exponent is `f`'s real power;
/// otherwise it is `e^(w · ln z)`.
pub proof fn law_frac_pow<F: Fn(RealFn, Real) -> Result<Exact<Real>, FendError>>(f: F, z: CRat, w: CRat, r: Result<XC, FendError>)
    requires
        frac_pow_outcome(f, z, w, r),
        r is Ok,
    ensures
        z.is_real() && w.is_real() && rat_int(0).le(z.re) ==> exists|v: Exact<Real>|
            #[trigger] gives(f, RealFn::Pow(real_of(w.re)), real_of(z.re), Ok::<Exact<Real>, FendError>(v)) && r == Ok::<XC, FendError>(
                (cr(v.value@), v.exact),
            ),
        !(z.is_real() && w.is_real() && rat_int(0).le(z.re)) ==> exp_log_outcome(f, z, w, r),
{
}

/// `π` is the value `f` gives for `Pi`.
pub proof fn law_pi<F: Fn(RealFn, Real) -> Result<Exact<Real>, FendError>>(f: F, r: Result<CRat, FendError>)
    requires
        pi_outcome(f, r),
        r is Ok,
    ensures
        exists|v: Exact<Real>|
            #[trigger] gives(f, RealFn::Pi, real_of(rat_int(0)), Ok::<Exact<Real>, FendError>(v)) && r == Ok::<CRat, FendError>(cr(v.value@)),
{
}

} // verus!
