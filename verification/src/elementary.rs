use crate::complex::{assemble, cint, cres, xcadd, xcdiv, xcmul, xcres, xcview, CRat, Complex, XC};
use crate::error::FendError;
use crate::exact::{xmul, xneg, xres, xview, Exact, XRat};
use crate::rat::{rat_int, Rat};
use crate::realnum::{lemma_real_of, real_of, Real};
use crate::root::abs_rel;
use vstd::prelude::*;

verus! {

/// The real elementary functions whose values a caller evaluates for the library. Binary
/// functions carry their other argument: `Atan2(x)` at `y` is the angle of the point
/// `(x, y)`, and `Pow(e)` at `b` is `b` raised to the power `e`. `Pi` ignores its argument.
#[derive(Clone, Copy, Debug)]
pub enum RealFn {
    Exp,
    Ln,
    Log2,
    Log10,
    Sin,
    Cos,
    Sinh,
    Cosh,
    Tanh,
    Asin,
    Acos,
    Atan,
    Asinh,
    Acosh,
    Atanh,
    Atan2(Real),
    Pow(Real),
    Pi,
}

/// `f` gives `o` as the value of the real function `k` at `x`.
pub open spec fn gives<F: Fn(RealFn, Real) -> Result<Exact<Real>, FendError>>(
    f: F,
    k: RealFn,
    x: Real,
    o: Result<Exact<Real>, FendError>,
) -> bool {
    call_ensures(f, (k, x), o)
}

/// `f` accepts every function and argument.
pub open spec fn total<F: Fn(RealFn, Real) -> Result<Exact<Real>, FendError>>(f: F) -> bool {
    forall|k: RealFn, x: Real| call_requires(f, (k, x))
}

/// A step that asks `f` for the value of `k` at `x`: an error from `f` is the outcome `r`;
/// otherwise `cont` holds of the value given.
pub open spec fn step<F: Fn(RealFn, Real) -> Result<Exact<Real>, FendError>, T>(
    f: F,
    k: RealFn,
    x: Rat,
    r: Result<T, FendError>,
    cont: spec_fn(Exact<Real>) -> bool,
) -> bool {
    exists|o: Result<Exact<Real>, FendError>|
        gives(f, k, real_of(x), o) && match o {
            Err(e) => r == Err::<T, FendError>(e),
            Ok(v) => cont(v),
        }
}

/// A computed step: its error is the outcome `r`; otherwise `cont` holds of its value.
pub open spec fn bind<A, T>(
    s: Result<A, FendError>,
    r: Result<T, FendError>,
    cont: spec_fn(A) -> bool,
) -> bool {
    match s {
        Err(e) => r == Err::<T, FendError>(e),
        Ok(v) => cont(v),
    }
}

/// An exact-or-approximate real as a complex number.
pub open spec fn creal(x: XRat) -> XC {
    (CRat { re: x.0, im: rat_int(0) }, x.1)
}

/// A real as a complex number.
pub open spec fn cr(q: Rat) -> CRat {
    CRat { re: q, im: rat_int(0) }
}

pub open spec fn imag_unit() -> CRat {
    CRat { re: rat_int(0), im: rat_int(1) }
}

pub open spec fn xcneg(a: XC) -> XC {
    (a.0.cneg(), a.1)
}

/// The real part is strictly between -1 and 1, with a zero imaginary part.
pub open spec fn in_unit_interval(z: CRat) -> bool {
    z.is_real() && rat_int(-1).lt(z.re) && z.re.lt(rat_int(1))
}

/// A positive real number.
pub open spec fn positive_real(z: CRat) -> bool {
    z.is_real() && rat_int(0).lt(z.re)
}

/// `e^(a + bi) = e^a · (cos b + i · sin b)`, exact when `e^a` is.
pub open spec fn exp_outcome<F: Fn(RealFn, Real) -> Result<Exact<Real>, FendError>>(
    f: F,
    z: CRat,
    r: Result<XC, FendError>,
) -> bool {
    step(f, RealFn::Exp, z.re, r, |e: Exact<Real>|
        step(f, RealFn::Cos, z.im, r, |c: Exact<Real>|
            bind(xmul(xview(e), xview(c)), r, |a: XRat|
                step(f, RealFn::Sin, z.im, r, |s: Exact<Real>|
                    bind(xmul(xview(e), xview(s)), r, |b: XRat|
                        r == Ok::<XC, FendError>((CRat { re: a.0, im: b.0 }, e.exact)))))))
}

/// `sin(a + bi) = sin a · cosh b + i · cos a · sinh b`, with `cosh b` and `sinh b` approximate.
pub open spec fn sin_outcome<F: Fn(RealFn, Real) -> Result<Exact<Real>, FendError>>(
    f: F,
    z: CRat,
    r: Result<XC, FendError>,
) -> bool {
    if z.is_real() {
        step(f, RealFn::Sin, z.re, r, |s: Exact<Real>| r == Ok::<XC, FendError>(creal(xview(s))))
    } else {
        step(f, RealFn::Cosh, z.im, r, |ch: Exact<Real>|
            step(f, RealFn::Sinh, z.im, r, |sh: Exact<Real>|
                step(f, RealFn::Sin, z.re, r, |s: Exact<Real>|
                    bind(xmul(xview(s), (ch.value@, false)), r, |a: XRat|
                        step(f, RealFn::Cos, z.re, r, |c: Exact<Real>|
                            bind(xmul(xview(c), (sh.value@, false)), r, |b: XRat|
                                r == Ok::<XC, FendError>(assemble(a, b))))))))
    }
}

/// `cos(a + bi) = cos a · cosh b - i · sin a · sinh b`, with `cosh b` and `sinh b` approximate.
pub open spec fn cos_outcome<F: Fn(RealFn, Real) -> Result<Exact<Real>, FendError>>(
    f: F,
    z: CRat,
    r: Result<XC, FendError>,
) -> bool {
    if z.is_real() {
        step(f, RealFn::Cos, z.re, r, |c: Exact<Real>| r == Ok::<XC, FendError>(creal(xview(c))))
    } else {
        step(f, RealFn::Cosh, z.im, r, |ch: Exact<Real>|
            step(f, RealFn::Sinh, z.im, r, |sh: Exact<Real>|
                step(f, RealFn::Cos, z.re, r, |c: Exact<Real>|
                    bind(xmul(xview(c), (ch.value@, false)), r, |a: XRat|
                        step(f, RealFn::Sin, z.re, r, |s: Exact<Real>|
                            bind(xmul(xview(s), (sh.value@, false)), r, |b: XRat|
                                r == Ok::<XC, FendError>(assemble(a, xneg(b)))))))))
    }
}

/// `tan z = sin z / cos z`.
pub open spec fn tan_outcome<F: Fn(RealFn, Real) -> Result<Exact<Real>, FendError>>(
    f: F,
    z: CRat,
    r: Result<XC, FendError>,
) -> bool {
    exists|sr: Result<XC, FendError>|
        sin_outcome(f, z, sr) && bind(sr, r, |n: XC|
            exists|co: Result<XC, FendError>|
                cos_outcome(f, z, co) && bind(co, r, |d: XC| r == xcdiv(n, d)))
}

/// `sinh(a + bi) = sinh a · cos b + i · cosh a · sin b`, with `sinh a` and `cosh a` approximate.
pub open spec fn sinh_outcome<F: Fn(RealFn, Real) -> Result<Exact<Real>, FendError>>(
    f: F,
    z: CRat,
    r: Result<CRat, FendError>,
) -> bool {
    if z.is_real() {
        step(f, RealFn::Sinh, z.re, r, |v: Exact<Real>| r == Ok::<CRat, FendError>(cr(v.value@)))
    } else {
        step(f, RealFn::Sinh, z.re, r, |sh: Exact<Real>|
            step(f, RealFn::Cos, z.im, r, |c: Exact<Real>|
                step(f, RealFn::Cosh, z.re, r, |ch: Exact<Real>|
                    step(f, RealFn::Sin, z.im, r, |s: Exact<Real>|
                        bind(xmul((sh.value@, false), xview(c)), r, |a: XRat|
                            bind(xmul((ch.value@, false), xview(s)), r, |b: XRat|
                                r == Ok::<CRat, FendError>(CRat { re: a.0, im: b.0 })))))))
    }
}

/// `cosh(a + bi) = cosh a · cos b + i · sinh a · sin b`, with `sinh a` and `cosh a` approximate.
pub open spec fn cosh_outcome<F: Fn(RealFn, Real) -> Result<Exact<Real>, FendError>>(
    f: F,
    z: CRat,
    r: Result<CRat, FendError>,
) -> bool {
    if z.is_real() {
        step(f, RealFn::Cosh, z.re, r, |v: Exact<Real>| r == Ok::<CRat, FendError>(cr(v.value@)))
    } else {
        step(f, RealFn::Cosh, z.re, r, |ch: Exact<Real>|
            step(f, RealFn::Cos, z.im, r, |c: Exact<Real>|
                step(f, RealFn::Sinh, z.re, r, |sh: Exact<Real>|
                    step(f, RealFn::Sin, z.im, r, |s: Exact<Real>|
                        bind(xmul((ch.value@, false), xview(c)), r, |a: XRat|
                            bind(xmul((sh.value@, false), xview(s)), r, |b: XRat|
                                r == Ok::<CRat, FendError>(CRat { re: a.0, im: b.0 })))))))
    }
}

/// `tanh z = sinh z / cosh z`.
pub open spec fn tanh_outcome<F: Fn(RealFn, Real) -> Result<Exact<Real>, FendError>>(
    f: F,
    z: CRat,
    r: Result<CRat, FendError>,
) -> bool {
    if z.is_real() {
        step(f, RealFn::Tanh, z.re, r, |v: Exact<Real>| r == Ok::<CRat, FendError>(cr(v.value@)))
    } else {
        exists|sr: Result<CRat, FendError>|
            sinh_outcome(f, z, sr) && bind(sr, r, |n: CRat|
                exists|co: Result<CRat, FendError>|
                    cosh_outcome(f, z, co) && bind(co, r, |d: CRat|
                        bind(xcdiv((n, false), (d, false)), r, |q: XC|
                            r == Ok::<CRat, FendError>(q.0))))
    }
}

/// The argument `atan2(b, a)` of `a + bi`, approximate.
pub open spec fn arg_outcome<F: Fn(RealFn, Real) -> Result<Exact<Real>, FendError>>(
    f: F,
    z: CRat,
    r: Result<XRat, FendError>,
) -> bool {
    step(f, RealFn::Atan2(real_of(z.re)), z.im, r, |v: Exact<Real>|
        r == Ok::<XRat, FendError>((v.value@, false)))
}

/// `ln z`: the real logarithm for a positive real, and otherwise `ln |z| + i · arg z`.
pub open spec fn ln_outcome<F: Fn(RealFn, Real) -> Result<Exact<Real>, FendError>>(
    f: F,
    z: CRat,
    r: Result<XC, FendError>,
) -> bool {
    if positive_real(z) {
        step(f, RealFn::Ln, z.re, r, |v: Exact<Real>| r == Ok::<XC, FendError>(creal(xview(v))))
    } else {
        exists|ar: Result<XRat, FendError>|
            abs_rel(z, ar) && bind(ar, r, |a: XRat|
                step(f, RealFn::Ln, a.0, r, |l: Exact<Real>|
                    exists|gr: Result<XRat, FendError>|
                        arg_outcome(f, z, gr) && bind(gr, r, |g: XRat|
                            r == Ok::<XC, FendError>(
                                (CRat { re: l.value@, im: g.0 }, (l.exact && a.1) && g.1),
                            ))))
    }
}

/// `log_base z = ln z / ln base`.
pub open spec fn log_outcome<F: Fn(RealFn, Real) -> Result<Exact<Real>, FendError>>(
    f: F,
    z: CRat,
    base: CRat,
    r: Result<CRat, FendError>,
) -> bool {
    exists|lr: Result<XC, FendError>|
        ln_outcome(f, z, lr) && bind(lr, r, |a: XC|
            exists|br: Result<XC, FendError>|
                ln_outcome(f, base, br) && bind(br, r, |b: XC|
                    bind(xcdiv(a, b), r, |q: XC| r == Ok::<CRat, FendError>(q.0))))
}

/// A logarithm to a fixed base: the real one for positive reals, otherwise `log_base z`.
pub open spec fn log_fixed_outcome<F: Fn(RealFn, Real) -> Result<Exact<Real>, FendError>>(
    f: F,
    z: CRat,
    k: RealFn,
    base: int,
    r: Result<CRat, FendError>,
) -> bool {
    if positive_real(z) {
        step(f, k, z.re, r, |v: Exact<Real>| r == Ok::<CRat, FendError>(cr(v.value@)))
    } else {
        log_outcome(f, z, cint(base), r)
    }
}

/// A real function of a real number: `ExpectedARealNumber` for any other number.
pub open spec fn real_only_outcome<F: Fn(RealFn, Real) -> Result<Exact<Real>, FendError>>(
    f: F,
    z: CRat,
    k: RealFn,
    r: Result<CRat, FendError>,
) -> bool {
    if !z.is_real() {
        r == Err::<CRat, FendError>(FendError::ExpectedARealNumber)
    } else {
        step(f, k, z.re, r, |v: Exact<Real>| r == Ok::<CRat, FendError>(cr(v.value@)))
    }
}

/// `z^w = e^(w · ln z)`, exact only when both the logarithm and the exponential are.
pub open spec fn exp_log_outcome<F: Fn(RealFn, Real) -> Result<Exact<Real>, FendError>>(
    f: F,
    z: CRat,
    w: CRat,
    r: Result<XC, FendError>,
) -> bool {
    exists|lr: Result<XC, FendError>|
        ln_outcome(f, z, lr) && bind(lr, r, |l: XC|
            bind(xcmul(l, (w, true)), r, |e: XC|
                exists|er: Result<XC, FendError>|
                    exp_outcome(f, e.0, er) && bind(er, r, |x: XC|
                        r == Ok::<XC, FendError>((x.0, x.1 && e.1)))))
}

/// A power with a fractional exponent: the real power for a non-negative real base and a
/// real exponent, otherwise `e^(w · ln z)`.
pub open spec fn frac_pow_outcome<F: Fn(RealFn, Real) -> Result<Exact<Real>, FendError>>(
    f: F,
    z: CRat,
    w: CRat,
    r: Result<XC, FendError>,
) -> bool {
    if z.is_real() && w.is_real() && rat_int(0).le(z.re) {
        step(f, RealFn::Pow(real_of(w.re)), z.re, r, |v: Exact<Real>|
            r == Ok::<XC, FendError>(creal(xview(v))))
    } else {
        exp_log_outcome(f, z, w, r)
    }
}

/// `ln(i·z + √(1 - z²))`, the square root taken as a power of one half.
pub open spec fn asin_ln_outcome<F: Fn(RealFn, Real) -> Result<Exact<Real>, FendError>>(
    f: F,
    z: CRat,
    r: Result<XC, FendError>,
) -> bool {
    bind(xcdiv((cint(1), true), (cint(2), true)), r, |half: XC|
        bind(xcmul((z, true), (z, true)), r, |zz: XC|
            bind(xcadd((cint(1), true), xcneg(zz)), r, |d: XC|
                exists|sr: Result<XC, FendError>|
                    frac_pow_outcome(f, d.0, half.0, sr) && bind(sr, r, |s0: XC|
                        bind(xcmul((imag_unit(), true), (z, true)), r, |t: XC|
                            bind(xcadd(t, (s0.0, s0.1 && d.1)), r, |u: XC|
                                exists|lr: Result<XC, FendError>|
                                    ln_outcome(f, u.0, lr) && bind(lr, r, |l: XC|
                                        r == Ok::<XC, FendError>((l.0, l.1 && u.1)))))))))
}

/// The number `π`, as `f` gives it.
pub open spec fn pi_outcome<F: Fn(RealFn, Real) -> Result<Exact<Real>, FendError>>(
    f: F,
    r: Result<CRat, FendError>,
) -> bool {
    step(f, RealFn::Pi, rat_int(0), r, |p: Exact<Real>| r == Ok::<CRat, FendError>(cr(p.value@)))
}

/// `asin z`: the real arcsine inside the unit interval, otherwise `-i · ln(i·z + √(1 - z²))`.
pub open spec fn asin_outcome<F: Fn(RealFn, Real) -> Result<Exact<Real>, FendError>>(
    f: F,
    z: CRat,
    r: Result<CRat, FendError>,
) -> bool {
    if in_unit_interval(z) {
        step(f, RealFn::Asin, z.re, r, |v: Exact<Real>| r == Ok::<CRat, FendError>(cr(v.value@)))
    } else {
        exists|ar: Result<XC, FendError>|
            asin_ln_outcome(f, z, ar) && bind(ar, r, |a: XC|
                bind(xcmul(a, (imag_unit(), true)), r, |m: XC|
                    r == Ok::<CRat, FendError>(m.0.cneg())))
    }
}

/// `acos z`: the real arccosine inside the unit interval, otherwise
/// `π/2 + i · ln(i·z + √(1 - z²))`.
pub open spec fn acos_outcome<F: Fn(RealFn, Real) -> Result<Exact<Real>, FendError>>(
    f: F,
    z: CRat,
    r: Result<CRat, FendError>,
) -> bool {
    if in_unit_interval(z) {
        step(f, RealFn::Acos, z.re, r, |v: Exact<Real>| r == Ok::<CRat, FendError>(cr(v.value@)))
    } else {
        step(f, RealFn::Pi, rat_int(0), r, |p: Exact<Real>|
            bind(xcdiv((cr(p.value@), true), (cint(2), true)), r, |hp: XC|
                exists|ar: Result<XC, FendError>|
                    asin_ln_outcome(f, z, ar) && bind(ar, r, |a: XC|
                        bind(xcmul(a, (imag_unit(), true)), r, |m: XC|
                            bind(xcadd(hp, m), r, |s: XC| r == Ok::<CRat, FendError>(s.0))))))
    }
}

/// `atan z`: the real arctangent for a real number, otherwise
/// `i/2 · (ln(1 - i·z) - ln(1 + i·z))`.
pub open spec fn atan_outcome<F: Fn(RealFn, Real) -> Result<Exact<Real>, FendError>>(
    f: F,
    z: CRat,
    r: Result<CRat, FendError>,
) -> bool {
    if z.is_real() {
        step(f, RealFn::Atan, z.re, r, |v: Exact<Real>| r == Ok::<CRat, FendError>(cr(v.value@)))
    } else {
        bind(xcdiv((imag_unit(), true), (cint(2), true)), r, |half_i: XC|
            bind(xcmul((z, true), (imag_unit().cneg(), true)), r, |p1: XC|
                bind(xcadd(p1, (cint(1), true)), r, |z1: XC|
                    bind(xcmul((z, true), (imag_unit(), true)), r, |p2: XC|
                        bind(xcadd(p2, (cint(1), true)), r, |z2: XC|
                            exists|lr1: Result<XC, FendError>|
                                ln_outcome(f, z1.0, lr1) && bind(lr1, r, |a: XC|
                                    exists|lr2: Result<XC, FendError>|
                                        ln_outcome(f, z2.0, lr2) && bind(lr2, r, |b: XC|
                                            bind(xcadd((a.0, a.1 && z1.1), xcneg((b.0, b.1 && z2.1))), r, |d: XC|
                                                bind(xcmul(half_i, d), r, |m: XC|
                                                    r == Ok::<CRat, FendError>(m.0))))))))))
    }
}

/// Asks `f` for the value of `k` at `x`.
fn ask<F: Fn(RealFn, Real) -> Result<Exact<Real>, FendError>>(f: &F, k: RealFn, x: Real) -> (r:
    Result<Exact<Real>, FendError>)
    requires
        total(*f),
    ensures
        gives(*f, k, real_of(x@), r),
{
    proof {
        use_type_invariant(&x);
        lemma_real_of(x);
    }
    f(k, x)
}

impl Complex {
    /// The exponential, `e^(a + bi) = e^a · (cos b + i · sin b)`.
    pub fn exp<F: Fn(RealFn, Real) -> Result<Exact<Real>, FendError>>(self, f: &F) -> (r: Result<
        Exact<Complex>,
        FendError,
    >)
        requires
            total(*f),
        ensures
            exp_outcome(*f, self@, xcres(r)),
    {
        // e^(a + bi) = e^a * e^(bi) = e^a * (cos(b) + i * sin(b))
        let r = ask(f, RealFn::Exp, self.real)?;
        let exact = r.exact;
        let c = ask(f, RealFn::Cos, self.imag)?;
        let re = r.mul(c)?;
        let s = ask(f, RealFn::Sin, self.imag)?;
        let im = r.mul(s)?;
        Ok(Exact::new(Complex { real: re.value, imag: im.value }, exact))
    }

    /// An exact-or-approximate real as a complex number.
    fn from_exact(x: Exact<Real>) -> (r: Exact<Complex>)
        ensures
            xcview(r) == creal(xview(x)),
    {
        Exact::new(Complex::from_real(x.value), x.exact)
    }

    /// The sine, `sin(a + bi) = sin a · cosh b + i · cos a · sinh b`.
    pub fn sin<F: Fn(RealFn, Real) -> Result<Exact<Real>, FendError>>(self, f: &F) -> (r: Result<
        Exact<Complex>,
        FendError,
    >)
        requires
            total(*f),
        ensures
            sin_outcome(*f, self@, xcres(r)),
    {
        if self.imag.is_zero() {
            return Ok(Complex::from_exact(ask(f, RealFn::Sin, self.real)?));
        }
        // sin(a + bi) = sin(a) * cosh(b) + i * cos(a) * sinh(b)
        let cosh = Exact::new(ask(f, RealFn::Cosh, self.imag)?.value, false);
        let sinh = Exact::new(ask(f, RealFn::Sinh, self.imag)?.value, false);
        let re = ask(f, RealFn::Sin, self.real)?.mul(cosh)?;
        let im = ask(f, RealFn::Cos, self.real)?.mul(sinh)?;
        Ok(Exact::new(Complex { real: re.value, imag: im.value }, re.exact && im.exact))
    }

    /// The cosine, `cos(a + bi) = cos a · cosh b - i · sin a · sinh b`.
    pub fn cos<F: Fn(RealFn, Real) -> Result<Exact<Real>, FendError>>(self, f: &F) -> (r: Result<
        Exact<Complex>,
        FendError,
    >)
        requires
            total(*f),
        ensures
            cos_outcome(*f, self@, xcres(r)),
    {
        if self.imag.is_zero() {
            return Ok(Complex::from_exact(ask(f, RealFn::Cos, self.real)?));
        }
        // cos(a + bi) = cos(a) * cosh(b) - i * sin(a) * sinh(b)
        let cosh = Exact::new(ask(f, RealFn::Cosh, self.imag)?.value, false);
        let sinh = Exact::new(ask(f, RealFn::Sinh, self.imag)?.value, false);
        let re = ask(f, RealFn::Cos, self.real)?.mul(cosh)?;
        let im = ask(f, RealFn::Sin, self.real)?.mul(sinh)?.neg();
        Ok(Exact::new(Complex { real: re.value, imag: im.value }, re.exact && im.exact))
    }

    /// The tangent, as the quotient of the sine and the cosine.
    pub fn tan<F: Fn(RealFn, Real) -> Result<Exact<Real>, FendError>>(self, f: &F) -> (r: Result<
        Exact<Complex>,
        FendError,
    >)
        requires
            total(*f),
        ensures
            tan_outcome(*f, self@, xcres(r)),
    {
        let num = self.sin(f)?;
        let den = self.cos(f)?;
        num.div(den)
    }

    /// The hyperbolic sine, `sinh(a + bi) = sinh a · cos b + i · cosh a · sin b`.
    pub fn sinh<F: Fn(RealFn, Real) -> Result<Exact<Real>, FendError>>(self, f: &F) -> (r: Result<
        Complex,
        FendError,
    >)
        requires
            total(*f),
        ensures
            sinh_outcome(*f, self@, cres(r)),
    {
        if self.imag.is_zero() {
            return Ok(Complex::from_real(ask(f, RealFn::Sinh, self.real)?.value));
        }
        // sinh(a+bi)=sinh(a)cos(b)+icosh(a)sin(b)
        let sinh = Exact::new(ask(f, RealFn::Sinh, self.real)?.value, false);
        let cos = ask(f, RealFn::Cos, self.imag)?;
        let cosh = Exact::new(ask(f, RealFn::Cosh, self.real)?.value, false);
        let sin = ask(f, RealFn::Sin, self.imag)?;
        Ok(Complex { real: sinh.mul(cos)?.value, imag: cosh.mul(sin)?.value })
    }

    /// The hyperbolic cosine, `cosh(a + bi) = cosh a · cos b + i · sinh a · sin b`.
    pub fn cosh<F: Fn(RealFn, Real) -> Result<Exact<Real>, FendError>>(self, f: &F) -> (r: Result<
        Complex,
        FendError,
    >)
        requires
            total(*f),
        ensures
            cosh_outcome(*f, self@, cres(r)),
    {
        if self.imag.is_zero() {
            return Ok(Complex::from_real(ask(f, RealFn::Cosh, self.real)?.value));
        }
        // cosh(a+bi)=cosh(a)cos(b)+isinh(a)sin(b)
        let cosh = Exact::new(ask(f, RealFn::Cosh, self.real)?.value, false);
        let cos = ask(f, RealFn::Cos, self.imag)?;
        let sinh = Exact::new(ask(f, RealFn::Sinh, self.real)?.value, false);
        let sin = ask(f, RealFn::Sin, self.imag)?;
        Ok(Complex { real: cosh.mul(cos)?.value, imag: sinh.mul(sin)?.value })
    }

    /// The hyperbolic tangent, as the quotient of the hyperbolic sine and cosine.
    pub fn tanh<F: Fn(RealFn, Real) -> Result<Exact<Real>, FendError>>(self, f: &F) -> (r: Result<
        Complex,
        FendError,
    >)
        requires
            total(*f),
        ensures
            tanh_outcome(*f, self@, cres(r)),
    {
        if self.imag.is_zero() {
            return Ok(Complex::from_real(ask(f, RealFn::Tanh, self.real)?.value));
        }
        // tanh(a+bi)=sinh(a+bi)/cosh(a+bi)
        let n = Exact::new(self.sinh(f)?, false);
        let d = Exact::new(self.cosh(f)?, false);
        Ok(n.div(d)?.value)
    }

    /// The argument (angle) of the number, approximate.
    pub fn arg<F: Fn(RealFn, Real) -> Result<Exact<Real>, FendError>>(self, f: &F) -> (r: Result<
        Exact<Real>,
        FendError,
    >)
        requires
            total(*f),
        ensures
            arg_outcome(*f, self@, xres(r)),
    {
        proof {
            use_type_invariant(&self.real);
            lemma_real_of(self.real);
        }
        Ok(Exact::new(ask(f, RealFn::Atan2(self.real), self.imag)?.value, false))
    }

    /// The natural logarithm: the real one for positive reals, otherwise
    /// `ln z = ln |z| + i · arg z`.
    pub fn ln<F: Fn(RealFn, Real) -> Result<Exact<Real>, FendError>>(self, f: &F) -> (r: Result<
        Exact<Complex>,
        FendError,
    >)
        requires
            total(*f),
        ensures
            ln_outcome(*f, self@, xcres(r)),
    {
        let zero = Real::zero();
        if self.imag.is_zero() && zero.lt(&self.real) {
            return Ok(Complex::from_exact(ask(f, RealFn::Ln, self.expect_real()?)?));
        }
        // ln(z) = ln(|z|) + i * arg(z)
        let abs = self.abs()?;
        let re = ask(f, RealFn::Ln, abs.value)?.combine(abs.exact);
        let arg = self.arg(f)?;
        Ok(Exact::new(Complex { real: re.value, imag: arg.value }, re.exact && arg.exact))
    }

    /// The logarithm to the given base, `ln z / ln base`.
    pub fn log<F: Fn(RealFn, Real) -> Result<Exact<Real>, FendError>>(
        self,
        base: Complex,
        f: &F,
    ) -> (r: Result<Complex, FendError>)
        requires
            total(*f),
        ensures
            log_outcome(*f, self@, base@, cres(r)),
    {
        // log_n(z) = ln(z) / ln(n)
        let ln = self.ln(f)?;
        let ln2 = base.ln(f)?;
        Ok(ln.div(ln2)?.value)
    }

    /// The logarithm to base two.
    pub fn log2<F: Fn(RealFn, Real) -> Result<Exact<Real>, FendError>>(self, f: &F) -> (r: Result<
        Complex,
        FendError,
    >)
        requires
            total(*f),
        ensures
            log_fixed_outcome(*f, self@, RealFn::Log2, 2, cres(r)),
    {
        let zero = Real::zero();
        if self.imag.is_zero() && zero.lt(&self.real) {
            Ok(Complex::from_real(ask(f, RealFn::Log2, self.expect_real()?)?.value))
        } else {
            self.log(Complex::from_u64(2), f)
        }
    }

    /// The logarithm to base ten.
    pub fn log10<F: Fn(RealFn, Real) -> Result<Exact<Real>, FendError>>(self, f: &F) -> (r: Result<
        Complex,
        FendError,
    >)
        requires
            total(*f),
        ensures
            log_fixed_outcome(*f, self@, RealFn::Log10, 10, cres(r)),
    {
        let zero = Real::zero();
        if self.imag.is_zero() && zero.lt(&self.real) {
            Ok(Complex::from_real(ask(f, RealFn::Log10, self.expect_real()?)?.value))
        } else {
            self.log(Complex::from_u64(10), f)
        }
    }

    /// The inverse hyperbolic sine of a real number.
    pub fn asinh<F: Fn(RealFn, Real) -> Result<Exact<Real>, FendError>>(self, f: &F) -> (r: Result<
        Complex,
        FendError,
    >)
        requires
            total(*f),
        ensures
            real_only_outcome(*f, self@, RealFn::Asinh, cres(r)),
    {
        Ok(Complex::from_real(ask(f, RealFn::Asinh, self.expect_real()?)?.value))
    }

    /// The inverse hyperbolic cosine of a real number.
    pub fn acosh<F: Fn(RealFn, Real) -> Result<Exact<Real>, FendError>>(self, f: &F) -> (r: Result<
        Complex,
        FendError,
    >)
        requires
            total(*f),
        ensures
            real_only_outcome(*f, self@, RealFn::Acosh, cres(r)),
    {
        Ok(Complex::from_real(ask(f, RealFn::Acosh, self.expect_real()?)?.value))
    }

    /// The inverse hyperbolic tangent of a real number.
    pub fn atanh<F: Fn(RealFn, Real) -> Result<Exact<Real>, FendError>>(self, f: &F) -> (r: Result<
        Complex,
        FendError,
    >)
        requires
            total(*f),
        ensures
            real_only_outcome(*f, self@, RealFn::Atanh, cres(r)),
    {
        Ok(Complex::from_real(ask(f, RealFn::Atanh, self.expect_real()?)?.value))
    }

    /// `e^(w · ln self)`, exact only when the logarithm, the product and the exponential are.
    pub fn exp_of_log<F: Fn(RealFn, Real) -> Result<Exact<Real>, FendError>>(
        self,
        w: Complex,
        f: &F,
    ) -> (r: Result<Exact<Complex>, FendError>)
        requires
            total(*f),
        ensures
            exp_log_outcome(*f, self@, w@, xcres(r)),
    {
        // z^w = e^(w * ln(z))
        let lr = self.ln(f);
        let exponent = lr?.mul(&Exact::new(w, true))?;
        let er = exponent.value.exp(f);
        let r = match er {
            Ok(x) => Ok(x.combine(exponent.exact)),
            Err(err) => Err(err),
        };
        // the logarithm and the exponential taken are the witnesses of the outcome
        assert(ln_outcome(*f, self@, xcres(lr)));
        assert(exp_outcome(*f, xcview(exponent).0, xcres(er)));
        r
    }

    /// A power with a fractional exponent: the real power, as `f` gives it, for a
    /// non-negative real base and a real exponent, otherwise `e^(n · ln self)`.
    pub fn frac_pow<F: Fn(RealFn, Real) -> Result<Exact<Real>, FendError>>(
        self,
        n: Complex,
        f: &F,
    ) -> (r: Result<Exact<Complex>, FendError>)
        requires
            total(*f),
        ensures
            frac_pow_outcome(*f, self@, n@, xcres(r)),
    {
        let zero = Real::zero();
        if self.imag.is_zero() && n.imag.is_zero() && zero.le(&self.real) {
            proof {
                use_type_invariant(&n.real);
                lemma_real_of(n.real);
            }
            Ok(Complex::from_exact(ask(f, RealFn::Pow(n.real), self.real)?))
        } else {
            self.exp_of_log(n, f)
        }
    }

    /// `ln(i·z + √(1 - z²))`, from which the inverse sine and cosine are found.
    pub fn asin_ln<F: Fn(RealFn, Real) -> Result<Exact<Real>, FendError>>(self, f: &F) -> (r:
        Result<Exact<Complex>, FendError>)
        requires
            total(*f),
        ensures
            asin_ln_outcome(*f, self@, xcres(r)),
    {
        let half = Exact::new(Complex::from_u64(1), true).div(Exact::new(Complex::from_u64(2), true))?;
        let exact = Exact::new(self, true);
        let i = Exact::new(Complex::i(), true);
        let d = Exact::new(Complex::from_u64(1), true).add(exact.mul(&exact)?.neg())?;
        let sr = d.value.frac_pow(half.value, f);
        assert(frac_pow_outcome(*f, xcview(d).0, xcview(half).0, xcres(sr)));
        let sqrt = sr?.combine(d.exact);
        let t = i.mul(&exact)?;
        let u = t.add(sqrt)?;
        let lr = u.value.ln(f);
        assert(ln_outcome(*f, xcview(u).0, xcres(lr)));
        Ok(lr?.combine(u.exact))
    }

    /// The number `π`, as `f` gives it.
    pub fn pi<F: Fn(RealFn, Real) -> Result<Exact<Real>, FendError>>(f: &F) -> (r: Result<
        Complex,
        FendError,
    >)
        requires
            total(*f),
        ensures
            pi_outcome(*f, cres(r)),
    {
        Ok(Complex::from_real(ask(f, RealFn::Pi, Real::zero())?.value))
    }

    /// The inverse sine: the real one strictly inside the unit interval, otherwise
    /// `asin z = -i · ln(i·z + √(1 - z²))`.
    pub fn asin<F: Fn(RealFn, Real) -> Result<Exact<Real>, FendError>>(self, f: &F) -> (r: Result<
        Complex,
        FendError,
    >)
        requires
            total(*f),
        ensures
            asin_outcome(*f, self@, cres(r)),
    {
        // Real asin is defined for -1 <= x <= 1
        let one = Real::one();
        let minus_one = Real::one().neg();
        if self.imag.is_zero() && minus_one.lt(&self.real) && self.real.lt(&one) {
            Ok(Complex::from_real(ask(f, RealFn::Asin, self.expect_real()?)?.value))
        } else {
            // asin(z) = -i * ln(i * z + sqrt(1 - z^2))
            Ok(self.asin_ln(f)?.mul(&Exact::new(Complex::i(), true))?.neg().value)
        }
    }

    /// The inverse cosine: the real one strictly inside the unit interval, otherwise
    /// `acos z = π/2 + i · ln(i·z + √(1 - z²))`.
    pub fn acos<F: Fn(RealFn, Real) -> Result<Exact<Real>, FendError>>(self, f: &F) -> (r: Result<
        Complex,
        FendError,
    >)
        requires
            total(*f),
        ensures
            acos_outcome(*f, self@, cres(r)),
    {
        // Real acos is defined for -1 <= x <= 1
        let one = Real::one();
        let minus_one = Real::one().neg();
        if self.imag.is_zero() && minus_one.lt(&self.real) && self.real.lt(&one) {
            Ok(Complex::from_real(ask(f, RealFn::Acos, self.expect_real()?)?.value))
        } else {
            // acos(z) = pi/2 + i * ln(i * z + sqrt(1 - z^2))
            let half_pi = Exact::new(Complex::pi(f)?, true).div(
                Exact::new(Complex::from_u64(2), true),
            )?;
            Ok(half_pi.add(self.asin_ln(f)?.mul(&Exact::new(Complex::i(), true))?)?.value)
        }
    }

    /// The inverse tangent: the real one for a real number, otherwise
    /// `atan z = i/2 · (ln(1 - i·z) - ln(1 + i·z))`.
    pub fn atan<F: Fn(RealFn, Real) -> Result<Exact<Real>, FendError>>(self, f: &F) -> (r: Result<
        Complex,
        FendError,
    >)
        requires
            total(*f),
        ensures
            atan_outcome(*f, self@, cres(r)),
    {
        // Real atan is defined for all real numbers
        if self.imag.is_zero() {
            return Ok(Complex::from_real(ask(f, RealFn::Atan, self.expect_real()?)?.value));
        }
        // i/2 * (ln(-iz+1) - ln(iz+1))
        let half_i = Exact::new(Complex::i(), true).div(Exact::new(Complex::from_u64(2), true))?;
        let z1 = Exact::new(self, true).mul(&Exact::new(Complex::i().neg(), true))?.add(
            Exact::new(Complex::from_u64(1), true),
        )?;
        let z2 = Exact::new(self, true).mul(&Exact::new(Complex::i(), true))?.add(
            Exact::new(Complex::from_u64(1), true),
        )?;
        let l1 = z1.value.ln(f)?.combine(z1.exact);
        let l2 = z2.value.ln(f)?.combine(z2.exact);
        Ok(half_i.mul(&l1.add(l2.neg())?)?.value)
    }
}

/// The cosine of a real number is the real cosine of its real part, as `f` gives it: the
/// outcome is `f`'s answer for `Cos` at that number, as a complex number with a zero imaginary
/// part and `f`'s exactness, or `f`'s error.
pub proof fn law_cos_of_real<F: Fn(RealFn, Real) -> Result<Exact<Real>, FendError>>(
    f: F,
    z: CRat,
    r: Result<XC, FendError>,
)
    requires
        z.is_real(),
        cos_outcome(f, z, r),
    ensures
        exists|o: Result<Exact<Real>, FendError>|
            #[trigger] gives(f, RealFn::Cos, real_of(z.re), o) && match o {
                Err(e) => r == Err::<XC, FendError>(e),
                Ok(c) => r == Ok::<XC, FendError>((cr(c.value@), c.exact)),
            },
{
}

/// The sine of a real number is the real sine of its real part, as `f` gives it.
pub proof fn law_sin_of_real<F: Fn(RealFn, Real) -> Result<Exact<Real>, FendError>>(
    f: F,
    z: CRat,
    r: Result<XC, FendError>,
)
    requires
        z.is_real(),
        sin_outcome(f, z, r),
    ensures
        exists|o: Result<Exact<Real>, FendError>|
            #[trigger] gives(f, RealFn::Sin, real_of(z.re), o) && match o {
                Err(e) => r == Err::<XC, FendError>(e),
                Ok(c) => r == Ok::<XC, FendError>((cr(c.value@), c.exact)),
            },
{
}

/// The hyperbolic cosine of a real number is the real hyperbolic cosine of its real part, as
/// `f` gives it, as a complex number with a zero imaginary part, or `f`'s error.
pub proof fn law_cosh_of_real<F: Fn(RealFn, Real) -> Result<Exact<Real>, FendError>>(
    f: F,
    z: CRat,
    r: Result<CRat, FendError>,
)
    requires
        z.is_real(),
        cosh_outcome(f, z, r),
    ensures
        exists|o: Result<Exact<Real>, FendError>|
            #[trigger] gives(f, RealFn::Cosh, real_of(z.re), o) && match o {
                Err(e) => r == Err::<CRat, FendError>(e),
                Ok(c) => r == Ok::<CRat, FendError>(cr(c.value@)),
            },
{
}

/// The hyperbolic sine of a real number is the real hyperbolic sine of its real part, as `f`
/// gives it.
pub proof fn law_sinh_of_real<F: Fn(RealFn, Real) -> Result<Exact<Real>, FendError>>(
    f: F,
    z: CRat,
    r: Result<CRat, FendError>,
)
    requires
        z.is_real(),
        sinh_outcome(f, z, r),
    ensures
        exists|o: Result<Exact<Real>, FendError>|
            #[trigger] gives(f, RealFn::Sinh, real_of(z.re), o) && match o {
                Err(e) => r == Err::<CRat, FendError>(e),
                Ok(c) => r == Ok::<CRat, FendError>(cr(c.value@)),
            },
{
}

/// The argument of `z` is the angle of the point `(re, im)`: the outcome is `f`'s answer for
/// `atan2(im, re)`, that is `Atan2(re)` at `im`, approximate, or `f`'s error.
pub proof fn law_arg_is_angle_of_point<F: Fn(RealFn, Real) -> Result<Exact<Real>, FendError>>(
    f: F,
    z: CRat,
    r: Result<XRat, FendError>,
)
    requires
        arg_outcome(f, z, r),
    ensures
        exists|o: Result<Exact<Real>, FendError>|
            #[trigger] gives(f, RealFn::Atan2(real_of(z.re)), real_of(z.im), o) && match o {
                Err(e) => r == Err::<XRat, FendError>(e),
                Ok(v) => r == Ok::<XRat, FendError>((v.value@, false)),
            },
{
}

/// The imaginary part of the logarithm of a number other than a positive real is the angle
/// of the point `(re, im)`, as `f` gives `atan2(im, re)`.
pub proof fn law_ln_imaginary_part_is_angle<F: Fn(RealFn, Real) -> Result<Exact<Real>, FendError>>(
    f: F,
    z: CRat,
    r: Result<XC, FendError>,
)
    requires
        !positive_real(z),
        ln_outcome(f, z, r),
        r is Ok,
    ensures
        exists|o: Result<Exact<Real>, FendError>|
            #[trigger] gives(f, RealFn::Atan2(real_of(z.re)), real_of(z.im), o) && (o matches Ok(v)
                && r->Ok_0.0.im == v.value@),
{
}

/// `1 - z²`, the number whose square root the inverse sine and cosine take.
pub open spec fn one_minus_square(z: CRat) -> CRat {
    cint(1).cplus(z.ctimes(z).cneg())
}

/// Complex addition and negation respect equality of denoted numbers.
proof fn lemma_cplus_cneg_congr(a: CRat, b: CRat, b2: CRat)
    requires
        b.ceqv(b2),
    ensures
        a.cplus(b.cneg()).ceqv(a.cplus(b2.cneg())),
{
    crate::rat::lemma_neg_congr(b.re, b2.re);
    crate::rat::lemma_neg_congr(b.im, b2.im);
    crate::rat::lemma_eqv_refl_sym(a.re, a.re);
    crate::rat::lemma_eqv_refl_sym(a.im, a.im);
    crate::rat::lemma_plus_congr(a.re, b.re.negated(), a.re, b2.re.negated());
    crate::rat::lemma_plus_congr(a.im, b.im.negated(), a.im, b2.im.negated());
}

/// The square root in `asin_ln` is taken of `1 - z²`, as a power of one half: when it
/// succeeds, `f` was asked for the fractional power of a number denoting `1 - z²` to a
/// number denoting one half.
pub proof fn law_asin_ln_radicand<F: Fn(RealFn, Real) -> Result<Exact<Real>, FendError>>(
    f: F,
    z: CRat,
    r: Result<XC, FendError>,
)
    requires
        z.valid(),
        asin_ln_outcome(f, z, r),
        r is Ok,
    ensures
        exists|d: CRat, h: CRat, sr: Result<XC, FendError>|
            #[trigger] frac_pow_outcome(f, d, h, sr) && d.ceqv(one_minus_square(z)) && h.ceqv(
                cr(Rat { n: 1, d: 2 }),
            ),
{
    let one = (cint(1), true);
    let two = (cint(2), true);
    if let Ok(half) = xcdiv(one, two) {
        if let Ok(zz) = xcmul((z, true), (z, true)) {
            if let Ok(d) = xcadd(one, xcneg(zz)) {
                // the radicand
                crate::complex::lemma_xc_values((z, true), (z, true));
                crate::complex::lemma_cvalid(z, z);
                crate::complex::lemma_cvalid(zz.0, zz.0);
                crate::complex::lemma_xc_values(one, xcneg(zz));
                lemma_cplus_cneg_congr(cint(1), zz.0, z.ctimes(z));
                crate::complex::lemma_ceqv_refl_sym_trans(
                    d.0,
                    cint(1).cplus(zz.0.cneg()),
                    one_minus_square(z),
                );
                // one half
                crate::exact::lemma_x_values((rat_int(1), true), (rat_int(2), true));
                assert(rat_int(1).over(rat_int(2)).eqv(Rat { n: 1, d: 2 }));
                crate::rat::lemma_eqv_trans(half.0.re, rat_int(1).over(rat_int(2)), Rat { n: 1, d: 2 });
                crate::rat::lemma_eqv_refl_sym(rat_int(0), rat_int(0));
                let sr = choose|sr: Result<XC, FendError>| frac_pow_outcome(f, d.0, half.0, sr);
                assert(frac_pow_outcome(f, d.0, half.0, sr));
            }
        }
    }
}

} // verus!
