use crate::complex::{
    cint, cpow, lemma_ceqv_refl_sym_trans, lemma_cpow_valid, lemma_ctimes_congr, lemma_ctimes_one,
    lemma_cvalid, lemma_pow_loop, pow_n_spec, xcmul, xcres, CRat, Complex, XC,
};
use crate::elementary::{exp_log_outcome, frac_pow_outcome, total, RealFn};
use crate::error::FendError;
use crate::exact::Exact;
use crate::rat::{rat_int, Rat};
use crate::realnum::{modulo_spec, pow_spec, usize_spec, Real};
use vstd::prelude::*;

verus! {

/// `i` raised to the power `k`, for `k` in `0 .. 4`.
pub open spec fn quarter_turn(k: int) -> CRat {
    if k == 0 {
        cint(1)
    } else if k == 1 {
        CRat { re: rat_int(0), im: rat_int(1) }
    } else if k == 2 {
        CRat { re: rat_int(-1), im: rat_int(0) }
    } else {
        CRat { re: rat_int(0), im: rat_int(-1) }
    }
}

/// The power of a purely imaginary base `xi` to a real integer exponent `y` that is not a
/// `usize`: `(xi)^y = x^y · i^y`, with `i^y = i^(y mod 4)`; the factor `x^y` is left out when
/// `x` is one.
pub open spec fn imaginary_pow_spec(z: CRat, w: CRat) -> Result<XC, FendError> {
    let turn = (quarter_turn(w.re.int_value() % 4), true);
    if z.im.eqv(rat_int(1)) {
        Ok(turn)
    } else {
        match pow_spec(z.im, w.re) {
            Err(e) => Err(e),
            Ok(sq) => xcmul((CRat { re: sq, im: rat_int(0) }, true), turn),
        }
    }
}

/// Both parts of the exponent are integers.
pub open spec fn integral(w: CRat) -> bool {
    w.re.is_integer() && w.im.is_integer()
}

/// The outcome of `z` raised to the power `w`: the fractional power for an exponent with a
/// fractional part; for an integral exponent, the exact real power when base and exponent are
/// real, the exact power by repeated squaring or `(xi)^y = x^y · i^y` for a purely imaginary
/// base and a real exponent, and `e^(w · ln z)` otherwise.
pub open spec fn pow_outcome<F: Fn(RealFn, Real) -> Result<Exact<Real>, FendError>>(
    f: F,
    z: CRat,
    w: CRat,
    r: Result<XC, FendError>,
) -> bool {
    if !integral(w) {
        frac_pow_outcome(f, z, w, r)
    } else if z.is_real() && w.is_real() {
        r == match pow_spec(z.re, w.re) {
            Ok(p) => Ok::<XC, FendError>((CRat { re: p, im: rat_int(0) }, true)),
            Err(e) => Err(e),
        }
    } else if z.re.is_zero() && w.is_real() {
        match usize_spec(w.re) {
            Ok(n) => r == pow_n_spec(z, n as nat),
            Err(_) => r == imaginary_pow_spec(z, w),
        }
    } else {
        exp_log_outcome(f, z, w, r)
    }
}

/// A power whose exponent has a fractional part is the fractional power: `pow` and
/// `frac_pow` admit the same outcomes.
pub proof fn law_pow_fractional_exponent<F: Fn(RealFn, Real) -> Result<Exact<Real>, FendError>>(
    f: F,
    z: CRat,
    w: CRat,
    r: Result<XC, FendError>,
)
    requires
        !integral(w),
    ensures
        pow_outcome(f, z, w, r) == frac_pow_outcome(f, z, w, r),
{
}

impl Complex {
    /// `self` raised to the power `rhs`.
    ///
    /// Integral real exponents of real and of purely imaginary bases are computed exactly.
    /// Other powers go through logarithms, with the values of real functions that `f` gives:
    /// `frac_pow` for exponents with a fractional part, `e^(rhs · ln self)` otherwise.
    pub fn pow<F: Fn(RealFn, Real) -> Result<Exact<Real>, FendError>>(
        self,
        rhs: Complex,
        f: &F,
    ) -> (r: Result<Exact<Complex>, FendError>)
        requires
            total(*f),
        ensures
            pow_outcome(*f, self@, rhs@, xcres(r)),
    {
        if !rhs.real.is_integer() || !rhs.imag.is_integer() {
            return self.frac_pow(rhs, f);
        }
        if self.imag.is_zero() && rhs.imag.is_zero() {
            let p = self.real.pow(rhs.real)?;
            return Ok(Exact::new(Complex { real: p, imag: Real::zero() }, true));
        }
        let rem = rhs.real.modulo(Real::from_u64(4));
        // Reduced case: (ix)^y = x^y * i^y
        if self.real.is_zero() && rhs.imag.is_zero() {
            if let Ok(n) = rhs.real.try_as_usize() {
                return self.pow_n(n);
            }
            proof {
                assert(modulo_spec(rhs@.re, rat_int(4)) == Ok::<Rat, FendError>(
                    rat_int(rhs@.re.int_value() % 4),
                ));
            }
            let turn = match rem {
                Ok(q) => match q.try_as_usize() {
                    Ok(0) => Complex::from_u64(1),
                    Ok(1) => Complex { real: Real::zero(), imag: Real::one() },
                    Ok(2) => Complex { real: Real::one().neg(), imag: Real::zero() },
                    Ok(3) => Complex { real: Real::zero(), imag: Real::one().neg() },
                    Ok(_) | Err(_) => {
                        proof {
                            let k = rhs@.re.int_value() % 4;
                            assert(0 <= k < 4);
                            assert(usize_spec(rat_int(k)) == Ok::<usize, FendError>(k as usize));
                        }
                        unreached()
                    },
                },
                Err(_) => unreached(),
            };
            let mut result = Exact::new(turn, true);
            if !self.imag.is_definitely_one() {
                let scale = self.imag.pow(rhs.real)?;
                result = Exact::new(Complex::from_real(scale), true).mul(&result)?;
            }
            return Ok(result);
        }
        // z^w = e^(w * ln(z))
        self.exp_of_log(rhs, f)
    }
}

/// Multiplying by a number `z` with a zero real part and an imaginary part of one turns
/// `w` a quarter: `z · w = -w.im + w.re · i`.
proof fn lemma_times_unit(z: CRat, w: CRat)
    requires
        z.valid(),
        w.valid(),
        z.re.is_zero(),
        z.im.eqv(rat_int(1)),
    ensures
        z.ctimes(w).ceqv(CRat { re: w.im.negated(), im: w.re }),
{
    let (zr, zi, wr, wi) = (z.re, z.im, w.re, w.im);
    let p = z.ctimes(w);
    assert(p.re.n * wi.d == (-wi.n) * p.re.d) by (nonlinear_arith)
        requires
            p.re.n == (zr.n * wr.n) * (zi.d * wi.d) + (-(zi.n * wi.n)) * (zr.d * wr.d),
            p.re.d == (zr.d * wr.d) * (zi.d * wi.d),
            zr.n == 0,
            zi.n == zi.d,
    ;
    assert(p.im.n * wr.d == wr.n * p.im.d) by (nonlinear_arith)
        requires
            p.im.n == (zr.n * wi.n) * (zi.d * wr.d) + (zi.n * wr.n) * (zr.d * wi.d),
            p.im.d == (zr.d * wi.d) * (zi.d * wr.d),
            zr.n == 0,
            zi.n == zi.d,
    ;
}

/// Powers of the imaginary unit repeat with period four: `i^y = i^(y mod 4)` for every
/// integer `y`, whether the power is computed by repeated squaring (non-negative `y` that
/// fit a `usize`) or read off `y mod 4` (the others).
pub proof fn law_imaginary_unit_powers(z: CRat, w: CRat)
    requires
        z.valid(),
        z.re.is_zero(),
        z.im.eqv(rat_int(1)),
        w.valid(),
        integral(w),
    ensures
        usize_spec(w.re) matches Ok(n) ==> (pow_n_spec(z, n as nat) matches Ok(x) ==> x.0.ceqv(
            quarter_turn(w.re.int_value() % 4),
        )),
        usize_spec(w.re) is Err ==> imaginary_pow_spec(z, w) == Ok::<XC, FendError>(
            (quarter_turn(w.re.int_value() % 4), true),
        ),
{
    if let Ok(n) = usize_spec(w.re) {
        let k = n as nat;
        lemma_unit_cpow(z, k);
        if k > 0 {
            lemma_cpow_valid(z, k);
            lemma_ctimes_one(cpow(z, k));
            lemma_cvalid(cint(1), cpow(z, k));
            lemma_pow_loop(z, k, (cint(1), true), (z, true), k);
        }
        if let Ok(x) = pow_n_spec(z, k) {
            if k == 0 {
                lemma_ceqv_refl_sym_trans(cint(1), cint(1), cint(1));
            }
            lemma_cpow_valid(z, k);
            lemma_ceqv_refl_sym_trans(x.0, cpow(z, k), quarter_turn((k % 4) as int));
            assert(w.re.int_value() == k);
        }
    }
}

/// `z^k` is the quarter turn `k mod 4`, for `z` with a zero real part and an imaginary part
/// of one.
proof fn lemma_unit_cpow(z: CRat, k: nat)
    requires
        z.valid(),
        z.re.is_zero(),
        z.im.eqv(rat_int(1)),
    ensures
        cpow(z, k).ceqv(quarter_turn((k % 4) as int)),
    decreases k,
{
    if k == 0 {
        lemma_ceqv_refl_sym_trans(cint(1), cint(1), cint(1));
    } else {
        let m = (k - 1) as nat;
        let t = quarter_turn((m % 4) as int);
        lemma_unit_cpow(z, m);
        lemma_ceqv_refl_sym_trans(z, z, z);
        lemma_ctimes_congr(z, cpow(z, m), z, t);
        lemma_times_unit(z, t);
        lemma_cvalid(z, t);
        let turned = CRat { re: t.im.negated(), im: t.re };
        assert(turned.ceqv(quarter_turn((k % 4) as int)));
        lemma_ceqv_refl_sym_trans(z.ctimes(cpow(z, m)), z.ctimes(t), turned);
        lemma_ceqv_refl_sym_trans(cpow(z, k), turned, quarter_turn((k % 4) as int));
    }
}

} // verus!
