use crate::error::FendError;
use crate::exact::{lemma_x_values, xadd, xdiv, xmul, xneg, xview, Exact, XRat};
use crate::rat::{
    lemma_assoc, lemma_comm, lemma_distrib_both, lemma_eqv_refl_sym, lemma_eqv_trans,
    lemma_minus_congr, lemma_neg_plus, lemma_plus_congr, lemma_swap_summands,
    lemma_times_congr, lemma_valid_ops, rat_int, Rat,
};
use crate::realnum::{
    bitwise_spec, combination_spec, factorial_spec, modulo_spec, permutation_spec, usize_spec, BitwiseBop,
    Real,
};
use vstd::prelude::*;

verus! {

/// A complex number `re + im·i` with rational parts, as pairs of integers.
pub struct CRat {
    pub re: Rat,
    pub im: Rat,
}

impl CRat {
    pub open spec fn valid(self) -> bool {
        self.re.valid() && self.im.valid()
    }

    /// Both parts denote the same numbers.
    pub open spec fn ceqv(self, o: CRat) -> bool {
        self.re.eqv(o.re) && self.im.eqv(o.im)
    }

    pub open spec fn cplus(self, o: CRat) -> CRat {
        CRat { re: self.re.plus(o.re), im: self.im.plus(o.im) }
    }

    pub open spec fn cneg(self) -> CRat {
        CRat { re: self.re.negated(), im: self.im.negated() }
    }

    /// `(a + bi)(c + di) = (ac - bd) + (ad + bc)i`.
    pub open spec fn ctimes(self, o: CRat) -> CRat {
        CRat {
            re: self.re.times(o.re).minus(self.im.times(o.im)),
            im: self.re.times(o.im).plus(self.im.times(o.re)),
        }
    }

    pub open spec fn conj(self) -> CRat {
        CRat { re: self.re, im: self.im.negated() }
    }

    pub open spec fn is_real(self) -> bool {
        self.im.is_zero()
    }
}

/// The integer `i` as a complex number.
pub open spec fn cint(i: int) -> CRat {
    CRat { re: rat_int(i), im: rat_int(0) }
}

/// `z` raised to the natural power `n`.
pub open spec fn cpow(z: CRat, n: nat) -> CRat
    decreases n,
{
    if n == 0 {
        cint(1)
    } else {
        z.ctimes(cpow(z, (n - 1) as nat))
    }
}

pub proof fn lemma_cvalid(a: CRat, b: CRat)
    requires
        a.valid(),
        b.valid(),
    ensures
        a.ctimes(b).valid(),
        a.cplus(b).valid(),
        a.cneg().valid(),
        a.conj().valid(),
{
    lemma_valid_ops(a.re, b.re);
    lemma_valid_ops(a.im, b.im);
    lemma_valid_ops(a.re, b.im);
    lemma_valid_ops(a.im, b.re);
    lemma_valid_ops(a.re.times(b.re), a.im.times(b.im));
    lemma_valid_ops(a.re.times(b.im), a.im.times(b.re));
}

pub proof fn lemma_ceqv_refl_sym_trans(a: CRat, b: CRat, c: CRat)
    ensures
        a.ceqv(a),
        a.ceqv(b) ==> b.ceqv(a),
        b.valid() && a.ceqv(b) && b.ceqv(c) ==> a.ceqv(c),
{
    lemma_eqv_refl_sym(a.re, b.re);
    lemma_eqv_refl_sym(a.im, b.im);
    if b.valid() && a.ceqv(b) && b.ceqv(c) {
        lemma_eqv_trans(a.re, b.re, c.re);
        lemma_eqv_trans(a.im, b.im, c.im);
    }
}

/// Complex multiplication respects equality of denoted numbers.
pub proof fn lemma_ctimes_congr(a: CRat, b: CRat, a2: CRat, b2: CRat)
    requires
        a.ceqv(a2),
        b.ceqv(b2),
    ensures
        a.ctimes(b).ceqv(a2.ctimes(b2)),
{
    lemma_times_congr(a.re, b.re, a2.re, b2.re);
    lemma_times_congr(a.im, b.im, a2.im, b2.im);
    lemma_times_congr(a.re, b.im, a2.re, b2.im);
    lemma_times_congr(a.im, b.re, a2.im, b2.re);
    lemma_minus_congr(a.re.times(b.re), a.im.times(b.im), a2.re.times(b2.re), a2.im.times(b2.im));
    lemma_plus_congr(a.re.times(b.im), a.im.times(b.re), a2.re.times(b2.im), a2.im.times(b2.re));
}

/// Complex multiplication is commutative.
pub proof fn lemma_ctimes_comm(a: CRat, b: CRat)
    ensures
        a.ctimes(b).ceqv(b.ctimes(a)),
{
    lemma_comm(a.re, b.re);
    lemma_comm(a.im, b.im);
    lemma_comm(a.re, b.im);
    lemma_comm(a.im, b.re);
    lemma_eqv_refl_sym(a.ctimes(b).re, a.ctimes(b).re);
    lemma_comm(a.re.times(b.im), a.im.times(b.re));
}

/// Complex multiplication is associative.
pub proof fn lemma_ctimes_assoc(a: CRat, b: CRat, c: CRat)
    requires
        a.valid(),
        b.valid(),
        c.valid(),
    ensures
        a.ctimes(b).ctimes(c).ceqv(a.ctimes(b.ctimes(c))),
{
    let (ar, ai, br, bi, cr, ci) = (a.re, a.im, b.re, b.im, c.re, c.im);
    let x = ar.times(br);
    let y = ai.times(bi);
    let u = ar.times(bi);
    let v = ai.times(br);
    let m = br.times(cr);
    let n = bi.times(ci);
    let k = br.times(ci);
    let l = bi.times(cr);
    lemma_valid_ops(ar, br);
    lemma_valid_ops(ai, bi);
    lemma_valid_ops(ar, bi);
    lemma_valid_ops(ai, br);
    lemma_valid_ops(br, cr);
    lemma_valid_ops(bi, ci);
    lemma_valid_ops(br, ci);
    lemma_valid_ops(bi, cr);
    lemma_valid_ops(x, y);
    lemma_valid_ops(u, v);
    lemma_valid_ops(m, n);
    lemma_valid_ops(k, l);
    // products of three factors, both ways round
    lemma_assoc(ar, br, cr);
    lemma_assoc(ai, bi, cr);
    lemma_assoc(ar, bi, ci);
    lemma_assoc(ai, br, ci);
    lemma_assoc(ar, br, ci);
    lemma_assoc(ai, bi, ci);
    lemma_assoc(ar, bi, cr);
    lemma_assoc(ai, br, cr);
    let xcr = x.times(cr);
    let ycr = y.times(cr);
    let uci = u.times(ci);
    let vci = v.times(ci);
    let xci = x.times(ci);
    let yci = y.times(ci);
    let ucr = u.times(cr);
    let vcr = v.times(cr);
    let am = ar.times(m);
    let an = ar.times(n);
    let ak = ar.times(k);
    let al = ar.times(l);
    let bm = ai.times(m);
    let bn = ai.times(n);
    let bk = ai.times(k);
    let bl = ai.times(l);
    lemma_valid_ops(x, cr);
    lemma_valid_ops(y, cr);
    lemma_valid_ops(u, ci);
    lemma_valid_ops(v, ci);
    lemma_valid_ops(x, ci);
    lemma_valid_ops(y, ci);
    lemma_valid_ops(u, cr);
    lemma_valid_ops(v, cr);
    lemma_valid_ops(ar, m);
    lemma_valid_ops(ar, n);
    lemma_valid_ops(ar, k);
    lemma_valid_ops(ar, l);
    lemma_valid_ops(ai, m);
    lemma_valid_ops(ai, n);
    lemma_valid_ops(ai, k);
    lemma_valid_ops(ai, l);
    // real part
    let lre = a.ctimes(b).ctimes(c).re;
    let rre = a.ctimes(b.ctimes(c)).re;
    assert(lre == x.minus(y).times(cr).minus(u.plus(v).times(ci)));
    assert(rre == ar.times(m.minus(n)).minus(ai.times(k.plus(l))));
    lemma_distrib_both(cr, x, y);
    lemma_distrib_both(ci, u, v);
    lemma_minus_congr(x.minus(y).times(cr), u.plus(v).times(ci), xcr.minus(ycr), uci.plus(vci));
    lemma_minus_congr(xcr, ycr, am, bl);
    lemma_plus_congr(uci, vci, an, bk);
    lemma_minus_congr(xcr.minus(ycr), uci.plus(vci), am.minus(bl), an.plus(bk));
    lemma_valid_ops(xcr, ycr);
    lemma_valid_ops(uci, vci);
    lemma_valid_ops(xcr.minus(ycr), uci.plus(vci));
    lemma_valid_ops(am, bl);
    lemma_valid_ops(an, bk);
    lemma_valid_ops(am.minus(bl), an.plus(bk));
    lemma_eqv_trans(lre, xcr.minus(ycr).minus(uci.plus(vci)), am.minus(bl).minus(an.plus(bk)));
    lemma_neg_plus(an, bk);
    lemma_neg_plus(bk, bl);
    lemma_swap_summands(am, bl.negated(), an.negated(), bk.negated());
    let p2 = am.minus(an).minus(bk.plus(bl));
    assert(am.minus(bl).minus(an.plus(bk)).eqv(p2));
    lemma_distrib_both(ar, m, n);
    lemma_distrib_both(ai, k, l);
    lemma_minus_congr(ar.times(m.minus(n)), ai.times(k.plus(l)), am.minus(an), bk.plus(bl));
    lemma_eqv_refl_sym(rre, p2);
    lemma_valid_ops(am, an);
    lemma_valid_ops(bk, bl);
    lemma_valid_ops(am.minus(an), bk.plus(bl));
    lemma_eqv_trans(lre, am.minus(bl).minus(an.plus(bk)), p2);
    lemma_eqv_trans(lre, p2, rre);
    // imaginary part
    let lim = a.ctimes(b).ctimes(c).im;
    let rim = a.ctimes(b.ctimes(c)).im;
    assert(lim == x.minus(y).times(ci).plus(u.plus(v).times(cr)));
    assert(rim == ar.times(k.plus(l)).plus(ai.times(m.minus(n))));
    lemma_distrib_both(ci, x, y);
    lemma_distrib_both(cr, u, v);
    lemma_plus_congr(x.minus(y).times(ci), u.plus(v).times(cr), xci.minus(yci), ucr.plus(vcr));
    lemma_minus_congr(xci, yci, ak, bn);
    lemma_plus_congr(ucr, vcr, al, bm);
    lemma_plus_congr(xci.minus(yci), ucr.plus(vcr), ak.minus(bn), al.plus(bm));
    lemma_valid_ops(xci, yci);
    lemma_valid_ops(ucr, vcr);
    lemma_valid_ops(xci.minus(yci), ucr.plus(vcr));
    lemma_valid_ops(ak, bn);
    lemma_valid_ops(al, bm);
    lemma_valid_ops(ak.minus(bn), al.plus(bm));
    lemma_eqv_trans(lim, xci.minus(yci).plus(ucr.plus(vcr)), ak.minus(bn).plus(al.plus(bm)));
    lemma_swap_summands(ak, bn.negated(), al, bm);
    let q2 = ak.plus(al).plus(bm.minus(bn));
    lemma_distrib_both(ar, k, l);
    lemma_distrib_both(ai, m, n);
    lemma_plus_congr(ar.times(k.plus(l)), ai.times(m.minus(n)), ak.plus(al), bm.minus(bn));
    lemma_eqv_refl_sym(rim, q2);
    lemma_valid_ops(ak, al);
    lemma_valid_ops(bm, bn);
    lemma_valid_ops(ak.plus(al), bm.minus(bn));
    lemma_eqv_trans(lim, ak.minus(bn).plus(al.plus(bm)), q2);
    lemma_eqv_trans(lim, q2, rim);
}

/// One is a neutral factor.
pub proof fn lemma_ctimes_one(z: CRat)
    requires
        z.valid(),
    ensures
        z.ctimes(cint(1)).ceqv(z),
        cint(1).ctimes(z).ceqv(z),
{
    let (r, i) = (z.re, z.im);
    let p = z.ctimes(cint(1));
    assert(p.re.n * r.d == r.n * p.re.d) by (nonlinear_arith)
        requires
            p.re.n == (r.n * 1) * (i.d * 1) + (-(i.n * 0)) * (r.d * 1),
            p.re.d == (r.d * 1) * (i.d * 1),
    ;
    assert(p.im.n * i.d == i.n * p.im.d) by (nonlinear_arith)
        requires
            p.im.n == (r.n * 0) * (i.d * 1) + (i.n * 1) * (r.d * 1),
            p.im.d == (r.d * 1) * (i.d * 1),
    ;
    lemma_ctimes_comm(z, cint(1));
    lemma_cvalid(z, cint(1));
    lemma_ceqv_refl_sym_trans(cint(1).ctimes(z), z.ctimes(cint(1)), z);
}

pub proof fn lemma_cpow_valid(z: CRat, n: nat)
    requires
        z.valid(),
    ensures
        cpow(z, n).valid(),
    decreases n,
{
    if n > 0 {
        lemma_cpow_valid(z, (n - 1) as nat);
        lemma_cvalid(z, cpow(z, (n - 1) as nat));
    }
}

/// Powers of numbers that are equal are equal.
pub proof fn lemma_cpow_congr(a: CRat, b: CRat, n: nat)
    requires
        a.ceqv(b),
    ensures
        cpow(a, n).ceqv(cpow(b, n)),
    decreases n,
{
    if n == 0 {
        lemma_ceqv_refl_sym_trans(cint(1), cint(1), cint(1));
    } else {
        lemma_cpow_congr(a, b, (n - 1) as nat);
        lemma_ctimes_congr(a, cpow(a, (n - 1) as nat), b, cpow(b, (n - 1) as nat));
    }
}

/// The `k`-th power of a square is the `2k`-th power.
pub proof fn lemma_cpow_square(b: CRat, k: nat)
    requires
        b.valid(),
    ensures
        cpow(b.ctimes(b), k).ceqv(cpow(b, 2 * k)),
    decreases k,
{
    if k == 0 {
        lemma_ceqv_refl_sym_trans(cint(1), cint(1), cint(1));
    } else {
        let k1 = (k - 1) as nat;
        let bb = b.ctimes(b);
        lemma_cvalid(b, b);
        lemma_cpow_square(b, k1);
        lemma_cpow_valid(bb, k1);
        lemma_cpow_valid(b, 2 * k1);
        lemma_cpow_valid(b, 2 * k1 + 1);
        // bb * (bb^k1) ~ bb * b^(2k1) = (b*b) * b^(2k1) ~ b * (b * b^(2k1)) = b^(2k)
        lemma_ceqv_refl_sym_trans(bb, bb, bb);
        lemma_ctimes_congr(bb, cpow(bb, k1), bb, cpow(b, 2 * k1));
        lemma_ctimes_assoc(b, b, cpow(b, 2 * k1));
        assert(cpow(b, 2 * k1 + 1) == b.ctimes(cpow(b, 2 * k1)));
        assert(cpow(b, 2 * k) == b.ctimes(cpow(b, 2 * k1 + 1)));
        lemma_cvalid(bb, cpow(b, 2 * k1));
        lemma_ceqv_refl_sym_trans(cpow(bb, k), bb.ctimes(cpow(b, 2 * k1)), cpow(b, 2 * k));
    }
}

/// A complex number with exact rational parts.
#[derive(Clone, Copy, Debug, PartialEq, Eq, Hash, Structural)]
pub struct Complex {
    pub real: Real,
    pub imag: Real,
}

impl View for Complex {
    type V = CRat;

    open spec fn view(&self) -> CRat {
        CRat { re: self.real@, im: self.imag@ }
    }
}

/// An exact-or-approximate complex number: the number and its exactness flag.
pub type XC = (CRat, bool);

pub open spec fn xcview(x: Exact<Complex>) -> XC {
    (x.value@, x.exact)
}

pub open spec fn xcres(r: Result<Exact<Complex>, FendError>) -> Result<XC, FendError> {
    match r {
        Ok(x) => Ok(xcview(x)),
        Err(e) => Err(e),
    }
}

pub open spec fn re_part(a: XC) -> XRat {
    (a.0.re, a.1)
}

pub open spec fn im_part(a: XC) -> XRat {
    (a.0.im, a.1)
}

/// Builds an exact-or-approximate complex number from its two parts.
pub open spec fn assemble(re: XRat, im: XRat) -> XC {
    (CRat { re: re.0, im: im.0 }, re.1 && im.1)
}

/// Sum, part by part.
pub open spec fn xcadd(a: XC, b: XC) -> Result<XC, FendError> {
    match xadd(re_part(a), re_part(b)) {
        Err(e) => Err(e),
        Ok(re) => match xadd(im_part(a), im_part(b)) {
            Err(e) => Err(e),
            Ok(im) => Ok(assemble(re, im)),
        },
    }
}

/// Product `(a + bi)(c + di) = (ac - bd) + (ad + bc)i`, each product and sum taken in turn.
pub open spec fn xcmul(a: XC, b: XC) -> Result<XC, FendError> {
    match xmul(re_part(a), re_part(b)) {
        Err(e) => Err(e),
        Ok(p1) => match xmul(im_part(a), im_part(b)) {
            Err(e) => Err(e),
            Ok(p2) => match xadd(p1, xneg(p2)) {
                Err(e) => Err(e),
                Ok(re) => match xmul(re_part(a), im_part(b)) {
                    Err(e) => Err(e),
                    Ok(p3) => match xmul(im_part(a), re_part(b)) {
                        Err(e) => Err(e),
                        Ok(p4) => match xadd(p3, p4) {
                            Err(e) => Err(e),
                            Ok(im) => Ok(assemble(re, im)),
                        },
                    },
                },
            },
        },
    }
}

/// Quotient of two complex numbers: a quotient of reals when both imaginary parts are exactly
/// zero, otherwise `(u + vi) / (x + yi) = (1 / (x² + y²)) · ((ux + vy) + (vx - uy)i)`.
pub open spec fn xcdiv(a: XC, b: XC) -> Result<XC, FendError> {
    let (u, v, x, y) = (re_part(a), im_part(a), re_part(b), im_part(b));
    if v.1 && v.0.is_zero() && y.1 && y.0.is_zero() {
        match xdiv(u, x) {
            Err(e) => Err(e),
            Ok(q) => Ok((CRat { re: q.0, im: rat_int(0) }, q.1)),
        }
    } else {
        match xmul(x, x) {
            Err(e) => Err(e),
            Ok(p1) => match xmul(y, y) {
                Err(e) => Err(e),
                Ok(p2) => match xadd(p1, p2) {
                    Err(e) => Err(e),
                    Ok(sum) => match xdiv((rat_int(1), true), sum) {
                        Err(e) => Err(e),
                        Ok(s) => match xmul(u, x) {
                            Err(e) => Err(e),
                            Ok(p3) => match xmul(v, y) {
                                Err(e) => Err(e),
                                Ok(p4) => match xadd(p3, p4) {
                                    Err(e) => Err(e),
                                    Ok(re2) => match xmul(v, x) {
                                        Err(e) => Err(e),
                                        Ok(p5) => match xmul(u, y) {
                                            Err(e) => Err(e),
                                            Ok(p6) => match xadd(p5, xneg(p6)) {
                                                Err(e) => Err(e),
                                                Ok(im2) => xcmul(
                                                    (CRat { re: s.0, im: rat_int(0) }, s.1),
                                                    assemble(re2, im2),
                                                ),
                                            },
                                        },
                                    },
                                },
                            },
                        },
                    },
                },
            },
        }
    }
}

impl Complex {
    /// The real and imaginary parts as exact-or-approximate reals with the given exactness.
    fn split(self, exact: bool) -> (r: (Exact<Real>, Exact<Real>))
        ensures
            xview(r.0) == re_part((self@, exact)),
            xview(r.1) == im_part((self@, exact)),
    {
        (Exact::new(self.real, exact), Exact::new(self.imag, exact))
    }
}

impl Exact<Complex> {
    /// Sum of two exact-or-approximate complex numbers.
    pub fn add(self, rhs: Exact<Complex>) -> (r: Result<Exact<Complex>, FendError>)
        ensures
            xcres(r) == xcadd(xcview(self), xcview(rhs)),
            r matches Ok(x) ==> x.exact == (self.exact && rhs.exact) && (x.exact ==> x.value@.ceqv(
                self.value@.cplus(rhs.value@),
            )),
    {
        proof {
            use_type_invariant(&self.value.real);
            use_type_invariant(&self.value.imag);
            use_type_invariant(&rhs.value.real);
            use_type_invariant(&rhs.value.imag);
            lemma_xc_values(xcview(self), xcview(rhs));
        }
        let (self_real, self_imag) = self.value.split(self.exact);
        let (rhs_real, rhs_imag) = rhs.value.split(rhs.exact);
        let re = self_real.add(rhs_real)?;
        let im = self_imag.add(rhs_imag)?;
        Ok(Exact::new(Complex { real: re.value, imag: im.value }, re.exact && im.exact))
    }

    /// Product of two exact-or-approximate complex numbers.
    pub fn mul(self, rhs: &Exact<Complex>) -> (r: Result<Exact<Complex>, FendError>)
        ensures
            xcres(r) == xcmul(xcview(self), xcview(*rhs)),
            r matches Ok(x) ==> (self.exact && rhs.exact ==> x.exact) && (x.exact
                ==> x.value@.ceqv(self.value@.ctimes(rhs.value@))),
    {
        proof {
            use_type_invariant(&self.value.real);
            use_type_invariant(&self.value.imag);
            use_type_invariant(&rhs.value.real);
            use_type_invariant(&rhs.value.imag);
            lemma_xc_values(xcview(self), xcview(*rhs));
        }
        // (a + bi) * (c + di) = (ac - bd) + (ad + bc)i
        let (self_real, self_imag) = self.value.split(self.exact);
        let (rhs_real, rhs_imag) = rhs.value.split(rhs.exact);
        let prod1 = self_real.mul(rhs_real)?;
        let prod2 = self_imag.mul(rhs_imag)?;
        let real_part = prod1.add(prod2.neg())?;
        let prod3 = self_real.mul(rhs_imag)?;
        let prod4 = self_imag.mul(rhs_real)?;
        let imag_part = prod3.add(prod4)?;
        Ok(
            Exact::new(
                Complex { real: real_part.value, imag: imag_part.value },
                real_part.exact && imag_part.exact,
            ),
        )
    }

    /// Quotient of two exact-or-approximate complex numbers.
    pub fn div(self, rhs: Exact<Complex>) -> (r: Result<Exact<Complex>, FendError>)
        ensures
            xcres(r) == xcdiv(xcview(self), xcview(rhs)),
            rhs.value@.re.is_zero() && rhs.value@.im.is_zero() ==> r == Err::<Exact<Complex>, FendError>(
                FendError::DivideByZero,
            ),
            r matches Ok(q) ==> (self.exact && rhs.exact ==> q.exact && q.value@.ctimes(
                rhs.value@,
            ).ceqv(self.value@)),
    {
        proof {
            use_type_invariant(&self.value.real);
            use_type_invariant(&self.value.imag);
            use_type_invariant(&rhs.value.real);
            use_type_invariant(&rhs.value.imag);
            crate::division::law_div_then_mul(xcview(self), xcview(rhs));
        }
        // (u + vi) / (x + yi) = (1/(x^2 + y^2)) * ((ux + vy) + (vx - uy)i)
        let (u, v) = self.value.split(self.exact);
        let (x, y) = rhs.value.split(rhs.exact);
        // if both numbers are real, divide the real parts
        if v.exact && v.value.is_zero() && y.exact && y.value.is_zero() {
            let q = u.div(x)?;
            return Ok(Exact::new(Complex { real: q.value, imag: Real::zero() }, q.exact));
        }
        let prod1 = x.mul(x)?;
        let prod2 = y.mul(y)?;
        let sum = prod1.add(prod2)?;
        let real_part = Exact::new(Real::one(), true).div(sum)?;
        let prod3 = u.mul(x)?;
        let prod4 = v.mul(y)?;
        let real2 = prod3.add(prod4)?;
        let prod5 = v.mul(x)?;
        let prod6 = u.mul(y)?;
        let imag2 = prod5.add(prod6.neg())?;
        let multiplicand = Exact::new(
            Complex { real: real2.value, imag: imag2.value },
            real2.exact && imag2.exact,
        );
        let result = Exact::new(Complex { real: real_part.value, imag: Real::zero() }, real_part.exact);
        result.mul(&multiplicand)
    }

    pub fn neg(self) -> (r: Exact<Complex>)
        ensures
            r.value@ == self.value@.cneg(),
            r.exact == self.exact,
    {
        Exact::new(self.value.neg(), self.exact)
    }
}

impl Complex {
    pub fn neg(self) -> (r: Complex)
        ensures
            r@ == self@.cneg(),
    {
        Complex { real: self.real.neg(), imag: self.imag.neg() }
    }
}

/// Exact sums and products of exact-or-approximate complex numbers denote the sum and
/// product of their operands, and every outcome is valid; a product of exact operands is exact
/// and one of approximate operands is not.
pub proof fn lemma_xc_values(a: XC, b: XC)
    requires
        a.0.valid(),
        b.0.valid(),
    ensures
        xcadd(a, b) matches Ok(r) ==> (r.1 ==> r.0.ceqv(a.0.cplus(b.0))) && r.0.valid() && r.1
            == (a.1 && b.1),
        xcmul(a, b) matches Ok(r) ==> (r.1 ==> r.0.ceqv(a.0.ctimes(b.0))) && r.0.valid(),
        xcmul(a, b) matches Ok(r) ==> (a.1 && b.1 ==> r.1) && (!a.1 && !b.1 ==> !r.1),
        xcmul(a, b) matches Err(e) ==> e == FendError::OutOfRange,
        xcadd(a, b) matches Err(e) ==> e == FendError::OutOfRange,
{
    let (ar, ai, br, bi) = (re_part(a), im_part(a), re_part(b), im_part(b));
    lemma_x_values(ar, br);
    lemma_x_values(ai, bi);
    lemma_x_values(ar, bi);
    lemma_x_values(ai, br);
    if let Ok(p1) = xmul(ar, br) {
        if let Ok(p2) = xmul(ai, bi) {
            lemma_valid_ops(p2.0, p2.0);
            lemma_x_values(p1, xneg(p2));
            lemma_valid_ops(p1.0, p2.0);
            if let Ok(re) = xadd(p1, xneg(p2)) {
                if re.1 {
                    lemma_minus_congr(p1.0, p2.0, ar.0.times(br.0), ai.0.times(bi.0));
                    lemma_eqv_trans(re.0, p1.0.minus(p2.0), ar.0.times(br.0).minus(ai.0.times(bi.0)));
                }
                if let Ok(p3) = xmul(ar, bi) {
                    if let Ok(p4) = xmul(ai, br) {
                        lemma_x_values(p3, p4);
                        lemma_valid_ops(p3.0, p4.0);
                        if let Ok(im) = xadd(p3, p4) {
                            if im.1 {
                                lemma_plus_congr(p3.0, p4.0, ar.0.times(bi.0), ai.0.times(br.0));
                                lemma_eqv_trans(im.0, p3.0.plus(p4.0), ar.0.times(bi.0).plus(ai.0.times(br.0)));
                            }
                        }
                    }
                }
            }
        }
    }
}

/// The steps of raising to a power by repeated squaring, from an accumulated `result`, the
/// current `base` and the remaining exponent `exp`: the result takes a factor of the base when
/// the exponent is odd, and the base is squared while exponent remains.
pub open spec fn pow_loop(result: XC, base: XC, exp: nat) -> Result<XC, FendError>
    decreases exp,
{
    if exp == 0 {
        Ok(result)
    } else {
        let r1 = if exp % 2 == 1 {
            xcmul(result, base)
        } else {
            Ok(result)
        };
        match r1 {
            Err(e) => Err(e),
            Ok(r) => if exp / 2 == 0 {
                Ok(r)
            } else {
                match xcmul(base, base) {
                    Err(e) => Err(e),
                    Ok(b) => pow_loop(r, b, exp / 2),
                }
            },
        }
    }
}

/// `z` raised to `n` by repeated squaring; exactly one when `n` is zero.
pub open spec fn pow_n_spec(z: CRat, n: nat) -> Result<XC, FendError> {
    if n == 0 {
        Ok((cint(1), true))
    } else {
        pow_loop((cint(1), true), (z, true), n)
    }
}

/// One step of repeated squaring keeps `result · base^exp` equal to `z^n`.
proof fn lemma_pow_step(z: CRat, n: nat, r: CRat, b: CRat, e: nat, r2: CRat, b2: CRat)
    requires
        r.valid(),
        b.valid(),
        r2.valid(),
        b2.valid(),
        e > 0,
        r.ctimes(cpow(b, e)).ceqv(cpow(z, n)),
        b2.ceqv(b.ctimes(b)),
        e % 2 == 1 ==> r2.ceqv(r.ctimes(b)),
        e % 2 == 0 ==> r2 == r,
    ensures
        r2.ctimes(cpow(b2, e / 2)).ceqv(cpow(z, n)),
{
    let h = e / 2;
    lemma_cvalid(b, b);
    lemma_cpow_congr(b2, b.ctimes(b), h);
    lemma_cpow_square(b, h);
    lemma_cpow_valid(b.ctimes(b), h);
    lemma_cpow_valid(b, 2 * h);
    lemma_cpow_valid(b2, h);
    lemma_ceqv_refl_sym_trans(cpow(b2, h), cpow(b.ctimes(b), h), cpow(b, 2 * h));
    lemma_cpow_valid(b, e);
    lemma_cvalid(r, cpow(b, e));
    if e % 2 == 1 {
        assert(e == 2 * h + 1);
        lemma_ctimes_congr(r2, cpow(b2, h), r.ctimes(b), cpow(b, 2 * h));
        lemma_ctimes_assoc(r, b, cpow(b, 2 * h));
        lemma_cvalid(r, b);
        lemma_cvalid(r.ctimes(b), cpow(b, 2 * h));
        assert(cpow(b, e) == b.ctimes(cpow(b, 2 * h)));
        lemma_ceqv_refl_sym_trans(
            r2.ctimes(cpow(b2, h)),
            r.ctimes(b).ctimes(cpow(b, 2 * h)),
            r.ctimes(cpow(b, e)),
        );
        lemma_ceqv_refl_sym_trans(r2.ctimes(cpow(b2, h)), r.ctimes(cpow(b, e)), cpow(z, n));
    } else {
        assert(e == 2 * h);
        lemma_ceqv_refl_sym_trans(r, r, r);
        lemma_ctimes_congr(r, cpow(b2, h), r, cpow(b, e));
        lemma_ceqv_refl_sym_trans(r2.ctimes(cpow(b2, h)), r.ctimes(cpow(b, e)), cpow(z, n));
    }
}

/// Repeated squaring computes the power: when the exact `result · base^exp` denotes `z^n`
/// and the steps succeed, their outcome is exact and denotes `z^n`.
pub proof fn lemma_pow_loop(z: CRat, n: nat, result: XC, base: XC, exp: nat)
    requires
        z.valid(),
        result.0.valid(),
        base.0.valid(),
        result.1,
        base.1,
        result.0.ctimes(cpow(base.0, exp)).ceqv(cpow(z, n)),
    ensures
        pow_loop(result, base, exp) matches Ok(x) ==> x.0.ceqv(cpow(z, n)) && x.0.valid() && x.1,
    decreases exp,
{
    lemma_cpow_valid(z, n);
    if exp == 0 {
        lemma_ctimes_one(result.0);
        lemma_cvalid(result.0, cint(1));
        lemma_ceqv_refl_sym_trans(result.0, result.0.ctimes(cint(1)), result.0.ctimes(cint(1)));
        lemma_ceqv_refl_sym_trans(result.0, result.0.ctimes(cint(1)), cpow(z, n));
    } else {
        lemma_xc_values(result, base);
        lemma_xc_values(base, base);
        let r1 = if exp % 2 == 1 {
            xcmul(result, base)
        } else {
            Ok(result)
        };
        if let Ok(r) = r1 {
            if exp / 2 == 0 {
                let bb = base.0.ctimes(base.0);
                lemma_cvalid(base.0, base.0);
                lemma_ceqv_refl_sym_trans(bb, bb, bb);
                lemma_pow_step(z, n, result.0, base.0, exp, r.0, bb);
                lemma_ctimes_one(r.0);
                lemma_cvalid(r.0, cint(1));
                lemma_ceqv_refl_sym_trans(r.0, r.0.ctimes(cint(1)), r.0.ctimes(cint(1)));
                lemma_ceqv_refl_sym_trans(r.0, r.0.ctimes(cint(1)), cpow(z, n));
            } else if let Ok(b) = xcmul(base, base) {
                lemma_pow_step(z, n, result.0, base.0, exp, r.0, b.0);
                lemma_pow_loop(z, n, r, b, exp / 2);
            }
        }
    }
}

impl Complex {
    /// The integer `i` as a complex number, within the 63-bit magnitude of the representation.
    pub fn from_u64(i: u64) -> (r: Complex)
        requires
            i <= 0x7fff_ffff_ffff_ffff,
        ensures
            r@ == cint(i as int),
    {
        Complex { real: Real::from_u64(i), imag: Real::zero() }
    }

    /// The integer `i` as a complex number; `OutOfRange` above the 63-bit magnitude of the
    /// representation.
    pub fn try_from_u64(i: u64) -> (r: Result<Complex, FendError>)
        ensures
            i <= 0x7fff_ffff_ffff_ffff ==> (r matches Ok(z) && z@ == cint(i as int)),
            i > 0x7fff_ffff_ffff_ffff ==> r == Err::<Complex, FendError>(FendError::OutOfRange),
    {
        if i > 0x7fff_ffff_ffff_ffff {
            Err(FendError::OutOfRange)
        } else {
            Ok(Complex::from_u64(i))
        }
    }

    /// `self` raised to the natural power `n`, by repeated squaring; every intermediate
    /// power and square taken must fit the representation.
    pub fn pow_n(self, n: usize) -> (r: Result<Exact<Complex>, FendError>)
        ensures
            xcres(r) == pow_n_spec(self@, n as nat),
            r matches Ok(x) ==> x.exact && x.value@.ceqv(cpow(self@, n as nat)),
            r matches Err(e) ==> e == FendError::OutOfRange,
    {
        proof {
            use_type_invariant(&self.real);
            use_type_invariant(&self.imag);
        }
        if n == 0 {
            proof {
                lemma_ceqv_refl_sym_trans(cint(1), cint(1), cint(1));
            }
            return Ok(Exact::new(Complex::from_u64(1), true));
        }
        let mut result = Exact::new(Complex::from_u64(1), true);
        let mut base = Exact::new(self, true);
        let mut exp = n;
        proof {
            lemma_cpow_valid(self@, n as nat);
            lemma_ctimes_one(cpow(self@, n as nat));
            lemma_ctimes_comm(cint(1), cpow(self@, n as nat));
        }
        while exp > 0
            invariant
                pow_n_spec(self@, n as nat) == pow_loop(xcview(result), xcview(base), exp as nat),
                result.exact,
                base.exact,
                result.value@.valid(),
                base.value@.valid(),
                self@.valid(),
                result.value@.ctimes(cpow(base.value@, exp as nat)).ceqv(cpow(self@, n as nat)),
            decreases exp,
        {
            let ghost r0 = result.value@;
            let ghost b0 = base.value@;
            let ghost e0 = exp as nat;
            proof {
                assert((exp & 1 == 1) == (exp % 2 == 1)) by (bit_vector);
                assert(exp >> 1 == exp / 2) by (bit_vector);
                lemma_xc_values(xcview(result), xcview(base));
                lemma_xc_values(xcview(base), xcview(base));
            }
            if exp & 1 == 1 {
                result = result.mul(&base)?;
            }
            exp >>= 1;
            if exp > 0 {
                base = base.mul(&base)?;
            }
            proof {
                use_type_invariant(&result.value.real);
                use_type_invariant(&result.value.imag);
                use_type_invariant(&base.value.real);
                use_type_invariant(&base.value.imag);
                if exp > 0 {
                    lemma_pow_step(self@, n as nat, r0, b0, e0, result.value@, base.value@);
                } else {
                    let bb = b0.ctimes(b0);
                    lemma_cvalid(b0, b0);
                    lemma_ceqv_refl_sym_trans(bb, bb, bb);
                    lemma_pow_step(self@, n as nat, r0, b0, e0, result.value@, bb);
                }
            }
        }
        proof {
            let rv = result.value@;
            lemma_ctimes_one(rv);
            lemma_cvalid(rv, cint(1));
            lemma_ceqv_refl_sym_trans(rv.ctimes(cint(1)), rv, rv);
            lemma_ceqv_refl_sym_trans(rv, rv.ctimes(cint(1)), cpow(self@, n as nat));
        }
        Ok(result)
    }
}

/// The outcome of an operation on complex numbers, with the value seen as a pair of rationals.
pub open spec fn cres(r: Result<Complex, FendError>) -> Result<CRat, FendError> {
    match r {
        Ok(x) => Ok(x@),
        Err(e) => Err(e),
    }
}

/// A real outcome as a complex one with a zero imaginary part.
pub open spec fn as_complex(r: Result<Rat, FendError>) -> Result<CRat, FendError> {
    match r {
        Ok(q) => Ok(CRat { re: q, im: rat_int(0) }),
        Err(e) => Err(e),
    }
}

/// A real outcome as a complex one with the given imaginary part.
pub open spec fn with_imag(r: Result<Rat, FendError>, im: Rat) -> Result<CRat, FendError> {
    match r {
        Ok(q) => Ok(CRat { re: q, im: im }),
        Err(e) => Err(e),
    }
}

/// An operation on the real parts of two numbers that must both be real.
pub open spec fn on_reals(
    a: CRat,
    b: CRat,
    r: Result<Rat, FendError>,
) -> Result<CRat, FendError> {
    if !a.is_real() || !b.is_real() {
        Err(FendError::ExpectedARealNumber)
    } else {
        as_complex(r)
    }
}

impl Complex {
    pub fn new(re: Real, im: Real) -> (r: Complex)
        ensures
            r.real == re,
            r.imag == im,
    {
        Complex { real: re, imag: im }
    }

    /// The real number `r` as a complex number.
    pub fn from_real(r: Real) -> (c: Complex)
        ensures
            c@ == (CRat { re: r@, im: rat_int(0) }),
    {
        Complex { real: r, imag: Real::zero() }
    }

    /// The imaginary unit.
    pub fn i() -> (r: Complex)
        ensures
            r@ == (CRat { re: rat_int(0), im: rat_int(1) }),
    {
        Complex { real: Real::zero(), imag: Real::one() }
    }

    /// The complex conjugate: the imaginary part negated.
    pub fn conjugate(self) -> (r: Complex)
        ensures
            r@ == self@.conj(),
    {
        Complex { real: self.real, imag: self.imag.neg() }
    }

    /// The real part, for a number whose imaginary part is zero.
    pub fn expect_real(self) -> (r: Result<Real, FendError>)
        ensures
            self@.is_real() ==> r == Ok::<Real, FendError>(self.real),
            !self@.is_real() ==> r == Err::<Real, FendError>(FendError::ExpectedARealNumber),
    {
        if self.imag.is_zero() {
            Ok(self.real)
        } else {
            Err(FendError::ExpectedARealNumber)
        }
    }

    /// The value as a `usize`: it must be real, and a non-negative integer that fits.
    pub fn try_as_usize(self) -> (r: Result<usize, FendError>)
        ensures
            !self@.is_real() ==> r == Err::<usize, FendError>(FendError::ComplexToInteger),
            self@.is_real() ==> r == usize_spec(self@.re),
    {
        if !self.imag.is_zero() {
            return Err(FendError::ComplexToInteger);
        }
        self.real.try_as_usize()
    }

    /// The factorial of a real non-negative integer.
    pub fn factorial(self) -> (r: Result<Complex, FendError>)
        ensures
            !self@.is_real() ==> r == Err::<Complex, FendError>(FendError::FactorialComplex),
            self@.is_real() ==> cres(r) == with_imag(factorial_spec(self@.re), self@.im),
    {
        if !self.imag.is_zero() {
            return Err(FendError::FactorialComplex);
        }
        Ok(Complex { real: self.real.factorial()?, imag: self.imag })
    }

    /// The number is exactly one.
    pub fn is_definitely_one(&self) -> (b: bool)
        ensures
            b == (self@.re.eqv(rat_int(1)) && self@.im.is_zero()),
    {
        self.real.is_definitely_one() && self.imag.is_zero()
    }

    /// Euclidean remainder of two real integers.
    pub fn modulo(self, rhs: Complex) -> (r: Result<Complex, FendError>)
        ensures
            cres(r) == on_reals(self@, rhs@, modulo_spec(self@.re, rhs@.re)),
    {
        Ok(Complex::from_real(self.expect_real()?.modulo(rhs.expect_real()?)?))
    }

    /// A bitwise operation on two real non-negative integers.
    pub fn bitwise(self, rhs: Complex, op: BitwiseBop) -> (r: Result<Complex, FendError>)
        ensures
            cres(r) == on_reals(self@, rhs@, bitwise_spec(self@.re, rhs@.re, op)),
    {
        Ok(Complex::from_real(self.expect_real()?.bitwise(rhs.expect_real()?, op)?))
    }

    /// The number of unordered selections: `n! / (r! (n - r)!)` for real integers.
    pub fn combination(self, rhs: Complex) -> (r: Result<Complex, FendError>)
        ensures
            cres(r) == on_reals(self@, rhs@, combination_spec(self@.re, rhs@.re)),
    {
        Ok(Complex::from_real(self.expect_real()?.combination(rhs.expect_real()?)?))
    }

    /// The number of ordered selections: `n! / (n - r)!` for real integers.
    pub fn permutation(self, rhs: Complex) -> (r: Result<Complex, FendError>)
        ensures
            cres(r) == on_reals(self@, rhs@, permutation_spec(self@.re, rhs@.re)),
    {
        Ok(Complex::from_real(self.expect_real()?.permutation(rhs.expect_real()?)?))
    }
}

} // verus!
