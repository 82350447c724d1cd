use crate::complex::{
    assemble, cint, im_part, lemma_ceqv_refl_sym_trans, lemma_ctimes_assoc, lemma_ctimes_comm,
    lemma_ctimes_congr, lemma_ctimes_one, lemma_cvalid,
    lemma_xc_values, re_part, xcdiv, xcmul, CRat, XC,
};
use crate::error::FendError;
use crate::exact::{
    bounded, lemma_bound_ops, lemma_xadd_fits, lemma_xdiv_fits, lemma_xmul_fits, lemma_checked_zero,
    lemma_x_values, xadd, xdiv, xmul, xneg};
use crate::rat::{
    lemma_assoc, lemma_cancel, lemma_comm, lemma_distrib_both, lemma_eqv_chain,
    lemma_eqv_refl_sym, lemma_eqv_sign, lemma_eqv_trans, lemma_minus_congr, lemma_one_times, lemma_plus_congr,
    lemma_recip, lemma_recip_congr, lemma_times_congr, lemma_valid_ops, lemma_zero_laws,
    rat_int, Rat,
};
use vstd::prelude::*;

verus! {

/// The squared magnitude `x² + y²` of `x + yi`.
pub open spec fn norm2(b: CRat) -> Rat {
    b.re.times(b.re).plus(b.im.times(b.im))
}

/// The quotient `(u + vi) / (x + yi) = (1 / (x² + y²)) · ((ux + vy) + (vx - uy)i)`.
pub open spec fn quotient(a: CRat, b: CRat) -> CRat {
    let s = norm2(b).recip();
    CRat {
        re: s.times(a.re.times(b.re).plus(a.im.times(b.im))),
        im: s.times(a.im.times(b.re).minus(a.re.times(b.im))),
    }
}

/// A non-zero complex number has a non-zero squared magnitude.
pub proof fn lemma_norm2_nonzero(b: CRat)
    requires
        b.valid(),
        !(b.re.is_zero() && b.im.is_zero()),
    ensures
        norm2(b).valid(),
        !norm2(b).is_zero(),
{
    let (x, y) = (b.re, b.im);
    lemma_valid_ops(x, x);
    lemma_valid_ops(y, y);
    lemma_valid_ops(x.times(x), y.times(y));
    assert(norm2(b).n > 0) by (nonlinear_arith)
        requires
            norm2(b).n == (x.n * x.n) * (y.d * y.d) + (y.n * y.n) * (x.d * x.d),
            x.d > 0,
            y.d > 0,
            x.n != 0 || y.n != 0,
    ;
}

/// `s · (w · t)` is `w` when `s` is the reciprocal of `t`.
proof fn lemma_scale_back(s: Rat, t: Rat, w: Rat)
    requires
        t.valid(),
        !t.is_zero(),
        s == t.recip(),
        w.valid(),
    ensures
        s.times(w.times(t)).eqv(w),
{
    lemma_recip(t);
    lemma_comm(w, t);
    lemma_assoc(s, t, w);
    lemma_valid_ops(s, t);
    lemma_valid_ops(t, w);
    lemma_eqv_refl_sym(s.times(t).times(w), s.times(t.times(w)));
    lemma_eqv_refl_sym(w, w);
    lemma_times_congr(s.times(t), w, rat_int(1), w);
    lemma_one_times(w);
    lemma_valid_ops(s.times(t), w);
    lemma_valid_ops(rat_int(1), w);
    lemma_eqv_chain(s.times(w.times(t)), s.times(t).times(w), rat_int(1).times(w), w);
}

/// Validity of the pieces of the quotient formula.
proof fn lemma_pieces_valid(u: Rat, v: Rat, x: Rat, y: Rat)
    requires
        u.valid(),
        v.valid(),
        x.valid(),
        y.valid(),
    ensures
        u.times(x).valid(),
        v.times(y).valid(),
        v.times(x).valid(),
        u.times(y).valid(),
        x.times(x).valid(),
        y.times(y).valid(),
        x.times(y).valid(),
        u.times(x).plus(v.times(y)).valid(),
        v.times(x).minus(u.times(y)).valid(),
        u.times(x.times(x)).valid(),
        u.times(y.times(y)).valid(),
        v.times(x.times(y)).valid(),
        u.times(x.times(y)).valid(),
        v.times(x.times(x)).valid(),
        v.times(y.times(y)).valid(),
{
    lemma_valid_ops(u, x);
    lemma_valid_ops(v, y);
    lemma_valid_ops(v, x);
    lemma_valid_ops(u, y);
    lemma_valid_ops(x, x);
    lemma_valid_ops(y, y);
    lemma_valid_ops(x, y);
    lemma_valid_ops(u.times(x), v.times(y));
    lemma_valid_ops(v.times(x), u.times(y));
    lemma_valid_ops(u, x.times(x));
    lemma_valid_ops(u, y.times(y));
    lemma_valid_ops(v, x.times(y));
    lemma_valid_ops(u, x.times(y));
    lemma_valid_ops(v, x.times(x));
    lemma_valid_ops(v, y.times(y));
}

/// The real part of the quotient times the divisor is the real part of the dividend.
proof fn lemma_quotient_re(a: CRat, b: CRat)
    requires
        a.valid(),
        b.valid(),
        !(b.re.is_zero() && b.im.is_zero()),
    ensures
        quotient(a, b).ctimes(b).re.eqv(a.re),
{
    let (u, v, x, y) = (a.re, a.im, b.re, b.im);
    let t = norm2(b);
    let s = t.recip();
    let n1 = u.times(x).plus(v.times(y));
    let n2 = v.times(x).minus(u.times(y));
    lemma_norm2_nonzero(b);
    lemma_recip(t);
    lemma_pieces_valid(u, v, x, y);
    lemma_valid_ops(n1, x);
    lemma_valid_ops(n2, y);
    lemma_valid_ops(s, n1.times(x));
    lemma_valid_ops(s, n2.times(y));
    lemma_valid_ops(n1.times(x), n2.times(y));
    lemma_valid_ops(s.times(n1.times(x)), s.times(n2.times(y)));
    lemma_valid_ops(s, n1.times(x).minus(n2.times(y)));
    lemma_valid_ops(u, t);
    lemma_valid_ops(s, u.times(t));
    let re = quotient(a, b).ctimes(b).re;
    assert(re == s.times(n1).times(x).minus(s.times(n2).times(y)));
    // s·n1·x - s·n2·y = s·(n1·x - n2·y)
    lemma_assoc(s, n1, x);
    lemma_assoc(s, n2, y);
    lemma_minus_congr(s.times(n1).times(x), s.times(n2).times(y), s.times(n1.times(x)), s.times(n2.times(y)));
    lemma_distrib_both(s, n1.times(x), n2.times(y));
    lemma_eqv_refl_sym(s.times(n1.times(x).minus(n2.times(y))), s.times(n1.times(x)).minus(s.times(n2.times(y))));
    lemma_eqv_trans(re, s.times(n1.times(x)).minus(s.times(n2.times(y))), s.times(n1.times(x).minus(n2.times(y))));
    // n1·x - n2·y = u·x² + v·xy - (v·xy - u·y²) = u·(x² + y²)
    let aa = u.times(x.times(x));
    let bb = v.times(x.times(y));
    let cc = u.times(y.times(y));
    lemma_distrib_both(x, u.times(x), v.times(y));
    lemma_distrib_both(y, v.times(x), u.times(y));
    lemma_assoc(u, x, x);
    lemma_assoc(v, y, x);
    lemma_comm(y, x);
    lemma_assoc(v, x, y);
    lemma_assoc(u, y, y);
    lemma_valid_ops(u.times(x), x);
    lemma_valid_ops(v.times(y), x);
    lemma_valid_ops(v.times(x), y);
    lemma_valid_ops(u.times(y), y);
    lemma_valid_ops(u.times(x).times(x), v.times(y).times(x));
    lemma_valid_ops(v.times(x).times(y), u.times(y).times(y));
    lemma_plus_congr(u.times(x).times(x), v.times(y).times(x), aa, bb);
    lemma_minus_congr(v.times(x).times(y), u.times(y).times(y), bb, cc);
    lemma_eqv_trans(n1.times(x), u.times(x).times(x).plus(v.times(y).times(x)), aa.plus(bb));
    lemma_eqv_trans(n2.times(y), v.times(x).times(y).minus(u.times(y).times(y)), bb.minus(cc));
    lemma_minus_congr(n1.times(x), n2.times(y), aa.plus(bb), bb.minus(cc));
    lemma_cancel(aa, bb, cc);
    lemma_distrib_both(u, x.times(x), y.times(y));
    lemma_eqv_refl_sym(u.times(t), aa.plus(cc));
    lemma_valid_ops(aa, bb);
    lemma_valid_ops(bb, cc);
    lemma_valid_ops(aa.plus(bb), bb.minus(cc));
    lemma_valid_ops(aa, cc);
    lemma_eqv_chain(n1.times(x).minus(n2.times(y)), aa.plus(bb).minus(bb.minus(cc)), aa.plus(cc), u.times(t));
    lemma_eqv_refl_sym(s, s);
    lemma_times_congr(s, n1.times(x).minus(n2.times(y)), s, u.times(t));
    lemma_scale_back(s, t, u);
    lemma_eqv_chain(re, s.times(n1.times(x).minus(n2.times(y))), s.times(u.times(t)), u);
}

/// The imaginary part of the quotient times the divisor is the imaginary part of the dividend.
proof fn lemma_quotient_im(a: CRat, b: CRat)
    requires
        a.valid(),
        b.valid(),
        !(b.re.is_zero() && b.im.is_zero()),
    ensures
        quotient(a, b).ctimes(b).im.eqv(a.im),
{
    let (u, v, x, y) = (a.re, a.im, b.re, b.im);
    let t = norm2(b);
    let s = t.recip();
    let n1 = u.times(x).plus(v.times(y));
    let n2 = v.times(x).minus(u.times(y));
    lemma_norm2_nonzero(b);
    lemma_recip(t);
    lemma_pieces_valid(u, v, x, y);
    lemma_valid_ops(n1, y);
    lemma_valid_ops(n2, x);
    lemma_valid_ops(s, n1.times(y));
    lemma_valid_ops(s, n2.times(x));
    lemma_valid_ops(n1.times(y), n2.times(x));
    lemma_valid_ops(s.times(n1.times(y)), s.times(n2.times(x)));
    lemma_valid_ops(s, n1.times(y).plus(n2.times(x)));
    lemma_valid_ops(v, t);
    lemma_valid_ops(s, v.times(t));
    let im = quotient(a, b).ctimes(b).im;
    assert(im == s.times(n1).times(y).plus(s.times(n2).times(x)));
    lemma_assoc(s, n1, y);
    lemma_assoc(s, n2, x);
    lemma_plus_congr(s.times(n1).times(y), s.times(n2).times(x), s.times(n1.times(y)), s.times(n2.times(x)));
    lemma_distrib_both(s, n1.times(y), n2.times(x));
    lemma_eqv_refl_sym(s.times(n1.times(y).plus(n2.times(x))), s.times(n1.times(y)).plus(s.times(n2.times(x))));
    lemma_eqv_trans(im, s.times(n1.times(y)).plus(s.times(n2.times(x))), s.times(n1.times(y).plus(n2.times(x))));
    // n1·y + n2·x = u·xy + v·y² + (v·x² - u·xy) = v·(x² + y²)
    let dd = u.times(x.times(y));
    let ee = v.times(y.times(y));
    let ff = v.times(x.times(x));
    lemma_distrib_both(y, u.times(x), v.times(y));
    lemma_distrib_both(x, v.times(x), u.times(y));
    lemma_assoc(u, x, y);
    lemma_assoc(v, y, y);
    lemma_assoc(v, x, x);
    lemma_assoc(u, y, x);
    lemma_comm(y, x);
    lemma_valid_ops(u.times(x), y);
    lemma_valid_ops(v.times(y), y);
    lemma_valid_ops(v.times(x), x);
    lemma_valid_ops(u.times(y), x);
    lemma_valid_ops(u.times(x).times(y), v.times(y).times(y));
    lemma_valid_ops(v.times(x).times(x), u.times(y).times(x));
    lemma_plus_congr(u.times(x).times(y), v.times(y).times(y), dd, ee);
    lemma_minus_congr(v.times(x).times(x), u.times(y).times(x), ff, dd);
    lemma_eqv_trans(n1.times(y), u.times(x).times(y).plus(v.times(y).times(y)), dd.plus(ee));
    lemma_eqv_trans(n2.times(x), v.times(x).times(x).minus(u.times(y).times(x)), ff.minus(dd));
    lemma_plus_congr(n1.times(y), n2.times(x), dd.plus(ee), ff.minus(dd));
    lemma_cancel(dd, ee, ff);
    // v·y² + v·x² = v·(y² + x²) = v·(x² + y²)
    lemma_distrib_both(v, y.times(y), x.times(x));
    lemma_comm(y.times(y), x.times(x));
    lemma_valid_ops(y.times(y), x.times(x));
    lemma_eqv_refl_sym(v, v);
    lemma_times_congr(v, y.times(y).plus(x.times(x)), v, t);
    lemma_eqv_refl_sym(v.times(y.times(y).plus(x.times(x))), ee.plus(ff));
    lemma_valid_ops(v, y.times(y).plus(x.times(x)));
    lemma_valid_ops(dd, ee);
    lemma_valid_ops(ff, dd);
    lemma_valid_ops(dd.plus(ee), ff.minus(dd));
    lemma_valid_ops(ee, ff);
    lemma_eqv_chain(n1.times(y).plus(n2.times(x)), dd.plus(ee).plus(ff.minus(dd)), ee.plus(ff), v.times(y.times(y).plus(x.times(x))));
    lemma_eqv_trans(n1.times(y).plus(n2.times(x)), v.times(y.times(y).plus(x.times(x))), v.times(t));
    lemma_eqv_refl_sym(s, s);
    lemma_times_congr(s, n1.times(y).plus(n2.times(x)), s, v.times(t));
    lemma_scale_back(s, t, v);
    lemma_eqv_chain(im, s.times(n1.times(y).plus(n2.times(x))), s.times(v.times(t)), v);
}

/// Multiplying the quotient by the divisor gives back the dividend.
pub proof fn law_quotient_times_divisor(a: CRat, b: CRat)
    requires
        a.valid(),
        b.valid(),
        !(b.re.is_zero() && b.im.is_zero()),
    ensures
        quotient(a, b).ctimes(b).ceqv(a),
{
    lemma_quotient_re(a, b);
    lemma_quotient_im(a, b);
}

/// `(w / t) · t` is `w` for a non-zero `t`.
proof fn lemma_undo(w: Rat, t: Rat)
    requires
        w.valid(),
        t.valid(),
        !t.is_zero(),
    ensures
        w.over(t).times(t).eqv(w),
{
    let r = t.recip();
    lemma_recip(t);
    lemma_assoc(w, r, t);
    lemma_eqv_refl_sym(w, w);
    lemma_times_congr(w, r.times(t), w, rat_int(1));
    lemma_one_times(w);
    lemma_valid_ops(w, r);
    lemma_valid_ops(r, t);
    lemma_valid_ops(w, r.times(t));
    lemma_eqv_chain(w.over(t).times(t), w.times(r.times(t)), w.times(rat_int(1)), w);
}

/// `s · p - 0 · q` is `s · p`, and `s · q + 0 · p` is `s · q`.
proof fn lemma_real_scale(s: Rat, p: Rat, q: Rat)
    requires
        s.valid(),
        p.valid(),
        q.valid(),
    ensures
        (CRat { re: s, im: rat_int(0) }).ctimes((CRat { re: p, im: q })).ceqv(
            (CRat { re: s.times(p), im: s.times(q) }),
        ),
{
    let z = rat_int(0);
    lemma_valid_ops(s, p);
    lemma_valid_ops(s, q);
    lemma_valid_ops(z, p);
    lemma_valid_ops(z, q);
    lemma_zero_laws(q, z);
    lemma_zero_laws(p, z);
    lemma_zero_laws(s.times(p), z.times(q));
    lemma_zero_laws(s.times(q), z.times(p));
}

/// Division is undone by multiplication: multiplying the quotient by the divisor gives the
/// dividend back. A division succeeds only for a non-zero divisor, a division by zero is
/// refused with `DivideByZero`, and a quotient of exact numbers is exact.
pub proof fn law_div_then_mul(a: XC, b: XC)
    requires
        a.0.valid(),
        b.0.valid(),
    ensures
        b.0.re.is_zero() && b.0.im.is_zero() ==> xcdiv(a, b) == Err::<XC, FendError>(
            FendError::DivideByZero),
        xcdiv(a, b) matches Ok(q) ==> q.0.valid() && !(b.0.re.is_zero() && b.0.im.is_zero()),
        a.1 && b.1 ==> (xcdiv(a, b) matches Ok(q) ==> q.1 && q.0.ctimes(b.0).ceqv(a.0)),
{
    let (u, v, x, y) = (re_part(a), im_part(a), re_part(b), im_part(b));
    if b.0.re.is_zero() && b.0.im.is_zero() {
        lemma_valid_ops(x.0, x.0);
        lemma_valid_ops(y.0, y.0);
        lemma_zero_laws(x.0, x.0);
        lemma_zero_laws(y.0, y.0);
        lemma_checked_zero(x.0.times(x.0));
        lemma_checked_zero(y.0.times(y.0));
        let z = rat_int(0);
        lemma_valid_ops(z, z);
        lemma_zero_laws(z, z);
        lemma_checked_zero(z.plus(z));
        lemma_valid_ops(x.0, y.0);
        lemma_zero_laws(x.0, y.0);
        lemma_checked_zero(x.0.plus(y.0));
        lemma_zero_laws(y.0, x.0);
        lemma_checked_zero(y.0.plus(x.0));
    }
    if v.1 && v.0.is_zero() && y.1 && y.0.is_zero() {
        lemma_x_values(u, x);
        if let Ok(q) = xdiv(u, x) {
            assert(rat_int(0).valid());
            if q.1 {
                lemma_real_quotient(q.0, a.0, b.0);
            }
        }
    } else {
        if let Ok(p1) = xmul(x, x) {
            if let Ok(p2) = xmul(y, y) {
                if let Ok(sum) = xadd(p1, p2) {
                    if let Ok(s) = xdiv((rat_int(1), true), sum) {
                        if let Ok(p3) = xmul(u, x) {
                            if let Ok(p4) = xmul(v, y) {
                                if let Ok(re2) = xadd(p3, p4) {
                                    if let Ok(p5) = xmul(v, x) {
                                        if let Ok(p6) = xmul(u, y) {
                                            if let Ok(im2) = xadd(p5, xneg(p6)) {
                                                lemma_pieces_exact(
                                                    a, b, p1, p2, sum, s, p3, p4, re2, p5, p6, im2,
                                                );
                                                if a.1 && b.1 {
                                                    lemma_general_quotient(
                                                        a, b, p1, p2, sum, s, p3, p4, re2, p5, p6,
                                                        im2,
                                                    );
                                                }
                                            }
                                        }
                                    }
                                }
                            }
                        }
                    }
                }
            }
        }
    }
}

/// The general path of complex division gives a valid number whenever it succeeds.
proof fn lemma_pieces_exact(
    a: XC,
    b: XC,
    p1: (Rat, bool),
    p2: (Rat, bool),
    sum: (Rat, bool),
    s: (Rat, bool),
    p3: (Rat, bool),
    p4: (Rat, bool),
    re2: (Rat, bool),
    p5: (Rat, bool),
    p6: (Rat, bool),
    im2: (Rat, bool),
)
    requires
        a.0.valid(),
        b.0.valid(),
        xmul(re_part(b), re_part(b)) == Ok::<(Rat, bool), FendError>(p1),
        xmul(im_part(b), im_part(b)) == Ok::<(Rat, bool), FendError>(p2),
        xadd(p1, p2) == Ok::<(Rat, bool), FendError>(sum),
        xdiv((rat_int(1), true), sum) == Ok::<(Rat, bool), FendError>(s),
        xmul(re_part(a), re_part(b)) == Ok::<(Rat, bool), FendError>(p3),
        xmul(im_part(a), im_part(b)) == Ok::<(Rat, bool), FendError>(p4),
        xadd(p3, p4) == Ok::<(Rat, bool), FendError>(re2),
        xmul(im_part(a), re_part(b)) == Ok::<(Rat, bool), FendError>(p5),
        xmul(re_part(a), im_part(b)) == Ok::<(Rat, bool), FendError>(p6),
        xadd(p5, xneg(p6)) == Ok::<(Rat, bool), FendError>(im2),
    ensures
        xcmul(((CRat { re: s.0, im: rat_int(0) }), s.1), assemble(re2, im2)) matches Ok(q) ==> q.0.valid(),
{
    let (u, v, x, y) = (re_part(a), im_part(a), re_part(b), im_part(b));
    lemma_x_values(x, x);
    lemma_x_values(y, y);
    lemma_x_values(p1, p2);
    lemma_x_values((rat_int(1), true), sum);
    lemma_x_values(u, x);
    lemma_x_values(v, y);
    lemma_x_values(p3, p4);
    lemma_x_values(v, x);
    lemma_x_values(u, y);
    lemma_valid_ops(p6.0, p6.0);
    lemma_x_values(p5, xneg(p6));
    assert(rat_int(0).valid());
    lemma_xc_values(((CRat { re: s.0, im: rat_int(0) }), s.1), assemble(re2, im2));
}

/// The general path of complex division, from the numbers its steps denote: when each step
/// denotes what the formula asks of it, the scaled product times the divisor is the dividend.
pub proof fn lemma_quotient_values(
    a: CRat,
    b: CRat,
    p1: Rat,
    p2: Rat,
    sum: Rat,
    s: Rat,
    p3: Rat,
    p4: Rat,
    re2: Rat,
    p5: Rat,
    p6: Rat,
    im2: Rat,
    q: CRat,
)
    requires
        a.valid(),
        b.valid(),
        p1.valid() && p2.valid() && sum.valid() && s.valid() && p3.valid() && p4.valid(),
        re2.valid() && p5.valid() && p6.valid() && im2.valid() && q.valid(),
        p1.eqv(b.re.times(b.re)),
        p2.eqv(b.im.times(b.im)),
        sum.eqv(p1.plus(p2)),
        !sum.is_zero(),
        s.eqv(rat_int(1).over(sum)),
        p3.eqv(a.re.times(b.re)),
        p4.eqv(a.im.times(b.im)),
        re2.eqv(p3.plus(p4)),
        p5.eqv(a.im.times(b.re)),
        p6.eqv(a.re.times(b.im)),
        im2.eqv(p5.minus(p6)),
        q.ceqv((CRat { re: s, im: rat_int(0) }).ctimes((CRat { re: re2, im: im2 }))),
    ensures
        q.ctimes(b).ceqv(a),
        !(b.re.is_zero() && b.im.is_zero()),
{
    let (uu, vv, xx, yy) = (a.re, a.im, b.re, b.im);
    let nb = norm2(b);
    let sr = nb.recip();
    let n1 = uu.times(xx).plus(vv.times(yy));
    let n2 = vv.times(xx).minus(uu.times(yy));
    lemma_pieces_valid(uu, vv, xx, yy);
    // the squared magnitude is what `sum` denotes, and it is not zero
    lemma_valid_ops(p1, p2);
    lemma_valid_ops(xx.times(xx), yy.times(yy));
    lemma_plus_congr(p1, p2, xx.times(xx), yy.times(yy));
    lemma_eqv_trans(sum, p1.plus(p2), nb);
    lemma_eqv_sign(sum, nb);
    if xx.is_zero() && yy.is_zero() {
        assert(nb.n == 0) by (nonlinear_arith)
            requires
                nb.n == (xx.n * xx.n) * (yy.d * yy.d) + (yy.n * yy.n) * (xx.d * xx.d),
                xx.n == 0,
                yy.n == 0,
        ;
    }
    // the scale factor is the reciprocal of the squared magnitude
    lemma_recip(sum);
    lemma_recip(nb);
    lemma_valid_ops(rat_int(1), sum);
    lemma_one_times(sum.recip());
    lemma_recip_congr(sum, nb);
    lemma_eqv_chain(s, rat_int(1).times(sum.recip()), sum.recip(), sr);
    // the two parts of the numerator
    lemma_valid_ops(p3, p4);
    lemma_plus_congr(p3, p4, uu.times(xx), vv.times(yy));
    lemma_eqv_trans(re2, p3.plus(p4), n1);
    lemma_valid_ops(p5, p6);
    lemma_minus_congr(p5, p6, vv.times(xx), uu.times(yy));
    lemma_eqv_trans(im2, p5.minus(p6), n2);
    // the product denotes the quotient
    let sc = CRat { re: s, im: rat_int(0) };
    let rc = CRat { re: re2, im: im2 };
    let scaled = CRat { re: s.times(re2), im: s.times(im2) };
    let quo = quotient(a, b);
    lemma_real_scale(s, re2, im2);
    lemma_times_congr(s, re2, sr, n1);
    lemma_times_congr(s, im2, sr, n2);
    lemma_cvalid(sc, rc);
    lemma_valid_ops(s, re2);
    lemma_valid_ops(s, im2);
    lemma_valid_ops(sr, n1);
    lemma_valid_ops(sr, n2);
    lemma_cvalid(quo, b);
    lemma_ceqv_refl_sym_trans(b, b, b);
    law_quotient_times_divisor(a, b);
    lemma_ceqv_refl_sym_trans(q, sc.ctimes(rc), scaled);
    lemma_ceqv_refl_sym_trans(q, scaled, quo);
    lemma_ctimes_congr(q, b, quo, b);
    lemma_ceqv_refl_sym_trans(q.ctimes(b), quo.ctimes(b), a);
}

/// The general path of complex division: the scaled product denotes the quotient.
proof fn lemma_general_quotient(
    a: XC,
    b: XC,
    p1: (Rat, bool),
    p2: (Rat, bool),
    sum: (Rat, bool),
    s: (Rat, bool),
    p3: (Rat, bool),
    p4: (Rat, bool),
    re2: (Rat, bool),
    p5: (Rat, bool),
    p6: (Rat, bool),
    im2: (Rat, bool),
)
    requires
        a.0.valid(),
        b.0.valid(),
        a.1,
        b.1,
        xmul(re_part(b), re_part(b)) == Ok::<(Rat, bool), FendError>(p1),
        xmul(im_part(b), im_part(b)) == Ok::<(Rat, bool), FendError>(p2),
        xadd(p1, p2) == Ok::<(Rat, bool), FendError>(sum),
        xdiv((rat_int(1), true), sum) == Ok::<(Rat, bool), FendError>(s),
        xmul(re_part(a), re_part(b)) == Ok::<(Rat, bool), FendError>(p3),
        xmul(im_part(a), im_part(b)) == Ok::<(Rat, bool), FendError>(p4),
        xadd(p3, p4) == Ok::<(Rat, bool), FendError>(re2),
        xmul(im_part(a), re_part(b)) == Ok::<(Rat, bool), FendError>(p5),
        xmul(re_part(a), im_part(b)) == Ok::<(Rat, bool), FendError>(p6),
        xadd(p5, xneg(p6)) == Ok::<(Rat, bool), FendError>(im2),
    ensures
        xcmul(((CRat { re: s.0, im: rat_int(0) }), s.1), assemble(re2, im2)) matches Ok(q) ==> (
        q.0.valid() && !(b.0.re.is_zero() && b.0.im.is_zero()) && q.0.ctimes(b.0).ceqv(a.0) && (a.1
            && b.1 ==> q.1)),
{
    let (u, v, x, y) = (re_part(a), im_part(a), re_part(b), im_part(b));
    lemma_x_values(x, x);
    lemma_x_values(y, y);
    lemma_x_values(p1, p2);
    lemma_x_values((rat_int(1), true), sum);
    lemma_x_values(u, x);
    lemma_x_values(v, y);
    lemma_x_values(p3, p4);
    lemma_x_values(v, x);
    lemma_x_values(u, y);
    lemma_valid_ops(p6.0, p6.0);
    lemma_x_values(p5, xneg(p6));
    let sc = CRat { re: s.0, im: rat_int(0) };
    let rc = CRat { re: re2.0, im: im2.0 };
    lemma_xc_values((sc, s.1), assemble(re2, im2));
    if let Ok(q) = xcmul((sc, s.1), assemble(re2, im2)) {
        lemma_quotient_values(a.0, b.0, p1.0, p2.0, sum.0, s.0, p3.0, p4.0, re2.0, p5.0, p6.0, im2.0, q.0);
    }
}

/// A non-zero factor cancels: `x · b = y · b` gives `x = y`.
pub proof fn lemma_cancel_factor(x: CRat, y: CRat, b: CRat)
    requires
        x.valid(),
        y.valid(),
        b.valid(),
        !(b.re.is_zero() && b.im.is_zero()),
        x.ctimes(b).ceqv(y.ctimes(b)),
    ensures
        x.ceqv(y),
{
    let one = cint(1);
    let c = quotient(one, b);
    law_quotient_times_divisor(one, b);
    lemma_norm2_nonzero(b);
    lemma_recip(norm2(b));
    lemma_valid_ops(rat_int(1), b.re);
    lemma_valid_ops(rat_int(0), b.im);
    lemma_valid_ops(rat_int(1).times(b.re), rat_int(0).times(b.im));
    lemma_valid_ops(rat_int(0).times(b.re), rat_int(1).times(b.im));
    lemma_valid_ops(rat_int(0), b.re);
    lemma_valid_ops(rat_int(1), b.im);
    lemma_valid_ops(norm2(b).recip(), rat_int(1).times(b.re).plus(rat_int(0).times(b.im)));
    lemma_valid_ops(norm2(b).recip(), rat_int(0).times(b.re).minus(rat_int(1).times(b.im)));
    assert(c.valid());
    // b · c is one
    lemma_ctimes_comm(b, c);
    lemma_cvalid(c, b);
    lemma_cvalid(b, c);
    lemma_ceqv_refl_sym_trans(b.ctimes(c), c.ctimes(b), one);
    // x = x · 1 = x · (b · c) = (x · b) · c
    lemma_ctimes_one(x);
    lemma_ctimes_one(y);
    lemma_ceqv_refl_sym_trans(x, x, x);
    lemma_ceqv_refl_sym_trans(y, y, y);
    lemma_ceqv_refl_sym_trans(c, c, c);
    lemma_ceqv_refl_sym_trans(one, b.ctimes(c), b.ctimes(c));
    lemma_ctimes_congr(x, one, x, b.ctimes(c));
    lemma_ctimes_congr(y, one, y, b.ctimes(c));
    lemma_ctimes_assoc(x, b, c);
    lemma_ctimes_assoc(y, b, c);
    lemma_ctimes_congr(x.ctimes(b), c, y.ctimes(b), c);
    lemma_cvalid(x, one);
    lemma_cvalid(y, one);
    lemma_cvalid(x, b.ctimes(c));
    lemma_cvalid(y, b.ctimes(c));
    lemma_cvalid(x, b);
    lemma_cvalid(y, b);
    lemma_cvalid(x.ctimes(b), c);
    lemma_cvalid(y.ctimes(b), c);
    let (xb, yb) = (x.ctimes(b).ctimes(c), y.ctimes(b).ctimes(c));
    // x = x · 1
    lemma_ceqv_refl_sym_trans(x.ctimes(one), x, x);
    // x · 1 = x · (b · c) = (x · b) · c
    lemma_ceqv_refl_sym_trans(x, x.ctimes(one), x.ctimes(b.ctimes(c)));
    lemma_ceqv_refl_sym_trans(xb, x.ctimes(b.ctimes(c)), x.ctimes(b.ctimes(c)));
    lemma_ceqv_refl_sym_trans(x, x.ctimes(b.ctimes(c)), xb);
    lemma_ceqv_refl_sym_trans(x, xb, yb);
    lemma_ceqv_refl_sym_trans(y.ctimes(one), y, y);
    lemma_ceqv_refl_sym_trans(y, y.ctimes(one), y.ctimes(b.ctimes(c)));
    lemma_ceqv_refl_sym_trans(yb, y.ctimes(b.ctimes(c)), y);
    lemma_ceqv_refl_sym_trans(x, yb, y);
}

/// Multiplication is undone by division: for exact `a` and a non-zero exact `b`, when
/// `a · b` and then `(a · b) / b` are computed, the outcome is exact and is `a`.
pub proof fn law_mul_then_div(a: XC, b: XC)
    requires
        a.0.valid(),
        b.0.valid(),
        a.1,
        b.1,
        !(b.0.re.is_zero() && b.0.im.is_zero()),
    ensures
        xcmul(a, b) matches Ok(p) ==> (xcdiv(p, b) matches Ok(q) ==> q.1 && q.0.ceqv(a.0)),
{
    lemma_xc_values(a, b);
    if let Ok(p) = xcmul(a, b) {
        law_div_then_mul(p, b);
        if let Ok(q) = xcdiv(p, b) {
            lemma_cvalid(a.0, b.0);
            lemma_cvalid(q.0, b.0);
            lemma_ceqv_refl_sym_trans(q.0.ctimes(b.0), p.0, a.0.ctimes(b.0));
            lemma_cancel_factor(q.0, a.0, b.0);
        }
    }
}

/// Both parts of `z` have numerators and denominators of magnitude at most 128.
pub open spec fn small(z: CRat) -> bool {
    bounded(z.re, 128, 128) && bounded(z.im, 128, 128)
}

/// A real quotient `u / x` of the real parts, as a complex number, times a real divisor `x`
/// gives back a real dividend `u`.
proof fn lemma_real_quotient(q: Rat, a: CRat, b: CRat)
    requires
        a.valid(),
        b.valid(),
        q.valid(),
        a.im.is_zero(),
        b.im.is_zero(),
        !b.re.is_zero(),
        q.eqv(a.re.over(b.re)),
    ensures
        (CRat { re: q, im: rat_int(0) }).ctimes(b).ceqv(a),
{
    let (u, v, x, y) = (a.re, a.im, b.re, b.im);
    let z = rat_int(0);
    let qc = CRat { re: q, im: z };
    lemma_valid_ops(u, x);
    lemma_undo(u, x);
    lemma_times_congr(q, x, u.over(x), x);
    lemma_valid_ops(u.over(x), x);
    lemma_eqv_trans(q.times(x), u.over(x).times(x), u);
    lemma_valid_ops(q, x);
    lemma_valid_ops(q, y);
    lemma_valid_ops(z, x);
    lemma_valid_ops(z, y);
    lemma_zero_laws(q, y);
    lemma_zero_laws(y, z);
    lemma_zero_laws(x, z);
    lemma_zero_laws(q.times(x), z.times(y));
    lemma_eqv_trans(qc.ctimes(b).re, q.times(x), u);
    lemma_zero_laws(z.times(x), q.times(y));
    lemma_zero_laws(z, v);
    lemma_eqv_refl_sym(v, z);
    lemma_eqv_chain(qc.ctimes(b).im, z.times(x), z, v);
}

/// A bounded rational with bounds within the fixed-width limit fits.
proof fn lemma_bounded_fits(q: Rat, n: int, d: int)
    requires
        bounded(q, n, d),
        n <= 0x7fff_ffff_ffff_ffff,
        d <= 0x7fff_ffff_ffff_ffff,
    ensures
        crate::rat::fits(q),
{
}

/// Division of operands with small parts needs no rounding at any step, whatever the
/// exactness of the operands: it succeeds, and the quotient times the divisor is the dividend.
proof fn lemma_small_quotient(a: XC, b: XC)
    requires
        a.0.valid(),
        b.0.valid(),
        !(b.0.re.is_zero() && b.0.im.is_zero()),
        small(a.0),
        small(b.0),
    ensures
        xcdiv(a, b) matches Ok(q) && q.0.valid() && q.0.ctimes(b.0).ceqv(a.0),
{
    let (u, v, x, y) = (re_part(a), im_part(a), re_part(b), im_part(b));
    let (b1, b2, b4, b4x2, b8): (int, int, int, int, int) = (
        128,
        16384,
        268435456,
        536870912,
        144115188075855872,
    );
    if v.1 && v.0.is_zero() && y.1 && y.0.is_zero() {
        let xr = x.0.recip();
        assert(bounded(xr, b1, b1));
        lemma_bound_ops(u.0, xr, b1, b1, b1, b1);
        lemma_bounded_fits(u.0.over(x.0), b2, b2);
        lemma_xdiv_fits(u, x);
        let q = xdiv(u, x)->Ok_0;
        lemma_real_quotient(q.0, a.0, b.0);
    } else {
        // the squared magnitude and its reciprocal
        lemma_bound_ops(x.0, x.0, b1, b1, b1, b1);
        lemma_bounded_fits(x.0.times(x.0), b2, b2);
        lemma_xmul_fits(x, x);
        let p1 = xmul(x, x)->Ok_0;
        lemma_bound_ops(y.0, y.0, b1, b1, b1, b1);
        lemma_bounded_fits(y.0.times(y.0), b2, b2);
        lemma_xmul_fits(y, y);
        let p2 = xmul(y, y)->Ok_0;
        lemma_bound_ops(p1.0, p2.0, b2, b2, b2, b2);
        lemma_bounded_fits(p1.0.plus(p2.0), b4x2, b4);
        lemma_xadd_fits(p1, p2);
        let sum = xadd(p1, p2)->Ok_0;
        let (xx, yy) = (b.0.re, b.0.im);
        lemma_valid_ops(xx, xx);
        lemma_valid_ops(yy, yy);
        lemma_valid_ops(p1.0, p2.0);
        lemma_valid_ops(xx.times(xx), yy.times(yy));
        lemma_plus_congr(p1.0, p2.0, xx.times(xx), yy.times(yy));
        lemma_eqv_trans(sum.0, p1.0.plus(p2.0), norm2(b.0));
        lemma_norm2_nonzero(b.0);
        lemma_eqv_sign(sum.0, norm2(b.0));
        let sr = sum.0.recip();
        assert(bounded(sr, b4, b4x2));
        assert(bounded(rat_int(1), 1, 1));
        lemma_bound_ops(rat_int(1), sr, 1, 1, b4, b4x2);
        lemma_bounded_fits(rat_int(1).over(sum.0), b4, b4x2);
        lemma_xdiv_fits((rat_int(1), true), sum);
        let sc = xdiv((rat_int(1), true), sum)->Ok_0;
        // the numerator
        lemma_bound_ops(u.0, x.0, b1, b1, b1, b1);
        lemma_bounded_fits(u.0.times(x.0), b2, b2);
        lemma_xmul_fits(u, x);
        let p3 = xmul(u, x)->Ok_0;
        lemma_bound_ops(v.0, y.0, b1, b1, b1, b1);
        lemma_bounded_fits(v.0.times(y.0), b2, b2);
        lemma_xmul_fits(v, y);
        let p4 = xmul(v, y)->Ok_0;
        lemma_bound_ops(p3.0, p4.0, b2, b2, b2, b2);
        lemma_bounded_fits(p3.0.plus(p4.0), b4x2, b4);
        lemma_xadd_fits(p3, p4);
        let re2 = xadd(p3, p4)->Ok_0;
        lemma_bound_ops(v.0, x.0, b1, b1, b1, b1);
        lemma_bounded_fits(v.0.times(x.0), b2, b2);
        lemma_xmul_fits(v, x);
        let p5 = xmul(v, x)->Ok_0;
        lemma_bound_ops(u.0, y.0, b1, b1, b1, b1);
        lemma_bounded_fits(u.0.times(y.0), b2, b2);
        lemma_xmul_fits(u, y);
        let p6 = xmul(u, y)->Ok_0;
        lemma_bound_ops(p6.0, p6.0, b2, b2, b2, b2);
        lemma_bound_ops(p5.0, p6.0.negated(), b2, b2, b2, b2);
        lemma_bounded_fits(p5.0.plus(p6.0.negated()), b4x2, b4);
        lemma_valid_ops(p6.0, p6.0);
        lemma_xadd_fits(p5, xneg(p6));
        let im2 = xadd(p5, xneg(p6))->Ok_0;
        // the scaled product
        let s0 = (CRat { re: sc.0, im: rat_int(0) }, sc.1);
        let r0 = assemble(re2, im2);
        let (sr0, si0, rr0, ri0) = (re_part(s0), im_part(s0), re_part(r0), im_part(r0));
        lemma_bound_ops(sc.0, re2.0, b4, b4x2, b4x2, b4);
        lemma_bounded_fits(sc.0.times(re2.0), b8, b8);
        lemma_xmul_fits(sr0, rr0);
        let m1 = xmul(sr0, rr0)->Ok_0;
        assert(bounded(rat_int(0), 0, 1));
        lemma_bound_ops(rat_int(0), im2.0, 0, 1, b4x2, b4);
        lemma_bounded_fits(rat_int(0).times(im2.0), 0, b4);
        lemma_xmul_fits(si0, ri0);
        let m2 = xmul(si0, ri0)->Ok_0;
        assert(m2.0 == rat_int(0));
        assert(bounded(m1.0, b8, b8));
        lemma_bound_ops(m1.0, m2.0.negated(), b8, b8, 0, 1);
        lemma_bounded_fits(m1.0.plus(m2.0.negated()), b8, b8);
        lemma_valid_ops(m2.0, m2.0);
        lemma_xadd_fits(m1, xneg(m2));
        let re = xadd(m1, xneg(m2))->Ok_0;
        lemma_bound_ops(sc.0, im2.0, b4, b4x2, b4x2, b4);
        lemma_bounded_fits(sc.0.times(im2.0), b8, b8);
        lemma_xmul_fits(sr0, ri0);
        let m3 = xmul(sr0, ri0)->Ok_0;
        lemma_bound_ops(rat_int(0), re2.0, 0, 1, b4x2, b4);
        lemma_bounded_fits(rat_int(0).times(re2.0), 0, b4);
        lemma_xmul_fits(si0, rr0);
        let m4 = xmul(si0, rr0)->Ok_0;
        assert(m4.0 == rat_int(0));
        assert(bounded(m3.0, b8, b8));
        lemma_bound_ops(m3.0, m4.0, b8, b8, 0, 1);
        lemma_bounded_fits(m3.0.plus(m4.0), b8, b8);
        lemma_xadd_fits(m3, m4);
        let im = xadd(m3, m4)->Ok_0;
        let q = assemble(re, im);
        assert(xcmul(s0, r0) == Ok::<XC, FendError>(q));
        // what the product denotes
        let scc = CRat { re: sc.0, im: rat_int(0) };
        let rcc = CRat { re: re2.0, im: im2.0 };
        lemma_valid_ops(sc.0, re2.0);
        lemma_valid_ops(sc.0, im2.0);
        lemma_valid_ops(rat_int(0), im2.0);
        lemma_valid_ops(rat_int(0), re2.0);
        lemma_valid_ops(m1.0, m2.0);
        lemma_valid_ops(m3.0, m4.0);
        lemma_minus_congr(m1.0, m2.0, sc.0.times(re2.0), rat_int(0).times(im2.0));
        lemma_eqv_trans(re.0, m1.0.minus(m2.0), scc.ctimes(rcc).re);
        lemma_plus_congr(m3.0, m4.0, sc.0.times(im2.0), rat_int(0).times(re2.0));
        lemma_eqv_trans(im.0, m3.0.plus(m4.0), scc.ctimes(rcc).im);
        lemma_quotient_values(
            a.0,
            b.0,
            p1.0,
            p2.0,
            sum.0,
            sc.0,
            p3.0,
            p4.0,
            re2.0,
            p5.0,
            p6.0,
            im2.0,
            q.0,
        );
    }
}

/// Division is undone by multiplication for approximate numbers too. For a non-zero divisor
/// and operands whose parts have numerators and denominators of magnitude at most 128, no step
/// of a division needs rounding: whatever the exactness of the operands, the quotient is
/// computed, times the divisor it is the dividend, and it denotes the same number as the
/// quotient of the same numbers taken as exact. The exactness of the operands changes only the
/// flag of the quotient, never its number.
pub proof fn law_div_then_mul_any_exactness(a: XC, b: XC)
    requires
        a.0.valid(),
        b.0.valid(),
        !(b.0.re.is_zero() && b.0.im.is_zero()),
        small(a.0),
        small(b.0),
    ensures
        xcdiv(a, b) matches Ok(q) && q.0.ctimes(b.0).ceqv(a.0),
        xcdiv(a, b) matches Ok(q) && (xcdiv((a.0, true), (b.0, true)) matches Ok(e) && q.0.ceqv(
            e.0,
        )),
{
    lemma_small_quotient(a, b);
    lemma_small_quotient((a.0, true), (b.0, true));
    let q = xcdiv(a, b)->Ok_0;
    let e = xcdiv((a.0, true), (b.0, true))->Ok_0;
    lemma_cvalid(q.0, b.0);
    lemma_cvalid(e.0, b.0);
    lemma_ceqv_refl_sym_trans(q.0.ctimes(b.0), a.0, e.0.ctimes(b.0));
    lemma_cvalid(a.0, a.0);
    lemma_ceqv_refl_sym_trans(e.0.ctimes(b.0), a.0, a.0);
    lemma_ceqv_refl_sym_trans(q.0.ctimes(b.0), a.0, e.0.ctimes(b.0));
    lemma_cancel_factor(q.0, e.0, b.0);
}

} // verus!
