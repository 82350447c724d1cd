use crate::complex::{
    cint, cpow, im_part, lemma_ceqv_refl_sym_trans, lemma_cpow_valid, lemma_ctimes_assoc,
    lemma_ctimes_comm, lemma_ctimes_congr, lemma_ctimes_one, lemma_cvalid, lemma_xc_values,
    re_part, xcadd, xcmul, CRat, XC,
};
use crate::exact::{
    bounded, lemma_bound_ops, lemma_x_values, lemma_xadd_fits, lemma_xmul_fits, xadd, xmul, xneg,
};
use crate::rat::{lemma_eqv_trans, lemma_minus_congr, lemma_plus_congr, lemma_valid_ops};
use crate::error::FendError;
use crate::rat::{abs, lemma_neg_plus, Rat};
use crate::realnum::modulo_spec;
use vstd::arithmetic::div_mod::{lemma_fundamental_div_mod, lemma_mod_bound, lemma_mod_multiples_basic};
use vstd::prelude::*;

verus! {

/// Conjugating twice gives the number back.
pub proof fn law_conj_involution(z: CRat)
    ensures
        z.conj().conj() == z,
{
    assert(z.conj().conj().im =~= z.im);
}

/// Negating twice gives the number back.
pub proof fn law_neg_involution(z: CRat)
    ensures
        z.cneg().cneg() == z,
{
    assert(z.cneg().cneg().re =~= z.re);
    assert(z.cneg().cneg().im =~= z.im);
}

/// The conjugate of a product is the product of the conjugates.
pub proof fn law_conj_of_product(a: CRat, b: CRat)
    ensures
        a.ctimes(b).conj() == a.conj().ctimes(b.conj()),
{
    let (ar, ai, br, bi) = (a.re, a.im, b.re, b.im);
    assert((-ai.n) * (-bi.n) == ai.n * bi.n) by (nonlinear_arith);
    assert(ar.n * (-bi.n) == -(ar.n * bi.n)) by (nonlinear_arith);
    assert((-ai.n) * br.n == -(ai.n * br.n)) by (nonlinear_arith);
    assert(ai.negated().times(bi.negated()) == ai.times(bi));
    lemma_neg_plus(ar.times(bi), ai.times(br));
    assert(ar.times(bi.negated()) == ar.times(bi).negated());
    assert(ai.negated().times(br) == ai.times(br).negated());
}

/// Powers add their exponents: `z^(m + n) = z^m · z^n`.
pub proof fn law_cpow_add(z: CRat, m: nat, n: nat)
    requires
        z.valid(),
    ensures
        cpow(z, m + n).ceqv(cpow(z, m).ctimes(cpow(z, n))),
    decreases m,
{
    lemma_cpow_valid(z, n);
    if m == 0 {
        lemma_ctimes_one(cpow(z, n));
        lemma_cvalid(cint(1), cpow(z, n));
        lemma_ceqv_refl_sym_trans(cint(1).ctimes(cpow(z, n)), cpow(z, n), cpow(z, n));
        assert(m + n == n);
    } else {
        let m1 = (m - 1) as nat;
        law_cpow_add(z, m1, n);
        assert(cpow(z, m + n) == z.ctimes(cpow(z, m1 + n)));
        lemma_ceqv_refl_sym_trans(z, z, z);
        lemma_ctimes_congr(z, cpow(z, m1 + n), z, cpow(z, m1).ctimes(cpow(z, n)));
        lemma_cpow_valid(z, m1);
        lemma_ctimes_assoc(z, cpow(z, m1), cpow(z, n));
        lemma_cvalid(cpow(z, m1), cpow(z, n));
        lemma_cvalid(z, cpow(z, m1).ctimes(cpow(z, n)));
        lemma_ceqv_refl_sym_trans(
            z.ctimes(cpow(z, m1)).ctimes(cpow(z, n)),
            z.ctimes(cpow(z, m1).ctimes(cpow(z, n))),
            z.ctimes(cpow(z, m1).ctimes(cpow(z, n))),
        );
        lemma_ceqv_refl_sym_trans(
            cpow(z, m + n),
            z.ctimes(cpow(z, m1).ctimes(cpow(z, n))),
            cpow(z, m).ctimes(cpow(z, n)),
        );
    }
}

/// Addition commutes: `a + b` and `b + a` give the same outcome, value and exactness alike.
pub proof fn law_add_commutes(a: XC, b: XC)
    ensures
        xcadd(a, b) == xcadd(b, a),
{
    let (p, q) = (a.0.re, b.0.re);
    let (r, s) = (a.0.im, b.0.im);
    assert(p.plus(q) == q.plus(p)) by (nonlinear_arith);
    assert(r.plus(s) == s.plus(r)) by (nonlinear_arith);
    assert(xadd(re_part(a), re_part(b)) == xadd(re_part(b), re_part(a)));
    assert(xadd(im_part(a), im_part(b)) == xadd(im_part(b), im_part(a)));
}

/// Multiplication commutes: when `a · b` and `b · a` are both computed, they are equally
/// exact, and when exact they denote the same number.
pub proof fn law_mul_commutes(a: XC, b: XC)
    requires
        a.0.valid(),
        b.0.valid(),
    ensures
        xcmul(a, b) matches Ok(r) ==> (xcmul(b, a) matches Ok(s) ==> r.1 == s.1 && (r.1
            ==> r.0.ceqv(s.0))),
{
    let (ar, ai, br, bi) = (re_part(a), im_part(a), re_part(b), im_part(b));
    lemma_xc_values(a, b);
    lemma_xc_values(b, a);
    lemma_ctimes_comm(a.0, b.0);
    lemma_cvalid(a.0, b.0);
    lemma_cvalid(b.0, a.0);
    lemma_x_values(ar, br);
    lemma_x_values(br, ar);
    lemma_x_values(ai, bi);
    lemma_x_values(bi, ai);
    lemma_x_values(ar, bi);
    lemma_x_values(bi, ar);
    lemma_x_values(ai, br);
    lemma_x_values(br, ai);
    if let Ok(r) = xcmul(a, b) {
        if let Ok(s) = xcmul(b, a) {
            assert(r.1 == s.1);
            if r.1 {
                lemma_ceqv_refl_sym_trans(s.0, b.0.ctimes(a.0), a.0.ctimes(b.0));
                lemma_ceqv_refl_sym_trans(r.0, a.0.ctimes(b.0), s.0);
            }
        }
    }
}

/// The remainder of two integers is Euclidean: for a non-zero divisor `b` it lies in
/// `0 .. |b|` and differs from the dividend by a multiple of `b`; a zero divisor is refused.
pub proof fn law_modulo_range(a: Rat, b: Rat)
    requires
        a.valid(),
        b.valid(),
        a.is_integer(),
        b.is_integer(),
    ensures
        b.int_value() == 0 ==> modulo_spec(a, b) == Err::<Rat, FendError>(FendError::DivideByZero),
        b.int_value() != 0 ==> (modulo_spec(a, b) matches Ok(r) && r.d == 1 && 0 <= r.n < abs(
            b.int_value(),
        ) && (a.int_value() - r.n) % (abs(b.int_value()) as int) == 0),
{
    if b.int_value() != 0 {
        let m = abs(b.int_value()) as int;
        let x = a.int_value();
        lemma_mod_bound(x, m);
        lemma_fundamental_div_mod(x, m);
        assert(x - x % m == (x / m) * m) by (nonlinear_arith)
            requires
                x == m * (x / m) + x % m,
        ;
        lemma_mod_multiples_basic(x / m, m);
    }
}

/// Multiplication is associative: for exact operands, when `(a · b) · c` and `a · (b · c)`
/// are both computed, they denote the same number.
pub proof fn law_mul_assoc(a: XC, b: XC, c: XC)
    requires
        a.0.valid(),
        b.0.valid(),
        c.0.valid(),
    ensures
        a.1 && b.1 && c.1 ==> (xcmul(a, b) matches Ok(ab) ==> (xcmul(ab, c) matches Ok(l) ==> (
        xcmul(b, c) matches Ok(bc) ==> (xcmul(a, bc) matches Ok(r) ==> l.0.ceqv(r.0))))),
{
    if a.1 && b.1 && c.1 {
        lemma_xc_values(a, b);
        lemma_xc_values(b, c);
        lemma_cvalid(a.0, b.0);
        lemma_cvalid(b.0, c.0);
        if let Ok(ab) = xcmul(a, b) {
            if let Ok(bc) = xcmul(b, c) {
                lemma_xc_values(ab, c);
                lemma_xc_values(a, bc);
                lemma_ceqv_refl_sym_trans(c.0, c.0, c.0);
                lemma_ceqv_refl_sym_trans(a.0, a.0, a.0);
                lemma_ctimes_congr(ab.0, c.0, a.0.ctimes(b.0), c.0);
                lemma_ctimes_congr(a.0, bc.0, a.0, b.0.ctimes(c.0));
                lemma_ctimes_assoc(a.0, b.0, c.0);
                lemma_cvalid(a.0.ctimes(b.0), c.0);
                lemma_cvalid(a.0, b.0.ctimes(c.0));
                lemma_cvalid(ab.0, c.0);
                lemma_cvalid(a.0, bc.0);
                if let Ok(l) = xcmul(ab, c) {
                    if let Ok(r) = xcmul(a, bc) {
                        let (x, y) = (a.0.ctimes(b.0).ctimes(c.0), a.0.ctimes(b.0.ctimes(c.0)));
                        lemma_ceqv_refl_sym_trans(l.0, ab.0.ctimes(c.0), x);
                        lemma_ceqv_refl_sym_trans(l.0, x, y);
                        lemma_ceqv_refl_sym_trans(r.0, a.0.ctimes(bc.0), y);
                        lemma_ceqv_refl_sym_trans(l.0, y, r.0);
                    }
                }
            }
        }
    }
}

/// Addition needs no rounding when the sums of the parts fit: whatever the exactness of the
/// operands, the sum is computed and denotes `a + b`.
pub proof fn law_add_any_exactness(a: XC, b: XC)
    requires
        a.0.valid(),
        b.0.valid(),
        crate::rat::fits(a.0.re.plus(b.0.re)),
        crate::rat::fits(a.0.im.plus(b.0.im)),
    ensures
        xcadd(a, b) matches Ok(r) && r.0.ceqv(a.0.cplus(b.0)),
{
    crate::exact::lemma_xadd_fits(re_part(a), re_part(b));
    crate::exact::lemma_xadd_fits(im_part(a), im_part(b));
}

/// Multiplication of operands with small parts (numerators and denominators of magnitude at
/// most 128) needs no rounding: whatever the exactness of the operands, the product is
/// computed and denotes `a · b`.
pub proof fn law_mul_any_exactness(a: XC, b: XC)
    requires
        a.0.valid(),
        b.0.valid(),
        crate::division::small(a.0),
        crate::division::small(b.0),
    ensures
        xcmul(a, b) matches Ok(r) && r.0.ceqv(a.0.ctimes(b.0)),
{
    let (ar, ai, br, bi) = (re_part(a), im_part(a), re_part(b), im_part(b));
    let (b1, b2): (int, int) = (128, 16384);
    lemma_bound_ops(ar.0, br.0, b1, b1, b1, b1);
    lemma_bound_ops(ai.0, bi.0, b1, b1, b1, b1);
    lemma_bound_ops(ar.0, bi.0, b1, b1, b1, b1);
    lemma_bound_ops(ai.0, br.0, b1, b1, b1, b1);
    lemma_xmul_fits(ar, br);
    lemma_xmul_fits(ai, bi);
    lemma_xmul_fits(ar, bi);
    lemma_xmul_fits(ai, br);
    let p1 = xmul(ar, br)->Ok_0;
    let p2 = xmul(ai, bi)->Ok_0;
    let p3 = xmul(ar, bi)->Ok_0;
    let p4 = xmul(ai, br)->Ok_0;
    assert(bounded(p1.0, b2, b2) && bounded(p2.0, b2, b2));
    assert(bounded(p3.0, b2, b2) && bounded(p4.0, b2, b2));
    lemma_bound_ops(p1.0, p2.0.negated(), b2, b2, b2, b2);
    lemma_bound_ops(p2.0, p2.0, b2, b2, b2, b2);
    lemma_bound_ops(p3.0, p4.0, b2, b2, b2, b2);
    lemma_valid_ops(p2.0, p2.0);
    lemma_xadd_fits(p1, xneg(p2));
    lemma_xadd_fits(p3, p4);
    let re = xadd(p1, xneg(p2))->Ok_0;
    let im = xadd(p3, p4)->Ok_0;
    lemma_valid_ops(p1.0, p2.0);
    lemma_valid_ops(p3.0, p4.0);
    lemma_valid_ops(ar.0, br.0);
    lemma_valid_ops(ai.0, bi.0);
    lemma_valid_ops(ar.0, bi.0);
    lemma_valid_ops(ai.0, br.0);
    lemma_minus_congr(p1.0, p2.0, ar.0.times(br.0), ai.0.times(bi.0));
    lemma_eqv_trans(re.0, p1.0.minus(p2.0), a.0.ctimes(b.0).re);
    lemma_plus_congr(p3.0, p4.0, ar.0.times(bi.0), ai.0.times(br.0));
    lemma_eqv_trans(im.0, p3.0.plus(p4.0), a.0.ctimes(b.0).im);
}

} // verus!
