use crate::complex::{CRat, Complex};
use crate::rat::Rat;
use core::cmp::Ordering;
use vstd::prelude::*;

verus! {

/// The partial order on complex numbers: equal numbers are equal; otherwise a number is
/// less than another when neither part is greater, and greater when neither part is less;
/// other pairs are not comparable.
pub open spec fn partial_order(a: CRat, b: CRat) -> Option<Ordering> {
    if a.ceqv(b) {
        Some(Ordering::Equal)
    } else if a.re.le(b.re) && a.im.le(b.im) {
        Some(Ordering::Less)
    } else if b.re.le(a.re) && b.im.le(a.im) {
        Some(Ordering::Greater)
    } else {
        None
    }
}

impl Complex {
    /// Compares two complex numbers part by part.
    pub fn partial_cmp(&self, other: &Complex) -> (r: Option<Ordering>)
        ensures
            r == partial_order(self@, other@),
    {
        if self.real.eq_value(&other.real) && self.imag.eq_value(&other.imag) {
            Some(Ordering::Equal)
        } else if self.real.le(&other.real) && self.imag.le(&other.imag) {
            Some(Ordering::Less)
        } else if other.real.le(&self.real) && other.imag.le(&self.imag) {
            Some(Ordering::Greater)
        } else {
            None
        }
    }
}

/// Comparison is antisymmetric: `a` is less than `b` exactly when `b` is greater than `a`,
/// and equality and incomparability are symmetric.
pub proof fn law_partial_order_antisymmetric(a: CRat, b: CRat)
    requires
        a.valid(),
        b.valid(),
    ensures
        partial_order(a, b) == Some(Ordering::Less) <==> partial_order(b, a) == Some(
            Ordering::Greater,
        ),
        partial_order(a, b) == Some(Ordering::Equal) <==> partial_order(b, a) == Some(
            Ordering::Equal,
        ),
        partial_order(a, b) is None <==> partial_order(b, a) is None,
{
    lemma_le_antisym(a.re, b.re);
    lemma_le_antisym(a.im, b.im);
}

proof fn lemma_le_antisym(x: Rat, y: Rat)
    ensures
        x.le(y) && y.le(x) <==> x.eqv(y),
        x.eqv(y) <==> y.eqv(x),
{
}

} // verus!
