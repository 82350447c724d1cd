use crate::complex::{CRat, Complex};
use crate::error::FendError;
use crate::exact::{lemma_checked, lift, xres, Exact, XRat};
use crate::rat::{abs, checked, normalize, lemma_eqv_sign, lemma_normalize, lemma_valid_ops, limit, rat_int, Rat};
use crate::realnum::{add_spec, lemma_rounded, pow_spec, rounded, Real};
use vstd::prelude::*;

verus! {

/// The scale of approximate square roots: they are multiples of `2^-32`.
pub open spec fn root_scale() -> int {
    0x1_0000_0000
}

/// `r` is the integer square root of `m`.
pub open spec fn is_isqrt(r: int, m: int) -> bool {
    0 <= r && r * r <= m && m < (r + 1) * (r + 1)
}

pub open spec fn square(k: nat) -> nat {
    k * k
}

/// `m` is the square of a natural number.
pub open spec fn perfect_square(m: int) -> bool {
    exists|k: nat| #[trigger] square(k) == m
}

/// A number is a perfect square exactly when its integer square root squares back to it.
proof fn lemma_isqrt_square(r: int, m: int)
    requires
        is_isqrt(r, m),
    ensures
        perfect_square(m) <==> r * r == m,
{
    if r * r == m {
        assert(perfect_square(m)) by {
            assert(square(r as nat) == m);
        }
    }
    if perfect_square(m) {
        let k = choose|k: nat| #[trigger] square(k) == m;
        assert(r == k) by (nonlinear_arith)
            requires
                0 <= r,
                r * r <= m,
                m < (r + 1) * (r + 1),
                k * k == m,
                k >= 0,
        ;
    }
}

/// The largest integer whose square does not exceed `m`.
pub fn isqrt(m: u128) -> (r: u128)
    ensures
        is_isqrt(r as int, m as int),
        r < 0x1_0000_0000_0000_0000,
{
    let mut lo: u128 = 0;
    let mut hi: u128 = 0x1_0000_0000_0000_0000;
    assert(m < 0x1_0000_0000_0000_0000 * 0x1_0000_0000_0000_0000);
    while hi - lo > 1
        invariant
            lo < hi <= 0x1_0000_0000_0000_0000,
            lo * lo <= m,
            m < hi * hi,
        decreases hi - lo,
    {
        let mid = lo + (hi - lo) / 2;
        assert(mid * mid < 0x1_0000_0000_0000_0000 * 0x1_0000_0000_0000_0000) by (nonlinear_arith)
            requires
                mid < 0x1_0000_0000_0000_0000,
        ;
        if mid * mid <= m {
            lo = mid;
        } else {
            hi = mid;
        }
    }
    assert(hi == lo + 1);
    lo
}

/// The integer square root of `m`: the largest integer whose square does not exceed `m`.
pub open spec fn int_sqrt(m: int) -> int {
    choose|r: int| is_isqrt(r, m)
}

/// The integer square root is unique.
proof fn lemma_int_sqrt(r: int, m: int)
    requires
        is_isqrt(r, m),
    ensures
        int_sqrt(m) == r,
{
    let s = int_sqrt(m);
    assert(is_isqrt(s, m));
    assert(s == r) by (nonlinear_arith)
        requires
            0 <= r,
            r * r <= m,
            m < (r + 1) * (r + 1),
            0 <= s,
            s * s <= m,
            m < (s + 1) * (s + 1),
    ;
}

/// The outcome of a square root of a non-negative `q`. When both parts of `q` are perfect
/// squares it is exact: the non-negative number whose square is `q`, as the roots of the two
/// parts in lowest terms. Otherwise it is the
/// approximate `r / 2^32` for the integer square root `r` of `q · 2^64` (the root rounded down
/// to a multiple of `2^-32`), reduced, or rounded further (see `rounded`) when that does not
/// fit.
pub open spec fn sqrt_outcome(q: Rat, r: Result<XRat, FendError>) -> bool {
    if perfect_square(q.n) && perfect_square(q.d) {
        r matches Ok(x) && x.1 && x.0 == normalize(Rat { n: int_sqrt(q.n), d: int_sqrt(q.d) })
            && x.0.valid() && x.0.n >= 0 && x.0.times(x.0).eqv(q)
    } else {
        r == lift(
            rounded(
                Rat {
                    n: int_sqrt(q.n * (root_scale() * root_scale()) / q.d),
                    d: root_scale(),
                },
            ),
            false,
        )
    }
}

/// A rounded-down root `r / 2^32` with `r < 2^64` can always be held, rounded.
proof fn lemma_root_fits(r: int)
    requires
        0 <= r < 0x1_0000_0000_0000_0000,
    ensures
        rounded(Rat { n: r, d: root_scale() }) is Some,
{
    let t = Rat { n: r, d: root_scale() };
    lemma_normalize(t);
    if checked(t) is None {
        let m = r as nat;
        let e = root_scale() as nat;
        assert(abs(t.n) == m);
        if m <= limit() {
            assert(crate::realnum::shrink(m, e) == (m, e));
            lemma_normalize(Rat { n: m as int, d: e as int });
        } else {
            assert(crate::realnum::shrink(m / 2, e / 2) == (m / 2, e / 2));
            assert(crate::realnum::shrink(m, e) == (m / 2, e / 2));
            lemma_normalize(Rat { n: (m / 2) as int, d: (e / 2) as int });
        }
    }
}

impl Real {
    /// Square root of a non-negative number: exact and non-negative when its numerator and
    /// denominator are perfect squares, as for the square of any rational in lowest terms, and
    /// otherwise rounded down to a multiple of `2^-32`.
    pub fn sqrt(self) -> (r: Result<Exact<Real>, FendError>)
        ensures
            self@.n < 0 ==> r == Err::<Exact<Real>, FendError>(FendError::NegativeNumbersNotAllowed),
            self@.n >= 0 ==> sqrt_outcome(self@, xres(r)),
            self@.n >= 0 ==> r is Ok,
    {
        proof {
            use_type_invariant(&self);
        }
        let (p, q) = self.parts();
        if p < 0 {
            return Err(FendError::NegativeNumbersNotAllowed);
        }
        let sp = isqrt(p as u128);
        let sq = isqrt(q as u128);
        proof {
            lemma_isqrt_square(sp as int, p as int);
            lemma_isqrt_square(sq as int, q as int);
            lemma_int_sqrt(sp as int, p as int);
            lemma_int_sqrt(sq as int, q as int);
        }
        if sp * sp == p as u128 && sq * sq == q as u128 {
            proof {
                assert(sq > 0) by (nonlinear_arith)
                    requires
                        sq * sq == q as int,
                        q > 0,
                ;
                assert(sp <= limit() && sq <= limit()) by (nonlinear_arith)
                    requires
                        sp * sp == p as int,
                        sq * sq == q as int,
                        p <= limit(),
                        q <= limit(),
                        sp >= 0,
                        sq >= 0,
                ;
            }
            let ghost w = Rat { n: sp as int, d: sq as int };
            proof {
                lemma_normalize(w);
            }
            let v = Real::from_fraction(sp as i128, sq as i128)?;
            proof {
                crate::rat::lemma_times_congr(v@, v@, w, w);
                lemma_eqv_sign(v@, w);
            }
            return Ok(Exact::new(v, true));
        }
        proof {
            assert((p as u128) * 0x1_0000_0000_0000_0000u128 == p * (root_scale() * root_scale()));
        }
        let m: u128 = ((p as u128) * 0x1_0000_0000_0000_0000u128) / (q as u128);
        let r = isqrt(m);
        proof {
            lemma_int_sqrt(r as int, m as int);
            lemma_root_fits(r as int);
        }
        let v = Real::from_fraction_rounded(r as i128, 0x1_0000_0000i128)?;
        Ok(Exact::new(v, false))
    }
}

/// The square of the magnitude, `re² + im²`, each power and the sum computed in turn.
pub open spec fn norm_spec(re: Rat, im: Rat) -> Result<Rat, FendError> {
    match pow_spec(re, rat_int(2)) {
        Err(e) => Err(e),
        Ok(a) => match pow_spec(im, rat_int(2)) {
            Err(e) => Err(e),
            Ok(b) => add_spec(a, b),
        },
    }
}

/// A square computed by `pow_spec` is never negative.
proof fn lemma_square_nonneg(q: Rat)
    requires
        q.valid(),
    ensures
        pow_spec(q, rat_int(2)) matches Ok(s) ==> s.n >= 0 && s.valid(),
{
    let t = q.times(q);
    lemma_valid_ops(q, q);
    lemma_checked(t);
    assert(t.n >= 0) by (nonlinear_arith)
        requires
            t.n == q.n * q.n,
    ;
    assert(rat_int(2).is_integer() && rat_int(2).int_value() == 2);
    reveal_with_fuel(crate::realnum::rpow_loop, 3);
    if let Some(b) = checked(t) {
        lemma_eqv_sign(b, t);
        let u = rat_int(1).times(b);
        lemma_valid_ops(rat_int(1), b);
        lemma_checked(u);
        assert(u.n == b.n) by (nonlinear_arith)
            requires
                u.n == 1 * b.n,
        ;
        if let Some(c) = checked(u) {
            lemma_eqv_sign(c, u);
        }
    }
}

/// What the magnitude of `z` may be: its real or imaginary part made non-negative, exactly,
/// when the other part is zero; otherwise a square root (see `sqrt_outcome`) of `re² + im²`.
pub open spec fn abs_rel(z: CRat, r: Result<XRat, FendError>) -> bool {
    if z.im.is_zero() {
        r == Ok::<XRat, FendError>(
            (
                if z.re.n < 0 {
                    z.re.negated()
                } else {
                    z.re
                },
                true,
            ),
        )
    } else if z.re.is_zero() {
        r == Ok::<XRat, FendError>(
            (
                if z.im.n < 0 {
                    z.im.negated()
                } else {
                    z.im
                },
                true,
            ),
        )
    } else {
        match norm_spec(z.re, z.im) {
            Err(e) => r == Err::<XRat, FendError>(e),
            Ok(s) => s.n >= 0 && sqrt_outcome(s, r),
        }
    }
}

impl Complex {
    /// The magnitude `√(re² + im²)`: exact along the axes, and otherwise the square root of
    /// the exact sum of squares.
    pub fn abs(self) -> (r: Result<Exact<Real>, FendError>)
        ensures
            abs_rel(self@, xres(r)),
    {
        let zero = Real::zero();
        if self.imag.is_zero() {
            if self.real.lt(&zero) {
                Ok(Exact::new(self.real.neg(), true))
            } else {
                Ok(Exact::new(self.real, true))
            }
        } else if self.real.is_zero() {
            if self.imag.lt(&zero) {
                Ok(Exact::new(self.imag.neg(), true))
            } else {
                Ok(Exact::new(self.imag, true))
            }
        } else {
            proof {
                use_type_invariant(&self.real);
                use_type_invariant(&self.imag);
                lemma_square_nonneg(self@.re);
                lemma_square_nonneg(self@.im);
            }
            let power = self.real.pow(Real::from_u64(2))?;
            let power2 = self.imag.pow(Real::from_u64(2))?;
            let sum = power.add(power2)?;
            proof {
                use_type_invariant(&sum);
                lemma_valid_ops(power@, power2@);
                lemma_checked(power@.plus(power2@));
                assert(power@.plus(power2@).n >= 0) by (nonlinear_arith)
                    requires
                        power@.n >= 0,
                        power2@.n >= 0,
                        power@.d > 0,
                        power2@.d > 0,
                        power@.plus(power2@).n == power@.n * power2@.d + power2@.n * power@.d,
                ;
                lemma_eqv_sign(sum@, power@.plus(power2@));
            }
            let result = sum.sqrt()?;
            Ok(result.combine(true))
        }
    }
}

/// Two outcomes are the same: the same error, or equal numbers with the same exactness.
pub open spec fn same_outcome(a: Result<XRat, FendError>, b: Result<XRat, FendError>) -> bool {
    match (a, b) {
        (Ok(x), Ok(y)) => x.0.eqv(y.0) && x.1 == y.1,
        (Err(e), Err(f)) => e == f,
        _ => false,
    }
}

/// A square does not change when its base is negated.
proof fn lemma_square_of_negation(x: Rat)
    ensures
        pow_spec(x.negated(), rat_int(2)) == pow_spec(x, rat_int(2)),
{
    assert(x.negated().times(x.negated()) == x.times(x)) by (nonlinear_arith);
    assert(rat_int(2).is_integer() && rat_int(2).int_value() == 2);
    reveal_with_fuel(crate::realnum::rpow_loop, 3);
}

/// Two non-negative numbers with the same square are equal.
proof fn lemma_nonneg_root_unique(x: Rat, y: Rat, q: Rat)
    requires
        x.valid(),
        y.valid(),
        q.valid(),
        x.n >= 0,
        y.n >= 0,
        x.times(x).eqv(q),
        y.times(y).eqv(q),
    ensures
        x.eqv(y),
{
    let a = x.n * y.d;
    let b = y.n * x.d;
    assert(a * a == b * b) by (nonlinear_arith)
        requires
            (x.n * x.n) * q.d == q.n * (x.d * x.d),
            (y.n * y.n) * q.d == q.n * (y.d * y.d),
            q.d > 0,
            a == x.n * y.d,
            b == y.n * x.d,
    ;
    assert(a >= 0 && b >= 0) by (nonlinear_arith)
        requires
            a == x.n * y.d,
            b == y.n * x.d,
            x.n >= 0,
            y.n >= 0,
            x.d > 0,
            y.d > 0,
    ;
    assert(a == b) by (nonlinear_arith)
        requires
            a * a == b * b,
            a >= 0,
            b >= 0,
    ;
}

/// The square root outcome of a number is determined up to equality of the numbers denoted.
proof fn lemma_sqrt_outcome_unique(q: Rat, r1: Result<XRat, FendError>, r2: Result<XRat, FendError>)
    requires
        q.valid(),
        sqrt_outcome(q, r1),
        sqrt_outcome(q, r2),
    ensures
        same_outcome(r1, r2),
{
    if perfect_square(q.n) && perfect_square(q.d) {
        if let Ok(x) = r1 {
            if let Ok(y) = r2 {
                lemma_nonneg_root_unique(x.0, y.0, q);
            }
        }
    } else {
        let t = Rat { n: int_sqrt(q.n * (root_scale() * root_scale()) / q.d), d: root_scale() };
        lemma_rounded(t);
        if let Ok(x) = r1 {
            crate::rat::lemma_eqv_refl_sym(x.0, x.0);
        }
    }
}

/// The magnitude ignores signs: `|conj z|`, `|-z|` and `|z|` have the same outcome, up to
/// equality of the numbers denoted.
pub proof fn law_abs_ignores_signs(
    z: CRat,
    r: Result<XRat, FendError>,
    rc: Result<XRat, FendError>,
    rn: Result<XRat, FendError>,
)
    requires
        z.valid(),
        abs_rel(z, r),
        abs_rel(z.conj(), rc),
        abs_rel(z.cneg(), rn),
    ensures
        same_outcome(r, rc),
        same_outcome(r, rn),
{
    let (a, b) = (z.re, z.im);
    assert(a.negated().negated() == a);
    assert(b.negated().negated() == b);
    lemma_square_of_negation(a);
    lemma_square_of_negation(b);
    if let Ok(x) = r {
        crate::rat::lemma_eqv_refl_sym(x.0, x.0);
    }
    if !b.is_zero() && !a.is_zero() {
        if let Ok(s) = norm_spec(a, b) {
            lemma_square_nonneg(a);
            lemma_square_nonneg(b);
            if let Ok(p) = pow_spec(a, rat_int(2)) {
                if let Ok(p2) = pow_spec(b, rat_int(2)) {
                    lemma_valid_ops(p, p2);
                    lemma_checked(p.plus(p2));
                }
            }
            lemma_sqrt_outcome_unique(s, r, rc);
            lemma_sqrt_outcome_unique(s, r, rn);
        }
    }
}

} // verus!
