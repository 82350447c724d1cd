use vstd::arithmetic::div_mod::*;
use vstd::arithmetic::mul::lemma_mul_is_distributive_add_other_way;
use vstd::prelude::*;

verus! {

/// The largest magnitude of a numerator or denominator that a `Real` stores.
pub open spec fn limit() -> int {
    0x7fff_ffff_ffff_ffff
}

/// A rational number `n / d` over mathematical integers; it denotes a number when `d > 0`.
/// Different pairs may denote the same number: `eqv` is equality of the numbers denoted.
pub struct Rat {
    pub n: int,
    pub d: int,
}

impl Rat {
    pub open spec fn valid(self) -> bool {
        self.d > 0
    }

    /// The two pairs denote the same rational number.
    pub open spec fn eqv(self, o: Rat) -> bool {
        self.n * o.d == o.n * self.d
    }

    pub open spec fn plus(self, o: Rat) -> Rat {
        Rat { n: self.n * o.d + o.n * self.d, d: self.d * o.d }
    }

    pub open spec fn negated(self) -> Rat {
        Rat { n: -self.n, d: self.d }
    }

    pub open spec fn minus(self, o: Rat) -> Rat {
        self.plus(o.negated())
    }

    pub open spec fn times(self, o: Rat) -> Rat {
        Rat { n: self.n * o.n, d: self.d * o.d }
    }

    /// The reciprocal, with a positive denominator; meaningful when `n != 0`.
    pub open spec fn recip(self) -> Rat {
        if self.n >= 0 {
            Rat { n: self.d, d: self.n }
        } else {
            Rat { n: -self.d, d: -self.n }
        }
    }

    pub open spec fn over(self, o: Rat) -> Rat {
        self.times(o.recip())
    }

    pub open spec fn is_zero(self) -> bool {
        self.n == 0
    }

    /// Strictly less than, for pairs with positive denominators.
    pub open spec fn lt(self, o: Rat) -> bool {
        self.n * o.d < o.n * self.d
    }

    pub open spec fn le(self, o: Rat) -> bool {
        self.n * o.d <= o.n * self.d
    }

    pub open spec fn is_integer(self) -> bool {
        self.n % self.d == 0
    }

    /// The integer denoted, for an integral rational.
    pub open spec fn int_value(self) -> int {
        self.n / self.d
    }
}

pub open spec fn rat_int(i: int) -> Rat {
    Rat { n: i, d: 1 }
}

pub open spec fn abs(x: int) -> nat {
    if x < 0 {
        (-x) as nat
    } else {
        x as nat
    }
}

/// Greatest common divisor, by Euclid's algorithm.
pub open spec fn gcd(a: nat, b: nat) -> nat
    decreases b,
{
    if b == 0 {
        a
    } else {
        gcd(b, a % b)
    }
}

/// The pair divided by the greatest common divisor of its parts.
pub open spec fn normalize(q: Rat) -> Rat {
    let g = gcd(abs(q.n), q.d as nat) as int;
    Rat { n: q.n / g, d: q.d / g }
}

/// Both parts are within the bounds of the fixed-width representation.
pub open spec fn fits(q: Rat) -> bool {
    -limit() <= q.n <= limit() && 0 < q.d <= limit()
}

/// The reduced form of `q` when it fits the fixed-width representation.
pub open spec fn checked(q: Rat) -> Option<Rat> {
    let r = normalize(q);
    if fits(r) {
        Some(r)
    } else {
        None
    }
}

/// The greatest common divisor divides both arguments, and is positive unless both are zero.
pub proof fn lemma_gcd_divides(a: nat, b: nat)
    ensures
        (a > 0 || b > 0) ==> gcd(a, b) > 0,
        gcd(a, b) > 0 ==> a % gcd(a, b) == 0 && b % gcd(a, b) == 0,
        gcd(a, b) <= a || b > 0,
    decreases b,
{
    if b == 0 {
        if a > 0 {
            lemma_mod_self_0(a as int);
            lemma_small_mod(0, a);
        }
    } else {
        lemma_mod_pos_bound(a as int, b as int);
        lemma_gcd_divides(b, a % b);
        let g = gcd(b, a % b) as int;
        assert(g > 0);
        let q = a as int / b as int;
        let r = a as int % b as int;
        lemma_fundamental_div_mod(a as int, b as int);
        lemma_fundamental_div_mod(b as int, g);
        lemma_fundamental_div_mod(r, g);
        let k = (b as int / g) * q + r / g;
        assert(a as int == k * g) by (nonlinear_arith)
            requires
                a as int == b as int * q + r,
                b as int == g * (b as int / g) + 0,
                r == g * (r / g) + 0,
                k == (b as int / g) * q + r / g,
        ;
        lemma_mod_multiples_basic(k, g);
    }
}

/// Reducing a pair keeps the number it denotes and does not enlarge its parts.
pub proof fn lemma_normalize(q: Rat)
    requires
        q.valid(),
    ensures
        normalize(q).valid(),
        normalize(q).eqv(q),
        abs(normalize(q).n) <= abs(q.n),
        normalize(q).d <= q.d,
{
    let a = abs(q.n);
    let b = q.d as nat;
    lemma_gcd_divides(a, b);
    let g = gcd(a, b) as int;
    lemma_fundamental_div_mod(a as int, g);
    lemma_fundamental_div_mod(b as int, g);
    let ka = a as int / g;
    let kb = b as int / g;
    assert(a == g * ka && b == g * kb);
    if q.n < 0 {
        assert(q.n == g * (-ka)) by (nonlinear_arith)
            requires
                q.n == -(a as int),
                a as int == g * ka,
        ;
    } else {
        assert(q.n == g * ka);
    }
    let kn = if q.n < 0 {
        -ka
    } else {
        ka
    };
    assert(q.n == g * kn);
    lemma_div_multiples_vanish(kn, g);
    lemma_div_multiples_vanish(kb, g);
    let r = normalize(q);
    assert(r.n == kn && r.d == kb);
    assert(kb > 0) by (nonlinear_arith)
        requires
            b as int == g * kb,
            b > 0,
            g > 0,
    ;
    assert(kn * q.d == q.n * kb) by (nonlinear_arith)
        requires
            q.n == g * kn,
            q.d == g * kb,
    ;
    assert(abs(kn) <= a) by (nonlinear_arith)
        requires
            a as int == g * ka,
            g > 0,
            ka >= 0,
            kn == ka || kn == -ka,
    ;
    assert(kb <= b) by (nonlinear_arith)
        requires
            b as int == g * kb,
            g > 0,
            kb > 0,
    ;
}

/// Equality of denoted numbers is reflexive and symmetric.
pub proof fn lemma_eqv_refl_sym(a: Rat, b: Rat)
    ensures
        a.eqv(a),
        a.eqv(b) ==> b.eqv(a),
{
}

/// Equality of denoted numbers is transitive.
pub proof fn lemma_eqv_trans(a: Rat, b: Rat, c: Rat)
    requires
        b.valid(),
        a.eqv(b),
        b.eqv(c),
    ensures
        a.eqv(c),
{
    let x = a.n * c.d;
    let y = c.n * a.d;
    assert(b.d * x == (a.n * b.d) * c.d) by (nonlinear_arith)
        requires x == a.n * c.d;
    assert(b.d * y == (c.n * b.d) * a.d) by (nonlinear_arith)
        requires y == c.n * a.d;
    assert((b.n * a.d) * c.d == (b.n * c.d) * a.d) by (nonlinear_arith);
    vstd::arithmetic::mul::lemma_mul_equality_converse(b.d, x, y);
}

/// Sums, differences and products of valid pairs are valid.
pub proof fn lemma_valid_ops(a: Rat, b: Rat)
    requires
        a.valid(),
        b.valid(),
    ensures
        a.plus(b).valid(),
        a.minus(b).valid(),
        a.times(b).valid(),
        a.negated().valid(),
        !b.is_zero() ==> b.recip().valid() && a.over(b).valid(),
{
    assert(a.d * b.d > 0) by (nonlinear_arith)
        requires
            a.d > 0,
            b.d > 0,
    ;
    if !b.is_zero() {
        let r = b.recip();
        assert(r.d > 0);
        assert(a.d * r.d > 0) by (nonlinear_arith)
            requires
                a.d > 0,
                r.d > 0,
        ;
    }
}

/// Regrouping of a product of four factors.
pub proof fn lemma_regroup(w: int, x: int, y: int, z: int)
    ensures
        (w * x) * (y * z) == (w * y) * (x * z),
        (w * x) * (y * z) == (w * z) * (x * y),
{
    assert((w * x) * (y * z) == (w * y) * (x * z)) by (nonlinear_arith);
    assert((w * x) * (y * z) == (w * z) * (x * y)) by (nonlinear_arith);
}

/// Addition respects equality of denoted numbers.
pub proof fn lemma_plus_congr(a: Rat, b: Rat, a2: Rat, b2: Rat)
    requires
        a.eqv(a2),
        b.eqv(b2),
    ensures
        a.plus(b).eqv(a2.plus(b2)),
{
    lemma_mul_is_distributive_add_other_way(a2.d * b2.d, a.n * b.d, b.n * a.d);
    lemma_mul_is_distributive_add_other_way(a.d * b.d, a2.n * b2.d, b2.n * a2.d);
    lemma_regroup(a.n, b.d, a2.d, b2.d);
    lemma_regroup(b.n, a.d, a2.d, b2.d);
    lemma_regroup(a2.n, b2.d, a.d, b.d);
    lemma_regroup(b2.n, a2.d, a.d, b.d);
    lemma_regroup(b.n, b2.d, a.d, a2.d);
    lemma_regroup(b2.n, b.d, a.d, a2.d);
    assert(a.d * a2.d == a2.d * a.d) by (nonlinear_arith);
    assert(b.d * b2.d == b2.d * b.d) by (nonlinear_arith);
}

/// Negation respects equality of denoted numbers.
pub proof fn lemma_neg_congr(a: Rat, a2: Rat)
    requires
        a.eqv(a2),
    ensures
        a.negated().eqv(a2.negated()),
{
    assert((-a.n) * a2.d == (-a2.n) * a.d) by (nonlinear_arith)
        requires
            a.n * a2.d == a2.n * a.d,
    ;
}

/// Multiplication respects equality of denoted numbers.
pub proof fn lemma_times_congr(a: Rat, b: Rat, a2: Rat, b2: Rat)
    requires
        a.eqv(a2),
        b.eqv(b2),
    ensures
        a.times(b).eqv(a2.times(b2)),
{
    assert((a.n * b.n) * (a2.d * b2.d) == (a2.n * b2.n) * (a.d * b.d)) by (nonlinear_arith)
        requires
            a.n * a2.d == a2.n * a.d,
            b.n * b2.d == b2.n * b.d,
    ;
}

/// Addition and multiplication are commutative, and negation distributes over products.
pub proof fn lemma_comm(a: Rat, b: Rat)
    ensures
        a.plus(b).eqv(b.plus(a)),
        a.times(b).eqv(b.times(a)),
        a.times(b) == b.times(a),
        a.negated().times(b).eqv(a.times(b).negated()),
        a.times(b.negated()).eqv(a.times(b).negated()),
{
    assert(a.n * b.n == b.n * a.n && a.d * b.d == b.d * a.d) by (nonlinear_arith);
    assert((a.n * b.d + b.n * a.d) * (b.d * a.d) == (b.n * a.d + a.n * b.d) * (a.d * b.d))
        by (nonlinear_arith);
    assert(((-a.n) * b.n) * (a.d * b.d) == (-(a.n * b.n)) * (a.d * b.d)) by (nonlinear_arith);
    assert((a.n * (-b.n)) * (a.d * b.d) == (-(a.n * b.n)) * (a.d * b.d)) by (nonlinear_arith);
}

/// Addition and multiplication are associative.
pub proof fn lemma_assoc(a: Rat, b: Rat, c: Rat)
    ensures
        a.plus(b).plus(c).eqv(a.plus(b.plus(c))),
        a.times(b).times(c).eqv(a.times(b.times(c))),
{
    let l = a.plus(b).plus(c);
    let r = a.plus(b.plus(c));
    assert(l.n == a.n * b.d * c.d + b.n * a.d * c.d + c.n * a.d * b.d) by (nonlinear_arith)
        requires l.n == (a.n * b.d + b.n * a.d) * c.d + c.n * (a.d * b.d);
    assert(r.n == a.n * b.d * c.d + b.n * a.d * c.d + c.n * a.d * b.d) by (nonlinear_arith)
        requires r.n == a.n * (b.d * c.d) + (b.n * c.d + c.n * b.d) * a.d;
    assert(l.d == r.d) by (nonlinear_arith)
        requires l.d == (a.d * b.d) * c.d, r.d == a.d * (b.d * c.d);
    let l2 = a.times(b).times(c);
    let r2 = a.times(b.times(c));
    assert(l2.n == r2.n && l2.d == r2.d) by (nonlinear_arith)
        requires
            l2.n == (a.n * b.n) * c.n,
            r2.n == a.n * (b.n * c.n),
            l2.d == (a.d * b.d) * c.d,
            r2.d == a.d * (b.d * c.d),
    ;
}

/// Multiplication distributes over addition.
pub proof fn lemma_distrib(a: Rat, b: Rat, c: Rat)
    ensures
        a.times(b.plus(c)).eqv(a.times(b).plus(a.times(c))),
{
    let l = a.times(b.plus(c));
    let r = a.times(b).plus(a.times(c));
    let k = a.n * b.n * c.d + a.n * c.n * b.d;
    assert(l.n == k) by (nonlinear_arith)
        requires
            l.n == a.n * (b.n * c.d + c.n * b.d),
            k == a.n * b.n * c.d + a.n * c.n * b.d,
    ;
    assert(l.d == a.d * b.d * c.d) by (nonlinear_arith)
        requires
            l.d == a.d * (b.d * c.d),
    ;
    assert(r.n == a.d * k) by (nonlinear_arith)
        requires
            r.n == (a.n * b.n) * (a.d * c.d) + (a.n * c.n) * (a.d * b.d),
            k == a.n * b.n * c.d + a.n * c.n * b.d,
    ;
    assert(r.d == a.d * (a.d * b.d * c.d)) by (nonlinear_arith)
        requires
            r.d == (a.d * b.d) * (a.d * c.d),
    ;
    assert(k * (a.d * (a.d * b.d * c.d)) == (a.d * k) * (a.d * b.d * c.d)) by (nonlinear_arith);
}

/// Subtraction respects equality of denoted numbers.
pub proof fn lemma_minus_congr(a: Rat, b: Rat, a2: Rat, b2: Rat)
    requires
        a.eqv(a2),
        b.eqv(b2),
    ensures
        a.minus(b).eqv(a2.minus(b2)),
{
    lemma_neg_congr(b, b2);
    lemma_plus_congr(a, b.negated(), a2, b2.negated());
}

/// The negation of a sum is the sum of the negations.
pub proof fn lemma_neg_plus(a: Rat, b: Rat)
    ensures
        a.plus(b).negated() == a.negated().plus(b.negated()),
{
    assert(-(a.n * b.d + b.n * a.d) == (-a.n) * b.d + (-b.n) * a.d) by (nonlinear_arith);
}

/// Multiplication distributes over addition and subtraction, from either side.
pub proof fn lemma_distrib_both(a: Rat, b: Rat, c: Rat)
    requires
        a.valid(),
        b.valid(),
        c.valid(),
    ensures
        a.times(b.plus(c)).eqv(a.times(b).plus(a.times(c))),
        a.times(b.minus(c)).eqv(a.times(b).minus(a.times(c))),
        b.plus(c).times(a).eqv(b.times(a).plus(c.times(a))),
        b.minus(c).times(a).eqv(b.times(a).minus(c.times(a))),
{
    lemma_distrib(a, b, c);
    lemma_distrib(a, b, c.negated());
    lemma_comm(a, c);
    lemma_comm(a, b);
    lemma_comm(a, b.plus(c));
    lemma_comm(a, b.minus(c));
    lemma_valid_ops(a, b);
    lemma_valid_ops(a, c);
    lemma_valid_ops(b, c);
    lemma_eqv_refl_sym(a.times(b), a.times(b));
    lemma_plus_congr(a.times(b), a.times(c.negated()), a.times(b), a.times(c).negated());
    lemma_valid_ops(a, c.negated());
    lemma_valid_ops(a.times(b), a.times(c.negated()));
    lemma_eqv_trans(a.times(b.minus(c)), a.times(b).plus(a.times(c.negated())), a.times(b).minus(a.times(c)));
}

/// Regrouping four summands: `(p + q) + (r + s)` and `(p + r) + (s + q)` denote the same number.
pub proof fn lemma_swap_summands(p: Rat, q: Rat, r: Rat, s: Rat)
    ensures
        p.plus(q).plus(r.plus(s)).eqv(p.plus(r).plus(s.plus(q))),
{
    let l = p.plus(q).plus(r.plus(s));
    let m = p.plus(r).plus(s.plus(q));
    lemma_mul_is_distributive_add_other_way(r.d * s.d, p.n * q.d, q.n * p.d);
    lemma_mul_is_distributive_add_other_way(p.d * q.d, r.n * s.d, s.n * r.d);
    lemma_mul_is_distributive_add_other_way(s.d * q.d, p.n * r.d, r.n * p.d);
    lemma_mul_is_distributive_add_other_way(p.d * r.d, s.n * q.d, q.n * s.d);
    lemma_regroup(p.n, r.d, s.d, q.d);
    lemma_regroup(r.n, p.d, s.d, q.d);
    lemma_regroup(s.n, q.d, p.d, r.d);
    lemma_regroup(q.n, s.d, p.d, r.d);
    lemma_regroup(p.n, q.d, r.d, s.d);
    lemma_regroup(q.n, p.d, r.d, s.d);
    lemma_regroup(r.n, s.d, p.d, q.d);
    lemma_regroup(s.n, r.d, p.d, q.d);
    assert(l.n == (p.n * q.d) * (r.d * s.d) + (q.n * p.d) * (r.d * s.d) + (r.n * s.d) * (p.d * q.d)
        + (s.n * r.d) * (p.d * q.d));
    assert(m.n == (p.n * r.d) * (s.d * q.d) + (r.n * p.d) * (s.d * q.d) + (s.n * q.d) * (p.d * r.d)
        + (q.n * s.d) * (p.d * r.d));
    assert((p.n * r.d) * (s.d * q.d) == (p.n * q.d) * (r.d * s.d)) by (nonlinear_arith);
    assert((r.n * p.d) * (s.d * q.d) == (r.n * s.d) * (p.d * q.d)) by (nonlinear_arith);
    assert((s.n * q.d) * (p.d * r.d) == (s.n * r.d) * (p.d * q.d)) by (nonlinear_arith);
    assert((q.n * s.d) * (p.d * r.d) == (q.n * p.d) * (r.d * s.d)) by (nonlinear_arith);
    assert(l.n == m.n);
    assert(l.d == m.d) by (nonlinear_arith)
        requires
            l.d == (p.d * q.d) * (r.d * s.d),
            m.d == (p.d * r.d) * (s.d * q.d),
    ;
}

/// Pairs denoting the same number have numerators of the same sign.
pub proof fn lemma_eqv_sign(a: Rat, b: Rat)
    requires
        a.valid(),
        b.valid(),
        a.eqv(b),
    ensures
        (a.n >= 0) == (b.n >= 0),
        (a.n == 0) == (b.n == 0),
{
    assert((a.n >= 0) == (b.n >= 0) && (a.n == 0) == (b.n == 0)) by (nonlinear_arith)
        requires
            a.n * b.d == b.n * a.d,
            a.d > 0,
            b.d > 0,
    ;
}

/// Chains three steps of equality of denoted numbers.
pub proof fn lemma_eqv_chain(p: Rat, q: Rat, r: Rat, s: Rat)
    requires
        q.valid(),
        r.valid(),
        p.eqv(q),
        q.eqv(r),
        r.eqv(s),
    ensures
        p.eqv(s),
{
    lemma_eqv_trans(p, q, r);
    lemma_eqv_trans(p, r, s);
}

/// Zero absorbs products, and adding or subtracting zero keeps a number.
pub proof fn lemma_zero_laws(x: Rat, z: Rat)
    requires
        x.valid(),
        z.valid(),
        z.is_zero(),
    ensures
        z.times(x).is_zero(),
        x.times(z).is_zero(),
        x.plus(z).eqv(x),
        z.plus(x).eqv(x),
        x.minus(z).eqv(x),
        z.eqv(rat_int(0)),
{
    assert(z.n * x.n == 0 && x.n * z.n == 0) by (nonlinear_arith)
        requires
            z.n == 0,
    ;
    assert((x.n * z.d + z.n * x.d) * x.d == x.n * (x.d * z.d)) by (nonlinear_arith)
        requires
            z.n == 0,
    ;
    assert((z.n * x.d + x.n * z.d) * x.d == x.n * (z.d * x.d)) by (nonlinear_arith)
        requires
            z.n == 0,
    ;
    assert((x.n * z.d + (-z.n) * x.d) * x.d == x.n * (x.d * z.d)) by (nonlinear_arith)
        requires
            z.n == 0,
    ;
}

/// One is a neutral factor.
pub proof fn lemma_one_times(x: Rat)
    ensures
        rat_int(1).times(x).eqv(x),
        x.times(rat_int(1)).eqv(x),
{
    assert((1 * x.n) * x.d == x.n * (1 * x.d)) by (nonlinear_arith);
    assert((x.n * 1) * x.d == x.n * (x.d * 1)) by (nonlinear_arith);
}

/// A non-zero number times its reciprocal is one.
pub proof fn lemma_recip(t: Rat)
    requires
        t.valid(),
        !t.is_zero(),
    ensures
        t.recip().valid(),
        !t.recip().is_zero(),
        t.times(t.recip()).eqv(rat_int(1)),
        t.recip().times(t).eqv(rat_int(1)),
{
    let r = t.recip();
    assert((t.n * r.n) * 1 == 1 * (t.d * r.d) && (r.n * t.n) * 1 == 1 * (r.d * t.d))
        by (nonlinear_arith)
        requires
            (t.n > 0 && r.n == t.d && r.d == t.n) || (t.n < 0 && r.n == -t.d && r.d == -t.n),
    ;
}

/// Reciprocals of equal non-zero numbers are equal.
pub proof fn lemma_recip_congr(a: Rat, b: Rat)
    requires
        a.valid(),
        b.valid(),
        !a.is_zero(),
        a.eqv(b),
    ensures
        a.recip().eqv(b.recip()),
{
    lemma_eqv_sign(a, b);
    let (ra, rb) = (a.recip(), b.recip());
    assert(ra.n * rb.d == rb.n * ra.d) by (nonlinear_arith)
        requires
            a.n * b.d == b.n * a.d,
            (a.n > 0 && b.n > 0 && ra.n == a.d && ra.d == a.n && rb.n == b.d && rb.d == b.n) || (
            a.n < 0 && b.n < 0 && ra.n == -a.d && ra.d == -a.n && rb.n == -b.d && rb.d == -b.n),
    ;
}

/// A number cancels against its own negation: `(a + b) - (b - c)` is `a + c`, and
/// `(a + b) + (c - a)` is `b + c`.
pub proof fn lemma_cancel(a: Rat, b: Rat, c: Rat)
    requires
        a.valid(),
        b.valid(),
        c.valid(),
    ensures
        a.plus(b).minus(b.minus(c)).eqv(a.plus(c)),
        a.plus(b).plus(c.minus(a)).eqv(b.plus(c)),
{
    let l = a.plus(b).minus(b.minus(c));
    let r = a.plus(c);
    let k = b.d * b.d;
    assert(l.n == (a.n * b.d + b.n * a.d) * (b.d * c.d) + (-(b.n * c.d + (-c.n) * b.d)) * (a.d
        * b.d));
    let (an, ad, bn, bd, cn, cd) = (a.n, a.d, b.n, b.d, c.n, c.d);
    lemma_mul_is_distributive_add_other_way(bd * cd, an * bd, bn * ad);
    lemma_regroup(an, bd, bd, cd);
    lemma_regroup(bn, ad, bd, cd);
    assert((an * cd) * (bd * bd) == k * (an * cd)) by (nonlinear_arith)
        requires
            k == bd * bd,
    ;
    assert((-(bn * cd + (-cn) * bd)) * (ad * bd) == -((bn * cd) * (ad * bd)) + k * (cn * ad))
        by (nonlinear_arith)
        requires
            k == bd * bd,
    ;
    assert(k * (an * cd) + k * (cn * ad) == k * r.n) by (nonlinear_arith)
        requires
            r.n == an * cd + cn * ad,
    ;
    assert(l.d == k * r.d) by (nonlinear_arith)
        requires
            l.d == (a.d * b.d) * (b.d * c.d),
            r.d == a.d * c.d,
            k == b.d * b.d,
    ;
    assert(l.n * r.d == r.n * l.d) by (nonlinear_arith)
        requires
            l.n == k * r.n,
            l.d == k * r.d,
    ;
    let l2 = a.plus(b).plus(c.minus(a));
    let r2 = b.plus(c);
    let k2 = a.d * a.d;
    assert(l2.n == (an * bd + bn * ad) * (cd * ad) + (cn * ad + (-an) * cd) * (ad * bd));
    lemma_mul_is_distributive_add_other_way(cd * ad, an * bd, bn * ad);
    lemma_regroup(an, bd, cd, ad);
    lemma_regroup(bn, ad, cd, ad);
    assert((an * cd) * (bd * ad) == (an * cd) * (ad * bd)) by (nonlinear_arith);
    assert((bn * cd) * (ad * ad) == k2 * (bn * cd)) by (nonlinear_arith)
        requires
            k2 == ad * ad,
    ;
    assert((cn * ad + (-an) * cd) * (ad * bd) == k2 * (cn * bd) - (an * cd) * (ad * bd)) by (nonlinear_arith)
        requires
            k2 == ad * ad,
    ;
    assert(k2 * (bn * cd) + k2 * (cn * bd) == k2 * r2.n) by (nonlinear_arith)
        requires
            r2.n == bn * cd + cn * bd,
    ;
    assert(l2.d == k2 * r2.d) by (nonlinear_arith)
        requires
            l2.d == (a.d * b.d) * (c.d * a.d),
            r2.d == b.d * c.d,
            k2 == a.d * a.d,
    ;
    assert(l2.n * r2.d == r2.n * l2.d) by (nonlinear_arith)
        requires
            l2.n == k2 * r2.n,
            l2.d == k2 * r2.d,
    ;
}

} // verus!
