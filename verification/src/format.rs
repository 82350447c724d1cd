use crate::complex::{CRat, Complex};
use crate::error::FendError;
use crate::exact::Exact;
use crate::rat::{abs, rat_int, Rat};
use crate::realnum::Real;
use vstd::string::StringExecFns;
use vstd::arithmetic::div_mod::lemma_div_decreases;
use vstd::prelude::*;

verus! {

/// The character for a digit below 36: `0`-`9`, then `a`-`z`.
pub open spec fn digit_char(v: nat) -> char {
    if v < 10 {
        (48 + v) as char
    } else {
        (87 + v) as char
    }
}

/// The digits of `n` in base `b`, most significant first; `0` has the single digit `0`.
pub open spec fn digits_spec(n: nat, b: nat) -> Seq<char>
    recommends
        2 <= b <= 36,
    decreases n,
{
    if n < b || b < 2 {
        seq![digit_char(n % b)]
    } else {
        proof {
            lemma_div_decreases(n as int, b as int);
        }
        digits_spec(n / b, b).push(digit_char(n % b))
    }
}

fn digit(v: u64) -> (c: char)
    requires
        v < 36,
    ensures
        c == digit_char(v as nat),
{
    if v < 10 {
        ((48 + v) as u8) as char
    } else {
        ((87 + v) as u8) as char
    }
}

/// The digits of `n` in base `b`.
pub fn digits(n: u64, b: u64) -> (r: Vec<char>)
    requires
        2 <= b <= 36,
    ensures
        r@ == digits_spec(n as nat, b as nat),
{
    let mut m = n;
    let mut rev: Vec<char> = Vec::new();
    while m >= b
        invariant
            2 <= b <= 36,
            digits_spec(n as nat, b as nat) == digits_spec(m as nat, b as nat) + rev@.reverse(),
        decreases m,
    {
        let ghost old_rev = rev@;
        rev.push(digit(m % b));
        proof {
            assert(rev@.reverse() =~= seq![digit_char((m % b) as nat)] + old_rev.reverse());
            assert(digits_spec(m as nat, b as nat) =~= digits_spec((m / b) as nat, b as nat).push(
                digit_char((m % b) as nat),
            ));
        }
        m = m / b;
    }
    rev.push(digit(m % b));
    let mut out: Vec<char> = Vec::new();
    let len = rev.len();
    let mut i = len;
    while i > 0
        invariant
            i <= len == rev@.len(),
            out@ =~= rev@.subrange(i as int, len as int).reverse(),
        decreases i,
    {
        i = i - 1;
        out.push(rev[i]);
        proof {
            assert(rev@.subrange(i as int, len as int).reverse() =~= rev@.subrange(
                (i + 1) as int,
                len as int,
            ).reverse().push(rev@[i as int]));
        }
    }
    proof {
        assert(rev@.subrange(0, len as int) =~= rev@);
        assert(digits_spec(m as nat, b as nat) =~= seq![digit_char((m % b) as nat)]);
    }
    out
}

/// The first `k` digits in base `b` of the fraction `r / d` (below one).
pub open spec fn frac_digits_spec(r: nat, d: nat, b: nat, k: nat) -> Seq<char>
    decreases k,
{
    if k == 0 || d == 0 {
        seq![]
    } else {
        seq![digit_char((r * b) / d)] + frac_digits_spec((r * b) % d, d, b, (k - 1) as nat)
    }
}

/// What remains of the fraction `r / d`, times `d`, after its first `k` digits in base `b`.
pub open spec fn frac_rem_spec(r: nat, d: nat, b: nat, k: nat) -> nat
    decreases k,
{
    if k == 0 || d == 0 {
        r
    } else {
        frac_rem_spec((r * b) % d, d, b, (k - 1) as nat)
    }
}

/// The first `k` digits of the fraction `r / d`, and the remainder after them.
fn frac_digits(r: u64, d: u64, b: u64, k: usize) -> (out: (Vec<char>, u64))
    requires
        r < d,
        2 <= b <= 36,
    ensures
        out.0@ == frac_digits_spec(r as nat, d as nat, b as nat, k as nat),
        out.1 as nat == frac_rem_spec(r as nat, d as nat, b as nat, k as nat),
{
    let mut x = r;
    let mut v: Vec<char> = Vec::new();
    let mut i: usize = 0;
    while i < k
        invariant
            i <= k,
            x < d,
            2 <= b <= 36,
            frac_digits_spec(r as nat, d as nat, b as nat, k as nat) == v@ + frac_digits_spec(
                x as nat,
                d as nat,
                b as nat,
                (k - i) as nat,
            ),
            frac_rem_spec(r as nat, d as nat, b as nat, k as nat) == frac_rem_spec(
                x as nat,
                d as nat,
                b as nat,
                (k - i) as nat,
            ),
        decreases k - i,
    {
        proof {
            assert((x as u128) * (b as u128) <= 0xffff_ffff_ffff_ffff * 36) by (nonlinear_arith)
                requires
                    x <= 0xffff_ffff_ffff_ffffu64,
                    b <= 36,
            ;
        }
        let t: u128 = (x as u128) * (b as u128);
        proof {
            assert(t < d * b) by (nonlinear_arith)
                requires
                    t == x * b,
                    x < d,
                    b > 0,
            ;
            vstd::arithmetic::div_mod::lemma_multiply_divide_lt(t as int, d as int, b as int);
        }
        let q = (t / (d as u128)) as u64;
        let ghost old_v = v@;
        v.push(digit(q));
        proof {
            assert(frac_digits_spec(x as nat, d as nat, b as nat, (k - i) as nat) =~= seq![
                digit_char(q as nat),
            ] + frac_digits_spec((t % (d as u128)) as nat, d as nat, b as nat, (k - i - 1) as nat));
            assert(v@ =~= old_v + seq![digit_char(q as nat)]);
        }
        x = (t % (d as u128)) as u64;
        i = i + 1;
    }
    (v, x)
}

/// How numbers are written.
#[derive(Clone, Copy, Debug, PartialEq, Eq, Structural)]
pub enum FormattingStyle {
    /// A fraction `n/d`.
    ImproperFraction,
    /// A whole part and a proper fraction, `w n/d`.
    MixedFraction,
    /// Exactly; written as a fraction when not an integer.
    ExactFloat,
    /// Exactly; written as a fraction when not an integer.
    Exact,
    /// This many digits after the point, cut off.
    DecimalPlaces(usize),
    /// This many significant digits, cut off; the whole part is always written in full.
    SignificantFigures(usize),
    /// Exactly for exact complex numbers; ten decimal places for approximate ones.
    Auto,
}

/// When a formatted number is put in parentheses.
#[derive(Clone, Copy, Debug, PartialEq, Eq, Structural)]
pub enum UseParentheses {
    No,
    IfComplex,
    IfComplexOrFraction,
}

/// The base in which numbers are written, from 2 to 36.
#[derive(Clone, Copy, Debug, PartialEq, Eq)]
pub struct Base {
    radix: u8,
}

impl View for Base {
    type V = nat;

    closed spec fn view(&self) -> nat {
        self.radix as nat
    }
}

impl Base {
    #[verifier::type_invariant]
    pub open spec fn inv(self) -> bool {
        2 <= self@ <= 36
    }

    /// The base `radix`; `InvalidBase` unless it is from 2 to 36.
    pub fn new(radix: u8) -> (r: Result<Base, FendError>)
        ensures
            2 <= radix <= 36 ==> (r matches Ok(b) && b@ == radix as nat),
            !(2 <= radix <= 36) ==> r == Err::<Base, FendError>(FendError::InvalidBase),
    {
        if 2 <= radix && radix <= 36 {
            Ok(Base { radix })
        } else {
            Err(FendError::InvalidBase)
        }
    }

    pub fn decimal() -> (r: Base)
        ensures
            r@ == 10,
    {
        Base { radix: 10 }
    }

    pub fn radix(&self) -> (r: u8)
        ensures
            r as nat == self@,
            2 <= r <= 36,
    {
        proof {
            use_type_invariant(self);
        }
        self.radix
    }
}

/// A real number written out.
#[derive(Clone, Debug, PartialEq, Eq)]
pub struct RealFormatted {
    pub text: Vec<char>,
}

/// A complex number written out: its first component, and for a number with both parts the
/// separator and the imaginary component, optionally in parentheses.
#[derive(Clone, Debug, PartialEq, Eq)]
pub struct Formatted {
    pub first_component: RealFormatted,
    pub separator: &'static str,
    pub second_component: Option<RealFormatted>,
    pub use_parentheses: bool,
}

pub open spec fn sign_text(n: int) -> Seq<char> {
    if n < 0 {
        seq!['-']
    } else {
        seq![]
    }
}

pub open spec fn parenthesized(s: Seq<char>, p: bool) -> Seq<char> {
    if p {
        seq!['('] + s + seq![')']
    } else {
        s
    }
}

pub open spec fn fraction_text(m: nat, d: nat, b: nat) -> Seq<char> {
    digits_spec(m, b) + seq!['/'] + digits_spec(d, b)
}

/// The text of the rational `q` in base `b` and the given style, followed by `i` for an
/// imaginary part (an imaginary part of one or minus one is written `i` or `-i`), and whether
/// the text is exact. Fractions are put in parentheses when
/// `parens` holds; digits after the point are cut off, and exact when nothing is cut.
pub open spec fn real_text(
    q: Rat,
    b: nat,
    style: FormattingStyle,
    imag: bool,
    parens: bool,
) -> (Seq<char>, bool) {
    let m = abs(q.n);
    let d = q.d as nat;
    let body: (Seq<char>, bool) = match style {
        FormattingStyle::DecimalPlaces(k) => decimal_text(q, b, k as nat),
        FormattingStyle::SignificantFigures(k) => decimal_text(q, b, capped(sig_places(q, b, k as nat))),
        FormattingStyle::MixedFraction => if d == 1 {
            (sign_text(q.n) + digits_spec(m, b), true)
        } else if m < d {
            (parenthesized(sign_text(q.n) + fraction_text(m, d, b), parens), true)
        } else {
            (
                parenthesized(
                    sign_text(q.n) + digits_spec(m / d, b) + seq![' '] + fraction_text(m % d, d, b),
                    parens,
                ),
                true,
            )
        },
        _ => if d == 1 {
            (sign_text(q.n) + digits_spec(m, b), true)
        } else {
            (parenthesized(sign_text(q.n) + fraction_text(m, d, b), parens), true)
        },
    };
    if imag && m == d {
        (sign_text(q.n).push('i'), true)
    } else {
        (
            if imag {
                body.0.push('i')
            } else {
                body.0
            },
            body.1,
        )
    }
}

/// The whole part and `k` digits after the point, cut off.
pub open spec fn decimal_text(q: Rat, b: nat, k: nat) -> (Seq<char>, bool) {
    let m = abs(q.n);
    let d = q.d as nat;
    let whole = sign_text(q.n) + digits_spec(m / d, b);
    (
        if k == 0 {
            whole
        } else {
            whole + seq!['.'] + frac_digits_spec(m % d, d, b, k)
        },
        frac_rem_spec(m % d, d, b, k) == 0,
    )
}

/// The zero digits right after the point in the expansion of `r / d` in base `b`, before the
/// first non-zero one, for `0 < r < d`.
pub open spec fn leading_zeros(r: nat, d: nat, b: nat) -> nat
    decreases d - r,
{
    if r == 0 || b < 2 || r >= d || r * b >= d {
        0
    } else {
        proof {
            assert(r * b >= r + 1) by (nonlinear_arith)
                requires
                    r > 0,
                    b >= 2,
            ;
        }
        1 + leading_zeros(r * b, d, b)
    }
}

/// The digits after the point that show `k` significant digits of `q` in base `b`: `k` less
/// the digits of the whole part when it is not zero (none when the whole part has `k` digits
/// or more); for a number below one, the zeros after the point and then `k` digits; none for
/// zero.
pub open spec fn sig_places(q: Rat, b: nat, k: nat) -> nat {
    let m = abs(q.n);
    let d = q.d as nat;
    if m / d > 0 {
        let l = digits_spec(m / d, b).len();
        if k > l {
            (k - l) as nat
        } else {
            0
        }
    } else if m == 0 {
        0
    } else {
        leading_zeros(m, d, b) + k
    }
}

/// `n`, or the largest `usize` when `n` is larger.
pub open spec fn capped(n: nat) -> nat {
    if n > usize::MAX {
        usize::MAX as nat
    } else {
        n
    }
}

/// The places after the point for `k` significant digits of `q`, capped at the largest
/// `usize`.
fn sig_places_of(q: Ghost<Rat>, m: u64, d: u64, b: u64, k: usize) -> (r: usize)
    requires
        2 <= b <= 36,
        d > 0,
        m as nat == abs(q@.n),
        d as int == q@.d,
    ensures
        r as nat == capped(sig_places(q@, b as nat, k as nat)),
{
    if m / d > 0 {
        let l = digits(m / d, b).len();
        if k > l {
            k - l
        } else {
            0
        }
    } else if m == 0 {
        0
    } else {
        let mut x: u64 = m;
        let mut z: u64 = 0;
        proof {
            assert(m < d) by (nonlinear_arith)
                requires
                    m / d == 0,
                    d > 0,
            ;
            assert(m * b <= 0xffff_ffff_ffff_ffff * 36) by (nonlinear_arith)
                requires
                    m <= 0xffff_ffff_ffff_ffffu64,
                    b <= 36,
            ;
        }
        while (x as u128) * (b as u128) < (d as u128)
            invariant
                0 < x < d,
                x * b <= 0xffff_ffff_ffff_ffff * 36,
                z < x,
                2 <= b <= 36,
                leading_zeros(m as nat, d as nat, b as nat) == z + leading_zeros(
                    x as nat,
                    d as nat,
                    b as nat,
                ),
            decreases d - x,
        {
            proof {
                assert(x * b >= x + 1) by (nonlinear_arith)
                    requires
                        x > 0,
                        b >= 2,
                ;
            }
            x = x * b;
            z = z + 1;
            proof {
                assert(x * b <= 0xffff_ffff_ffff_ffff * 36) by (nonlinear_arith)
                    requires
                        x <= 0xffff_ffff_ffff_ffffu64,
                        b <= 36,
                ;
            }
        }
        if (z as u128) + (k as u128) > (usize::MAX as u128) {
            usize::MAX
        } else {
            z as usize + k
        }
    }
}

/// The sign, then the whole part and `k` digits after the point.
fn decimal_format(q: Ghost<Rat>, neg: bool, m: u64, d: u64, b: u64, k: usize) -> (r: (Vec<char>, bool))
    requires
        2 <= b <= 36,
        d > 0,
        m as nat == abs(q@.n),
        d as int == q@.d,
        neg == (q@.n < 0),
    ensures
        (r.0@, r.1) == decimal_text(q@, b as nat, k as nat),
{
    let mut text: Vec<char> = Vec::new();
    if neg {
        text.push('-');
    }
    let mut whole = digits(m / d, b);
    text.append(&mut whole);
    let (mut frac, rem) = frac_digits(m % d, d, b, k);
    assert(text@ =~= sign_text(q@.n) + digits_spec((m / d) as nat, b as nat));
    if k > 0 {
        text.push('.');
        text.append(&mut frac);
    }
    (text, rem == 0)
}

/// The sign and the fraction (or the integer, for a denominator of one), mixed or not.
fn fraction_format(
    q: Ghost<Rat>,
    neg: bool,
    m: u64,
    d: u64,
    b: u64,
    parens: bool,
    mixed: bool,
) -> (r: Vec<char>)
    requires
        2 <= b <= 36,
        d > 0,
        m as nat == abs(q@.n),
        d as int == q@.d,
        neg == (q@.n < 0),
    ensures
        mixed ==> r@ == real_text(q@, b as nat, FormattingStyle::MixedFraction, false, parens).0,
        !mixed ==> r@ == real_text(q@, b as nat, FormattingStyle::Exact, false, parens).0,
{
    let mut text: Vec<char> = Vec::new();
    if neg {
        text.push('-');
    }
    if d == 1 {
        let mut w = digits(m, b);
        text.append(&mut w);
        return text;
    }
    let split = mixed && m >= d;
    if split {
        let mut w = digits(m / d, b);
        text.append(&mut w);
        text.push(' ');
    }
    let mut num = digits(if split { m % d } else { m }, b);
    text.append(&mut num);
    text.push('/');
    let mut den = digits(d, b);
    text.append(&mut den);
    if parens {
        let mut p = vec!['('];
        p.append(&mut text);
        p.push(')');
        text = p;
    }
    text
}

impl Real {
    /// Writes the number in base `base` and style `style`, with an `i` after it when it is an
    /// imaginary part.
    pub fn format(&self, base: Base, style: FormattingStyle, imag: bool, use_parens: bool) -> (r:
        Exact<RealFormatted>)
        ensures
            (r.value.text@, r.exact) == real_text(self@, base@, style, imag, use_parens),
    {
        let (n, d) = self.parts();
        let b = base.radix() as u64;
        let m: u64 = if n < 0 {
            (-n) as u64
        } else {
            n as u64
        };
        let d = d as u64;
        let q = Ghost(self@);
        if imag && m == d {
            let mut text: Vec<char> = Vec::new();
            if n < 0 {
                text.push('-');
            }
            text.push('i');
            proof {
                assert(text@ =~= sign_text(self@.n).push('i'));
            }
            return Exact::new(RealFormatted { text }, true);
        }
        let (mut text, exact) = match style {
            FormattingStyle::DecimalPlaces(k) => decimal_format(q, n < 0, m, d, b, k),
            FormattingStyle::SignificantFigures(k) => {
                let places = sig_places_of(q, m, d, b, k);
                decimal_format(q, n < 0, m, d, b, places)
            },
            FormattingStyle::MixedFraction => (fraction_format(q, n < 0, m, d, b, use_parens, true), true),
            _ => (fraction_format(q, n < 0, m, d, b, use_parens, false), true),
        };
        if imag {
            text.push('i');
        }
        Exact::new(RealFormatted { text }, exact)
    }
}

/// The style used for a complex number: ten decimal places for an approximate one in the
/// automatic style, exact for an exact one with an imaginary part.
pub open spec fn effective_style(exact: bool, style: FormattingStyle, z: CRat) -> FormattingStyle {
    if !exact && style == FormattingStyle::Auto {
        FormattingStyle::DecimalPlaces(10)
    } else if !z.im.is_zero() && style == FormattingStyle::Auto {
        FormattingStyle::Exact
    } else {
        style
    }
}

/// The parts of a written complex number: first component, separator, second component and
/// whether it is in parentheses.
pub type FormattedView = (Seq<char>, Seq<char>, Option<Seq<char>>, bool);

pub open spec fn formatted_view(f: Formatted) -> FormattedView {
    (
        f.first_component.text@,
        f.separator@,
        match f.second_component {
            Some(c) => Some(c.text@),
            None => None,
        },
        f.use_parentheses,
    )
}

/// How a complex number is written: a real or a purely imaginary number as one component
/// (parenthesized as a fraction only for `IfComplexOrFraction`); otherwise the real part, a
/// separator with the sign of the imaginary part, and the magnitude of the imaginary part.
pub open spec fn complex_format_spec(
    z: CRat,
    exact: bool,
    style: FormattingStyle,
    b: nat,
    up: UseParentheses,
) -> (FormattedView, bool) {
    let st = effective_style(exact, style, z);
    if z.im.is_zero() {
        let x = real_text(z.re, b, st, false, up == UseParentheses::IfComplexOrFraction);
        ((x.0, ""@, None, false), exact && x.1)
    } else if z.re.is_zero() {
        let x = real_text(z.im, b, st, true, up == UseParentheses::IfComplexOrFraction);
        ((x.0, ""@, None, false), exact && x.1)
    } else {
        let rp = real_text(z.re, b, st, false, false);
        let positive = rat_int(0).lt(z.im);
        let ip = real_text(
            if positive {
                z.im
            } else {
                z.im.negated()
            },
            b,
            st,
            true,
            false,
        );
        (
            (
                rp.0,
                if positive {
                    " + "@
                } else {
                    " - "@
                },
                Some(ip.0),
                up == UseParentheses::IfComplex || up == UseParentheses::IfComplexOrFraction,
            ),
            exact && rp.1 && ip.1,
        )
    }
}

impl Complex {
    /// Writes the number in base `base` and style `style`; `exact` tells whether the number
    /// itself is exact.
    pub fn format(
        &self,
        exact: bool,
        style: FormattingStyle,
        base: Base,
        use_parentheses: UseParentheses,
    ) -> (r: Result<Exact<Formatted>, FendError>)
        ensures
            r matches Ok(x) && (formatted_view(x.value), x.exact) == complex_format_spec(
                self@,
                exact,
                style,
                base@,
                use_parentheses,
            ),
    {
        let style = if !exact && style == FormattingStyle::Auto {
            FormattingStyle::DecimalPlaces(10)
        } else if !self.imag.is_zero() && style == FormattingStyle::Auto {
            FormattingStyle::Exact
        } else {
            style
        };
        if self.imag.is_zero() {
            let use_parens = use_parentheses == UseParentheses::IfComplexOrFraction;
            let x = self.real.format(base, style, false, use_parens);
            return Ok(
                Exact::new(
                    Formatted {
                        first_component: x.value,
                        separator: "",
                        second_component: None,
                        use_parentheses: false,
                    },
                    exact && x.exact,
                ),
            );
        }
        Ok(
            if self.real.is_zero() {
                let use_parens = use_parentheses == UseParentheses::IfComplexOrFraction;
                let x = self.imag.format(base, style, true, use_parens);
                Exact::new(
                    Formatted {
                        first_component: x.value,
                        separator: "",
                        second_component: None,
                        use_parentheses: false,
                    },
                    exact && x.exact,
                )
            } else {
                let mut exact = exact;
                let real_part = self.real.format(base, style, false, false);
                exact = exact && real_part.exact;
                let zero = Real::zero();
                let (positive, imag_part) = if zero.lt(&self.imag) {
                    (true, self.imag.format(base, style, true, false))
                } else {
                    (false, self.imag.neg().format(base, style, true, false))
                };
                exact = exact && imag_part.exact;
                let separator = if positive {
                    " + "
                } else {
                    " - "
                };
                Exact::new(
                    Formatted {
                        first_component: real_part.value,
                        separator,
                        second_component: Some(imag_part.value),
                        use_parentheses: use_parentheses == UseParentheses::IfComplex
                            || use_parentheses == UseParentheses::IfComplexOrFraction,
                    },
                    exact,
                )
            },
        )
    }
}

/// The characters in a string, by `String::from_iter`.
#[verifier::external_body]
fn string_of(chars: Vec<char>) -> (s: String)
    ensures
        s@ == chars@,
{
    String::from_iter(chars)
}

/// The text of a written complex number.
pub open spec fn formatted_text(f: Formatted) -> Seq<char> {
    let second = match f.second_component {
        Some(c) => c.text@,
        None => seq![],
    };
    parenthesized(f.first_component.text@ + f.separator@ + second, f.use_parentheses)
}

impl Formatted {
    /// The text, as it is displayed.
    pub fn to_string(&self) -> (s: String)
        ensures
            s@ == formatted_text(*self),
    {
        let mut chars: Vec<char> = Vec::new();
        if self.use_parentheses {
            chars.push('(');
        }
        let mut first = self.first_component.text.clone();
        chars.append(&mut first);
        let mut s = string_of(chars);
        s.append(self.separator);
        let mut rest: Vec<char> = Vec::new();
        match &self.second_component {
            Some(c) => {
                let mut second = c.text.clone();
                rest.append(&mut second);
            },
            None => {},
        }
        if self.use_parentheses {
            rest.push(')');
        }
        s.append(string_of(rest).as_str());
        assert(s@ =~= formatted_text(*self));
        s
    }
}

} // verus!
