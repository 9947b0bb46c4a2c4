//! Note durations as fractions of a whole note.
use vstd::prelude::*;
use vstd::arithmetic::div_mod::{
    lemma_fundamental_div_mod, lemma_mod_multiples_basic, lemma_mod_self_0,
    lemma_mod_pos_bound,
};

verus! {

/// A duration: `num / den` of a whole note.  Fractions are not kept in
/// lowest terms by construction; differences are reduced.
#[derive(Clone, Copy, Debug, PartialEq, Eq, Structural)]
pub struct Fraction {
    /// Numerator.
    pub num: u32,
    /// Denominator (never zero for a usable fraction).
    pub den: u32,
}

/// Greatest common divisor by Euclid's algorithm.
pub open spec fn gcd(a: nat, b: nat) -> nat
    decreases b,
{
    if b == 0 {
        a
    } else {
        gcd(b, a % b)
    }
}

/// `a / b < c / d` for positive denominators, by cross multiplication.
pub open spec fn frac_lt(a: Fraction, b: Fraction) -> bool {
    a.num * b.den < b.num * a.den
}

/// `a / b <= c / d` for positive denominators, by cross multiplication.
pub open spec fn frac_le(a: Fraction, b: Fraction) -> bool {
    a.num * b.den <= b.num * a.den
}

/// `a` and `b` denote the same rational number.
pub open spec fn frac_eq(a: Fraction, b: Fraction) -> bool {
    a.num * b.den == b.num * a.den
}

/// As rational numbers, `a + b == c`.
pub open spec fn frac_sum_is(a: Fraction, b: Fraction, c: Fraction) -> bool {
    (a.num * b.den + b.num * a.den) * c.den == c.num * (a.den * b.den)
}

/// Numerator of `a - b` before reduction.
pub open spec fn diff_num(a: Fraction, b: Fraction) -> nat {
    (a.num * b.den - b.num * a.den) as nat
}

/// Denominator of `a - b` before reduction.
pub open spec fn diff_den(a: Fraction, b: Fraction) -> nat {
    (a.den * b.den) as nat
}

/// The common factor removed from the difference.
pub open spec fn diff_gcd(a: Fraction, b: Fraction) -> nat {
    gcd(diff_num(a, b), diff_den(a, b))
}

/// Whether the reduced difference `a - b` fits the 32-bit fields.
pub open spec fn sub_fits(a: Fraction, b: Fraction) -> bool {
    &&& diff_num(a, b) / diff_gcd(a, b) <= u32::MAX
    &&& diff_den(a, b) / diff_gcd(a, b) <= u32::MAX
}

/// The difference `a - b`, reduced by the gcd of its numerator and denominator.
pub open spec fn frac_sub(a: Fraction, b: Fraction) -> Fraction {
    Fraction {
        num: (diff_num(a, b) / diff_gcd(a, b)) as u32,
        den: (diff_den(a, b) / diff_gcd(a, b)) as u32,
    }
}

/// The gcd of `a` and a positive `b` is positive and divides both.
pub proof fn lemma_gcd_divides(a: nat, b: nat)
    requires
        b > 0,
    ensures
        gcd(a, b) > 0,
        a % gcd(a, b) == 0,
        b % gcd(a, b) == 0,
    decreases b,
{
    let r = a % b;
    lemma_mod_pos_bound(a as int, b as int);
    if r == 0 {
        lemma_mod_self_0(b as int);
        assert(gcd(b, 0) == b);
    } else {
        lemma_gcd_divides(b, r);
        let g = gcd(b, r);
        assert(gcd(a, b) == g);
        lemma_fundamental_div_mod(a as int, b as int);
        lemma_fundamental_div_mod(b as int, g as int);
        lemma_fundamental_div_mod(r as int, g as int);
        let k: int = (b as int / g as int) * (a as int / b as int) + r as int / g as int;
        assert(a as int == k * g) by (nonlinear_arith)
            requires
                a as int == b as int * (a as int / b as int) + r as int,
                b as int == g as int * (b as int / g as int) + 0,
                r as int == g as int * (r as int / g as int) + 0,
                k == (b as int / g as int) * (a as int / b as int) + r as int / g as int,
        ;
        lemma_mod_multiples_basic(k, g as int);
    }
}

/// Dividing `n` and a positive `d` by their gcd keeps the value and does not
/// enlarge either part.
pub proof fn lemma_reduce(n: nat, d: nat)
    requires
        d > 0,
    ensures
        gcd(n, d) > 0,
        n / gcd(n, d) <= n,
        d / gcd(n, d) <= d,
        d / gcd(n, d) > 0,
        (n / gcd(n, d)) * d == n * (d / gcd(n, d)),
{
    lemma_gcd_divides(n, d);
    let g = gcd(n, d);
    lemma_fundamental_div_mod(n as int, g as int);
    lemma_fundamental_div_mod(d as int, g as int);
    let qn = n as int / g as int;
    let qd = d as int / g as int;
    assert(n as int == g * qn);
    assert(d as int == g * qd);
    assert(qn <= n && qd <= d && qd > 0 && qn >= 0) by (nonlinear_arith)
        requires
            n as int == g * qn,
            d as int == g * qd,
            g > 0,
            d > 0,
            n >= 0,
    ;
    assert(qn * d == n * qd) by (nonlinear_arith)
        requires
            n as int == g * qn,
            d as int == g * qd,
    ;
}

/// The reduced difference `a - b` (for `b <= a`) has a positive denominator
/// and no part larger than the unreduced one.
pub proof fn lemma_sub_props(a: Fraction, b: Fraction)
    requires
        a.den > 0,
        b.den > 0,
        frac_le(b, a),
    ensures
        diff_den(a, b) > 0,
        diff_gcd(a, b) > 0,
        diff_num(a, b) / diff_gcd(a, b) <= diff_num(a, b),
        diff_den(a, b) / diff_gcd(a, b) <= diff_den(a, b),
        diff_den(a, b) / diff_gcd(a, b) > 0,
        (diff_num(a, b) / diff_gcd(a, b)) * diff_den(a, b) == diff_num(a, b) * (diff_den(a, b)
            / diff_gcd(a, b)),
{
    assert(a.den * b.den > 0) by (nonlinear_arith)
        requires
            a.den > 0,
            b.den > 0,
    ;
    lemma_reduce(diff_num(a, b), diff_den(a, b));
}

/// Law: subtraction undoes addition.  When `b <= a` and the reduced
/// difference fits, `(a - b) + b == a` as rational numbers.
pub proof fn lemma_sub_then_add(a: Fraction, b: Fraction)
    requires
        a.den > 0,
        b.den > 0,
        frac_le(b, a),
        sub_fits(a, b),
    ensures
        frac_sub(a, b).den > 0,
        frac_sum_is(frac_sub(a, b), b, a),
{
    lemma_sub_props(a, b);
    let n = diff_num(a, b) as int;
    let d = diff_den(a, b) as int;
    let rn = frac_sub(a, b).num as int;
    let rd = frac_sub(a, b).den as int;
    assert(rn == n / diff_gcd(a, b) as int);
    assert(rd == d / diff_gcd(a, b) as int);
    assert(rn * d == n * rd);
    let an = a.num as int;
    let ad = a.den as int;
    let bn = b.num as int;
    let bd = b.den as int;
    assert(n == an * bd - bn * ad);
    assert(d == ad * bd);
    assert((rn * bd + bn * rd) * ad == an * (rd * bd)) by (nonlinear_arith)
        requires
            rn * d == n * rd,
            n == an * bd - bn * ad,
            d == ad * bd,
            ad > 0,
            bd > 0,
    ;
}

/// The product of two 32-bit values, which always fits 64 bits.
fn mul_wide(a: u32, b: u32) -> (r: u64)
    ensures
        r == a * b,
{
    proof {
        assert(a * b <= u32::MAX * u32::MAX) by (nonlinear_arith)
            requires
                a <= u32::MAX,
                b <= u32::MAX,
        ;
    }
    (a as u64) * (b as u64)
}

/// Euclid's algorithm on 64-bit values.
fn gcd_u64(a: u64, b: u64) -> (g: u64)
    ensures
        g as nat == gcd(a as nat, b as nat),
{
    let mut x = a;
    let mut y = b;
    while y != 0
        invariant
            gcd(x as nat, y as nat) == gcd(a as nat, b as nat),
        decreases y,
    {
        let t = x % y;
        x = y;
        y = t;
    }
    x
}

/// Values that can tell whether they are zero.
pub trait IsZero {
    /// Whether the value is zero.
    fn is_zero(&self) -> bool;
}

impl IsZero for Fraction {
    /// A fraction is zero when its numerator is.
    fn is_zero(&self) -> (r: bool)
        ensures
            r == (self.num == 0),
    {
        self.num == 0
    }
}

impl Fraction {
    /// Well-formed: the denominator is positive.
    pub open spec fn wf(self) -> bool {
        self.den > 0
    }

    /// Create the fraction `num / den`, kept as given.
    pub fn new(num: u32, den: u32) -> (r: Fraction)
        requires
            den > 0,
        ensures
            r == (Fraction { num, den }),
            r.wf(),
    {
        Fraction { num, den }
    }

    /// Strictly smaller, as rational numbers.
    pub fn lt(&self, other: &Fraction) -> (r: bool)
        ensures
            r == frac_lt(*self, *other),
    {
        mul_wide(self.num, other.den) < mul_wide(other.num, self.den)
    }

    /// Smaller or equal, as rational numbers.
    pub fn le(&self, other: &Fraction) -> (r: bool)
        ensures
            r == frac_le(*self, *other),
    {
        mul_wide(self.num, other.den) <= mul_wide(other.num, self.den)
    }

    /// The difference `self - other`, reduced.
    pub fn sub(&self, other: &Fraction) -> (r: Fraction)
        requires
            self.wf(),
            other.wf(),
            frac_le(*other, *self),
            sub_fits(*self, *other),
        ensures
            r == frac_sub(*self, *other),
            r.wf(),
    {
        proof {
            lemma_sub_props(*self, *other);
        }
        let p1 = mul_wide(self.num, other.den);
        let p2 = mul_wide(other.num, self.den);
        let n: u64 = p1 - p2;
        let d: u64 = mul_wide(self.den, other.den);
        let g = gcd_u64(n, d);
        Fraction { num: (n / g) as u32, den: (d / g) as u32 }
    }

    /// The difference `self - other`, reduced, or `None` when the reduced
    /// difference does not fit the 32-bit fields.
    pub fn checked_sub(&self, other: &Fraction) -> (r: Option<Fraction>)
        requires
            self.wf(),
            other.wf(),
            frac_le(*other, *self),
        ensures
            r is Some == sub_fits(*self, *other),
            r matches Some(f) ==> f == frac_sub(*self, *other) && f.wf(),
    {
        proof {
            lemma_sub_props(*self, *other);
        }
        let p1 = mul_wide(self.num, other.den);
        let p2 = mul_wide(other.num, self.den);
        let n: u64 = p1 - p2;
        let d: u64 = mul_wide(self.den, other.den);
        let g = gcd_u64(n, d);
        if n / g <= 0xffff_ffffu64 && d / g <= 0xffff_ffffu64 {
            Some(Fraction { num: (n / g) as u32, den: (d / g) as u32 })
        } else {
            None
        }
    }
}

} // verus!
