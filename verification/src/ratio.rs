//! Rational numbers for reasoning about the total duration of markings.
use vstd::prelude::*;

use crate::fraction::{frac_sum_is, Fraction};
use crate::note::parse_note_text;
use vstd::arithmetic::mul::lemma_mul_is_distributive_add_other_way;

verus! {

/// A rational number `n / d`; meaningful when `d > 0`.
pub struct Ratio {
    pub n: int,
    pub d: int,
}

/// The value of a duration.
pub open spec fn ratio(f: Fraction) -> Ratio {
    Ratio { n: f.num as int, d: f.den as int }
}

pub open spec fn r_ok(a: Ratio) -> bool {
    a.d > 0
}

pub open spec fn r_add(a: Ratio, b: Ratio) -> Ratio {
    Ratio { n: a.n * b.d + b.n * a.d, d: a.d * b.d }
}

/// Same value.
pub open spec fn r_eq(a: Ratio, b: Ratio) -> bool {
    a.n * b.d == b.n * a.d
}

/// Smaller or equal value.
pub open spec fn r_le(a: Ratio, b: Ratio) -> bool {
    a.n * b.d <= b.n * a.d
}

/// Every marking text reads as a note.
pub open spec fn all_notes(ns: Seq<Seq<char>>) -> bool {
    forall|i: int| 0 <= i < ns.len() ==> #[trigger] parse_note_text(ns[i]) is Some
}

/// The duration of the note a marking text reads as.
pub open spec fn duration_of(t: Seq<char>) -> Fraction {
    parse_note_text(t)->0.duration
}

/// The total duration of a list of markings.
pub open spec fn total(ns: Seq<Seq<char>>) -> Ratio
    decreases ns.len(),
{
    if ns.len() == 0 {
        Ratio { n: 0, d: 1 }
    } else {
        r_add(ratio(duration_of(ns[0])), total(ns.drop_first()))
    }
}

pub proof fn lemma_parsed_den(t: Seq<char>)
    requires
        parse_note_text(t) is Some,
    ensures
        duration_of(t).den > 0,
        r_ok(ratio(duration_of(t))),
{
}

pub broadcast proof fn lemma_add_ok(a: Ratio, b: Ratio)
    requires
        r_ok(a),
        r_ok(b),
    ensures
        #[trigger] r_ok(r_add(a, b)),
{
    assert(a.d * b.d > 0) by (nonlinear_arith)
        requires
            a.d > 0,
            b.d > 0,
    ;
}

pub proof fn lemma_total_ok(ns: Seq<Seq<char>>)
    requires
        all_notes(ns),
    ensures
        r_ok(total(ns)),
    decreases ns.len(),
{
    if ns.len() > 0 {
        lemma_parsed_den(ns[0]);
        assert(all_notes(ns.drop_first())) by {
            assert forall|i: int| 0 <= i < ns.drop_first().len() implies #[trigger] parse_note_text(
                ns.drop_first()[i],
            ) is Some by {
                assert(ns.drop_first()[i] == ns[i + 1]);
            }
        }
        lemma_total_ok(ns.drop_first());
        lemma_add_ok(ratio(duration_of(ns[0])), total(ns.drop_first()));
    }
}

pub proof fn lemma_eq_sym(a: Ratio, b: Ratio)
    requires
        r_eq(a, b),
    ensures
        r_eq(b, a),
{
}

pub proof fn lemma_eq_trans(a: Ratio, b: Ratio, c: Ratio)
    requires
        r_ok(b),
        r_eq(a, b),
        r_eq(b, c),
    ensures
        r_eq(a, c),
{
    assert(a.n * c.d == c.n * a.d) by (nonlinear_arith)
        requires
            a.n * b.d == b.n * a.d,
            b.n * c.d == c.n * b.d,
            b.d > 0,
    ;
}

pub proof fn lemma_add_comm(a: Ratio, b: Ratio)
    ensures
        r_eq(r_add(a, b), r_add(b, a)),
{
    assert((a.n * b.d + b.n * a.d) * (b.d * a.d) == (b.n * a.d + a.n * b.d) * (a.d * b.d))
        by (nonlinear_arith);
}

pub proof fn lemma_add_assoc(a: Ratio, b: Ratio, c: Ratio)
    ensures
        r_eq(r_add(r_add(a, b), c), r_add(a, r_add(b, c))),
{
    lemma_mul_is_distributive_add_other_way(c.d, a.n * b.d, b.n * a.d);
    lemma_mul_is_distributive_add_other_way(a.d, b.n * c.d, c.n * b.d);
    assert((a.n * b.d) * c.d == a.n * (b.d * c.d)) by (nonlinear_arith);
    assert((b.n * a.d) * c.d == (b.n * c.d) * a.d) by (nonlinear_arith);
    assert(c.n * (a.d * b.d) == (c.n * b.d) * a.d) by (nonlinear_arith);
    assert((a.d * b.d) * c.d == a.d * (b.d * c.d)) by (nonlinear_arith);
}

proof fn lemma_cancel_eq(p: int, q: int, k: int)
    requires
        p * k == q * k,
        k > 0,
    ensures
        p == q,
{
    assert(p == q) by (nonlinear_arith)
        requires
            p * k == q * k,
            k > 0,
    ;
}

proof fn lemma_cancel_le(p: int, q: int, k: int)
    requires
        p * k <= q * k,
        k > 0,
    ensures
        p <= q,
{
    assert(p <= q) by (nonlinear_arith)
        requires
            p * k <= q * k,
            k > 0,
    ;
}

proof fn lemma_scale_le(p: int, q: int, k: int)
    requires
        p <= q,
        k > 0,
    ensures
        p * k <= q * k,
{
    assert(p * k <= q * k) by (nonlinear_arith)
        requires
            p <= q,
            k > 0,
    ;
}

proof fn lemma_pos_mul(x: int, y: int)
    requires
        x > 0,
        y > 0,
    ensures
        x * y > 0,
{
    assert(x * y > 0) by (nonlinear_arith)
        requires
            x > 0,
            y > 0,
    ;
}

pub proof fn lemma_add_cong(a: Ratio, a2: Ratio, b: Ratio, b2: Ratio)
    requires
        r_eq(a, a2),
        r_eq(b, b2),
    ensures
        r_eq(r_add(a, b), r_add(a2, b2)),
{
    lemma_mul_is_distributive_add_other_way(a2.d * b2.d, a.n * b.d, b.n * a.d);
    lemma_mul_is_distributive_add_other_way(a.d * b.d, a2.n * b2.d, b2.n * a2.d);
    assert((a.n * b.d) * (a2.d * b2.d) == (a.n * a2.d) * (b.d * b2.d)) by (nonlinear_arith);
    assert((b.n * a.d) * (a2.d * b2.d) == (b.n * b2.d) * (a.d * a2.d)) by (nonlinear_arith);
    assert((a2.n * b2.d) * (a.d * b.d) == (a2.n * a.d) * (b.d * b2.d)) by (nonlinear_arith);
    assert((b2.n * a2.d) * (a.d * b.d) == (b2.n * b.d) * (a.d * a2.d)) by (nonlinear_arith);
}

/// Both sides of an equation or inequation between `a + x` and `b + x`,
/// after cross multiplication, differ from those between `a` and `b` by the
/// same term and the factor `x.d * x.d`.
proof fn lemma_cross_add(a: Ratio, b: Ratio, x: Ratio)
    ensures
        (a.n * x.d + x.n * a.d) * (b.d * x.d) == (a.n * b.d) * (x.d * x.d) + (x.n * x.d) * (a.d
            * b.d),
        (b.n * x.d + x.n * b.d) * (a.d * x.d) == (b.n * a.d) * (x.d * x.d) + (x.n * x.d) * (a.d
            * b.d),
{
    lemma_mul_is_distributive_add_other_way(b.d * x.d, a.n * x.d, x.n * a.d);
    lemma_mul_is_distributive_add_other_way(a.d * x.d, b.n * x.d, x.n * b.d);
    assert((a.n * x.d) * (b.d * x.d) == (a.n * b.d) * (x.d * x.d)) by (nonlinear_arith);
    assert((x.n * a.d) * (b.d * x.d) == (x.n * x.d) * (a.d * b.d)) by (nonlinear_arith);
    assert((b.n * x.d) * (a.d * x.d) == (b.n * a.d) * (x.d * x.d)) by (nonlinear_arith);
    assert((x.n * b.d) * (a.d * x.d) == (x.n * x.d) * (a.d * b.d)) by (nonlinear_arith);
}

pub proof fn lemma_add_cancel(a: Ratio, b: Ratio, x: Ratio)
    requires
        r_ok(x),
        r_eq(r_add(a, x), r_add(b, x)),
    ensures
        r_eq(a, b),
{
    lemma_cross_add(a, b, x);
    lemma_pos_mul(x.d, x.d);
    lemma_cancel_eq(a.n * b.d, b.n * a.d, x.d * x.d);
}

pub proof fn lemma_le_cancel(a: Ratio, b: Ratio, x: Ratio)
    requires
        r_ok(x),
        r_le(r_add(a, x), r_add(b, x)),
    ensures
        r_le(a, b),
{
    lemma_cross_add(a, b, x);
    lemma_pos_mul(x.d, x.d);
    lemma_cancel_le(a.n * b.d, b.n * a.d, x.d * x.d);
}

pub proof fn lemma_le_add(a: Ratio, b: Ratio, x: Ratio)
    requires
        r_ok(x),
        r_le(a, b),
    ensures
        r_le(r_add(a, x), r_add(b, x)),
{
    lemma_cross_add(a, b, x);
    lemma_pos_mul(x.d, x.d);
    lemma_scale_le(a.n * b.d, b.n * a.d, x.d * x.d);
}

pub proof fn lemma_le_trans(a: Ratio, b: Ratio, c: Ratio)
    requires
        r_ok(a),
        r_ok(b),
        r_ok(c),
        r_le(a, b),
        r_le(b, c),
    ensures
        r_le(a, c),
{
    lemma_scale_le(a.n * b.d, b.n * a.d, c.d);
    lemma_scale_le(b.n * c.d, c.n * b.d, a.d);
    assert((a.n * b.d) * c.d == (a.n * c.d) * b.d) by (nonlinear_arith);
    assert((b.n * a.d) * c.d == (b.n * c.d) * a.d) by (nonlinear_arith);
    assert((c.n * b.d) * a.d == (c.n * a.d) * b.d) by (nonlinear_arith);
    lemma_cancel_le(a.n * c.d, c.n * a.d, b.d);
}

/// Adding a value that is not negative does not make a value smaller.
pub proof fn lemma_le_add_nonneg(x: Ratio, a: Ratio)
    requires
        r_ok(x),
        r_ok(a),
        a.n >= 0,
    ensures
        r_le(x, r_add(x, a)),
{
    assert(x.n * (x.d * a.d) <= (x.n * a.d + a.n * x.d) * x.d) by (nonlinear_arith)
        requires
            x.d > 0,
            a.d > 0,
            a.n >= 0,
    ;
}

/// The total duration of markings is not negative.
pub proof fn lemma_total_nonneg(ns: Seq<Seq<char>>)
    requires
        all_notes(ns),
    ensures
        total(ns).n >= 0,
    decreases ns.len(),
{
    if ns.len() > 0 {
        lemma_parsed_den(ns[0]);
        assert(all_notes(ns.drop_first())) by {
            assert forall|i: int| 0 <= i < ns.drop_first().len() implies #[trigger] parse_note_text(
                ns.drop_first()[i],
            ) is Some by {
                assert(ns.drop_first()[i] == ns[i + 1]);
            }
        }
        lemma_total_nonneg(ns.drop_first());
        lemma_total_ok(ns.drop_first());
        let x = ratio(duration_of(ns[0]));
        let t = total(ns.drop_first());
        assert(x.n * t.d + t.n * x.d >= 0) by (nonlinear_arith)
            requires
                x.n >= 0,
                t.d > 0,
                t.n >= 0,
                x.d > 0,
        ;
    }
}

pub proof fn lemma_le_cong(a: Ratio, a2: Ratio, b: Ratio, b2: Ratio)
    requires
        r_ok(a),
        r_ok(a2),
        r_ok(b),
        r_ok(b2),
        r_eq(a, a2),
        r_eq(b, b2),
        r_le(a, b),
    ensures
        r_le(a2, b2),
{
    let k = a.d * b.d;
    let m = a2.d * b2.d;
    lemma_pos_mul(a.d, b.d);
    lemma_pos_mul(a2.d, b2.d);
    assert((a2.n * b2.d) * (a.d * b.d) == (a2.n * a.d) * (b.d * b2.d)) by (nonlinear_arith);
    assert((a.n * a2.d) * (b.d * b2.d) == (a.n * b.d) * (a2.d * b2.d)) by (nonlinear_arith);
    assert((b2.n * a2.d) * (a.d * b.d) == (b2.n * b.d) * (a2.d * a.d)) by (nonlinear_arith);
    assert((b.n * b2.d) * (a2.d * a.d) == (b.n * a.d) * (a2.d * b2.d)) by (nonlinear_arith);
    lemma_scale_le(a.n * b.d, b.n * a.d, m);
    lemma_cancel_le(a2.n * b2.d, b2.n * a2.d, k);
}

/// `(a + b) + c` has the value of `(a + c) + b`.
pub proof fn lemma_swap_last(a: Ratio, b: Ratio, c: Ratio)
    requires
        r_ok(a),
        r_ok(b),
        r_ok(c),
    ensures
        r_eq(r_add(r_add(a, b), c), r_add(r_add(a, c), b)),
{
    broadcast use lemma_add_ok;

    lemma_add_assoc(a, b, c);
    lemma_add_comm(b, c);
    lemma_add_cong(a, a, r_add(b, c), r_add(c, b));
    lemma_add_assoc(a, c, b);
    lemma_eq_sym(r_add(r_add(a, c), b), r_add(a, r_add(c, b)));
    lemma_eq_trans(r_add(r_add(a, b), c), r_add(a, r_add(b, c)), r_add(a, r_add(c, b)));
    lemma_eq_trans(r_add(r_add(a, b), c), r_add(a, r_add(c, b)), r_add(r_add(a, c), b));
}

pub proof fn lemma_add_zero(a: Ratio, z: Ratio)
    requires
        z.n == 0,
        r_ok(z),
    ensures
        r_eq(r_add(a, z), a),
{
    assert((a.n * z.d + 0 * a.d) * a.d == a.n * (a.d * z.d)) by (nonlinear_arith);
}

/// A sum of durations as a sum of values.
pub proof fn lemma_sum_is(a: Fraction, b: Fraction, c: Fraction)
    requires
        frac_sum_is(a, b, c),
    ensures
        r_eq(r_add(ratio(a), ratio(b)), ratio(c)),
{
}

/// The total of the markings `a + b` is the total of `a` and that of `b`.
pub proof fn lemma_total_concat(a: Seq<Seq<char>>, b: Seq<Seq<char>>)
    requires
        all_notes(a),
        all_notes(b),
    ensures
        r_eq(total(a + b), r_add(total(a), total(b))),
    decreases a.len(),
{
    lemma_total_ok(b);
    if a.len() == 0 {
        assert(a + b =~= b);
        lemma_add_comm(total(a), total(b));
        lemma_add_zero(total(b), total(a));
        lemma_eq_trans(r_add(total(b), total(a)), total(b), total(b));
        lemma_eq_sym(r_add(total(b), total(a)), total(b));
        lemma_eq_trans(total(b), r_add(total(b), total(a)), r_add(total(a), total(b)));
    } else {
        let x = ratio(duration_of(a[0]));
        let a1 = a.drop_first();
        assert((a + b)[0] == a[0]);
        assert((a + b).drop_first() =~= a1 + b);
        assert(all_notes(a1)) by {
            assert forall|i: int| 0 <= i < a1.len() implies #[trigger] parse_note_text(a1[i]) is Some by {
                assert(a1[i] == a[i + 1]);
            }
        }
        lemma_parsed_den(a[0]);
        lemma_total_ok(a1);
        lemma_total_ok(b);
        lemma_total_concat(a1, b);
        // total(a + b) = x + total(a1 + b) ~ x + (total(a1) + total(b)) ~ (x + total(a1)) + total(b)
        lemma_add_cong(x, x, total(a1 + b), r_add(total(a1), total(b)));
        lemma_add_assoc(x, total(a1), total(b));
        lemma_eq_sym(r_add(r_add(x, total(a1)), total(b)), r_add(x, r_add(total(a1), total(b))));
        lemma_add_ok(total(a1), total(b));
        lemma_add_ok(x, r_add(total(a1), total(b)));
        lemma_eq_trans(
            total(a + b),
            r_add(x, r_add(total(a1), total(b))),
            r_add(r_add(x, total(a1)), total(b)),
        );
    }
}

} // verus!
