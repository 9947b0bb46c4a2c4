//! Properties that relate several operations of the library.
use vstd::prelude::*;

use crate::fraction::{
    frac_le, frac_lt, frac_sub, frac_sum_is, lemma_sub_props, lemma_sub_then_add, sub_fits,
    Fraction,
};
use crate::model::{
    chan_at, filling_rest, lemma_marking_count_exact, lemma_with_notes_at, lemma_with_notes_same,
    lemma_with_notes_twice, left_spec, marking_len_spec, notes_at, rest_of, right_spec,
    new_measure_spec, empty_measure_notes, lemma_marking_count,
    set_duration_spec, text_at, walk, walk_step, whole, with_notes, CursorV, MovementV,
    WalkState, WalkStep,
};
use crate::note::{
    lemma_note_text_round_trip, note_text, octave_char, octave_of, parse_note_text, NoteV,
    PitchOctave,
};
use crate::ratio::{
    all_notes, duration_of, lemma_add_assoc, lemma_add_comm, lemma_add_cancel, lemma_add_cong,
    lemma_add_ok, lemma_add_zero, lemma_eq_sym, lemma_eq_trans, lemma_le_add, lemma_le_add_nonneg, lemma_le_cancel, lemma_le_cong,
    lemma_le_trans, lemma_total_nonneg,
    lemma_parsed_den, lemma_sum_is, lemma_swap_last, lemma_total_concat, lemma_total_ok, r_add,
    r_eq, r_le, r_ok, ratio, total, Ratio,
};

verus! {

/// Law: a note written into an empty measure and the rest written after it
/// fill exactly one whole note.
pub proof fn law_empty_measure_fills_whole(n: NoteV)
    requires
        n.duration.den > 0,
        frac_le(n.duration, whole()),
    ensures
        sub_fits(whole(), n.duration),
        filling_rest(n).duration.den > 0,
        frac_sum_is(n.duration, filling_rest(n).duration, whole()),
{
    lemma_sub_props(whole(), n.duration);
    lemma_sub_then_add(whole(), n.duration);
    let r = frac_sub(whole(), n.duration);
    assert((r.num * n.duration.den + n.duration.num * r.den) * 1 == 1 * (r.den * n.duration.den));
    assert((n.duration.num * r.den + r.num * n.duration.den) * 1 == 1 * (n.duration.den * r.den))
        by (nonlinear_arith)
        requires
            (r.num * n.duration.den + n.duration.num * r.den) * 1 == 1 * (r.den * n.duration.den),
    ;
}

/// Law: shortening a note keeps the measure's length.  After
/// `set_duration` with a shorter duration, the marking under the cursor
/// reads as the same note with the new duration, and the next marking reads
/// as a fresh rest, with no articulations, that makes up the difference.
pub proof fn law_shorter_note_then_rest(mv: Seq<MovementV>, c: CursorV, dur: Fraction, fuel: nat)
    requires
        set_duration_spec(mv, c, dur, fuel) is Some,
        frac_lt(dur, parse_note_text(text_at(mv, c)->0)->0.duration),
    ensures
        ({
            let n0 = parse_note_text(text_at(mv, c)->0)->0;
            let r = set_duration_spec(mv, c, dur, fuel)->0;
            let next = CursorV { marking: c.marking + 1, ..c };
            &&& parse_note_text(text_at(r, c)->0) == Some(NoteV { duration: dur, ..n0 })
            &&& parse_note_text(text_at(r, next)->0) == Some(
                NoteV { pitch: None, duration: frac_sub(n0.duration, dur), articulation: seq![] },
            )
            &&& parse_note_text(text_at(r, next)->0) matches Some(rest) && rest.pitch is None
                && frac_sum_is(dur, rest.duration, n0.duration)
        }),
{
    let n0 = parse_note_text(text_at(mv, c)->0)->0;
    let ns = notes_at(mv, c)->0;
    let rest = rest_of(frac_sub(n0.duration, dur));
    let note = NoteV { duration: dur, ..n0 };
    let ns1 = ns.insert((c.marking + 1) as int, note_text(rest)).update(
        c.marking as int,
        note_text(note),
    );
    let next = CursorV { marking: c.marking + 1, ..c };
    lemma_with_notes_at(mv, c, ns1, c);
    lemma_with_notes_at(mv, c, ns1, next);
    assert(ns1[c.marking as int] == note_text(note));
    assert(ns1[(c.marking + 1) as int] == note_text(rest));
    lemma_note_text_round_trip(note);
    lemma_sub_then_add(n0.duration, dur);
    let d = frac_sub(n0.duration, dur);
    lemma_note_text_round_trip(rest);
    assert((dur.num * d.den + d.num * dur.den) * n0.duration.den == n0.duration.num * (dur.den
        * d.den)) by (nonlinear_arith)
        requires
            (d.num * dur.den + dur.num * d.den) * n0.duration.den == n0.duration.num * (d.den
                * dur.den),
    ;
}

/// Law: moving right and then left returns to the same marking, from any
/// marking of the measure (also from its last one, where moving right goes
/// on to the next measure), and from the start of a measure with no
/// markings.
pub proof fn law_left_undoes_right(mv: Seq<MovementV>, c: CursorV)
    requires
        c.marking < marking_len_spec(mv, c) || c.marking == 0,
    ensures
        left_spec(mv, right_spec(mv, c)) == c,
{
    let r = right_spec(mv, c);
    if c.marking + 1 >= marking_len_spec(mv, c) {
        let prev = CursorV { measure: (r.measure - 1) as nat, ..r };
        assert(prev == CursorV { marking: 0, ..c });
        assert(marking_len_spec(mv, prev) == marking_len_spec(mv, c));
    }
}

/// `pre + [t] + rest` reads as notes when its parts do.
proof fn lemma_all_notes_split(pre: Seq<Seq<char>>, t: Seq<char>, rest: Seq<Seq<char>>)
    requires
        all_notes(pre),
        parse_note_text(t) is Some,
        all_notes(rest),
    ensures
        all_notes(pre + seq![t] + rest),
        all_notes(seq![t] + rest),
{
    let ns = pre + seq![t] + rest;
    assert forall|i: int| 0 <= i < ns.len() implies #[trigger] parse_note_text(ns[i]) is Some by {
        if i < pre.len() {
            assert(ns[i] == pre[i]);
        } else if i == pre.len() {
            assert(ns[i] == t);
        } else {
            assert(ns[i] == rest[i - pre.len() - 1]);
        }
    }
    let tr = seq![t] + rest;
    assert forall|i: int| 0 <= i < tr.len() implies #[trigger] parse_note_text(tr[i]) is Some by {
        if i > 0 {
            assert(tr[i] == rest[i - 1]);
        }
    }
}

/// The total of `[t] + rest` is the duration of `t` and the total of `rest`.
proof fn lemma_total_cons(t: Seq<char>, rest: Seq<Seq<char>>)
    ensures
        total(seq![t] + rest) == r_add(ratio(duration_of(t)), total(rest)),
{
    assert((seq![t] + rest)[0] == t);
    assert((seq![t] + rest).drop_first() =~= rest);
}

/// Dropping the first marking keeps the rest readable.
proof fn lemma_all_notes_drop_first(ns: Seq<Seq<char>>)
    requires
        all_notes(ns),
        ns.len() > 0,
    ensures
        all_notes(ns.drop_first()),
{
    assert forall|i: int| 0 <= i < ns.drop_first().len() implies #[trigger] parse_note_text(
        ns.drop_first()[i],
    ) is Some by {
        assert(ns.drop_first()[i] == ns[i + 1]);
    }
}

/// A positive duration is not covered by no markings.
proof fn lemma_positive_needs_markings(rest: Seq<Seq<char>>, t: Fraction)
    requires
        t.num != 0,
        t.den > 0,
        r_le(ratio(t), total(rest)),
    ensures
        rest.len() > 0,
{
    if rest.len() == 0 {
        assert(total(rest) == Ratio { n: 0, d: 1 });
        assert(t.num as int * 1 <= 0 * (t.den as int));
    }
}

/// The values kept by a step of the walk that removes a marking of
/// duration `x` from markings `x + a`, leaving `y` of the extra `tz`.
proof fn lemma_step_take(x: Ratio, a: Ratio, t0r: Ratio, r0: Ratio, tz: Ratio, y: Ratio)
    requires
        r_ok(x),
        r_ok(a),
        r_ok(t0r),
        r_ok(r0),
        r_ok(tz),
        r_ok(y),
        r_eq(r_add(r_add(x, a), t0r), r_add(r0, tz)),
        r_eq(r_add(y, x), tz),
        r_le(tz, r_add(x, a)),
    ensures
        r_eq(r_add(a, t0r), r_add(r0, y)),
        r_le(y, a),
{
    broadcast use lemma_add_ok;

    lemma_add_comm(x, a);
    lemma_add_cong(r_add(x, a), r_add(a, x), t0r, t0r);
    lemma_swap_last(a, x, t0r);
    lemma_eq_trans(r_add(r_add(x, a), t0r), r_add(r_add(a, x), t0r), r_add(r_add(a, t0r), x));
    lemma_eq_sym(r_add(y, x), tz);
    lemma_add_cong(r0, r0, tz, r_add(y, x));
    lemma_add_assoc(r0, y, x);
    lemma_eq_sym(r_add(r_add(r0, y), x), r_add(r0, r_add(y, x)));
    lemma_eq_trans(r_add(r0, tz), r_add(r0, r_add(y, x)), r_add(r_add(r0, y), x));
    lemma_eq_sym(r_add(r_add(x, a), t0r), r_add(r_add(a, t0r), x));
    lemma_eq_trans(r_add(r_add(a, t0r), x), r_add(r_add(x, a), t0r), r_add(r0, tz));
    lemma_eq_trans(r_add(r_add(a, t0r), x), r_add(r0, tz), r_add(r_add(r0, y), x));
    lemma_add_cancel(r_add(a, t0r), r_add(r0, y), x);
    lemma_le_cong(tz, r_add(y, x), r_add(x, a), r_add(a, x));
    lemma_le_cancel(y, a, x);
}

/// The values kept by the step of the walk that shortens a marking of
/// duration `x` to `sx`, with `sx + tz = x`.
proof fn lemma_step_shorten(x: Ratio, a: Ratio, t0r: Ratio, r0: Ratio, tz: Ratio, sx: Ratio)
    requires
        r_ok(x),
        r_ok(a),
        r_ok(t0r),
        r_ok(r0),
        r_ok(tz),
        r_ok(sx),
        r_eq(r_add(r_add(x, a), t0r), r_add(r0, tz)),
        r_eq(r_add(sx, tz), x),
    ensures
        r_eq(r_add(r_add(sx, a), t0r), r0),
{
    broadcast use lemma_add_ok;

    // (x + a) + t0r ~ (a + t0r) + x
    lemma_add_comm(x, a);
    lemma_add_cong(r_add(x, a), r_add(a, x), t0r, t0r);
    lemma_swap_last(a, x, t0r);
    lemma_eq_trans(r_add(r_add(x, a), t0r), r_add(r_add(a, x), t0r), r_add(r_add(a, t0r), x));
    // (a + t0r) + x ~ (a + t0r) + (sx + tz) ~ ((a + t0r) + sx) + tz ~ ((sx + a) + t0r) + tz
    lemma_eq_sym(r_add(sx, tz), x);
    lemma_add_cong(r_add(a, t0r), r_add(a, t0r), x, r_add(sx, tz));
    lemma_add_assoc(r_add(a, t0r), sx, tz);
    lemma_eq_sym(r_add(r_add(r_add(a, t0r), sx), tz), r_add(r_add(a, t0r), r_add(sx, tz)));
    lemma_swap_last(a, t0r, sx);
    lemma_add_comm(a, sx);
    lemma_add_cong(r_add(a, sx), r_add(sx, a), t0r, t0r);
    lemma_eq_trans(r_add(r_add(a, t0r), sx), r_add(r_add(a, sx), t0r), r_add(r_add(sx, a), t0r));
    lemma_add_cong(r_add(r_add(a, t0r), sx), r_add(r_add(sx, a), t0r), tz, tz);
    lemma_eq_trans(
        r_add(r_add(x, a), t0r),
        r_add(r_add(a, t0r), x),
        r_add(r_add(a, t0r), r_add(sx, tz)),
    );
    lemma_eq_trans(
        r_add(r_add(x, a), t0r),
        r_add(r_add(a, t0r), r_add(sx, tz)),
        r_add(r_add(r_add(a, t0r), sx), tz),
    );
    lemma_eq_trans(
        r_add(r_add(x, a), t0r),
        r_add(r_add(r_add(a, t0r), sx), tz),
        r_add(r_add(r_add(sx, a), t0r), tz),
    );
    lemma_eq_sym(r_add(r_add(x, a), t0r), r_add(r_add(r_add(sx, a), t0r), tz));
    lemma_eq_trans(r_add(r_add(r_add(sx, a), t0r), tz), r_add(r_add(x, a), t0r), r_add(r0, tz));
    lemma_add_cancel(r_add(r_add(sx, a), t0r), r0, tz);
}

/// The walk of a longer note that stays in its measure: the markings after
/// the note only lose, in all, the duration that the walk takes.
///
/// `rest` are the markings after the note, `tied0` the whole extra and
/// `r0` the markings after the note before the walk; the walk has taken
/// `tied0 - s.tied` so far.
#[verifier::rlimit(50)]
proof fn lemma_walk_in_measure(
    mv: Seq<MovementV>,
    c: CursorV,
    pre: Seq<Seq<char>>,
    t0: Seq<char>,
    rest: Seq<Seq<char>>,
    tied0: Fraction,
    r0: Seq<Seq<char>>,
    s: WalkState,
    fuel: nat,
) -> (r_end: Seq<Seq<char>>)
    requires
        chan_at(mv, c) is Some,
        c.marking == pre.len(),
        s.cur == (CursorV { marking: c.marking + 1, ..c }),
        !s.crossed,
        s.mv == with_notes(mv, c, pre + seq![t0] + rest),
        all_notes(pre),
        parse_note_text(t0) is Some,
        all_notes(rest),
        s.tied.den > 0,
        tied0.den > 0,
        all_notes(r0),
        r_eq(r_add(total(rest), ratio(tied0)), r_add(total(r0), ratio(s.tied))),
        r_le(ratio(s.tied), total(rest)),
        walk(s, fuel) is Some,
    ensures
        walk(s, fuel)->0.mv == with_notes(mv, c, pre + seq![t0] + r_end),
        walk(s, fuel)->0.note == s.note,
        all_notes(r_end),
        r_eq(r_add(total(r_end), ratio(tied0)), total(r0)),
    decreases fuel,
{
    broadcast use lemma_add_ok;

    let ns = pre + seq![t0] + rest;
    let k = c.marking as int;
    lemma_total_ok(rest);
    lemma_total_ok(r0);
    lemma_all_notes_split(pre, t0, rest);
    lemma_with_notes_at(mv, c, ns, s.cur);
    lemma_marking_count_exact(ns, 0, ns.len() as int);
    let tz = ratio(s.tied);
    let t0r = ratio(tied0);
    if s.tied.num == 0 {
        lemma_add_zero(total(r0), tz);
        lemma_eq_trans(r_add(total(rest), t0r), r_add(total(r0), tz), total(r0));
        rest
    } else {
        lemma_positive_needs_markings(rest, s.tied);
        assert(ns[k + 1] == rest[0]);
        let removed = parse_note_text(rest[0])->0;
        let rd = removed.duration;
        let x = ratio(rd);
        let rest1 = rest.drop_first();
        let ns1 = ns.remove(k + 1);
        assert(ns1 =~= pre + seq![t0] + rest1);
        lemma_with_notes_twice(mv, c, ns, ns1);
        lemma_parsed_den(rest[0]);
        lemma_all_notes_drop_first(rest);
        lemma_total_ok(rest1);
        let a = total(rest1);
        assert(total(rest) == r_add(x, a));
        assert(walk_step(s) !is Stuck);
        if frac_le(rd, s.tied) {
            let t2 = frac_sub(s.tied, rd);
            lemma_sub_then_add(s.tied, rd);
            lemma_sum_is(t2, rd, s.tied);
            let y = ratio(t2);
            lemma_step_take(x, a, t0r, total(r0), tz, y);
            let t = WalkState { mv: with_notes(mv, c, ns1), tied: t2, ..s };
            assert(walk_step(s) == WalkStep::Continue(t));
            lemma_walk_in_measure(mv, c, pre, t0, rest1, tied0, r0, t, (fuel - 1) as nat)
        } else {
            let sh = NoteV { duration: frac_sub(rd, s.tied), ..removed };
            lemma_sub_then_add(rd, s.tied);
            lemma_sum_is(sh.duration, s.tied, rd);
            lemma_note_text_round_trip(sh);
            let sx = ratio(sh.duration);
            let r_end = seq![note_text(sh)] + rest1;
            lemma_total_cons(note_text(sh), rest1);
            assert(total(r_end) == r_add(sx, a));
            assert(all_notes(r_end)) by {
                assert forall|i: int| 0 <= i < r_end.len() implies #[trigger] parse_note_text(
                    r_end[i],
                ) is Some by {
                    if i > 0 {
                        assert(r_end[i] == rest1[i - 1]);
                    }
                }
            }
            lemma_step_shorten(x, a, t0r, total(r0), tz, sx);
            let ns2 = ns1.insert(k + 1, note_text(sh));
            assert(ns2 =~= pre + seq![t0] + r_end);
            let t = WalkState { mv: with_notes(mv, c, ns2), ..s };
            lemma_with_notes_twice(mv, c, ns, ns2);
            assert(walk_step(s) == WalkStep::Finish(t));
            r_end
        }
    }
}

/// Law: lengthening or shortening a note keeps its measure's length.  When
/// every marking of the measure reads as a note and, for a longer note, the
/// markings after it cover the extra duration, `set_duration` leaves the
/// markings before the note in place, writes the note with the new
/// duration, and the total duration of the measure is unchanged.
pub proof fn law_set_duration_keeps_measure_length(
    mv: Seq<MovementV>,
    c: CursorV,
    dur: Fraction,
    fuel: nat,
)
    requires
        set_duration_spec(mv, c, dur, fuel) is Some,
        all_notes(notes_at(mv, c)->0),
        frac_lt(dur, parse_note_text(text_at(mv, c)->0)->0.duration) || r_le(
            ratio(frac_sub(dur, parse_note_text(text_at(mv, c)->0)->0.duration)),
            total(notes_at(mv, c)->0.skip((c.marking + 1) as int)),
        ),
    ensures
        ({
            let ns = notes_at(mv, c)->0;
            let n0 = parse_note_text(text_at(mv, c)->0)->0;
            let r = set_duration_spec(mv, c, dur, fuel)->0;
            &&& notes_at(r, c) is Some
            &&& all_notes(notes_at(r, c)->0)
            &&& r_eq(total(notes_at(r, c)->0), total(ns))
            &&& notes_at(r, c)->0.take(c.marking as int) == ns.take(c.marking as int)
            &&& parse_note_text(notes_at(r, c)->0[c.marking as int]) == Some(
                NoteV { duration: dur, ..n0 },
            )
        }),
{
    broadcast use lemma_add_ok;

    let ns = notes_at(mv, c)->0;
    let k = c.marking as int;
    let n0 = parse_note_text(text_at(mv, c)->0)->0;
    let old = n0.duration;
    let note = NoteV { duration: dur, ..n0 };
    let pre = ns.take(k);
    let t0 = ns[k];
    let rest0 = ns.skip(k + 1);
    assert(ns =~= pre + seq![t0] + rest0);
    assert(all_notes(pre)) by {
        assert forall|i: int| 0 <= i < pre.len() implies #[trigger] parse_note_text(pre[i]) is Some by {
            assert(pre[i] == ns[i]);
        }
    }
    assert(all_notes(rest0)) by {
        assert forall|i: int| 0 <= i < rest0.len() implies #[trigger] parse_note_text(
            rest0[i],
        ) is Some by {
            assert(rest0[i] == ns[k + 1 + i]);
        }
    }
    assert(parse_note_text(t0) is Some);
    lemma_parsed_den(t0);
    lemma_total_ok(pre);
    lemma_total_ok(rest0);
    lemma_note_text_round_trip(note);
    let tr = seq![note_text(note)] + rest0;
    let r = set_duration_spec(mv, c, dur, fuel)->0;
    let big = ratio(old);
    let dr = ratio(dur);
    let r0t = total(rest0);
    // the measure before the edit: pre + (old + rest0)
    lemma_all_notes_split(pre, t0, rest0);
    lemma_total_cons(t0, rest0);
    assert(ns =~= pre + (seq![t0] + rest0));
    lemma_total_concat(pre, seq![t0] + rest0);
    if frac_lt(dur, old) {
        let rd = frac_sub(old, dur);
        lemma_sub_then_add(old, dur);
        lemma_sum_is(rd, dur, old);
        let rest = rest_of(rd);
        lemma_note_text_round_trip(rest);
        let tail = seq![note_text(rest)] + rest0;
        let ns2 = pre + (seq![note_text(note)] + tail);
        assert(ns.insert(k + 1, note_text(rest)).update(k, note_text(note)) =~= ns2);
        lemma_with_notes_at(mv, c, ns2, c);
        lemma_all_notes_split(seq![], note_text(rest), rest0);
        assert(seq![] + seq![note_text(rest)] + rest0 =~= tail);
        lemma_all_notes_split(pre, note_text(note), tail);
        assert(ns2 =~= pre + seq![note_text(note)] + tail);
        lemma_total_cons(note_text(note), tail);
        lemma_total_cons(note_text(rest), rest0);
        lemma_total_ok(tail);
        lemma_total_concat(pre, seq![note_text(note)] + tail);
        let x = ratio(rd);
        // dr + (x + r0t) ~ big + r0t
        lemma_add_assoc(dr, x, r0t);
        lemma_eq_sym(r_add(r_add(dr, x), r0t), r_add(dr, r_add(x, r0t)));
        lemma_add_comm(dr, x);
        lemma_add_cong(r_add(dr, x), r_add(x, dr), r0t, r0t);
        lemma_add_cong(r_add(x, dr), big, r0t, r0t);
        lemma_eq_trans(r_add(dr, r_add(x, r0t)), r_add(r_add(dr, x), r0t), r_add(r_add(x, dr), r0t));
        lemma_eq_trans(r_add(dr, r_add(x, r0t)), r_add(r_add(x, dr), r0t), r_add(big, r0t));
        // totals
        lemma_add_cong(total(pre), total(pre), r_add(dr, r_add(x, r0t)), r_add(big, r0t));
        lemma_eq_trans(
            total(ns2),
            r_add(total(pre), r_add(dr, r_add(x, r0t))),
            r_add(total(pre), r_add(big, r0t)),
        );
        lemma_eq_sym(total(ns), r_add(total(pre), r_add(big, r0t)));
        lemma_eq_trans(total(ns2), r_add(total(pre), r_add(big, r0t)), total(ns));
        assert(ns2.take(k) =~= pre);
        assert(ns2[k] == note_text(note));
    } else {
        let tied0 = frac_sub(dur, old);
        lemma_sub_then_add(dur, old);
        lemma_sum_is(tied0, old, dur);
        let t0r = ratio(tied0);
        let start = WalkState {
            mv,
            cur: CursorV { marking: c.marking + 1, ..c },
            tied: tied0,
            note,
            crossed: false,
        };
        lemma_with_notes_same(mv, c);
        let r_end = lemma_walk_in_measure(mv, c, pre, t0, rest0, tied0, rest0, start, fuel);
        let e = total(r_end);
        lemma_total_ok(r_end);
        let mid = pre + seq![t0] + r_end;
        lemma_with_notes_at(mv, c, mid, c);
        let ns2 = mid.update(k, note_text(note));
        lemma_with_notes_twice(mv, c, mid, ns2);
        lemma_with_notes_at(mv, c, ns2, c);
        assert(ns2 =~= pre + (seq![note_text(note)] + r_end));
        assert(ns2 =~= pre + seq![note_text(note)] + r_end);
        lemma_all_notes_split(pre, note_text(note), r_end);
        lemma_total_cons(note_text(note), r_end);
        lemma_total_concat(pre, seq![note_text(note)] + r_end);
        // dr + e ~ big + r0t, since t0r + big ~ dr and e + t0r ~ r0t
        lemma_eq_sym(r_add(t0r, big), dr);
        lemma_add_cong(dr, r_add(t0r, big), e, e);
        lemma_swap_last(t0r, big, e);
        lemma_add_comm(t0r, e);
        lemma_add_cong(r_add(t0r, e), r_add(e, t0r), big, big);
        lemma_add_cong(r_add(e, t0r), r0t, big, big);
        lemma_add_comm(r0t, big);
        lemma_eq_trans(r_add(dr, e), r_add(r_add(t0r, big), e), r_add(r_add(t0r, e), big));
        lemma_eq_trans(r_add(dr, e), r_add(r_add(t0r, e), big), r_add(r_add(e, t0r), big));
        lemma_eq_trans(r_add(dr, e), r_add(r_add(e, t0r), big), r_add(r0t, big));
        lemma_eq_trans(r_add(dr, e), r_add(r0t, big), r_add(big, r0t));
        lemma_add_cong(total(pre), total(pre), r_add(dr, e), r_add(big, r0t));
        lemma_eq_trans(total(ns2), r_add(total(pre), r_add(dr, e)), r_add(total(pre), r_add(big, r0t)));
        lemma_eq_sym(total(ns), r_add(total(pre), r_add(big, r0t)));
        lemma_eq_trans(total(ns2), r_add(total(pre), r_add(big, r0t)), total(ns));
        assert(ns2.take(k) =~= pre);
        assert(ns2[k] == note_text(note));
    }
}

/// Law: removing a marking undoes inserting it.  After a note's text is
/// inserted at the cursor, the marking under the cursor reads as that note,
/// and removing it gives back the score as it was.
pub proof fn law_remove_undoes_insert(mv: Seq<MovementV>, c: CursorV, n: NoteV)
    requires
        chan_at(mv, c) is Some,
        c.marking <= notes_at(mv, c)->0.len(),
        n.duration.den > 0,
    ensures
        ({
            let ns = notes_at(mv, c)->0;
            let mv1 = with_notes(mv, c, ns.insert(c.marking as int, note_text(n)));
            &&& text_at(mv1, c) == Some(note_text(n))
            &&& parse_note_text(text_at(mv1, c)->0) == Some(n)
            &&& with_notes(mv1, c, notes_at(mv1, c)->0.remove(c.marking as int)) == mv
        }),
{
    let ns = notes_at(mv, c)->0;
    let ns1 = ns.insert(c.marking as int, note_text(n));
    lemma_with_notes_at(mv, c, ns1, c);
    lemma_note_text_round_trip(n);
    assert(ns1.remove(c.marking as int) =~= ns);
    lemma_with_notes_twice(mv, c, ns1, ns);
    lemma_with_notes_same(mv, c);
}

/// Law: `set_duration` gives the note under the cursor the new duration.
/// Whenever it completes, the marking under the cursor reads as the note it
/// held before, with duration `dur`.
pub proof fn law_set_duration_sets_duration(mv: Seq<MovementV>, c: CursorV, dur: Fraction, fuel: nat)
    requires
        set_duration_spec(mv, c, dur, fuel) is Some,
    ensures
        ({
            let n0 = parse_note_text(text_at(mv, c)->0)->0;
            let r = set_duration_spec(mv, c, dur, fuel)->0;
            &&& text_at(r, c) is Some
            &&& parse_note_text(text_at(r, c)->0) == Some(NoteV { duration: dur, ..n0 })
        }),
{
    let n0 = parse_note_text(text_at(mv, c)->0)->0;
    let note = NoteV { duration: dur, ..n0 };
    lemma_note_text_round_trip(note);
    if frac_lt(dur, n0.duration) {
        law_shorter_note_then_rest(mv, c, dur, fuel);
    } else {
        let start = WalkState {
            mv,
            cur: CursorV { marking: c.marking + 1, ..c },
            tied: frac_sub(dur, n0.duration),
            note,
            crossed: false,
        };
        let end = walk(start, fuel)->0;
        let ns = notes_at(end.mv, c)->0;
        let ns2 = ns.update(c.marking as int, note_text(note));
        lemma_with_notes_at(end.mv, c, ns2, c);
        assert(ns2[c.marking as int] == note_text(note));
    }
}

/// Markings with the same durations, one for one, have the same total.
proof fn lemma_total_same_durations(a: Seq<Seq<char>>, b: Seq<Seq<char>>)
    requires
        a.len() == b.len(),
        forall|i: int| 0 <= i < a.len() ==> #[trigger] duration_of(a[i]) == duration_of(b[i]),
    ensures
        total(a) == total(b),
    decreases a.len(),
{
    if a.len() > 0 {
        assert(duration_of(a[0]) == duration_of(b[0]));
        assert forall|i: int| 0 <= i < a.drop_first().len() implies #[trigger] duration_of(
            a.drop_first()[i],
        ) == duration_of(b.drop_first()[i]) by {
            assert(a.drop_first()[i] == a[i + 1]);
            assert(b.drop_first()[i] == b[i + 1]);
            assert(duration_of(a[i + 1]) == duration_of(b[i + 1]));
        }
        lemma_total_same_durations(a.drop_first(), b.drop_first());
    }
}

/// The markings of the channel under `s.cur` after a step to `t` read as
/// notes, are no fewer and have the same total duration as before, and the
/// rest of the music is as it was.
pub open spec fn keeps_chan_length(s: WalkState, t: WalkState) -> bool {
    &&& notes_at(t.mv, s.cur) is Some
    &&& t.mv == with_notes(s.mv, s.cur, notes_at(t.mv, s.cur)->0)
    &&& notes_at(t.mv, s.cur)->0.len() >= notes_at(s.mv, s.cur)->0.len()
    &&& all_notes(notes_at(t.mv, s.cur)->0)
    &&& r_eq(total(notes_at(t.mv, s.cur)->0), total(notes_at(s.mv, s.cur)->0))
}

/// Law: tying a lengthened note over into a following measure keeps that
/// measure's length.  When every marking of the measure reads as a note, a
/// step of the walk past the note's own measure that ties the note over the
/// marking under the cursor leaves the total duration of the measure
/// unchanged, and changes nothing outside it.
pub proof fn law_tie_keeps_measure_length(s: WalkState)
    requires
        s.crossed,
        chan_at(s.mv, s.cur) is Some,
        all_notes(notes_at(s.mv, s.cur)->0),
        s.cur.marking < notes_at(s.mv, s.cur)->0.len(),
        !(walk_step(s) is Stuck),
    ensures
        walk_step(s) matches WalkStep::Continue(t) ==> keeps_chan_length(s, t),
        walk_step(s) matches WalkStep::Finish(t) ==> keeps_chan_length(s, t),
{
    broadcast use lemma_add_ok;

    let ns = notes_at(s.mv, s.cur)->0;
    let k = s.cur.marking as int;
    lemma_marking_count_exact(ns, 0, ns.len() as int);
    let t0 = ns[k];
    let found = parse_note_text(t0)->0;
    let d = found.duration;
    let pre = ns.take(k);
    let post = ns.skip(k + 1);
    assert(ns =~= pre + seq![t0] + post);
    assert(all_notes(pre)) by {
        assert forall|i: int| 0 <= i < pre.len() implies #[trigger] parse_note_text(pre[i]) is Some by {
            assert(pre[i] == ns[i]);
        }
    }
    assert(all_notes(post)) by {
        assert forall|i: int| 0 <= i < post.len() implies #[trigger] parse_note_text(post[i]) is Some by {
            assert(post[i] == ns[k + 1 + i]);
        }
    }
    lemma_parsed_den(t0);
    lemma_total_ok(pre);
    lemma_total_ok(post);
    if frac_le(d, s.tied) {
        let tie = NoteV { duration: d, ..s.note };
        lemma_note_text_round_trip(tie);
        let ns2 = ns.update(k, note_text(tie));
        lemma_with_notes_at(s.mv, s.cur, ns2, s.cur);
        assert forall|i: int| 0 <= i < ns2.len() implies #[trigger] parse_note_text(ns2[i]) is Some by {
            if i != k {
                assert(ns2[i] == ns[i]);
            }
        }
        assert forall|i: int| 0 <= i < ns2.len() implies #[trigger] duration_of(ns2[i])
            == duration_of(ns[i]) by {
            if i != k {
                assert(ns2[i] == ns[i]);
            }
        }
        lemma_total_same_durations(ns2, ns);
        lemma_total_ok(ns);
        let t = WalkState {
            mv: with_notes(s.mv, s.cur, ns2),
            cur: CursorV { marking: s.cur.marking + 1, ..s.cur },
            tied: frac_sub(s.tied, d),
            ..s
        };
        assert(walk_step(s) == WalkStep::Continue(t));
    } else {
        let x = frac_sub(d, s.tied);
        lemma_sub_then_add(d, s.tied);
        lemma_sum_is(x, s.tied, d);
        let tie = NoteV { duration: s.tied, ..s.note };
        let rem = NoteV { duration: x, ..found };
        lemma_note_text_round_trip(tie);
        lemma_note_text_round_trip(rem);
        let tail = seq![note_text(rem)] + post;
        let ns2 = pre + (seq![note_text(tie)] + tail);
        assert(ns.update(k, note_text(tie)).insert(k + 1, note_text(rem)) =~= ns2);
        lemma_with_notes_at(s.mv, s.cur, ns2, s.cur);
        lemma_all_notes_split(seq![], note_text(rem), post);
        assert(seq![] + seq![note_text(rem)] + post =~= tail);
        lemma_all_notes_split(pre, note_text(tie), tail);
        assert(ns2 =~= pre + seq![note_text(tie)] + tail);
        lemma_total_cons(note_text(tie), tail);
        lemma_total_cons(note_text(rem), post);
        lemma_total_ok(tail);
        lemma_total_concat(pre, seq![note_text(tie)] + tail);
        lemma_all_notes_split(pre, t0, post);
        lemma_total_cons(t0, post);
        assert(ns =~= pre + (seq![t0] + post));
        lemma_total_concat(pre, seq![t0] + post);
        let a = ratio(s.tied);
        let xr = ratio(x);
        let big = ratio(d);
        let p = total(post);
        // a + (xr + p) ~ big + p
        lemma_add_assoc(a, xr, p);
        lemma_eq_sym(r_add(r_add(a, xr), p), r_add(a, r_add(xr, p)));
        lemma_add_comm(a, xr);
        lemma_add_cong(r_add(a, xr), r_add(xr, a), p, p);
        lemma_add_cong(r_add(xr, a), big, p, p);
        lemma_eq_trans(r_add(a, r_add(xr, p)), r_add(r_add(a, xr), p), r_add(r_add(xr, a), p));
        lemma_eq_trans(r_add(a, r_add(xr, p)), r_add(r_add(xr, a), p), r_add(big, p));
        lemma_add_cong(total(pre), total(pre), r_add(a, r_add(xr, p)), r_add(big, p));
        lemma_eq_trans(
            total(ns2),
            r_add(total(pre), r_add(a, r_add(xr, p))),
            r_add(total(pre), r_add(big, p)),
        );
        lemma_eq_sym(total(ns), r_add(total(pre), r_add(big, p)));
        lemma_eq_trans(total(ns2), r_add(total(pre), r_add(big, p)), total(ns));
        let t = WalkState { mv: with_notes(s.mv, s.cur, ns2), ..s };
        assert(walk_step(s) == WalkStep::Finish(t));
    }
}

/// Whether taking `t` from the markings `rest`, one after another, ends
/// within them with every difference fitting the 32-bit fields of a
/// `Fraction`: markings no longer than what is left are taken whole, and
/// the first longer one is shortened.
pub open spec fn take_fits(t: Fraction, rest: Seq<Seq<char>>) -> bool
    decreases rest.len(),
{
    if t.num == 0 {
        true
    } else if rest.len() == 0 {
        false
    } else {
        let d = duration_of(rest[0]);
        if frac_le(d, t) {
            sub_fits(t, d) && take_fits(frac_sub(t, d), rest.drop_first())
        } else {
            sub_fits(d, t)
        }
    }
}

/// The walk of a longer note completes within its measure when what is
/// left of the extra can be taken from the markings after the note.
proof fn lemma_take_fits_walk(
    mv: Seq<MovementV>,
    c: CursorV,
    pre: Seq<Seq<char>>,
    t0: Seq<char>,
    rest: Seq<Seq<char>>,
    s: WalkState,
    fuel: nat,
) -> (r_end: Seq<Seq<char>>)
    requires
        chan_at(mv, c) is Some,
        c.marking == pre.len(),
        s.cur == (CursorV { marking: c.marking + 1, ..c }),
        !s.crossed,
        s.mv == with_notes(mv, c, pre + seq![t0] + rest),
        all_notes(pre),
        parse_note_text(t0) is Some,
        all_notes(rest),
        s.tied.den > 0,
        take_fits(s.tied, rest),
        fuel >= rest.len(),
    ensures
        walk(s, fuel) is Some,
        walk(s, fuel)->0.mv == with_notes(mv, c, pre + seq![t0] + r_end),
    decreases rest.len(),
{
    let ns = pre + seq![t0] + rest;
    let k = c.marking as int;
    lemma_all_notes_split(pre, t0, rest);
    lemma_with_notes_at(mv, c, ns, s.cur);
    lemma_marking_count_exact(ns, 0, ns.len() as int);
    if s.tied.num == 0 {
        rest
    } else {
        assert(ns[k + 1] == rest[0]);
        let removed = parse_note_text(rest[0])->0;
        let rd = removed.duration;
        let rest1 = rest.drop_first();
        let ns1 = ns.remove(k + 1);
        assert(ns1 =~= pre + seq![t0] + rest1);
        lemma_with_notes_twice(mv, c, ns, ns1);
        lemma_parsed_den(rest[0]);
        lemma_all_notes_drop_first(rest);
        if frac_le(rd, s.tied) {
            let t2 = frac_sub(s.tied, rd);
            lemma_sub_then_add(s.tied, rd);
            let t = WalkState { mv: with_notes(mv, c, ns1), tied: t2, ..s };
            assert(walk_step(s) == WalkStep::Continue(t));
            lemma_take_fits_walk(mv, c, pre, t0, rest1, t, (fuel - 1) as nat)
        } else {
            let sh = NoteV { duration: frac_sub(rd, s.tied), ..removed };
            let r_end = seq![note_text(sh)] + rest1;
            let ns2 = ns1.insert(k + 1, note_text(sh));
            assert(ns2 =~= pre + seq![t0] + r_end);
            let t = WalkState { mv: with_notes(mv, c, ns2), ..s };
            lemma_with_notes_twice(mv, c, ns, ns2);
            assert(walk_step(s) == WalkStep::Finish(t));
            r_end
        }
    }
}

/// Whether an edit of the duration of the note under `c` to `dur` stays in
/// the note's measure: the marking under `c` exists, every marking of the
/// measure reads as a note, a shorter duration leaves a difference that
/// fits, and for a longer one the extra can be taken from the markings
/// after the note (`take_fits`).
pub open spec fn in_measure_edit_fits(mv: Seq<MovementV>, c: CursorV, dur: Fraction) -> bool {
    &&& text_at(mv, c) is Some
    &&& all_notes(notes_at(mv, c)->0)
    &&& ({
        let n0 = parse_note_text(text_at(mv, c)->0)->0;
        let rest = notes_at(mv, c)->0.skip((c.marking + 1) as int);
        if frac_lt(dur, n0.duration) {
            sub_fits(n0.duration, dur)
        } else {
            sub_fits(dur, n0.duration) && take_fits(frac_sub(dur, n0.duration), rest)
        }
    })
}

/// An edit of a note's duration that stays in the note's measure
/// completes: when every marking of the measure reads as a note, a shorter
/// duration leaves a difference that fits, and for a longer one the extra
/// can be taken from the markings after the note (`take_fits`), then
/// `set_duration` completes within as many steps as the measure has
/// markings.
pub proof fn lemma_set_duration_in_measure_completes(mv: Seq<MovementV>, c: CursorV, dur: Fraction)
    requires
        dur.den > 0,
        in_measure_edit_fits(mv, c, dur),
    ensures
        set_duration_spec(mv, c, dur, notes_at(mv, c)->0.len()) is Some,
{
    let ns = notes_at(mv, c)->0;
    let k = c.marking as int;
    let t0 = ns[k];
    assert(parse_note_text(t0) is Some);
    let n0 = parse_note_text(t0)->0;
    lemma_parsed_den(t0);
    if !frac_lt(dur, n0.duration) {
        let pre = ns.take(k);
        let rest = ns.skip(k + 1);
        assert(ns =~= pre + seq![t0] + rest);
        assert(all_notes(pre)) by {
            assert forall|i: int| 0 <= i < pre.len() implies #[trigger] parse_note_text(pre[i]) is Some by {
                assert(pre[i] == ns[i]);
            }
        }
        assert(all_notes(rest)) by {
            assert forall|i: int| 0 <= i < rest.len() implies #[trigger] parse_note_text(
                rest[i],
            ) is Some by {
                assert(rest[i] == ns[k + 1 + i]);
            }
        }
        lemma_sub_then_add(dur, n0.duration);
        let note = NoteV { duration: dur, ..n0 };
        let start = WalkState {
            mv,
            cur: CursorV { marking: c.marking + 1, ..c },
            tied: frac_sub(dur, n0.duration),
            note,
            crossed: false,
        };
        lemma_with_notes_same(mv, c);
        let r_end = lemma_take_fits_walk(mv, c, pre, t0, rest, start, ns.len());
        let mid = pre + seq![t0] + r_end;
        lemma_with_notes_at(mv, c, mid, c);
        assert(mid[k] == t0);
    }
}

/// The markings after a lengthened note, `after`, as the walk within the
/// measure leaves them from the markings `rest` that followed it, for an
/// extra duration `t`: the first `m` markings, in all no longer than `t`,
/// are gone; either they make up `t` exactly and the others stay as they
/// were, or the next marking is shortened by what is left of `t` and the
/// others stay.
pub open spec fn in_measure_shape(
    rest: Seq<Seq<char>>,
    m: int,
    t: Fraction,
    after: Seq<Seq<char>>,
) -> bool {
    let taken = total(rest.take(m));
    &&& 0 <= m <= rest.len()
    &&& r_le(taken, ratio(t))
    &&& {
        ||| r_eq(taken, ratio(t)) && after == rest.skip(m)
        ||| {
            &&& m < rest.len()
            &&& !r_le(ratio(t), taken)
            &&& after.len() > 0
            &&& after.drop_first() == rest.skip(m + 1)
            &&& parse_note_text(after[0]) matches Some(sh)
            &&& parse_note_text(rest[m]) matches Some(f)
            &&& sh.pitch == f.pitch
            &&& sh.articulation == f.articulation
            &&& r_eq(r_add(ratio(sh.duration), ratio(t)), r_add(ratio(f.duration), taken))
        }
    }
}

/// What is taken before and after a step that takes a marking of value `x`
/// from the extra `tz`, leaving `y`.
proof fn lemma_shape_take(x: Ratio, s1: Ratio, y: Ratio, tz: Ratio)
    requires
        r_ok(x),
        r_ok(s1),
        r_ok(y),
        r_ok(tz),
        r_eq(r_add(y, x), tz),
    ensures
        r_le(s1, y) ==> r_le(r_add(x, s1), tz),
        r_eq(s1, y) ==> r_eq(r_add(x, s1), tz),
        !r_le(y, s1) ==> !r_le(tz, r_add(x, s1)),
{
    broadcast use lemma_add_ok;

    lemma_add_comm(s1, x);
    lemma_add_comm(x, s1);
    if r_le(s1, y) {
        lemma_le_add(s1, y, x);
        lemma_le_cong(r_add(s1, x), r_add(x, s1), r_add(y, x), tz);
    }
    if r_eq(s1, y) {
        lemma_add_cong(s1, y, x, x);
        lemma_eq_trans(r_add(x, s1), r_add(s1, x), r_add(y, x));
        lemma_eq_trans(r_add(x, s1), r_add(y, x), tz);
    }
    if r_le(tz, r_add(x, s1)) {
        lemma_eq_sym(r_add(y, x), tz);
        lemma_le_cong(tz, r_add(y, x), r_add(x, s1), r_add(s1, x));
        lemma_le_cancel(y, s1, x);
    }
}

/// The equation of a shortened marking carries over a step that took a
/// marking of value `x` from the extra `tz`, leaving `y`.
proof fn lemma_shape_shortened(x: Ratio, s1: Ratio, y: Ratio, tz: Ratio, sh: Ratio, fd: Ratio)
    requires
        r_ok(x),
        r_ok(s1),
        r_ok(y),
        r_ok(tz),
        r_ok(sh),
        r_ok(fd),
        r_eq(r_add(y, x), tz),
        r_eq(r_add(sh, y), r_add(fd, s1)),
    ensures
        r_eq(r_add(sh, tz), r_add(fd, r_add(x, s1))),
{
    broadcast use lemma_add_ok;

    // sh + tz ~ sh + (y + x) ~ (sh + y) + x ~ (fd + s1) + x ~ fd + (s1 + x) ~ fd + (x + s1)
    lemma_eq_sym(r_add(y, x), tz);
    lemma_add_cong(sh, sh, tz, r_add(y, x));
    lemma_add_assoc(sh, y, x);
    lemma_eq_sym(r_add(r_add(sh, y), x), r_add(sh, r_add(y, x)));
    lemma_add_cong(r_add(sh, y), r_add(fd, s1), x, x);
    lemma_add_assoc(fd, s1, x);
    lemma_add_comm(s1, x);
    lemma_add_cong(fd, fd, r_add(s1, x), r_add(x, s1));
    lemma_eq_trans(r_add(sh, tz), r_add(sh, r_add(y, x)), r_add(r_add(sh, y), x));
    lemma_eq_trans(r_add(sh, tz), r_add(r_add(sh, y), x), r_add(r_add(fd, s1), x));
    lemma_eq_trans(r_add(sh, tz), r_add(r_add(fd, s1), x), r_add(fd, r_add(s1, x)));
    lemma_eq_trans(r_add(sh, tz), r_add(fd, r_add(s1, x)), r_add(fd, r_add(x, s1)));
}

/// The walk of a longer note that stays in its measure leaves the markings
/// after the note in the shape `in_measure_shape`.
#[verifier::rlimit(50)]
proof fn lemma_walk_shape(
    mv: Seq<MovementV>,
    c: CursorV,
    pre: Seq<Seq<char>>,
    t0: Seq<char>,
    rest: Seq<Seq<char>>,
    s: WalkState,
    fuel: nat,
) -> (res: (int, Seq<Seq<char>>))
    requires
        chan_at(mv, c) is Some,
        c.marking == pre.len(),
        s.cur == (CursorV { marking: c.marking + 1, ..c }),
        !s.crossed,
        s.mv == with_notes(mv, c, pre + seq![t0] + rest),
        all_notes(pre),
        parse_note_text(t0) is Some,
        all_notes(rest),
        s.tied.den > 0,
        r_le(ratio(s.tied), total(rest)),
        walk(s, fuel) is Some,
    ensures
        walk(s, fuel)->0.mv == with_notes(mv, c, pre + seq![t0] + res.1),
        in_measure_shape(rest, res.0, s.tied, res.1),
    decreases fuel,
{
    broadcast use lemma_add_ok;

    let ns = pre + seq![t0] + rest;
    let k = c.marking as int;
    lemma_total_ok(rest);
    lemma_all_notes_split(pre, t0, rest);
    lemma_with_notes_at(mv, c, ns, s.cur);
    lemma_marking_count_exact(ns, 0, ns.len() as int);
    let tz = ratio(s.tied);
    assert(rest.take(0) =~= Seq::<Seq<char>>::empty());
    if s.tied.num == 0 {
        assert(rest.skip(0) =~= rest);
        assert(total(rest.take(0)) == Ratio { n: 0, d: 1 });
        assert(r_le(Ratio { n: 0, d: 1 }, tz));
        assert(r_eq(Ratio { n: 0, d: 1 }, tz));
        assert(in_measure_shape(rest, 0, s.tied, rest));
        (0, rest)
    } else {
        lemma_positive_needs_markings(rest, s.tied);
        assert(ns[k + 1] == rest[0]);
        let removed = parse_note_text(rest[0])->0;
        let rd = removed.duration;
        let x = ratio(rd);
        let rest1 = rest.drop_first();
        let ns1 = ns.remove(k + 1);
        assert(ns1 =~= pre + seq![t0] + rest1);
        lemma_with_notes_twice(mv, c, ns, ns1);
        lemma_parsed_den(rest[0]);
        lemma_all_notes_drop_first(rest);
        lemma_total_ok(rest1);
        let a = total(rest1);
        assert(total(rest) == r_add(x, a));
        assert(walk_step(s) !is Stuck);
        if frac_le(rd, s.tied) {
            let t2 = frac_sub(s.tied, rd);
            lemma_sub_then_add(s.tied, rd);
            lemma_sum_is(t2, rd, s.tied);
            let y = ratio(t2);
            lemma_add_comm(x, a);
            lemma_le_cong(tz, r_add(y, x), r_add(x, a), r_add(a, x));
            lemma_le_cancel(y, a, x);
            let t = WalkState { mv: with_notes(mv, c, ns1), tied: t2, ..s };
            assert(walk_step(s) == WalkStep::Continue(t));
            let (m1, after) = lemma_walk_shape(mv, c, pre, t0, rest1, t, (fuel - 1) as nat);
            let m = m1 + 1;
            let s1 = total(rest1.take(m1));
            assert(all_notes(rest1.take(m1))) by {
                assert forall|i: int| 0 <= i < rest1.take(m1).len() implies #[trigger] parse_note_text(
                    rest1.take(m1)[i],
                ) is Some by {
                    assert(rest1.take(m1)[i] == rest1[i]);
                }
            }
            lemma_total_ok(rest1.take(m1));
            assert(rest.take(m) =~= seq![rest[0]] + rest1.take(m1));
            lemma_total_cons(rest[0], rest1.take(m1));
            assert(total(rest.take(m)) == r_add(x, s1));
            lemma_shape_take(x, s1, y, tz);
            if r_eq(s1, y) && after == rest1.skip(m1) {
                assert(rest1.skip(m1) =~= rest.skip(m));
            } else {
                let sh = parse_note_text(after[0])->0;
                let f = parse_note_text(rest1[m1])->0;
                lemma_parsed_den(after[0]);
                lemma_parsed_den(rest1[m1]);
                assert(rest1[m1] == rest[m]);
                assert(rest1.skip(m1 + 1) =~= rest.skip(m + 1));
                lemma_shape_shortened(x, s1, y, tz, ratio(sh.duration), ratio(f.duration));
            }
            assert(in_measure_shape(rest, m, s.tied, after));
            (m, after)
        } else {
            let sh = NoteV { duration: frac_sub(rd, s.tied), ..removed };
            lemma_sub_then_add(rd, s.tied);
            lemma_sum_is(sh.duration, s.tied, rd);
            lemma_note_text_round_trip(sh);
            let after = seq![note_text(sh)] + rest1;
            let ns2 = ns1.insert(k + 1, note_text(sh));
            assert(ns2 =~= pre + seq![t0] + after);
            let t = WalkState { mv: with_notes(mv, c, ns2), ..s };
            lemma_with_notes_twice(mv, c, ns, ns2);
            assert(walk_step(s) == WalkStep::Finish(t));
            let z = Ratio { n: 0, d: 1 };
            lemma_add_zero(x, z);
            lemma_eq_sym(r_add(x, z), x);
            lemma_eq_trans(r_add(ratio(sh.duration), tz), x, r_add(x, z));
            assert(after.drop_first() =~= rest1);
            assert(rest.skip(1) =~= rest1);
            assert(after[0] == note_text(sh));
            assert(total(rest.take(0)) == Ratio { n: 0, d: 1 });
            assert(r_le(Ratio { n: 0, d: 1 }, tz));
            assert(in_measure_shape(rest, 0, s.tied, after));
            (0, after)
        }
    }
}

/// Law: the shape of a lengthening within the measure.  When every
/// marking of the measure reads as a note and the markings after a
/// lengthened note cover the extra duration, `set_duration` leaves the
/// markings before the note and every other channel as they were, writes
/// the note with the new duration, and of the markings after it removes a
/// first run of them that is no longer than the extra, then either keeps
/// the others, when the run makes up the extra exactly, or shortens the
/// next one by what is left of the extra and keeps the others.
pub proof fn law_in_measure_lengthening(mv: Seq<MovementV>, c: CursorV, dur: Fraction, fuel: nat)
    requires
        set_duration_spec(mv, c, dur, fuel) is Some,
        all_notes(notes_at(mv, c)->0),
        !frac_lt(dur, parse_note_text(text_at(mv, c)->0)->0.duration),
        r_le(
            ratio(frac_sub(dur, parse_note_text(text_at(mv, c)->0)->0.duration)),
            total(notes_at(mv, c)->0.skip((c.marking + 1) as int)),
        ),
    ensures
        ({
            let ns = notes_at(mv, c)->0;
            let k = c.marking as int;
            let n0 = parse_note_text(text_at(mv, c)->0)->0;
            let res = set_duration_spec(mv, c, dur, fuel)->0;
            let r = notes_at(res, c)->0;
            &&& notes_at(res, c) is Some
            &&& res == with_notes(mv, c, r)
            &&& r.take(k) == ns.take(k)
            &&& k < r.len()
            &&& parse_note_text(r[k]) == Some(NoteV { duration: dur, ..n0 })
            &&& exists|m: int|
                #[trigger] in_measure_shape(
                    ns.skip(k + 1),
                    m,
                    frac_sub(dur, n0.duration),
                    r.skip(k + 1),
                )
        }),
{
    let ns = notes_at(mv, c)->0;
    let k = c.marking as int;
    let n0 = parse_note_text(text_at(mv, c)->0)->0;
    let note = NoteV { duration: dur, ..n0 };
    let pre = ns.take(k);
    let t0 = ns[k];
    let rest0 = ns.skip(k + 1);
    assert(ns =~= pre + seq![t0] + rest0);
    assert(all_notes(pre)) by {
        assert forall|i: int| 0 <= i < pre.len() implies #[trigger] parse_note_text(pre[i]) is Some by {
            assert(pre[i] == ns[i]);
        }
    }
    assert(all_notes(rest0)) by {
        assert forall|i: int| 0 <= i < rest0.len() implies #[trigger] parse_note_text(
            rest0[i],
        ) is Some by {
            assert(rest0[i] == ns[k + 1 + i]);
        }
    }
    lemma_parsed_den(t0);
    lemma_note_text_round_trip(note);
    lemma_sub_then_add(dur, n0.duration);
    let start = WalkState {
        mv,
        cur: CursorV { marking: c.marking + 1, ..c },
        tied: frac_sub(dur, n0.duration),
        note,
        crossed: false,
    };
    lemma_with_notes_same(mv, c);
    let (m, after) = lemma_walk_shape(mv, c, pre, t0, rest0, start, fuel);
    let mid = pre + seq![t0] + after;
    lemma_with_notes_at(mv, c, mid, c);
    let ns2 = mid.update(k, note_text(note));
    lemma_with_notes_twice(mv, c, mid, ns2);
    lemma_with_notes_at(mv, c, ns2, c);
    assert(ns2 =~= pre + seq![note_text(note)] + after);
    assert(ns2.skip(k + 1) =~= after);
    assert(ns2.take(k) =~= pre);
    assert(ns2[k] == note_text(note));
    assert(in_measure_shape(rest0, m, frac_sub(dur, n0.duration), ns2.skip(k + 1)));
}

/// The cursor at the first marking of measure `j`, in the movement and
/// channel of `c`.
pub open spec fn measure_of(c: CursorV, j: nat) -> CursorV {
    CursorV { measure: j, marking: 0, ..c }
}

/// Measure `j`, in the movement and channel of `c`, has markings, and all
/// of them read as notes.
pub open spec fn full_measure(mv: Seq<MovementV>, c: CursorV, j: nat) -> bool {
    &&& notes_at(mv, measure_of(c, j)) is Some
    &&& notes_at(mv, measure_of(c, j))->0.len() > 0
    &&& all_notes(notes_at(mv, measure_of(c, j))->0)
}

/// Every measure after the one of `c`, in its movement and channel, that
/// is full in `mv0` is full in `mv` too, with the same total duration.
pub open spec fn following_kept(mv0: Seq<MovementV>, mv: Seq<MovementV>, c: CursorV) -> bool {
    forall|j: nat|
        c.measure < j && #[trigger] full_measure(mv0, c, j) ==> full_measure(mv, c, j) && r_eq(
            total(notes_at(mv, measure_of(c, j))->0),
            total(notes_at(mv0, measure_of(c, j))->0),
        )
}

/// Adding a measure leaves every existing channel as it was.
proof fn lemma_new_measure_keeps(mv: Seq<MovementV>, d: CursorV)
    requires
        chan_at(mv, d) is Some,
    ensures
        chan_at(new_measure_spec(mv), d) == chan_at(mv, d),
{
    if mv.len() > 0 && mv[0].bar.len() > 0 && d.movement == 0 {
        let m1 = new_measure_spec(mv)[0];
        assert(m1.bar[d.measure as int] == mv[0].bar[d.measure as int]);
    }
}

/// A step of the walk keeps the measures after the cursor's measure.
proof fn lemma_step_keeps_following(mv0: Seq<MovementV>, c: CursorV, s: WalkState)
    requires
        s.cur.movement == c.movement,
        s.cur.chan == c.chan,
        !s.crossed ==> s.cur.measure == c.measure,
        s.crossed ==> s.cur.measure > c.measure,
        following_kept(mv0, s.mv, c),
    ensures
        walk_step(s) matches WalkStep::Continue(t) ==> {
            &&& following_kept(mv0, t.mv, c)
            &&& t.cur.movement == c.movement
            &&& t.cur.chan == c.chan
            &&& !t.crossed ==> t.cur.measure == c.measure
            &&& t.crossed ==> t.cur.measure > c.measure
        },
        walk_step(s) matches WalkStep::Finish(t) ==> following_kept(mv0, t.mv, c),
{
    let len = marking_len_spec(s.mv, s.cur);
    if s.cur.marking >= len {
        if s.cur.measure + 1 <= usize::MAX {
            let c1 = CursorV { measure: s.cur.measure + 1, marking: 0, ..s.cur };
            if text_at(s.mv, c1) is None {
                let mv1 = new_measure_spec(s.mv);
                if notes_at(mv1, c1) is Some {
                    let ns = notes_at(mv1, c1)->0;
                    let mv2 = with_notes(mv1, c1, empty_measure_notes(ns, rest_of(whole())));
                    assert forall|j: nat| c.measure < j && #[trigger] full_measure(mv0, c, j) implies full_measure(
                        mv2,
                        c,
                        j,
                    ) && r_eq(
                        total(notes_at(mv2, measure_of(c, j))->0),
                        total(notes_at(mv0, measure_of(c, j))->0),
                    ) by {
                        let d = measure_of(c, j);
                        assert(full_measure(s.mv, c, j));
                        if j == c1.measure {
                            assert(d == c1);
                        }
                        lemma_new_measure_keeps(s.mv, d);
                        lemma_with_notes_at(mv1, c1, empty_measure_notes(ns, rest_of(whole())), d);
                    }
                }
            }
        }
    } else {
        let ns = notes_at(s.mv, s.cur)->0;
        lemma_marking_count(ns, 0);
        if walk_step(s) !is Stuck {
            let t = match walk_step(s) {
                WalkStep::Continue(t) => t,
                WalkStep::Finish(t) => t,
                WalkStep::Stuck => s,
            };
            assert forall|y: Seq<Seq<char>>| #[trigger] notes_at(with_notes(s.mv, s.cur, y), s.cur) == Some(y) by {
                lemma_with_notes_at(s.mv, s.cur, y, s.cur);
            }
            let x = notes_at(t.mv, s.cur)->0;
            assert(t.mv == with_notes(s.mv, s.cur, x));
            assert forall|j: nat| c.measure < j && #[trigger] full_measure(mv0, c, j) implies full_measure(
                t.mv,
                c,
                j,
            ) && r_eq(
                total(notes_at(t.mv, measure_of(c, j))->0),
                total(notes_at(mv0, measure_of(c, j))->0),
            ) by {
                let d = measure_of(c, j);
                assert(full_measure(s.mv, c, j));
                lemma_with_notes_at(s.mv, s.cur, x, d);
                if j == s.cur.measure {
                    assert(notes_at(s.mv, d) == notes_at(s.mv, s.cur));
                    law_tie_keeps_measure_length(s);
                    lemma_total_ok(notes_at(s.mv, d)->0);
                    lemma_eq_trans(
                        total(notes_at(t.mv, d)->0),
                        total(notes_at(s.mv, d)->0),
                        total(notes_at(mv0, d)->0),
                    );
                }
            }
        }
    }
}

/// The walk keeps the measures after the cursor's measure.
proof fn lemma_walk_keeps_following(mv0: Seq<MovementV>, c: CursorV, s: WalkState, fuel: nat)
    requires
        walk(s, fuel) is Some,
        s.cur.movement == c.movement,
        s.cur.chan == c.chan,
        !s.crossed ==> s.cur.measure == c.measure,
        s.crossed ==> s.cur.measure > c.measure,
        following_kept(mv0, s.mv, c),
    ensures
        following_kept(mv0, walk(s, fuel)->0.mv, c),
    decreases fuel,
{
    if s.tied.num != 0 {
        lemma_step_keeps_following(mv0, c, s);
        match walk_step(s) {
            WalkStep::Continue(t) => {
                lemma_walk_keeps_following(mv0, c, t, (fuel - 1) as nat);
            },
            _ => {},
        }
    }
}

/// Law: `set_duration` keeps the lengths of the following measures.  Every
/// measure after the cursor's, in its movement and channel, that has
/// markings and whose markings all read as notes, still has markings that
/// all read as notes afterwards, with the same total duration; also where
/// the note is tied over into it.
pub proof fn law_set_duration_keeps_following_measures(
    mv: Seq<MovementV>,
    c: CursorV,
    dur: Fraction,
    fuel: nat,
)
    requires
        set_duration_spec(mv, c, dur, fuel) is Some,
    ensures
        following_kept(mv, set_duration_spec(mv, c, dur, fuel)->0, c),
{
    let r = set_duration_spec(mv, c, dur, fuel)->0;
    let n0 = parse_note_text(text_at(mv, c)->0)->0;
    let note = NoteV { duration: dur, ..n0 };
    let mut last = mv;
    if !frac_lt(dur, n0.duration) {
        let start = WalkState {
            mv,
            cur: CursorV { marking: c.marking + 1, ..c },
            tied: frac_sub(dur, n0.duration),
            note,
            crossed: false,
        };
        assert(following_kept(mv, mv, c));
        lemma_walk_keeps_following(mv, c, start, fuel);
        last = walk(start, fuel)->0.mv;
    }
    assert(following_kept(mv, last, c));
    assert(r == with_notes(last, c, notes_at(r, c)->0)) by {
        let ns = notes_at(last, c)->0;
        if frac_lt(dur, n0.duration) {
            let ns1 = ns.insert((c.marking + 1) as int, note_text(rest_of(frac_sub(n0.duration, dur))))
                .update(c.marking as int, note_text(note));
            lemma_with_notes_at(last, c, ns1, c);
        } else {
            lemma_with_notes_at(last, c, ns.update(c.marking as int, note_text(note)), c);
        }
    }
    assert forall|j: nat| c.measure < j && #[trigger] full_measure(mv, c, j) implies full_measure(
        r,
        c,
        j,
    ) && r_eq(total(notes_at(r, measure_of(c, j))->0), total(notes_at(mv, measure_of(c, j))->0))
        by {
        lemma_with_notes_at(last, c, notes_at(r, c)->0, measure_of(c, j));
    }
}

/// What `take_fits` takes is covered by the markings it is taken from.
proof fn lemma_take_fits_covers(t: Fraction, rest: Seq<Seq<char>>)
    requires
        t.den > 0,
        all_notes(rest),
        take_fits(t, rest),
    ensures
        r_le(ratio(t), total(rest)),
    decreases rest.len(),
{
    broadcast use lemma_add_ok;

    lemma_total_ok(rest);
    lemma_total_nonneg(rest);
    if t.num == 0 {
        assert(0 * total(rest).d <= total(rest).n * t.den) by (nonlinear_arith)
            requires
                total(rest).n >= 0,
                t.den > 0,
        ;
    } else {
        let x = ratio(duration_of(rest[0]));
        let rest1 = rest.drop_first();
        lemma_parsed_den(rest[0]);
        lemma_all_notes_drop_first(rest);
        lemma_total_ok(rest1);
        lemma_total_nonneg(rest1);
        let a = total(rest1);
        assert(total(rest) == r_add(x, a));
        let d = duration_of(rest[0]);
        if frac_le(d, t) {
            let t2 = frac_sub(t, d);
            lemma_sub_then_add(t, d);
            lemma_sum_is(t2, d, t);
            lemma_take_fits_covers(t2, rest1);
            let y = ratio(t2);
            lemma_le_add(y, a, x);
            lemma_add_comm(a, x);
            lemma_le_cong(r_add(y, x), ratio(t), r_add(a, x), r_add(x, a));
        } else {
            lemma_le_add_nonneg(x, a);
            lemma_le_trans(ratio(t), x, r_add(x, a));
        }
    }
}

/// Law: an edit of a note's duration that stays in the note's measure
/// keeps the measure's length.  When `in_measure_edit_fits` holds,
/// `set_duration` completes, every marking of the measure still reads as a
/// note, the markings before the note are in place, the note has the new
/// duration, and the total duration of the measure is unchanged.
pub proof fn law_in_measure_edit_keeps_length(mv: Seq<MovementV>, c: CursorV, dur: Fraction)
    requires
        dur.den > 0,
        in_measure_edit_fits(mv, c, dur),
    ensures
        ({
            let ns = notes_at(mv, c)->0;
            let n0 = parse_note_text(text_at(mv, c)->0)->0;
            let fuel = notes_at(mv, c)->0.len();
            let r = set_duration_spec(mv, c, dur, fuel)->0;
            &&& set_duration_spec(mv, c, dur, fuel) is Some
            &&& notes_at(r, c) is Some
            &&& all_notes(notes_at(r, c)->0)
            &&& r_eq(total(notes_at(r, c)->0), total(ns))
            &&& notes_at(r, c)->0.take(c.marking as int) == ns.take(c.marking as int)
            &&& parse_note_text(notes_at(r, c)->0[c.marking as int]) == Some(
                NoteV { duration: dur, ..n0 },
            )
        }),
{
    let ns = notes_at(mv, c)->0;
    let k = c.marking as int;
    let n0 = parse_note_text(text_at(mv, c)->0)->0;
    lemma_set_duration_in_measure_completes(mv, c, dur);
    if !frac_lt(dur, n0.duration) {
        let rest = ns.skip(k + 1);
        assert(all_notes(rest)) by {
            assert forall|i: int| 0 <= i < rest.len() implies #[trigger] parse_note_text(
                rest[i],
            ) is Some by {
                assert(rest[i] == ns[k + 1 + i]);
            }
        }
        lemma_parsed_den(ns[k]);
        lemma_sub_then_add(dur, n0.duration);
        lemma_take_fits_covers(frac_sub(dur, n0.duration), rest);
    }
    law_set_duration_keeps_measure_length(mv, c, dur, ns.len());
}

/// Law: moving right goes to the next marking of the measure when there is
/// one, and otherwise (also from a measure with no markings) to the first
/// marking of the next measure, in the same movement and channel.
pub proof fn law_right_moves_on(mv: Seq<MovementV>, c: CursorV)
    ensures
        right_spec(mv, c).movement == c.movement,
        right_spec(mv, c).chan == c.chan,
        (right_spec(mv, c).measure == c.measure + 1 && right_spec(mv, c).marking == 0) <==> !(
        c.marking + 1 < marking_len_spec(mv, c)),
        c.marking + 1 < marking_len_spec(mv, c) ==> right_spec(mv, c).measure == c.measure
            && right_spec(mv, c).marking == c.marking + 1,
{
}

/// Law: moving left goes to the previous marking of the measure; from the
/// first marking of any measure but the first, it goes to the measure just
/// before (never further back), in the same movement and channel, at its
/// last marking, or at 0 when it has none; from the first marking of the
/// first measure it stays.
pub proof fn law_left_steps_back(mv: Seq<MovementV>, c: CursorV)
    ensures
        left_spec(mv, c).movement == c.movement,
        left_spec(mv, c).chan == c.chan,
        c.marking > 0 ==> left_spec(mv, c).measure == c.measure && left_spec(mv, c).marking + 1
            == c.marking,
        c.marking == 0 && c.measure > 0 ==> {
            let l = left_spec(mv, c);
            &&& l.measure + 1 == c.measure
            &&& marking_len_spec(mv, l) > 0 ==> l.marking + 1 == marking_len_spec(mv, l)
            &&& marking_len_spec(mv, l) == 0 ==> l.marking == 0
        },
        c.marking == 0 && c.measure == 0 ==> left_spec(mv, c) == c,
{
    if c.marking == 0 && c.measure > 0 {
        let prev = CursorV { measure: (c.measure - 1) as nat, ..c };
        let l = left_spec(mv, c);
        assert(notes_at(mv, l) == notes_at(mv, prev));
    }
}

/// Law: adding a measure changes only the first movement.  Every other
/// movement is as it was; when the first movement has a bar, its bars
/// become the old ones followed by one bar with no signature reference, no
/// repeat symbols, and as many channels as its last bar, each with no
/// markings and no lyrics; otherwise nothing changes.
pub proof fn law_new_measure_adds_to_first_movement(mv: Seq<MovementV>)
    ensures
        new_measure_spec(mv).len() == mv.len(),
        forall|m: int| 0 < m < mv.len() ==> #[trigger] new_measure_spec(mv)[m] == mv[m],
        mv.len() > 0 && mv[0].bar.len() > 0 ==> {
            let r = new_measure_spec(mv)[0];
            let n = mv[0].bar.len();
            let added = r.bar[n as int];
            &&& r.sig == mv[0].sig
            &&& r.bar.len() == n + 1
            &&& r.bar.take(n as int) == mv[0].bar
            &&& added.sig is None
            &&& added.repeat.len() == 0
            &&& added.chan.len() == mv[0].bar[n - 1].chan.len()
            &&& forall|i: int|
                0 <= i < added.chan.len() ==> (#[trigger] added.chan[i]).notes.len() == 0
                    && added.chan[i].lyric.len() == 0
        },
        !(mv.len() > 0 && mv[0].bar.len() > 0) ==> new_measure_spec(mv) == mv,
{
    if mv.len() > 0 && mv[0].bar.len() > 0 {
        let r = new_measure_spec(mv)[0];
        assert(r.bar.take(mv[0].bar.len() as int) =~= mv[0].bar);
    }
}

/// Law: the text of an octave is the decimal digit of its number, and that
/// digit reads back as the octave; no other character reads as an octave.
pub proof fn law_octave_is_its_digit(ch: char)
    ensures
        octave_char(PitchOctave::Octave0) == '0' && octave_of('0') == Some(PitchOctave::Octave0),
        octave_char(PitchOctave::Octave1) == '1' && octave_of('1') == Some(PitchOctave::Octave1),
        octave_char(PitchOctave::Octave2) == '2' && octave_of('2') == Some(PitchOctave::Octave2),
        octave_char(PitchOctave::Octave3) == '3' && octave_of('3') == Some(PitchOctave::Octave3),
        octave_char(PitchOctave::Octave4) == '4' && octave_of('4') == Some(PitchOctave::Octave4),
        octave_char(PitchOctave::Octave5) == '5' && octave_of('5') == Some(PitchOctave::Octave5),
        octave_char(PitchOctave::Octave6) == '6' && octave_of('6') == Some(PitchOctave::Octave6),
        octave_char(PitchOctave::Octave7) == '7' && octave_of('7') == Some(PitchOctave::Octave7),
        octave_char(PitchOctave::Octave8) == '8' && octave_of('8') == Some(PitchOctave::Octave8),
        octave_char(PitchOctave::Octave9) == '9' && octave_of('9') == Some(PitchOctave::Octave9),
        !('0' <= ch && ch <= '9') ==> octave_of(ch) is None,
{
}

} // verus!
