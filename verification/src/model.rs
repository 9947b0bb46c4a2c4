//! The mathematical model of a score's music and of the editing operations
//! on it.
//!
//! A score holds movements; a movement holds measures (bars); a bar holds
//! one channel per instrument; a channel holds its markings as text.  A
//! cursor names a movement, a measure, a channel and a marking position.
use vstd::prelude::*;

use crate::fraction::{frac_le, frac_lt, frac_sub, sub_fits, Fraction};
use crate::note::{note_text, parse_note_text, NoteV};
use crate::score::{Sig, SigRef};

verus! {

/// A position in a score.
pub struct CursorV {
    pub movement: nat,
    pub measure: nat,
    pub chan: nat,
    pub marking: nat,
}

/// The contents of one channel in one bar.
pub struct ChanV {
    pub notes: Seq<Seq<char>>,
    pub lyric: Seq<Seq<char>>,
}

/// A bar of music.
pub struct BarV {
    pub sig: Option<SigRef>,
    pub chan: Seq<ChanV>,
    pub repeat: Seq<Seq<char>>,
}

/// A movement.
pub struct MovementV {
    pub sig: Seq<Sig>,
    pub bar: Seq<BarV>,
}

/// The texts held by a list of strings.
pub open spec fn strings(v: Seq<String>) -> Seq<Seq<char>> {
    v.map_values(|s: String| s@)
}

/// The channel a cursor points into, if it exists.
pub open spec fn chan_at(mv: Seq<MovementV>, c: CursorV) -> Option<ChanV> {
    if c.movement < mv.len() && c.measure < mv[c.movement as int].bar.len() && c.chan
        < mv[c.movement as int].bar[c.measure as int].chan.len() {
        Some(mv[c.movement as int].bar[c.measure as int].chan[c.chan as int])
    } else {
        None
    }
}

/// The markings of the channel a cursor points into.
pub open spec fn notes_at(mv: Seq<MovementV>, c: CursorV) -> Option<Seq<Seq<char>>> {
    match chan_at(mv, c) {
        Some(ch) => Some(ch.notes),
        None => None,
    }
}

/// The text of the marking under a cursor.
pub open spec fn text_at(mv: Seq<MovementV>, c: CursorV) -> Option<Seq<char>> {
    match notes_at(mv, c) {
        Some(ns) => if c.marking < ns.len() {
            Some(ns[c.marking as int])
        } else {
            None
        },
        None => None,
    }
}

/// The score with the markings of the channel under `c` replaced by `ns`.
pub open spec fn with_notes(mv: Seq<MovementV>, c: CursorV, ns: Seq<Seq<char>>) -> Seq<MovementV> {
    let m = mv[c.movement as int];
    let b = m.bar[c.measure as int];
    let ch = b.chan[c.chan as int];
    mv.update(
        c.movement as int,
        MovementV {
            bar: m.bar.update(
                c.measure as int,
                BarV { chan: b.chan.update(c.chan as int, ChanV { notes: ns, ..ch }), ..b },
            ),
            ..m
        },
    )
}

/// Number of markings that read as notes, counted from position `i` up to
/// the first one that does not.
pub open spec fn marking_count_from(ns: Seq<Seq<char>>, i: int) -> nat
    decreases ns.len() - i,
{
    if 0 <= i < ns.len() && parse_note_text(ns[i]) is Some {
        1 + marking_count_from(ns, i + 1)
    } else {
        0
    }
}

/// Number of markings in the measure (channel) under a cursor: the leading
/// markings that read as notes.
pub open spec fn marking_len_spec(mv: Seq<MovementV>, c: CursorV) -> nat {
    match notes_at(mv, c) {
        Some(ns) => marking_count_from(ns, 0),
        None => 0,
    }
}

/// Where `Cursor::right` moves a cursor.
pub open spec fn right_spec(mv: Seq<MovementV>, c: CursorV) -> CursorV {
    if c.marking + 1 < marking_len_spec(mv, c) {
        CursorV { marking: c.marking + 1, ..c }
    } else {
        CursorV { measure: c.measure + 1, marking: 0, ..c }
    }
}

/// `Cursor::right` can move the cursor without leaving the range of `usize`.
pub open spec fn right_ok(mv: Seq<MovementV>, c: CursorV) -> bool {
    c.marking + 1 < marking_len_spec(mv, c) || c.measure + 1 <= usize::MAX
}

/// Where `Cursor::left` moves a cursor.
pub open spec fn left_spec(mv: Seq<MovementV>, c: CursorV) -> CursorV {
    if c.marking > 0 {
        CursorV { marking: (c.marking - 1) as nat, ..c }
    } else if c.measure != 0 {
        let prev = CursorV { measure: (c.measure - 1) as nat, ..c };
        let len = marking_len_spec(mv, prev);
        CursorV { marking: if len > 0 { (len - 1) as nat } else { 0 }, ..prev }
    } else {
        c
    }
}

/// An empty channel.
pub open spec fn empty_chan() -> ChanV {
    ChanV { notes: seq![], lyric: seq![] }
}

/// The score after `Scof::new_measure`: when the first movement has a last
/// bar, a bar with as many empty channels is added at its end.
pub open spec fn new_measure_spec(mv: Seq<MovementV>) -> Seq<MovementV> {
    if mv.len() > 0 && mv[0].bar.len() > 0 {
        let last = mv[0].bar.last();
        let bar = BarV {
            sig: None,
            chan: Seq::new(last.chan.len(), |i: int| empty_chan()),
            repeat: seq![],
        };
        mv.update(0, MovementV { bar: mv[0].bar.push(bar), ..mv[0] })
    } else {
        mv
    }
}

/// A whole note's duration.
pub open spec fn whole() -> Fraction {
    Fraction { num: 1, den: 1 }
}

/// The rest that fills the measure after a note of duration `d`.
pub open spec fn filling_rest(n: NoteV) -> NoteV {
    NoteV { pitch: None, duration: frac_sub(whole(), n.duration), ..n }
}

/// The markings after `Scof::set_empty_measure` wrote note `n`.
pub open spec fn empty_measure_notes(ns: Seq<Seq<char>>, n: NoteV) -> Seq<Seq<char>> {
    ns.push(note_text(n)).push(note_text(filling_rest(n)))
}

/// A rest of the given duration with no articulation.
pub open spec fn rest_of(d: Fraction) -> NoteV {
    NoteV { pitch: None, duration: d, articulation: seq![] }
}

// ------------------------------------------------------------------------
// Lengthening a note: the state of the walk that `Scof::set_duration` makes
// over the following markings, and one step of it.

/// State of the walk: the music, the cursor, the duration still to be
/// taken from the following markings, the note being lengthened (with its
/// new duration), and whether the walk has gone past the note's measure.
pub struct WalkState {
    pub mv: Seq<MovementV>,
    pub cur: CursorV,
    pub tied: Fraction,
    pub note: NoteV,
    pub crossed: bool,
}

/// Outcome of one step of the walk.
pub enum WalkStep {
    /// The walk goes on from this state.
    Continue(WalkState),
    /// The walk ended early in this state.
    Finish(WalkState),
    /// The step cannot be taken: a lookup would fail or a value would leave
    /// the range of its type.
    Stuck,
}

/// One step of the walk.
///
/// In the note's own measure, the markings after the note are taken into
/// it: one no longer than what is left is removed, a longer one is
/// shortened.  In the following measures the note is tied over: each
/// marking becomes the note, with the marking's duration, and a marking
/// longer than what is left is split into the note for what is left and
/// the marking for the remainder.  So the following measures keep their
/// lengths.
pub open spec fn walk_step(s: WalkState) -> WalkStep {
    let len = marking_len_spec(s.mv, s.cur);
    if s.cur.marking >= len {
        // The measure ended: go to the next one.
        if s.cur.measure + 1 > usize::MAX {
            WalkStep::Stuck
        } else {
            let c1 = CursorV { measure: s.cur.measure + 1, marking: 0, ..s.cur };
            if text_at(s.mv, c1) is Some {
                WalkStep::Continue(WalkState { cur: c1, crossed: true, ..s })
            } else {
                // No marking there: add a measure and fill it with a whole rest.
                let mv1 = new_measure_spec(s.mv);
                match notes_at(mv1, c1) {
                    None => WalkStep::Stuck,
                    Some(ns) => WalkStep::Continue(
                        WalkState {
                            mv: with_notes(mv1, c1, empty_measure_notes(ns, rest_of(whole()))),
                            cur: c1,
                            crossed: true,
                            ..s
                        },
                    ),
                }
            }
        }
    } else {
        let ns = notes_at(s.mv, s.cur)->0;
        let k = s.cur.marking as int;
        let found = parse_note_text(ns[k])->0;
        let d = found.duration;
        if !(s.tied.den > 0 && d.den > 0) {
            WalkStep::Stuck
        } else if !s.crossed {
            // Take the marking under the cursor into the note.
            let ns1 = ns.remove(k);
            if frac_le(d, s.tied) {
                if !sub_fits(s.tied, d) {
                    WalkStep::Stuck
                } else {
                    WalkStep::Continue(
                        WalkState { mv: with_notes(s.mv, s.cur, ns1), tied: frac_sub(s.tied, d), ..s },
                    )
                }
            } else {
                if !sub_fits(d, s.tied) {
                    WalkStep::Stuck
                } else {
                    let shortened = NoteV { duration: frac_sub(d, s.tied), ..found };
                    WalkStep::Finish(
                        WalkState {
                            mv: with_notes(s.mv, s.cur, ns1.insert(k, note_text(shortened))),
                            ..s
                        },
                    )
                }
            }
        } else {
            // Tie the note over the marking under the cursor.
            if frac_le(d, s.tied) {
                if !sub_fits(s.tied, d) {
                    WalkStep::Stuck
                } else {
                    let tie = NoteV { duration: d, ..s.note };
                    WalkStep::Continue(
                        WalkState {
                            mv: with_notes(s.mv, s.cur, ns.update(k, note_text(tie))),
                            cur: CursorV { marking: s.cur.marking + 1, ..s.cur },
                            tied: frac_sub(s.tied, d),
                            ..s
                        },
                    )
                }
            } else {
                if !sub_fits(d, s.tied) {
                    WalkStep::Stuck
                } else {
                    let tie = NoteV { duration: s.tied, ..s.note };
                    let remainder = NoteV { duration: frac_sub(d, s.tied), ..found };
                    WalkStep::Finish(
                        WalkState {
                            mv: with_notes(
                                s.mv,
                                s.cur,
                                ns.update(k, note_text(tie)).insert(k + 1, note_text(remainder)),
                            ),
                            ..s
                        },
                    )
                }
            }
        }
    }
}

/// The walk, taking at most `fuel` steps; `None` when it gets stuck or
/// needs more steps.
pub open spec fn walk(s: WalkState, fuel: nat) -> Option<WalkState>
    decreases fuel,
{
    if s.tied.num == 0 {
        Some(s)
    } else if fuel == 0 {
        None
    } else {
        match walk_step(s) {
            WalkStep::Continue(t) => walk(t, (fuel - 1) as nat),
            WalkStep::Finish(t) => Some(t),
            WalkStep::Stuck => None,
        }
    }
}

/// The music after `Scof::set_duration(c, dur)`, when it completes within
/// `fuel` steps of the walk.
pub open spec fn set_duration_spec(mv: Seq<MovementV>, c: CursorV, dur: Fraction, fuel: nat) -> Option<
    Seq<MovementV>,
> {
    match text_at(mv, c) {
        None => None,
        Some(t) => match parse_note_text(t) {
            None => None,
            Some(n0) => {
                let note = NoteV { duration: dur, ..n0 };
                let ns = notes_at(mv, c)->0;
                if frac_lt(dur, n0.duration) {
                    // Shorter: a rest of the difference follows the note.
                    if !(dur.den > 0 && sub_fits(n0.duration, dur)) {
                        None
                    } else {
                        let rest = rest_of(frac_sub(n0.duration, dur));
                        Some(
                            with_notes(
                                mv,
                                c,
                                ns.insert((c.marking + 1) as int, note_text(rest)).update(
                                    c.marking as int,
                                    note_text(note),
                                ),
                            ),
                        )
                    }
                } else if !(dur.den > 0 && sub_fits(dur, n0.duration)) {
                    None
                } else {
                    // Longer (or equal): take the difference from what follows.
                    let start = WalkState {
                        mv,
                        cur: CursorV { marking: c.marking + 1, ..c },
                        tied: frac_sub(dur, n0.duration),
                        note,
                        crossed: false,
                    };
                    match walk(start, fuel) {
                        None => None,
                        Some(end) => match text_at(end.mv, c) {
                            None => None,
                            Some(_) => Some(
                                with_notes(
                                    end.mv,
                                    c,
                                    notes_at(end.mv, c)->0.update(c.marking as int, note_text(note)),
                                ),
                            ),
                        },
                    }
                }
            },
        },
    }
}

// ------------------------------------------------------------------------
// Lemmas

/// Replacing the markings twice keeps only the second replacement.
pub proof fn lemma_with_notes_twice(mv: Seq<MovementV>, c: CursorV, a: Seq<Seq<char>>, b: Seq<Seq<char>>)
    requires
        chan_at(mv, c) is Some,
    ensures
        with_notes(with_notes(mv, c, a), c, b) == with_notes(mv, c, b),
        chan_at(with_notes(mv, c, a), c) == Some(ChanV { notes: a, ..chan_at(mv, c)->0 }),
{
    let m = c.movement as int;
    let k = c.measure as int;
    let h = c.chan as int;
    let m1 = with_notes(mv, c, a);
    let left = with_notes(m1, c, b);
    let right = with_notes(mv, c, b);
    assert(m1[m].bar[k].chan[h] == ChanV { notes: a, ..mv[m].bar[k].chan[h] });
    assert(left[m].bar[k].chan =~= right[m].bar[k].chan);
    assert(left[m].bar[k] == right[m].bar[k]);
    assert(left[m].bar =~= right[m].bar);
    assert(left =~= right);
}

/// Writing back the markings a channel already holds changes nothing.
pub proof fn lemma_with_notes_same(mv: Seq<MovementV>, c: CursorV)
    requires
        chan_at(mv, c) is Some,
    ensures
        with_notes(mv, c, notes_at(mv, c)->0) == mv,
{
    let m = c.movement as int;
    let k = c.measure as int;
    let h = c.chan as int;
    let r = with_notes(mv, c, notes_at(mv, c)->0);
    assert(r[m].bar[k].chan =~= mv[m].bar[k].chan);
    assert(r[m].bar[k] == mv[m].bar[k]);
    assert(r[m].bar =~= mv[m].bar);
    assert(r =~= mv);
}

/// Replacing the markings of a channel leaves every cursor's channel in
/// place, and changes only the markings of the channel under `c`.
pub proof fn lemma_with_notes_at(mv: Seq<MovementV>, c: CursorV, ns: Seq<Seq<char>>, d: CursorV)
    requires
        chan_at(mv, c) is Some,
    ensures
        (chan_at(with_notes(mv, c, ns), d) is Some) == (chan_at(mv, d) is Some),
        (d.movement == c.movement && d.measure == c.measure && d.chan == c.chan) ==> notes_at(
            with_notes(mv, c, ns),
            d,
        ) == Some(ns),
        !(d.movement == c.movement && d.measure == c.measure && d.chan == c.chan) ==> notes_at(
            with_notes(mv, c, ns),
            d,
        ) == notes_at(mv, d),
{
}

/// All markings below the count read as notes; the one at the count does not.
pub proof fn lemma_marking_count(ns: Seq<Seq<char>>, i: int)
    requires
        0 <= i <= ns.len(),
    ensures
        i + marking_count_from(ns, i) <= ns.len(),
        forall|t: int| i <= t < i + marking_count_from(ns, i) ==> #[trigger] parse_note_text(ns[t]) is Some,
        i + marking_count_from(ns, i) < ns.len() ==> parse_note_text(
            ns[i + marking_count_from(ns, i)],
        ) is None,
    decreases ns.len() - i,
{
    if i < ns.len() && parse_note_text(ns[i]) is Some {
        lemma_marking_count(ns, i + 1);
    }
}

/// The count is `k` when the first `k` markings read as notes and the next
/// one does not.
pub proof fn lemma_marking_count_exact(ns: Seq<Seq<char>>, i: int, k: int)
    requires
        0 <= i,
        0 <= k,
        i + k <= ns.len(),
        forall|t: int| i <= t < i + k ==> #[trigger] parse_note_text(ns[t]) is Some,
        i + k == ns.len() || parse_note_text(ns[i + k]) is None,
    ensures
        marking_count_from(ns, i) == k,
    decreases k,
{
    if k > 0 {
        assert(parse_note_text(ns[i]) is Some);
        lemma_marking_count_exact(ns, i + 1, k - 1);
    }
}

/// The walk gives the same result whatever fuel lets it finish.
pub proof fn lemma_walk_deterministic(s: WalkState, f1: nat, f2: nat)
    requires
        walk(s, f1) is Some,
        walk(s, f2) is Some,
    ensures
        walk(s, f1) == walk(s, f2),
    decreases f1,
{
    if s.tied.num != 0 {
        match walk_step(s) {
            WalkStep::Continue(t) => {
                lemma_walk_deterministic(t, (f1 - 1) as nat, (f2 - 1) as nat);
            },
            _ => {},
        }
    }
}

/// `set_duration_spec` gives the same result whatever fuel lets it finish.
pub proof fn lemma_set_duration_deterministic(
    mv: Seq<MovementV>,
    c: CursorV,
    dur: Fraction,
    f1: nat,
    f2: nat,
)
    requires
        set_duration_spec(mv, c, dur, f1) is Some,
        set_duration_spec(mv, c, dur, f2) is Some,
    ensures
        set_duration_spec(mv, c, dur, f1) == set_duration_spec(mv, c, dur, f2),
{
    let n0 = parse_note_text(text_at(mv, c)->0)->0;
    if !frac_lt(dur, n0.duration) {
        let note = NoteV { duration: dur, ..n0 };
        let start = WalkState {
            mv,
            cur: CursorV { marking: c.marking + 1, ..c },
            tied: frac_sub(dur, n0.duration),
            note,
            crossed: false,
        };
        lemma_walk_deterministic(start, f1, f2);
    }
}

} // verus!
