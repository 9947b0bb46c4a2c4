//! Notes and their text form.
//!
//! A note is written as its duration, its pitch and its articulations, in
//! that order: `1/4C4`, `3/8Eb5.`, `1/1R`.
//! - duration: `<num>/<den>` in decimal;
//! - pitch: `R` for a rest, or a name `A`..`G`, an optional accidental
//!   (`bb`, `b`, `n`, `#`, `##`) and an octave digit `0`..`9`;
//! - articulations: any number of `.` (staccato), `>` (accent),
//!   `_` (tenuto) and `^` (marcato).
use vstd::prelude::*;
use vstd::string::*;

use crate::decimal::{
    chars_of, digit_char, digit_of, digit_run, digits_val, lemma_digit_run_bounds,
    lemma_digit_run_exact, lemma_digits_val_same, lemma_nat_text, nat_text, push_digit, push_nat,
    read_number,
};
use crate::fraction::Fraction;

verus! {

/// Name of a pitch.
#[derive(Clone, Copy, Debug, PartialEq, Eq, Structural)]
pub enum PitchName {
    C,
    D,
    E,
    F,
    G,
    A,
    B,
}

/// Accidental of a pitch.
#[derive(Clone, Copy, Debug, PartialEq, Eq, Structural)]
pub enum PitchAccidental {
    DoubleFlat,
    Flat,
    Natural,
    Sharp,
    DoubleSharp,
}

/// Pitch class: a name with an optional accidental.
#[derive(Clone, Copy, Debug, PartialEq, Eq)]
pub struct PitchClass {
    pub name: PitchName,
    pub accidental: Option<PitchAccidental>,
}

/// Octave of a pitch (scientific pitch notation).
#[derive(Clone, Copy, Debug, PartialEq, Eq, Structural)]
pub enum PitchOctave {
    Octave0,
    Octave1,
    Octave2,
    Octave3,
    Octave4,
    Octave5,
    Octave6,
    Octave7,
    Octave8,
    Octave9,
}

/// A pitch: pitch class and octave.
#[derive(Clone, Copy, Debug, PartialEq, Eq)]
pub struct Pitch {
    pub class: PitchClass,
    pub octave: PitchOctave,
}

/// Articulation of a note.
#[derive(Clone, Copy, Debug, PartialEq, Eq, Structural)]
pub enum Articulation {
    Staccato,
    Accent,
    Tenuto,
    Marcato,
}

/// A note (or a rest, when it has no pitch).
#[derive(Clone, Debug, PartialEq)]
pub struct Note {
    /// The pitch, `None` for a rest.
    pub pitch: Option<Pitch>,
    /// Duration as a fraction of a whole note.
    pub duration: Fraction,
    /// Articulations, in order.
    pub articulation: Vec<Articulation>,
}

/// Mathematical value of a note.
pub struct NoteV {
    pub pitch: Option<Pitch>,
    pub duration: Fraction,
    pub articulation: Seq<Articulation>,
}

impl View for Note {
    type V = NoteV;

    open spec fn view(&self) -> NoteV {
        NoteV { pitch: self.pitch, duration: self.duration, articulation: self.articulation@ }
    }
}

// ---------------------------------------------------------------- text form

pub open spec fn name_char(n: PitchName) -> char {
    match n {
        PitchName::C => 'C',
        PitchName::D => 'D',
        PitchName::E => 'E',
        PitchName::F => 'F',
        PitchName::G => 'G',
        PitchName::A => 'A',
        PitchName::B => 'B',
    }
}

pub open spec fn name_of(c: char) -> Option<PitchName> {
    match c {
        'C' => Some(PitchName::C),
        'D' => Some(PitchName::D),
        'E' => Some(PitchName::E),
        'F' => Some(PitchName::F),
        'G' => Some(PitchName::G),
        'A' => Some(PitchName::A),
        'B' => Some(PitchName::B),
        _ => None,
    }
}

pub open spec fn accidental_text(a: Option<PitchAccidental>) -> Seq<char> {
    match a {
        None => seq![],
        Some(PitchAccidental::DoubleFlat) => seq!['b', 'b'],
        Some(PitchAccidental::Flat) => seq!['b'],
        Some(PitchAccidental::Natural) => seq!['n'],
        Some(PitchAccidental::Sharp) => seq!['#'],
        Some(PitchAccidental::DoubleSharp) => seq!['#', '#'],
    }
}

pub open spec fn octave_char(o: PitchOctave) -> char {
    match o {
        PitchOctave::Octave0 => '0',
        PitchOctave::Octave1 => '1',
        PitchOctave::Octave2 => '2',
        PitchOctave::Octave3 => '3',
        PitchOctave::Octave4 => '4',
        PitchOctave::Octave5 => '5',
        PitchOctave::Octave6 => '6',
        PitchOctave::Octave7 => '7',
        PitchOctave::Octave8 => '8',
        PitchOctave::Octave9 => '9',
    }
}

pub open spec fn octave_of(c: char) -> Option<PitchOctave> {
    match c {
        '0' => Some(PitchOctave::Octave0),
        '1' => Some(PitchOctave::Octave1),
        '2' => Some(PitchOctave::Octave2),
        '3' => Some(PitchOctave::Octave3),
        '4' => Some(PitchOctave::Octave4),
        '5' => Some(PitchOctave::Octave5),
        '6' => Some(PitchOctave::Octave6),
        '7' => Some(PitchOctave::Octave7),
        '8' => Some(PitchOctave::Octave8),
        '9' => Some(PitchOctave::Octave9),
        _ => None,
    }
}

pub open spec fn art_char(a: Articulation) -> char {
    match a {
        Articulation::Staccato => '.',
        Articulation::Accent => '>',
        Articulation::Tenuto => '_',
        Articulation::Marcato => '^',
    }
}

pub open spec fn art_of(c: char) -> Option<Articulation> {
    match c {
        '.' => Some(Articulation::Staccato),
        '>' => Some(Articulation::Accent),
        '_' => Some(Articulation::Tenuto),
        '^' => Some(Articulation::Marcato),
        _ => None,
    }
}

/// Text of a pitch: `R` for a rest.
pub open spec fn pitch_text(p: Option<Pitch>) -> Seq<char> {
    match p {
        None => seq!['R'],
        Some(p) => seq![name_char(p.class.name)] + accidental_text(p.class.accidental) + seq![
            octave_char(p.octave),
        ],
    }
}

/// Text of a list of articulations.
pub open spec fn arts_text(a: Seq<Articulation>) -> Seq<char> {
    a.map_values(|x: Articulation| art_char(x))
}

/// Text of a duration: `num/den`.
pub open spec fn fraction_text(f: Fraction) -> Seq<char> {
    nat_text(f.num as nat) + seq!['/'] + nat_text(f.den as nat)
}

/// Text of a note.
pub open spec fn note_text(n: NoteV) -> Seq<char> {
    fraction_text(n.duration) + pitch_text(n.pitch) + arts_text(n.articulation)
}

// ---------------------------------------------------------------- reading

/// The accidental that starts at `i`, and where it ends.
pub open spec fn accidental_at(s: Seq<char>, i: int) -> (Option<PitchAccidental>, int) {
    if 0 <= i < s.len() && s[i] == 'b' {
        if i + 1 < s.len() && s[i + 1] == 'b' {
            (Some(PitchAccidental::DoubleFlat), i + 2)
        } else {
            (Some(PitchAccidental::Flat), i + 1)
        }
    } else if 0 <= i < s.len() && s[i] == '#' {
        if i + 1 < s.len() && s[i + 1] == '#' {
            (Some(PitchAccidental::DoubleSharp), i + 2)
        } else {
            (Some(PitchAccidental::Sharp), i + 1)
        }
    } else if 0 <= i < s.len() && s[i] == 'n' {
        (Some(PitchAccidental::Natural), i + 1)
    } else {
        (None, i)
    }
}

/// The pitch (or rest) that starts at `i`, and where it ends.
pub open spec fn pitch_at(s: Seq<char>, i: int) -> Option<(Option<Pitch>, int)> {
    if !(0 <= i < s.len()) {
        None
    } else if s[i] == 'R' {
        Some((None, i + 1))
    } else {
        match name_of(s[i]) {
            None => None,
            Some(name) => {
                let j = accidental_at(s, i + 1).1;
                if 0 <= j < s.len() && octave_of(s[j]) is Some {
                    Some(
                        (
                            Some(
                                Pitch {
                                    class: PitchClass { name, accidental: accidental_at(s, i + 1).0 },
                                    octave: octave_of(s[j])->0,
                                },
                            ),
                            j + 1,
                        ),
                    )
                } else {
                    None
                }
            },
        }
    }
}

/// Every character from `i` on is an articulation.
pub open spec fn arts_ok(s: Seq<char>, i: int) -> bool {
    forall|t: int| i <= t < s.len() ==> #[trigger] art_of(s[t]) is Some
}

/// The articulations written from `i` on.
pub open spec fn arts_from(s: Seq<char>, i: int) -> Seq<Articulation> {
    Seq::new((s.len() - i) as nat, |t: int| art_of(s[i + t])->0)
}

/// The note that a text denotes, if it is a well-formed note text.
pub open spec fn parse_note_text(s: Seq<char>) -> Option<NoteV> {
    let slash = digit_run(s, 0) as int;
    let num = digits_val(s, 0, slash);
    let den_start = slash + 1;
    let den_end = den_start + digit_run(s, den_start);
    let den = digits_val(s, den_start, den_end);
    if slash == 0 || slash >= s.len() || s[slash] != '/' || num > u32::MAX {
        None
    } else if den_end == den_start || den == 0 || den > u32::MAX {
        None
    } else {
        match pitch_at(s, den_end) {
            None => None,
            Some((pitch, after)) => if arts_ok(s, after) {
                Some(
                    NoteV {
                        pitch,
                        duration: Fraction { num: num as u32, den: den as u32 },
                        articulation: arts_from(s, after),
                    },
                )
            } else {
                None
            },
        }
    }
}

// ---------------------------------------------------------------- laws

proof fn lemma_arts_text(a: Seq<Articulation>, s: Seq<char>, i: int)
    requires
        0 <= i,
        i + a.len() == s.len(),
        s.subrange(i, s.len() as int) == arts_text(a),
    ensures
        arts_ok(s, i),
        arts_from(s, i) == a,
{
    assert forall|t: int| i <= t < s.len() implies #[trigger] art_of(s[t]) is Some by {
        assert(s[t] == s.subrange(i, s.len() as int)[t - i]);
        assert(s[t] == art_char(a[t - i]));
    }
    assert forall|t: int| 0 <= t < a.len() implies arts_from(s, i)[t] == a[t] by {
        assert(s[i + t] == s.subrange(i, s.len() as int)[t]);
        assert(s[i + t] == art_char(a[t]));
    }
    assert(arts_from(s, i) =~= a);
}

proof fn lemma_pitch_text(p: Option<Pitch>, s: Seq<char>, i: int)
    requires
        0 <= i,
        i + pitch_text(p).len() <= s.len(),
        s.subrange(i, i + pitch_text(p).len()) == pitch_text(p),
    ensures
        pitch_at(s, i) == Some((p, i + pitch_text(p).len())),
{
    let t = pitch_text(p);
    assert forall|k: int| 0 <= k < t.len() implies s[i + k] == t[k] by {
        assert(s[i + k] == s.subrange(i, i + t.len())[k]);
    }
    match p {
        None => {
            assert(s[i] == t[0]);
        },
        Some(q) => {
            assert(s[i] == t[0]);
            let a = accidental_text(q.class.accidental);
            let al = a.len() as int;
            assert(s[i + 1 + al] == t[1 + al]);
            match q.class.accidental {
                None => {},
                Some(PitchAccidental::DoubleFlat) => {
                    assert(s[i + 1] == t[1]);
                    assert(s[i + 2] == t[2]);
                },
                Some(PitchAccidental::DoubleSharp) => {
                    assert(s[i + 1] == t[1]);
                    assert(s[i + 2] == t[2]);
                },
                _ => {
                    assert(s[i + 1] == t[1]);
                },
            }
            assert(t[1 + al] == octave_char(q.octave));
            match q.octave {
                PitchOctave::Octave0 => {},
                PitchOctave::Octave1 => {},
                PitchOctave::Octave2 => {},
                PitchOctave::Octave3 => {},
                PitchOctave::Octave4 => {},
                PitchOctave::Octave5 => {},
                PitchOctave::Octave6 => {},
                PitchOctave::Octave7 => {},
                PitchOctave::Octave8 => {},
                PitchOctave::Octave9 => {},
            }
            match q.class.name {
                PitchName::C => {},
                PitchName::D => {},
                PitchName::E => {},
                PitchName::F => {},
                PitchName::G => {},
                PitchName::A => {},
                PitchName::B => {},
            }
        },
    }
}

/// Law: reading the text of a note gives back the note.  Every note whose
/// duration has a positive denominator survives being written and read.
pub proof fn lemma_note_text_round_trip(n: NoteV)
    requires
        n.duration.den > 0,
    ensures
        parse_note_text(note_text(n)) == Some(n),
{
    let a = nat_text(n.duration.num as nat);
    let b = nat_text(n.duration.den as nat);
    let p = pitch_text(n.pitch);
    let r = arts_text(n.articulation);
    let s = note_text(n);
    assert(s =~= a + seq!['/'] + b + p + r);
    lemma_nat_text(n.duration.num as nat);
    lemma_nat_text(n.duration.den as nat);
    let al = a.len() as int;
    let bl = b.len() as int;
    let pl = p.len() as int;
    // the numerator
    assert forall|t: int| 0 <= t < al implies #[trigger] digit_of(s[t]) is Some by {
        assert(s[t] == a[t]);
        assert(digit_of(a[t]) is Some);
    }
    assert(s[al] == '/');
    lemma_digit_run_exact(s, 0, al);
    assert(s.subrange(0, al) =~= a.subrange(0, al));
    lemma_digits_val_same(s, 0, a, 0, al);
    // the denominator
    assert forall|t: int| al + 1 <= t < al + 1 + bl implies #[trigger] digit_of(s[t]) is Some by {
        assert(s[t] == b[t - al - 1]);
        assert(digit_of(b[t - al - 1]) is Some);
    }
    assert(s[al + 1 + bl] == p[0]);
    assert(digit_of(p[0]) is None) by {
        match n.pitch {
            None => {},
            Some(q) => match q.class.name {
                PitchName::C => {},
                PitchName::D => {},
                PitchName::E => {},
                PitchName::F => {},
                PitchName::G => {},
                PitchName::A => {},
                PitchName::B => {},
            },
        }
    }
    lemma_digit_run_exact(s, al + 1, bl);
    assert(s.subrange(al + 1, al + 1 + bl) =~= b.subrange(0, bl));
    lemma_digits_val_same(s, al + 1, b, 0, bl);
    // pitch and articulations
    assert(s.subrange(al + 1 + bl, al + 1 + bl + pl) =~= p);
    lemma_pitch_text(n.pitch, s, al + 1 + bl);
    assert(r.len() == n.articulation.len());
    assert(s.subrange(al + 1 + bl + pl, s.len() as int) =~= r);
    lemma_arts_text(n.articulation, s, al + 1 + bl + pl);
}

// ---------------------------------------------------------------- exec

fn push_str_lit(s: &mut String, lit: &str)
    ensures
        final(s)@ == old(s)@ + lit@,
{
    s.append(lit);
}

fn push_name(s: &mut String, n: PitchName)
    ensures
        final(s)@ == old(s)@.push(name_char(n)),
{
    match n {
        PitchName::C => {
            proof { reveal_strlit("C"); }
            push_str_lit(s, "C");
        },
        PitchName::D => {
            proof { reveal_strlit("D"); }
            push_str_lit(s, "D");
        },
        PitchName::E => {
            proof { reveal_strlit("E"); }
            push_str_lit(s, "E");
        },
        PitchName::F => {
            proof { reveal_strlit("F"); }
            push_str_lit(s, "F");
        },
        PitchName::G => {
            proof { reveal_strlit("G"); }
            push_str_lit(s, "G");
        },
        PitchName::A => {
            proof { reveal_strlit("A"); }
            push_str_lit(s, "A");
        },
        PitchName::B => {
            proof { reveal_strlit("B"); }
            push_str_lit(s, "B");
        },
    }
}

fn push_accidental(s: &mut String, a: Option<PitchAccidental>)
    ensures
        final(s)@ == old(s)@ + accidental_text(a),
{
    match a {
        None => {
            assert(old(s)@ + accidental_text(a) =~= old(s)@);
        },
        Some(PitchAccidental::DoubleFlat) => {
            proof { reveal_strlit("bb"); }
            push_str_lit(s, "bb");
        },
        Some(PitchAccidental::Flat) => {
            proof { reveal_strlit("b"); }
            push_str_lit(s, "b");
        },
        Some(PitchAccidental::Natural) => {
            proof { reveal_strlit("n"); }
            push_str_lit(s, "n");
        },
        Some(PitchAccidental::Sharp) => {
            proof { reveal_strlit("#"); }
            push_str_lit(s, "#");
        },
        Some(PitchAccidental::DoubleSharp) => {
            proof { reveal_strlit("##"); }
            push_str_lit(s, "##");
        },
    }
}

fn octave_digit(o: PitchOctave) -> (d: u32)
    ensures
        d < 10,
        digit_char(d as nat) == octave_char(o),
{
    match o {
        PitchOctave::Octave0 => 0,
        PitchOctave::Octave1 => 1,
        PitchOctave::Octave2 => 2,
        PitchOctave::Octave3 => 3,
        PitchOctave::Octave4 => 4,
        PitchOctave::Octave5 => 5,
        PitchOctave::Octave6 => 6,
        PitchOctave::Octave7 => 7,
        PitchOctave::Octave8 => 8,
        PitchOctave::Octave9 => 9,
    }
}

fn push_pitch(s: &mut String, p: Option<Pitch>)
    ensures
        final(s)@ == old(s)@ + pitch_text(p),
{
    match p {
        None => {
            proof { reveal_strlit("R"); }
            push_str_lit(s, "R");
        },
        Some(q) => {
            let ghost s0 = s@;
            push_name(s, q.class.name);
            push_accidental(s, q.class.accidental);
            push_digit(s, octave_digit(q.octave));
            assert(s@ =~= s0 + pitch_text(p));
        },
    }
}

fn push_articulation(s: &mut String, a: Articulation)
    ensures
        final(s)@ == old(s)@.push(art_char(a)),
{
    match a {
        Articulation::Staccato => {
            proof { reveal_strlit("."); }
            push_str_lit(s, ".");
        },
        Articulation::Accent => {
            proof { reveal_strlit(">"); }
            push_str_lit(s, ">");
        },
        Articulation::Tenuto => {
            proof { reveal_strlit("_"); }
            push_str_lit(s, "_");
        },
        Articulation::Marcato => {
            proof { reveal_strlit("^"); }
            push_str_lit(s, "^");
        },
    }
}

fn name_value(c: char) -> (r: Option<PitchName>)
    ensures
        r == name_of(c),
{
    match c {
        'C' => Some(PitchName::C),
        'D' => Some(PitchName::D),
        'E' => Some(PitchName::E),
        'F' => Some(PitchName::F),
        'G' => Some(PitchName::G),
        'A' => Some(PitchName::A),
        'B' => Some(PitchName::B),
        _ => None,
    }
}

fn octave_value(c: char) -> (r: Option<PitchOctave>)
    ensures
        r == octave_of(c),
{
    match c {
        '0' => Some(PitchOctave::Octave0),
        '1' => Some(PitchOctave::Octave1),
        '2' => Some(PitchOctave::Octave2),
        '3' => Some(PitchOctave::Octave3),
        '4' => Some(PitchOctave::Octave4),
        '5' => Some(PitchOctave::Octave5),
        '6' => Some(PitchOctave::Octave6),
        '7' => Some(PitchOctave::Octave7),
        '8' => Some(PitchOctave::Octave8),
        '9' => Some(PitchOctave::Octave9),
        _ => None,
    }
}

fn articulation_value(c: char) -> (r: Option<Articulation>)
    ensures
        r == art_of(c),
{
    match c {
        '.' => Some(Articulation::Staccato),
        '>' => Some(Articulation::Accent),
        '_' => Some(Articulation::Tenuto),
        '^' => Some(Articulation::Marcato),
        _ => None,
    }
}

fn read_accidental(v: &Vec<char>, i: usize) -> (r: (Option<PitchAccidental>, usize))
    requires
        i <= v@.len(),
    ensures
        r.0 == accidental_at(v@, i as int).0,
        r.1 == accidental_at(v@, i as int).1,
{
    let n = v.len();
    if i < n && v[i] == 'b' {
        if i + 1 < n && v[i + 1] == 'b' {
            (Some(PitchAccidental::DoubleFlat), i + 2)
        } else {
            (Some(PitchAccidental::Flat), i + 1)
        }
    } else if i < n && v[i] == '#' {
        if i + 1 < n && v[i + 1] == '#' {
            (Some(PitchAccidental::DoubleSharp), i + 2)
        } else {
            (Some(PitchAccidental::Sharp), i + 1)
        }
    } else if i < n && v[i] == 'n' {
        (Some(PitchAccidental::Natural), i + 1)
    } else {
        (None, i)
    }
}

fn read_pitch(v: &Vec<char>, i: usize) -> (r: Option<(Option<Pitch>, usize)>)
    requires
        i <= v@.len(),
    ensures
        r matches Some((p, e)) ==> pitch_at(v@, i as int) == Some((p, e as int)),
        r is None ==> pitch_at(v@, i as int) is None,
{
    let n = v.len();
    if i >= n {
        return None;
    }
    if v[i] == 'R' {
        return Some((None, i + 1));
    }
    match name_value(v[i]) {
        None => None,
        Some(name) => {
            let (acc, j) = read_accidental(v, i + 1);
            if j < n {
                match octave_value(v[j]) {
                    Some(octave) => Some(
                        (Some(Pitch { class: PitchClass { name, accidental: acc }, octave }), j + 1),
                    ),
                    None => None,
                }
            } else {
                None
            }
        },
    }
}

fn read_articulations(v: &Vec<char>, i: usize) -> (r: Option<Vec<Articulation>>)
    requires
        i <= v@.len(),
    ensures
        r matches Some(a) ==> arts_ok(v@, i as int) && a@ == arts_from(v@, i as int),
        r is None ==> !arts_ok(v@, i as int),
{
    let n = v.len();
    let mut out: Vec<Articulation> = Vec::new();
    let mut j = i;
    while j < n
        invariant
            n == v@.len(),
            i <= j <= n,
            out@.len() == j - i,
            forall|t: int| i <= t < j ==> #[trigger] art_of(v@[t]) is Some,
            forall|t: int| 0 <= t < j - i ==> out@[t] == art_of(v@[i + t])->0,
        decreases n - j,
    {
        match articulation_value(v[j]) {
            Some(a) => {
                out.push(a);
                j = j + 1;
            },
            None => {
                return None;
            },
        }
    }
    assert(out@ =~= arts_from(v@, i as int));
    Some(out)
}

impl Note {
    /// Change the pitch (a rest becomes a note).
    pub fn set_pitch(&mut self, pitch: Pitch)
        ensures
            final(self)@ == (NoteV { pitch: Some(pitch), ..old(self)@ }),
    {
        self.pitch = Some(pitch);
    }

    /// Change the duration.
    pub fn set_duration(&mut self, duration: Fraction)
        ensures
            final(self)@ == (NoteV { duration, ..old(self)@ }),
    {
        self.duration = duration;
    }

    /// The text form of the note.
    pub fn to_string(&self) -> (r: String)
        ensures
            r@ == note_text(self@),
    {
        let mut s = String::new();
        push_nat(&mut s, self.duration.num);
        proof { reveal_strlit("/"); }
        push_str_lit(&mut s, "/");
        push_nat(&mut s, self.duration.den);
        push_pitch(&mut s, self.pitch);
        let ghost before = s@;
        let mut i: usize = 0;
        while i < self.articulation.len()
            invariant
                i <= self.articulation@.len(),
                s@ == before + arts_text(self.articulation@.take(i as int)),
            decreases self.articulation@.len() - i,
        {
            push_articulation(&mut s, self.articulation[i]);
            i = i + 1;
            assert(arts_text(self.articulation@.take(i as int)) =~= arts_text(
                self.articulation@.take(i - 1),
            ).push(art_char(self.articulation@[i - 1])));
        }
        assert(self.articulation@.take(i as int) =~= self.articulation@);
        assert(s@ =~= note_text(self@));
        s
    }

    /// Read a note from its text form.
    pub fn parse(text: &str) -> (r: Option<Note>)
        ensures
            r is Some <==> parse_note_text(text@) is Some,
            r matches Some(n) ==> n@ == parse_note_text(text@)->0,
    {
        let v = chars_of(text);
        let n = v.len();
        let (slash, num) = match read_number(&v, 0) {
            Some(x) => x,
            None => {
                return None;
            },
        };
        if slash == 0 || slash >= n || v[slash] != '/' {
            return None;
        }
        let (den_end, den) = match read_number(&v, slash + 1) {
            Some(x) => x,
            None => {
                return None;
            },
        };
        if den_end == slash + 1 || den == 0 {
            return None;
        }
        proof {
            lemma_digit_run_bounds(v@, slash + 1);
        }
        let (pitch, after) = match read_pitch(&v, den_end) {
            Some(x) => x,
            None => {
                return None;
            },
        };
        match read_articulations(&v, after) {
            Some(articulation) => {
                let note = Note { pitch, duration: Fraction { num, den }, articulation };
                Some(note)
            },
            None => None,
        }
    }
}

impl core::str::FromStr for Note {
    type Err = ();

    fn from_str(s: &str) -> (r: Result<Self, Self::Err>)
        ensures
            r is Ok <==> parse_note_text(s@) is Some,
            r matches Ok(n) ==> n@ == parse_note_text(s@)->0,
    {
        match Note::parse(s) {
            Some(n) => Ok(n),
            None => Err(()),
        }
    }
}

} // verus!
