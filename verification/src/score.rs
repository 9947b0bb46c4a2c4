//! The score, its parts, and cursor-driven editing of its markings.
use vstd::prelude::*;
use vstd::string::*;

use crate::fraction::{frac_le, frac_sub, lemma_sub_props, sub_fits, Fraction, IsZero};
use crate::model::{
    chan_at, empty_chan, empty_measure_notes, filling_rest, lemma_marking_count,
    lemma_marking_count_exact, lemma_set_duration_deterministic, lemma_with_notes_at,
    lemma_with_notes_twice, left_spec, marking_len_spec, new_measure_spec, notes_at, rest_of,
    right_ok, right_spec, set_duration_spec, strings, text_at, walk, walk_step, whole,
    with_notes, BarV, ChanV, CursorV, MovementV, WalkState, WalkStep,
};
use crate::laws::{
    in_measure_edit_fits, law_in_measure_edit_keeps_length, law_set_duration_sets_duration,
    take_fits,
};
use crate::ratio::{all_notes, lemma_parsed_den, r_eq, total};
use crate::note::{lemma_note_text_round_trip, note_text, parse_note_text, Note, NoteV, Pitch};

verus! {

// ------------------------------------------------------------------ cursor

/// Cursor pointing to a marking.
#[derive(Clone, Copy, Default, Debug, PartialEq, Eq, Structural)]
pub struct Cursor {
    /// Movement number at cursor
    movement: usize,
    /// Measure number at cursor
    measure: usize,
    /// Channel number at cursor
    chan: usize,
    /// Marking number within measure
    marking: usize,
}

impl View for Cursor {
    type V = CursorV;

    closed spec fn view(&self) -> CursorV {
        CursorV {
            movement: self.movement as nat,
            measure: self.measure as nat,
            chan: self.chan as nat,
            marking: self.marking as nat,
        }
    }
}

impl Cursor {
    /// Create a new cursor
    pub fn new(movement: usize, measure: usize, chan: usize, marking: usize) -> (r: Self)
        ensures
            r@ == (CursorV {
                movement: movement as nat,
                measure: measure as nat,
                chan: chan as nat,
                marking: marking as nat,
            }),
    {
        Cursor { movement, measure, chan, marking }
    }

    /// Create a cursor from the first marking
    pub fn first_marking(&self) -> (r: Self)
        ensures
            r@ == (CursorV { marking: 0, ..self@ }),
    {
        Cursor { movement: self.movement, measure: self.measure, chan: self.chan, marking: 0 }
    }

    /// Move cursor left.
    pub fn left(&mut self, scof: &Scof)
        ensures
            final(self)@ == left_spec(scof.movements(), old(self)@),
    {
        if self.marking > 0 {
            self.marking -= 1;
        } else if self.measure != 0 {
            self.measure -= 1;
            let len = scof.marking_len(self);
            self.marking = if len > 0 {
                len - 1
            } else {
                0
            };
        }
    }

    /// Move cursor right, and to the next measure if the measure ended.
    pub fn right(&mut self, scof: &Scof)
        requires
            right_ok(scof.movements(), old(self)@),
        ensures
            final(self)@ == right_spec(scof.movements(), old(self)@),
    {
        if self.right_checked(scof) {
            // Measure has ended.
            self.measure += 1;
            self.marking = 0;
        }
    }

    /// Fix the cursor if it is wrong.  Move cursor right, and to the next
    /// measure if the measure ended.
    pub fn right_fix(&mut self, scof: &Scof) -> (ended: bool)
        requires
            old(self)@.marking >= marking_len_spec(scof.movements(), old(self)@) ==> old(
                self,
            )@.measure + 1 <= usize::MAX,
        ensures
            ended == (old(self)@.marking >= marking_len_spec(scof.movements(), old(self)@)),
            ended ==> final(self)@ == (CursorV {
                measure: old(self)@.measure + 1,
                marking: 0,
                ..old(self)@
            }),
            !ended ==> final(self)@ == old(self)@,
    {
        if self.marking >= scof.marking_len(self) {
            // Measure has ended.
            self.measure += 1;
            self.marking = 0;
            true
        } else {
            false
        }
    }

    /// Move cursor right within the measure, returning true if the measure
    /// ended.  If the measure has ended, the cursor is not changed.
    pub fn right_checked(&mut self, scof: &Scof) -> (ended: bool)
        ensures
            ended == !(old(self)@.marking + 1 < marking_len_spec(scof.movements(), old(self)@)),
            ended ==> final(self)@ == old(self)@,
            !ended ==> final(self)@ == (CursorV { marking: old(self)@.marking + 1, ..old(self)@ }),
    {
        let len = scof.marking_len(self);
        if len > 0 && self.marking < len - 1 {
            self.marking += 1;
            false
        } else {
            true
        }
    }

    /// Move cursor to the right within the measure, not checking if it ended.
    pub fn right_unchecked(&mut self) -> (r: Self)
        requires
            old(self)@.marking < usize::MAX,
        ensures
            final(self)@ == (CursorV { marking: old(self)@.marking + 1, ..old(self)@ }),
            r@ == final(self)@,
    {
        self.marking += 1;
        *self
    }

    /// Returns true if it's the first bar of music.
    pub fn is_first_bar(&self) -> (r: bool)
        ensures
            r == (self@.measure == 0),
    {
        self.measure == 0
    }
}

// ------------------------------------------------------------------ markings

/// A Dynamic.
pub enum Dynamic {
    PPPPPP,
    PPPPP,
    PPPP,
    PPP,
    PP,
    P,
    MP,
    MF,
    F,
    FF,
    FFF,
    FFFF,
    FFFFF,
    FFFFFF,
    N,
    SF,
    SFZ,
    FP,
    SFP,
}

/// A marking.
pub enum Marking {
    /// Change intensity of sound.
    Dynamic(Dynamic),
    /// Grace Note into
    GraceInto(Note),
    /// Grace Note from
    GraceOutOf(Note),
    /// Note
    Note(Note),
    /// Breath
    Breath,
    /// Short grand pause for all instruments
    CaesuraShort,
    /// Long grand pause for all instruments
    CaesuraLong,
    /// Increase intensity
    Cresc,
    /// Decrease intensity
    Dim,
    /// Pizzicato (pluck)
    Pizz,
    /// Arco (bowed)
    Arco,
    /// Standard Mute [con sordino]
    Mute,
    /// Open (no mute) [senza sordino]
    Open,
    /// Repeat
    Repeat,
}

impl Marking {
    /// Read a marking from its text: every marking text is a note text.
    pub fn parse(s: &str) -> (r: Option<Marking>)
        ensures
            r is Some <==> parse_note_text(s@) is Some,
            r matches Some(m) ==> (m matches Marking::Note(n) && n@ == parse_note_text(s@)->0),
    {
        match Note::parse(s) {
            Some(n) => Some(Marking::Note(n)),
            None => None,
        }
    }
}

impl core::str::FromStr for Marking {
    type Err = ();

    fn from_str(s: &str) -> (r: Result<Self, Self::Err>)
        ensures
            r is Ok <==> parse_note_text(s@) is Some,
            r matches Ok(m) ==> (m matches Marking::Note(n) && n@ == parse_note_text(s@)->0),
    {
        match Marking::parse(s) {
            Some(m) => Ok(m),
            None => Err(()),
        }
    }
}

/// A repeat marking for a measure.
pub enum Repeat {
    /// Repeat sign open ||:
    Open,
    /// Repeat sign close :||
    Close,
    /// Sign (to jump backwards to).
    Segno,
    /// Jump back to beginning.
    DC,
    /// Jump back to sign.
    DS,
    /// The marks the beginning of the coda.
    Coda,
    /// Jump forward to the coda.
    ToCoda,
    /// End here (after jumping backwards to the sign).
    Fine,
    /// Numbered ending.
    Ending(u8),
}

// ------------------------------------------------------------------ parts

/// A waveform.
#[allow(dead_code)]
pub struct Waveform {
    /// True: Signed 16-bit integer, False: Signed 8-bit integer.
    si16: bool,
    /// True: Waveform doesn't loop, False: Waveform loops.
    once: bool,
    /// Hexadecimal string representation of waveform.
    wave: String,
}

/// Reverb & other effect settings.
#[derive(Debug, PartialEq)]
pub struct Effect {}

/// Channel definition for synthesis.
#[derive(Debug, PartialEq)]
pub struct SynthChan {
    /// Name of instrument sounds.
    pub waveform: Vec<String>,
    /// Instrument effects.
    pub effect: Vec<u32>,
    /// Volume 0-1, held as the bit pattern of a 32-bit IEEE 754 float.
    pub volume: u32,
}

/// Synthesis file.
#[derive(Debug, PartialEq)]
pub struct Synth {
    /// Instrument presets,
    /// Reverb presets, IDs automatically assigned.
    pub effect: Vec<Effect>,
    /// Channels
    pub chan: Vec<SynthChan>,
}

impl Default for Synth {
    fn default() -> (r: Synth)
        ensures
            r.effect@.len() == 0,
            r.chan@.len() == 0,
    {
        Synth { effect: Vec::new(), chan: Vec::new() }
    }
}

/// A signature.
#[derive(PartialEq, Debug)]
pub struct Sig {
    /// The key signature (0-23 quarter steps above C, 24+ reserved for middle
    /// eastern and Indian key signatures).
    pub key: u8,
    /// Time signature (num_beats/note_len), 4/4 is common.
    pub time: String,
    /// BPM (beats per minute), 120 BPM is common (default=120).
    pub tempo: u16,
    /// % Swing (default=50).
    pub swing: Option<u8>,
}

impl Default for Sig {
    /// Key of C, no time signature text, 120 BPM and 50% swing.
    fn default() -> (r: Sig)
        ensures
            r.key == 0,
            r.time@.len() == 0,
            r.tempo == 120,
            r.swing == Some(50u8),
    {
        Sig { key: 0, time: String::new(), tempo: 120, swing: Some(50) }
    }
}

/// Channel information for a specific bar of music.
#[derive(PartialEq, Debug)]
pub struct Chan {
    /// Notes for a channel
    pub notes: Vec<String>,
    /// Lyrics for a channel
    pub lyric: Vec<String>,
}

impl View for Chan {
    type V = ChanV;

    open spec fn view(&self) -> ChanV {
        ChanV { notes: strings(self.notes@), lyric: strings(self.lyric@) }
    }
}

impl Default for Chan {
    /// No notes: a whole measure rest.
    fn default() -> (r: Self)
        ensures
            r@ == empty_chan(),
    {
        let notes = Vec::new();  // no notes = whole measure rest
        let lyric = Vec::new();
        let r = Chan { notes, lyric };
        assert(strings(r.notes@) =~= seq![]);
        assert(strings(r.lyric@) =~= seq![]);
        r
    }
}

/// Reference to a signature.
#[derive(Debug, PartialEq)]
pub struct SigRef {
    /// Index into sig list.
    pub index: u32,
    /// Which beat of the measure the signature starts applying to.
    pub beat: Option<u8>,
}

/// A bar (or measure) of music.
#[derive(Debug, PartialEq)]
pub struct Bar {
    /// Signature reference (index)
    pub sig: Option<SigRef>,
    /// All of the channels in this piece.
    pub chan: Vec<Chan>,
    /// Repeat symbols for this measure.
    pub repeat: Vec<String>,
}

impl View for Bar {
    type V = BarV;

    open spec fn view(&self) -> BarV {
        BarV { sig: self.sig, chan: self.chan@.map_values(|c: Chan| c@), repeat: strings(self.repeat@) }
    }
}

/// A movement in the score.
#[derive(PartialEq, Debug)]
pub struct Movement {
    /// A list of key signatures used in this movement.
    pub sig: Vec<Sig>,
    /// Each measure of the movement in order.
    pub bar: Vec<Bar>,
}

impl View for Movement {
    type V = MovementV;

    open spec fn view(&self) -> MovementV {
        MovementV { sig: self.sig@, bar: self.bar@.map_values(|b: Bar| b@) }
    }
}

/// An instrument in the soundfont for this score.
#[derive(PartialEq, Debug)]
pub struct Instrument {
    /// Default waveform for instrument.
    pub waveform: String,
    /// Straight or Palm mute depending on instrument.
    pub mute: Option<String>,
    /// Cup mute.
    pub cup_mute: Option<String>,
    /// Wah-wah mute.
    pub harmon_mute: Option<String>,
    /// Plunger mute.
    pub plunger_mute: Option<String>,
    /// Harmonic (for guitar)
    pub harmonic: Option<String>,
    /// Use different waveform for this dynamic
    pub ppp: Option<String>,
    /// Use different waveform for this dynamic
    pub pp: Option<String>,
    /// Use different waveform for this dynamic
    pub p: Option<String>,
    /// Use different waveform for this dynamic
    pub mp: Option<String>,
    /// Use different waveform for this dynamic
    pub mf: Option<String>,
    /// Use different waveform for this dynamic
    pub f: Option<String>,
    /// Use different waveform for this dynamic
    pub ff: Option<String>,
    /// Use different waveform for this dynamic
    pub fff: Option<String>,
}

/// An instrument with only the default waveform name (empty) and no
/// alternative waveforms.
pub open spec fn is_default_instrument(i: Instrument) -> bool {
    &&& i.waveform@.len() == 0
    &&& i.mute is None
    &&& i.cup_mute is None
    &&& i.harmon_mute is None
    &&& i.plunger_mute is None
    &&& i.harmonic is None
    &&& i.ppp is None
    &&& i.pp is None
    &&& i.p is None
    &&& i.mp is None
    &&& i.mf is None
    &&& i.f is None
    &&& i.ff is None
    &&& i.fff is None
}

impl Default for Instrument {
    fn default() -> (r: Instrument)
        ensures
            is_default_instrument(r),
    {
        Instrument {
            waveform: String::new(),
            mute: None,
            cup_mute: None,
            harmon_mute: None,
            plunger_mute: None,
            harmonic: None,
            ppp: None,
            pp: None,
            p: None,
            mp: None,
            mf: None,
            f: None,
            ff: None,
            fff: None,
        }
    }
}

/// Whether a time signature is shown as a symbol when a style does not say.
pub fn default_symtime() -> (r: bool)
    ensures
        !r,
{
    false  // Don't show a symbol for time signature.
}

/// Signature Style.
#[derive(PartialEq, Debug)]
pub struct SigStyle {
    /// Text that should show up.  Default="beat = BPM" marking.
    pub tempo: Option<String>,
    /// Whether or not the time signature should use a special symbol
    /// (C for 4/4).
    pub time_symbol: bool,
    /// Text that should show up rather than default.
    /// Default="1/8 1/8 = 1/6 1/12"
    pub swing_text: Option<String>,
}

/// Style file.
#[derive(PartialEq, Debug)]
pub struct Style {
    pub sig: Vec<SigStyle>,
}

impl Default for Style {
    fn default() -> (r: Style)
        ensures
            r.sig@.len() == 0,
    {
        Style { sig: Vec::new() }
    }
}

/// Arranger & Ensemble
#[derive(PartialEq, Debug)]
pub struct Arranger {
    pub name: String,
    pub ensemble: Option<String>,
}

/// The composer named when the metadata does not name one.
pub fn default_composer() -> (r: String)
    ensures
        r@ == "Anonymous"@,
{
    String::from_str("Anonymous")
}

/// Score metadata.
#[derive(PartialEq, Debug)]
pub struct Meta {
    /// Who wrote the original music "{}"
    pub composer: String,
    /// The subtitle of the piece.
    pub subtitle: Option<String>,
    /// Work number.
    pub number: Option<u32>,
    /// Who wrote the lyrics to the music "Words by {}"
    pub lyricist: Option<String>,
    /// Who translated the lyrics "Translated by {}"
    pub translator: Option<String>,
    /// Who performed the music "Performed by {}"
    pub performers: Option<String>,
    /// List of people who arranged & rearranged the music in order
    /// "Arranged for {} by {}".
    pub arranger: Vec<Arranger>,
    /// List of people who revised the score "Revised by {}".
    pub revised: Vec<String>,
    /// License information
    pub licenses: Vec<String>,
    /// Playing level (how hard it is to play times 2 - to allow grade 1.5 etc.).
    pub grade: Option<u8>,
    /// List of the movements in order.
    pub movement: Vec<String>,
}

/// Metadata naming the default composer and nothing else.
pub open spec fn is_default_meta(m: Meta) -> bool {
    &&& m.composer@ == "Anonymous"@
    &&& m.subtitle is None
    &&& m.number is None
    &&& m.lyricist is None
    &&& m.translator is None
    &&& m.performers is None
    &&& m.arranger@.len() == 0
    &&& m.revised@.len() == 0
    &&& m.licenses@.len() == 0
    &&& m.grade is None
    &&& m.movement@.len() == 0
}

impl Default for Meta {
    fn default() -> (r: Self)
        ensures
            is_default_meta(r),
    {
        Self {
            subtitle: None,
            number: None,
            composer: default_composer(),
            lyricist: None,
            translator: None,
            performers: None,
            arranger: Vec::new(),
            revised: Vec::new(),
            licenses: Vec::new(),
            grade: None,
            movement: Vec::new(),
        }
    }
}

/// The entire Scof zip file.
pub struct Scof {
    /// The title of the piece.  When the zip file's name is
    /// "My Score \ Symphony No. 1.scof" => "My Score / Symphony No. 1".
    /// Maximum of 64 characters.
    pub title: String,
    /// Bytes for an RVG file (Vector(SVG), Pixel(PNG) or Picture(JPG)).
    pub cover: Option<Vec<u8>>,
    /// Metadata for the peice.
    pub meta: Meta,
    /// Rendering style.
    pub style: Style,
    /// Playback synthesis.
    pub synth: Synth,
    /// Instruments.
    pub soundfont: Vec<Instrument>,
    /// Movements for the peice.
    pub movement: Vec<Movement>,
    /// Cache for time signatures of each measure in each movement.
    pub cache: Vec<Vec<Fraction>>,
}

/// Replacing the markings of one channel inside the exec structure gives
/// `with_notes` on the model.
proof fn lemma_nested_update(
    mv0: Seq<Movement>,
    mv1: Seq<Movement>,
    c: CursorV,
    ns: Seq<Seq<char>>,
)
    requires
        c.movement < mv0.len(),
        c.measure < mv0[c.movement as int].bar@.len(),
        c.chan < mv0[c.movement as int].bar@[c.measure as int].chan@.len(),
        mv1 == mv0.update(c.movement as int, mv1[c.movement as int]),
        mv1[c.movement as int].sig == mv0[c.movement as int].sig,
        mv1[c.movement as int].bar@ == mv0[c.movement as int].bar@.update(
            c.measure as int,
            mv1[c.movement as int].bar@[c.measure as int],
        ),
        mv1[c.movement as int].bar@[c.measure as int].sig == mv0[c.movement as int].bar@[c.measure as int].sig,
        mv1[c.movement as int].bar@[c.measure as int].repeat == mv0[c.movement as int].bar@[c.measure as int].repeat,
        mv1[c.movement as int].bar@[c.measure as int].chan@ == mv0[c.movement as int].bar@[c.measure as int].chan@.update(
            c.chan as int,
            mv1[c.movement as int].bar@[c.measure as int].chan@[c.chan as int],
        ),
        mv1[c.movement as int].bar@[c.measure as int].chan@[c.chan as int].lyric == mv0[c.movement as int].bar@[c.measure as int].chan@[c.chan as int].lyric,
        strings(mv1[c.movement as int].bar@[c.measure as int].chan@[c.chan as int].notes@) == ns,
    ensures
        mv1.map_values(|m: Movement| m@) == with_notes(mv0.map_values(|m: Movement| m@), c, ns),
{
    let m = c.movement as int;
    let b = c.measure as int;
    let k = c.chan as int;
    let m0 = mv0[m];
    let b0 = m0.bar@[b];
    let c0 = b0.chan@[k];
    let m1 = mv1[m];
    let b1 = m1.bar@[b];
    let c1 = b1.chan@[k];
    let v0 = mv0.map_values(|x: Movement| x@);
    assert(c1@ == ChanV { notes: ns, ..c0@ });
    assert(b1.chan@.map_values(|x: Chan| x@) =~= b0.chan@.map_values(|x: Chan| x@).update(k, c1@));
    assert(b1@ == BarV { chan: v0[m].bar[b].chan.update(k, ChanV { notes: ns, ..v0[m].bar[b].chan[k] }), ..v0[m].bar[b] });
    assert(m1.bar@.map_values(|x: Bar| x@) =~= m0.bar@.map_values(|x: Bar| x@).update(b, b1@));
    assert(mv1.map_values(|x: Movement| x@) =~= with_notes(v0, c, ns));
}

impl Scof {
    /// The music of the score.
    pub open spec fn movements(&self) -> Seq<MovementV> {
        self.movement@.map_values(|m: Movement| m@)
    }

    /// All parts but the movements are those of `other`.
    pub open spec fn same_apart_from_movements(&self, other: &Scof) -> bool {
        &&& self.title == other.title
        &&& self.cover == other.cover
        &&& self.meta == other.meta
        &&& self.style == other.style
        &&& self.synth == other.synth
        &&& self.soundfont == other.soundfont
        &&& self.cache == other.cache
    }

    /// A score titled "Untitled Score" with default metadata, style,
    /// synthesis and one default instrument, whose only movement is
    /// `movement`.
    pub fn new(movement: Movement) -> (r: Scof)
        ensures
            r.title@ == "Untitled Score"@,
            r.cover is None,
            is_default_meta(r.meta),
            r.style.sig@.len() == 0,
            r.synth.effect@.len() == 0,
            r.synth.chan@.len() == 0,
            r.soundfont@.len() == 1,
            is_default_instrument(r.soundfont@[0]),
            r.movements() == seq![movement@],
            r.cache@.len() == 1,
            r.cache@[0]@.len() == 0,
    {
        let mut movements: Vec<Movement> = Vec::new();
        let ghost mv = movement@;
        movements.push(movement);
        let mut soundfont: Vec<Instrument> = Vec::new();
        soundfont.push(Instrument::default());
        let mut cache: Vec<Vec<Fraction>> = Vec::new();
        cache.push(Vec::new());
        let r = Scof {
            title: String::from_str("Untitled Score"),
            cover: None,
            meta: Meta::default(),
            style: Style::default(),
            synth: Synth::default(),
            movement: movements,
            soundfont,
            cache,
        };
        assert(r.movements() =~= seq![mv]);
        r
    }

    /// Lookup a marking at a cursor position
    fn marking_str(&self, cursor: &Cursor) -> (r: Option<&String>)
        ensures
            r is Some == text_at(self.movements(), cursor@) is Some,
            r matches Some(s) ==> s@ == text_at(self.movements(), cursor@)->0,
    {
        if cursor.movement < self.movement.len() {
            let mv = &self.movement[cursor.movement];
            if cursor.measure < mv.bar.len() {
                let bar = &mv.bar[cursor.measure];
                if cursor.chan < bar.chan.len() {
                    let ch = &bar.chan[cursor.chan];
                    if cursor.marking < ch.notes.len() {
                        return Some(&ch.notes[cursor.marking]);
                    }
                }
            }
        }
        None
    }

    /// Get the count of markings in a measure
    pub fn marking_len(&self, cursor: &Cursor) -> (r: usize)
        ensures
            r == marking_len_spec(self.movements(), cursor@),
    {
        let mut curs = (*cursor).clone();
        curs.marking = 0;
        let ghost ns = notes_at(self.movements(), cursor@);
        let ghost bound: int = match ns {
            Some(x) => x.len() as int,
            None => 0,
        };
        proof {
            if ns is Some {
                let ch = self.movement@[cursor@.movement as int].bar@[cursor@.measure as int].chan@[cursor@.chan as int];
                assert(ch.notes.len() <= usize::MAX);
            }
        }
        while self.marking(&curs).is_some()
            invariant
                curs@ == (CursorV { marking: curs@.marking, ..cursor@ }),
                ns == notes_at(self.movements(), cursor@),
                bound == (match ns {
                    Some(x) => x.len() as int,
                    None => 0,
                }),
                ns is None ==> curs.marking == 0,
                ns is Some ==> curs.marking <= bound,
                bound <= usize::MAX,
                ns is Some ==> forall|t: int|
                    0 <= t < curs.marking ==> #[trigger] parse_note_text(ns->0[t]) is Some,
            decreases bound - curs.marking,
        {
            curs.marking += 1;
        }
        proof {
            if ns is Some {
                lemma_marking_count_exact(ns->0, 0, curs.marking as int);
            }
        }
        curs.marking
    }

    /// Get the marking at cursor
    pub fn marking(&self, cursor: &Cursor) -> (r: Option<Marking>)
        ensures
            r is Some <==> (text_at(self.movements(), cursor@) matches Some(t) && parse_note_text(
                t,
            ) is Some),
            r matches Some(m) ==> (m matches Marking::Note(n) && n@ == parse_note_text(
                text_at(self.movements(), cursor@)->0,
            )->0),
    {
        let string = self.marking_str(cursor)?;
        Marking::parse(string.as_str())
    }

    /// Get the note at cursor
    pub fn note(&self, cursor: &Cursor) -> (r: Option<Note>)
        ensures
            r is Some <==> (text_at(self.movements(), cursor@) matches Some(t) && parse_note_text(
                t,
            ) is Some),
            r matches Some(n) ==> n@ == parse_note_text(text_at(self.movements(), cursor@)->0)->0,
    {
        let string = self.marking_str(cursor)?;
        Note::parse(string.as_str())
    }

    /// Whether the channel under the cursor exists.
    fn has_chan(&self, cursor: &Cursor) -> (r: bool)
        ensures
            r == (chan_at(self.movements(), cursor@) is Some),
    {
        cursor.movement < self.movement.len() && cursor.measure
            < self.movement[cursor.movement].bar.len() && cursor.chan
            < self.movement[cursor.movement].bar[cursor.measure].chan.len()
    }

    /// Take the markings of the channel under the cursor, leaving it empty.
    fn take_notes(&mut self, cursor: &Cursor) -> (v: Vec<String>)
        requires
            chan_at(old(self).movements(), cursor@) is Some,
        ensures
            Some(strings(v@)) == notes_at(old(self).movements(), cursor@),
            final(self).movements() == with_notes(old(self).movements(), cursor@, seq![]),
            final(self).same_apart_from_movements(old(self)),
    {
        let ghost s0 = *self;
        let mut v: Vec<String> = Vec::new();
        std::mem::swap(
            &mut v,
            &mut self.movement[cursor.movement].bar[cursor.measure].chan[cursor.chan].notes,
        );
        proof {
            let c1 = self.movement@[cursor.movement as int].bar@[cursor.measure as int].chan@[cursor.chan as int];
            assert(strings(c1.notes@) =~= seq![]);
            lemma_nested_update(s0.movement@, self.movement@, cursor@, seq![]);
            assert(strings(v@) =~= notes_at(s0.movements(), cursor@)->0);
        }
        v
    }

    /// Put markings into the channel under the cursor.
    fn put_notes(&mut self, cursor: &Cursor, v: Vec<String>)
        requires
            chan_at(old(self).movements(), cursor@) is Some,
        ensures
            final(self).movements() == with_notes(old(self).movements(), cursor@, strings(v@)),
            final(self).same_apart_from_movements(old(self)),
    {
        let ghost s0 = *self;
        let ghost vv = strings(v@);
        self.movement[cursor.movement].bar[cursor.measure].chan[cursor.chan].notes = v;
        proof {
            lemma_nested_update(s0.movement@, self.movement@, cursor@, vv);
        }
    }

    /// The markings of an existing channel number at most `usize::MAX`.
    proof fn lemma_notes_len(&self, cursor: &Cursor)
        requires
            chan_at(self.movements(), cursor@) is Some,
        ensures
            notes_at(self.movements(), cursor@)->0.len() <= usize::MAX,
    {
        let ch = self.movement@[cursor@.movement as int].bar@[cursor@.measure as int].chan@[cursor@.chan as int];
        assert(ch.notes.len() <= usize::MAX);
    }

    /// Replace the text of the marking under the cursor.
    fn set_marking_text(&mut self, cursor: &Cursor, text: String)
        requires
            text_at(old(self).movements(), cursor@) is Some,
        ensures
            final(self).movements() == with_notes(
                old(self).movements(),
                cursor@,
                notes_at(old(self).movements(), cursor@)->0.update(cursor@.marking as int, text@),
            ),
            final(self).same_apart_from_movements(old(self)),
    {
        let ghost mv0 = self.movements();
        let ghost t = text@;
        let mut v = self.take_notes(cursor);
        v[cursor.marking] = text;
        proof {
            assert(strings(v@) =~= notes_at(mv0, cursor@)->0.update(cursor@.marking as int, t));
            lemma_with_notes_twice(mv0, cursor@, seq![], strings(v@));
        }
        self.put_notes(cursor, v);
    }

    /// Append a marking text to the channel under the cursor.
    fn push_marking_text(&mut self, cursor: &Cursor, text: String)
        requires
            chan_at(old(self).movements(), cursor@) is Some,
        ensures
            final(self).movements() == with_notes(
                old(self).movements(),
                cursor@,
                notes_at(old(self).movements(), cursor@)->0.push(text@),
            ),
            final(self).same_apart_from_movements(old(self)),
    {
        let ghost mv0 = self.movements();
        let ghost t = text@;
        let mut v = self.take_notes(cursor);
        v.push(text);
        proof {
            assert(strings(v@) =~= notes_at(mv0, cursor@)->0.push(t));
            lemma_with_notes_twice(mv0, cursor@, seq![], strings(v@));
        }
        self.put_notes(cursor, v);
    }

    /// Insert a marking text at position `at` of the channel under the cursor.
    fn insert_marking_text(&mut self, cursor: &Cursor, at: usize, text: String)
        requires
            chan_at(old(self).movements(), cursor@) is Some,
            at <= notes_at(old(self).movements(), cursor@)->0.len(),
        ensures
            final(self).movements() == with_notes(
                old(self).movements(),
                cursor@,
                notes_at(old(self).movements(), cursor@)->0.insert(at as int, text@),
            ),
            final(self).same_apart_from_movements(old(self)),
    {
        let ghost mv0 = self.movements();
        let ghost t = text@;
        let ghost ns = notes_at(mv0, cursor@)->0;
        let mut v = self.take_notes(cursor);
        let ghost v0 = v@;
        v.insert(at, text);
        proof {
            assert forall|i: int| 0 <= i < v@.len() implies strings(v@)[i] == ns.insert(
                at as int,
                t,
            )[i] by {
                if i < at {
                    assert(v@[i] == v0[i]);
                } else if i > at {
                    assert(v@[i] == v0[i - 1]);
                }
            }
            assert(strings(v@) =~= ns.insert(at as int, t));
            lemma_with_notes_twice(mv0, cursor@, seq![], strings(v@));
        }
        self.put_notes(cursor, v);
    }

    /// Remove the marking text under the cursor.
    fn remove_marking_text(&mut self, cursor: &Cursor) -> (text: String)
        requires
            text_at(old(self).movements(), cursor@) is Some,
        ensures
            text@ == text_at(old(self).movements(), cursor@)->0,
            final(self).movements() == with_notes(
                old(self).movements(),
                cursor@,
                notes_at(old(self).movements(), cursor@)->0.remove(cursor@.marking as int),
            ),
            final(self).same_apart_from_movements(old(self)),
    {
        let ghost mv0 = self.movements();
        let ghost ns = notes_at(mv0, cursor@)->0;
        let mut v = self.take_notes(cursor);
        let ghost v0 = v@;
        let text = v.remove(cursor.marking);
        proof {
            let k = cursor@.marking as int;
            assert forall|i: int| 0 <= i < v@.len() implies strings(v@)[i] == ns.remove(k)[i] by {
                if i < k {
                    assert(v@[i] == v0[i]);
                } else {
                    assert(v@[i] == v0[i + 1]);
                }
            }
            assert(strings(v@) =~= ns.remove(k));
            assert(strings(v0)[k] == v0[k]@);
            lemma_with_notes_twice(mv0, cursor@, seq![], strings(v@));
        }
        self.put_notes(cursor, v);
        text
    }

    /// Get the last measure of a movement
    fn last_measure(&self, movement: usize) -> (r: Option<&Bar>)
        ensures
            r is Some == (movement < self.movement@.len() && self.movement@[movement as int].bar@.len()
                > 0),
            r matches Some(b) ==> b@ == self.movements()[movement as int].bar.last(),
    {
        if movement < self.movement.len() {
            let mv = &self.movement[movement];
            let n = mv.bar.len();
            if n > 0 {
                return Some(&mv.bar[n - 1]);
            }
        }
        None
    }

    /// Push a measure at end of movement
    fn push_measure(&mut self, movement: usize, bar: Bar)
        ensures
            final(self).movements() == (if movement < old(self).movement@.len() {
                old(self).movements().update(
                    movement as int,
                    MovementV {
                        bar: old(self).movements()[movement as int].bar.push(bar@),
                        ..old(self).movements()[movement as int]
                    },
                )
            } else {
                old(self).movements()
            }),
            final(self).same_apart_from_movements(old(self)),
    {
        let ghost s0 = *self;
        let ghost b = bar@;
        if movement < self.movement.len() {
            self.movement[movement].bar.push(bar);
            proof {
                let m1 = self.movement@[movement as int];
                let m0 = s0.movement@[movement as int];
                assert(m1.bar@.map_values(|x: Bar| x@) =~= m0.bar@.map_values(|x: Bar| x@).push(b));
                assert(self.movements() =~= s0.movements().update(
                    movement as int,
                    MovementV { bar: s0.movements()[movement as int].bar.push(b), ..s0.movements()[movement as int] },
                ));
            }
        }
    }

    /// Add a new measure
    pub fn new_measure(&mut self)
        ensures
            final(self).movements() == new_measure_spec(old(self).movements()),
            final(self).same_apart_from_movements(old(self)),
    {
        let ghost mv0 = self.movements();
        if let Some(last_bar) = self.last_measure(0) {
            // Add whole rests for each channel.
            let n = last_bar.chan.len();
            let mut chan: Vec<Chan> = Vec::new();
            let mut i: usize = 0;
            while i < n
                invariant
                    i <= n,
                    chan@.len() == i,
                    chan@.map_values(|c: Chan| c@) == Seq::new(i as nat, |j: int| empty_chan()),
                decreases n - i,
            {
                let ghost before = chan@;
                let e = Chan::default();
                assert(e@ == empty_chan());
                chan.push(e);
                i = i + 1;
                assert forall|j: int| 0 <= j < i implies chan@[j]@ == empty_chan() by {
                    if j < i - 1 {
                        assert(chan@[j] == before[j]);
                        assert(before.map_values(|c: Chan| c@)[j] == empty_chan());
                    }
                }
                assert(chan@.map_values(|c: Chan| c@) =~= Seq::new(i as nat, |j: int| empty_chan()));
            }
            let bar = Bar {
                sig: None,  // No signature changes
                repeat: Vec::new(),  // No repeat symbols
                chan,
            };
            proof {
                assert(strings(bar.repeat@) =~= seq![]);
                assert(n == mv0[0].bar.last().chan.len());
            }
            self.push_measure(0, bar);
        }
    }

    /// Set pitch class and octave of a note at a cursor
    pub fn set_pitch(&mut self, cursor: &Cursor, pitch: Pitch)
        requires
            text_at(old(self).movements(), cursor@) matches Some(t) && parse_note_text(t) is Some,
        ensures
            final(self).movements() == with_notes(
                old(self).movements(),
                cursor@,
                notes_at(old(self).movements(), cursor@)->0.update(
                    cursor@.marking as int,
                    note_text(
                        NoteV {
                            pitch: Some(pitch),
                            ..parse_note_text(text_at(old(self).movements(), cursor@)->0)->0
                        },
                    ),
                ),
            ),
            parse_note_text(text_at(final(self).movements(), cursor@)->0) == Some(
                NoteV {
                    pitch: Some(pitch),
                    ..parse_note_text(text_at(old(self).movements(), cursor@)->0)->0
                },
            ),
            final(self).same_apart_from_movements(old(self)),
    {
        let ghost mv0 = self.movements();
        let mut note = self.note(cursor).unwrap();
        note.set_pitch(pitch);
        self.set_marking_text(cursor, note.to_string());
        proof {
            lemma_with_notes_at(mv0, cursor@, notes_at(mv0, cursor@)->0.update(cursor@.marking as int, note_text(note@)), cursor@);
            lemma_note_text_round_trip(note@);
        }
    }

    /// Set an empty measure to be filled with all of the beats: the note,
    /// then a rest that completes a whole note.
    ///
    /// The note may not be longer than a whole note: the completing rest is
    /// a whole note less the note's duration, and durations are never
    /// negative.
    pub fn set_empty_measure(&mut self, cursor: &Cursor, note: Note)
        requires
            chan_at(old(self).movements(), cursor@) is Some,
            note.duration.wf(),
            frac_le(note.duration, whole()),
        ensures
            final(self).movements() == with_notes(
                old(self).movements(),
                cursor@,
                empty_measure_notes(notes_at(old(self).movements(), cursor@)->0, note@),
            ),
            final(self).same_apart_from_movements(old(self)),
    {
        let ghost mv0 = self.movements();
        let ghost n0 = note@;
        let mut note = note;
        self.push_marking_text(cursor, note.to_string());
        proof {
            lemma_with_notes_at(mv0, cursor@, notes_at(mv0, cursor@)->0.push(note_text(n0)), cursor@);
            lemma_sub_props(whole(), note.duration);
        }
        note.duration = Fraction::new(1, 1).sub(&note.duration);
        note.pitch = None;
        self.push_marking_text(cursor, note.to_string());
        proof {
            assert(note@ == filling_rest(n0));
            lemma_with_notes_twice(
                mv0,
                cursor@,
                notes_at(mv0, cursor@)->0.push(note_text(n0)),
                empty_measure_notes(notes_at(mv0, cursor@)->0, n0),
            );
        }
    }

    /// Set whole rest at cursor to C4.
    pub fn set_whole_pitch(&mut self, cursor: &Cursor)
        requires
            chan_at(old(self).movements(), cursor@) is Some,
        ensures
            final(self).movements() == with_notes(
                old(self).movements(),
                cursor@,
                notes_at(old(self).movements(), cursor@)->0.push("1/1C4"@),
            ),
            parse_note_text("1/1C4"@) == Some(whole_c4()),
            final(self).same_apart_from_movements(old(self)),
    {
        // If it's a whole measure rest, insert a whole note (4/4)
        self.push_marking_text(cursor, String::from_str("1/1C4"));
        proof {
            reveal_strlit("1/1C4");
            assert(crate::decimal::nat_text(1) == seq!['1']);
            assert("1/1C4"@ =~= note_text(whole_c4()));
            lemma_note_text_round_trip(whole_c4());
        }
    }

    /// Fill the measure under the cursor with a rest of duration `dur`,
    /// followed by a rest that completes a whole note.
    ///
    /// `dur` may not be longer than a whole note: the completing rest is a
    /// whole note less `dur`, and durations are never negative.
    pub fn set_whole_duration(&mut self, cursor: &Cursor, dur: Fraction)
        requires
            chan_at(old(self).movements(), cursor@) is Some,
            dur.wf(),
            frac_le(dur, whole()),
        ensures
            final(self).movements() == with_notes(
                old(self).movements(),
                cursor@,
                empty_measure_notes(notes_at(old(self).movements(), cursor@)->0, rest_of(dur)),
            ),
            final(self).same_apart_from_movements(old(self)),
    {
        let note = Note { pitch: None, duration: dur, articulation: Vec::new() };
        assert(note@ == rest_of(dur));
        self.set_empty_measure(cursor, note);
    }

    /// One step of the walk that `set_duration` makes over the markings
    /// after a lengthened note; `true` when the walk ends with it.
    fn walk_one(
        &mut self,
        cur: &mut Cursor,
        tied_value: &mut Fraction,
        note: &mut Note,
        crossed: &mut bool,
    ) -> (finished: bool)
        requires
            old(tied_value).num != 0,
            !(walk_step(
                WalkState {
                    mv: old(self).movements(),
                    cur: old(cur)@,
                    tied: *old(tied_value),
                    note: old(note)@,
                    crossed: *old(crossed),
                },
            ) is Stuck),
        ensures
            ({
                let st = WalkState {
                    mv: old(self).movements(),
                    cur: old(cur)@,
                    tied: *old(tied_value),
                    note: old(note)@,
                    crossed: *old(crossed),
                };
                let post = WalkState {
                    mv: final(self).movements(),
                    cur: final(cur)@,
                    tied: *final(tied_value),
                    note: final(note)@,
                    crossed: *final(crossed),
                };
                &&& finished ==> walk_step(st) == WalkStep::Finish(post)
                &&& !finished ==> walk_step(st) == WalkStep::Continue(post)
            }),
            final(note)@ == old(note)@,
            final(self).same_apart_from_movements(old(self)),
    {
        let ghost st = WalkState {
            mv: self.movements(),
            cur: cur@,
            tied: *tied_value,
            note: note@,
            crossed: *crossed,
        };
        if cur.right_fix(self) {
            // The measure ended: go on in the next one.
            if self.marking_str(cur).is_none() {
                self.new_measure();
                self.set_empty_measure(
                    cur,
                    Note { pitch: None, duration: Fraction::new(1, 1), articulation: Vec::new() },
                );
            }
            *crossed = true;
            return false;
        }
        proof {
            let ns = notes_at(st.mv, st.cur)->0;
            lemma_marking_count(ns, 0);
            assert(parse_note_text(ns[st.cur.marking as int]) is Some);
            self.lemma_notes_len(cur);
        }
        if !*crossed {
            self.walk_take(cur, tied_value)
        } else {
            self.walk_tie(cur, tied_value, note)
        }
    }

    /// A step of the walk in the lengthened note's own measure: the marking
    /// under the cursor is taken into the note.
    fn walk_take(&mut self, cur: &Cursor, tied_value: &mut Fraction) -> (finished: bool)
        requires
            text_at(old(self).movements(), cur@) matches Some(t) && parse_note_text(t) is Some,
            old(tied_value).den > 0,
            ({
                let ns = notes_at(old(self).movements(), cur@)->0;
                let d = parse_note_text(ns[cur@.marking as int])->0.duration;
                &&& d.den > 0
                &&& frac_le(d, *old(tied_value)) ==> sub_fits(*old(tied_value), d)
                &&& !frac_le(d, *old(tied_value)) ==> sub_fits(d, *old(tied_value))
            }),
        ensures
            ({
                let ns = notes_at(old(self).movements(), cur@)->0;
                let k = cur@.marking as int;
                let found = parse_note_text(ns[k])->0;
                let d = found.duration;
                let ns1 = ns.remove(k);
                &&& finished == !frac_le(d, *old(tied_value))
                &&& !finished ==> final(self).movements() == with_notes(
                    old(self).movements(),
                    cur@,
                    ns1,
                ) && *final(tied_value) == frac_sub(*old(tied_value), d)
                &&& finished ==> final(self).movements() == with_notes(
                    old(self).movements(),
                    cur@,
                    ns1.insert(k, note_text(NoteV { duration: frac_sub(d, *old(tied_value)), ..found })),
                ) && *final(tied_value) == *old(tied_value)
            }),
            final(self).same_apart_from_movements(old(self)),
    {
        let ghost mv0 = self.movements();
        let ghost ns1 = notes_at(mv0, cur@)->0.remove(cur@.marking as int);
        let mut removed = self.remove_at(cur).unwrap();
        proof {
            lemma_with_notes_at(mv0, cur@, ns1, cur@);
        }
        if removed.duration.le(tied_value) {
            *tied_value = tied_value.sub(&removed.duration);
            false
        } else {
            removed.duration = removed.duration.sub(tied_value);
            self.insert_at(cur, removed);
            proof {
                lemma_with_notes_twice(
                    mv0,
                    cur@,
                    ns1,
                    ns1.insert(cur@.marking as int, note_text(removed@)),
                );
            }
            true
        }
    }

    /// A step of the walk in a following measure: the note is tied over
    /// the marking under the cursor.
    fn walk_tie(&mut self, cur: &mut Cursor, tied_value: &mut Fraction, note: &mut Note) -> (finished: bool)
        requires
            text_at(old(self).movements(), old(cur)@) matches Some(t) && parse_note_text(t) is Some,
            old(cur)@.marking < usize::MAX,
            old(cur)@.marking < notes_at(old(self).movements(), old(cur)@)->0.len(),
            old(tied_value).den > 0,
            ({
                let ns = notes_at(old(self).movements(), old(cur)@)->0;
                let d = parse_note_text(ns[old(cur)@.marking as int])->0.duration;
                &&& d.den > 0
                &&& frac_le(d, *old(tied_value)) ==> sub_fits(*old(tied_value), d)
                &&& !frac_le(d, *old(tied_value)) ==> sub_fits(d, *old(tied_value))
            }),
        ensures
            ({
                let c = old(cur)@;
                let ns = notes_at(old(self).movements(), c)->0;
                let k = c.marking as int;
                let found = parse_note_text(ns[k])->0;
                let d = found.duration;
                let t = *old(tied_value);
                &&& finished == !frac_le(d, t)
                &&& !finished ==> final(self).movements() == with_notes(
                    old(self).movements(),
                    c,
                    ns.update(k, note_text(NoteV { duration: d, ..old(note)@ })),
                ) && *final(tied_value) == frac_sub(t, d) && final(cur)@ == (CursorV {
                    marking: c.marking + 1,
                    ..c
                })
                &&& finished ==> final(self).movements() == with_notes(
                    old(self).movements(),
                    c,
                    ns.update(k, note_text(NoteV { duration: t, ..old(note)@ })).insert(
                        k + 1,
                        note_text(NoteV { duration: frac_sub(d, t), ..found }),
                    ),
                ) && *final(tied_value) == t && final(cur)@ == c
            }),
            final(note)@ == old(note)@,
            final(self).same_apart_from_movements(old(self)),
    {
        let ghost mv0 = self.movements();
        let ghost c = cur@;
        let ghost ns = notes_at(mv0, c)->0;
        let ghost k = c.marking as int;
        let mut found = self.note(cur).unwrap();
        let keep = note.duration;
        if found.duration.le(tied_value) {
            let d = found.duration;
            note.duration = d;
            let text = note.to_string();
            note.duration = keep;
            self.set_marking_text(cur, text);
            *tied_value = tied_value.sub(&d);
            cur.right_unchecked();
            false
        } else {
            let whole_d = found.duration;
            note.duration = *tied_value;
            let text = note.to_string();
            note.duration = keep;
            self.set_marking_text(cur, text);
            found.duration = whole_d.sub(tied_value);
            let ghost ns1 = ns.update(k, note_text(NoteV { duration: *tied_value, ..note@ }));
            proof {
                lemma_with_notes_at(mv0, c, ns1, c);
            }
            self.insert_after(cur, found);
            proof {
                lemma_with_notes_twice(mv0, c, ns1, ns1.insert(k + 1, note_text(found@)));
            }
            true
        }
    }

    /// Set duration of a note.
    ///
    /// The note under the cursor is given the duration `dur`.  A shorter
    /// note is followed by a rest of the difference.  A longer one takes the
    /// difference, the extra, from the markings that follow it in the
    /// measure: markings no longer than what is left of the extra are
    /// removed, and a longer one is shortened by it.  Within a measure whose
    /// following markings cover the extra, the measure keeps its length
    /// (`law_set_duration_keeps_measure_length`).
    ///
    /// When the measure runs out first, the note is tied over into the next
    /// measures for what is left of the extra: each marking there becomes
    /// the note with that marking's duration, and a marking longer than what
    /// is left is split into the note for what is left and the marking for
    /// the remainder.  So the following measures keep their lengths
    /// (`law_set_duration_keeps_following_measures`, and
    /// `law_tie_keeps_measure_length` for one step).  When the next measure
    /// has no marking, a measure is added at the end of the first movement
    /// and the next measure is given a whole rest (and an empty rest) first.
    ///
    /// Every difference of durations must fit the 32-bit fields of a
    /// `Fraction`, which `requires` states as the walk completing.  For an
    /// edit that stays in the note's measure,
    /// `lemma_set_duration_in_measure_completes` gives this from the
    /// markings, and `set_duration_in_measure` checks it as it runs; the
    /// result of such an edit is spelled out by `law_in_measure_lengthening`.
    pub fn set_duration(&mut self, cursor: &Cursor, dur: Fraction)
        requires
            dur.wf(),
            exists|fuel: nat|
                (#[trigger] set_duration_spec(old(self).movements(), cursor@, dur, fuel)) is Some,
        ensures
            forall|fuel: nat|
                (#[trigger] set_duration_spec(old(self).movements(), cursor@, dur, fuel)) is Some
                    ==> final(self).movements() == set_duration_spec(
                    old(self).movements(),
                    cursor@,
                    dur,
                    fuel,
                )->0,
            text_at(final(self).movements(), cursor@) is Some,
            parse_note_text(text_at(final(self).movements(), cursor@)->0) == Some(
                NoteV { duration: dur, ..parse_note_text(text_at(old(self).movements(), cursor@)->0)->0 },
            ),
            final(self).same_apart_from_movements(old(self)),
    {
        let ghost s0 = *self;
        let ghost mv0 = self.movements();
        let ghost fuel: nat = choose|f: nat|
            (#[trigger] set_duration_spec(mv0, cursor@, dur, f)) is Some;
        proof {
            self.lemma_notes_len(cursor);
            assert forall|f: nat| (#[trigger] set_duration_spec(mv0, cursor@, dur, f)) is Some implies
                set_duration_spec(mv0, cursor@, dur, f) == set_duration_spec(mv0, cursor@, dur, fuel) by {
                lemma_set_duration_deterministic(mv0, cursor@, dur, f, fuel);
            }
        }
        let mut note = self.note(cursor).unwrap();
        let old = note.duration;
        note.set_duration(dur);
        if dur.lt(&old) {
            let rests = old.sub(&dur);
            let rest = Note { pitch: None, duration: rests, articulation: Vec::new() };
            assert(rest@ == rest_of(rests));
            self.insert_after(cursor, rest);
            proof {
                let ns1 = notes_at(mv0, cursor@)->0.insert(
                    (cursor@.marking + 1) as int,
                    note_text(rest_of(rests)),
                );
                lemma_with_notes_at(mv0, cursor@, ns1, cursor@);
                lemma_with_notes_twice(
                    mv0,
                    cursor@,
                    ns1,
                    ns1.update(cursor@.marking as int, note_text(note@)),
                );
            }
        } else {
            let mut tied_value = dur.sub(&old);
            let mut start = *cursor;
            let mut cur = start.right_unchecked();
            let mut crossed = false;
            let ghost first = WalkState {
                mv: mv0,
                cur: cur@,
                tied: tied_value,
                note: note@,
                crossed: false,
            };
            let ghost end = walk(first, fuel)->0;
            let ghost mut remaining: nat = fuel;
            while !tied_value.is_zero()
                invariant_except_break
                    walk(
                        WalkState {
                            mv: self.movements(),
                            cur: cur@,
                            tied: tied_value,
                            note: note@,
                            crossed,
                        },
                        remaining,
                    ) == Some(end),
                invariant
                    self.same_apart_from_movements(&s0),
                    end == walk(first, fuel)->0,
                    note@ == first.note,
                ensures
                    (WalkState {
                        mv: self.movements(),
                        cur: cur@,
                        tied: tied_value,
                        note: note@,
                        crossed,
                    }) == end,
                decreases remaining,
            {
                proof {
                    assert(remaining > 0);
                }
                let finished = self.walk_one(&mut cur, &mut tied_value, &mut note, &mut crossed);
                if finished {
                    break;
                }
                proof {
                    remaining = (remaining - 1) as nat;
                }
            }
            proof {
                let ns = notes_at(end.mv, cursor@)->0;
                lemma_with_notes_twice(
                    end.mv,
                    cursor@,
                    ns,
                    ns.update(cursor@.marking as int, note_text(note@)),
                );
            }
        }
        self.set_marking_text(cursor, note.to_string());
        proof {
            law_set_duration_sets_duration(mv0, cursor@, dur, fuel);
        }
    }

    /// Set the duration of a note when the edit stays in the note's
    /// measure.
    ///
    /// When the marking under the cursor exists, every marking of its
    /// measure reads as a note, and the edit can be made within the measure
    /// with every difference fitting a `Fraction` (`in_measure_edit_fits`),
    /// this does what `set_duration` does, keeping the measure's length, and
    /// returns `true`.  Otherwise it returns `false` and changes nothing.
    pub fn set_duration_in_measure(&mut self, cursor: &Cursor, dur: Fraction) -> (done: bool)
        requires
            dur.wf(),
        ensures
            done == in_measure_edit_fits(old(self).movements(), cursor@, dur),
            done ==> final(self).movements() == set_duration_spec(
                old(self).movements(),
                cursor@,
                dur,
                notes_at(old(self).movements(), cursor@)->0.len(),
            )->0,
            done ==> parse_note_text(text_at(final(self).movements(), cursor@)->0) == Some(
                NoteV { duration: dur, ..parse_note_text(text_at(old(self).movements(), cursor@)->0)->0 },
            ),
            done ==> all_notes(notes_at(final(self).movements(), cursor@)->0) && r_eq(
                total(notes_at(final(self).movements(), cursor@)->0),
                total(notes_at(old(self).movements(), cursor@)->0),
            ),
            done ==> final(self).same_apart_from_movements(old(self)),
            !done ==> *final(self) == *old(self),
    {
        let ghost mv = self.movements();
        let ghost ns = notes_at(mv, cursor@)->0;
        let ghost k = cursor@.marking as int;
        let note = match self.note(cursor) {
            Some(n) => n,
            None => return false,
        };
        let len = self.marking_len(cursor);
        let end = Cursor {
            movement: cursor.movement,
            measure: cursor.measure,
            chan: cursor.chan,
            marking: len,
        };
        proof {
            self.lemma_notes_len(cursor);
            lemma_marking_count(ns, 0);
        }
        if self.marking_str(&end).is_some() {
            proof {
                assert(parse_note_text(ns[len as int]) is None);
            }
            return false;
        }
        assert(len == ns.len());
        assert(all_notes(ns));
        let was = note.duration;
        if dur.lt(&was) {
            if was.checked_sub(&dur).is_none() {
                return false;
            }
        } else {
            let mut tied = match dur.checked_sub(&was) {
                Some(t) => t,
                None => return false,
            };
            let mut j: usize = cursor.marking + 1;
            assert(ns.skip(k + 1) == ns.skip(j as int));
            assert(in_measure_edit_fits(mv, cursor@, dur) == take_fits(tied, ns.skip(j as int)));
            while !tied.is_zero()
                invariant_except_break
                    in_measure_edit_fits(mv, cursor@, dur) == take_fits(tied, ns.skip(j as int)),
                invariant
                    *self == *old(self),
                    mv == self.movements(),
                    ns == notes_at(mv, cursor@)->0,
                    chan_at(mv, cursor@) is Some,
                    all_notes(ns),
                    len == ns.len(),
                    k + 1 <= j <= ns.len(),
                    tied.wf(),
                ensures
                    in_measure_edit_fits(mv, cursor@, dur),
                decreases ns.len() - j,
            {
                let ghost rest = ns.skip(j as int);
                if j >= len {
                    assert(rest.len() == 0);
                    return false;
                }
                let at = Cursor {
                    movement: cursor.movement,
                    measure: cursor.measure,
                    chan: cursor.chan,
                    marking: j,
                };
                assert(rest[0] == ns[j as int]);
                assert(parse_note_text(ns[j as int]) is Some);
                assert(at@ == CursorV { marking: j as nat, ..cursor@ });
                assert(text_at(mv, at@) == Some(ns[j as int]));
                let d = match self.note(&at) {
                    Some(n) => n.duration,
                    None => return false,
                };
                proof {
                    lemma_parsed_den(ns[j as int]);
                }
                assert(rest.drop_first() =~= ns.skip(j + 1));
                if d.le(&tied) {
                    match tied.checked_sub(&d) {
                        Some(t) => {
                            tied = t;
                            j += 1;
                        },
                        None => return false,
                    }
                } else {
                    if d.checked_sub(&tied).is_none() {
                        return false;
                    }
                    break;
                }
            }
        }
        proof {
            law_in_measure_edit_keeps_length(mv, cursor@, dur);
        }
        self.set_duration(cursor, dur);
        true
    }

    /// Insert a note after the cursor.
    fn insert_after(&mut self, cursor: &Cursor, marking: Note) -> (r: Option<()>)
        requires
            cursor@.marking < usize::MAX,
            chan_at(old(self).movements(), cursor@) is Some ==> cursor@.marking + 1 <= notes_at(
                old(self).movements(),
                cursor@,
            )->0.len(),
        ensures
            r is Some == (chan_at(old(self).movements(), cursor@) is Some),
            r is Some ==> final(self).movements() == with_notes(
                old(self).movements(),
                cursor@,
                notes_at(old(self).movements(), cursor@)->0.insert(
                    (cursor@.marking + 1) as int,
                    note_text(marking@),
                ),
            ),
            r is None ==> final(self).movements() == old(self).movements(),
            final(self).same_apart_from_movements(old(self)),
    {
        let mut next = *cursor;
        let next = next.right_unchecked();
        if !self.has_chan(&next) {
            return None;
        }
        let text = marking.to_string();
        self.insert_marking_text(&next, cursor.marking + 1, text);
        Some(())
    }

    /// Insert a note at the cursor.
    fn insert_at(&mut self, cursor: &Cursor, marking: Note) -> (r: Option<()>)
        requires
            chan_at(old(self).movements(), cursor@) is Some ==> cursor@.marking <= notes_at(
                old(self).movements(),
                cursor@,
            )->0.len(),
        ensures
            r is Some == (chan_at(old(self).movements(), cursor@) is Some),
            r is Some ==> final(self).movements() == with_notes(
                old(self).movements(),
                cursor@,
                notes_at(old(self).movements(), cursor@)->0.insert(
                    cursor@.marking as int,
                    note_text(marking@),
                ),
            ),
            r is None ==> final(self).movements() == old(self).movements(),
            final(self).same_apart_from_movements(old(self)),
    {
        if !self.has_chan(cursor) {
            return None;
        }
        let text = marking.to_string();
        self.insert_marking_text(cursor, cursor.marking, text);
        Some(())
    }

    /// Remove the note at the cursor, and read it.
    fn remove_at(&mut self, cursor: &Cursor) -> (r: Option<Note>)
        requires
            chan_at(old(self).movements(), cursor@) is Some ==> cursor@.marking < notes_at(
                old(self).movements(),
                cursor@,
            )->0.len(),
        ensures
            chan_at(old(self).movements(), cursor@) is Some ==> final(self).movements()
                == with_notes(
                old(self).movements(),
                cursor@,
                notes_at(old(self).movements(), cursor@)->0.remove(cursor@.marking as int),
            ),
            chan_at(old(self).movements(), cursor@) is None ==> final(self).movements() == old(
                self,
            ).movements() && r is None,
            chan_at(old(self).movements(), cursor@) is Some ==> (r is Some == parse_note_text(
                text_at(old(self).movements(), cursor@)->0,
            ) is Some),
            r matches Some(n) ==> n@ == parse_note_text(text_at(old(self).movements(), cursor@)->0)->0,
            final(self).same_apart_from_movements(old(self)),
    {
        if !self.has_chan(cursor) {
            return None;
        }
        let string = self.remove_marking_text(cursor);
        Note::parse(string.as_str())
    }
}

/// A whole note C in octave four.
pub open spec fn whole_c4() -> NoteV {
    NoteV {
        pitch: Some(
            Pitch {
                class: crate::note::PitchClass { name: crate::note::PitchName::C, accidental: None },
                octave: crate::note::PitchOctave::Octave4,
            },
        ),
        duration: whole(),
        articulation: seq![],
    }
}

} // verus!
