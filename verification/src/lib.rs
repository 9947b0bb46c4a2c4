//! A music score format: a score holds movements of measures, each measure
//! holds channels, and each channel holds its markings as short text items.
use vstd::prelude::*;

pub mod decimal;
pub mod fraction;
pub mod laws;
pub mod model;
pub mod note;
pub mod ratio;
pub mod score;

pub use fraction::{Fraction, IsZero};
pub use note::{Articulation, Note, Pitch, PitchAccidental, PitchClass, PitchName, PitchOctave};
pub use score::{
    default_composer, default_symtime, Arranger, Bar, Chan, Cursor, Dynamic, Effect, Instrument,
    Marking, Meta, Movement, Repeat, Scof, Sig, SigRef, SigStyle, Style, Synth, SynthChan,
    Waveform,
};

verus! {
} // verus!
