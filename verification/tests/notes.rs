use scof::{Articulation, Fraction, IsZero, Marking, Note, Pitch, PitchAccidental, PitchClass, PitchName, PitchOctave};

fn pitch(name: PitchName, accidental: Option<PitchAccidental>, octave: PitchOctave) -> Pitch {
    Pitch { class: PitchClass { name, accidental }, octave }
}

#[test]
fn note_text_of_simple_note() {
    let n = Note {
        pitch: Some(pitch(PitchName::C, None, PitchOctave::Octave4)),
        duration: Fraction::new(1, 4),
        articulation: vec![],
    };
    assert_eq!(n.to_string(), "1/4C4");
}

#[test]
fn note_text_with_accidental_and_articulations() {
    let n = Note {
        pitch: Some(pitch(PitchName::C, Some(PitchAccidental::Sharp), PitchOctave::Octave4)),
        duration: Fraction::new(3, 8),
        articulation: vec![Articulation::Staccato, Articulation::Accent],
    };
    assert_eq!(n.to_string(), "3/8C#4.>");
}

#[test]
fn note_text_of_rest() {
    let n = Note { pitch: None, duration: Fraction::new(1, 1), articulation: vec![] };
    assert_eq!(n.to_string(), "1/1R");
}

#[test]
fn parse_simple_note() {
    let n = Note::parse("1/4C4").unwrap();
    assert_eq!(n.pitch, Some(pitch(PitchName::C, None, PitchOctave::Octave4)));
    assert_eq!(n.duration, Fraction::new(1, 4));
    assert!(n.articulation.is_empty());
}

#[test]
fn parse_all_accidentals() {
    let cases = [
        ("1/2Ebb3", PitchAccidental::DoubleFlat),
        ("1/2Eb3", PitchAccidental::Flat),
        ("1/2En3", PitchAccidental::Natural),
        ("1/2E#3", PitchAccidental::Sharp),
        ("1/2E##3", PitchAccidental::DoubleSharp),
    ];
    for (text, acc) in cases.iter() {
        let n = Note::parse(text).unwrap();
        assert_eq!(n.pitch, Some(pitch(PitchName::E, Some(*acc), PitchOctave::Octave3)));
        assert_eq!(n.to_string(), *text);
    }
}

#[test]
fn parse_rest_with_articulations() {
    let n = Note::parse("12/16R_^").unwrap();
    assert_eq!(n.pitch, None);
    assert_eq!(n.duration, Fraction::new(12, 16));
    assert_eq!(n.articulation, vec![Articulation::Tenuto, Articulation::Marcato]);
}

#[test]
fn parse_keeps_fraction_as_written() {
    let n = Note::parse("2/4G9").unwrap();
    assert_eq!(n.duration, Fraction::new(2, 4));
    assert_eq!(n.to_string(), "2/4G9");
}

#[test]
fn parse_rejects_bad_text() {
    for text in [
        "", "1", "1/", "/4C4", "1/0C4", "1C4", "1/4H4", "1/4C", "1/4Cb", "1/4C4x", "1/4 C4",
        "4294967296/1R", "1/4294967296R", "a/4C4", "1/4R4",
    ]
    .iter()
    {
        assert!(Note::parse(text).is_none(), "{}", text);
    }
}

#[test]
fn parse_accepts_largest_numbers() {
    let n = Note::parse("4294967295/4294967295R").unwrap();
    assert_eq!(n.duration, Fraction::new(4294967295, 4294967295));
}

#[test]
fn note_round_trip() {
    let n = Note {
        pitch: Some(pitch(PitchName::B, Some(PitchAccidental::DoubleSharp), PitchOctave::Octave0)),
        duration: Fraction::new(7, 32),
        articulation: vec![Articulation::Marcato, Articulation::Staccato, Articulation::Tenuto],
    };
    assert_eq!(Note::parse(&n.to_string()), Some(n));
}

#[test]
fn note_setters() {
    let mut n = Note::parse("1/4C4").unwrap();
    n.set_pitch(pitch(PitchName::A, Some(PitchAccidental::Flat), PitchOctave::Octave5));
    n.set_duration(Fraction::new(3, 4));
    assert_eq!(n.to_string(), "3/4Ab5");
}

#[test]
fn from_str_for_note_and_marking() {
    let n: Note = "1/8D4".parse().unwrap();
    assert_eq!(n.to_string(), "1/8D4");
    let m: Result<Marking, ()> = "1/8D4".parse();
    match m {
        Ok(Marking::Note(n)) => assert_eq!(n.to_string(), "1/8D4"),
        _ => panic!("not a note"),
    }
    assert!("nope".parse::<Marking>().is_err());
}

#[test]
fn marking_parse() {
    match Marking::parse("1/1R") {
        Some(Marking::Note(n)) => assert_eq!(n.pitch, None),
        _ => panic!("not a note"),
    }
    assert!(Marking::parse("1/1").is_none());
}

#[test]
fn fraction_subtraction_is_reduced() {
    let a = Fraction::new(3, 4);
    let b = Fraction::new(1, 2);
    assert_eq!(a.sub(&b), Fraction::new(1, 4));
    assert_eq!(Fraction::new(1, 1).sub(&Fraction::new(1, 1)), Fraction::new(0, 1));
    assert_eq!(Fraction::new(2, 3).sub(&Fraction::new(1, 6)), Fraction::new(1, 2));
}

#[test]
fn fraction_sub_then_add_law() {
    // (a - b) + b == a for a = 5/6, b = 1/4: 7/12 + 1/4 = 10/12 = 5/6.
    let a = Fraction::new(5, 6);
    let b = Fraction::new(1, 4);
    let d = a.sub(&b);
    assert_eq!(d, Fraction::new(7, 12));
    let sum_num = d.num as u64 * b.den as u64 + b.num as u64 * d.den as u64;
    let sum_den = d.den as u64 * b.den as u64;
    assert_eq!(sum_num * a.den as u64, a.num as u64 * sum_den);
}

#[test]
fn fraction_comparisons() {
    let a = Fraction::new(1, 2);
    let b = Fraction::new(2, 4);
    let c = Fraction::new(3, 4);
    assert!(a.le(&b) && b.le(&a));
    assert!(!a.lt(&b));
    assert!(a.lt(&c));
    assert!(!c.le(&a));
    assert!(Fraction::new(0, 5).is_zero());
    assert!(!a.is_zero());
}
