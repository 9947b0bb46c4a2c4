use scof::{
    default_composer, default_symtime, Bar, Chan, Cursor, Fraction, Instrument, Marking, Meta,
    Movement, Note, Pitch, PitchClass, PitchName, PitchOctave, Scof, Sig, Style, Synth,
};

fn chan(notes: &[&str]) -> Chan {
    Chan { notes: notes.iter().map(|s| s.to_string()).collect(), lyric: vec![] }
}

fn bar(notes: &[&str]) -> Bar {
    Bar { sig: None, chan: vec![chan(notes)], repeat: vec![] }
}

fn score(bars: &[&[&str]]) -> Scof {
    let movement = Movement {
        sig: vec![Sig { key: 0, time: "4/4".to_string(), tempo: 120, swing: None }],
        bar: bars.iter().map(|b| bar(b)).collect(),
    };
    Scof::new(movement)
}

fn notes_of(s: &Scof, measure: usize) -> Vec<String> {
    s.movement[0].bar[measure].chan[0].notes.clone()
}

#[test]
fn cursor_basics() {
    let c = Cursor::new(1, 2, 3, 4);
    assert_eq!(c.first_marking(), Cursor::new(1, 2, 3, 0));
    assert!(!c.is_first_bar());
    assert!(Cursor::new(0, 0, 5, 5).is_first_bar());
    assert_eq!(Cursor::default(), Cursor::new(0, 0, 0, 0));
    let mut d = c;
    let e = d.right_unchecked();
    assert_eq!(d, Cursor::new(1, 2, 3, 5));
    assert_eq!(e, d);
}

#[test]
fn new_score_defaults() {
    let s = score(&[&["1/1R"]]);
    assert_eq!(s.title, "Untitled Score");
    assert!(s.cover.is_none());
    assert_eq!(s.meta, Meta::default());
    assert_eq!(s.style, Style::default());
    assert_eq!(s.synth, Synth::default());
    assert_eq!(s.soundfont, vec![Instrument::default()]);
    assert_eq!(s.movement.len(), 1);
    assert_eq!(s.cache, vec![vec![]]);
}

#[test]
fn default_signature() {
    let s = Sig::default();
    assert_eq!(s.key, 0);
    assert_eq!(s.time, "");
    assert_eq!(s.tempo, 120);
    assert_eq!(s.swing, Some(50));
}

#[test]
fn defaults_of_parts() {
    assert_eq!(default_composer(), "Anonymous");
    assert!(!default_symtime());
    let m = Meta::default();
    assert_eq!(m.composer, "Anonymous");
    assert!(m.arranger.is_empty() && m.movement.is_empty() && m.grade.is_none());
    let c = Chan::default();
    assert!(c.notes.is_empty() && c.lyric.is_empty());
}

#[test]
fn marking_len_counts_leading_notes() {
    let s = score(&[&["1/4C4", "1/4D4", "1/2R"], &["1/4C4", "bogus", "1/4D4"], &[]]);
    assert_eq!(s.marking_len(&Cursor::new(0, 0, 0, 7)), 3);
    assert_eq!(s.marking_len(&Cursor::new(0, 1, 0, 0)), 1);
    assert_eq!(s.marking_len(&Cursor::new(0, 2, 0, 0)), 0);
    assert_eq!(s.marking_len(&Cursor::new(0, 9, 0, 0)), 0);
    assert_eq!(s.marking_len(&Cursor::new(0, 0, 1, 0)), 0);
    assert_eq!(s.marking_len(&Cursor::new(1, 0, 0, 0)), 0);
}

#[test]
fn marking_and_note_lookup() {
    let s = score(&[&["1/4C4", "junk"]]);
    match s.marking(&Cursor::new(0, 0, 0, 0)) {
        Some(Marking::Note(n)) => assert_eq!(n.to_string(), "1/4C4"),
        _ => panic!("expected a note"),
    }
    assert!(s.marking(&Cursor::new(0, 0, 0, 1)).is_none());
    assert!(s.marking(&Cursor::new(0, 0, 0, 2)).is_none());
    assert_eq!(s.note(&Cursor::new(0, 0, 0, 0)).unwrap().duration, Fraction::new(1, 4));
    assert!(s.note(&Cursor::new(0, 1, 0, 0)).is_none());
}

#[test]
fn cursor_moves() {
    let s = score(&[&["1/4C4", "1/4D4"], &["1/2E4"]]);
    let mut c = Cursor::new(0, 0, 0, 0);
    assert!(!c.right_checked(&s));
    assert_eq!(c, Cursor::new(0, 0, 0, 1));
    assert!(c.right_checked(&s));
    assert_eq!(c, Cursor::new(0, 0, 0, 1));
    c.right(&s);
    assert_eq!(c, Cursor::new(0, 1, 0, 0));
    c.left(&s);
    assert_eq!(c, Cursor::new(0, 0, 0, 1));
    c.left(&s);
    assert_eq!(c, Cursor::new(0, 0, 0, 0));
    c.left(&s);
    assert_eq!(c, Cursor::new(0, 0, 0, 0));
}

#[test]
fn cursor_left_into_empty_measure() {
    let s = score(&[&[], &["1/2E4"]]);
    let mut c = Cursor::new(0, 1, 0, 0);
    c.left(&s);
    assert_eq!(c, Cursor::new(0, 0, 0, 0));
}

#[test]
fn cursor_left_undoes_right() {
    let s = score(&[&["1/4C4", "1/4D4", "1/2R"], &["1/1E4"]]);
    for m in 0..3 {
        let start = Cursor::new(0, 0, 0, m);
        let mut c = start;
        c.right(&s);
        c.left(&s);
        assert_eq!(c, start);
    }
}

#[test]
fn cursor_right_fix() {
    let s = score(&[&["1/4C4", "1/4D4"], &["1/2E4"]]);
    let mut c = Cursor::new(0, 0, 0, 1);
    assert!(!c.right_fix(&s));
    assert_eq!(c, Cursor::new(0, 0, 0, 1));
    let mut c = Cursor::new(0, 0, 0, 2);
    assert!(c.right_fix(&s));
    assert_eq!(c, Cursor::new(0, 1, 0, 0));
}

#[test]
fn new_measure_adds_empty_bar() {
    let mut movement = Movement { sig: vec![], bar: vec![bar(&["1/1C4"])] };
    movement.bar[0].chan.push(chan(&["1/1R"]));
    let mut s = Scof::new(movement);
    s.new_measure();
    assert_eq!(s.movement[0].bar.len(), 2);
    let b = &s.movement[0].bar[1];
    assert!(b.sig.is_none() && b.repeat.is_empty());
    assert_eq!(b.chan, vec![Chan::default(), Chan::default()]);
}

#[test]
fn new_measure_without_bars_does_nothing() {
    let mut s = Scof::new(Movement { sig: vec![], bar: vec![] });
    s.new_measure();
    assert!(s.movement[0].bar.is_empty());
}

#[test]
fn set_pitch_then_read() {
    let mut s = score(&[&["3/8C4.", "5/8R"]]);
    let c = Cursor::new(0, 0, 0, 0);
    let p = Pitch {
        class: PitchClass { name: PitchName::G, accidental: None },
        octave: PitchOctave::Octave5,
    };
    s.set_pitch(&c, p);
    assert_eq!(notes_of(&s, 0), vec!["3/8G5.", "5/8R"]);
    assert_eq!(s.note(&c).unwrap().pitch, Some(p));
    let c1 = Cursor::new(0, 0, 0, 1);
    s.set_pitch(&c1, p);
    assert_eq!(notes_of(&s, 0), vec!["3/8G5.", "5/8G5"]);
}

#[test]
fn set_empty_measure_fills_whole() {
    let mut s = score(&[&[]]);
    let c = Cursor::new(0, 0, 0, 0);
    s.set_empty_measure(&c, Note::parse("1/4C4>").unwrap());
    assert_eq!(notes_of(&s, 0), vec!["1/4C4>", "3/4R>"]);
}

#[test]
fn set_whole_pitch_pushes_c4() {
    let mut s = score(&[&[]]);
    s.set_whole_pitch(&Cursor::new(0, 0, 0, 0));
    assert_eq!(notes_of(&s, 0), vec!["1/1C4"]);
}

#[test]
fn set_whole_duration_writes_rests() {
    let mut s = score(&[&[]]);
    s.set_whole_duration(&Cursor::new(0, 0, 0, 0), Fraction::new(1, 1));
    assert_eq!(notes_of(&s, 0), vec!["1/1R", "0/1R"]);
    let mut s = score(&[&[]]);
    s.set_whole_duration(&Cursor::new(0, 0, 0, 0), Fraction::new(3, 8));
    assert_eq!(notes_of(&s, 0), vec!["3/8R", "5/8R"]);
}

#[test]
fn set_duration_shorter_inserts_rest() {
    let mut s = score(&[&["1/2C4", "1/2R"]]);
    s.set_duration(&Cursor::new(0, 0, 0, 0), Fraction::new(1, 4));
    assert_eq!(notes_of(&s, 0), vec!["1/4C4", "1/4R", "1/2R"]);
}

#[test]
fn set_duration_longer_takes_following_notes() {
    let mut s = score(&[&["1/4C4", "1/4D4", "1/2R"]]);
    s.set_duration(&Cursor::new(0, 0, 0, 0), Fraction::new(1, 2));
    assert_eq!(notes_of(&s, 0), vec!["1/2C4", "1/2R"]);
}

#[test]
fn set_duration_longer_shortens_next_note() {
    let mut s = score(&[&["1/4C4", "1/2D4", "1/4R"]]);
    s.set_duration(&Cursor::new(0, 0, 0, 0), Fraction::new(1, 2));
    assert_eq!(notes_of(&s, 0), vec!["1/2C4", "1/4D4", "1/4R"]);
}

#[test]
fn set_duration_same_length_rewrites_note() {
    let mut s = score(&[&["1/4C4", "3/4R"]]);
    s.set_duration(&Cursor::new(0, 0, 0, 0), Fraction::new(2, 8));
    assert_eq!(notes_of(&s, 0), vec!["2/8C4", "3/4R"]);
}

#[test]
fn set_duration_ties_into_next_measure() {
    let mut s = score(&[&["1/2C4", "1/2D4"], &["1/2E4", "1/2F4"]]);
    s.set_duration(&Cursor::new(0, 0, 0, 1), Fraction::new(1, 1));
    assert_eq!(notes_of(&s, 0), vec!["1/2C4", "1/1D4"]);
    assert_eq!(notes_of(&s, 1), vec!["1/2D4", "1/2F4"]);
}

#[test]
fn set_duration_adds_measure_when_next_is_empty() {
    let mut s = score(&[&["1/2C4", "1/2D4"], &[]]);
    s.set_duration(&Cursor::new(0, 0, 0, 1), Fraction::new(1, 1));
    assert_eq!(notes_of(&s, 0), vec!["1/2C4", "1/1D4"]);
    assert_eq!(notes_of(&s, 1), vec!["1/2D4", "1/2R", "0/1R"]);
    assert_eq!(s.movement[0].bar.len(), 3);
    assert!(notes_of(&s, 2).is_empty());
}

fn measure_total(s: &Scof, measure: usize) -> (u64, u64) {
    let mut num: u64 = 0;
    let mut den: u64 = 1;
    for t in notes_of(s, measure) {
        let d = Note::parse(&t).unwrap().duration;
        num = num * d.den as u64 + d.num as u64 * den;
        den *= d.den as u64;
    }
    (num, den)
}

#[test]
fn set_duration_keeps_measure_length() {
    let cases: [(&[&str], usize, (u32, u32)); 4] = [
        (&["1/4C4", "1/2D4", "1/4R"], 0, (1, 2)),
        (&["1/4C4", "1/4D4", "1/2R"], 0, (1, 2)),
        (&["1/2C4", "1/2R"], 0, (1, 4)),
        (&["1/8C4", "1/8D4", "3/4E4"], 1, (5, 8)),
    ];
    for (notes, at, (n, d)) in cases.iter() {
        let mut s = score(&[*notes]);
        let before = measure_total(&s, 0);
        s.set_duration(&Cursor::new(0, 0, 0, *at), Fraction::new(*n, *d));
        let after = measure_total(&s, 0);
        assert_eq!(before.0 * after.1, after.0 * before.1);
        assert_eq!(s.note(&Cursor::new(0, 0, 0, *at)).unwrap().duration, Fraction::new(*n, *d));
    }
}

#[test]
fn set_duration_across_bar_line_sets_duration() {
    let mut s = score(&[&["1/2C4"], &["1/2R", "1/2R"]]);
    let before = measure_total(&s, 1);
    let c = Cursor::new(0, 0, 0, 0);
    s.set_duration(&c, Fraction::new(1, 1));
    assert_eq!(s.note(&c).unwrap().duration, Fraction::new(1, 1));
    assert_eq!(notes_of(&s, 0), vec!["1/1C4"]);
    assert_eq!(notes_of(&s, 1), vec!["1/2C4", "1/2R"]);
    let after = measure_total(&s, 1);
    assert_eq!(before.0 * after.1, after.0 * before.1);
}

#[test]
fn set_duration_ties_over_several_markings() {
    let mut s = score(&[&["1/2C4", "1/2D4"], &["1/4E4", "1/4F4", "1/2G4"]]);
    let before = measure_total(&s, 1);
    let c = Cursor::new(0, 0, 0, 1);
    s.set_duration(&c, Fraction::new(1, 1));
    assert_eq!(s.note(&c).unwrap().duration, Fraction::new(1, 1));
    assert_eq!(notes_of(&s, 0), vec!["1/2C4", "1/1D4"]);
    assert_eq!(notes_of(&s, 1), vec!["1/4D4", "1/4D4", "1/2G4"]);
    let after = measure_total(&s, 1);
    assert_eq!(before.0 * after.1, after.0 * before.1);
}

#[test]
fn set_duration_tie_splits_longer_marking() {
    let mut s = score(&[&["1/2C4", "1/2D4"], &["3/4E4", "1/4F4"]]);
    let before = measure_total(&s, 1);
    s.set_duration(&Cursor::new(0, 0, 0, 1), Fraction::new(3, 4));
    assert_eq!(notes_of(&s, 0), vec!["1/2C4", "3/4D4"]);
    assert_eq!(notes_of(&s, 1), vec!["1/4D4", "1/2E4", "1/4F4"]);
    let after = measure_total(&s, 1);
    assert_eq!(before.0 * after.1, after.0 * before.1);
}

#[test]
fn set_duration_in_measure_takes_following_markings() {
    let mut s = score(&[&["1/4C4", "1/2D4", "1/4R"]]);
    let c = Cursor::new(0, 0, 0, 0);
    assert!(s.set_duration_in_measure(&c, Fraction::new(1, 2)));
    assert_eq!(notes_of(&s, 0), vec!["1/2C4", "1/4D4", "1/4R"]);
    assert_eq!(s.note(&c).unwrap().duration, Fraction::new(1, 2));
}

#[test]
fn set_duration_in_measure_shorter() {
    let mut s = score(&[&["1/2C4", "1/2R"]]);
    assert!(s.set_duration_in_measure(&Cursor::new(0, 0, 0, 0), Fraction::new(1, 4)));
    assert_eq!(notes_of(&s, 0), vec!["1/4C4", "1/4R", "1/2R"]);
}

#[test]
fn set_duration_in_measure_refuses_crossing_bar_line() {
    let mut s = score(&[&["1/2C4", "1/2D4"], &["1/2E4", "1/2F4"]]);
    assert!(!s.set_duration_in_measure(&Cursor::new(0, 0, 0, 1), Fraction::new(1, 1)));
    assert_eq!(notes_of(&s, 0), vec!["1/2C4", "1/2D4"]);
    assert_eq!(notes_of(&s, 1), vec!["1/2E4", "1/2F4"]);
}

#[test]
fn set_duration_in_measure_refuses_unreadable_marking() {
    let mut s = score(&[&["1/4C4", "?", "1/2R"]]);
    assert!(!s.set_duration_in_measure(&Cursor::new(0, 0, 0, 0), Fraction::new(1, 8)));
    assert_eq!(notes_of(&s, 0), vec!["1/4C4", "?", "1/2R"]);
}

#[test]
fn set_duration_in_measure_refuses_missing_marking() {
    let mut s = score(&[&["1/1C4"]]);
    assert!(!s.set_duration_in_measure(&Cursor::new(0, 0, 0, 3), Fraction::new(1, 2)));
    assert_eq!(notes_of(&s, 0), vec!["1/1C4"]);
}

#[test]
fn set_duration_in_measure_refuses_overflowing_difference() {
    let mut s = score(&[&["1/4294967295C4", "1/2R"]]);
    assert!(!s.set_duration_in_measure(&Cursor::new(0, 0, 0, 0), Fraction::new(1, 4294967294)));
    assert_eq!(notes_of(&s, 0), vec!["1/4294967295C4", "1/2R"]);
}
