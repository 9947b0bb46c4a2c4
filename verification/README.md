# scof

A music score format with verified editing operations.

A score (`Scof`) holds movements; a movement holds bars; a bar holds one
channel per instrument; a channel holds its markings as short texts.  A
`Cursor` names a movement, a bar, a channel and a marking.

## Marking text

A note is written as duration, pitch and articulations: `1/4C4`, `3/8Eb5.`,
`1/1R`.

- duration: `<num>/<den>`, decimal, denominator not zero, both below 2^32;
- pitch: `R` for a rest, or `A`..`G`, an optional accidental (`bb`, `b`,
  `n`, `#`, `##`) and an octave digit;
- articulations: `.` staccato, `>` accent, `_` tenuto, `^` marcato.

## Layout

- `src/` — the library, verified with Verus:
  - `decimal.rs`: reading and writing decimal numbers;
  - `fraction.rs`: durations and their arithmetic;
  - `note.rs`: notes, their text, and the proof that reading a written note
    gives it back;
  - `model.rs`: the mathematical model of a score and of each edit;
  - `ratio.rs`: rational values for the total duration of markings;
  - `score.rs`: the score types, the cursor and the edits;
  - `laws.rs`: properties that span several operations.
- `app/` — MuON reading and writing through serde (copies of the stored
  types with serde's derives), and the default score built from the
  built-in default movement.
- `tests/` — tests of the library on concrete scores.
