//! Deterministic notes from integers: a value picks a note of a scale and an
//! octave of a range, and becomes a MIDI note number.

use vstd::arithmetic::div_mod::lemma_mod_pos_bound;
use vstd::prelude::*;

verus! {

/// A note of the chromatic scale, by its name.
#[derive(Debug, Clone, Copy, PartialEq, Eq, Structural)]
enum Note {
    C,
    Db,
    D,
    Eb,
    E,
    F,
    Gb,
    G,
    Ab,
    A,
    Bb,
    B,
}

/// Semitones from C up to a note.
spec fn semitone_of(note: Note) -> int {
    match note {
        Note::C => 0,
        Note::Db => 1,
        Note::D => 2,
        Note::Eb => 3,
        Note::E => 4,
        Note::F => 5,
        Note::Gb => 6,
        Note::G => 7,
        Note::Ab => 8,
        Note::A => 9,
        Note::Bb => 10,
        Note::B => 11,
    }
}

impl Note {
    /// Semitones from C up to this note.
    fn semitone(self) -> (r: u8)
        ensures
            r == semitone_of(self),
            r <= 11,
    {
        match self {
            Note::C => 0,
            Note::Db => 1,
            Note::D => 2,
            Note::Eb => 3,
            Note::E => 4,
            Note::F => 5,
            Note::Gb => 6,
            Note::G => 7,
            Note::Ab => 8,
            Note::A => 9,
            Note::Bb => 10,
            Note::B => 11,
        }
    }
}

/// The MIDI note that `value` is mapped to: the note of the scale at
/// `value % len`, raised by `(value / len) % octave_count` octaves above the
/// lowest octave of the range.
pub open spec fn midi_note_of(lowest: int, highest: int, scale: Seq<int>, value: int) -> int {
    let note_index = value % scale.len() as int;
    let octave_shift = (value / scale.len() as int) % (highest - lowest + 1);
    12 + scale[note_index] + (lowest + octave_shift) * 12
}

/// An inclusive range of octaves.
pub struct Range {
    lowest_octave: u8,
    highest_octave: u8,
}

impl Range {
    /// The lowest octave.
    pub closed spec fn low(&self) -> int {
        self.lowest_octave as int
    }

    /// The highest octave.
    pub closed spec fn high(&self) -> int {
        self.highest_octave as int
    }

    /// The octaves from `lowest_octave` up to `highest_octave`.
    pub fn new(lowest_octave: u8, highest_octave: u8) -> (r: Range)
        ensures
            r.low() == lowest_octave,
            r.high() == highest_octave,
    {
        Range { lowest_octave, highest_octave }
    }

    /// How many octaves the range holds.
    pub fn count(&self) -> (r: u32)
        requires
            self.low() <= self.high(),
        ensures
            r == self.high() - self.low() + 1,
    {
        (self.highest_octave - self.lowest_octave) as u32 + 1
    }
}

/// An ordered, non-empty set of notes.
pub struct Scale(Vec<Note>);

impl Scale {
    #[verifier::type_invariant]
    spec fn non_empty(&self) -> bool {
        self.0@.len() > 0
    }

    /// The notes of the scale, as semitones above C.
    pub closed spec fn semitones(&self) -> Seq<int> {
        Seq::new(self.0@.len(), |i: int| semitone_of(self.0@[i]))
    }

    /// The major pentatonic scale: C, D, E, G, A.
    pub fn pentatonic() -> (r: Scale)
        ensures
            r.semitones() == seq![0int, 2, 4, 7, 9],
    {
        let r = Scale(vec![Note::C, Note::D, Note::E, Note::G, Note::A]);
        assert(r.semitones() =~= seq![0int, 2, 4, 7, 9]);
        r
    }

    /// How many notes the scale holds.
    pub fn len(&self) -> (r: usize)
        ensures
            r == self.semitones().len(),
            r > 0,
    {
        proof {
            use_type_invariant(self);
        }
        self.0.len()
    }
}

/// Maps integers to notes of a scale over a range of octaves.
pub struct NoteGenerator {
    range: Range,
    scale: Scale,
}

impl NoteGenerator {
    /// The range of octaves.
    pub closed spec fn range(&self) -> &Range {
        &self.range
    }

    /// The scale.
    pub closed spec fn scale(&self) -> &Scale {
        &self.scale
    }

    /// The MIDI note that `value` is mapped to by this generator.
    pub open spec fn note_for(&self, value: int) -> int {
        midi_note_of(self.range().low(), self.range().high(), self.scale().semitones(), value)
    }

    /// A generator over `range` and `scale`.
    pub fn new(range: Range, scale: Scale) -> (r: NoteGenerator)
        ensures
            r.range() == range,
            r.scale() == scale,
    {
        NoteGenerator { range, scale }
    }

    /// Replaces the range.
    pub fn set_range(&mut self, range: Range)
        ensures
            final(self).range() == range,
            final(self).scale() == old(self).scale(),
    {
        self.range = range;
    }

    /// Replaces the scale.
    pub fn set_scale(&mut self, scale: Scale)
        ensures
            final(self).range() == old(self).range(),
            final(self).scale() == scale,
    {
        self.scale = scale;
    }

    /// The note number for `value`, before it is narrowed to a byte.
    fn note_number(&self, value: u32) -> (r: u32)
        requires
            self.range().low() <= self.range().high(),
        ensures
            r == self.note_for(value as int),
    {
        let divisor = self.scale.len();
        let note_index = value as usize % divisor;
        proof {
            use_type_invariant(&self.scale);
            lemma_mod_pos_bound(value as int, divisor as int);
        }
        let base = self.scale.0[note_index].semitone();
        let count = self.range.count();
        let octave_shift = (value as usize / divisor) % (count as usize);
        proof {
            lemma_mod_pos_bound(value as int / divisor as int, count as int);
        }
        12 + base as u32 + (self.range.lowest_octave as u32 + octave_shift as u32) * 12
    }

    /// The MIDI note for `value`: the same value always gives the same note.
    pub fn midi_note_from_value(&self, value: u32) -> (r: u8)
        requires
            self.range().low() <= self.range().high(),
            self.note_for(value as int) <= u8::MAX,
        ensures
            r == self.note_for(value as int),
    {
        self.note_number(value) as u8
    }

    /// The MIDI note for `value`, or `None` when the range is reversed or the
    /// note lies above the largest MIDI number a byte holds.
    pub fn checked_midi_note_from_value(&self, value: u32) -> (r: Option<u8>)
        ensures
            self.range().low() <= self.range().high() && self.note_for(value as int) <= u8::MAX
                ==> r == Some(self.note_for(value as int) as u8),
            !(self.range().low() <= self.range().high() && self.note_for(value as int)
                <= u8::MAX) ==> r is None,
    {
        if self.range.lowest_octave > self.range.highest_octave {
            return None;
        }
        let note = self.note_number(value);
        if note > 255 {
            None
        } else {
            Some(note as u8)
        }
    }
}

/// A failure of the audio platform while a note was being played.
#[derive(Debug, Clone, Copy, PartialEq, Eq, Structural)]
pub enum SoundError {
    WasmError,
}

impl SoundError {
    /// A short description of the error.
    pub fn message(&self) -> (r: &'static str)
        ensures
            r@ == "WASM error"@,
    {
        "WASM error"
    }
}

} // verus!
