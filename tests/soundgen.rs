use conway_sound::{NoteGenerator, Range, Scale, SoundError};

#[test]
fn note_generation_single_octave_pentatonic() {
    let notegen = NoteGenerator::new(Range::new(1, 1), Scale::pentatonic());

    assert_eq!(notegen.midi_note_from_value(0), 24);
    assert_eq!(notegen.midi_note_from_value(1), 26);
    assert_eq!(notegen.midi_note_from_value(2), 28);
    assert_eq!(notegen.midi_note_from_value(3), 31);
    assert_eq!(notegen.midi_note_from_value(4), 33);
    assert_eq!(notegen.midi_note_from_value(5), 24);
}

#[test]
fn note_generation_three_octave_pentatonic() {
    let notegen = NoteGenerator::new(Range::new(2, 4), Scale::pentatonic());

    assert_eq!(notegen.midi_note_from_value(1), 38);
    assert_eq!(notegen.midi_note_from_value(2), 40);
    assert_eq!(notegen.midi_note_from_value(3), 43);
    assert_eq!(notegen.midi_note_from_value(4), 45);
    assert_eq!(notegen.midi_note_from_value(5), 48);
    assert_eq!(notegen.midi_note_from_value(8), 55);
    assert_eq!(notegen.midi_note_from_value(13), 67);
    assert_eq!(notegen.midi_note_from_value(18), 43);
}

#[test]
fn ranges_and_scales_have_sizes() {
    assert_eq!(Range::new(3, 7).count(), 5);
    assert_eq!(Range::new(0, 255).count(), 256);
    assert_eq!(Scale::pentatonic().len(), 5);
}

#[test]
fn largest_value_wraps_around_scale_and_range() {
    let notegen = NoteGenerator::new(Range::new(3, 7), Scale::pentatonic());
    // u32::MAX = 5 * 858993459 + 0, and 858993459 % 5 = 4
    assert_eq!(notegen.midi_note_from_value(u32::MAX), 12 + 0 + (3 + 4) * 12);
}

#[test]
fn replaced_range_and_scale_take_effect() {
    let mut notegen = NoteGenerator::new(Range::new(1, 1), Scale::pentatonic());
    notegen.set_range(Range::new(5, 5));
    assert_eq!(notegen.midi_note_from_value(3), 12 + 7 + 60);
    notegen.set_scale(Scale::pentatonic());
    assert_eq!(notegen.midi_note_from_value(6), 12 + 2 + 60);
}

#[test]
fn checked_notes_reject_what_a_byte_cannot_hold() {
    let reversed = NoteGenerator::new(Range::new(4, 2), Scale::pentatonic());
    assert_eq!(reversed.checked_midi_note_from_value(0), None);
    let high = NoteGenerator::new(Range::new(19, 20), Scale::pentatonic());
    // octave 19: 12 + 9 + 228 = 249 fits; octave 20: 12 + 0 + 240 = 252 fits,
    // 12 + 7 + 240 = 259 does not
    assert_eq!(high.checked_midi_note_from_value(4), Some(249));
    assert_eq!(high.checked_midi_note_from_value(5), Some(252));
    assert_eq!(high.checked_midi_note_from_value(8), None);
    let low = NoteGenerator::new(Range::new(2, 4), Scale::pentatonic());
    assert_eq!(low.checked_midi_note_from_value(13), Some(67));
}

#[test]
fn sound_error_describes_itself() {
    assert_eq!(SoundError::WasmError.message(), "WASM error");
}
