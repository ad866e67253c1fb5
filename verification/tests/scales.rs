use music_analyzer_generator::{Accidental, ChordMode, NoteLetter, NoteName, ScaleMode};

#[test]
fn test_ascending_scale() {
    let c_notes = ScaleMode::Major.notes_going_up(NoteName::new(NoteLetter::C, Accidental::Natural));
    assert_eq!(
        c_notes[..15],
        vec![0, 2, 4, 5, 7, 9, 11, 12, 14, 16, 17, 19, 21, 23, 24]
    );
}

#[test]
fn test_descending_scale() {
    let c_notes =
        ScaleMode::Major.notes_going_down(NoteName::new(NoteLetter::C, Accidental::Natural));
    assert_eq!(
        c_notes[..15],
        vec![120, 119, 117, 115, 113, 112, 110, 108, 107, 105, 103, 101, 100, 98, 96]
    );
}

#[test]
fn test_note_up() {
    let root1 = NoteName::new(NoteLetter::C, Accidental::Natural);
    let root2 = NoteName::new(NoteLetter::F, Accidental::Sharp);
    let root3 = NoteName::new(NoteLetter::B, Accidental::Flat);
    for (root, mode, current, interval, expected) in [
        (root1, ScaleMode::Major, 60, 3, 64),
        (root1, ScaleMode::Minor, 60, 3, 63),
        (root1, ScaleMode::Phrygian, 60, 2, 61),
        (root2, ScaleMode::MelodicMinor, 66, 1, 66),
        (root2, ScaleMode::MelodicMinor, 66, 6, 75),
        (root3, ScaleMode::MelodicMinor, 58, 7, 69),
    ] {
        assert_eq!(mode.note_up(root, current, interval).unwrap(), expected);
    }
}

#[test]
fn test_note_down() {
    let root1 = NoteName::new(NoteLetter::C, Accidental::Natural);
    let root2 = NoteName::new(NoteLetter::F, Accidental::Sharp);
    let root3 = NoteName::new(NoteLetter::B, Accidental::Flat);
    for (root, mode, current, interval, expected) in [
        (root1, ScaleMode::Major, 60, 3, 57),
        (root1, ScaleMode::Minor, 60, 3, 56),
        (root1, ScaleMode::Phrygian, 60, 2, 58),
        (root2, ScaleMode::MelodicMinor, 66, 2, 64),
        (root2, ScaleMode::MelodicMinor, 66, 3, 62),
        (root3, ScaleMode::MelodicMinor, 58, 7, 48),
    ] {
        assert_eq!(mode.note_down(root, current, interval).unwrap(), expected);
    }
}

#[test]
fn ascending_scale_ends_at_the_highest_pitch() {
    let c = NoteName::new(NoteLetter::C, Accidental::Natural);
    let notes = ScaleMode::Major.notes_going_up(c);
    assert_eq!(notes.len(), 75);
    assert_eq!(notes[notes.len() - 5..], vec![120, 122, 124, 125, 127]);
    for pair in notes.windows(2) {
        assert!(pair[0] < pair[1]);
    }
}

#[test]
fn descending_scale_ends_at_the_lowest_tone() {
    let c = NoteName::new(NoteLetter::C, Accidental::Natural);
    let notes = ScaleMode::Major.notes_going_down(c);
    assert_eq!(notes.len(), 71);
    assert_eq!(notes[notes.len() - 3..], vec![4, 2, 0]);
    assert_eq!(notes.last(), Some(&0));
    for pair in notes.windows(2) {
        assert!(pair[0] > pair[1]);
    }
    let d = NoteName::new(NoteLetter::D, Accidental::Natural);
    let notes = ScaleMode::Major.notes_going_down(d);
    assert_eq!(notes[0], 122);
    assert_eq!(notes[notes.len() - 3..], vec![4, 2, 1]);
}

#[test]
fn descending_scale_starts_in_the_highest_octave_that_holds_the_root() {
    let g = NoteName::new(NoteLetter::G, Accidental::Natural);
    let a_flat = NoteName::new(NoteLetter::A, Accidental::Flat);
    let b_sharp = NoteName::new(NoteLetter::B, Accidental::Sharp);
    assert_eq!(ScaleMode::Major.notes_going_down(g)[0], 127);
    assert_eq!(ScaleMode::Major.notes_going_down(a_flat)[0], 116);
    assert_eq!(ScaleMode::Major.notes_going_down(b_sharp)[0], 120);
}

#[test]
fn diatonic_modes_are_rotations_of_the_major_scale() {
    let c = NoteName::new(NoteLetter::C, Accidental::Natural);
    let first_octave = |mode: ScaleMode| mode.notes_going_up(c)[..8].to_vec();
    assert_eq!(first_octave(ScaleMode::Major), vec![0, 2, 4, 5, 7, 9, 11, 12]);
    assert_eq!(first_octave(ScaleMode::Dorian), vec![0, 2, 3, 5, 7, 9, 10, 12]);
    assert_eq!(first_octave(ScaleMode::Phrygian), vec![0, 1, 3, 5, 7, 8, 10, 12]);
    assert_eq!(first_octave(ScaleMode::Lydian), vec![0, 2, 4, 6, 7, 9, 11, 12]);
    assert_eq!(first_octave(ScaleMode::Mixolydian), vec![0, 2, 4, 5, 7, 9, 10, 12]);
    assert_eq!(first_octave(ScaleMode::Minor), vec![0, 2, 3, 5, 7, 8, 10, 12]);
    assert_eq!(first_octave(ScaleMode::Locrian), vec![0, 1, 3, 5, 6, 8, 10, 12]);
}

#[test]
fn other_modes_use_their_own_steps() {
    let c = NoteName::new(NoteLetter::C, Accidental::Natural);
    assert_eq!(
        ScaleMode::HarmonicMinor.notes_going_up(c)[..8],
        vec![0, 2, 3, 5, 7, 8, 11, 12]
    );
    assert_eq!(
        ScaleMode::MelodicMinor.notes_going_up(c)[..8],
        vec![0, 2, 3, 5, 7, 9, 11, 12]
    );
    assert_eq!(ScaleMode::WholeTone.notes_going_up(c)[..7], vec![0, 2, 4, 6, 8, 10, 12]);
    assert_eq!(
        ScaleMode::Diminished.notes_going_up(c)[..9],
        vec![0, 2, 3, 5, 6, 8, 9, 11, 12]
    );
    assert_eq!(ScaleMode::Augmented.notes_going_up(c)[..7], vec![0, 3, 4, 7, 8, 11, 12]);
}

#[test]
fn melodic_minor_descends_as_the_natural_minor() {
    let c = NoteName::new(NoteLetter::C, Accidental::Natural);
    assert_eq!(
        ScaleMode::MelodicMinor.notes_going_down(c)[..8],
        vec![120, 118, 116, 115, 113, 111, 110, 108]
    );
    assert_eq!(
        ScaleMode::Minor.notes_going_down(c)[..8],
        vec![120, 118, 116, 115, 113, 111, 110, 108]
    );
    assert_eq!(
        ScaleMode::HarmonicMinor.notes_going_down(c)[..8],
        vec![120, 119, 116, 115, 113, 111, 110, 108]
    );
}

#[test]
fn note_up_finds_no_tone_above_the_range() {
    let c = NoteName::new(NoteLetter::C, Accidental::Natural);
    assert_eq!(ScaleMode::Major.note_up(c, 126, 1), Some(127));
    assert_eq!(ScaleMode::Major.note_up(c, 127, 1), Some(127));
    assert_eq!(ScaleMode::Major.note_up(c, 127, 2), None);
    assert_eq!(ScaleMode::Major.note_up(c, 128, 1), None);
    assert_eq!(ScaleMode::Major.note_up(c, 0, 75), Some(127));
    assert_eq!(ScaleMode::Major.note_up(c, 0, 76), None);
    assert_eq!(ScaleMode::Major.note_up(c, 0, usize::MAX), None);
}

#[test]
fn note_down_finds_no_tone_below_the_range() {
    let c = NoteName::new(NoteLetter::C, Accidental::Natural);
    assert_eq!(ScaleMode::Major.note_down(c, 3, 1), Some(2));
    assert_eq!(ScaleMode::Major.note_down(c, 2, 1), Some(2));
    assert_eq!(ScaleMode::Major.note_down(c, 2, 2), Some(0));
    assert_eq!(ScaleMode::Major.note_down(c, 2, 3), None);
    assert_eq!(ScaleMode::Major.note_down(c, 1, 1), Some(0));
    assert_eq!(ScaleMode::Major.note_down(c, 0, 1), Some(0));
    assert_eq!(ScaleMode::Major.note_down(c, 0, 2), None);
    assert_eq!(ScaleMode::Major.note_down(c, 255, 1), Some(120));
    assert_eq!(ScaleMode::Major.note_down(c, 255, 71), Some(0));
    assert_eq!(ScaleMode::Major.note_down(c, 255, 72), None);
    assert_eq!(ScaleMode::Major.note_down(c, 255, usize::MAX), None);
    let d = NoteName::new(NoteLetter::D, Accidental::Natural);
    assert_eq!(ScaleMode::Major.note_down(d, 0, 1), None);
    assert_eq!(ScaleMode::Major.note_down(d, 1, 1), Some(1));
}

#[test]
fn chord_qualities_list_their_scales() {
    assert_eq!(
        ChordMode::Major.scales(),
        vec![ScaleMode::Major, ScaleMode::Lydian, ScaleMode::Mixolydian]
    );
    assert_eq!(
        ChordMode::Minor.scales(),
        vec![
            ScaleMode::Minor,
            ScaleMode::MelodicMinor,
            ScaleMode::HarmonicMinor,
            ScaleMode::Dorian,
            ScaleMode::Phrygian
        ]
    );
    assert_eq!(ChordMode::Diminished.scales(), vec![ScaleMode::Diminished]);
    assert_eq!(
        ChordMode::Augmented.scales(),
        vec![ScaleMode::Augmented, ScaleMode::WholeTone]
    );
}
