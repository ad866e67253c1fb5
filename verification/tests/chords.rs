use music_analyzer_generator::{
    Accidental, ActivePitches, Chord, ChordMode, ChordName, Event, NoteLetter, PitchSequence,
};

fn chord_notes(pitches: &[u8]) -> ActivePitches {
    let mut active = ActivePitches::default();
    for p in pitches {
        active.update_from(&Event::Note { pitch: *p, velocity: 64 });
    }
    active
}

fn label(pitches: &[u8]) -> Option<String> {
    ChordName::new(chord_notes(pitches)).map(|name| name.to_string())
}

/// The events that lead from one set of sounding pitches to the next: the
/// pitches that end are turned off, then the new ones are turned on. Where
/// nothing changes, an event that is no note stands in.
fn events_through(chords: &[Vec<u8>]) -> Vec<(u64, Event)> {
    let mut events = Vec::new();
    let mut time = 0;
    let mut current: Vec<u8> = Vec::new();
    for target in chords {
        if *target == current {
            time += 10;
            events.push((time, Event::Other));
        }
        for p in current.iter() {
            if !target.contains(p) {
                time += 10;
                events.push((time, Event::Note { pitch: *p, velocity: 0 }));
            }
        }
        for p in target.iter() {
            if !current.contains(p) {
                time += 10;
                events.push((time, Event::Note { pitch: *p, velocity: 80 }));
            }
        }
        current = target.clone();
    }
    events
}

#[test]
fn test_chord_id() {
    let expected = "A  Major ([61, 64, 69])
A  Major ([61, 64, 69])
B  Major ([59, 63, 66])
E♭ Minor ([58, 59, 63, 66])
B  Major ([59, 63, 66])
B  Major ([59, 63, 66])
B  Major ([59, 63, 66])
E  Major ([59, 64, 68])
E  Major ([59, 64, 68])
C♯ Minor ([61, 64, 68])
C♯ Minor ([61, 64, 68])
C♯ Minor ([61, 64, 68])
A  Major ([61, 64, 69])
A  Major ([61, 64, 69])
B  Major ([59, 63, 66])
B  Major ([59, 63, 66])
E  Major ([59, 64, 68])
E  Major ([59, 64, 68])
C♯ Minor ([61, 64, 68])
C♯ Minor ([61, 64, 68])
C♯ Minor ([61, 64, 68])
A  Major ([61, 64, 69])
A  Major ([61, 64, 69])
B  Major ([59, 63, 66])
B  Major ([59, 63, 66])
B  Major ([59, 63, 66])
E  Major ([59, 64, 68])
E  Major ([59, 64, 68])
C♯ Minor ([61, 64, 68])
C♯ Minor ([61, 64, 68])
C♯ Minor ([61, 64, 68])
A  Major ([57, 61, 64])
B  Major ([59, 63, 66])
E♭ Diminished ([57, 59, 63, 66])
B  Major ([59, 63, 66])
B  Major ([59, 63, 66])";
    let a = vec![61, 64, 69];
    let b = vec![59, 63, 66];
    let e = vec![59, 64, 68];
    let c_sharp = vec![61, 64, 68];
    let played = vec![
        a.clone(),
        a.clone(),
        b.clone(),
        vec![58, 59, 63, 66],
        b.clone(),
        b.clone(),
        b.clone(),
        e.clone(),
        e.clone(),
        c_sharp.clone(),
        c_sharp.clone(),
        c_sharp.clone(),
        a.clone(),
        a.clone(),
        b.clone(),
        b.clone(),
        e.clone(),
        e.clone(),
        c_sharp.clone(),
        c_sharp.clone(),
        c_sharp.clone(),
        a.clone(),
        a.clone(),
        b.clone(),
        b.clone(),
        b.clone(),
        e.clone(),
        e.clone(),
        c_sharp.clone(),
        c_sharp.clone(),
        c_sharp.clone(),
        vec![57, 61, 64],
        b.clone(),
        vec![57, 59, 63, 66],
        b.clone(),
        b.clone(),
    ];
    let events = events_through(&played);
    let chords = PitchSequence::new(&events).chords_starts_durations();
    assert_eq!(chords.len(), 36);
    for (i, chord_str) in expected.lines().enumerate() {
        assert_eq!(format!("{}", chords[i].0.to_string()), chord_str);
    }
}

#[test]
fn triads_are_named_by_their_stacked_thirds() {
    assert_eq!(label(&[60, 64, 67]), Some("C  Major".to_string()));
    assert_eq!(label(&[60, 63, 67]), Some("C  Minor".to_string()));
    assert_eq!(label(&[60, 63, 66]), Some("C  Diminished".to_string()));
    assert_eq!(label(&[60, 64, 68]), Some("C  Augmented".to_string()));
    assert_eq!(label(&[64, 67, 72]), Some("C  Major".to_string()));
    assert_eq!(label(&[0, 64, 127]), Some("C  Major".to_string()));
}

#[test]
fn roots_are_spelled_by_the_family_of_the_chord() {
    assert_eq!(label(&[61, 65, 68]), Some("D\u{266d} Major".to_string()));
    assert_eq!(label(&[61, 64, 68]), Some("C\u{266f} Minor".to_string()));
    assert_eq!(label(&[63, 67, 70]), Some("E\u{266d} Major".to_string()));
    assert_eq!(label(&[63, 66, 70]), Some("E\u{266d} Minor".to_string()));
    assert_eq!(label(&[66, 70, 73]), Some("F\u{266f} Major".to_string()));
    assert_eq!(label(&[66, 69, 73]), Some("F\u{266f} Minor".to_string()));
    assert_eq!(label(&[68, 72, 75]), Some("A\u{266d} Major".to_string()));
    assert_eq!(label(&[68, 71, 75]), Some("G\u{266f} Minor".to_string()));
    assert_eq!(label(&[70, 74, 77]), Some("B\u{266d} Major".to_string()));
    assert_eq!(label(&[70, 73, 77]), Some("B\u{266d} Minor".to_string()));
    assert_eq!(label(&[58, 59, 63, 66]), Some("E\u{266d} Minor".to_string()));
    assert_eq!(label(&[57, 59, 63, 66]), Some("E\u{266d} Diminished".to_string()));
}

#[test]
fn the_first_pair_of_thirds_gives_the_root() {
    assert_eq!(label(&[60, 63, 66, 69]), Some("C  Diminished".to_string()));
    assert_eq!(label(&[60, 64, 67, 71]), Some("C  Major".to_string()));
    assert_eq!(label(&[60, 62, 65, 69]), Some("D  Minor".to_string()));
}

#[test]
fn other_sets_form_no_chord() {
    assert_eq!(label(&[]), None);
    assert_eq!(label(&[60]), None);
    assert_eq!(label(&[60, 72, 84]), None);
    assert_eq!(label(&[60, 64]), None);
    assert_eq!(label(&[60, 63]), None);
    assert_eq!(label(&[60, 62, 64]), None);
    assert_eq!(label(&[60, 65, 67]), None);
    assert_eq!(label(&[60, 61, 62, 63, 64, 65, 66, 67, 68, 69, 70, 71]), None);
}

#[test]
fn labels_hold_root_and_quality() {
    let name = ChordName::new(chord_notes(&[49, 52, 56])).unwrap();
    assert_eq!(name.note, NoteLetter::C);
    assert_eq!(name.accidental, Accidental::Sharp);
    assert_eq!(name.mode, ChordMode::Minor);
}

#[test]
fn chords_print_their_pitches_in_order() {
    let notes = chord_notes(&[107, 4, 100, 16, 104]);
    let name = ChordName::new(notes).unwrap();
    let chord = Chord { name, notes };
    assert_eq!(chord.to_string(), "E  Major ([4, 16, 100, 104, 107])");
    let notes = chord_notes(&[0, 4, 7]);
    let chord = Chord { name: ChordName::new(notes).unwrap(), notes };
    assert_eq!(chord.to_string(), "C  Major ([0, 4, 7])");
    let notes = chord_notes(&[10, 99, 127, 19, 3]);
    let chord = Chord { name: ChordName::new(notes).unwrap(), notes };
    assert_eq!(chord.to_string(), "E\u{266d} Major ([3, 10, 19, 99, 127])");
}
