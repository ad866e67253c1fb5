use music_analyzer_generator::{
    Accidental, ActivePitches, Event, NoteLetter, NoteName, ReducedPitches,
};
use rand::Rng;
use std::collections::BTreeSet;

fn sounding(pitches: &[u8]) -> ActivePitches {
    let mut active = ActivePitches::default();
    for p in pitches {
        active.update_from(&Event::Note { pitch: *p, velocity: 64 });
    }
    active
}

#[test]
fn test_active_pitches() {
    let mut rng = rand::thread_rng();
    let mut active = ActivePitches::default();
    let mut active_tester = BTreeSet::new();
    for _ in 0..100 {
        if active.len() == 0 || rng.gen_bool(0.5) {
            let note = rng.gen_range(0..=127);
            let already = active.is_active(note);
            let msg = Event::Note { pitch: note, velocity: 1 };
            let prev_len = active.len();
            active.update_from(&msg);
            assert!(
                already && active.len() == prev_len || !already && active.len() == prev_len + 1
            );
            assert!(active.is_active(note));
            active_tester.insert(note);
        } else {
            let pitches = active.iter();
            let remove = pitches[rng.gen_range(0..pitches.len())];
            let msg = Event::Note { pitch: remove, velocity: 0 };
            let prev_len = active.len();
            active.update_from(&msg);
            assert!(!active.is_active(remove));
            assert_eq!(prev_len - 1, active.len());
            active_tester.remove(&remove);
        }
        let comp = active_tester.iter().copied().collect::<Vec<_>>();
        assert_eq!(comp, active.iter());
    }
}

#[test]
fn count_follows_each_event() {
    let mut active = ActivePitches::default();
    assert_eq!(active.len(), 0);
    active.update_from(&Event::Note { pitch: 60, velocity: 90 });
    assert_eq!(active.len(), 1);
    active.update_from(&Event::Note { pitch: 60, velocity: 30 });
    assert_eq!(active.len(), 1);
    active.update_from(&Event::Note { pitch: 0, velocity: 1 });
    active.update_from(&Event::Note { pitch: 127, velocity: 255 });
    assert_eq!(active.len(), 3);
    assert_eq!(active.iter(), vec![0, 60, 127]);
    active.update_from(&Event::Other);
    assert_eq!(active.len(), 3);
    active.update_from(&Event::Note { pitch: 61, velocity: 0 });
    assert_eq!(active.len(), 3);
    active.update_from(&Event::Note { pitch: 60, velocity: 0 });
    assert_eq!(active.len(), 2);
    assert!(!active.is_active(60));
    assert!(active.is_active(0));
    assert!(active.is_active(127));
    assert_eq!(active.iter(), vec![0, 127]);
}

#[test]
fn all_pitches_can_sound_at_once() {
    let mut active = ActivePitches::default();
    for p in 0..128 {
        active.update_from(&Event::Note { pitch: p, velocity: 1 });
    }
    assert_eq!(active.len(), 128);
    assert_eq!(active.iter(), (0..128).collect::<Vec<u8>>());
}

#[test]
fn pitch_classes_ignore_the_octave() {
    let reduced = ReducedPitches::new(sounding(&[72, 60, 64, 67, 79]));
    assert_eq!(reduced.iter(), vec![0, 4, 7]);
    let (pitches, diffs) = reduced.pitches_diffs();
    assert_eq!(pitches, vec![0, 4, 7]);
    assert_eq!(diffs, vec![4, 3, 5]);
}

#[test]
fn gaps_wrap_past_the_octave() {
    let (pitches, diffs) = ReducedPitches::new(sounding(&[58, 59, 63, 66])).pitches_diffs();
    assert_eq!(pitches, vec![3, 6, 10, 11]);
    assert_eq!(diffs, vec![3, 4, 1, 4]);
    let (pitches, diffs) = ReducedPitches::new(sounding(&[61])).pitches_diffs();
    assert_eq!(pitches, vec![1]);
    assert_eq!(diffs, vec![12]);
    let (pitches, diffs) = ReducedPitches::new(sounding(&[0, 11])).pitches_diffs();
    assert_eq!(pitches, vec![0, 11]);
    assert_eq!(diffs, vec![11, 1]);
    let (pitches, diffs) = ReducedPitches::new(ActivePitches::default()).pitches_diffs();
    assert!(pitches.is_empty());
    assert!(diffs.is_empty());
}

#[test]
fn letters_form_a_cycle() {
    let letters = [
        NoteLetter::C,
        NoteLetter::D,
        NoteLetter::E,
        NoteLetter::F,
        NoteLetter::G,
        NoteLetter::A,
        NoteLetter::B,
    ];
    for i in 0..7 {
        assert_eq!(letters[i].next(), letters[(i + 1) % 7]);
        assert_eq!(letters[(i + 1) % 7].prev(), letters[i]);
        assert_eq!(letters[i].next().prev(), letters[i]);
    }
    let naturals: Vec<u8> = letters.iter().map(|l| l.natural_pitch()).collect();
    assert_eq!(naturals, vec![0, 2, 4, 5, 7, 9, 11]);
}

#[test]
fn accidentals_shift_without_wrapping() {
    assert_eq!(Accidental::Flat.pitch_shift(0), None);
    assert_eq!(Accidental::Flat.pitch_shift(1), Some(0));
    assert_eq!(Accidental::Flat.pitch_shift(255), Some(254));
    assert_eq!(Accidental::Natural.pitch_shift(0), Some(0));
    assert_eq!(Accidental::Natural.pitch_shift(255), Some(255));
    assert_eq!(Accidental::Sharp.pitch_shift(255), None);
    assert_eq!(Accidental::Sharp.pitch_shift(254), Some(255));
    assert_eq!(Accidental::Sharp.pitch_shift(0), Some(1));
    assert_eq!(Accidental::Flat.symbol(), '\u{266d}');
    assert_eq!(Accidental::Natural.symbol(), ' ');
    assert_eq!(Accidental::Sharp.symbol(), '\u{266f}');
}

#[test]
fn names_resolve_to_their_pitch() {
    let expected = [
        "C ", "D\u{266d}", "D ", "E\u{266d}", "E ", "F ", "F\u{266f}", "G ", "A\u{266d}", "A ",
        "B\u{266d}", "B ",
    ];
    for pitch in 0..=255u8 {
        let name = NoteName::name_of(pitch);
        assert_eq!(name.lowest_midi_note(), pitch % 12);
        assert_eq!(name.to_string(), expected[(pitch % 12) as usize]);
    }
    assert_eq!(NoteName::new(NoteLetter::B, Accidental::Sharp).lowest_midi_note(), 12);
    assert_eq!(NoteName::new(NoteLetter::F, Accidental::Flat).lowest_midi_note(), 4);
    let c_sharp = NoteName::new(NoteLetter::C, Accidental::Sharp);
    assert_eq!(c_sharp.letter(), NoteLetter::C);
    assert_eq!(c_sharp.modifier(), Accidental::Sharp);
    assert_eq!(c_sharp.lowest_midi_note(), 1);
}
