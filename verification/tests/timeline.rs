use music_analyzer_generator::{
    consolidated_note_rest_times, durations_notes_from, Event, PitchSequence,
};

fn on(pitch: u8, velocity: u8) -> Event {
    Event::Note { pitch, velocity }
}

fn off(pitch: u8) -> Event {
    Event::Note { pitch, velocity: 0 }
}

fn events_of(timeline: &PitchSequence) -> Vec<(u64, Event)> {
    (0..timeline.len())
        .map(|i| (timeline.time(i), timeline.event(i)))
        .collect()
}

fn ghostly_stream() -> Vec<(u64, Event)> {
    vec![
        (0, on(60, 50)),
        (2, on(61, 10)),
        (3, off(61)),
        (4, Event::Other),
        (6, on(62, 90)),
        (8, off(62)),
        (10, on(60, 20)),
        (20, off(60)),
        (21, on(64, 40)),
    ]
}

#[test]
fn timeline_records_the_pitches_after_each_event() {
    let events = vec![
        (0, on(60, 80)),
        (1, on(64, 80)),
        (1, Event::Other),
        (5, off(60)),
        (9, on(64, 30)),
        (9, off(64)),
    ];
    let timeline = PitchSequence::new(&events);
    assert_eq!(timeline.len(), 6);
    assert_eq!(events_of(&timeline), events);
    let snapshots: Vec<Vec<u8>> = (0..6).map(|i| timeline.active(i).iter()).collect();
    assert_eq!(
        snapshots,
        vec![vec![60], vec![60, 64], vec![60, 64], vec![64], vec![64], vec![]]
    );
    assert_eq!(PitchSequence::default().len(), 0);
    assert_eq!(PitchSequence::new(&Vec::new()).len(), 0);
}

#[test]
fn ghost_notes_go_with_their_note_offs() {
    let timeline = PitchSequence::new(&ghostly_stream());
    assert_eq!(timeline.retained_indices(5, 30), vec![0, 3, 6, 7, 8]);
    let filtered = timeline.without_notes_below(5, 30);
    assert_eq!(
        events_of(&filtered),
        vec![
            (0, on(60, 50)),
            (4, Event::Other),
            (10, on(60, 20)),
            (20, off(60)),
            (21, on(64, 40)),
        ]
    );
    let snapshots: Vec<Vec<u8>> = (0..5).map(|i| filtered.active(i).iter()).collect();
    assert_eq!(
        snapshots,
        vec![vec![60], vec![60], vec![60], vec![], vec![64]]
    );
}

#[test]
fn filtering_twice_is_filtering_once() {
    let timeline = PitchSequence::new(&ghostly_stream());
    for (min_duration, min_velocity) in [(5, 30), (0, 0), (3, 11), (100, 0), (0, 255), (2, 90)] {
        let once = timeline.without_notes_below(min_duration, min_velocity);
        let twice = once.without_notes_below(min_duration, min_velocity);
        assert_eq!(events_of(&twice), events_of(&once));
        assert_eq!(
            once.retained_indices(min_duration, min_velocity),
            (0..once.len()).collect::<Vec<usize>>()
        );
    }
}

#[test]
fn a_note_lasts_long_enough_at_exactly_the_least_duration() {
    let events = vec![(10, on(60, 30)), (15, off(60)), (20, on(61, 30)), (24, off(61))];
    let timeline = PitchSequence::new(&events);
    assert_eq!(timeline.retained_indices(5, 30), vec![0, 1]);
    assert_eq!(timeline.retained_indices(5, 31), Vec::<usize>::new());
    assert_eq!(timeline.retained_indices(4, 30), vec![0, 1, 2, 3]);
    assert_eq!(timeline.retained_indices(6, 30), Vec::<usize>::new());
}

#[test]
fn a_held_pitch_struck_again_stays() {
    let events = vec![
        (0, on(60, 100)),
        (50, on(60, 100)),
        (51, off(60)),
        (52, off(60)),
    ];
    let timeline = PitchSequence::new(&events);
    assert_eq!(timeline.retained_indices(10, 50), vec![0, 1, 2]);
}

#[test]
fn a_filter_may_drop_every_note() {
    let events = vec![(0, on(60, 10)), (1, off(60)), (2, on(62, 10)), (3, off(62))];
    let timeline = PitchSequence::new(&events);
    let filtered = timeline.without_notes_below(0, 11);
    assert_eq!(filtered.len(), 0);
    let all = timeline.without_notes_below(0, 0);
    assert_eq!(events_of(&all), events);
}

#[test]
fn segments_last_until_the_next_chord() {
    let events = vec![
        (0, on(60, 80)),
        (1, on(64, 80)),
        (2, on(67, 80)),
        (5, Event::Other),
        (7, off(67)),
        (9, on(69, 80)),
    ];
    let segments = PitchSequence::new(&events).chords_starts_durations();
    let shown: Vec<(String, u64, u64)> = segments
        .iter()
        .map(|(chord, start, duration)| (chord.to_string(), *start, *duration))
        .collect();
    assert_eq!(
        shown,
        vec![
            ("C  Major ([60, 64, 67])".to_string(), 2, 3),
            ("C  Major ([60, 64, 67])".to_string(), 5, 4),
            ("A  Minor ([60, 64, 69])".to_string(), 9, 4),
        ]
    );
}

#[test]
fn a_single_segment_lasts_as_long_as_it_took_to_start() {
    let events = vec![(3, on(60, 80)), (4, on(64, 80)), (6, on(67, 80)), (9, off(60))];
    let segments = PitchSequence::new(&events).chords_starts_durations();
    assert_eq!(segments.len(), 1);
    assert_eq!(segments[0].0.to_string(), "C  Major ([60, 64, 67])");
    assert_eq!(segments[0].1, 6);
    assert_eq!(segments[0].2, 6);
    let none = PitchSequence::new(&vec![(3, on(60, 80)), (4, on(64, 80))]);
    assert!(none.chords_starts_durations().is_empty());
}

#[test]
fn notes_and_rests_alternate() {
    let events = vec![
        (0, Event::Other),
        (0, on(60, 80)),
        (10, off(60)),
        (12, Event::Other),
        (15, on(62, 70)),
        (25, off(62)),
    ];
    let triples = durations_notes_from(&events);
    assert_eq!(
        triples,
        vec![(10, 60, 80), (5, 60, 0), (10, 62, 70), (0, 62, 0)]
    );
    assert_eq!(
        consolidated_note_rest_times(&triples),
        vec![(15, 60, 80), (10, 62, 70)]
    );
}

#[test]
fn overlapping_notes_get_a_rest_of_no_duration() {
    let events = vec![(0, on(60, 80)), (10, on(62, 70)), (12, off(60)), (20, off(62))];
    assert_eq!(
        durations_notes_from(&events),
        vec![(10, 60, 80), (0, 60, 0), (10, 62, 70), (0, 62, 0)]
    );
    let events = vec![(0, on(60, 80)), (10, on(62, 70)), (30, on(64, 60))];
    assert_eq!(
        durations_notes_from(&events),
        vec![(10, 60, 80), (0, 60, 0), (20, 62, 70), (0, 62, 0)]
    );
}

#[test]
fn streams_without_a_second_note_event_give_nothing() {
    assert!(durations_notes_from(&Vec::new()).is_empty());
    assert!(durations_notes_from(&vec![(5, Event::Other)]).is_empty());
    assert!(durations_notes_from(&vec![(5, on(60, 80)), (9, Event::Other)]).is_empty());
    assert!(consolidated_note_rest_times(&Vec::new()).is_empty());
}

#[test]
fn a_stream_that_ends_on_a_note_is_closed_by_a_rest() {
    let events = vec![(5, on(60, 80)), (9, off(60))];
    assert_eq!(durations_notes_from(&events), vec![(4, 60, 80), (0, 60, 0)]);
    let events = vec![(5, off(60)), (9, on(62, 80)), (11, off(62)), (12, off(60))];
    assert_eq!(
        durations_notes_from(&events),
        vec![(4, 60, 0), (2, 62, 80)]
    );
}
