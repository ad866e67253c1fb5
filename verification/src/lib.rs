//! Musical structure inferred from a time-ordered stream of note events:
//! sounding pitch sets, chord labels, scale tones, filtered timelines and
//! duration clusters.

pub mod active;
pub mod bits;
pub mod chord;
pub mod durations;
pub mod event;
pub mod filtering;
pub mod partition;
pub mod pitch;
pub mod scale;
pub mod text;
pub mod timeline;

pub use active::{ActivePitches, ReducedPitches};
pub use chord::{Chord, ChordMode, ChordName};
pub use durations::durations_notes_from;
pub use event::Event;
pub use partition::{
    consolidated_note_rest_times, duration_clusters, partitioned_melody, pm_help, ClosedInterval,
};
pub use pitch::{Accidental, NoteLetter, NoteName};
pub use scale::ScaleMode;
pub use timeline::PitchSequence;
