//! Events of a note stream, as far as the analysis reads them.

use vstd::prelude::*;

verus! {

/// One event of a note stream. A note with velocity 0 turns the pitch off,
/// any other velocity turns it on. Every other kind of event is `Other`.
#[derive(Copy, Clone, Debug, PartialEq, Eq, Structural)]
pub enum Event {
    Note { pitch: u8, velocity: u8 },
    Other,
}

impl Event {
    /// A note event carries a pitch of at most 127.
    pub open spec fn valid(self) -> bool {
        self matches Event::Note { pitch, .. } ==> pitch < 128
    }

    /// Whether the event is a note event of pitch `p`.
    pub open spec fn has_pitch(self, p: u8) -> bool {
        self matches Event::Note { pitch, .. } && pitch == p
    }

    /// Whether the event turns a pitch on.
    pub open spec fn is_on(self) -> bool {
        self matches Event::Note { velocity, .. } && velocity > 0
    }

    /// Whether the event turns a pitch off.
    pub open spec fn is_off(self) -> bool {
        self matches Event::Note { velocity, .. } && velocity == 0
    }

    /// The set of sounding pitches after the event, given the set before it.
    pub open spec fn apply(self, sounding: Set<u8>) -> Set<u8> {
        match self {
            Event::Note { pitch, velocity } => if velocity > 0 {
                sounding.insert(pitch)
            } else {
                sounding.remove(pitch)
            },
            Event::Other => sounding,
        }
    }
}

} // verus!
