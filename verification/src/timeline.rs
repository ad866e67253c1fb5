//! A note stream replayed into a timeline of sounding pitches, and what is
//! read off it: chord segments and the stream without its ghost notes.
//!
//! Times and durations are whole numbers of ticks; the length of a tick is
//! the caller's choice.

use vstd::prelude::*;
use crate::active::ActivePitches;
use crate::chord::{chord_of, Chord, ChordName};
use crate::event::Event;
use crate::filtering::lemma_filter_idempotent;

verus! {

/// Every note event carries a pitch of at most 127.
pub open spec fn all_valid(events: Seq<(u64, Event)>) -> bool {
    forall|i: int| 0 <= i < events.len() ==> (#[trigger] events[i]).1.valid()
}

/// No event comes before the event in front of it.
pub open spec fn time_ordered(events: Seq<(u64, Event)>) -> bool {
    forall|i: int, j: int| 0 <= i <= j < events.len() ==> events[i].0 <= events[j].0
}

/// The pitches that sound after the first `n` events.
pub open spec fn sounding_after(events: Seq<(u64, Event)>, n: nat) -> Set<u8>
    decreases n,
{
    if n == 0 {
        Set::empty()
    } else {
        events[n - 1].1.apply(sounding_after(events, (n - 1) as nat))
    }
}

/// The first note event of pitch `p` at or behind index `from`.
pub open spec fn next_with_pitch(events: Seq<(u64, Event)>, from: int, p: u8) -> Option<int>
    decreases events.len() - from,
{
    if from < 0 || from >= events.len() {
        None
    } else if events[from].1.has_pitch(p) {
        Some(from)
    } else {
        next_with_pitch(events, from + 1, p)
    }
}

/// The event that turns the note of event `i` off: the next note event of
/// the same pitch, where that is a note-off. There is none where the pitch
/// is never named again, or is turned on again first.
pub open spec fn next_off(events: Seq<(u64, Event)>, i: int) -> Option<int> {
    match events[i].1 {
        Event::Note { pitch, .. } => match next_with_pitch(events, i + 1, pitch) {
            Some(j) => if events[j].1.is_off() {
                Some(j)
            } else {
                None
            },
            None => None,
        },
        Event::Other => None,
    }
}

/// Whether the note of event `i` lasts `min_duration` or longer. A note
/// that is never turned off lasts long enough.
pub open spec fn held_long_enough(events: Seq<(u64, Event)>, i: int, min_duration: u64) -> bool {
    match next_off(events, i) {
        Some(j) => events[j].0 - events[i].0 >= min_duration,
        None => true,
    }
}

/// Whether event `i` stays in the stream, where `sounding` are the pitches
/// that sound in the filtered stream before it. Events that are no notes
/// stay. A note event on a sounding pitch stays: a note-on there strikes a
/// held pitch again, a note-off ends a note that stayed. A note-on of a
/// silent pitch stays where it is loud enough and lasts long enough. A
/// note-off of a silent pitch goes.
pub open spec fn keeps(
    events: Seq<(u64, Event)>,
    i: int,
    sounding: Set<u8>,
    min_duration: u64,
    min_velocity: u8,
) -> bool {
    match events[i].1 {
        Event::Other => true,
        Event::Note { pitch, velocity } => sounding.contains(pitch) || (velocity > 0 && velocity
            >= min_velocity && held_long_enough(events, i, min_duration)),
    }
}

/// The pitches that sound in the filtered stream after the first `n` events
/// were filtered.
pub open spec fn sounding_kept(
    events: Seq<(u64, Event)>,
    min_duration: u64,
    min_velocity: u8,
    n: nat,
) -> Set<u8>
    decreases n,
{
    if n == 0 {
        Set::empty()
    } else {
        let before = sounding_kept(events, min_duration, min_velocity, (n - 1) as nat);
        if keeps(events, n - 1, before, min_duration, min_velocity) {
            events[n - 1].1.apply(before)
        } else {
            before
        }
    }
}

/// The indices of those of the first `n` events that stay, in order.
pub open spec fn retained(
    events: Seq<(u64, Event)>,
    min_duration: u64,
    min_velocity: u8,
    n: nat,
) -> Seq<usize>
    decreases n,
{
    if n == 0 {
        Seq::empty()
    } else {
        let before = retained(events, min_duration, min_velocity, (n - 1) as nat);
        if keeps(
            events,
            n - 1,
            sounding_kept(events, min_duration, min_velocity, (n - 1) as nat),
            min_duration,
            min_velocity,
        ) {
            before.push((n - 1) as usize)
        } else {
            before
        }
    }
}

/// The events at the given indices.
pub open spec fn picked(events: Seq<(u64, Event)>, indices: Seq<usize>) -> Seq<(u64, Event)> {
    Seq::new(indices.len(), |k: int| events[indices[k] as int])
}

/// The stream without its ghost notes: the events that stay.
pub open spec fn filtered(events: Seq<(u64, Event)>, min_duration: u64, min_velocity: u8) -> Seq<
    (u64, Event),
> {
    picked(events, retained(events, min_duration, min_velocity, events.len()))
}

/// The indices of those of the first `n` events after which a chord sounds.
pub open spec fn chord_entries(events: Seq<(u64, Event)>, n: nat) -> Seq<usize>
    decreases n,
{
    if n == 0 {
        Seq::empty()
    } else {
        let before = chord_entries(events, (n - 1) as nat);
        if chord_of(sounding_after(events, n)) is Some {
            before.push((n - 1) as usize)
        } else {
            before
        }
    }
}

/// The duration of segment `k`, where segment `j` starts with event
/// `starts[j]`. A segment lasts until the next one starts. The last segment
/// has no end: it is given the time from the start of the segment before it
/// to its own start, and its own start time where it is the only one.
pub open spec fn segment_duration(events: Seq<(u64, Event)>, starts: Seq<usize>, k: int) -> int {
    if k + 1 < starts.len() {
        events[starts[k + 1] as int].0 - events[starts[k] as int].0
    } else if k > 0 {
        events[starts[k] as int].0 - events[starts[k - 1] as int].0
    } else {
        events[starts[k] as int].0 as int
    }
}

/// Whether `chord` is the chord that sounds after event `i`, and `time` is
/// that event's time.
pub open spec fn is_chord_at(events: Seq<(u64, Event)>, i: usize, chord: Chord, time: u64) -> bool {
    &&& chord_of(sounding_after(events, (i + 1) as nat)) == Some(chord.name)
    &&& chord.notes@ == sounding_after(events, (i + 1) as nat)
    &&& time == events[i as int].0
}

/// Whether `pending` is the segment that the last of `starts` opened, if
/// there is one.
pub open spec fn opens_last(
    events: Seq<(u64, Event)>,
    starts: Seq<usize>,
    pending: Option<(Chord, u64)>,
) -> bool {
    match pending {
        Some((chord, time)) => starts.len() > 0 && is_chord_at(events, starts.last(), chord, time),
        None => starts.len() == 0,
    }
}

/// Whether `segment` is segment `k`, where segment `j` starts with event
/// `starts[j]`: its chord sounds after that event, it starts at that
/// event's time, and it lasts as `segment_duration` says.
pub open spec fn starts_segment(
    events: Seq<(u64, Event)>,
    starts: Seq<usize>,
    k: int,
    segment: (Chord, u64, u64),
) -> bool {
    &&& is_chord_at(events, starts[k], segment.0, segment.1)
    &&& segment.2 == segment_duration(events, starts, k)
}

/// The indices listed by `retained` and by `chord_entries` are below `n`
/// and strictly increasing.
pub proof fn lemma_indices_increase(
    events: Seq<(u64, Event)>,
    min_duration: u64,
    min_velocity: u8,
    n: nat,
)
    requires
        n <= usize::MAX,
    ensures
        retained(events, min_duration, min_velocity, n).len() <= n,
        forall|k: int|
            0 <= k < retained(events, min_duration, min_velocity, n).len() ==> (#[trigger] retained(
                events,
                min_duration,
                min_velocity,
                n,
            )[k]) < n,
        forall|k: int, l: int|
            0 <= k < l < retained(events, min_duration, min_velocity, n).len() ==> retained(
                events,
                min_duration,
                min_velocity,
                n,
            )[k] < retained(events, min_duration, min_velocity, n)[l],
        chord_entries(events, n).len() <= n,
        forall|k: int|
            0 <= k < chord_entries(events, n).len() ==> (#[trigger] chord_entries(events, n)[k])
                < n,
        forall|k: int, l: int|
            0 <= k < l < chord_entries(events, n).len() ==> chord_entries(events, n)[k]
                < chord_entries(events, n)[l],
    decreases n,
{
    if n > 0 {
        lemma_indices_increase(events, min_duration, min_velocity, (n - 1) as nat);
    }
}

/// A timeline: the events of a stream in order, each with its time and with
/// the pitches that sound after it.
#[derive(Clone)]
pub struct PitchSequence {
    seq: Vec<(u64, Event, ActivePitches)>,
}

impl View for PitchSequence {
    type V = Seq<(u64, Event)>;

    closed spec fn view(&self) -> Seq<(u64, Event)> {
        Seq::new(self.seq@.len(), |i: int| (self.seq@[i].0, self.seq@[i].1))
    }
}

impl Default for PitchSequence {
    /// The timeline of no events.
    fn default() -> (r: Self)
        ensures
            r.wf(),
            r@ == Seq::<(u64, Event)>::empty(),
    {
        let r = Self { seq: Vec::new() };
        assert(r@ =~= Seq::<(u64, Event)>::empty());
        r
    }
}

impl PitchSequence {
    /// The pitches recorded with entry `i`.
    pub closed spec fn snapshot(&self, i: int) -> Set<u8> {
        self.seq@[i].2@
    }

    /// The events are valid and ordered by time, and each entry records the
    /// pitches that sound after its event.
    pub closed spec fn wf(&self) -> bool {
        &&& all_valid(self@)
        &&& time_ordered(self@)
        &&& forall|i: int|
            0 <= i < self.seq@.len() ==> (#[trigger] self.seq@[i]).2@ == sounding_after(
                self@,
                (i + 1) as nat,
            )
    }

    /// What a well-formed timeline holds.
    pub proof fn lemma_wf(&self)
        requires
            self.wf(),
        ensures
            all_valid(self@),
            time_ordered(self@),
            forall|i: int|
                0 <= i < self@.len() ==> #[trigger] self.snapshot(i) == sounding_after(
                    self@,
                    (i + 1) as nat,
                ),
    {
    }

    /// The timeline of a stream of events, given in order of time.
    pub fn new(events: &Vec<(u64, Event)>) -> (r: Self)
        requires
            all_valid(events@),
            time_ordered(events@),
        ensures
            r.wf(),
            r@ == events@,
    {
        let mut current = ActivePitches::default();
        let mut result = Self::default();
        let mut i: usize = 0;
        while i < events.len()
            invariant
                i <= events.len(),
                all_valid(events@),
                time_ordered(events@),
                result.wf(),
                result@ == events@.take(i as int),
                current@ == sounding_after(result@, i as nat),
            decreases events.len() - i,
        {
            let (time, event) = events[i];
            proof {
                if i > 0 {
                    assert(result@[i - 1] == events@[i - 1]);
                }
            }
            result.push(time, event, &mut current);
            i = i + 1;
            assert(result@ =~= events@.take(i as int));
        }
        assert(result@ =~= events@);
        result
    }

    /// Appends an event and records the pitches that sound after it.
    fn push(&mut self, time: u64, event: Event, current: &mut ActivePitches)
        requires
            old(self).wf(),
            event.valid(),
            old(self)@.len() > 0 ==> old(self)@.last().0 <= time,
            old(current)@ == sounding_after(old(self)@, old(self)@.len()),
        ensures
            final(self).wf(),
            final(self)@ == old(self)@.push((time, event)),
            final(current)@ == event.apply(old(current)@),
            final(current)@ == sounding_after(final(self)@, final(self)@.len()),
    {
        current.update_from(&event);
        self.seq.push((time, event, *current));
        proof {
            let before = old(self)@;
            let after = self@;
            assert(after =~= before.push((time, event)));
            lemma_sounding_after_prefix(before, after, before.len());
            assert forall|i: int| 0 <= i < self.seq@.len() implies (#[trigger] self.seq@[i]).2@
                == sounding_after(after, (i + 1) as nat) by {
                if i < before.len() {
                    assert(self.seq@[i] == old(self).seq@[i]);
                    lemma_sounding_after_prefix(before, after, (i + 1) as nat);
                }
            }
            assert forall|i: int, j: int| 0 <= i <= j < after.len() implies after[i].0
                <= after[j].0 by {
                if j == before.len() {
                    if i < j {
                        assert(before[i].0 <= before.last().0);
                    }
                }
            }
        }
    }

    /// The entry that turns the note of entry `i` off, if there is one.
    fn next_off_note_index(&self, i: usize) -> (r: Option<usize>)
        requires
            i < self@.len(),
        ensures
            match r {
                Some(j) => next_off(self@, i as int) == Some(j as int) && i < j < self@.len(),
                None => next_off(self@, i as int) is None,
            },
    {
        let n = self.seq.len();
        assert(self@.len() == n);
        match self.seq[i].1 {
            Event::Note { pitch, .. } => {
                assert(self@[i as int].1 == self.seq@[i as int].1);
                let mut j: usize = i + 1;
                while j < n
                    invariant
                        i < j <= n,
                        n == self.seq@.len(),
                        self.seq@.len() == self@.len(),
                        self@[i as int].1.has_pitch(pitch),
                        next_with_pitch(self@, i + 1, pitch) == next_with_pitch(
                            self@,
                            j as int,
                            pitch,
                        ),
                    decreases n - j,
                {
                    assert(self@[j as int].1 == self.seq@[j as int].1);
                    match self.seq[j].1 {
                        Event::Note { pitch: other, velocity } => {
                            if pitch == other {
                                assert(self@[j as int].1.has_pitch(pitch));
                                assert(next_with_pitch(self@, j as int, pitch) == Some(j as int));
                                return if velocity == 0 {
                                    Some(j)
                                } else {
                                    None
                                };
                            }
                        },
                        Event::Other => {},
                    }
                    j = j + 1;
                }
                None
            },
            Event::Other => {
                assert(self@[i as int].1 == self.seq@[i as int].1);
                None
            },
        }
    }

    /// Whether entry `i` stays in the filtered stream, where `current` are
    /// the pitches that sound in the filtered stream before it.
    fn keep_note_without_below(
        &self,
        min_duration: u64,
        min_velocity: u8,
        i: usize,
        current: ActivePitches,
    ) -> (r: bool)
        requires
            self.wf(),
            i < self@.len(),
        ensures
            r == keeps(self@, i as int, current@, min_duration, min_velocity),
    {
        match self.seq[i].1 {
            Event::Note { pitch, velocity } => {
                assert(self@[i as int].1.valid());
                if current.is_active(pitch) {
                    true
                } else if velocity > 0 && velocity >= min_velocity {
                    match self.next_off_note_index(i) {
                        Some(j) => {
                            assert(self@[i as int].0 <= self@[j as int].0);
                            self.seq[j].0 - self.seq[i].0 >= min_duration
                        },
                        None => true,
                    }
                } else {
                    false
                }
            },
            Event::Other => true,
        }
    }

    /// The indices of the entries that stay when ghost notes are taken out,
    /// in order.
    pub fn retained_indices(&self, min_duration: u64, min_velocity: u8) -> (r: Vec<usize>)
        requires
            self.wf(),
        ensures
            r@ == retained(self@, min_duration, min_velocity, self@.len()),
    {
        let mut r: Vec<usize> = Vec::new();
        let mut current = ActivePitches::default();
        let mut i: usize = 0;
        while i < self.seq.len()
            invariant
                i <= self.seq.len(),
                self.seq@.len() == self@.len(),
                self.wf(),
                r@ == retained(self@, min_duration, min_velocity, i as nat),
                current@ == sounding_kept(self@, min_duration, min_velocity, i as nat),
            decreases self.seq.len() - i,
        {
            if self.keep_note_without_below(min_duration, min_velocity, i, current) {
                assert(self@[i as int].1.valid());
                current.update_from(&self.seq[i].1);
                r.push(i);
            }
            i = i + 1;
        }
        r
    }

    /// The timeline of the stream without its ghost notes. A note-on of a
    /// silent pitch is a ghost note where it is softer than `min_velocity`,
    /// or is turned off less than `min_duration` after it began; it goes,
    /// and so does the note-off that ends it. Every other event stays.
    pub fn without_notes_below(&self, min_duration: u64, min_velocity: u8) -> (r: Self)
        requires
            self.wf(),
        ensures
            r.wf(),
            r@ == filtered(self@, min_duration, min_velocity),
            filtered(r@, min_duration, min_velocity) == r@,
    {
        let n = self.seq.len();
        proof {
            assert(self@.len() == n);
            lemma_filter_idempotent(self@, min_duration, min_velocity);
        }
        let mut result = Self::default();
        let mut current = ActivePitches::default();
        let mut i: usize = 0;
        while i < self.seq.len()
            invariant
                i <= self.seq.len(),
                self.seq@.len() == self@.len(),
                self.wf(),
                result.wf(),
                result@ == picked(self@, retained(self@, min_duration, min_velocity, i as nat)),
                current@ == sounding_kept(self@, min_duration, min_velocity, i as nat),
                current@ == sounding_after(result@, result@.len()),
            decreases self.seq.len() - i,
        {
            if self.keep_note_without_below(min_duration, min_velocity, i, current) {
                proof {
                    let kept = retained(self@, min_duration, min_velocity, i as nat);
                    lemma_indices_increase(self@, min_duration, min_velocity, i as nat);
                    assert(self@[i as int].1.valid());
                    if kept.len() > 0 {
                        assert(result@.last() == self@[kept.last() as int]);
                        assert(kept[kept.len() - 1] < i);
                    }
                }
                result.push(self.seq[i].0, self.seq[i].1, &mut current);
                assert(result@ =~= picked(
                    self@,
                    retained(self@, min_duration, min_velocity, (i + 1) as nat),
                ));
            }
            i = i + 1;
        }
        result
    }

    /// The chord segments of the timeline, each with its chord, its start
    /// time and its duration. A segment starts with every entry after which
    /// a chord sounds, and lasts until the next segment starts. The last
    /// segment is given the time between its start and that of the segment
    /// before it, and its start time where it is the only one.
    pub fn chords_starts_durations(&self) -> (r: Vec<(Chord, u64, u64)>)
        requires
            self.wf(),
        ensures
            r.len() == chord_entries(self@, self@.len()).len(),
            forall|k: int|
                0 <= k < r.len() ==> starts_segment(
                    self@,
                    chord_entries(self@, self@.len()),
                    k,
                    #[trigger] r[k],
                ),
    {
        let mut pending: Option<(Chord, u64)> = None;
        let mut result: Vec<(Chord, u64, u64)> = Vec::new();
        let mut last_time: u64 = 0;
        let mut i: usize = 0;
        while i < self.seq.len()
            invariant
                i <= self.seq.len(),
                self.seq@.len() == self@.len(),
                self.wf(),
                result.len() + (if pending is Some {
                    1int
                } else {
                    0int
                }) == chord_entries(self@, i as nat).len(),
                opens_last(self@, chord_entries(self@, i as nat), pending),
                last_time == (if result.len() > 0 {
                    self@[chord_entries(self@, i as nat)[result.len() - 1] as int].0
                } else {
                    0u64
                }),
                forall|k: int|
                    0 <= k < result.len() ==> starts_segment(
                        self@,
                        chord_entries(self@, i as nat),
                        k,
                        #[trigger] result[k],
                    ),
            decreases self.seq.len() - i,
        {
            let t = self.seq[i].0;
            let p = self.seq[i].2;
            let ghost starts = chord_entries(self@, i as nat);
            let ghost more = chord_entries(self@, (i + 1) as nat);
            proof {
                lemma_indices_increase(self@, 0, 0, i as nat);
                assert(p@ == sounding_after(self@, (i + 1) as nat));
            }
            if let Some(name) = ChordName::new(p) {
                assert(more == starts.push(i));
                if let Some((chord, time)) = pending {
                    proof {
                        assert(starts[starts.len() - 1] < i);
                        assert(self@[starts.last() as int].0 <= self@[i as int].0);
                    }
                    result.push((chord, time, t - time));
                    last_time = time;
                    proof {
                        let k = result.len() - 1;
                        assert(more[k] == starts.last());
                        assert(more[k + 1] == i);
                        assert forall|j: int| 0 <= j < result.len() implies starts_segment(
                            self@,
                            more,
                            j,
                            #[trigger] result[j],
                        ) by {
                            if j < k {
                                assert(starts_segment(self@, starts, j, result[j]));
                                assert(more[j] == starts[j]);
                                assert(more[j + 1] == starts[j + 1]);
                            }
                        }
                    }
                }
                pending = Some((Chord { name, notes: p }, t));
            } else {
                assert(more == starts);
            }
            i = i + 1;
        }
        let ghost starts = chord_entries(self@, self@.len());
        if let Some((chord, time)) = pending {
            proof {
                lemma_indices_increase(self@, 0, 0, self@.len());
                if result.len() > 0 {
                    assert(starts[result.len() - 1] < starts[result.len() as int]);
                    assert(self@[starts[result.len() - 1] as int].0
                        <= self@[starts[result.len() as int] as int].0);
                }
            }
            result.push((chord, time, time - last_time));
        }
        result
    }

    /// The number of entries.
    pub fn len(&self) -> (r: usize)
        ensures
            r == self@.len(),
    {
        self.seq.len()
    }

    /// The time of entry `i`.
    pub fn time(&self, i: usize) -> (r: u64)
        requires
            i < self@.len(),
        ensures
            r == self@[i as int].0,
    {
        self.seq[i].0
    }

    /// The event of entry `i`.
    pub fn event(&self, i: usize) -> (r: Event)
        requires
            i < self@.len(),
        ensures
            r == self@[i as int].1,
    {
        self.seq[i].1
    }

    /// The pitches that sound after the event of entry `i`.
    pub fn active(&self, i: usize) -> (r: ActivePitches)
        requires
            i < self@.len(),
        ensures
            r@ == self.snapshot(i as int),
    {
        self.seq[i].2
    }
}

/// The pitches that sound after the first `n` events depend on those events
/// alone.
pub proof fn lemma_sounding_after_prefix(a: Seq<(u64, Event)>, b: Seq<(u64, Event)>, n: nat)
    requires
        n <= a.len() <= b.len(),
        forall|i: int| 0 <= i < n ==> a[i] == b[i],
    ensures
        sounding_after(a, n) == sounding_after(b, n),
    decreases n,
{
    if n > 0 {
        lemma_sounding_after_prefix(a, b, (n - 1) as nat);
    }
}

} // verus!
