//! The notes and rests of a stream, each with its duration.

use vstd::prelude::*;
use crate::event::Event;
use crate::partition::pair_duration;
use crate::timeline::time_ordered;

verus! {

/// What has been read of a stream: the note event that was taken up last,
/// and the entries `(duration, pitch, velocity)` written so far.
pub struct Reading {
    pub time: u64,
    pub pitch: u8,
    pub velocity: u8,
    pub out: Seq<(u64, u8, u8)>,
}

/// The entries with a rest of no duration behind them, where a note is
/// held and the last entry is a note as well: two notes never stand side
/// by side.
pub open spec fn rest_between(out: Seq<(u64, u8, u8)>, held_velocity: u8) -> Seq<(u64, u8, u8)> {
    if held_velocity > 0 && out.len() > 0 && out.last().2 > 0 {
        out.push((0u64, out.last().1, 0u8))
    } else {
        out
    }
}

/// The reading after one more note event. A note-on, and a note event of
/// the pitch taken up last, ends what was taken up last: that is written
/// with the time it lasted, and the event is taken up in its place. Any
/// other note-off is passed over.
pub open spec fn read_note(reading: Reading, time: u64, pitch: u8, velocity: u8) -> Reading {
    let out = rest_between(reading.out, reading.velocity);
    if velocity > 0 || pitch == reading.pitch {
        Reading {
            time,
            pitch,
            velocity,
            out: out.push(((time - reading.time) as u64, reading.pitch, reading.velocity)),
        }
    } else {
        Reading { time: reading.time, pitch: reading.pitch, velocity: reading.velocity, out }
    }
}

/// The reading after the first `n` events; none before the first note event.
pub open spec fn read_until(events: Seq<(u64, Event)>, n: nat) -> Option<Reading>
    decreases n,
{
    if n == 0 {
        None
    } else {
        let before = read_until(events, (n - 1) as nat);
        match events[n - 1].1 {
            Event::Other => before,
            Event::Note { pitch, velocity } => match before {
                None => Some(
                    Reading { time: events[n - 1].0, pitch, velocity, out: Seq::empty() },
                ),
                Some(reading) => Some(read_note(reading, events[n - 1].0, pitch, velocity)),
            },
        }
    }
}

/// The entries made even in number: an odd number of them gets a rest of no
/// duration on the pitch of the last entry.
pub open spec fn evened(out: Seq<(u64, u8, u8)>) -> Seq<(u64, u8, u8)> {
    if out.len() % 2 == 1 {
        out.push((0u64, out.last().1, 0u8))
    } else {
        out
    }
}

/// The notes and rests of a stream: what was written when all events are
/// read, made even in number.
pub open spec fn durations_notes(events: Seq<(u64, Event)>) -> Seq<(u64, u8, u8)> {
    match read_until(events, events.len()) {
        Some(reading) => evened(reading.out),
        None => Seq::empty(),
    }
}

/// The durations of all entries together.
pub open spec fn total_duration(entries: Seq<(u64, u8, u8)>) -> int
    decreases entries.len(),
{
    if entries.len() == 0 {
        0
    } else {
        total_duration(entries.drop_last()) + entries.last().0
    }
}

/// No entry lasts longer than all entries do together.
pub proof fn lemma_each_within_total(entries: Seq<(u64, u8, u8)>, i: int)
    requires
        0 <= i < entries.len(),
    ensures
        entries[i].0 <= total_duration(entries),
    decreases entries.len(),
{
    let rest = entries.drop_last();
    lemma_total_not_negative(rest);
    if i < entries.len() - 1 {
        lemma_each_within_total(rest, i);
    }
}

/// Durations add up to no less than nothing.
pub proof fn lemma_total_not_negative(entries: Seq<(u64, u8, u8)>)
    ensures
        0 <= total_duration(entries),
    decreases entries.len(),
{
    if entries.len() > 0 {
        lemma_total_not_negative(entries.drop_last());
    }
}

/// No two entries last longer together than all entries do.
pub proof fn lemma_two_within_total(entries: Seq<(u64, u8, u8)>, i: int, j: int)
    requires
        0 <= i < j < entries.len(),
    ensures
        entries[i].0 + entries[j].0 <= total_duration(entries),
    decreases entries.len(),
{
    let rest = entries.drop_last();
    if j < entries.len() - 1 {
        lemma_two_within_total(rest, i, j);
    } else {
        lemma_each_within_total(rest, i);
    }
}

/// The first note event of the stream: its index, time, pitch and velocity.
fn find_first_note(events: &Vec<(u64, Event)>) -> (r: Option<(usize, u64, u8, u8)>)
    ensures
        match r {
            Some((i, time, pitch, velocity)) => {
                &&& i < events.len()
                &&& time == events[i as int].0
                &&& read_until(events@, (i + 1) as nat) == Some(
                    Reading { time, pitch, velocity, out: Seq::empty() },
                )
            },
            None => read_until(events@, events@.len()) is None,
        },
{
    let mut i: usize = 0;
    while i < events.len()
        invariant
            i <= events.len(),
            read_until(events@, i as nat) is None,
        decreases events.len() - i,
    {
        let (time, event) = events[i];
        if let Event::Note { pitch, velocity } = event {
            return Some((i, time, pitch, velocity));
        }
        i = i + 1;
    }
    None
}

/// The notes and rests of a stream given in order of time, as entries
/// `(duration, pitch, velocity)`; a rest has velocity 0. Their number is
/// even, and all of them together last no longer than the stream, so that
/// the durations of any two of them can be added.
pub fn durations_notes_from(events: &Vec<(u64, Event)>) -> (r: Vec<(u64, u8, u8)>)
    requires
        time_ordered(events@),
    ensures
        r@ == durations_notes(events@),
        r.len() % 2 == 0,
        total_duration(r@) <= u64::MAX,
        forall|k: int| 0 <= k < r.len() / 2 ==> #[trigger] pair_duration(r@, k) <= u64::MAX,
{
    let mut result: Vec<(u64, u8, u8)> = Vec::new();
    if let Some((first, first_time, first_n, first_v)) = find_first_note(events) {
        let mut last_time = first_time;
        let mut last_n = first_n;
        let mut last_v = first_v;
        let mut i: usize = first + 1;
        while i < events.len()
            invariant
                first < i <= events.len(),
                time_ordered(events@),
                forall|j: int| i <= j < events.len() ==> last_time <= (#[trigger] events[j]).0,
                total_duration(result@) == last_time - first_time,
                read_until(events@, i as nat) == Some(
                    Reading { time: last_time, pitch: last_n, velocity: last_v, out: result@ },
                ),
            decreases events.len() - i,
        {
            let (time, event) = events[i];
            if let Event::Note { pitch: n, velocity: v } = event {
                let ghost before = result@;
                if last_v > 0 {
                    if result.len() > 0 {
                        let (_, end_n, end_v) = result[result.len() - 1];
                        if end_v > 0 {
                            result.push((0, end_n, 0));
                            assert(result@.drop_last() =~= before);
                        }
                    }
                }
                assert(result@ == rest_between(before, last_v));
                assert(total_duration(result@) == total_duration(before));
                if v > 0 || n == last_n {
                    let ghost patched = result@;
                    result.push((time - last_time, last_n, last_v));
                    assert(result@.drop_last() =~= patched);
                    last_time = time;
                    last_n = n;
                    last_v = v;
                }
            }
            i = i + 1;
        }
        if result.len() % 2 == 1 {
            let ghost odd = result@;
            let (_, n, _) = result[result.len() - 1];
            result.push((0, n, 0));
            assert(result@.drop_last() =~= odd);
        }
    }
    proof {
        assert forall|k: int| 0 <= k < result.len() / 2 implies #[trigger] pair_duration(
            result@,
            k,
        ) <= u64::MAX by {
            lemma_two_within_total(result@, 2 * k, 2 * k + 1);
        }
    }
    result
}

} // verus!
