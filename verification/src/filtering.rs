//! Laws of the filter that takes ghost notes out of a stream.

use vstd::prelude::*;
use crate::event::Event;
use crate::timeline::{filtered, lemma_indices_increase, held_long_enough, keeps, next_off, next_with_pitch, picked, retained, sounding_kept};

verus! {

/// The indices retained among the first `m` events stay the first indices
/// retained among the first `n >= m` events.
pub proof fn lemma_retained_prefix(
    events: Seq<(u64, Event)>,
    min_duration: u64,
    min_velocity: u8,
    m: nat,
    n: nat,
)
    requires
        m <= n,
    ensures
        retained(events, min_duration, min_velocity, m).len() <= retained(
            events,
            min_duration,
            min_velocity,
            n,
        ).len(),
        forall|k: int|
            0 <= k < retained(events, min_duration, min_velocity, m).len() ==> retained(
                events,
                min_duration,
                min_velocity,
                n,
            )[k] == #[trigger] retained(events, min_duration, min_velocity, m)[k],
    decreases n,
{
    if m < n {
        lemma_retained_prefix(events, min_duration, min_velocity, m, (n - 1) as nat);
    }
}

/// An event that stays stands in the filtered stream right behind the
/// events that stay of those before it.
proof fn lemma_kept_entry(
    events: Seq<(u64, Event)>,
    min_duration: u64,
    min_velocity: u8,
    k: nat,
)
    requires
        k < events.len() <= usize::MAX,
        keeps(
            events,
            k as int,
            sounding_kept(events, min_duration, min_velocity, k),
            min_duration,
            min_velocity,
        ),
    ensures
        retained(events, min_duration, min_velocity, k).len() < filtered(
            events,
            min_duration,
            min_velocity,
        ).len(),
        filtered(events, min_duration, min_velocity)[retained(
            events,
            min_duration,
            min_velocity,
            k,
        ).len() as int] == events[k as int],
{
    let before = retained(events, min_duration, min_velocity, k);
    let with_k = retained(events, min_duration, min_velocity, k + 1);
    assert(with_k == before.push(k as usize));
    lemma_retained_prefix(events, min_duration, min_velocity, k + 1, events.len());
    assert(with_k[before.len() as int] == k);
}

/// Where pitch `p` sounds in the filtered stream before event `k`, the next
/// note event of pitch `p` from `k` on stays, and it is the next note event
/// of pitch `p` in the filtered stream.
proof fn lemma_next_transfers(
    events: Seq<(u64, Event)>,
    min_duration: u64,
    min_velocity: u8,
    k: nat,
    p: u8,
)
    requires
        k <= events.len() <= usize::MAX,
        sounding_kept(events, min_duration, min_velocity, k).contains(p),
    ensures
        match next_with_pitch(events, k as int, p) {
            Some(j) => {
                let there = next_with_pitch(
                    filtered(events, min_duration, min_velocity),
                    retained(events, min_duration, min_velocity, k).len() as int,
                    p,
                );
                &&& there is Some
                &&& filtered(events, min_duration, min_velocity)[there->0] == events[j]
            },
            None => next_with_pitch(
                filtered(events, min_duration, min_velocity),
                retained(events, min_duration, min_velocity, k).len() as int,
                p,
            ) is None,
        },
    decreases events.len() - k,
{
    let out = filtered(events, min_duration, min_velocity);
    let before = retained(events, min_duration, min_velocity, k);
    let sounding = sounding_kept(events, min_duration, min_velocity, k);
    if k == events.len() {
        assert(out.len() == before.len());
    } else if events[k as int].1.has_pitch(p) {
        lemma_kept_entry(events, min_duration, min_velocity, k);
    } else {
        let stays = keeps(events, k as int, sounding, min_duration, min_velocity);
        assert(sounding_kept(events, min_duration, min_velocity, k + 1).contains(p));
        lemma_next_transfers(events, min_duration, min_velocity, k + 1, p);
        if stays {
            lemma_kept_entry(events, min_duration, min_velocity, k);
            assert(retained(events, min_duration, min_velocity, k + 1) == before.push(k as usize));
        }
    }
}

/// The indices from 0 up to `n`.
pub open spec fn first_indices(n: nat) -> Seq<usize> {
    Seq::new(n, |k: int| k as usize)
}

/// Filtering the filtered stream keeps every event of it: after the events
/// that stay of the first `n`, all were kept and the same pitches sound.
proof fn lemma_idempotent_prefix(
    events: Seq<(u64, Event)>,
    min_duration: u64,
    min_velocity: u8,
    n: nat,
)
    requires
        n <= events.len() <= usize::MAX,
    ensures
        retained(
            filtered(events, min_duration, min_velocity),
            min_duration,
            min_velocity,
            retained(events, min_duration, min_velocity, n).len(),
        ) == first_indices(retained(events, min_duration, min_velocity, n).len()),
        sounding_kept(
            filtered(events, min_duration, min_velocity),
            min_duration,
            min_velocity,
            retained(events, min_duration, min_velocity, n).len(),
        ) == sounding_kept(events, min_duration, min_velocity, n),
    decreases n,
{
    let out = filtered(events, min_duration, min_velocity);
    if n == 0 {
        assert(retained(out, min_duration, min_velocity, 0) =~= first_indices(0));
    } else {
        let i = (n - 1) as nat;
        lemma_idempotent_prefix(events, min_duration, min_velocity, i);
        let before = retained(events, min_duration, min_velocity, i);
        let m = before.len();
        let sounding = sounding_kept(events, min_duration, min_velocity, i);
        if keeps(events, i as int, sounding, min_duration, min_velocity) {
            lemma_kept_entry(events, min_duration, min_velocity, i);
            assert(retained(events, min_duration, min_velocity, n) == before.push(i as usize));
            assert(out[m as int] == events[i as int]);
            assert(keeps(out, m as int, sounding, min_duration, min_velocity)) by {
                match events[i as int].1 {
                    Event::Other => {},
                    Event::Note { pitch, velocity } => {
                        if !sounding.contains(pitch) {
                            assert(sounding_kept(events, min_duration, min_velocity, n).contains(
                                pitch,
                            ));
                            lemma_next_transfers(events, min_duration, min_velocity, n, pitch);
                            assert(held_long_enough(events, i as int, min_duration));
                            assert(held_long_enough(out, m as int, min_duration));
                        }
                    },
                }
            }
            assert(retained(out, min_duration, min_velocity, m + 1) =~= first_indices(m + 1));
        }
    }
}

/// Taking the ghost notes out of a stream that has none left changes
/// nothing: filtering twice with the same thresholds gives what filtering
/// once gives.
pub proof fn lemma_filter_idempotent(
    events: Seq<(u64, Event)>,
    min_duration: u64,
    min_velocity: u8,
)
    requires
        events.len() <= usize::MAX,
    ensures
        filtered(filtered(events, min_duration, min_velocity), min_duration, min_velocity)
            == filtered(events, min_duration, min_velocity),
{
    let out = filtered(events, min_duration, min_velocity);
    lemma_idempotent_prefix(events, min_duration, min_velocity, events.len());
    lemma_indices_increase(events, min_duration, min_velocity, events.len());
    assert(picked(out, first_indices(out.len())) =~= out);
}

} // verus!
