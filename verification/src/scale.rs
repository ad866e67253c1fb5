//! Scale modes: their step patterns and the pitches they run through.

use vstd::prelude::*;
use crate::pitch::NoteName;

verus! {

/// The steps of the major scale, in semitones.
pub open spec fn diatonic_steps() -> Seq<u8> {
    seq![2u8, 2u8, 1u8, 2u8, 2u8, 2u8, 1u8]
}

/// The major scale's steps, started at step `rotation`.
pub open spec fn rotated_diatonic(rotation: int) -> Seq<u8> {
    Seq::new(7, |i: int| diatonic_steps()[(i + rotation) % 7])
}

/// A step pattern is not empty and every step is between 1 and 12 semitones.
pub open spec fn steps_valid(steps: Seq<u8>) -> bool {
    &&& steps.len() > 0
    &&& forall|i: int| 0 <= i < steps.len() ==> 1 <= #[trigger] steps[i] <= 12
}

/// The sum of the first `k` steps of the pattern, repeated as often as needed.
pub open spec fn steps_sum(steps: Seq<u8>, k: nat) -> int
    decreases k,
{
    if k == 0 {
        0
    } else {
        steps_sum(steps, (k - 1) as nat) + steps[((k - 1) % (steps.len() as int))]
    }
}

/// How many of the first `n` tones that rise from `start` lie below `limit`.
pub open spec fn rising_below(steps: Seq<u8>, start: int, limit: int, n: nat) -> nat
    decreases n,
{
    if n == 0 {
        0
    } else {
        rising_below(steps, start, limit, (n - 1) as nat) + if start + steps_sum(
            steps,
            (n - 1) as nat,
        ) < limit {
            1nat
        } else {
            0nat
        }
    }
}

/// How many of the first `n` tones that fall from `start` lie above `limit`.
pub open spec fn falling_above(steps: Seq<u8>, start: int, limit: int, n: nat) -> nat
    decreases n,
{
    if n == 0 {
        0
    } else {
        falling_above(steps, start, limit, (n - 1) as nat) + if start - steps_sum(
            steps,
            (n - 1) as nat,
        ) > limit {
            1nat
        } else {
            0nat
        }
    }
}

/// Step sums grow by at least one, and at most twelve, with every step.
pub proof fn lemma_steps_sum_grows(steps: Seq<u8>, i: nat, j: nat)
    requires
        steps_valid(steps),
        i <= j,
    ensures
        steps_sum(steps, i) + (j - i) <= steps_sum(steps, j) <= steps_sum(steps, i) + 12 * (j - i),
    decreases j,
{
    if i < j {
        lemma_steps_sum_grows(steps, i, (j - 1) as nat);
        let r = ((j - 1) % (steps.len() as int));
        assert(0 <= r < steps.len());
        assert(1 <= steps[r] <= 12);
    }
}

/// Where the first `m` rising tones lie below the limit and tone `m` does
/// not, exactly `m` of any `n >= m` tones lie below it.
pub proof fn lemma_rising_below(steps: Seq<u8>, start: int, limit: int, m: nat, n: nat)
    requires
        steps_valid(steps),
        m <= n,
        m > 0 ==> start + steps_sum(steps, (m - 1) as nat) < limit,
        m < n ==> start + steps_sum(steps, m) >= limit,
    ensures
        rising_below(steps, start, limit, n) == m,
    decreases n,
{
    if n > 0 {
        let k = (n - 1) as nat;
        if m <= k {
            lemma_rising_below(steps, start, limit, m, k);
            lemma_steps_sum_grows(steps, m, k);
        } else {
            if k > 0 {
                lemma_steps_sum_grows(steps, (k - 1) as nat, k);
            }
            lemma_rising_below(steps, start, limit, k, k);
        }
    }
}

/// Where the first `m` falling tones lie above the limit and tone `m` does
/// not, exactly `m` of any `n >= m` tones lie above it.
pub proof fn lemma_falling_above(steps: Seq<u8>, start: int, limit: int, m: nat, n: nat)
    requires
        steps_valid(steps),
        m <= n,
        m > 0 ==> start - steps_sum(steps, (m - 1) as nat) > limit,
        m < n ==> start - steps_sum(steps, m) <= limit,
    ensures
        falling_above(steps, start, limit, n) == m,
    decreases n,
{
    if n > 0 {
        let k = (n - 1) as nat;
        if m <= k {
            lemma_falling_above(steps, start, limit, m, k);
            lemma_steps_sum_grows(steps, m, k);
        } else {
            if k > 0 {
                lemma_steps_sum_grows(steps, (k - 1) as nat, k);
            }
            lemma_falling_above(steps, start, limit, k, k);
        }
    }
}

/// Counting over more tones never counts fewer.
pub proof fn lemma_rising_below_monotone(steps: Seq<u8>, start: int, limit: int, m: nat, n: nat)
    requires
        m <= n,
    ensures
        rising_below(steps, start, limit, m) <= rising_below(steps, start, limit, n),
    decreases n,
{
    if m < n {
        lemma_rising_below_monotone(steps, start, limit, m, (n - 1) as nat);
    }
}

/// Counting over more tones never counts fewer.
pub proof fn lemma_falling_above_monotone(steps: Seq<u8>, start: int, limit: int, m: nat, n: nat)
    requires
        m <= n,
    ensures
        falling_above(steps, start, limit, m) <= falling_above(steps, start, limit, n),
    decreases n,
{
    if m < n {
        lemma_falling_above_monotone(steps, start, limit, m, (n - 1) as nat);
    }
}

/// A cyclic pattern of steps, in semitones.
pub struct ScalePattern {
    jumps: Vec<u8>,
}

impl View for ScalePattern {
    type V = Seq<u8>;

    closed spec fn view(&self) -> Seq<u8> {
        self.jumps@
    }
}

impl ScalePattern {
    /// Step number `count`, counted cyclically.
    pub fn jump(&self, count: usize) -> (r: u8)
        requires
            self@.len() > 0,
        ensures
            r == self@[count as int % (self@.len() as int)],
    {
        self.jumps[count % self.jumps.len()]
    }

    /// The same steps in the opposite order.
    pub fn reversed(&self) -> (r: Self)
        ensures
            r@ == self@.reverse(),
    {
        let n = self.jumps.len();
        let mut jumps: Vec<u8> = Vec::new();
        let mut i: usize = 0;
        while i < n
            invariant
                i <= n,
                n == self.jumps.len(),
                jumps.len() == i,
                forall|k: int| 0 <= k < i ==> jumps[k] == self.jumps[n - k - 1],
            decreases n - i,
        {
            jumps.push(self.jumps[n - i - 1]);
            i = i + 1;
        }
        assert(jumps@ =~= self@.reverse());
        Self { jumps }
    }

    /// The pattern of a seven-step scale.
    pub fn standard(intervals: [u8; 7]) -> (r: Self)
        ensures
            r@ == intervals@,
    {
        let mut jumps: Vec<u8> = Vec::new();
        let mut i: usize = 0;
        while i < 7
            invariant
                i <= 7,
                jumps.len() == i,
                forall|k: int| 0 <= k < i ==> jumps[k] == intervals[k],
            decreases 7 - i,
        {
            jumps.push(intervals[i]);
            i = i + 1;
        }
        assert(jumps@ =~= intervals@);
        Self { jumps }
    }

    /// The major scale's pattern, started at step `rotation`.
    pub fn mode_rotation(rotation: usize) -> (r: Self)
        requires
            rotation < 7,
        ensures
            r@ == rotated_diatonic(rotation as int),
    {
        let major: [u8; 7] = [2, 2, 1, 2, 2, 2, 1];
        let destination: [u8; 7] = [
            major[rotation % 7],
            major[(1 + rotation) % 7],
            major[(2 + rotation) % 7],
            major[(3 + rotation) % 7],
            major[(4 + rotation) % 7],
            major[(5 + rotation) % 7],
            major[(6 + rotation) % 7],
        ];
        let r = Self::standard(destination);
        assert(r@ =~= rotated_diatonic(rotation as int));
        r
    }

    /// The pattern with the steps of `steps`.
    fn from_steps(steps: Vec<u8>) -> (r: Self)
        ensures
            r@ == steps@,
    {
        Self { jumps: steps }
    }
}

/// A scale mode: a named pattern of steps from a root.
#[derive(Copy, Clone, Debug, PartialEq, Eq, Structural)]
pub enum ScaleMode {
    Major,
    Minor,
    Dorian,
    Phrygian,
    Lydian,
    Mixolydian,
    Locrian,
    WholeTone,
    HarmonicMinor,
    MelodicMinor,
    Diminished,
    Augmented,
}

impl ScaleMode {
    /// The steps by which the mode rises.
    pub open spec fn steps_up(self) -> Seq<u8> {
        match self {
            ScaleMode::Major => rotated_diatonic(0),
            ScaleMode::Dorian => rotated_diatonic(1),
            ScaleMode::Phrygian => rotated_diatonic(2),
            ScaleMode::Lydian => rotated_diatonic(3),
            ScaleMode::Mixolydian => rotated_diatonic(4),
            ScaleMode::Minor => rotated_diatonic(5),
            ScaleMode::Locrian => rotated_diatonic(6),
            ScaleMode::HarmonicMinor => seq![2u8, 1u8, 2u8, 2u8, 1u8, 3u8, 1u8],
            ScaleMode::MelodicMinor => seq![2u8, 1u8, 2u8, 2u8, 2u8, 2u8, 1u8],
            ScaleMode::WholeTone => seq![2u8, 2u8, 2u8, 2u8, 2u8, 2u8],
            ScaleMode::Diminished => seq![2u8, 1u8, 2u8, 1u8, 2u8, 1u8, 2u8, 1u8],
            ScaleMode::Augmented => seq![3u8, 1u8, 3u8, 1u8, 3u8, 1u8],
        }
    }

    /// The steps by which the mode falls: its rising steps in reverse, but
    /// for the melodic minor, which falls by the steps of the natural minor.
    pub open spec fn steps_down(self) -> Seq<u8> {
        match self {
            ScaleMode::MelodicMinor => rotated_diatonic(5).reverse(),
            _ => self.steps_up().reverse(),
        }
    }

    /// The pitch from which the mode falls: the root's pitch class in the
    /// highest octave that can hold it.
    pub open spec fn top(root: NoteName) -> int {
        root.semitone() + if root.semitone() > 7 {
            108int
        } else {
            120int
        }
    }

    /// The pitches from the root's lowest pitch upwards: tone `k` lies the
    /// first `k` steps above the root, and the tones up to 127 are listed.
    pub open spec fn rising(self, root: NoteName) -> Seq<u8> {
        Seq::new(
            rising_below(self.steps_up(), root.semitone(), 128, 128),
            |k: int| self.tone_up(root, k as nat) as u8,
        )
    }

    /// Tone `k` of the rising scale: the first `k` steps above the root.
    pub open spec fn tone_up(self, root: NoteName, k: nat) -> int {
        root.semitone() + steps_sum(self.steps_up(), k)
    }

    /// Tone `k` of the falling scale: the first `k` steps below the top.
    pub open spec fn tone_down(self, root: NoteName, k: nat) -> int {
        Self::top(root) - steps_sum(self.steps_down(), k)
    }

    /// The pitches from the top downwards: tone `k` lies the first `k` steps
    /// below the top, and the tones down to 0 are listed.
    pub open spec fn falling(self, root: NoteName) -> Seq<u8> {
        Seq::new(
            falling_above(self.steps_down(), Self::top(root), -1, 128),
            |k: int| self.tone_down(root, k as nat) as u8,
        )
    }

    /// The `interval`-th tone of the rising scale, counted from 1, among the
    /// tones that are not below `current`; none where that tone lies above
    /// 127.
    pub open spec fn tone_at_or_above(self, root: NoteName, current: u8, interval: usize) -> Option<
        u8,
    > {
        let skipped = rising_below(self.steps_up(), root.semitone(), current as int, 256);
        let tone = self.tone_up(root, (skipped + interval - 1) as nat);
        if tone <= 127 {
            Some(tone as u8)
        } else {
            None
        }
    }

    /// The `interval`-th tone of the falling scale, counted from 1, among the
    /// tones that are not above `current`; none where that tone lies below
    /// 0.
    pub open spec fn tone_at_or_below(self, root: NoteName, current: u8, interval: usize) -> Option<
        u8,
    > {
        let skipped = falling_above(self.steps_down(), Self::top(root), current as int, 256);
        let tone = self.tone_down(root, (skipped + interval - 1) as nat);
        if tone >= 0 {
            Some(tone as u8)
        } else {
            None
        }
    }

    /// Every mode's rising and falling steps form a valid pattern.
    pub proof fn lemma_steps_valid(self)
        ensures
            steps_valid(self.steps_up()),
            steps_valid(self.steps_down()),
    {
        assert(steps_valid(self.steps_up()));
        assert(steps_valid(rotated_diatonic(5)));
        let up = if self == ScaleMode::MelodicMinor {
            rotated_diatonic(5)
        } else {
            self.steps_up()
        };
        assert forall|i: int| 0 <= i < up.reverse().len() implies 1 <= #[trigger] up.reverse()[i]
            <= 12 by {
            assert(up.reverse()[i] == up[up.len() - 1 - i]);
        }
    }

    fn pattern_up(&self) -> (r: ScalePattern)
        ensures
            r@ == self.steps_up(),
    {
        match self {
            ScaleMode::Major => ScalePattern::mode_rotation(0),
            ScaleMode::Dorian => ScalePattern::mode_rotation(1),
            ScaleMode::Phrygian => ScalePattern::mode_rotation(2),
            ScaleMode::Lydian => ScalePattern::mode_rotation(3),
            ScaleMode::Mixolydian => ScalePattern::mode_rotation(4),
            ScaleMode::Minor => ScalePattern::mode_rotation(5),
            ScaleMode::Locrian => ScalePattern::mode_rotation(6),
            ScaleMode::HarmonicMinor => ScalePattern::standard([2, 1, 2, 2, 1, 3, 1]),
            ScaleMode::MelodicMinor => ScalePattern::standard([2, 1, 2, 2, 2, 2, 1]),
            ScaleMode::WholeTone => ScalePattern::from_steps(vec![2, 2, 2, 2, 2, 2]),
            ScaleMode::Diminished => ScalePattern::from_steps(vec![2, 1, 2, 1, 2, 1, 2, 1]),
            ScaleMode::Augmented => ScalePattern::from_steps(vec![3, 1, 3, 1, 3, 1]),
        }
    }

    fn pattern_down(&self) -> (r: ScalePattern)
        ensures
            r@ == self.steps_down(),
    {
        match self {
            ScaleMode::MelodicMinor => ScalePattern::mode_rotation(5),
            _ => self.pattern_up(),
        }.reversed()
    }

    /// The scale's pitches from the root's lowest pitch up to 127.
    pub fn notes_going_up(&self, root: NoteName) -> (r: Vec<u8>)
        requires
            root.semitone() >= 0,
        ensures
            r@ == self.rising(root),
            r.len() <= 128,
            forall|k: int| 0 <= k < r.len() ==> r[k] == self.tone_up(root, k as nat),
            forall|k: int| 0 <= k < r.len() ==> r[k] <= 127,
            self.tone_up(root, r.len() as nat) > 127,
    {
        let pattern = self.pattern_up();
        let mut current = root.lowest_midi_note();
        let mut count: usize = 0;
        let mut r: Vec<u8> = Vec::new();
        proof {
            self.lemma_steps_valid();
        }
        while current <= 127
            invariant
                pattern@ == self.steps_up(),
                steps_valid(self.steps_up()),
                count == r.len(),
                count <= 128,
                current == self.tone_up(root, count as nat),
                root.semitone() >= 0,
                forall|k: int| 0 <= k < count ==> r[k] == self.tone_up(root, k as nat),
                forall|k: int| 0 <= k < count ==> r[k] <= 127,
                count > 0 ==> self.tone_up(root, (count - 1) as nat) <= 127,
            decreases 255 - current,
        {
            proof {
                lemma_steps_sum_grows(self.steps_up(), 0, count as nat);
            }
            r.push(current);
            let step = pattern.jump(count);
            current = current + step;
            count = count + 1;
        }
        proof {
            lemma_rising_below(self.steps_up(), root.semitone(), 128, count as nat, 128);
            assert(r@ =~= self.rising(root));
        }
        r
    }

    /// The scale's pitches from the top downwards, down to the last that is
    /// not below 0.
    pub fn notes_going_down(&self, root: NoteName) -> (r: Vec<u8>)
        requires
            root.semitone() >= 0,
        ensures
            r@ == self.falling(root),
            1 <= r.len() <= 128,
            forall|k: int| 0 <= k < r.len() ==> r[k] == self.tone_down(root, k as nat),
            self.tone_down(root, r.len() as nat) < 0,
    {
        let root_note = root.lowest_midi_note();
        let pattern = self.pattern_down();
        let mut current = root_note + if root_note > 7 {
            108
        } else {
            120
        };
        let mut count: usize = 0;
        let mut r: Vec<u8> = Vec::new();
        let mut going = true;
        proof {
            self.lemma_steps_valid();
        }
        while going
            invariant
                pattern@ == self.steps_down(),
                steps_valid(self.steps_down()),
                Self::top(root) <= 127,
                count <= 127,
                r.len() <= 128,
                forall|k: int| 0 <= k < r.len() ==> r[k] == self.tone_down(root, k as nat),
                going ==> r.len() == count && current == self.tone_down(root, count as nat),
                !going ==> r.len() >= 1 && self.tone_down(root, r.len() as nat) < 0,
            decreases
                    (if going {
                        current + 1
                    } else {
                        0
                    }),
        {
            proof {
                lemma_steps_sum_grows(self.steps_down(), 0, count as nat);
                lemma_steps_sum_grows(self.steps_down(), 0, (count + 1) as nat);
            }
            r.push(current);
            let step = pattern.jump(count);
            assert(self.tone_down(root, (count + 1) as nat) == current - step);
            if current < step {
                going = false;
            } else {
                current = current - step;
                count = count + 1;
            }
        }
        proof {
            assert(r[r.len() - 1] == self.tone_down(root, (r.len() - 1) as nat));
            lemma_falling_above(self.steps_down(), Self::top(root), -1, r.len() as nat, 128);
            assert(r@ =~= self.falling(root));
        }
        r
    }

    /// The `interval`-th scale tone, counted from 1, at or above `current`.
    pub fn note_up(&self, root: NoteName, current: u8, interval: usize) -> (r: Option<u8>)
        requires
            root.semitone() >= 0,
            interval >= 1,
        ensures
            r == self.tone_at_or_above(root, current, interval),
    {
        let notes = self.notes_going_up(root);
        let mut i: usize = 0;
        while i < notes.len() && notes[i] < current
            invariant
                i <= notes.len(),
                forall|k: int| 0 <= k < i ==> notes[k] < current,
            decreases notes.len() - i,
        {
            i = i + 1;
        }
        proof {
            let steps = self.steps_up();
            let start = root.semitone();
            self.lemma_steps_valid();
            let skipped = rising_below(steps, start, current as int, 256);
            if i > 0 {
                assert(notes[i - 1] == self.tone_up(root, (i - 1) as nat));
            }
            if i < notes.len() {
                assert(notes[i as int] == self.tone_up(root, i as nat));
                lemma_rising_below(steps, start, current as int, i as nat, 256);
                assert(skipped == i);
            } else {
                lemma_rising_below(steps, start, current as int, i as nat, i as nat);
                lemma_rising_below_monotone(steps, start, current as int, i as nat, 256);
                assert(skipped >= i);
            }
            let k = (skipped + interval - 1) as nat;
            if k >= notes.len() {
                lemma_steps_sum_grows(steps, notes.len() as nat, k);
            } else {
                assert(notes[k as int] == self.tone_up(root, k));
            }
        }
        if interval - 1 < notes.len() - i {
            Some(notes[i + (interval - 1)])
        } else {
            None
        }
    }

    /// The `interval`-th scale tone, counted from 1, at or below `current`.
    pub fn note_down(&self, root: NoteName, current: u8, interval: usize) -> (r: Option<u8>)
        requires
            root.semitone() >= 0,
            interval >= 1,
        ensures
            r == self.tone_at_or_below(root, current, interval),
    {
        let notes = self.notes_going_down(root);
        let mut i: usize = 0;
        while i < notes.len() && notes[i] > current
            invariant
                i <= notes.len(),
                forall|k: int| 0 <= k < i ==> notes[k] > current,
            decreases notes.len() - i,
        {
            i = i + 1;
        }
        proof {
            let steps = self.steps_down();
            let start = Self::top(root);
            self.lemma_steps_valid();
            let skipped = falling_above(steps, start, current as int, 256);
            if i > 0 {
                assert(notes[i - 1] == self.tone_down(root, (i - 1) as nat));
            }
            if i < notes.len() {
                assert(notes[i as int] == self.tone_down(root, i as nat));
                lemma_falling_above(steps, start, current as int, i as nat, 256);
                assert(skipped == i);
            } else {
                lemma_falling_above(steps, start, current as int, i as nat, i as nat);
                lemma_falling_above_monotone(steps, start, current as int, i as nat, 256);
                assert(skipped >= i);
            }
            let k = (skipped + interval - 1) as nat;
            if k >= notes.len() {
                lemma_steps_sum_grows(steps, notes.len() as nat, k);
            } else {
                assert(notes[k as int] == self.tone_down(root, k));
            }
        }
        if interval - 1 < notes.len() - i {
            Some(notes[i + (interval - 1)])
        } else {
            None
        }
    }
}

} // verus!
