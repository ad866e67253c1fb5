//! The set of sounding pitches and its reduction to pitch classes.

use vstd::prelude::*;
use crate::bits::{bit128, bit16, lemma_bit128_clear, lemma_bit128_set, lemma_bit128_zero, lemma_bit16_set, lemma_bit16_zero};
use crate::event::Event;

verus! {

/// The members of `s` below `n`, in increasing order.
pub open spec fn members_below(s: Set<u8>, n: nat) -> Seq<u8>
    decreases n,
{
    if n == 0 {
        Seq::empty()
    } else {
        let rest = members_below(s, (n - 1) as nat);
        if s.contains((n - 1) as u8) {
            rest.push((n - 1) as u8)
        } else {
            rest
        }
    }
}

/// The members of `s` below `n`, as a set.
pub open spec fn restricted_below(s: Set<u8>, n: nat) -> Set<u8> {
    Set::new(|p: u8| p < n && s.contains(p))
}

/// `members_below(s, n)` holds exactly the members of `s` below `n`, each
/// once and in strictly increasing order.
pub proof fn lemma_members_below(s: Set<u8>, n: nat)
    requires
        n <= 256,
    ensures
        forall|p: u8| members_below(s, n).contains(p) <==> (p < n && s.contains(p)),
        forall|i: int| 0 <= i < members_below(s, n).len() ==> (#[trigger] members_below(s, n)[i]) < n,
        forall|i: int, j: int|
            0 <= i < j < members_below(s, n).len() ==> members_below(s, n)[i] < members_below(
                s,
                n,
            )[j],
        members_below(s, n).len() <= n,
    decreases n,
{
    if n > 0 {
        let m = (n - 1) as nat;
        lemma_members_below(s, m);
        let rest = members_below(s, m);
        let all = members_below(s, n);
        let last = m as u8;
        assert forall|p: u8| all.contains(p) <==> (p < n && s.contains(p)) by {
            if s.contains(last) {
                assert(all == rest.push(last));
                if all.contains(p) {
                    let i = choose|i: int| 0 <= i < all.len() && all[i] == p;
                    if i < rest.len() {
                        assert(rest[i] == p);
                        assert(rest.contains(p));
                    }
                }
                if p < n && s.contains(p) {
                    if p == last {
                        assert(all[rest.len() as int] == p);
                    } else {
                        assert(rest.contains(p));
                        let i = choose|i: int| 0 <= i < rest.len() && rest[i] == p;
                        assert(all[i] == p);
                    }
                }
            } else {
                assert(all == rest);
            }
        }
    }
}

/// The number of members of `s` below `n` is the length of their listing.
pub proof fn lemma_members_below_len(s: Set<u8>, n: nat)
    requires
        n <= 256,
    ensures
        restricted_below(s, n).finite(),
        restricted_below(s, n).len() == members_below(s, n).len(),
    decreases n,
{
    if n == 0 {
        assert(restricted_below(s, n) =~= Set::<u8>::empty());
    } else {
        let m = (n - 1) as nat;
        lemma_members_below_len(s, m);
        let last = m as u8;
        if s.contains(last) {
            assert(restricted_below(s, n) =~= restricted_below(s, m).insert(last));
            assert(!restricted_below(s, m).contains(last));
        } else {
            assert(restricted_below(s, n) =~= restricted_below(s, m));
        }
    }
}

/// The pitches that sound at one moment: a set of pitches from 0 to 127.
#[derive(Copy, Clone, Debug, PartialEq, Eq, Structural)]
pub struct ActivePitches {
    on: u128,
}

impl View for ActivePitches {
    type V = Set<u8>;

    closed spec fn view(&self) -> Set<u8> {
        Set::new(|p: u8| p < 128 && bit128(self.on, p))
    }
}

impl Default for ActivePitches {
    /// No pitch sounds.
    fn default() -> (r: Self)
        ensures
            r@ == Set::<u8>::empty(),
    {
        let r = Self { on: 0 };
        proof {
            assert forall|p: u8| !r@.contains(p) by {
                if p < 128 {
                    lemma_bit128_zero(p);
                }
            }
            assert(r@ =~= Set::<u8>::empty());
        }
        r
    }
}

impl ActivePitches {
    /// A set of sounding pitches is finite and holds pitches below 128 only.
    pub proof fn lemma_view(self)
        ensures
            self@.finite(),
            self@.len() <= 128,
            forall|p: u8| self@.contains(p) ==> p < 128,
            self@ == restricted_below(self@, 128),
            self@.len() == members_below(self@, 128).len(),
    {
        lemma_members_below_len(self@, 128);
        lemma_members_below(self@, 128);
        assert(self@ =~= restricted_below(self@, 128));
    }

    /// Applies one event: a note with a velocity above 0 turns its pitch on,
    /// a note with velocity 0 turns it off, in both cases whatever it was
    /// before; any other event changes nothing. The number of sounding
    /// pitches grows by one where a silent pitch is turned on, shrinks by one
    /// where a sounding pitch is turned off, and stays as it was otherwise.
    pub fn update_from(&mut self, event: &Event)
        requires
            event.valid(),
        ensures
            final(self)@ == event.apply(old(self)@),
            final(self)@.len() == old(self)@.len() + (if event.is_on() && !old(self)@.contains(
                event->pitch,
            ) {
                1int
            } else if event.is_off() && old(self)@.contains(event->pitch) {
                -1int
            } else {
                0int
            }),
    {
        proof {
            self.lemma_view();
        }
        match event {
            Event::Note { pitch, velocity } => {
                let ghost before = self.on;
                if *velocity > 0 {
                    self.on = self.on | (1u128 << *pitch);
                    proof {
                        assert forall|q: u8| self@.contains(q) <==> old(self)@.insert(
                            *pitch,
                        ).contains(q) by {
                            if q < 128 {
                                lemma_bit128_set(before, *pitch, q);
                            }
                        }
                        assert(self@ =~= old(self)@.insert(*pitch));
                    }
                } else {
                    self.on = self.on & !(1u128 << *pitch);
                    proof {
                        assert forall|q: u8| self@.contains(q) <==> old(self)@.remove(
                            *pitch,
                        ).contains(q) by {
                            if q < 128 {
                                lemma_bit128_clear(before, *pitch, q);
                            }
                        }
                        assert(self@ =~= old(self)@.remove(*pitch));
                    }
                }
            },
            Event::Other => {},
        }
    }

    /// The number of sounding pitches.
    pub fn len(&self) -> (r: usize)
        ensures
            r == self@.len(),
    {
        let mut count: usize = 0;
        let mut p: u8 = 0;
        while p < 128
            invariant
                p <= 128,
                count == members_below(self@, p as nat).len(),
                count <= p,
            decreases 128 - p,
        {
            if self.on & (1u128 << p) != 0 {
                count = count + 1;
            }
            p = p + 1;
            proof {
                lemma_members_below(self@, (p - 1) as nat);
            }
        }
        proof {
            self.lemma_view();
        }
        count
    }

    /// Whether `pitch` sounds.
    pub fn is_active(&self, pitch: u8) -> (r: bool)
        requires
            pitch < 128,
        ensures
            r == self@.contains(pitch),
    {
        self.on & (1u128 << pitch) != 0
    }

    /// The sounding pitches in increasing order.
    pub fn iter(&self) -> (r: Vec<u8>)
        ensures
            r@ == members_below(self@, 128),
    {
        let mut r: Vec<u8> = Vec::new();
        let mut p: u8 = 0;
        while p < 128
            invariant
                p <= 128,
                r@ == members_below(self@, p as nat),
            decreases 128 - p,
        {
            if self.on & (1u128 << p) != 0 {
                r.push(p);
            }
            p = p + 1;
        }
        r
    }
}

/// The pitch classes of the pitches in `pitches`: their remainders modulo 12.
pub open spec fn pitch_classes(pitches: Set<u8>) -> Set<u8> {
    Set::new(|c: u8| c < 12 && exists|p: u8| pitches.contains(p) && #[trigger] (p % 12) == c)
}

/// Distance from entry `i` of an increasing list of pitch classes up to the
/// next entry. The last entry's next is the first entry, one octave higher.
pub open spec fn gap(classes: Seq<u8>, i: int) -> int {
    if i + 1 < classes.len() {
        classes[i + 1] - classes[i]
    } else {
        12 + classes[0] - classes[i]
    }
}

/// The distances between neighbours in an increasing list of pitch classes,
/// with the distance from the last back to the first as its last entry.
pub open spec fn gaps(classes: Seq<u8>) -> Seq<u8> {
    Seq::new(classes.len(), |i: int| gap(classes, i) as u8)
}

/// The gaps of an increasing list of pitch classes lie between 1 and 12 and
/// add up to one octave.
pub proof fn lemma_gaps(s: Set<u8>)
    ensures
        forall|i: int|
            0 <= i < members_below(s, 12).len() ==> 1 <= #[trigger] gap(members_below(s, 12), i)
                <= 12,
        members_below(s, 12).len() == 1 ==> gap(members_below(s, 12), 0) == 12,
{
    lemma_members_below(s, 12);
}

/// The pitch classes that sound at one moment: a set of classes from 0 to 11.
#[derive(Copy, Clone, PartialEq, Eq, Structural)]
pub struct ReducedPitches {
    on: u16,
}

impl View for ReducedPitches {
    type V = Set<u8>;

    /// The classes whose bit is set, among bits 0 to 11; no other bit is
    /// ever read.
    closed spec fn view(&self) -> Set<u8> {
        Set::new(|c: u8| c < 12 && bit16(self.on, c))
    }
}

impl Default for ReducedPitches {
    /// No pitch class sounds.
    fn default() -> (r: Self)
        ensures
            r@ == Set::<u8>::empty(),
    {
        let r = Self { on: 0 };
        proof {
            assert forall|c: u8| !r@.contains(c) by {
                if c < 12 {
                    lemma_bit16_zero(c);
                }
            }
            assert(r@ =~= Set::<u8>::empty());
        }
        r
    }
}

impl ReducedPitches {
    /// A set of pitch classes holds classes below 12 only.
    pub proof fn lemma_view(self)
        ensures
            forall|c: u8| self@.contains(c) ==> c < 12,
    {
    }

    /// The pitch classes of the sounding pitches.
    pub fn new(active: ActivePitches) -> (r: Self)
        ensures
            r@ == pitch_classes(active@),
    {
        let pitches = active.iter();
        let mut on: u16 = 0;
        let mut i: usize = 0;
        proof {
            lemma_members_below(active@, 128);
            assert forall|c: u8| c < 12 implies !bit16(0, c) by {
                lemma_bit16_zero(c);
            }
        }
        while i < pitches.len()
            invariant
                i <= pitches.len(),
                pitches@ == members_below(active@, 128),
                forall|c: u8|
                    c < 12 ==> (bit16(on, c) <==> exists|k: int|
                        0 <= k < i && #[trigger] (pitches[k] % 12) == c),
            decreases pitches.len() - i,
        {
            let class = pitches[i] % 12;
            let ghost before = on;
            on = on | (1u16 << class);
            proof {
                assert forall|c: u8| c < 12 implies (bit16(on, c) <==> exists|k: int|
                    0 <= k < i + 1 && #[trigger] (pitches[k] % 12) == c) by {
                    lemma_bit16_set(before, class, c);
                    if bit16(on, c) {
                        if c == class {
                            assert(pitches[i as int] % 12 == c);
                        } else {
                            let k = choose|k: int| 0 <= k < i && #[trigger] (pitches[k] % 12) == c;
                            assert(0 <= k < i + 1 && pitches[k] % 12 == c);
                        }
                    }
                    if exists|k: int| 0 <= k < i + 1 && #[trigger] (pitches[k] % 12) == c {
                        let k = choose|k: int|
                            0 <= k < i + 1 && #[trigger] (pitches[k] % 12) == c;
                        if k < i {
                            assert(bit16(before, c));
                        }
                    }
                }
            }
            i = i + 1;
        }
        let r = Self { on };
        proof {
            assert forall|c: u8| r@.contains(c) <==> pitch_classes(active@).contains(c) by {
                if c < 12 {
                    if r@.contains(c) {
                        let k = choose|k: int|
                            0 <= k < pitches.len() && #[trigger] (pitches[k] % 12) == c;
                        assert(pitches@.contains(pitches[k]));
                        assert(active@.contains(pitches[k]));
                    }
                    if pitch_classes(active@).contains(c) {
                        let p = choose|p: u8| active@.contains(p) && #[trigger] (p % 12) == c;
                        active.lemma_view();
                        assert(pitches@.contains(p));
                        let k = choose|k: int| 0 <= k < pitches.len() && pitches[k] == p;
                        assert(pitches[k] % 12 == c);
                    }
                }
            }
            assert(r@ =~= pitch_classes(active@));
        }
        r
    }

    /// The sounding pitch classes in increasing order.
    pub fn iter(&self) -> (r: Vec<u8>)
        ensures
            r@ == members_below(self@, 12),
    {
        let mut r: Vec<u8> = Vec::new();
        let mut c: u8 = 0;
        while c < 12
            invariant
                c <= 12,
                r@ == members_below(self@, c as nat),
            decreases 12 - c,
        {
            if self.on & (1u16 << c) != 0 {
                r.push(c);
            }
            c = c + 1;
        }
        r
    }

    /// The sounding pitch classes in increasing order, and the gap from each
    /// to the next. The last gap leads from the highest class on to the
    /// lowest, one octave up.
    pub fn pitches_diffs(&self) -> (r: (Vec<u8>, Vec<u8>))
        ensures
            r.0@ == members_below(self@, 12),
            r.1@ == gaps(r.0@),
    {
        let pitches = self.iter();
        let mut diffs: Vec<u8> = Vec::new();
        let mut i: usize = 0;
        proof {
            lemma_members_below(self@, 12);
        }
        while i < pitches.len()
            invariant
                i <= pitches.len(),
                pitches@ == members_below(self@, 12),
                forall|k: int| 0 <= k < pitches.len() ==> (#[trigger] pitches[k]) < 12,
                forall|k: int, l: int| 0 <= k < l < pitches.len() ==> pitches[k] < pitches[l],
                diffs.len() == i,
                forall|k: int| 0 <= k < i ==> diffs[k] == gap(pitches@, k),
            decreases pitches.len() - i,
        {
            let next_pitch = if i + 1 < pitches.len() {
                pitches[i + 1]
            } else {
                12 + pitches[0]
            };
            diffs.push(next_pitch - pitches[i]);
            i = i + 1;
        }
        assert(diffs@ =~= gaps(pitches@));
        (pitches, diffs)
    }
}

} // verus!
