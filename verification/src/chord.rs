//! Chord labels read off a set of sounding pitches.

use vstd::prelude::*;
use vstd::arithmetic::div_mod::lemma_small_mod;
use crate::active::{gap, gaps, lemma_gaps, members_below, lemma_members_below, pitch_classes, ActivePitches, ReducedPitches};
use crate::pitch::{major_root, major_spelling, minor_root, minor_spelling, Accidental, NoteLetter};
use crate::scale::ScaleMode;
use crate::text::{list_string, list_text};

verus! {

/// The quality of a chord.
#[derive(Copy, Clone, Debug, PartialEq, Eq, Structural)]
pub enum ChordMode {
    Major,
    Minor,
    Diminished,
    Augmented,
}

impl ChordMode {
    /// The scale modes that fit a chord of this quality, the closest first.
    pub open spec fn fitting(self) -> Seq<ScaleMode> {
        match self {
            ChordMode::Major => seq![ScaleMode::Major, ScaleMode::Lydian, ScaleMode::Mixolydian],
            ChordMode::Minor => seq![
                ScaleMode::Minor,
                ScaleMode::MelodicMinor,
                ScaleMode::HarmonicMinor,
                ScaleMode::Dorian,
                ScaleMode::Phrygian,
            ],
            ChordMode::Diminished => seq![ScaleMode::Diminished],
            ChordMode::Augmented => seq![ScaleMode::Augmented, ScaleMode::WholeTone],
        }
    }

    /// The quality's name as text.
    pub open spec fn text(self) -> Seq<char> {
        match self {
            ChordMode::Major => seq!['M', 'a', 'j', 'o', 'r'],
            ChordMode::Minor => seq!['M', 'i', 'n', 'o', 'r'],
            ChordMode::Diminished => seq!['D', 'i', 'm', 'i', 'n', 'i', 's', 'h', 'e', 'd'],
            ChordMode::Augmented => seq!['A', 'u', 'g', 'm', 'e', 'n', 't', 'e', 'd'],
        }
    }

    pub fn scales(&self) -> (r: Vec<ScaleMode>)
        ensures
            r@ == self.fitting(),
    {
        let r = match self {
            ChordMode::Major => vec![ScaleMode::Major, ScaleMode::Lydian, ScaleMode::Mixolydian],
            ChordMode::Minor => vec![
                ScaleMode::Minor,
                ScaleMode::MelodicMinor,
                ScaleMode::HarmonicMinor,
                ScaleMode::Dorian,
                ScaleMode::Phrygian,
            ],
            ChordMode::Diminished => vec![ScaleMode::Diminished],
            ChordMode::Augmented => vec![ScaleMode::Augmented, ScaleMode::WholeTone],
        };
        assert(r@ =~= self.fitting());
        r
    }

    /// The quality's name, for display.
    pub fn name(&self) -> (r: &'static str)
        ensures
            r@ == self.text(),
    {
        proof {
            reveal_strlit("Major");
            reveal_strlit("Minor");
            reveal_strlit("Diminished");
            reveal_strlit("Augmented");
        }
        let r = match self {
            ChordMode::Major => "Major",
            ChordMode::Minor => "Minor",
            ChordMode::Diminished => "Diminished",
            ChordMode::Augmented => "Augmented",
        };
        assert(r@ =~= self.text());
        r
    }
}

/// Whether an interval is a minor or a major third.
pub open spec fn is_third(interval: int) -> bool {
    interval == 3 || interval == 4
}

/// Whether two thirds are stacked at entry `i` of a cyclic list of gaps:
/// the gap at `i` and the gap after it are both thirds.
pub open spec fn stacked_at(diffs: Seq<u8>, i: int) -> bool {
    is_third(diffs[i] as int) && is_third(diffs[(i + 1) % (diffs.len() as int)] as int)
}

/// The first entry below `n` at which two thirds are stacked.
pub open spec fn first_stacked(diffs: Seq<u8>, n: nat) -> Option<int>
    decreases n,
{
    if n == 0 {
        None
    } else {
        match first_stacked(diffs, (n - 1) as nat) {
            Some(i) => Some(i),
            None => if stacked_at(diffs, n - 1) {
                Some(n - 1)
            } else {
                None
            },
        }
    }
}

/// `first_stacked` finds the least entry at which two thirds are stacked,
/// and finds none only where there is none.
pub proof fn lemma_first_stacked(diffs: Seq<u8>, n: nat)
    ensures
        match first_stacked(diffs, n) {
            Some(i) => 0 <= i < n && stacked_at(diffs, i) && forall|j: int|
                0 <= j < i ==> !stacked_at(diffs, j),
            None => forall|j: int| 0 <= j < n ==> !stacked_at(diffs, j),
        },
    decreases n,
{
    if n > 0 {
        lemma_first_stacked(diffs, (n - 1) as nat);
    }
}

/// Root and quality of a chord.
#[derive(Copy, Clone, Debug, PartialEq, Eq, Structural)]
pub struct ChordName {
    pub note: NoteLetter,
    pub accidental: Accidental,
    pub mode: ChordMode,
}

/// The label of the chord whose root is entry `root` of `classes`, where
/// `diffs` are the gaps of `classes`. A minor third above the root makes a
/// minor-family chord, spelled by the minor table: diminished under a second
/// minor third, else minor. Otherwise the chord is of the major family,
/// spelled by the major table: major under a minor third, else augmented.
pub open spec fn label(classes: Seq<u8>, diffs: Seq<u8>, root: int) -> ChordName {
    let first = diffs[root];
    let second = diffs[(root + 1) % (diffs.len() as int)];
    if first == 3 {
        ChordName {
            note: minor_spelling(classes[root] as int).0,
            accidental: minor_spelling(classes[root] as int).1,
            mode: if second == 3 {
                ChordMode::Diminished
            } else {
                ChordMode::Minor
            },
        }
    } else {
        ChordName {
            note: major_spelling(classes[root] as int).0,
            accidental: major_spelling(classes[root] as int).1,
            mode: if second == 3 {
                ChordMode::Major
            } else {
                ChordMode::Augmented
            },
        }
    }
}

/// The chord that a set of sounding pitches forms, if any: its pitch
/// classes in increasing order are searched for the first at which two
/// thirds are stacked, and that class is the root.
pub open spec fn chord_of(sounding: Set<u8>) -> Option<ChordName> {
    let classes = members_below(pitch_classes(sounding), 12);
    let diffs = gaps(classes);
    match first_stacked(diffs, diffs.len()) {
        Some(root) => Some(label(classes, diffs, root)),
        None => None,
    }
}

/// Fewer than three pitch classes form no chord.
pub proof fn lemma_chord_needs_three_classes(sounding: Set<u8>)
    requires
        members_below(pitch_classes(sounding), 12).len() < 3,
    ensures
        chord_of(sounding) is None,
{
    let classes = members_below(pitch_classes(sounding), 12);
    let diffs = gaps(classes);
    lemma_first_stacked(diffs, diffs.len());
    lemma_gaps(pitch_classes(sounding));
    lemma_members_below(pitch_classes(sounding), 12);
    if classes.len() == 2 {
        assert(gap(classes, 0) + gap(classes, 1) == 12);
        assert(!stacked_at(diffs, 0));
        assert(!stacked_at(diffs, 1));
    } else if classes.len() == 1 {
        assert(!stacked_at(diffs, 0));
    }
}

fn major_or_minor_third(interval: u8) -> (r: bool)
    ensures
        r == is_third(interval as int),
{
    interval == 3 || interval == 4
}

fn first_third_index(diffs: &[u8]) -> (r: Option<usize>)
    ensures
        match r {
            Some(i) => first_stacked(diffs@, diffs@.len()) == Some(i as int),
            None => first_stacked(diffs@, diffs@.len()) is None,
        },
{
    let mut i: usize = 0;
    while i < diffs.len()
        invariant
            i <= diffs.len(),
            first_stacked(diffs@, i as nat) is None,
        decreases diffs.len() - i,
    {
        if major_or_minor_third(diffs[i]) && major_or_minor_third(diffs[(i + 1) % diffs.len()]) {
            proof {
                lemma_first_stacked_found(diffs@, i as int, diffs@.len());
            }
            return Some(i);
        }
        i += 1;
    }
    None
}

/// Once found, the first stacked entry stays the first for any longer search.
proof fn lemma_first_stacked_found(diffs: Seq<u8>, i: int, n: nat)
    requires
        0 <= i < n,
        first_stacked(diffs, i as nat) is None,
        stacked_at(diffs, i),
    ensures
        first_stacked(diffs, n) == Some(i),
    decreases n,
{
    if n > i + 1 {
        lemma_first_stacked_found(diffs, i, (n - 1) as nat);
    }
}

/// What classification reads off a set of pitches: the pitch classes, the
/// entry of the root among them, and the gaps counted from the root.
struct SimpleChordInfo {
    pitches: Vec<u8>,
    root_index: usize,
    thirds: Vec<u8>,
}

impl SimpleChordInfo {
    spec fn wf(&self) -> bool {
        &&& self.root_index < self.pitches.len()
        &&& self.thirds.len() == self.pitches.len()
        &&& self.thirds.len() >= 2
        &&& forall|k: int| 0 <= k < self.pitches.len() ==> (#[trigger] self.pitches[k]) < 12
    }

    /// The label that this reading stands for, where its gaps are `diffs`
    /// counted from the root.
    spec fn stands_for(&self, diffs: Seq<u8>) -> bool {
        &&& diffs.len() == self.thirds.len()
        &&& self.thirds[0] == diffs[self.root_index as int]
        &&& self.thirds[1] == diffs[(self.root_index + 1) % (diffs.len() as int)]
    }

    fn new(active: ActivePitches) -> (r: Option<Self>)
        ensures
            match r {
                Some(info) => {
                    let classes = members_below(pitch_classes(active@), 12);
                    &&& info.wf()
                    &&& info.pitches@ == classes
                    &&& first_stacked(gaps(classes), classes.len()) == Some(info.root_index as int)
                    &&& info.stands_for(gaps(classes))
                },
                None => chord_of(active@) is None,
            },
    {
        let (pitches, diffs) = ReducedPitches::new(active).pitches_diffs();
        proof {
            lemma_members_below(pitch_classes(active@), 12);
            lemma_gaps(pitch_classes(active@));
            lemma_first_stacked(diffs@, diffs@.len());
        }
        match first_third_index(diffs.as_slice()) {
            Some(root_index) => {
                let n = diffs.len();
                let mut thirds: Vec<u8> = Vec::new();
                let mut i: usize = 0;
                while i < n
                    invariant
                        i <= n,
                        n == diffs.len(),
                        n <= 12,
                        root_index < n,
                        thirds.len() == i,
                        forall|k: int|
                            0 <= k < i ==> thirds[k] == diffs[(root_index + k) % (n as int)],
                    decreases n - i,
                {
                    thirds.push(diffs[(root_index + i) % n]);
                    i = i + 1;
                }
                proof {
                    if n == 1 {
                        assert(gap(pitches@, 0) == 12);
                        assert(diffs[0] == 12);
                        assert(!stacked_at(diffs@, 0));
                    }
                    assert(n >= 2);
                    lemma_small_mod(root_index as nat, n as nat);
                    assert(thirds[0] == diffs[(root_index + 0) % (n as int)]);
                    assert(thirds[1] == diffs[(root_index + 1) % (n as int)]);
                    assert(diffs@ == gaps(pitches@));
                }
                let info = Self { pitches, root_index, thirds };
                assert(info.wf());
                assert(info.stands_for(diffs@));
                Some(info)
            },
            None => None,
        }
    }

    fn root_pitch_index(&self) -> (r: u8)
        requires
            self.wf(),
        ensures
            r == self.pitches[self.root_index as int],
            r < 12,
    {
        self.pitches[self.root_index]
    }

    fn mode(&self) -> (r: ChordName)
        requires
            self.wf(),
        ensures
            forall|diffs: Seq<u8>|
                self.stands_for(diffs) && stacked_at(diffs, self.root_index as int) ==> r == label(
                    self.pitches@,
                    diffs,
                    self.root_index as int,
                ),
    {
        let first = self.thirds[0];
        let second = self.thirds[1];
        if first == 3 {
            let (note, accidental) = minor_root(self.root_pitch_index());
            ChordName {
                note,
                accidental,
                mode: if second == 3 {
                    ChordMode::Diminished
                } else {
                    ChordMode::Minor
                },
            }
        } else {
            let (note, accidental) = major_root(self.root_pitch_index());
            ChordName {
                note,
                accidental,
                mode: if second == 3 {
                    ChordMode::Major
                } else {
                    ChordMode::Augmented
                },
            }
        }
    }
}

impl ChordName {
    /// The label as text: the root's letter and sign, a blank, the quality.
    pub open spec fn text(self) -> Seq<char> {
        self.note.text().push(self.accidental.sign()).push(' ') + self.mode.text()
    }

    /// The chord that the sounding pitches form, if they form one.
    pub fn new(active: ActivePitches) -> (r: Option<Self>)
        ensures
            r == chord_of(active@),
    {
        match SimpleChordInfo::new(active) {
            Some(info) => {
                proof {
                    let classes = members_below(pitch_classes(active@), 12);
                    lemma_first_stacked(gaps(classes), classes.len());
                }
                Some(info.mode())
            },
            None => None,
        }
    }

    /// The label as a string: the root's letter and sign, a blank, the quality.
    pub fn to_string(&self) -> (r: String)
        ensures
            r@ == self.text(),
    {
        proof {
            reveal_strlit(" ");
        }
        let mut r = String::from_str(self.note.name());
        r.append(self.accidental.symbol_str());
        r.append(" ");
        r.append(self.mode.name());
        assert(r@ =~= self.text());
        r
    }
}

/// A chord label with the pitches that it was read from.
#[derive(Copy, Clone, Debug, PartialEq, Eq, Structural)]
pub struct Chord {
    pub name: ChordName,
    pub notes: ActivePitches,
}

impl Chord {
    /// The chord as text: the label, then the pitches in increasing order,
    /// as a list in round brackets.
    pub open spec fn text(self) -> Seq<char> {
        self.name.text() + seq![' ', '('] + list_text(members_below(self.notes@, 128)) + seq![')']
    }

    /// The chord as a string: the label, then the pitches in increasing
    /// order, as a list in round brackets.
    pub fn to_string(&self) -> (r: String)
        ensures
            r@ == self.text(),
    {
        proof {
            reveal_strlit(" (");
            reveal_strlit(")");
        }
        let mut r = self.name.to_string();
        r.append(" (");
        let pitches = self.notes.iter();
        let list = list_string(&pitches);
        r.append(list.as_str());
        r.append(")");
        assert(r@ =~= self.text());
        r
    }
}

} // verus!
