//! Note letters, accidentals and spelled note names.

use vstd::prelude::*;

verus! {

/// One of the seven note letters, in cyclic order starting at C.
#[derive(Copy, Clone, Debug, PartialEq, Eq, Structural)]
pub enum NoteLetter {
    C,
    D,
    E,
    F,
    G,
    A,
    B,
}

impl NoteLetter {
    /// Position of the letter in the cycle C, D, E, F, G, A, B.
    pub open spec fn index(self) -> int {
        match self {
            NoteLetter::C => 0,
            NoteLetter::D => 1,
            NoteLetter::E => 2,
            NoteLetter::F => 3,
            NoteLetter::G => 4,
            NoteLetter::A => 5,
            NoteLetter::B => 6,
        }
    }

    /// Semitone of the unaltered letter within the octave that starts at C.
    pub open spec fn pitch_class(self) -> int {
        match self {
            NoteLetter::C => 0,
            NoteLetter::D => 2,
            NoteLetter::E => 4,
            NoteLetter::F => 5,
            NoteLetter::G => 7,
            NoteLetter::A => 9,
            NoteLetter::B => 11,
        }
    }

    /// The letter's name as text.
    pub open spec fn text(self) -> Seq<char> {
        match self {
            NoteLetter::C => seq!['C'],
            NoteLetter::D => seq!['D'],
            NoteLetter::E => seq!['E'],
            NoteLetter::F => seq!['F'],
            NoteLetter::G => seq!['G'],
            NoteLetter::A => seq!['A'],
            NoteLetter::B => seq!['B'],
        }
    }

    /// The following letter; B is followed by C.
    pub fn next(&self) -> (r: Self)
        ensures
            r.index() == (self.index() + 1) % 7,
    {
        match self {
            NoteLetter::C => NoteLetter::D,
            NoteLetter::D => NoteLetter::E,
            NoteLetter::E => NoteLetter::F,
            NoteLetter::F => NoteLetter::G,
            NoteLetter::G => NoteLetter::A,
            NoteLetter::A => NoteLetter::B,
            NoteLetter::B => NoteLetter::C,
        }
    }

    /// The preceding letter; C is preceded by B.
    pub fn prev(&self) -> (r: Self)
        ensures
            r.index() == (self.index() + 6) % 7,
    {
        match self {
            NoteLetter::C => NoteLetter::B,
            NoteLetter::D => NoteLetter::C,
            NoteLetter::E => NoteLetter::D,
            NoteLetter::F => NoteLetter::E,
            NoteLetter::G => NoteLetter::F,
            NoteLetter::A => NoteLetter::G,
            NoteLetter::B => NoteLetter::A,
        }
    }

    pub fn natural_pitch(&self) -> (r: u8)
        ensures
            r == self.pitch_class(),
    {
        match self {
            NoteLetter::C => 0,
            NoteLetter::D => 2,
            NoteLetter::E => 4,
            NoteLetter::F => 5,
            NoteLetter::G => 7,
            NoteLetter::A => 9,
            NoteLetter::B => 11,
        }
    }

    /// The letter's name, for display.
    pub fn name(&self) -> (r: &'static str)
        ensures
            r@ == self.text(),
    {
        proof {
            reveal_strlit("C");
            reveal_strlit("D");
            reveal_strlit("E");
            reveal_strlit("F");
            reveal_strlit("G");
            reveal_strlit("A");
            reveal_strlit("B");
        }
        let r = match self {
            NoteLetter::C => "C",
            NoteLetter::D => "D",
            NoteLetter::E => "E",
            NoteLetter::F => "F",
            NoteLetter::G => "G",
            NoteLetter::A => "A",
            NoteLetter::B => "B",
        };
        assert(r@ =~= self.text());
        r
    }
}

/// A semitone alteration of a note letter.
#[derive(Copy, Clone, Debug, PartialEq, Eq, Structural)]
pub enum Accidental {
    Flat,
    Natural,
    Sharp,
}

impl Accidental {
    /// Signed semitone shift: one down, none, one up.
    pub open spec fn shift(self) -> int {
        match self {
            Accidental::Flat => -1,
            Accidental::Natural => 0,
            Accidental::Sharp => 1,
        }
    }

    /// The printed sign; a natural prints as a blank.
    pub open spec fn sign(self) -> char {
        match self {
            Accidental::Flat => '\u{266d}',
            Accidental::Natural => ' ',
            Accidental::Sharp => '\u{266f}',
        }
    }

    pub fn symbol(&self) -> (r: char)
        ensures
            r == self.sign(),
    {
        match self {
            Accidental::Flat => '\u{266d}',
            Accidental::Natural => ' ',
            Accidental::Sharp => '\u{266f}',
        }
    }

    /// The printed sign as a one-character string.
    pub fn symbol_str(&self) -> (r: &'static str)
        ensures
            r@ == seq![self.sign()],
    {
        proof {
            reveal_strlit("\u{266d}");
            reveal_strlit(" ");
            reveal_strlit("\u{266f}");
        }
        let r = match self {
            Accidental::Flat => "\u{266d}",
            Accidental::Natural => " ",
            Accidental::Sharp => "\u{266f}",
        };
        assert(r@ =~= seq![self.sign()]);
        r
    }

    /// Shifts `natural` by the accidental. The result stays within `u8`:
    /// a flat of 0 and a sharp of 255 give no pitch.
    pub fn pitch_shift(&self, natural: u8) -> (r: Option<u8>)
        ensures
            r is Some <==> 0 <= natural + self.shift() <= u8::MAX,
            r is Some ==> r->0 == natural + self.shift(),
    {
        match self {
            Accidental::Flat => {
                if natural > 0 {
                    Some(natural - 1)
                } else {
                    None
                }
            },
            Accidental::Natural => Some(natural),
            Accidental::Sharp => {
                if natural < u8::MAX {
                    Some(natural + 1)
                } else {
                    None
                }
            },
        }
    }
}

/// A note letter with an accidental.
#[derive(Copy, Clone, Debug, PartialEq, Eq, Structural)]
pub struct NoteName {
    letter: NoteLetter,
    modifier: Accidental,
}

/// Spelling of a pitch class as the root of a major-family chord.
pub open spec fn major_spelling(class: int) -> (NoteLetter, Accidental) {
    if class == 0 {
        (NoteLetter::C, Accidental::Natural)
    } else if class == 1 {
        (NoteLetter::D, Accidental::Flat)
    } else if class == 2 {
        (NoteLetter::D, Accidental::Natural)
    } else if class == 3 {
        (NoteLetter::E, Accidental::Flat)
    } else if class == 4 {
        (NoteLetter::E, Accidental::Natural)
    } else if class == 5 {
        (NoteLetter::F, Accidental::Natural)
    } else if class == 6 {
        (NoteLetter::F, Accidental::Sharp)
    } else if class == 7 {
        (NoteLetter::G, Accidental::Natural)
    } else if class == 8 {
        (NoteLetter::A, Accidental::Flat)
    } else if class == 9 {
        (NoteLetter::A, Accidental::Natural)
    } else if class == 10 {
        (NoteLetter::B, Accidental::Flat)
    } else {
        (NoteLetter::B, Accidental::Natural)
    }
}

/// Spelling of a pitch class as the root of a minor-family chord.
pub open spec fn minor_spelling(class: int) -> (NoteLetter, Accidental) {
    if class == 0 {
        (NoteLetter::C, Accidental::Natural)
    } else if class == 1 {
        (NoteLetter::C, Accidental::Sharp)
    } else if class == 2 {
        (NoteLetter::D, Accidental::Natural)
    } else if class == 3 {
        (NoteLetter::E, Accidental::Flat)
    } else if class == 4 {
        (NoteLetter::E, Accidental::Natural)
    } else if class == 5 {
        (NoteLetter::F, Accidental::Natural)
    } else if class == 6 {
        (NoteLetter::F, Accidental::Sharp)
    } else if class == 7 {
        (NoteLetter::G, Accidental::Natural)
    } else if class == 8 {
        (NoteLetter::G, Accidental::Sharp)
    } else if class == 9 {
        (NoteLetter::A, Accidental::Natural)
    } else if class == 10 {
        (NoteLetter::B, Accidental::Flat)
    } else {
        (NoteLetter::B, Accidental::Natural)
    }
}

/// The major-family spelling of pitch class `class`.
pub fn major_root(class: u8) -> (r: (NoteLetter, Accidental))
    requires
        class < 12,
    ensures
        r == major_spelling(class as int),
{
    match class {
        0 => (NoteLetter::C, Accidental::Natural),
        1 => (NoteLetter::D, Accidental::Flat),
        2 => (NoteLetter::D, Accidental::Natural),
        3 => (NoteLetter::E, Accidental::Flat),
        4 => (NoteLetter::E, Accidental::Natural),
        5 => (NoteLetter::F, Accidental::Natural),
        6 => (NoteLetter::F, Accidental::Sharp),
        7 => (NoteLetter::G, Accidental::Natural),
        8 => (NoteLetter::A, Accidental::Flat),
        9 => (NoteLetter::A, Accidental::Natural),
        10 => (NoteLetter::B, Accidental::Flat),
        _ => (NoteLetter::B, Accidental::Natural),
    }
}

/// The minor-family spelling of pitch class `class`.
pub fn minor_root(class: u8) -> (r: (NoteLetter, Accidental))
    requires
        class < 12,
    ensures
        r == minor_spelling(class as int),
{
    match class {
        0 => (NoteLetter::C, Accidental::Natural),
        1 => (NoteLetter::C, Accidental::Sharp),
        2 => (NoteLetter::D, Accidental::Natural),
        3 => (NoteLetter::E, Accidental::Flat),
        4 => (NoteLetter::E, Accidental::Natural),
        5 => (NoteLetter::F, Accidental::Natural),
        6 => (NoteLetter::F, Accidental::Sharp),
        7 => (NoteLetter::G, Accidental::Natural),
        8 => (NoteLetter::G, Accidental::Sharp),
        9 => (NoteLetter::A, Accidental::Natural),
        10 => (NoteLetter::B, Accidental::Flat),
        _ => (NoteLetter::B, Accidental::Natural),
    }
}

impl NoteName {
    pub closed spec fn spec_letter(&self) -> NoteLetter {
        self.letter
    }

    pub closed spec fn spec_modifier(&self) -> Accidental {
        self.modifier
    }

    /// The semitone the name resolves to in the lowest octave. It is -1 for
    /// C flat, which lies below the lowest pitch.
    pub open spec fn semitone(self) -> int {
        self.letter().pitch_class() + self.modifier().shift()
    }

    /// The name as text: the letter followed by the accidental's sign.
    pub open spec fn text(self) -> Seq<char> {
        self.letter().text().push(self.modifier().sign())
    }

    pub fn new(letter: NoteLetter, modifier: Accidental) -> (r: Self)
        ensures
            r.spec_letter() == letter,
            r.spec_modifier() == modifier,
    {
        Self { letter, modifier }
    }

    #[verifier::when_used_as_spec(spec_letter)]
    pub fn letter(&self) -> (r: NoteLetter)
        ensures
            r == self.spec_letter(),
    {
        self.letter
    }

    #[verifier::when_used_as_spec(spec_modifier)]
    pub fn modifier(&self) -> (r: Accidental)
        ensures
            r == self.spec_modifier(),
    {
        self.modifier
    }

    /// The name under which `pitch` is spelled in a major context. The name
    /// resolves to the pitch class of `pitch`.
    pub fn name_of(pitch: u8) -> (r: Self)
        ensures
            (r.letter(), r.modifier()) == major_spelling(pitch as int % 12),
            r.semitone() == pitch % 12,
    {
        let (letter, modifier) = major_root(pitch % 12);
        Self { letter, modifier }
    }

    /// The lowest pitch that carries this name.
    pub fn lowest_midi_note(&self) -> (r: u8)
        requires
            self.semitone() >= 0,
        ensures
            r == self.semitone(),
    {
        let shifted = self.modifier.pitch_shift(self.letter.natural_pitch());
        shifted.unwrap()
    }

    /// The name as a string: the letter followed by the accidental's sign.
    pub fn to_string(&self) -> (r: String)
        ensures
            r@ == self.text(),
    {
        let mut r = String::from_str(self.letter.name());
        r.append(self.modifier.symbol_str());
        assert(r@ =~= self.text());
        r
    }
}

/// Both spelling tables name the pitch class they are asked for.
pub proof fn lemma_spellings_resolve(class: int)
    requires
        0 <= class < 12,
    ensures
        major_spelling(class).0.pitch_class() + major_spelling(class).1.shift() == class,
        minor_spelling(class).0.pitch_class() + minor_spelling(class).1.shift() == class,
{
}

} // verus!
