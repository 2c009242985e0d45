use vstd::prelude::*;

verus! {

/// The letter class that a slot draws from.
#[derive(Clone, Copy, PartialEq, Eq, Structural, Debug)]
pub enum Category {
    Consonant,
    Vowel,
    Nasal,
}

/// One slot of a syllable shape: its letter class and the percentage chance
/// (0 to 100) that the slot is present in a given syllable.
#[derive(Clone, Copy, PartialEq, Eq, Structural, Debug)]
pub enum SyllableLetter {
    Consonant(u8),
    Vowel(u8),
    Nasal(u8),
}

impl SyllableLetter {
    pub open spec fn percent(self) -> u8 {
        match self {
            SyllableLetter::Consonant(p) => p,
            SyllableLetter::Vowel(p) => p,
            SyllableLetter::Nasal(p) => p,
        }
    }

    pub open spec fn category(self) -> Category {
        match self {
            SyllableLetter::Consonant(_) => Category::Consonant,
            SyllableLetter::Vowel(_) => Category::Vowel,
            SyllableLetter::Nasal(_) => Category::Nasal,
        }
    }

    /// The same class with the percentage `p`.
    pub open spec fn with_percent(self, p: u8) -> SyllableLetter {
        match self {
            SyllableLetter::Consonant(_) => SyllableLetter::Consonant(p),
            SyllableLetter::Vowel(_) => SyllableLetter::Vowel(p),
            SyllableLetter::Nasal(_) => SyllableLetter::Nasal(p),
        }
    }

    /// The chance, in percent, that this slot is present in a syllable.
    pub fn probability(self) -> (r: u8)
        ensures
            r == self.percent(),
    {
        match self {
            SyllableLetter::Consonant(f) | SyllableLetter::Vowel(f) | SyllableLetter::Nasal(f) => f,
        }
    }

    /// Sets the slot's percentage to `p`, keeps its class, and returns the
    /// updated slot.
    pub fn change_probability(&mut self, p: u8) -> (r: SyllableLetter)
        ensures
            *final(self) == old(self).with_percent(p),
            r == *final(self),
    {
        *self = match *self {
            SyllableLetter::Consonant(_) => SyllableLetter::Consonant(p),
            SyllableLetter::Vowel(_) => SyllableLetter::Vowel(p),
            SyllableLetter::Nasal(_) => SyllableLetter::Nasal(p),
        };
        *self
    }
}

/// A syllable shape: its slots from left to right.
#[derive(Clone, PartialEq, Eq, Debug, Default)]
pub struct SyllableOrder(pub Vec<SyllableLetter>);

impl SyllableOrder {
    /// Puts `letter` at position `index`, shifting the later slots right.
    pub fn insert(&mut self, index: usize, letter: SyllableLetter)
        requires
            index <= old(self).0@.len(),
        ensures
            final(self).0@ == old(self).0@.insert(index as int, letter),
    {
        self.0.insert(index, letter);
    }

    /// The number of slots.
    pub fn len(&self) -> (r: usize)
        ensures
            r == self.0@.len(),
    {
        self.0.len()
    }
}

} // verus!
