//! Notes as octave and pitch class, and their order.

use crate::error::GridError;
use core::cmp::Ordering;
use vstd::prelude::*;

verus! {

/// Pitch classes in an octave.
pub const PITCH_CLASSES: u8 = 12;

/// One onset: the register it sounds in and its pitch class within that register.
#[derive(Clone, Copy, Debug, PartialEq, Eq, Structural)]
pub struct Note {
    pub octave: u8,
    pub key: u8,
}

/// The octave of a raw note number. It is negative for the twelve lowest numbers.
pub open spec fn octave_of(raw: int) -> int {
    raw / 12 - 1
}

/// The pitch class of a raw note number.
pub open spec fn pitch_class_of(raw: int) -> int {
    raw % 12
}

/// The note that a raw number stands for, where its octave is not negative.
pub open spec fn normalized(raw: u8) -> Option<Note> {
    if raw < 12 {
        None
    } else {
        Some(Note { octave: octave_of(raw as int) as u8, key: pitch_class_of(raw as int) as u8 })
    }
}

/// Every raw number splits into an octave and a pitch class between 0 and 11,
/// and is recovered from the two.
pub proof fn lemma_pitch_decomposition(raw: int)
    requires
        0 <= raw,
    ensures
        0 <= pitch_class_of(raw) <= 11,
        -1 <= octave_of(raw),
        raw == 12 * (octave_of(raw) + 1) + pitch_class_of(raw),
{
}

/// A raw number from 12 up is normalized to exactly its octave and pitch class.
pub proof fn lemma_normalized_fields(raw: u8)
    requires
        raw >= 12,
    ensures
        normalized(raw) matches Some(note) && note.octave == octave_of(raw as int) && note.key
            == pitch_class_of(raw as int) && note.key <= 11 && note.octave <= 20,
{
}

impl Note {
    /// Strict order: by octave, then by pitch class.
    pub open spec fn precedes(self, other: Note) -> bool {
        self.octave < other.octave || (self.octave == other.octave && self.key < other.key)
    }

    /// Three-way comparison in the order of [`Note::precedes`].
    pub open spec fn ordering(self, other: Note) -> Ordering {
        if self.precedes(other) {
            Ordering::Less
        } else if other.precedes(self) {
            Ordering::Greater
        } else {
            Ordering::Equal
        }
    }

    /// Splits a raw MIDI note number into octave and pitch class. The twelve
    /// lowest numbers have no octave and are refused.
    pub fn from_midi(raw: u8) -> (r: Result<Note, GridError>)
        ensures
            r == match normalized(raw) {
                Some(note) => Ok::<Note, GridError>(note),
                None => Err::<Note, GridError>(GridError::Range),
            },
    {
        if raw < PITCH_CLASSES {
            Err(GridError::Range)
        } else {
            Ok(Note { octave: raw / PITCH_CLASSES - 1, key: raw % PITCH_CLASSES })
        }
    }

    /// Compares by octave first and by pitch class where the octaves agree.
    pub fn cmp(&self, other: &Note) -> (o: Ordering)
        ensures
            o == self.ordering(*other),
    {
        if self.octave < other.octave {
            Ordering::Less
        } else if self.octave > other.octave {
            Ordering::Greater
        } else if self.key < other.key {
            Ordering::Less
        } else if self.key > other.key {
            Ordering::Greater
        } else {
            Ordering::Equal
        }
    }
}

impl PartialOrd for Note {
    fn partial_cmp(&self, other: &Note) -> (r: Option<Ordering>) {
        Some(self.cmp(other))
    }
}

impl vstd::std_specs::cmp::PartialOrdSpecImpl for Note {
    open spec fn obeys_partial_cmp_spec() -> bool {
        true
    }

    open spec fn partial_cmp_spec(&self, other: &Note) -> Option<Ordering> {
        Some(self.ordering(*other))
    }
}

/// The order of notes is total: of two notes exactly one precedes the other, or
/// they are equal; and it is transitive.
pub proof fn lemma_note_order_total(a: Note, b: Note, c: Note)
    ensures
        !a.precedes(a),
        a.precedes(b) || b.precedes(a) || a == b,
        !(a.precedes(b) && b.precedes(a)),
        a.precedes(b) && b.precedes(c) ==> a.precedes(c),
        a.ordering(b) == Ordering::Equal <==> a == b,
{
}

} // verus!
