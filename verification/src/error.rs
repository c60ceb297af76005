//! The errors that end a run.

use vstd::prelude::*;

verus! {

/// Why an event was refused. Either kind ends the run: nothing is retried and
/// no partial result is produced.
#[derive(Clone, Copy, Debug, PartialEq, Eq, Structural)]
pub enum GridError {
    /// The time base or the tempo is zero or was never given, so the grid
    /// arithmetic has no meaning.
    Config,
    /// A raw note number lies below the lowest octave that a [`crate::Note`] can hold.
    Range,
}

} // verus!
