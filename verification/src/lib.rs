//! Quantizes a stream of MIDI note-on events into a fixed-resolution beat grid.
//!
//! A decoder feeds the file's time base, its tempo and its note onsets to a
//! [`BeatSequence`], one [`Event`] at a time or all at once through
//! [`transcribe`]. Every onset is placed in the grid cell that its delta-time
//! reaches, as an octave and a pitch class, and the finished sequence is rendered
//! as text: the tempo first, then one line for each cell.

pub mod beat;
pub mod canonical;
pub mod error;
pub mod event;
pub mod note;
pub mod sequence;
pub mod text;
pub mod timing;

pub use beat::Beat;
pub use error::GridError;
pub use event::{transcribe, Event};
pub use note::Note;
pub use sequence::BeatSequence;
