//! A beat of the grid and its line of text.

use crate::note::Note;
use crate::text::{decimal, push_decimal, push_two_digits, two_digits};
use vstd::prelude::*;
use vstd::string::StringExecFns;

verus! {

/// One cell of the grid: its place in the sequence, counted from 1, and the
/// notes struck in it. They stand in the order in which they came until the
/// sequence is rendered, and from then on sorted, each note once.
#[derive(Debug, PartialEq, Eq)]
pub struct Beat {
    pub index: usize,
    pub notes: Vec<Note>,
}

/// A beat as a mathematical value.
pub struct BeatView {
    pub index: nat,
    pub notes: Seq<Note>,
}

impl Clone for Beat {
    fn clone(&self) -> (copy: Beat)
        ensures
            copy@ == self@,
    {
        Beat { index: self.index, notes: self.notes.clone() }
    }
}

impl View for Beat {
    type V = BeatView;

    open spec fn view(&self) -> BeatView {
        BeatView { index: self.index as nat, notes: self.notes@ }
    }
}

/// What stands between two notes of a line.
pub open spec fn separator() -> Seq<char> {
    seq![' ', '|', ' ']
}

/// A note as text: the octave, a space, and the pitch class in two digits.
pub open spec fn note_text(note: Note) -> Seq<char> {
    decimal(note.octave as nat) + seq![' '] + two_digits(note.key as nat)
}

/// Notes as text, in their order, with a separator between neighbours and
/// none at either end.
pub open spec fn notes_text(notes: Seq<Note>) -> Seq<char>
    decreases notes.len(),
{
    if notes.len() == 0 {
        Seq::empty()
    } else if notes.len() == 1 {
        note_text(notes[0])
    } else {
        notes_text(notes.drop_last()) + separator() + note_text(notes.last())
    }
}

/// A beat as text: the index in square brackets, a space, and the notes.
pub open spec fn beat_text(beat: BeatView) -> Seq<char> {
    seq!['['] + decimal(beat.index) + seq![']', ' '] + notes_text(beat.notes)
}

/// Appends a note as text to `out`.
pub fn push_note(out: &mut String, note: Note)
    ensures
        final(out)@ == old(out)@ + note_text(note),
{
    push_decimal(out, note.octave as u64);
    proof {
        reveal_strlit(" ");
    }
    out.append(" ");
    push_two_digits(out, note.key as u64);
}

/// Appends notes as text to `out`, in their order.
pub fn push_notes(out: &mut String, notes: &Vec<Note>)
    ensures
        final(out)@ == old(out)@ + notes_text(notes@),
{
    let mut done: usize = 0;
    while done < notes.len()
        invariant
            done <= notes.len(),
            out@ == old(out)@ + notes_text(notes@.take(done as int)),
        decreases notes.len() - done,
    {
        let ghost shown = notes@.take(done as int);
        let ghost grown = notes@.take(done + 1);
        proof {
            assert(grown.drop_last() =~= shown);
        }
        if done > 0 {
            proof {
                reveal_strlit(" | ");
            }
            out.append(" | ");
        }
        push_note(out, notes[done]);
        done += 1;
    }
    proof {
        assert(notes@.take(done as int) =~= notes@);
    }
}

/// Appends the line of a beat to `out`: the index in square brackets, a
/// space, and the notes in the order given.
pub fn push_beat(out: &mut String, index: usize, notes: &Vec<Note>)
    ensures
        final(out)@ == old(out)@ + beat_text(BeatView { index: index as nat, notes: notes@ }),
{
    proof {
        reveal_strlit("[");
        reveal_strlit("] ");
    }
    out.append("[");
    push_decimal(out, index as u64);
    out.append("] ");
    push_notes(out, notes);
}

impl Beat {
    /// A beat in which nothing was struck.
    pub fn empty(index: usize) -> (beat: Beat)
        ensures
            beat@ == (BeatView { index: index as nat, notes: Seq::empty() }),
    {
        Beat { index, notes: Vec::new() }
    }

    /// A beat that opens with one note.
    pub fn with_note(index: usize, note: Note) -> (beat: Beat)
        ensures
            beat@ == (BeatView { index: index as nat, notes: seq![note] }),
    {
        let mut notes: Vec<Note> = Vec::new();
        notes.push(note);
        Beat { index, notes }
    }

    /// The beat as one line of text, the notes as they stand.
    pub fn render(&self) -> (text: String)
        ensures
            text@ == beat_text(self@),
    {
        let mut text = String::new();
        push_beat(&mut text, self.index, &self.notes);
        text
    }
}

} // verus!
