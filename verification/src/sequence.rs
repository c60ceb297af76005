//! The beat sequence: the state of a run, the events that change it and the
//! text that a finished run is rendered as.

use crate::beat::{beat_text, push_beat, Beat, BeatView};
use crate::canonical::{
    canonical, is_canonical_of, lemma_canonical_idempotent, lemma_canonical_sorted_unique,
    sorted_unique,
};
use crate::error::GridError;
use crate::note::{normalized, Note};
use crate::text::{decimal, push_decimal};
use crate::timing::{bpm_from_tempo, bpm_of, cells_elapsed, cells_spanned, tempo_from_payload, tempo_of};
use vstd::prelude::*;
use vstd::string::StringExecFns;

verus! {

/// The state that a run accumulates: the time base of the file, the tempo once
/// it is known, and the beats so far. The last beat is the current one.
#[derive(Debug)]
pub struct BeatSequence {
    time_base: u16,
    bpm: Option<u32>,
    beats: Vec<Beat>,
}

/// A beat sequence as a mathematical value.
pub struct SequenceView {
    /// Ticks per quarter note; zero until a header has set it.
    pub time_base: u16,
    /// Grid cells per minute; `None` until a tempo has set it.
    pub bpm: Option<u32>,
    pub beats: Seq<BeatView>,
}

/// The values that a vector of beats stands for.
pub open spec fn beat_views(beats: Seq<Beat>) -> Seq<BeatView> {
    Seq::new(beats.len(), |i: int| beats[i]@)
}

/// The beats are numbered 1, 2, 3 and so on, with no gap and none twice.
pub open spec fn contiguous(beats: Seq<BeatView>) -> bool {
    forall|i: int| 0 <= i < beats.len() ==> (#[trigger] beats[i]).index == i + 1
}

/// The index that the next new beat gets.
pub open spec fn next_index(beats: Seq<BeatView>) -> nat {
    if beats.len() == 0 {
        1
    } else {
        beats.last().index + 1
    }
}

/// The beats with `cells` empty ones behind them, numbered on from the last.
pub open spec fn advanced(beats: Seq<BeatView>, cells: nat) -> Seq<BeatView> {
    beats + Seq::new(
        cells,
        |i: int| BeatView { index: (next_index(beats) + i) as nat, notes: Seq::empty() },
    )
}

/// The beats with `note` added to the last one. Where there is no beat yet,
/// the note opens beat 1.
pub open spec fn with_note(beats: Seq<BeatView>, note: Note) -> Seq<BeatView> {
    if beats.len() == 0 {
        seq![BeatView { index: 1, notes: seq![note] }]
    } else {
        beats.update(
            beats.len() - 1,
            BeatView { index: beats.last().index, notes: beats.last().notes.push(note) },
        )
    }
}

/// The beats after an onset that comes `cells` whole cells after the one
/// before. The first onset opens beat 1, whenever it comes.
pub open spec fn after_onset(beats: Seq<BeatView>, cells: nat, note: Note) -> Seq<BeatView> {
    if beats.len() == 0 {
        with_note(beats, note)
    } else {
        with_note(advanced(beats, cells), note)
    }
}

/// The cells by which an onset advances the grid: none before the first
/// onset, else those that its delta-time spans.
pub open spec fn cells_due(state: SequenceView, delta_time: u32) -> nat {
    if state.beats.len() == 0 || state.time_base == 0 {
        0
    } else {
        cells_spanned(delta_time as int, state.time_base as int) as nat
    }
}

/// The lines of the beats, each with its notes in canonical form and ended by
/// a line feed.
pub open spec fn lines_text(beats: Seq<BeatView>) -> Seq<char>
    decreases beats.len(),
{
    if beats.len() == 0 {
        Seq::empty()
    } else {
        lines_text(beats.drop_last()) + beat_text(
            BeatView { index: beats.last().index, notes: canonical(beats.last().notes) },
        ) + seq!['\n']
    }
}

/// The beats as rendering leaves them: each under its index, with its notes in
/// canonical form.
pub open spec fn settled(beats: Seq<BeatView>) -> Seq<BeatView> {
    Seq::new(
        beats.len(),
        |i: int| BeatView { index: beats[i].index, notes: canonical(beats[i].notes) },
    )
}

/// The whole output: the tempo on a line of its own, then the lines of the beats.
pub open spec fn output_text(bpm: nat, beats: Seq<BeatView>) -> Seq<char> {
    decimal(bpm) + seq!['\n'] + lines_text(beats)
}

impl SequenceView {
    /// The state before any event: no time base, no tempo, no beat.
    pub open spec fn initial() -> SequenceView {
        SequenceView { time_base: 0, bpm: None, beats: Seq::empty() }
    }

    /// The state after a header. A time base of zero is refused.
    pub open spec fn with_header(self, time_base: u16) -> Result<SequenceView, GridError> {
        if time_base == 0 {
            Err(GridError::Config)
        } else {
            Ok(SequenceView { time_base, ..self })
        }
    }

    /// The state after a tempo event. Only the first tempo counts: once one is
    /// set, a later event changes nothing, whatever it holds. A first tempo of
    /// zero is refused.
    pub open spec fn with_tempo(self, payload: Seq<u8>) -> Result<SequenceView, GridError> {
        if self.bpm is Some {
            Ok(self)
        } else if tempo_of(payload) == 0 {
            Err(GridError::Config)
        } else {
            Ok(SequenceView { bpm: Some(bpm_of(tempo_of(payload)) as u32), ..self })
        }
    }

    /// The state after an onset. It is refused where no time base is set, and
    /// then where the raw note number has no octave.
    pub open spec fn with_onset(self, delta_time: u32, raw_note: u8) -> Result<
        SequenceView,
        GridError,
    > {
        if self.time_base == 0 {
            Err(GridError::Config)
        } else {
            match normalized(raw_note) {
                None => Err(GridError::Range),
                Some(note) => Ok(
                    SequenceView {
                        beats: after_onset(
                            self.beats,
                            cells_spanned(delta_time as int, self.time_base as int) as nat,
                            note,
                        ),
                        ..self
                    },
                ),
            }
        }
    }

    /// The output for this state. Without a tempo there is none.
    pub open spec fn rendered(self) -> Result<Seq<char>, GridError> {
        match self.bpm {
            None => Err(GridError::Config),
            Some(bpm) => Ok(output_text(bpm as nat, self.beats)),
        }
    }

    /// The state that rendering leaves: the notes of every beat sorted, each
    /// note once. Where there is nothing to render, nothing changes.
    pub open spec fn finished(self) -> SequenceView {
        match self.bpm {
            None => self,
            Some(_) => SequenceView { beats: settled(self.beats), ..self },
        }
    }
}

/// How an event that is taken or refused leaves the sequence: where `expected`
/// is a state, the call succeeds and the sequence is in that state; where it is
/// an error, the call fails with that error and the sequence is as it was.
pub open spec fn applies(
    before: SequenceView,
    expected: Result<SequenceView, GridError>,
    r: Result<(), GridError>,
    after: SequenceView,
) -> bool {
    match expected {
        Ok(next) => r is Ok && after == next,
        Err(e) => r == Err::<(), GridError>(e) && after == before,
    }
}

impl View for BeatSequence {
    type V = SequenceView;

    closed spec fn view(&self) -> SequenceView {
        SequenceView { time_base: self.time_base, bpm: self.bpm, beats: beat_views(self.beats@) }
    }
}

/// Rendering leaves every beat under its index with the notes that were struck
/// in it, sorted ascending by octave and pitch class and none twice. It keeps
/// the numbering, and rendering again changes nothing and gives the same text.
pub proof fn lemma_settled(bpm: nat, beats: Seq<BeatView>)
    ensures
        settled(beats).len() == beats.len(),
        forall|i: int|
            0 <= i < beats.len() ==> (#[trigger] settled(beats)[i]).index == beats[i].index
                && is_canonical_of(settled(beats)[i].notes, beats[i].notes),
        contiguous(beats) ==> contiguous(settled(beats)),
        settled(settled(beats)) == settled(beats),
        lines_text(settled(beats)) == lines_text(beats),
        output_text(bpm, settled(beats)) == output_text(bpm, beats),
    decreases beats.len(),
{
    assert forall|i: int| 0 <= i < beats.len() implies is_canonical_of(
        (#[trigger] settled(beats)[i]).notes,
        beats[i].notes,
    ) && canonical(settled(beats)[i].notes) == settled(beats)[i].notes by {
        lemma_canonical_sorted_unique(beats[i].notes);
        lemma_canonical_idempotent(beats[i].notes);
    }
    assert(settled(settled(beats)) =~= settled(beats));
    if beats.len() > 0 {
        let last = beats.len() - 1;
        lemma_settled(bpm, beats.drop_last());
        assert(settled(beats).drop_last() =~= settled(beats.drop_last()));
        assert(settled(beats).last() == settled(beats)[last]);
        assert(canonical(settled(beats)[last].notes) == canonical(beats[last].notes));
        assert(lines_text(settled(beats)) == lines_text(beats));
    } else {
        assert(settled(beats) =~= beats);
    }
}

/// The index for a beat behind `beats`: one more than the last, or 1.
fn index_after(beats: &Vec<Beat>) -> (index: usize)
    requires
        contiguous(beat_views(beats@)),
        beats@.len() < usize::MAX,
    ensures
        index == next_index(beat_views(beats@)),
        index == beats@.len() + 1,
{
    let len = beats.len();
    if len == 0 {
        1
    } else {
        assert(beat_views(beats@)[len - 1].index == len);
        beats[len - 1].index + 1
    }
}

impl BeatSequence {
    /// The invariant of the sequence: its beats are numbered from 1 without a gap.
    #[verifier::type_invariant]
    spec fn numbered(self) -> bool {
        contiguous(beat_views(self.beats@))
    }

    /// A sequence that has seen no event.
    pub fn new() -> (sequence: BeatSequence)
        ensures
            sequence@ == SequenceView::initial(),
    {
        let sequence = BeatSequence { time_base: 0, bpm: None, beats: Vec::new() };
        assert(sequence@.beats =~= Seq::empty());
        sequence
    }

    /// Ticks per quarter note; zero while no header has come.
    pub fn time_base(&self) -> (time_base: u16)
        ensures
            time_base == self@.time_base,
    {
        self.time_base
    }

    /// Grid cells per minute, once a tempo has come.
    pub fn bpm(&self) -> (bpm: Option<u32>)
        ensures
            bpm == self@.bpm,
    {
        self.bpm
    }

    /// The number of beats so far.
    pub fn len(&self) -> (len: usize)
        ensures
            len == self@.beats.len(),
    {
        self.beats.len()
    }

    /// The beats so far, the current one last.
    pub fn beats(&self) -> (beats: &Vec<Beat>)
        ensures
            beat_views(beats@) == self@.beats,
            contiguous(self@.beats),
    {
        proof {
            use_type_invariant(self);
        }
        &self.beats
    }

    /// Takes the time base from the file header. A time base of zero is refused
    /// and leaves the sequence as it was.
    pub fn header(&mut self, format: u16, track: u16, time_base: u16) -> (r: Result<(), GridError>)
        ensures
            contiguous(final(self)@.beats),
            applies(old(self)@, old(self)@.with_header(time_base), r, final(self)@),
    {
        proof {
            use_type_invariant(&*self);
        }
        if time_base == 0 {
            return Err(GridError::Config);
        }
        self.time_base = time_base;
        Ok(())
    }

    /// Takes the tempo from a tempo event. Only the first tempo counts: once one
    /// is set, later events change nothing. A first tempo of zero is refused.
    pub fn set_tempo(&mut self, payload: [u8; 3]) -> (r: Result<(), GridError>)
        ensures
            contiguous(final(self)@.beats),
            applies(old(self)@, old(self)@.with_tempo(payload@), r, final(self)@),
    {
        proof {
            use_type_invariant(&*self);
        }
        if self.bpm.is_some() {
            return Ok(());
        }
        match bpm_from_tempo(tempo_from_payload(payload)) {
            Ok(bpm) => {
                self.bpm = Some(bpm);
                Ok(())
            },
            Err(e) => Err(e),
        }
    }

    /// Notes that a new track begins. The grid runs on unchanged.
    pub fn track_change(&mut self)
        ensures
            contiguous(final(self)@.beats),
            final(self)@ == old(self)@,
    {
        proof {
            use_type_invariant(&*self);
        }
    }

    /// The index for the next new beat: one more than the last, or 1.
    pub fn new_index(&self) -> (index: usize)
        requires
            self@.beats.len() < usize::MAX,
        ensures
            index == next_index(self@.beats),
            index == self@.beats.len() + 1,
    {
        proof {
            use_type_invariant(self);
        }
        index_after(&self.beats)
    }

    /// Appends `cells` empty beats, numbered on from the last.
    pub fn advance(&mut self, cells: u64)
        requires
            old(self)@.beats.len() + cells <= usize::MAX,
        ensures
            contiguous(final(self)@.beats),
            final(self)@ == (SequenceView {
                beats: advanced(old(self)@.beats, cells as nat),
                ..old(self)@
            }),
    {
        proof {
            use_type_invariant(&*self);
        }
        let mut beats: Vec<Beat> = Vec::new();
        core::mem::swap(&mut beats, &mut self.beats);
        let ghost before = beat_views(beats@);
        let mut added: u64 = 0;
        while added < cells
            invariant
                added <= cells,
                before.len() + cells <= usize::MAX,
                contiguous(before),
                beat_views(beats@) == advanced(before, added as nat),
            decreases cells - added,
        {
            let ghost so_far = beat_views(beats@);
            assert(so_far.len() == before.len() + added);
            let index = index_after(&beats);
            beats.push(Beat::empty(index));
            added += 1;
            assert(beat_views(beats@) =~= so_far.push(
                BeatView { index: index as nat, notes: Seq::empty() },
            ));
        }
        self.beats = beats;
    }

    /// Adds a note to the current beat. Where there is no beat yet, the note
    /// opens beat 1.
    pub fn add_to_last_beat(&mut self, note: Note)
        ensures
            contiguous(final(self)@.beats),
            final(self)@ == (SequenceView {
                beats: with_note(old(self)@.beats, note),
                ..old(self)@
            }),
    {
        proof {
            use_type_invariant(&*self);
        }
        let mut beats: Vec<Beat> = Vec::new();
        core::mem::swap(&mut beats, &mut self.beats);
        let ghost before = beat_views(beats@);
        match beats.pop() {
            Some(mut beat) => {
                beat.notes.push(note);
                beats.push(beat);
            },
            None => {
                beats.push(Beat::with_note(1, note));
            },
        }
        assert(beat_views(beats@) =~= with_note(before, note));
        self.beats = beats;
    }

    /// Whether the grid can advance by what an onset after `delta_time` ticks
    /// asks for without the beat indices leaving `usize`.
    pub fn has_room(&self, delta_time: u32) -> (room: bool)
        ensures
            room == (self@.beats.len() + cells_due(self@, delta_time) <= usize::MAX),
    {
        if self.beats.len() == 0 {
            return true;
        }
        match cells_elapsed(delta_time, self.time_base) {
            Ok(cells) => cells <= (usize::MAX - self.beats.len()) as u64,
            Err(_) => true,
        }
    }

    /// Places an onset in the grid. The first onset opens beat 1. A later one
    /// first advances the grid by the whole cells that its delta-time spans,
    /// then joins the current beat: the one it shares with the onset before it
    /// where the delta-time fills no cell. An onset is refused, and the sequence
    /// left as it was, where no time base is set or the note has no octave.
    pub fn note_on(&mut self, delta_time: u32, raw_note: u8) -> (r: Result<(), GridError>)
        requires
            old(self)@.beats.len() + cells_due(old(self)@, delta_time) <= usize::MAX,
        ensures
            contiguous(final(self)@.beats),
            applies(old(self)@, old(self)@.with_onset(delta_time, raw_note), r, final(self)@),
    {
        proof {
            use_type_invariant(&*self);
        }
        let cells = match cells_elapsed(delta_time, self.time_base) {
            Ok(cells) => cells,
            Err(e) => { return Err(e); },
        };
        let note = match Note::from_midi(raw_note) {
            Ok(note) => note,
            Err(e) => { return Err(e); },
        };
        if self.beats.len() > 0 {
            self.advance(cells);
        }
        self.add_to_last_beat(note);
        Ok(())
    }

    /// Renders the finished sequence: the tempo on the first line, then one
    /// line for each beat in order, its notes sorted and each listed once.
    /// The beats keep their notes in that form: sorted, and none twice.
    /// Without a tempo there is nothing to render, and nothing changes.
    pub fn serialize(&mut self) -> (r: Result<String, GridError>)
        ensures
            contiguous(final(self)@.beats),
            final(self)@ == old(self)@.finished(),
            match old(self)@.bpm {
                Some(bpm) => {
                    &&& r matches Ok(text) && text@ == output_text(bpm as nat, old(self)@.beats)
                    &&& final(self)@.time_base == old(self)@.time_base
                    &&& final(self)@.bpm == old(self)@.bpm
                    &&& final(self)@.beats.len() == old(self)@.beats.len()
                    &&& forall|i: int|
                        0 <= i < old(self)@.beats.len() ==> #[trigger] final(self)@.beats[i] == (
                        BeatView {
                            index: old(self)@.beats[i].index,
                            notes: canonical(old(self)@.beats[i].notes),
                        })
                    &&& forall|i: int|
                        0 <= i < old(self)@.beats.len() ==> is_canonical_of(
                            (#[trigger] final(self)@.beats[i]).notes,
                            old(self)@.beats[i].notes,
                        )
                },
                None => r == Err::<String, GridError>(GridError::Config) && final(self)@ == old(self)@,
            },
    {
        proof {
            use_type_invariant(&*self);
        }
        let bpm = match self.bpm {
            Some(bpm) => bpm,
            None => { return Err(GridError::Config); },
        };
        let mut text = String::new();
        push_decimal(&mut text, bpm as u64);
        proof {
            reveal_strlit("\n");
        }
        text.append("\n");
        let mut beats: Vec<Beat> = Vec::new();
        core::mem::swap(&mut beats, &mut self.beats);
        let ghost before = beat_views(beats@);
        let mut done: usize = 0;
        while done < beats.len()
            invariant
                done <= beats.len(),
                beats.len() == before.len(),
                text@ == output_text(bpm as nat, before.take(done as int)),
                forall|i: int| 0 <= i < done ==> #[trigger] beat_views(beats@)[i] == settled(before)[i],
                forall|i: int| done <= i < beats.len() ==> #[trigger] beat_views(beats@)[i] == before[i],
            decreases beats.len() - done,
        {
            let ghost shown = before.take(done as int);
            let ghost grown = before.take(done + 1);
            let ghost views = beat_views(beats@);
            assert(views[done as int] == before[done as int]);
            let index = beats[done].index;
            let notes = sorted_unique(&beats[done].notes);
            push_beat(&mut text, index, &notes);
            proof {
                reveal_strlit("\n");
            }
            text.append("\n");
            beats.set(done, Beat { index, notes });
            assert(grown.drop_last() =~= shown);
            assert forall|i: int| 0 <= i <= done implies #[trigger] beat_views(beats@)[i] == settled(
                before,
            )[i] by {
                if i < done {
                    assert(beat_views(beats@)[i] == views[i]);
                }
            }
            assert forall|i: int| done < i < beats.len() implies #[trigger] beat_views(beats@)[i]
                == before[i] by {
                assert(beat_views(beats@)[i] == views[i]);
            }
            done += 1;
        }
        assert(before.take(done as int) =~= before);
        assert(beat_views(beats@) =~= settled(before));
        proof {
            lemma_settled(bpm as nat, before);
        }
        self.beats = beats;
        Ok(text)
    }
}

} // verus!
