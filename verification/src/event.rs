//! A file as a sequence of events, what a run over them comes to, and what
//! holds of every run.

use crate::beat::BeatView;
use crate::error::GridError;
use crate::note::{normalized, Note};
use crate::sequence::{
    advanced, after_onset, applies, cells_due, contiguous, next_index, BeatSequence, SequenceView,
};
use crate::timing::cells_spanned;
use crate::text::decimal;
use vstd::prelude::*;

verus! {

/// What a decoder reports of a file, in file order.
#[derive(Clone, Copy, Debug, PartialEq, Eq)]
pub enum Event {
    /// The file header, with the ticks per quarter note.
    Header { format: u16, track: u16, time_base: u16 },
    /// A tempo event: microseconds per quarter note in three bytes, the most
    /// significant first.
    Tempo { payload: [u8; 3] },
    /// A note struck `delta_time` ticks after the event before it.
    NoteOn { delta_time: u32, note: u8 },
    /// The start of a track.
    TrackChange,
    /// Any other event, `delta_time` ticks after the event before it. The grid
    /// takes no notice of it, nor of its ticks.
    Other { delta_time: u32 },
}

/// The state after one event, or why the event is refused.
pub open spec fn step(state: SequenceView, event: Event) -> Result<SequenceView, GridError> {
    match event {
        Event::Header { format, track, time_base } => state.with_header(time_base),
        Event::Tempo { payload } => state.with_tempo(payload@),
        Event::NoteOn { delta_time, note } => state.with_onset(delta_time, note),
        Event::TrackChange => Ok(state),
        Event::Other { delta_time } => Ok(state),
    }
}

/// The state after all the events of a file, or the first refusal: a refused
/// event ends the run.
pub open spec fn run(events: Seq<Event>) -> Result<SequenceView, GridError>
    decreases events.len(),
{
    if events.len() == 0 {
        Ok(SequenceView::initial())
    } else {
        match run(events.drop_last()) {
            Ok(state) => step(state, events.last()),
            Err(e) => Err(e),
        }
    }
}

/// The output for a file, or why there is none.
pub open spec fn transcript(events: Seq<Event>) -> Result<Seq<char>, GridError> {
    match run(events) {
        Ok(state) => state.rendered(),
        Err(e) => Err(e),
    }
}

/// Whether the beat indices stay within `usize` when `event` comes in `state`.
pub open spec fn room_for(state: SequenceView, event: Event) -> bool {
    match event {
        Event::NoteOn { delta_time, note } => state.beats.len() + cells_due(state, delta_time)
            <= usize::MAX,
        _ => true,
    }
}

/// Whether the beat indices stay within `usize` all through a run.
pub open spec fn fits(events: Seq<Event>) -> bool {
    forall|k: int|
        0 <= k < events.len() ==> (#[trigger] run(events.take(k)) matches Ok(state) ==> room_for(
            state,
            events[k],
        ))
}

impl BeatSequence {
    /// Whether `apply` may be called with `event`.
    pub fn has_room_for(&self, event: &Event) -> (room: bool)
        ensures
            room == room_for(self@, *event),
    {
        match event {
            Event::NoteOn { delta_time, note } => self.has_room(*delta_time),
            _ => true,
        }
    }

    /// Takes one event.
    pub fn apply(&mut self, event: &Event) -> (r: Result<(), GridError>)
        requires
            room_for(old(self)@, *event),
        ensures
            contiguous(final(self)@.beats),
            applies(old(self)@, step(old(self)@, *event), r, final(self)@),
    {
        match event {
            Event::Header { format, track, time_base } => self.header(*format, *track, *time_base),
            Event::Tempo { payload } => self.set_tempo(*payload),
            Event::NoteOn { delta_time, note } => self.note_on(*delta_time, *note),
            Event::TrackChange | Event::Other { .. } => {
                self.track_change();
                Ok(())
            },
        }
    }
}

/// Runs a whole file: takes the events in order up to the first that is
/// refused, and renders what they come to. The result is `None` where the beat
/// indices would leave `usize`.
pub fn transcribe(events: &Vec<Event>) -> (r: Option<Result<String, GridError>>)
    ensures
        r is Some <==> fits(events@),
        r matches Some(outcome) ==> match transcript(events@) {
            Ok(expected) => outcome matches Ok(text) && text@ == expected,
            Err(e) => outcome matches Err(refusal) && refusal == e,
        },
{
    let mut sequence = BeatSequence::new();
    let mut done: usize = 0;
    while done < events.len()
        invariant
            done <= events.len(),
            run(events@.take(done as int)) == Ok::<SequenceView, GridError>(sequence@),
            fits(events@.take(done as int)),
        decreases events.len() - done,
    {
        if !sequence.has_room_for(&events[done]) {
            return None;
        }
        proof {
            lemma_fits_one_more(events@, done as int);
        }
        match sequence.apply(&events[done]) {
            Ok(()) => {},
            Err(e) => {
                proof {
                    lemma_refusal_ends_run(events@, done + 1);
                }
                return Some(Err(e));
            },
        }
        done += 1;
    }
    assert(events@.take(done as int) =~= events@);
    Some(sequence.serialize())
}

/// A run that fits so far, and has room for its next event, fits with that
/// event too; and the next event is a step from where the run stands.
pub proof fn lemma_fits_one_more(events: Seq<Event>, upto: int)
    requires
        0 <= upto < events.len(),
        fits(events.take(upto)),
        run(events.take(upto)) matches Ok(state) ==> room_for(state, events[upto]),
    ensures
        fits(events.take(upto + 1)),
        run(events.take(upto + 1)) == match run(events.take(upto)) {
            Ok(state) => step(state, events[upto]),
            Err(e) => Err(e),
        },
{
    let taken = events.take(upto);
    let longer = events.take(upto + 1);
    assert(longer.drop_last() =~= taken);
    assert forall|k: int| 0 <= k < longer.len() implies (#[trigger] run(longer.take(k)) matches Ok(
        state,
    ) ==> room_for(state, longer[k])) by {
        if k < upto {
            assert(longer.take(k) =~= taken.take(k));
        } else {
            assert(longer.take(k) =~= taken);
        }
    }
}

/// A refusal ends the run: whatever follows, the outcome is that refusal, and
/// a run that fits up to the refusal fits as a whole.
pub proof fn lemma_refusal_ends_run(events: Seq<Event>, upto: int)
    requires
        0 <= upto <= events.len(),
        run(events.take(upto)) is Err,
    ensures
        run(events) == run(events.take(upto)),
        fits(events.take(upto)) ==> fits(events),
    decreases events.len() - upto,
{
    if upto < events.len() {
        assert(events.take(upto + 1).drop_last() =~= events.take(upto));
        lemma_refusal_ends_run(events, upto + 1);
        if fits(events.take(upto)) {
            lemma_fits_one_more(events, upto);
        }
    } else {
        assert(events.take(upto) =~= events);
    }
}

/// Advancing the grid keeps the beats that were there and their numbering, and
/// numbers the new ones on without a gap.
pub proof fn lemma_advanced_contiguous(beats: Seq<BeatView>, cells: nat)
    requires
        contiguous(beats),
    ensures
        contiguous(advanced(beats, cells)),
        advanced(beats, cells).len() == beats.len() + cells,
        forall|i: int| 0 <= i < beats.len() ==> advanced(beats, cells)[i] == beats[i],
        forall|i: int|
            beats.len() <= i < beats.len() + cells ==> (#[trigger] advanced(beats, cells)[i]).notes
                == Seq::<Note>::empty(),
{
}

/// In contiguous beats the next index is the number of beats and one.
pub proof fn lemma_next_index(beats: Seq<BeatView>)
    requires
        contiguous(beats),
    ensures
        next_index(beats) == beats.len() + 1,
{
}

/// An onset is taken wherever a time base is set and the raw number is 12 or
/// more. The note it puts last in the last beat has the octave `raw / 12 - 1`
/// and the pitch class `raw % 12`, which is at most 11. Tempo and time base
/// stay as they were.
pub proof fn lemma_onset_note(state: SequenceView, delta_time: u32, raw_note: u8)
    requires
        state.time_base != 0,
        raw_note >= 12,
    ensures
        state.with_onset(delta_time, raw_note) matches Ok(next) && {
            &&& next.time_base == state.time_base
            &&& next.bpm == state.bpm
            &&& next.beats.len() > 0
            &&& next.beats.last().notes.len() > 0
            &&& next.beats.last().notes.last().octave == raw_note / 12 - 1
            &&& next.beats.last().notes.last().key == raw_note % 12
            &&& next.beats.last().notes.last().key <= 11
        },
{
}

/// An onset behind another advances the grid by the floor of
/// `delta_time * RESOLUTION / time_base` beats. The beats before the old last
/// one stay as they were. Where no cell is spanned, the old last beat gains the
/// note. Where cells are spanned, the old last beat stays as it was, the new
/// beats but the last are empty, and the last holds the note alone.
pub proof fn lemma_onset_advances(state: SequenceView, delta_time: u32, raw_note: u8)
    requires
        state.time_base != 0,
        raw_note >= 12,
        state.beats.len() > 0,
    ensures
        state.with_onset(delta_time, raw_note) matches Ok(next) && normalized(raw_note) matches Some(
            note,
        ) && {
            let cells = cells_spanned(delta_time as int, state.time_base as int);
            &&& cells >= 0
            &&& next.beats.len() == state.beats.len() + cells
            &&& forall|i: int|
                0 <= i < state.beats.len() - 1 ==> #[trigger] next.beats[i] == state.beats[i]
            &&& cells == 0 ==> next.beats.last().index == state.beats.last().index
                && next.beats.last().notes == state.beats.last().notes.push(note)
            &&& cells > 0 ==> next.beats[state.beats.len() - 1] == state.beats.last()
                && next.beats.last().notes == seq![note]
            &&& forall|i: int|
                state.beats.len() <= i < next.beats.len() - 1 ==> (#[trigger] next.beats[i]).notes
                    == Seq::<Note>::empty()
        },
{
    let cells = cells_spanned(delta_time as int, state.time_base as int);
    assert(cells >= 0) by (nonlinear_arith)
        requires
            cells == (delta_time * 8) / (state.time_base as int),
            delta_time >= 0,
            state.time_base > 0,
    ;
    let note = normalized(raw_note).unwrap();
    if cells > 0 {
        assert(state.beats.last().notes.push(note).len() > 0);
        assert(Seq::<Note>::empty().push(note) =~= seq![note]);
    }
}

/// Every stored pitch class lies between 0 and 11.
pub open spec fn pitch_classes_in_range(beats: Seq<BeatView>) -> bool {
    forall|i: int, j: int|
        0 <= i < beats.len() && 0 <= j < beats[i].notes.len() ==> (#[trigger] beats[i].notes[j]).key
            <= 11
}

/// An event that is taken keeps every stored pitch class between 0 and 11.
pub proof fn lemma_step_keeps_pitch_classes(state: SequenceView, event: Event)
    requires
        pitch_classes_in_range(state.beats),
    ensures
        step(state, event) matches Ok(next) ==> pitch_classes_in_range(next.beats),
{
    if let Event::NoteOn { delta_time, note } = event {
        if let Ok(next) = step(state, event) {
            lemma_onset_note(state, delta_time, note);
            let struck = normalized(note).unwrap();
            let cells = cells_due(state, delta_time);
            assert forall|i: int, j: int|
                0 <= i < next.beats.len() && 0 <= j < next.beats[i].notes.len() implies (
            #[trigger] next.beats[i].notes[j]).key <= 11 by {
                if 0 < state.beats.len() && i < state.beats.len() {
                    assert(advanced(state.beats, cells)[i] == state.beats[i]);
                    if j < state.beats[i].notes.len() {
                        assert(next.beats[i].notes[j] == state.beats[i].notes[j]);
                    }
                }
            }
        }
    }
}

/// Whatever the events, every pitch class that a run stores lies between 0
/// and 11.
pub proof fn lemma_run_pitch_classes(events: Seq<Event>)
    ensures
        run(events) matches Ok(state) ==> pitch_classes_in_range(state.beats),
    decreases events.len(),
{
    if events.len() > 0 {
        lemma_run_pitch_classes(events.drop_last());
        if let Ok(state) = run(events.drop_last()) {
            lemma_step_keeps_pitch_classes(state, events.last());
        }
    }
}

/// An onset keeps the beat indices contiguous. It lands in the last beat,
/// which is beat 1 for the first onset and else lies as many cells behind the
/// beat of the onset before it as the delta-time spans.
pub proof fn lemma_onset_contiguous(beats: Seq<BeatView>, cells: nat, note: Note)
    requires
        contiguous(beats),
    ensures
        contiguous(after_onset(beats, cells, note)),
        after_onset(beats, cells, note).len() == if beats.len() == 0 {
            1
        } else {
            beats.len() + cells
        },
        after_onset(beats, cells, note).last().notes.last() == note,
        after_onset(beats, cells, note).last().index == after_onset(beats, cells, note).len(),
{
    if beats.len() > 0 {
        lemma_advanced_contiguous(beats, cells);
    }
}

/// An event never removes or renumbers a beat, and changes the notes of none
/// but the last, to which an onset without advance adds its note.
pub proof fn lemma_step_appends(state: SequenceView, event: Event)
    requires
        contiguous(state.beats),
    ensures
        step(state, event) matches Ok(next) ==> {
            &&& state.beats.len() <= next.beats.len()
            &&& forall|i: int| 0 <= i < state.beats.len() - 1 ==> next.beats[i] == state.beats[i]
            &&& forall|i: int|
                0 <= i < state.beats.len() ==> (#[trigger] next.beats[i]).index
                    == state.beats[i].index
            &&& state.beats.len() > 0 ==> state.beats.last().notes.is_prefix_of(
                next.beats[state.beats.len() - 1].notes,
            )
        },
{
    match event {
        Event::NoteOn { delta_time, note } => {
            if step(state, event) is Ok {
                lemma_advanced_contiguous(state.beats, cells_due(state, delta_time));
            }
        },
        _ => {},
    }
}

/// Whatever the events, the beats of a run are numbered 1, 2, 3 and so on,
/// with no gap and none twice.
pub proof fn lemma_run_contiguous(events: Seq<Event>)
    ensures
        run(events) matches Ok(state) ==> contiguous(state.beats),
    decreases events.len(),
{
    if events.len() > 0 {
        lemma_run_contiguous(events.drop_last());
        if let Ok(state) = run(events.drop_last()) {
            match events.last() {
                Event::NoteOn { delta_time, note } => {
                    if step(state, events.last()) is Ok {
                        lemma_onset_contiguous(
                            state.beats,
                            cells_due(state, delta_time),
                            normalized(note).unwrap(),
                        );
                    }
                },
                _ => {},
            }
        }
    }
}

/// No empty beat comes before the first onset or behind the last: where a run
/// has beats, the first and the last of them hold a note.
pub proof fn lemma_run_bounded_by_onsets(events: Seq<Event>)
    ensures
        run(events) matches Ok(state) ==> (state.beats.len() > 0 ==> state.beats.first().notes.len()
            > 0 && state.beats.last().notes.len() > 0),
    decreases events.len(),
{
    if events.len() > 0 {
        lemma_run_bounded_by_onsets(events.drop_last());
    }
}

/// A file without an onset has no beat, so its output is the tempo line alone.
pub proof fn lemma_no_onset_no_beat(events: Seq<Event>)
    requires
        forall|i: int| 0 <= i < events.len() ==> !(#[trigger] events[i] is NoteOn),
    ensures
        run(events) matches Ok(state) ==> state.beats.len() == 0,
        transcript(events) matches Ok(text) ==> run(events) matches Ok(state) && state.bpm matches Some(
            bpm,
        ) && text == decimal(bpm as nat) + seq!['\n'],
    decreases events.len(),
{
    if events.len() > 0 {
        lemma_no_onset_no_beat(events.drop_last());
    }
}

/// A file without a tempo event has no output: where every event is taken,
/// the missing tempo is a configuration error, and no default stands in for it.
pub proof fn lemma_no_tempo_no_output(events: Seq<Event>)
    requires
        forall|i: int| 0 <= i < events.len() ==> !(#[trigger] events[i] is Tempo),
    ensures
        run(events) matches Ok(state) ==> state.bpm is None,
        transcript(events) is Err,
        run(events) is Ok ==> transcript(events) == Err::<Seq<char>, GridError>(GridError::Config),
    decreases events.len(),
{
    if events.len() > 0 {
        lemma_no_tempo_no_output(events.drop_last());
    }
}

/// A first tempo of zero ends the run with a configuration error.
pub proof fn lemma_zero_tempo_refused(events: Seq<Event>, payload: [u8; 3])
    requires
        run(events) matches Ok(state) && state.bpm is None,
        payload@ == seq![0u8, 0u8, 0u8],
    ensures
        transcript(events.push(Event::Tempo { payload })) == Err::<Seq<char>, GridError>(
            GridError::Config,
        ),
{
    let longer = events.push(Event::Tempo { payload });
    assert(longer.drop_last() =~= events);
}

} // verus!
