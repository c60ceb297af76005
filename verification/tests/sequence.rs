use midi_beats::{Beat, BeatSequence, Event, GridError, Note};

fn note(octave: u8, key: u8) -> Note {
    Note { octave, key }
}

const HALF_SECOND: [u8; 3] = [0x07, 0xA1, 0x20];

fn started(time_base: u16) -> BeatSequence {
    let mut sequence = BeatSequence::new();
    assert_eq!(sequence.header(1, 1, time_base), Ok(()));
    assert_eq!(sequence.set_tempo(HALF_SECOND), Ok(()));
    sequence
}

fn indices(sequence: &BeatSequence) -> Vec<usize> {
    sequence.beats().iter().map(|beat| beat.index).collect()
}

#[test]
fn a_new_sequence_is_empty() {
    let sequence = BeatSequence::new();
    assert_eq!(sequence.time_base(), 0);
    assert_eq!(sequence.bpm(), None);
    assert_eq!(sequence.len(), 0);
    assert!(sequence.beats().is_empty());
}

#[test]
fn header_sets_the_time_base() {
    let mut sequence = BeatSequence::new();
    assert_eq!(sequence.header(1, 2, 96), Ok(()));
    assert_eq!(sequence.time_base(), 96);
    assert_eq!(sequence.bpm(), None);
    assert_eq!(sequence.len(), 0);
}

#[test]
fn header_with_time_base_zero_is_a_configuration_error() {
    let mut sequence = BeatSequence::new();
    assert_eq!(sequence.header(1, 1, 0), Err(GridError::Config));
    assert_eq!(sequence.time_base(), 0);
    assert_eq!(sequence.header(1, 1, 480), Ok(()));
    assert_eq!(sequence.header(1, 1, 0), Err(GridError::Config));
    assert_eq!(sequence.time_base(), 480);
}

#[test]
fn tempo_sets_the_bpm() {
    let mut sequence = BeatSequence::new();
    assert_eq!(sequence.set_tempo(HALF_SECOND), Ok(()));
    assert_eq!(sequence.bpm(), Some(960));
}

#[test]
fn only_the_first_tempo_counts() {
    let mut sequence = BeatSequence::new();
    assert_eq!(sequence.set_tempo(HALF_SECOND), Ok(()));
    assert_eq!(sequence.set_tempo([0x09, 0x27, 0xC0]), Ok(()));
    assert_eq!(sequence.bpm(), Some(960));
    assert_eq!(sequence.set_tempo([0, 0, 0]), Ok(()));
    assert_eq!(sequence.bpm(), Some(960));
}

#[test]
fn a_first_tempo_of_zero_is_a_configuration_error() {
    let mut sequence = BeatSequence::new();
    assert_eq!(sequence.set_tempo([0, 0, 0]), Err(GridError::Config));
    assert_eq!(sequence.bpm(), None);
    assert_eq!(sequence.serialize(), Err(GridError::Config));
    assert_eq!(sequence.set_tempo([0x09, 0x27, 0xC0]), Ok(()));
    assert_eq!(sequence.bpm(), Some(800));
}

#[test]
fn worked_example_of_three_onsets() {
    let mut sequence = started(96);
    assert_eq!(sequence.note_on(0, 60), Ok(()));
    assert_eq!(sequence.note_on(48, 60), Ok(()));
    assert_eq!(sequence.note_on(48, 64), Ok(()));
    assert_eq!(indices(&sequence), vec![1, 2, 3, 4, 5, 6, 7, 8, 9]);
    assert_eq!(sequence.beats()[0].notes, vec![note(4, 0)]);
    assert_eq!(sequence.beats()[4].notes, vec![note(4, 0)]);
    assert_eq!(sequence.beats()[8].notes, vec![note(4, 4)]);
    assert_eq!(
        sequence.serialize().unwrap(),
        "960\n[1] 4 00\n[2] \n[3] \n[4] \n[5] 4 00\n[6] \n[7] \n[8] \n[9] 4 04\n"
    );
}

#[test]
fn onsets_within_one_cell_share_a_beat_and_are_listed_once() {
    let mut sequence = started(96);
    assert_eq!(sequence.note_on(0, 60), Ok(()));
    assert_eq!(sequence.note_on(0, 60), Ok(()));
    assert_eq!(sequence.note_on(11, 64), Ok(()));
    assert_eq!(sequence.note_on(5, 60), Ok(()));
    assert_eq!(sequence.len(), 1);
    assert_eq!(sequence.beats()[0].notes, vec![note(4, 0), note(4, 0), note(4, 4), note(4, 0)]);
    assert_eq!(sequence.serialize().unwrap(), "960\n[1] 4 00 | 4 04\n");
}

#[test]
fn serialized_notes_are_sorted_by_octave_then_pitch_class() {
    let mut sequence = started(96);
    for raw in [76u8, 64, 71, 60, 59, 64, 132] {
        assert_eq!(sequence.note_on(0, raw), Ok(()));
    }
    assert_eq!(
        sequence.beats()[0].notes,
        vec![note(5, 4), note(4, 4), note(4, 11), note(4, 0), note(3, 11), note(4, 4), note(10, 0)]
    );
    assert_eq!(
        sequence.serialize().unwrap(),
        "960\n[1] 3 11 | 4 00 | 4 04 | 4 11 | 5 04 | 10 00\n"
    );
}

#[test]
fn serializing_sorts_the_stored_notes_and_drops_repeats() {
    let mut sequence = started(96);
    for raw in [64u8, 60, 60, 59, 64] {
        assert_eq!(sequence.note_on(0, raw), Ok(()));
    }
    assert_eq!(
        sequence.beats()[0].notes,
        vec![note(4, 4), note(4, 0), note(4, 0), note(3, 11), note(4, 4)]
    );
    assert_eq!(sequence.serialize(), Ok(String::from("960\n[1] 3 11 | 4 00 | 4 04\n")));
    assert_eq!(sequence.beats(), &vec![Beat { index: 1, notes: vec![note(3, 11), note(4, 0), note(4, 4)] }]);
    assert_eq!(sequence.time_base(), 96);
    assert_eq!(sequence.bpm(), Some(960));
}

#[test]
fn serializing_again_gives_the_same_text_and_changes_nothing_more() {
    let mut sequence = started(96);
    assert_eq!(sequence.note_on(0, 64), Ok(()));
    assert_eq!(sequence.note_on(0, 60), Ok(()));
    assert_eq!(sequence.note_on(24, 72), Ok(()));
    assert_eq!(sequence.note_on(0, 48), Ok(()));
    assert_eq!(sequence.note_on(0, 72), Ok(()));
    let first = sequence.serialize();
    assert_eq!(first, Ok(String::from("960\n[1] 4 00 | 4 04\n[2] \n[3] 3 00 | 5 00\n")));
    let settled = sequence.beats().clone();
    assert_eq!(
        settled,
        vec![
            Beat { index: 1, notes: vec![note(4, 0), note(4, 4)] },
            Beat { index: 2, notes: vec![] },
            Beat { index: 3, notes: vec![note(3, 0), note(5, 0)] },
        ]
    );
    assert_eq!(sequence.serialize(), first);
    assert_eq!(sequence.beats(), &settled);
}

#[test]
fn serializing_keeps_every_beat_under_its_index() {
    let mut sequence = started(96);
    assert_eq!(sequence.note_on(0, 60), Ok(()));
    assert_eq!(sequence.note_on(48, 64), Ok(()));
    assert_eq!(sequence.note_on(0, 62), Ok(()));
    assert!(sequence.serialize().is_ok());
    assert_eq!(indices(&sequence), vec![1, 2, 3, 4, 5]);
    assert_eq!(sequence.beats()[4].notes, vec![note(4, 2), note(4, 4)]);
    assert_eq!(sequence.note_on(12, 61), Ok(()));
    assert_eq!(indices(&sequence), vec![1, 2, 3, 4, 5, 6]);
    assert_eq!(
        sequence.serialize(),
        Ok(String::from("960\n[1] 4 00\n[2] \n[3] \n[4] \n[5] 4 02 | 4 04\n[6] 4 01\n"))
    );
}

#[test]
fn serializing_without_a_tempo_changes_nothing() {
    let mut sequence = BeatSequence::new();
    assert_eq!(sequence.header(1, 1, 96), Ok(()));
    assert_eq!(sequence.note_on(0, 64), Ok(()));
    assert_eq!(sequence.note_on(0, 60), Ok(()));
    assert_eq!(sequence.note_on(0, 64), Ok(()));
    assert_eq!(sequence.serialize(), Err(GridError::Config));
    assert_eq!(sequence.beats()[0].notes, vec![note(4, 4), note(4, 0), note(4, 4)]);
}

#[test]
fn other_events_change_nothing_and_their_ticks_do_not_count() {
    let mut sequence = started(96);
    assert_eq!(sequence.apply(&Event::Other { delta_time: 960 }), Ok(()));
    assert_eq!(sequence.len(), 0);
    assert_eq!(sequence.note_on(0, 60), Ok(()));
    assert!(sequence.has_room_for(&Event::Other { delta_time: u32::MAX }));
    assert_eq!(sequence.apply(&Event::Other { delta_time: u32::MAX }), Ok(()));
    assert_eq!(sequence.note_on(12, 62), Ok(()));
    assert_eq!(sequence.time_base(), 96);
    assert_eq!(sequence.bpm(), Some(960));
    assert_eq!(sequence.serialize(), Ok(String::from("960\n[1] 4 00\n[2] 4 02\n")));
}

#[test]
fn the_first_onset_opens_beat_one_whenever_it_comes() {
    let mut sequence = started(96);
    assert_eq!(sequence.note_on(960, 60), Ok(()));
    assert_eq!(indices(&sequence), vec![1]);
    assert_eq!(sequence.serialize().unwrap(), "960\n[1] 4 00\n");
}

#[test]
fn a_later_onset_lands_in_the_last_new_beat() {
    let mut sequence = started(96);
    assert_eq!(sequence.note_on(0, 60), Ok(()));
    assert_eq!(sequence.note_on(96, 62), Ok(()));
    assert_eq!(indices(&sequence), vec![1, 2, 3, 4, 5, 6, 7, 8, 9]);
    let mut at: usize = 1;
    while at < 8 {
        assert!(sequence.beats()[at].notes.is_empty());
        at += 1;
    }
    assert_eq!(sequence.beats()[8], Beat { index: 9, notes: vec![note(4, 2)] });
}

#[test]
fn no_onset_gives_the_tempo_line_alone() {
    let mut sequence = started(96);
    sequence.track_change();
    assert_eq!(sequence.serialize().unwrap(), "960\n");
}

#[test]
fn a_missing_tempo_is_a_configuration_error() {
    let mut sequence = BeatSequence::new();
    assert_eq!(sequence.header(1, 1, 96), Ok(()));
    assert_eq!(sequence.note_on(0, 60), Ok(()));
    assert_eq!(sequence.serialize(), Err(GridError::Config));
}

#[test]
fn an_onset_without_a_time_base_is_a_configuration_error() {
    let mut sequence = BeatSequence::new();
    assert_eq!(sequence.note_on(0, 60), Err(GridError::Config));
    assert_eq!(sequence.note_on(0, 3), Err(GridError::Config));
    assert_eq!(sequence.len(), 0);
}

#[test]
fn a_note_without_an_octave_is_a_range_error_and_changes_nothing() {
    let mut sequence = started(96);
    assert_eq!(sequence.note_on(0, 60), Ok(()));
    assert_eq!(sequence.note_on(96, 11), Err(GridError::Range));
    assert_eq!(sequence.note_on(0, 0), Err(GridError::Range));
    assert_eq!(indices(&sequence), vec![1]);
    assert_eq!(sequence.beats()[0].notes, vec![note(4, 0)]);
}

#[test]
fn track_change_changes_nothing() {
    let mut sequence = started(96);
    assert_eq!(sequence.note_on(0, 60), Ok(()));
    let before = sequence.serialize();
    sequence.track_change();
    assert_eq!(sequence.time_base(), 96);
    assert_eq!(sequence.bpm(), Some(960));
    assert_eq!(sequence.len(), 1);
    assert_eq!(sequence.serialize(), before);
}

#[test]
fn new_index_counts_on_from_the_last_beat() {
    let mut sequence = BeatSequence::new();
    assert_eq!(sequence.new_index(), 1);
    sequence.advance(3);
    assert_eq!(sequence.new_index(), 4);
    sequence.add_to_last_beat(note(4, 0));
    assert_eq!(sequence.new_index(), 4);
}

#[test]
fn advance_appends_empty_beats() {
    let mut sequence = BeatSequence::new();
    sequence.advance(0);
    assert_eq!(sequence.len(), 0);
    sequence.advance(2);
    sequence.advance(1);
    assert_eq!(
        sequence.beats(),
        &vec![Beat::empty(1), Beat::empty(2), Beat::empty(3)]
    );
}

#[test]
fn add_to_last_beat_opens_beat_one_or_joins_the_last() {
    let mut sequence = BeatSequence::new();
    sequence.add_to_last_beat(note(4, 0));
    assert_eq!(sequence.beats(), &vec![Beat { index: 1, notes: vec![note(4, 0)] }]);
    sequence.add_to_last_beat(note(3, 2));
    assert_eq!(sequence.beats(), &vec![Beat { index: 1, notes: vec![note(4, 0), note(3, 2)] }]);
    sequence.advance(1);
    sequence.add_to_last_beat(note(5, 5));
    assert_eq!(
        sequence.beats(),
        &vec![
            Beat { index: 1, notes: vec![note(4, 0), note(3, 2)] },
            Beat { index: 2, notes: vec![note(5, 5)] },
        ]
    );
}

#[test]
fn there_is_room_for_any_single_onset() {
    let mut sequence = started(1);
    assert!(sequence.has_room(u32::MAX));
    assert_eq!(sequence.note_on(0, 60), Ok(()));
    assert_eq!(sequence.has_room(u32::MAX), usize::MAX as u64 > 34_359_738_360);
    assert!(sequence.has_room(1000));
    assert!(BeatSequence::new().has_room(u32::MAX));
}

#[test]
fn indices_stay_contiguous_whatever_comes() {
    let mut sequence = started(7);
    let mut seed: u32 = 99;
    let mut count: u32 = 0;
    while count < 300 {
        seed = seed.wrapping_mul(1664525).wrapping_add(1013904223);
        let delta: u32 = (seed >> 8) % 23;
        let raw: u8 = ((seed >> 20) % 140) as u8;
        let before = sequence.len();
        match sequence.note_on(delta, raw) {
            Ok(()) => assert!(sequence.len() >= before),
            Err(e) => {
                assert_eq!(e, GridError::Range);
                assert!(raw < 12);
                assert_eq!(sequence.len(), before);
            }
        }
        count += 1;
    }
    let beats = sequence.beats().clone();
    assert!(beats.len() > 100);
    let mut at: usize = 0;
    while at < beats.len() {
        assert_eq!(beats[at].index, at + 1);
        at += 1;
    }
    let text = sequence.serialize().unwrap();
    let mut lines = text.lines();
    assert_eq!(lines.next(), Some("960"));
    let mut expected: usize = 1;
    for line in lines {
        assert!(line.starts_with(&format!("[{}] ", expected)));
        expected += 1;
    }
    assert_eq!(expected, beats.len() + 1);
}

#[test]
fn events_are_taken_like_the_calls_they_stand_for() {
    let events = vec![
        Event::Header { format: 1, track: 2, time_base: 96 },
        Event::TrackChange,
        Event::Tempo { payload: HALF_SECOND },
        Event::NoteOn { delta_time: 0, note: 60 },
        Event::NoteOn { delta_time: 48, note: 60 },
        Event::TrackChange,
        Event::NoteOn { delta_time: 48, note: 64 },
        Event::Tempo { payload: [0, 0, 0] },
    ];
    let mut sequence = BeatSequence::new();
    for event in &events {
        assert!(sequence.has_room_for(event));
        assert_eq!(sequence.apply(event), Ok(()));
    }
    assert_eq!(
        sequence.serialize().unwrap(),
        "960\n[1] 4 00\n[2] \n[3] \n[4] \n[5] 4 00\n[6] \n[7] \n[8] \n[9] 4 04\n"
    );
}

#[test]
fn a_refused_event_reports_its_error() {
    let mut sequence = BeatSequence::new();
    assert_eq!(
        sequence.apply(&Event::Header { format: 0, track: 1, time_base: 0 }),
        Err(GridError::Config)
    );
    assert_eq!(sequence.apply(&Event::Tempo { payload: [0, 0, 0] }), Err(GridError::Config));
    assert_eq!(sequence.apply(&Event::NoteOn { delta_time: 0, note: 60 }), Err(GridError::Config));
    assert_eq!(sequence.apply(&Event::Header { format: 0, track: 1, time_base: 96 }), Ok(()));
    assert_eq!(sequence.apply(&Event::NoteOn { delta_time: 0, note: 5 }), Err(GridError::Range));
    assert_eq!(sequence.apply(&Event::TrackChange), Ok(()));
    assert_eq!(sequence.len(), 0);
    assert_eq!(sequence.bpm(), None);
}
