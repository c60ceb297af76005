use midi_beats::timing::{bpm_from_tempo, cells_elapsed, tempo_from_payload, RESOLUTION};
use midi_beats::GridError;

#[test]
fn resolution_is_eight_cells_to_the_quarter_note() {
    assert_eq!(RESOLUTION, 8);
}

#[test]
fn a_quarter_note_spans_eight_cells() {
    assert_eq!(cells_elapsed(96, 96), Ok(8));
}

#[test]
fn half_a_quarter_note_spans_four_cells() {
    assert_eq!(cells_elapsed(48, 96), Ok(4));
}

#[test]
fn a_started_cell_does_not_count() {
    assert_eq!(cells_elapsed(0, 96), Ok(0));
    assert_eq!(cells_elapsed(11, 96), Ok(0));
    assert_eq!(cells_elapsed(12, 96), Ok(1));
    assert_eq!(cells_elapsed(23, 96), Ok(1));
    assert_eq!(cells_elapsed(24, 96), Ok(2));
    assert_eq!(cells_elapsed(95, 96), Ok(7));
    assert_eq!(cells_elapsed(1, 480), Ok(0));
    assert_eq!(cells_elapsed(59, 480), Ok(0));
    assert_eq!(cells_elapsed(60, 480), Ok(1));
}

#[test]
fn the_longest_delta_time_does_not_overflow() {
    assert_eq!(cells_elapsed(u32::MAX, 1), Ok(34_359_738_360));
    assert_eq!(cells_elapsed(u32::MAX, u16::MAX), Ok(524_296));
}

#[test]
fn cells_are_the_floor_of_the_quotient() {
    let bases: [u16; 5] = [1, 7, 96, 480, 65535];
    for base in bases {
        let mut delta: u32 = 0;
        while delta < 2000 {
            let cells = cells_elapsed(delta, base).unwrap();
            let ticks = delta as u64 * 8;
            assert!(cells * base as u64 <= ticks);
            assert!(ticks < (cells + 1) * base as u64);
            delta += 1;
        }
    }
}

#[test]
fn a_time_base_of_zero_is_a_configuration_error() {
    assert_eq!(cells_elapsed(0, 0), Err(GridError::Config));
    assert_eq!(cells_elapsed(96, 0), Err(GridError::Config));
}

#[test]
fn a_tempo_of_half_a_second_gives_960() {
    assert_eq!(bpm_from_tempo(500_000), Ok(960));
}

#[test]
fn tempo_division_truncates() {
    assert_eq!(bpm_from_tempo(1), Ok(480_000_000));
    assert_eq!(bpm_from_tempo(480_000_000), Ok(1));
    assert_eq!(bpm_from_tempo(480_000_001), Ok(0));
    assert_eq!(bpm_from_tempo(16_777_215), Ok(28));
    assert_eq!(bpm_from_tempo(600_000), Ok(800));
    assert_eq!(bpm_from_tempo(700_000), Ok(685));
    assert_eq!(bpm_from_tempo(u32::MAX), Ok(0));
}

#[test]
fn a_tempo_of_zero_is_a_configuration_error() {
    assert_eq!(bpm_from_tempo(0), Err(GridError::Config));
}

#[test]
fn tempo_payload_is_big_endian() {
    assert_eq!(tempo_from_payload([0x07, 0xA1, 0x20]), 500_000);
    assert_eq!(tempo_from_payload([0, 0, 0]), 0);
    assert_eq!(tempo_from_payload([0, 0, 1]), 1);
    assert_eq!(tempo_from_payload([0, 1, 0]), 256);
    assert_eq!(tempo_from_payload([1, 0, 0]), 65_536);
    assert_eq!(tempo_from_payload([255, 255, 255]), 16_777_215);
}
