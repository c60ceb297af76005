//! From ticks to grid cells, and from a tempo payload to cells per minute.

use crate::error::GridError;
use vstd::prelude::*;

verus! {

/// Grid cells in a quarter note.
pub const RESOLUTION: u32 = 8;

/// Microseconds in a minute.
pub const MICROS_PER_MINUTE: u32 = 60_000_000;

/// Whole grid cells that `delta_time` ticks span at `time_base` ticks to the
/// quarter note. A started cell does not count.
pub open spec fn cells_spanned(delta_time: int, time_base: int) -> int
    recommends
        time_base > 0,
{
    (delta_time * RESOLUTION) / time_base
}

/// The number that a tempo payload holds: three bytes, the most significant first.
pub open spec fn tempo_of(payload: Seq<u8>) -> int
    recommends
        payload.len() == 3,
{
    payload[0] * 65536 + payload[1] * 256 + payload[2]
}

/// Grid cells in a minute at `tempo` microseconds to the quarter note.
pub open spec fn bpm_of(tempo: int) -> int
    recommends
        tempo > 0,
{
    (RESOLUTION * MICROS_PER_MINUTE) / tempo
}

/// Counts the whole grid cells that a delta-time spans. A time base of zero
/// gives no grid and is refused.
pub fn cells_elapsed(delta_time: u32, time_base: u16) -> (r: Result<u64, GridError>)
    ensures
        time_base == 0 ==> r == Err::<u64, GridError>(GridError::Config),
        time_base != 0 ==> r == Ok::<u64, GridError>(
            cells_spanned(delta_time as int, time_base as int) as u64,
        ),
        r matches Ok(cells) ==> cells == cells_spanned(delta_time as int, time_base as int),
{
    if time_base == 0 {
        return Err(GridError::Config);
    }
    assert(delta_time * RESOLUTION <= u64::MAX) by (nonlinear_arith)
        requires
            delta_time <= u32::MAX,
            RESOLUTION == 8,
    ;
    let ticks: u64 = delta_time as u64 * RESOLUTION as u64;
    Ok(ticks / time_base as u64)
}

/// Reads the microseconds per quarter note out of a tempo payload.
pub fn tempo_from_payload(payload: [u8; 3]) -> (tempo: u32)
    ensures
        tempo == tempo_of(payload@),
        tempo < 0x100_0000,
{
    let high: u32 = payload[0] as u32;
    let mid: u32 = payload[1] as u32;
    let low: u32 = payload[2] as u32;
    assert((high << 16) + (mid << 8) + low == high * 65536 + mid * 256 + low) by (bit_vector)
        requires
            high < 256,
            mid < 256,
            low < 256,
    ;
    (high << 16) + (mid << 8) + low
}

/// Derives the tempo in grid cells per minute. A tempo of zero microseconds is
/// refused.
pub fn bpm_from_tempo(tempo: u32) -> (r: Result<u32, GridError>)
    ensures
        tempo == 0 ==> r == Err::<u32, GridError>(GridError::Config),
        tempo != 0 ==> r == Ok::<u32, GridError>(bpm_of(tempo as int) as u32),
        r matches Ok(bpm) ==> bpm == bpm_of(tempo as int),
{
    if tempo == 0 {
        return Err(GridError::Config);
    }
    Ok(RESOLUTION * MICROS_PER_MINUTE / tempo)
}

/// The cell count is the floor of `delta_time * RESOLUTION / time_base`: the
/// counted cells fit into the ticks, and one more cell does not.
pub proof fn lemma_cells_is_floor(delta_time: int, time_base: int)
    requires
        0 <= delta_time,
        time_base > 0,
    ensures
        cells_spanned(delta_time, time_base) * time_base <= delta_time * RESOLUTION,
        delta_time * RESOLUTION < (cells_spanned(delta_time, time_base) + 1) * time_base,
{
    let ticks = delta_time * RESOLUTION;
    let base = time_base;
    assert(ticks / base * base <= ticks < (ticks / base + 1) * base) by (nonlinear_arith)
        requires
            base > 0,
    ;
}

/// A delta-time that fills no whole cell advances the grid by nothing, and a
/// longer delta-time never advances it by less.
pub proof fn lemma_cells_monotonic(shorter: int, longer: int, time_base: int)
    requires
        time_base > 0,
        0 <= shorter <= longer,
    ensures
        shorter * RESOLUTION < time_base ==> cells_spanned(shorter, time_base) == 0,
        cells_spanned(shorter, time_base) <= cells_spanned(longer, time_base),
{
    let a = shorter * RESOLUTION;
    let b = longer * RESOLUTION;
    let base = time_base;
    assert(a < base ==> a / base == 0) by (nonlinear_arith)
        requires
            0 <= a,
            base > 0,
    ;
    assert(a / base <= b / base) by (nonlinear_arith)
        requires
            0 <= a <= b,
            base > 0,
    ;
}

} // verus!
