//! Timing of the flight into a selected world. The camera flight begins as
//! soon as the third turn commits, then eases into the selected world through
//! a short fade instead of pausing between stages.
use vstd::prelude::*;

verus! {

pub const WAIT_MS: u64 = 0;
pub const FLIGHT_MS: u64 = 3500;
pub const FADE_MS: u64 = 700;
pub const REVEAL_MS: u64 = 900;

/// Milliseconds into the closing fade of a flight started at `started`: zero
/// until `FLIGHT_MS - FADE_MS` have passed.
pub fn fade_elapsed(started: u64, now: u64) -> (e: u64)
    ensures
        e == (if now >= started + (FLIGHT_MS - FADE_MS) {
            now - started - (FLIGHT_MS - FADE_MS)
        } else {
            0
        }),
{
    now.saturating_sub(started).saturating_sub(FLIGHT_MS - FADE_MS)
}

/// Whether a flight started at `started` has arrived.
pub fn done(started: u64, now: u64) -> (d: bool)
    ensures
        d == (now >= started + FLIGHT_MS),
{
    now.saturating_sub(started) >= FLIGHT_MS
}

} // verus!
