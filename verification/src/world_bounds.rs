//! Key-5 worlds: which of the 27 exports have portal ramps. The 27 exports
//! use the same 0.2-unit strict grid as the world builder. Worlds 1..=26 have
//! a 160-cell (32-unit) square floor and four 16-cell (3.2-unit) by 32-cell
//! (6.4-unit) ramps. World 27 is Void, which has no horizontal ramps.
use vstd::prelude::*;

verus! {

/// The Void export is the only Key-5 world with no side ramps or portals.
pub fn has_horizontal_ramps(world_index: usize) -> (r: bool)
    ensures
        r == (world_index < 26),
{
    world_index < 26
}

} // verus!
