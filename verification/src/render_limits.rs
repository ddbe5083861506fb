//! Session-local rendering budgets and the Key9 cube sliders: the slider
//! steps and the colours of their cubes.
use vstd::prelude::*;
use crate::flight_target::CUSTOM_RGB555;

verus! {

pub const STEPS: usize = 16;
pub const FULL_MIN: usize = 768;
pub const FULL_MAX: usize = 3840;
pub const SEED_MIN: usize = 2048;
pub const SEED_MAX: usize = 8192;

/// The budget of slider step `step` (the last step for anything beyond it)
/// between `low` and `high`, rounded to the nearest integer.
pub fn value(low: usize, high: usize, step: usize) -> (v: usize)
    requires
        low <= high,
        (high - low) * (if step < STEPS - 1 {
            step as int
        } else {
            STEPS - 1
        }) + (STEPS - 1) / 2 <= usize::MAX,
    ensures
        v == low + ((high - low) * (if step < STEPS - 1 {
            step as int
        } else {
            STEPS - 1
        }) + (STEPS - 1) / 2) / (STEPS - 1) as int,
        low <= v <= high,
        step == 0 ==> v == low,
        step >= STEPS - 1 ==> v == high,
{
    let s = if step < STEPS - 1 {
        step
    } else {
        STEPS - 1
    };
    proof {
        assert(((high - low) * s + 7) / 15 <= high - low) by (nonlinear_arith)
            requires
                0 <= s <= 15,
                low <= high,
        ;
        assert(((high - low) * 15 + 7) / 15 == high - low) by (nonlinear_arith)
            requires
                low <= high,
        ;
    }
    low + ((high - low) * s + (STEPS - 1) / 2) / (STEPS - 1)
}

/// A custom RGB555 cube colour from five-bit channels.
pub fn rgb(r: u32, g: u32, b: u32) -> (c: u32)
    ensures
        c == CUSTOM_RGB555 | r | (g << 5u32) | (b << 10u32),
{
    CUSTOM_RGB555 | r | (g << 5) | (b << 10)
}

/// The budget of slider step `step` between `low` and `high`.
pub open spec fn spec_value(low: int, high: int, step: int) -> int {
    low + ((high - low) * (if step < STEPS - 1 {
        step
    } else {
        STEPS - 1
    }) + (STEPS - 1) / 2) / (STEPS - 1) as int
}

pub open spec fn sat_sub(a: int, b: int) -> int {
    if a > b {
        a - b
    } else {
        0
    }
}

/// The frame's budgets at slider steps `steps` (full cubes, then seeds),
/// after reserving overlays and face seeds: the full cubes that scene cubes
/// may use, never more than the seeds left, and the seeds left. Visibility
/// and geometry selection share it, so neither overruns the frame.
pub fn scene_budget(steps: [usize; 2], reserved_full: usize, reserved_seeds: usize) -> (r: (usize, usize))
    ensures
        ({
            let full = spec_value(FULL_MIN as int, FULL_MAX as int, steps[0] as int);
            let seeds = sat_sub(spec_value(SEED_MIN as int, SEED_MAX as int, steps[1] as int), reserved_seeds as int);
            r == ((if sat_sub(full, reserved_full as int) < seeds {
                sat_sub(full, reserved_full as int)
            } else {
                seeds
            }) as usize, seeds as usize)
        }),
{
    let seeds = value(SEED_MIN, SEED_MAX, steps[1]).saturating_sub(reserved_seeds);
    let full = value(FULL_MIN, FULL_MAX, steps[0]).saturating_sub(reserved_full);
    (if full < seeds {
        full
    } else {
        seeds
    }, seeds)
}

} // verus!
