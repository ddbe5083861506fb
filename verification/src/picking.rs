//! Which cubies a click may select: only cubies on an edge or a corner of
//! the puzzle, never a face centre or the core.
use vstd::prelude::*;

verus! {

/// How many of the coordinates of solved cubie `id` are off centre.
pub open spec fn off_centre(id: int) -> int {
    (if id % 3 != 1 {
        1int
    } else {
        0int
    }) + (if (id / 3) % 3 != 1 {
        1int
    } else {
        0int
    }) + (if id / 9 != 1 {
        1int
    } else {
        0int
    })
}

/// A cubie is selectable when it is off centre along two axes or more.
pub fn selectable(id: usize) -> (s: bool)
    ensures
        s == (off_centre(id as int) >= 2),
{
    let mut count: usize = 0;
    if id % 3 != 1 {
        count = count + 1;
    }
    if (id / 3) % 3 != 1 {
        count = count + 1;
    }
    if id / 9 != 1 {
        count = count + 1;
    }
    count >= 2
}

} // verus!
