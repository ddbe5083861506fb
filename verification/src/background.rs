//! What the background renderer shows behind the scene.
use vstd::prelude::*;

verus! {

#[derive(Clone, Copy, Debug, PartialEq, Eq, Structural)]
pub enum Mode {
    Neutral,
    World,
    Cube,
}

} // verus!
