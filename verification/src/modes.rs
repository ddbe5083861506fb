//! Number-key routing. Key 1 toggles room/sphere; keys 3 and 5 cycle menus/worlds.
use vstd::prelude::*;

verus! {

#[derive(Clone, Copy, Debug, PartialEq, Eq, Structural)]
pub enum SceneMode {
    InteractiveGrid,
    StaticCube,
    Interface,
    Sphere,
    Orchard,
    World,
    MaterialShowcase,
    RenderLimits,
}

impl SceneMode {
    /// The number key that selects the mode, as the status panel shows it.
    pub fn number(self) -> (n: u8)
        ensures
            n == spec_number(self),
    {
        match self {
            SceneMode::InteractiveGrid => 1,
            SceneMode::StaticCube => 2,
            SceneMode::Interface => 3,
            SceneMode::Sphere => 1,
            SceneMode::Orchard => 4,
            SceneMode::World => 5,
            SceneMode::MaterialShowcase => 7,
            SceneMode::RenderLimits => 9,
        }
    }
}

pub open spec fn spec_number(mode: SceneMode) -> u8 {
    match mode {
        SceneMode::InteractiveGrid => 1,
        SceneMode::StaticCube => 2,
        SceneMode::Interface => 3,
        SceneMode::Sphere => 1,
        SceneMode::Orchard => 4,
        SceneMode::World => 5,
        SceneMode::MaterialShowcase => 7,
        SceneMode::RenderLimits => 9,
    }
}

#[derive(Clone, Copy, Debug, PartialEq, Eq, Structural)]
pub struct Selection {
    pub mode: SceneMode,
    pub page: Option<usize>,
}

/// The key state between frames, and where the two page cycles stand.
#[derive(Clone, Copy, Debug, PartialEq, Eq, Structural)]
pub struct KeyState {
    pub held: u16,
    pub next_world: usize,
    pub next_interface: usize,
}

pub struct ModeKeys {
    held: u16,
    next_world: usize,
    next_interface: usize,
}

impl Default for ModeKeys {
    fn default() -> (k: Self)
        ensures
            k.state() == (KeyState { held: 0, next_world: 0, next_interface: 0 }),
    {
        ModeKeys { held: 0, next_world: 0, next_interface: 0 }
    }
}

/// The mode that the keys pressed this frame ask for: key 1 toggles the room
/// and the sphere, key 2 the static cube, key 3 the interface, key 5 a world
/// (when there is one), key 9 the render limits, key 7 the material showcase.
pub open spec fn requested_mode(pressed: u16, current: SceneMode, worlds: usize) -> Option<
    SceneMode,
> {
    if pressed & 1 != 0 {
        Some(
            if current == SceneMode::InteractiveGrid {
                SceneMode::Sphere
            } else {
                SceneMode::InteractiveGrid
            },
        )
    } else if pressed & 2 != 0 {
        Some(SceneMode::StaticCube)
    } else if pressed & 4 != 0 {
        Some(SceneMode::Interface)
    } else if pressed & 16 != 0 && worlds > 0 {
        Some(SceneMode::World)
    } else if pressed & 256 != 0 {
        Some(SceneMode::RenderLimits)
    } else if pressed & 64 != 0 {
        Some(SceneMode::MaterialShowcase)
    } else {
        None
    }
}

/// One frame of key routing: the next key state and the selection, if any.
/// The interface cycles through three pages and the worlds through all of
/// them; asking again for the current mode of another kind selects nothing.
pub open spec fn spec_update(
    k: KeyState,
    held: u16,
    current: SceneMode,
    orchard: usize,
    orchards: usize,
    worlds: usize,
) -> (KeyState, Option<Selection>) {
    let pressed = held & !k.held;
    let k1 = KeyState { held, ..k };
    match requested_mode(pressed, current, worlds) {
        None => (k1, None),
        Some(mode) => match mode {
            SceneMode::Interface => (
                KeyState { next_interface: ((k.next_interface + 1) % 3) as usize, ..k1 },
                Some(Selection { mode, page: Some(k.next_interface) }),
            ),
            SceneMode::World => {
                let page = (k.next_world % worlds) as usize;
                (
                    KeyState { next_world: ((page + 1) % (worlds as int)) as usize, ..k1 },
                    Some(Selection { mode, page: Some(page) }),
                )
            },
            SceneMode::StaticCube => (k1, Some(Selection { mode, page: None })),
            _ => if current == mode {
                (k1, None)
            } else {
                (k1, Some(Selection { mode, page: None }))
            },
        },
    }
}

impl ModeKeys {
    pub closed spec fn state(&self) -> KeyState {
        KeyState { held: self.held, next_world: self.next_world, next_interface: self.next_interface }
    }

    pub fn update(
        &mut self,
        held: u16,
        current: SceneMode,
        orchard: usize,
        orchards: usize,
        worlds: usize,
    ) -> (r: Option<Selection>)
        requires
            old(self).state().next_interface < 3,
        ensures
            (final(self).state(), r) == spec_update(
                old(self).state(),
                held,
                current,
                orchard,
                orchards,
                worlds,
            ),
            final(self).state().next_interface < 3,
    {
        let pressed = held & !self.held;
        self.held = held;
        let mode = if pressed & 1 != 0 {
            if current == SceneMode::InteractiveGrid {
                SceneMode::Sphere
            } else {
                SceneMode::InteractiveGrid
            }
        } else if pressed & 2 != 0 {
            SceneMode::StaticCube
        } else if pressed & 4 != 0 {
            SceneMode::Interface
        } else if pressed & 16 != 0 && worlds > 0 {
            SceneMode::World
        } else if pressed & 256 != 0 {
            SceneMode::RenderLimits
        } else if pressed & 64 != 0 {
            SceneMode::MaterialShowcase
        } else {
            return None;
        };
        let page = match mode {
            SceneMode::Interface => {
                let page = self.next_interface;
                self.next_interface = (page + 1) % 3;
                Some(page)
            },
            SceneMode::World => {
                let page = self.next_world % worlds;
                self.next_world = (page + 1) % worlds;
                Some(page)
            },
            SceneMode::Orchard => Some(
                if current == mode {
                    (orchard + 1) % orchards
                } else {
                    orchard % orchards
                },
            ),
            SceneMode::StaticCube => None,
            _ => {
                if current == mode {
                    return None;
                }
                None
            },
        };
        Some(Selection { mode, page })
    }
}

} // verus!
