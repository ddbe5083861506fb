//! Verified game logic for the Cubes scene: the sub-cube mining demo, the
//! CUBES record format, world topology, reveals and the small state machines
//! that the renderer drives.
use vstd::prelude::*;

pub mod background;
pub mod carousel;
pub mod counters;
pub mod cube_format;
pub mod cube_interface;
pub mod cubepathfind;
pub mod environment;
pub mod floor;
pub mod flight_target;
pub mod hud;
pub mod joined_world;
pub mod marker_lod;
pub mod modes;
pub mod network;
pub mod orchard;
pub mod picking;
pub mod pointlist;
pub mod platform_lod;
pub mod render_limits;
pub mod reveals;
pub mod rubik;
pub mod solid;
pub mod subcubes;
pub mod transition;
pub mod vfx_stream;
pub mod world_bounds;
pub mod world_cube;
pub mod world_portals;
pub mod world_topology;
pub mod world_weld;

verus! {

} // verus!
