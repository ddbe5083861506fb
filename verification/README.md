# cubes

Verified logic of the Cubes scene, written in Verus. Every function in
`src/` carries a `requires`/`ensures` contract that Verus proves; the
laws that relate several functions are public proof functions (`lemma_*`).

## Layout

- `src/` — the library (crate `cubes`), one module per subject:
  - `rubik`, `world_topology`, `world_portals`, `world_cube`, `picking`,
    `transition`: the 3x3x3 world puzzle, the routes between worlds that its
    exact lattice poses define, the portal faces that show them, and the
    flight into a world.
  - `subcubes`, `solid`: the Key7 mining demo on an exact 1/24-c1 lattice,
    and the voxel occupancy a walker moves through, filled from a portal
    world's records.
  - `cube_format`, `orchard`, `network`, `vfx_stream`, `counters`: the
    CUBES record format, the checks of an orchard asset file, the CUB1 wire
    format with its revision-pinned transfers, and the frame counters.
  - `reveals`, `carousel`, `marker_lod`, `world_weld`, `platform_lod`,
    `render_limits`: the rate-limited reveal of cubes, the asset carousel's
    navigation and admission, marker grouping, face welding, platform
    replacement and the rendering budgets.
  - `cube_interface`, `hud`, `joined_world`, `modes`, `environment`,
    `flight_target`, `floor`, `background`, `world_bounds`, `cubepathfind`:
    the menu preview model and its painting, the status panel, textures, key routing,
    palettes, the landing cube and the incremental A* search over voxel faces.
- `tests/` — tests of the library on concrete values.
- `app/` — the command-line front end and the float geometry that drives
  the library (easing curves, poses, distances), which Verus does not check.
