use cubes::rubik::Puzzle;
use cubes::world_topology::{authored_routes, cubie, entry, routes, Destination, THEME_MASKS, VOID};
use cubes::world_topology::Destination::{Leave, Nowhere, World};

#[test]
fn roster_is_a_bijection_and_solved_topology_matches_the_exports() {
    let puzzle = Puzzle::new(0);
    let mut ids: Vec<_> = (0..27).map(cubie).collect();
    ids.sort();
    assert_eq!(ids, (0..27).collect::<Vec<_>>());
    assert_eq!(cubie(VOID), 13);
    for world in 0..27 {
        assert_eq!(routes(world, &puzzle), authored_routes(world));
    }
}

#[test]
fn committed_turns_change_neighbors_but_preserve_exits_void_and_reciprocity() {
    let mut puzzle = Puzzle::new(0);
    let initial: Vec<_> = (0..27).map(|w| routes(w, &puzzle)).collect();
    assert!(puzzle.select(0, 0));
    puzzle.update(1000); // animation started; no committed permutation yet
    assert_eq!(puzzle.revision(), 0);
    for world in 0..27 {
        assert_eq!(routes(world, &puzzle), initial[world]);
    }
    let mut changed = false;
    for now in [2000, 3000, 4000] {
        puzzle.update(now);
        for world in 0..27 {
            let current = routes(world, &puzzle);
            changed |= current != initial[world];
            for (face, destination) in current.into_iter().enumerate() {
                if initial[world][face] == Destination::Leave {
                    assert_eq!(destination, Destination::Leave);
                }
                if let Destination::World(target) = destination {
                    assert_ne!(world, target);
                    assert!(routes(target, &puzzle).contains(&Destination::World(world)));
                    if world == VOID {
                        assert!(target < 6);
                    }
                    if target == VOID {
                        assert!(world < 6);
                    }
                }
            }
        }
    }
    assert!(changed);
    assert_eq!(routes(VOID, &puzzle), initial[VOID]);
    let revision = puzzle.revision();
    puzzle.reenter(5000);
    assert_eq!(puzzle.revision(), revision);
    assert!(puzzle.selected().is_none());
}

#[test]
fn authored_routes_of_a_face_edge_and_corner_world() {
    // Sky (+x): four edge neighbours, the Void below, the exit above.
    assert_eq!(authored_routes(0), [World(6), World(7), World(8), World(9), World(VOID), Leave, Nowhere]);
    // Sky + Black hole (+x, +y): two faces, two corners, two exits.
    assert_eq!(authored_routes(6), [World(0), World(18), World(2), World(19), Leave, Leave, Nowhere]);
    // The Void reaches the six face worlds and has one exit.
    assert_eq!(
        authored_routes(VOID),
        [World(0), World(2), World(1), World(3), World(5), World(4), Leave]
    );
}

#[test]
fn entry_maps_sticker_axes_to_leave_slots_in_order() {
    // Cubie 14 is the +x face centre: Sky, whose single Leave slot is face 5.
    assert_eq!(entry(14, 0), Some((0, 5)));
    assert_eq!(entry(14, 1), None);
    // The core cubie belongs to no enterable world.
    assert_eq!(entry(13, 0), None);
    // Cubie 26 is the (+x, +y, +z) corner: three stickers, Leave slots 3, 4, 5.
    let corner = (0..27).find(|&w| cubie(w) == 26).unwrap();
    assert_eq!(entry(26, 0), Some((corner, 3)));
    assert_eq!(entry(26, 1), Some((corner, 4)));
    assert_eq!(entry(26, 2), Some((corner, 5)));
    assert_eq!(entry(27, 0), None);
}

#[test]
fn leave_slots_match_theme_counts() {
    for (world, leaves) in [(0usize, 1usize), (6, 2), (18, 3), (26, 1)] {
        let r = authored_routes(world);
        assert_eq!(r.iter().filter(|d| **d == Destination::Leave).count(), leaves);
        assert_eq!(THEME_MASKS[world].count_ones() as usize, if world == 26 { 0 } else { leaves });
    }
}
