use cubes::rubik::Puzzle;
use cubes::world_portals::{PortalRoutes, PHASE_MS};
use cubes::world_topology::routes;

#[test]
fn later_turns_queue_latest_routes_without_restarting_a_visible_transition() {
    let mut p = Puzzle::new(0);
    let mut w = PortalRoutes::new(0, &p);
    p.select(0, 0);
    p.update(1000);
    p.update(2000);
    w.update(&p, 2000);
    let first = w.change().unwrap();
    p.update(3000);
    w.update(&p, 3000);
    assert_eq!(w.change().unwrap().started, first.started);
    assert_eq!(w.change().unwrap().to, first.to);
    p.update(4000);
    w.update(&p, 4000);
    assert_eq!(w.current(), first.to);
    for now in [5000, 6000, 7000, 8000] {
        w.update(&p, now);
    }
    assert!(w.change().is_none());
    assert_eq!(w.current(), routes(0, &p));
}

#[test]
fn a_change_shows_its_old_routes_then_its_new_ones_after_two_phases() {
    let mut p = Puzzle::new(0);
    let mut w = PortalRoutes::new(0, &p);
    let before = w.current();
    // Nothing changes without a committed turn.
    assert!(!w.update(&p, 10));
    assert!(w.change().is_none());
    p.select(0, 0);
    p.update(1000);
    p.update(2000);
    assert!(w.update(&p, 2000));
    let change = w.change().unwrap();
    assert_eq!(change.from, before);
    assert_eq!(change.to, routes(0, &p));
    assert_eq!(w.current(), before);
    assert!(w.update(&p, 2000 + 2 * PHASE_MS - 1));
    assert_eq!(w.current(), before);
    // The frame that completes the change still repaints.
    assert!(w.update(&p, 2000 + 2 * PHASE_MS));
    assert_eq!(w.current(), change.to);
    assert!(w.change().is_none());
    assert!(!w.update(&p, 2000 + 2 * PHASE_MS + 1));
}
