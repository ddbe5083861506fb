use cubes::rubik::{Puzzle, Turn, TURN_MS};

type Pose = ([i8; 3], [[i8; 3]; 3]);

fn poses(p: &Puzzle) -> Vec<Pose> {
    (0..27).map(|id| p.lattice_pose(id)).collect()
}

#[test]
fn four_turns_restore_every_identity_and_orientation() {
    for axis in 0..3 {
        for layer in [-1, 1] {
            for direction in [-1, 1] {
                let mut p = Puzzle::new(0);
                let original = poses(&p);
                let t = Turn {
                    axis,
                    layer,
                    direction,
                    started: 0,
                };
                p.commit(t);
                assert_eq!(
                    poses(&p)
                        .iter()
                        .zip(original.iter())
                        .filter(|(a, b)| a != b)
                        .count(),
                    9
                );
                for _ in 0..3 {
                    p.commit(t);
                }
                assert_eq!(poses(&p), original);
            }
        }
    }
}

#[test]
fn scramble_preserves_unique_cells_and_outward_stickers() {
    let mut p = Puzzle::new(0);
    let solved = poses(&Puzzle::new(0));
    for n in 1..200 {
        p.commit(Turn {
            axis: n as usize % 3,
            layer: if n % 2 == 0 { 1 } else { -1 },
            direction: 1,
            started: 0,
        });
        let now = poses(&p);
        for i in 0..27 {
            for j in 0..i {
                assert_ne!(now[i].0, now[j].0);
            }
            let original = solved[i].0;
            for axis in 0..3 {
                if original[axis] != 0 {
                    let normal = now[i].1[axis].map(|x| x * original[axis]);
                    assert_eq!(
                        normal
                            .iter()
                            .zip(now[i].0)
                            .map(|(a, b)| a * b)
                            .sum::<i8>(),
                        1
                    );
                }
            }
        }
    }
}

#[test]
fn selection_runs_exactly_three_consecutive_noninverse_turns() {
    let mut p = Puzzle::new(100);
    p.update(50_000);
    assert!(p.current_turn().is_none());
    assert!(!p.select(13, 50_000));

    assert!(p.select(0, 50_000));
    assert!(!p.select(2, 50_000));
    let mut previous = None;
    for i in 0..3 {
        p.update(51_000 + i * TURN_MS);
        let t = p.current_turn().unwrap();
        assert_ne!(Some(t.axis), previous);
        previous = Some(t.axis);
        assert_eq!(p.lattice_pose(0).0[t.axis], t.layer);
    }
    p.update(54_000);
    assert!(!p.locked());
    assert_eq!(p.completed(), 3);
    let final_state = poses(&p);
    p.update(100_000);
    assert_eq!(poses(&p), final_state);
}

#[test]
fn identities_are_found_at_their_cells_before_and_after_a_turn() {
    let mut p = Puzzle::new(0);
    for id in 0..27 {
        assert_eq!(p.identity_at(p.lattice_pose(id).0), Some(id));
    }
    assert_eq!(p.identity_at([2, 0, 0]), None);
    p.commit(Turn {
        axis: 2,
        layer: 1,
        direction: 1,
        started: 0,
    });
    for id in 0..27 {
        assert_eq!(p.identity_at(p.lattice_pose(id).0), Some(id));
    }
    // A positive quarter turn about z carries +x to +y: the (+x,+y) corner
    // of the top layer moves to (-x,+y) and the (+x,0) edge to (0,+y).
    assert_eq!(p.lattice_pose(2 + 6 + 18).0, [-1, 1, 1]);
    assert_eq!(p.lattice_pose(2 + 3 + 18).0, [0, 1, 1]);
    assert_eq!(p.revision(), 1);
}

#[test]
fn travel_turn_commits_one_shared_layer_then_unlocks() {
    let mut p = Puzzle::new(0);
    // Cubies 0 ([-1,-1,-1]) and 2 ([1,-1,-1]) share y and z; y comes first.
    p.travel_turn(0, 2, 1_000);
    assert!(p.locked());
    assert_eq!(p.selected(), Some(0));
    let t = p.current_turn().unwrap();
    assert_eq!((t.axis, t.layer, t.direction, t.started), (1, -1, 1, 1_000));
    p.update(1_500);
    assert_eq!(p.revision(), 0);
    p.update(2_000);
    assert_eq!(p.revision(), 1);
    assert!(!p.locked());
    assert_eq!(p.completed(), 3);
    p.reenter(4_000);
    assert_eq!(p.selected(), None);
    assert_eq!(p.revision(), 1);
}

#[test]
fn cancelled_travel_keeps_committed_poses() {
    let mut p = Puzzle::new(0);
    assert!(p.select(0, 0));
    p.update(1_000);
    p.update(2_000);
    let committed = poses(&p);
    assert_eq!(p.revision(), 1);
    p.cancel_travel(2_100);
    assert_eq!(poses(&p), committed);
    assert!(p.current_turn().is_none());
    assert_eq!(p.selected(), None);
    assert_eq!(p.opened_at(), 2_100);
}
