use cubes::cubepathfind::{Face, Popped, Search, Status, Step};

#[derive(Clone, Copy, Debug, PartialEq)]
struct Leg {
    direction: [f32; 3],
    distance: f32,
}

#[derive(Clone, Copy)]
struct Edge {
    to: Face,
    leg: Leg,
}

fn center(face: Face, grid: f32) -> [f32; 3] {
    let mut n = [0.; 3];
    n[face.side as usize / 2] = if face.side % 2 == 0 { -1. } else { 1. };
    core::array::from_fn(|a| (face.cell[a] as f32 + 0.5 + n[a] * 0.5) * grid)
}

fn estimate(from: Face, goal: Face, grid: f32) -> u64 {
    let a = center(from, grid);
    let b = center(goal, grid);
    let d: f32 = (0..3).map(|i| (a[i] - b[i]).abs()).sum();
    (d * 1000.).floor() as u64
}

/// Up to `work` queue entries, expanding faces through `neighbors`.
fn advance(search: &mut Search<Leg>, goal: Face, work: usize, neighbors: impl Fn(Face) -> Vec<Edge>) {
    for _ in 0..work {
        match search.pop() {
            Popped::Finished => return,
            Popped::Stale => continue,
            Popped::Expand(from) => {
                let steps: Vec<Step<Leg>> = neighbors(from)
                    .into_iter()
                    .filter(|e| e.leg.distance.is_finite() && e.leg.distance > 0.)
                    .map(|e| Step {
                        to: e.to,
                        cost: (e.leg.distance * 1000.).round() as u64,
                        estimate: estimate(e.to, goal, 1.),
                        leg: e.leg,
                    })
                    .collect();
                search.relax(&steps);
                if search.status != Status::Searching {
                    return;
                }
            }
        }
    }
}

fn node(x: i32) -> Face {
    Face { cell: [x, 0, 0], side: 3 }
}

fn edge(x: i32, distance: f32) -> Edge {
    Edge { to: node(x), leg: Leg { direction: [1., 0., 0.], distance } }
}

fn neighbors(n: Face) -> Vec<Edge> {
    match n.cell[0] {
        0 => vec![edge(3, 10.), edge(1, 1.)],
        1 => vec![edge(2, 1.)],
        2 => vec![edge(3, 1.)],
        _ => Vec::new(),
    }
}

#[test]
fn incremental_search_chooses_distance_over_fewest_edges() {
    let mut search = Search::new(node(0), node(3), estimate(node(0), node(3), 1.));
    advance(&mut search, node(3), 1, neighbors);
    assert_eq!(search.status, Status::Searching);
    assert!(search.route().is_none());
    advance(&mut search, node(3), 10, neighbors);
    let route = search.route().unwrap();
    assert_eq!(route.len(), 3);
    assert_eq!(route.iter().map(|l| l.distance).sum::<f32>(), 3.);
}

#[test]
fn disconnected_and_same_face_do_not_invent_travel() {
    let mut search = Search::new(node(0), node(1), estimate(node(0), node(1), 1.));
    advance(&mut search, node(1), 10, |_| Vec::new());
    assert_eq!(search.status, Status::Unreachable);
    assert!(search.route().is_none());
    let mut same = Search::new(node(0), node(0), 0);
    advance(&mut same, node(0), 1, |_| panic!("same face needs no edges"));
    assert!(same.route().unwrap().is_empty());
}

#[test]
fn a_cheaper_way_replaces_the_recorded_one_and_outdated_entries_turn_stale() {
    let goal = node(2);
    let mut search = Search::new(node(0), goal, 0);
    let expand = |s: &mut Search<u8>, steps: &[Step<u8>]| match s.pop() {
        Popped::Expand(_) => s.relax(steps),
        _ => panic!("expected an expansion"),
    };
    expand(&mut search, &[
        Step { to: goal, cost: 10, estimate: 0, leg: 1 },
        Step { to: node(1), cost: 1, estimate: 0, leg: 2 },
    ]);
    expand(&mut search, &[Step { to: goal, cost: 1, estimate: 0, leg: 3 }]);
    assert!(matches!(search.pop(), Popped::Finished));
    assert_eq!(search.status, Status::Ready);
    assert_eq!(search.route().unwrap(), vec![2, 3]);
    // Once finished, the search stays finished.
    assert!(matches!(search.pop(), Popped::Finished));

    let far = node(9);
    let mut open: Search<u8> = Search::new(node(0), far, 0);
    expand(&mut open, &[
        Step { to: node(2), cost: 10, estimate: 0, leg: 1 },
        Step { to: node(1), cost: 1, estimate: 0, leg: 2 },
    ]);
    expand(&mut open, &[Step { to: node(2), cost: 1, estimate: 0, leg: 3 }]);
    expand(&mut open, &[]);
    assert!(matches!(open.pop(), Popped::Stale));
    assert!(matches!(open.pop(), Popped::Finished));
    assert_eq!(open.status, Status::Unreachable);
    assert!(open.route().is_none());
}

#[test]
fn zero_cost_edges_are_charged_one_and_ties_prefer_the_costlier_way() {
    let goal = node(5);
    let mut search: Search<u8> = Search::new(node(0), goal, 4);
    assert!(matches!(search.pop(), Popped::Expand(_)));
    search.relax(&[
        Step { to: node(1), cost: 0, estimate: 3, leg: 1 },
        Step { to: node(2), cost: 2, estimate: 2, leg: 2 },
    ]);
    // node(1) has priority 1 + 3 and node(2) priority 2 + 2: equal, so the
    // costlier way to node(2) comes first.
    match search.pop() {
        Popped::Expand(f) => assert_eq!(f, node(2)),
        _ => panic!("expected node 2"),
    }
    search.relax(&[]);
    match search.pop() {
        Popped::Expand(f) => assert_eq!(f, node(1)),
        _ => panic!("expected node 1"),
    }
}
