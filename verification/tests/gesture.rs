use cubes::subcubes::{Block, MiningGesture, MiningTarget};

fn gesture_target(x: i32) -> MiningTarget {
    let parent = Block {
        min: [x, 0, 0],
        side: 24,
        material: 0,
    };
    MiningTarget { parent, cut: parent }
}

#[test]
fn click_commits_only_on_release_and_aiming_away_cancels_it() {
    let a = Some(gesture_target(0));
    let b = Some(gesture_target(6));
    let mut g = MiningGesture::default();
    g.press(a, 100);
    assert!(g.tick(a, 101).is_none());
    assert_eq!(g.release(a), a);
    assert!(g.release(a).is_none());
    for away in [None, b] {
        g.press(a, 100);
        g.observe(away);
        assert!(g.release(a).is_none());
        assert!(g.tick(a, 3000).is_none());
    }
    g.press(None, 100);
    assert!(g.release(a).is_none());
    g.press(a, 100);
    assert!(g.release(b).is_none());
}

#[test]
fn hold_starts_at_two_seconds_and_tracks_targets_without_release_extra_cut() {
    let a = Some(gesture_target(0));
    let b = Some(gesture_target(6));
    let mut g = MiningGesture::default();
    g.press(a, 100);
    assert!(g.tick(a, 2099).is_none());
    assert_eq!(g.tick(a, 2100), a);
    assert!(g.tick(b, 2199).is_none());
    assert_eq!(g.tick(b, 2200), b);
    assert!(g.tick(None, 2300).is_none());
    assert_eq!(g.tick(a, 2400), a);
    assert!(g.release(a).is_none());
    assert!(g.tick(a, 3000).is_none());
}

#[test]
fn cancelled_holds_and_slow_frames_never_burst() {
    let a = Some(gesture_target(0));
    let mut g = MiningGesture::default();
    g.press(a, 0);
    assert_eq!(g.tick(a, 5000), a);
    assert!(g.tick(a, 5000).is_none());
    assert!(g.tick(a, 5099).is_none());
    assert_eq!(g.tick(a, 5100), a);
    g.cancel();
    assert!(g.tick(a, 10000).is_none());
    assert!(g.release(a).is_none());
}
