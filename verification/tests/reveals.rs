use cubes::reveals::{Phase, Reveal, DELAY_MS, MAX_STARTS_PER_FRAME, STARTS_PER_SECOND};

fn frame(reveal: &mut Reveal, now: u64, source: usize, ids: &[usize]) -> Vec<usize> {
    reveal.begin_frame(now, source);
    let drawn = ids
        .iter()
        .copied()
        .filter(|&id| reveal.admit_seed(id))
        .collect();
    reveal.end_frame();
    drawn
}

#[test]
fn pop_in_waits_for_the_delay_then_stays_fully_admitted() {
    let mut reveal = Reveal::new();
    assert!(frame(&mut reveal, 0, 1, &[0]).is_empty());
    assert!(frame(&mut reveal, DELAY_MS - 1, 1, &[0]).is_empty());
    assert_eq!(frame(&mut reveal, DELAY_MS, 1, &[0]), [0]);
    assert_eq!(frame(&mut reveal, DELAY_MS + 1, 1, &[0]), [0]);
    assert_eq!(frame(&mut reveal, 60_000, 1, &[0]), [0]);
}

#[test]
fn rate_and_burst_limits_hold_at_different_frame_rates() {
    for step in [7, 16, 67, 100, 333] {
        let mut reveal = Reveal::new();
        let ids: Vec<_> = (0..900).collect();
        let mut last = 0;
        for now in (0..12000).step_by(step) {
            let drawn = frame(&mut reveal, now, 900, &ids).len();
            assert!(drawn - last <= MAX_STARTS_PER_FRAME as usize);
            assert!(drawn as u64 * 1000 <= now * STARTS_PER_SECOND);
            last = drawn;
        }
        assert_eq!(last, 900);
    }
}

#[test]
fn nearest_eligible_seeds_start_first_and_stalls_cannot_burst_the_whole_scene() {
    let mut reveal = Reveal::new();
    let ids: Vec<_> = (0..900).rev().collect();
    frame(&mut reveal, 0, 900, &ids);
    assert_eq!(frame(&mut reveal, DELAY_MS, 900, &ids), ids[..32]);
    // Existing cubes remain shown; at most 32 additional cubes start.
    assert_eq!(frame(&mut reveal, 60_000, 900, &ids), ids[..64]);
}

#[test]
fn brief_occlusion_preserves_admission_but_long_absence_rearms_the_delay() {
    let mut reveal = Reveal::new();
    frame(&mut reveal, 0, 1, &[0]);
    frame(&mut reveal, 333, 1, &[0]);
    frame(&mut reveal, 380, 1, &[]);
    assert_eq!(frame(&mut reveal, 420, 1, &[0]), [0]);
    frame(&mut reveal, 460, 1, &[]);
    assert!(frame(&mut reveal, 700, 1, &[0]).is_empty());
    assert_eq!(frame(&mut reveal, 1033, 1, &[0]), [0]);
}

#[test]
fn fleeting_exposures_reset_and_reordered_compaction_keeps_authored_identity() {
    let mut reveal = Reveal::new();
    frame(&mut reveal, 0, 3, &[2]);
    frame(&mut reveal, 60, 3, &[]);
    assert!(frame(&mut reveal, 120, 3, &[2]).is_empty());
    assert!(frame(&mut reveal, 180, 3, &[1, 2]).is_empty());
    assert_eq!(frame(&mut reveal, 453, 3, &[2, 1]), [2]);
    assert_eq!(frame(&mut reveal, 513, 3, &[1, 2]), [1, 2]);
}

#[test]
fn appending_placement_does_not_restart_existing_reveal() {
    let mut reveal = Reveal::new();
    frame(&mut reveal, 0, 1, &[0]);
    assert_eq!(frame(&mut reveal, 333, 1, &[0]), [0]);
    reveal.append(2);
    assert_eq!(frame(&mut reveal, 353, 2, &[0, 1]), [0]);
    assert_eq!(frame(&mut reveal, 686, 2, &[0, 1]), [0, 1]);
}

#[test]
fn page_reset_clears_equal_size_assets_and_empty_scenes() {
    let mut reveal = Reveal::new();
    frame(&mut reveal, 0, 1, &[0]);
    frame(&mut reveal, DELAY_MS, 1, &[0]);
    reveal.reset();
    assert!(frame(&mut reveal, 200, 1, &[0]).is_empty());
    assert!(frame(&mut reveal, 300, 0, &[]).is_empty());
    assert!(frame(&mut reveal, 400, 1, &[0]).is_empty());
}

#[test]
fn admitted_seeds_settle_after_their_growth_and_ranges_rearm() {
    let mut reveal = Reveal::new();
    frame(&mut reveal, 0, 2, &[0, 1]);
    frame(&mut reveal, DELAY_MS, 2, &[0, 1]);
    assert_eq!(reveal.phase(0), Phase::Full(DELAY_MS));
    assert!(!reveal.settled(0));
    frame(&mut reveal, DELAY_MS + 699, 2, &[0, 1]);
    assert!(!reveal.settled(0));
    frame(&mut reveal, DELAY_MS + 700, 2, &[0, 1]);
    assert!(reveal.settled(0));
    reveal.reset_range(1..2);
    assert_eq!(reveal.phase(1), Phase::Hidden);
    assert_eq!(reveal.phase(0), Phase::Full(DELAY_MS));
    assert_eq!(reveal.now(), DELAY_MS + 700);
}
