use cubes::floor::{empty, FLOOR_BYTES};
use cubes::marker_lod::{average_rgb555, groups, routes, sort_by_key, spread, Route, CUSTOM_RGB555};
use cubes::render_limits::{rgb, value, FULL_MAX, FULL_MIN, SEED_MAX, SEED_MIN, STEPS};
use cubes::solid::{portal_occupancy, Solid};
use cubes::transition::{done, fade_elapsed, FADE_MS, FLIGHT_MS};

#[test]
fn solid_cells_are_empty_until_inserted_and_outside_is_never_solid() {
    let mut s = Solid::new([-2, 0, 5], [2, 3, 7]);
    assert!(!s.contains([0, 1, 6]));
    s.insert([0, 1, 6]);
    assert!(s.contains([0, 1, 6]));
    assert!(!s.contains([0, 1, 5]));
    // Outside the bounds nothing is stored and nothing is found.
    s.insert([2, 0, 5]);
    assert!(!s.contains([2, 0, 5]));
    assert_eq!(s.index([-2, 0, 5]), Some(0));
    assert_eq!(s.index([-2, 0, 6]), Some(1));
    assert_eq!(s.index([-2, 1, 5]), Some(2));
    assert_eq!(s.index([-1, 0, 5]), Some(6));
    assert_eq!(s.index([2, 0, 5]), None);
    assert_eq!(s.index([-3, 0, 5]), None);
}

#[test]
fn portal_occupancy_bounds_and_fills_every_record_cube() {
    // A side-2 cube at x 0, y 0 whose z byte 0 mirrors to corner -2, and a
    // side-1 cube at signed x -1, y 5, z byte 1 (corner -2); three trailing
    // bytes make no record.
    let records = [0, 0, 0, 2, 7, 9, 0, 0, 0xFF, 5, 1, 1, 0, 0, 0, 0, 1, 2, 3];
    let s = portal_occupancy(&records);
    // The box runs from [-1, 0, -2] up to [2, 6, 0].
    assert_eq!(s.index([-1, 0, -2]), Some(0));
    assert_eq!(s.index([1, 5, -1]), Some(35));
    assert_eq!(s.index([2, 0, -2]), None);
    assert_eq!(s.index([1, 6, -2]), None);
    assert_eq!(s.index([1, 5, 0]), None);
    assert_eq!(s.index([-2, 0, -2]), None);
    for p in [[0, 0, -2], [1, 1, -1], [0, 1, -2], [1, 0, -1], [-1, 5, -2]] {
        assert!(s.contains(p), "{:?}", p);
    }
    for p in [[-1, 0, -2], [0, 2, -2], [1, 5, -1], [-1, 5, -1], [0, 4, -2]] {
        assert!(!s.contains(p), "{:?}", p);
    }
}

#[test]
fn spread_interleaves_ten_bits_three_apart() {
    assert_eq!(spread(0), 0);
    assert_eq!(spread(1), 1);
    assert_eq!(spread(2), 8);
    assert_eq!(spread(3), 9);
    assert_eq!(spread(5), 0x41);
    assert_eq!(spread(1023), 0x0924_9249);
    // Bits 24 and 25 pass through the masks: 24 stays, 25 lands on 27.
    assert_eq!(spread(0x0100_0000), 0x0100_0000);
    assert_eq!(spread(0x0200_0000), 0x0800_0000);
    assert_eq!(spread(0x0300_0001), 0x0900_0001);
}

#[test]
fn budget_steps_reach_both_endpoints_and_round_to_nearest() {
    assert_eq!(value(FULL_MIN, FULL_MAX, 0), FULL_MIN);
    assert_eq!(value(FULL_MIN, FULL_MAX, STEPS - 1), FULL_MAX);
    assert_eq!(value(FULL_MIN, FULL_MAX, 100), FULL_MAX);
    assert_eq!(value(FULL_MIN, FULL_MAX, 1), 973);
    assert_eq!(value(FULL_MIN, FULL_MAX, 7), 2202);
    assert_eq!(value(SEED_MIN, SEED_MAX, 0), SEED_MIN);
    assert_eq!(value(SEED_MIN, SEED_MAX, 15), SEED_MAX);
    let mut previous = 0;
    for step in 0..STEPS {
        let v = value(SEED_MIN, SEED_MAX, step);
        assert!(v > previous);
        previous = v;
    }
}

#[test]
fn rgb555_packs_channels_above_the_custom_bit() {
    assert_eq!(rgb(31, 0, 0), 0x8000 | 31);
    assert_eq!(rgb(0, 31, 0), 0x8000 | (31 << 5));
    assert_eq!(rgb(1, 2, 3), 0x8000 | 1 | (2 << 5) | (3 << 10));
}

#[test]
fn empty_floor_has_only_the_alpha_byte_of_every_record_set() {
    let f = empty();
    assert_eq!(f.len(), FLOOR_BYTES);
    assert!(f.iter().enumerate().all(|(i, b)| *b == if i % 12 == 11 { 64 } else { 0 }));
}

#[test]
fn flight_fade_starts_before_the_end_and_the_flight_ends_on_time() {
    assert_eq!(fade_elapsed(1000, 1000), 0);
    assert_eq!(fade_elapsed(1000, 1000 + FLIGHT_MS - FADE_MS), 0);
    assert_eq!(fade_elapsed(1000, 1000 + FLIGHT_MS - FADE_MS + 40), 40);
    assert_eq!(fade_elapsed(1000, 10), 0);
    assert!(!done(1000, 1000 + FLIGHT_MS - 1));
    assert!(done(1000, 1000 + FLIGHT_MS));
    assert!(!done(1000, 0));
}

#[test]
fn markers_sort_by_key_keeping_equal_keys_in_order() {
    let keys = [0x0900_0001u32, 5, 0x0100_0000, 5, 0, 0xffff_ffff, 0x0000_0100, 5];
    let order = sort_by_key(&keys);
    assert_eq!(order, vec![4, 1, 3, 7, 6, 2, 0, 5]);
    assert!(sort_by_key(&[]).is_empty());
    // A larger pseudo-random set agrees with a stable library sort.
    let mut x = 0x1234_5678u32;
    let many: Vec<u32> = (0..500)
        .map(|_| {
            x ^= x << 13;
            x ^= x >> 17;
            x ^= x << 5;
            x & 0x3fff_f0ff
        })
        .collect();
    let mut expected: Vec<usize> = (0..many.len()).collect();
    expected.sort_by_key(|&i| many[i]);
    assert_eq!(sort_by_key(&many), expected);
}

#[test]
fn groups_fill_up_to_the_level_size_within_one_tile() {
    let level = |l: u32, tile: u32, low: u32| (l << 27) | (tile << 12) | low;
    // Level 1 groups pairs; a new tile starts a new group.
    let keys = [level(1, 3, 0), level(1, 3, 1), level(1, 3, 2), level(1, 4, 0)];
    assert_eq!(groups(&keys), vec![(0, 2), (2, 3), (3, 4)]);
    // Level 4 groups up to sixteen; higher levels too.
    let sixteen: Vec<u32> = (0..20).map(|i| level(4, 1, i)).collect();
    assert_eq!(groups(&sixteen), vec![(0, 16), (16, 20)]);
    let high: Vec<u32> = (0..17).map(|i| level(7, 2, i)).collect();
    assert_eq!(groups(&high), vec![(0, 16), (16, 17)]);
    // Level 0 keys stand alone.
    assert_eq!(groups(&[level(0, 1, 0), level(0, 1, 1)]), vec![(0, 1), (1, 2)]);
    assert!(groups(&[]).is_empty());
}

#[test]
fn group_colours_average_each_channel_rounding_to_nearest() {
    let rgb = |r: u32, g: u32, b: u32| CUSTOM_RGB555 | r | (g << 5) | (b << 10);
    assert_eq!(average_rgb555(&[rgb(31, 0, 7)]), rgb(31, 0, 7));
    assert_eq!(average_rgb555(&[rgb(0, 0, 0), rgb(1, 3, 31)]), rgb(1, 2, 16));
    assert_eq!(average_rgb555(&[rgb(2, 0, 0), rgb(0, 0, 0), rgb(0, 0, 0)]), rgb(1, 0, 0));
    assert_eq!(average_rgb555(&[rgb(1, 0, 0), rgb(0, 0, 0), rgb(0, 0, 0)]), rgb(0, 0, 0));
}

#[test]
fn scene_budget_reserves_overlays_and_never_overruns_seeds() {
    assert_eq!(cubes::render_limits::scene_budget([15, 15], 27, 100), (3813, 8092));
    assert_eq!(cubes::render_limits::scene_budget([0, 0], 0, 2000), (48, 48));
    assert_eq!(cubes::render_limits::scene_budget([0, 0], 9999, 9999), (0, 0));
}

#[test]
fn routes_keep_detail_within_budget_and_group_only_coloured_far_dots() {
    let wants = [true, false, true, false, true];
    let levels = [0, 0, 2, 3, 1];
    let flags = [CUSTOM_RGB555, CUSTOM_RGB555, CUSTOM_RGB555, 0x1234 & !CUSTOM_RGB555, CUSTOM_RGB555 | 5];
    // A budget of three: rank 4 wants detail but lies beyond it.
    let (r, dots) = routes(&wants, &levels, &flags, 3);
    assert_eq!(r, vec![Route::Detailed, Route::Single, Route::Detailed, Route::Single, Route::Grouped]);
    assert_eq!(dots, 3);
}
