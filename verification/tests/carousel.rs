use cubes::carousel::{Admitted, Carousel, SLOT_COUNT};
use cubes::reveals::{DELAY_MS, MAX_STARTS_PER_FRAME};

const PALETTE: usize = 42;

fn header(cubes: u16) -> Vec<u8> {
    let mut b = vec![0u8; 12];
    b[8..10].copy_from_slice(&cubes.to_le_bytes());
    b
}

fn groups() -> Vec<Vec<usize>> {
    vec![vec![0, 1, 2, 3, 4, 5, 6], vec![7], vec![8, 9]]
}

fn sources() -> Vec<Vec<u8>> {
    (0..10).map(|i| header(3 + i as u16)).collect()
}

fn carousel() -> Carousel {
    Carousel::new(groups(), &sources(), PALETTE)
}

/// Cube counts by asset id: the sources' headers, then one cube per palette entry.
fn counts() -> Vec<usize> {
    let mut c: Vec<usize> = (0..10).map(|i| 3 + i).collect();
    c.extend(std::iter::repeat(1).take(PALETTE));
    c
}

fn expected_asset(c: &Carousel, offset: i32) -> usize {
    let g = groups();
    let index = c.selected as i32 + offset;
    if c.group == g.len() {
        10 + index.rem_euclid(PALETTE as i32) as usize
    } else {
        let ids = &g[c.group];
        ids[index.rem_euclid(ids.len() as i32) as usize]
    }
}

#[test]
fn navigation_steps_once_per_press_only_in_carousel_and_wraps_groups() {
    let mut c = carousel();
    c.select_group(0);
    for (key, expected) in [(1, (-1, 0)), (2, (1, 0)), (4, (0, 1)), (8, (0, -1))] {
        assert_eq!(c.key_input(key, false), (0, 0));
        assert_eq!(c.key_input(key, true), (0, 0));
        c.key_input(0, true);
        assert_eq!(c.key_input(key, true), expected);
        assert_eq!(c.key_input(key, true), (0, 0));
        c.key_input(0, true);
    }
    assert_eq!(c.key_input(15, true), (0, 0));
    assert_eq!(c.adjacent_group(-1), c.group_count() - 1);
    c.select_group(c.group_count() - 1);
    assert_eq!(c.adjacent_group(1), 0);
}

#[test]
fn five_slots_wrap_every_exported_group_in_both_directions() {
    let mut c = carousel();
    let counts = counts();
    for group in 0..c.group_count() {
        c.select_group(group);
        assert_eq!(c.slots.len(), SLOT_COUNT);
        assert_eq!(c.selected, 0);
        for direction in [1, -1] {
            for n in 0..c.group_len() * 2 {
                let previous = c.selected;
                c.wheel(direction);
                c.advance(n as u64 * 1000 + if direction < 0 { 100000 } else { 0 });
                c.admit_frame(n as u64 * 1000, &counts);
                assert_eq!(
                    c.selected,
                    (previous as i32 + direction).rem_euclid(c.group_len() as i32) as usize
                );
                assert_eq!(c.slots.len(), SLOT_COUNT);
                for i in 0..5 {
                    assert_eq!(c.slots[i].asset, expected_asset(&c, i as i32 - 2));
                    assert_eq!(c.slots[i].from, i as i32 - 2 + direction);
                }
            }
            c.slide_start = None;
        }
    }
}

#[test]
fn placement_selection_stays_in_group_and_reopens_at_last_item() {
    let mut c = carousel();
    for group in 0..c.group_count() {
        c.select_item(group, c.group_len());
        for direction in [-1, 1] {
            for _ in 0..c.group_len() + 1 {
                let old = c.selected;
                c.cycle_selection(direction);
                assert_eq!(c.group, group);
                assert_eq!(c.selected, (old as i32 - direction as i32).rem_euclid(c.group_len() as i32) as usize);
                let id = c.selected_id();
                let selected = c.selected;
                c.select_item(c.group, c.selected);
                assert_eq!((c.selected_id(), c.selected), (id, selected));
            }
        }
    }
}

#[test]
fn group_previews_match_w_s_destinations_and_ignore_horizontal_input() {
    let mut c = carousel();
    let counts = counts();
    for group in 0..c.group_count() {
        c.select_group(group);
        let previews = [c.slots[5].asset, c.slots[6].asset];
        for (i, direction) in [1, -1].into_iter().enumerate() {
            let mut destination = carousel();
            destination.select_group(c.adjacent_group(direction));
            assert_eq!(previews[i], destination.slots[2].asset);
        }
        let mut now = 0;
        for _ in 0..3 {
            c.wheel(1);
            for _ in 0..30 {
                c.advance(now);
                c.admit_frame(now, &counts);
                now += 16;
                assert_eq!([c.slots[5].asset, c.slots[6].asset], previews);
            }
        }
    }
}

#[test]
fn pending_steps_wait_for_the_slide_and_cap_at_32() {
    let mut c = carousel();
    c.select_group(0);
    for _ in 0..40 {
        c.wheel(1);
    }
    c.advance(1000);
    assert_eq!((c.selected, c.slide_start), (1, Some(1000)));
    c.advance(1332);
    assert_eq!(c.selected, 1);
    c.advance(1333);
    assert_eq!((c.selected, c.slide_start), (2, Some(1333)));
    c.wheel(-1);
    c.wheel(-1);
    c.wheel(0);
    assert_eq!(c.pending, 28);
    let mut now = 1333;
    let mut steps = 0;
    while c.pending != 0 && steps < 100 {
        now += 333;
        c.advance(now);
        steps += 1;
    }
    assert_eq!((steps, c.selected), (28, (2 + 28) % 7));
    c.advance(now + 333);
    assert_eq!((c.selected, c.slide_start), ((2 + 28) % 7, None));
}

#[test]
fn shared_spawn_budget_reaches_all_seven_slots_then_exact_geometry_and_opacity() {
    let mut c = carousel();
    let counts = counts();
    c.select_group(0);
    assert!(c.admit_frame(0, &counts).is_empty());
    assert!(c.admit_frame(DELAY_MS - 1, &counts).is_empty());
    let drawn = c.admit_frame(DELAY_MS, &counts);
    assert_eq!(drawn.len(), MAX_STARTS_PER_FRAME as usize);
    let stride = 12;
    assert_eq!(drawn[0], Admitted { slot: 2, cube: 0, seed: 2 * stride });
    assert_eq!(drawn[1], Admitted { slot: 5, cube: 0, seed: 5 * stride });
    assert_eq!(drawn[2], Admitted { slot: 6, cube: 0, seed: 6 * stride });
    assert_eq!(drawn[3].slot, 1);
    for slot in 0..SLOT_COUNT {
        assert!(drawn.iter().any(|d| d.slot == slot), "slot {slot} starved");
    }
    let available: usize = c.slots.iter().map(|s| counts[s.asset]).sum();
    let mut now = DELAY_MS;
    let mut last = drawn;
    while now < 12000 {
        now += 16;
        last = c.admit_frame(now, &counts);
    }
    assert_eq!(last.len(), available);
}

#[test]
fn stride_is_the_largest_header_count() {
    let c = Carousel::new(groups(), &sources(), PALETTE);
    assert_eq!(c.stride, 12);
    let none = Carousel::new(vec![], &[], 3);
    assert_eq!((none.stride, none.group_count()), (1, 1));
    let mut d = Carousel::new(vec![vec![0]], &[header(0x0102)], 1);
    assert_eq!(d.stride, 0x0102);
    d.select_group(1);
    assert_eq!((d.group, d.group_len(), d.selected_id()), (1, 1, 1));
    assert_eq!(d.reveal.phase(0), cubes::reveals::Phase::Hidden);
}
