use cubes::environment::{terrain_color, Palette, MANDELBOX_COLORS, MANDELBOX_VOID};
use cubes::world_bounds::has_horizontal_ramps;
use cubes::world_cube::{Companion, PERIOD_MS};

const TERRAIN: [u32; 6] = [0x102030, 0x405060, 0x708090, 0xa0b0c0, 0xd0e0f0, 0x010203];

#[test]
fn void_has_no_ramps() {
    assert!(!has_horizontal_ramps(26));
}

#[test]
fn every_portal_world_has_ramps() {
    assert!((0..26).all(has_horizontal_ramps));
}

#[test]
fn rising_edge_toggles_and_pulse_starts_compact_every_seven_and_half_seconds() {
    let mut c = Companion::default();
    c.key(true, true, 100);
    for t in [100, 200, 1000] {
        c.key(true, true, t);
        assert!(c.visible(true));
    }
    assert!(!c.visible(false));
    c.key(false, true, 8000);
    c.key(true, true, 8001);
    assert!(!c.visible(true));
}

#[test]
fn companion_pulse_restarts_with_every_toggle() {
    let mut c = Companion::default();
    assert!(!c.visible(true));
    // Outside a world the key does nothing.
    c.key(true, false, 50);
    assert!(!c.visible(true));
    c.key(false, false, 60);
    c.key(true, true, 100);
    assert_eq!(c.pulse_ms(100), 0);
    assert_eq!(c.pulse_ms(100 + PERIOD_MS + 5), 5);
    assert_eq!(c.pulse_ms(50), 0);
}

#[test]
fn mandelbox_palettes_follow_the_theme_words_of_the_name() {
    let sky = Palette::for_mandelbox_world("world_01_sky.cubes").unwrap();
    assert_eq!(sky.count, 1);
    assert_eq!(sky.colors, [MANDELBOX_COLORS[0]; 3]);
    assert!(sky.cathedral);
    let pair = Palette::for_mandelbox_world("world_07_sky_black-hole").unwrap();
    assert_eq!(pair.count, 2);
    assert_eq!(pair.colors, [MANDELBOX_COLORS[0], MANDELBOX_COLORS[2], MANDELBOX_COLORS[0]]);
    let corner = Palette::for_mandelbox_world("world_19_sky_black-hole_island.cubes").unwrap();
    assert_eq!(corner.count, 3);
    assert_eq!(corner.colors, [MANDELBOX_COLORS[0], MANDELBOX_COLORS[2], MANDELBOX_COLORS[4]]);
    let void = Palette::for_mandelbox_world("world_27_void.cubes").unwrap();
    assert_eq!(void.count, 1);
    assert_eq!(void.colors, [MANDELBOX_VOID; 3]);
    assert!(!void.cathedral);
}

#[test]
fn names_without_themes_or_with_four_have_no_palette() {
    assert_eq!(Palette::for_mandelbox_world("world_00_plain.cubes"), None);
    assert_eq!(Palette::for_mandelbox_world("skyline.cubes"), None);
    assert_eq!(Palette::for_mandelbox_world("sky_underground_island_city"), None);
}

#[test]
fn world_palettes_use_terrain_colours_and_the_void_takes_the_black_hole() {
    let p = Palette::for_world("world_10_underground_city.cubes", TERRAIN).unwrap();
    assert_eq!(p.colors, [TERRAIN[1], TERRAIN[5], TERRAIN[1]]);
    let v = Palette::for_world("world_27_void", TERRAIN).unwrap();
    assert_eq!(v.colors, [TERRAIN[2]; 3]);
}

#[test]
fn average_rgb_rounds_to_nearest_over_the_distinct_colours() {
    let p = Palette { colors: [0x000000, 0xff0101, 0x000000], count: 2, cathedral: true };
    assert_eq!(p.average_rgb(), [128, 1, 1]);
    let one = Palette { colors: [0x123456; 3], count: 1, cathedral: false };
    assert_eq!(one.average_rgb(), [0x12, 0x34, 0x56]);
    let three = Palette { colors: [0x030000, 0x000000, 0x000000], count: 3, cathedral: true };
    assert_eq!(three.average_rgb(), [1, 0, 0]);
}

#[test]
fn terrain_colour_is_the_first_palette_entry() {
    let mut bytes = vec![0u8; 20];
    bytes[16] = 0x12;
    bytes[17] = 0x34;
    bytes[18] = 0x56;
    bytes[19] = 255;
    assert_eq!(terrain_color(&bytes), 0x123456);
}
