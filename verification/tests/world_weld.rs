use cubes::marker_lod::CUSTOM_RGB555;
use cubes::world_weld::{color_class, face_masks, welded_flags, WeldKey, Welder, CLASS, MATERIAL};

fn key(x: i32, y: i32, z: i32) -> WeldKey {
    WeldKey { color: 0, scale: 0x3efc_6a7f, side: 4, center: [x * 8, y * 8, z * 8] }
}

fn run(keys: &[WeldKey]) -> (Welder, Vec<u32>) {
    let mut w = Welder::default();
    w.enabled = true;
    let masks = w.prepare(keys);
    (w, masks)
}

#[test]
fn pairs_on_every_axis_remove_both_faces_and_meet_exactly() {
    for axis in 0..3 {
        let mut keys = [key(0, 0, 0), key(0, 0, 0)];
        keys[1].center[axis] = 8;
        let (w, masks) = run(&keys);
        assert_eq!((w.joined, w.removed_faces, 88 - w.triangles_saved()), (2, 2, 20));
        let face = axis * 2 + usize::from(axis != 0);
        assert_eq!(masks[0], 1 << face);
        assert_eq!(masks[1], 1 << (face ^ 1));
    }
}

#[test]
fn block_keeps_only_its_outer_shell_and_culls_the_center() {
    let mut keys = Vec::new();
    for z in 0..3 {
        for y in 0..3 {
            for x in 0..3 {
                keys.push(key(x, y, z));
            }
        }
    }
    let (w, masks) = run(&keys);
    assert_eq!((w.joined, w.removed_faces), (27, 108));
    assert_eq!(27 * 44 - w.triangles_saved(), 108);
    assert_eq!(masks[13], 63);
    assert_eq!(masks[0], 1 | 8 | 32);
}

#[test]
fn duplicate_cells_do_not_supply_coverage() {
    let keys = [key(0, 0, 0), key(1, 0, 0), key(1, 0, 0)];
    let (w, masks) = run(&keys);
    assert_eq!(w.joined, 0);
    assert_eq!(masks, vec![0, 0, 0]);
}

#[test]
fn different_colors_sizes_partial_contacts_and_real_gaps_are_preserved() {
    for variant in 0..4 {
        let mut keys = [key(0, 0, 0), key(1, 0, 0)];
        match variant {
            0 => keys[1].color = 1,
            1 => {
                keys[1].side = 8;
                keys[1].scale = 0x3f7c_6a7f;
            }
            2 => keys[1].center[1] += 4,
            _ => keys[1].center[0] += 8,
        }
        let (w, masks) = run(&keys);
        assert_eq!((w.joined, w.removed_faces), (0, 0));
        assert_eq!(masks, vec![0, 0]);
    }
}

#[test]
fn welding_off_reports_nothing() {
    let mut w = Welder::default();
    let masks = w.prepare(&[key(0, 0, 0), key(1, 0, 0)]);
    assert!(masks.is_empty());
    assert_eq!((w.joined, w.removed_faces, w.triangles_saved()), (0, 0, 0));
}

#[test]
fn toggle_is_edge_triggered_and_disabled_restores_baseline() {
    let mut w = Welder::default();
    w.key(true, false);
    assert!(!w.enabled);
    w.key(false, true);
    w.key(true, true);
    assert!(w.enabled);
    w.key(true, true);
    assert!(w.enabled);
    w.key(false, true);
    w.key(true, true);
    assert!(!w.enabled);
    let masks = w.prepare(&[key(0, 0, 0), key(1, 0, 0)]);
    assert_eq!(w.joined, 0);
    assert!(masks.is_empty());
}

#[test]
fn colour_classes_keep_palette_and_material_apart() {
    assert_eq!(color_class(CUSTOM_RGB555 | 123, &[123, 456]), Some(0));
    assert_eq!(color_class(CUSTOM_RGB555 | 456, &[123, 456]), Some(1));
    assert_eq!(color_class(CUSTOM_RGB555 | 789, &[123, 456]), None);
    assert_eq!(color_class(0xabcd_0000 | CUSTOM_RGB555 | 123, &[123]), Some(0));
    let mut many: Vec<u32> = (0..20).collect();
    many[17] = 999;
    assert_eq!(color_class(CUSTOM_RGB555 | 999, &many), None);
    assert_eq!(color_class(24576 | 5, &[]), Some(MATERIAL | 5));
    assert_eq!(color_class(24576, &[]), Some(MATERIAL));
    assert_eq!(color_class(24576 | 6, &[]), None);
    assert_eq!(color_class(25088 | 4096 | (3 << 10), &[]), None);
}

#[test]
fn welded_flags_carry_class_colour_and_faces() {
    assert_eq!(welded_flags(5, 63), CLASS | 5 | (63 << 4));
    assert_eq!(welded_flags(MATERIAL | 5, 1), 0x1800 | 0x0400 | 5 | 0x10);
    assert_eq!(face_masks(&[]), Vec::<u32>::new());
}

#[test]
fn material_identity_is_preserved_and_not_mixed_with_rgb() {
    let mut keys = [key(0, 0, 0), key(1, 0, 0)];
    for k in &mut keys {
        k.color = color_class(24576 | 5, &[]).unwrap();
    }
    let (w, masks) = run(&keys);
    assert_eq!(w.joined, 2);
    assert!(masks.iter().all(|&m| welded_flags(keys[0].color, m) & MATERIAL != 0 && welded_flags(keys[0].color, m) & 15 == 5));
    keys[1].color = color_class(24576, &[]).unwrap();
    assert_eq!(run(&keys).0.joined, 0);
}

#[test]
fn markers_missing_or_growing_neighbors_do_not_cut_holes() {
    let mut w = Welder::default();
    w.enabled = true;
    // Only the ready cubes are keyed: a neighbour still growing is absent.
    w.prepare(&[key(0, 0, 0)]);
    assert_eq!(w.joined, 0);
    w.prepare(&[key(0, 0, 0), key(1, 0, 0)]);
    assert_eq!(w.joined, 2);
    // Rebuilt every frame: removing a neighbour restores its cap.
    let masks = w.prepare(&[key(0, 0, 0)]);
    assert_eq!((w.joined, masks), (0, vec![0]));
}
