use cubes::flight_target::{material, CUSTOM_RGB555};
use cubes::hud::status_text;
use cubes::network::{
    accept_chunk, accept_world_chunk, packet, palette_from_rgba, world_info_for,
    world_welcome_error, CHUNK, CHUNK_BYTES,
};
use cubes::picking::selectable;
use cubes::subcubes::{Block, Demo, MINING_SIDES, NO_TOOL, TICKS_PER_C1, WHEEL_ORDER};
use cubes::transition::{FLIGHT_MS, WAIT_MS};

#[test]
fn wheel_visits_every_size_and_off_in_both_directions() {
    let mut d = Demo::new();
    let expected = ["1", "2", "3", "3.5", "4", "6", "0"];
    for id in expected {
        d.cycle(1);
        assert_eq!(d.tool_id(), id);
    }
    for tool in WHEEL_ORDER.into_iter().filter(|&t| t != NO_TOOL) {
        d.cycle(1);
        assert_eq!(d.tool, tool);
    }
    d.cycle(1);
    assert_eq!(d.tool, NO_TOOL);
    for tool in WHEEL_ORDER.into_iter().filter(|&t| t != NO_TOOL).rev() {
        d.cycle(-1);
        assert_eq!(d.tool, tool);
    }
    d.cycle(-1);
    assert_eq!(d.tool, NO_TOOL);
}

#[test]
fn fine_tiers_have_exact_two_and_three_subdivisions() {
    let c1 = Block {
        min: [0; 3],
        side: 24,
        material: 2,
    };
    assert_eq!(c1.children().len(), 8);
    assert_eq!(TICKS_PER_C1 / 3, 8);
    assert_eq!(TICKS_PER_C1 / 4, 6);
    let d = Demo::new();
    assert_eq!(d.blocks.len(), 72);
    for side in MINING_SIDES {
        for material in 0..6 {
            assert_eq!(
                d.blocks
                    .iter()
                    .filter(|b| b.side == side && b.material == material)
                    .count(),
                1
            );
        }
    }
}

const PALETTE: [u32; 6] = [
    0xff0000ff, 0xff0080ff, 0xff00ffff, 0xff00ff00, 0xffff0000, 0xffff00ff,
];

#[test]
fn every_world_palette_color_maps_to_its_matching_material() {
    for (id, color) in PALETTE.iter().enumerate() {
        let rgb = (0..3)
            .map(|a| (((color >> (a * 8)) & 255) * 31 + 127) / 255 << (a * 5))
            .sum::<u32>();
        assert_eq!(material(CUSTOM_RGB555 | rgb, &PALETTE), id as u32);
    }
}

#[test]
fn status_keeps_four_digit_counts_and_mode() {
    assert_eq!(status_text(3, 7, 1024), *b"M3 E0007 U1024");
}

/// A world welcome: revision, world, encoded length, chunk count, flags.
fn welcome(revision: u32, world_id: u8, len: u32, chunks: u16, flags: u8) -> Vec<u8> {
    let mut body = revision.to_le_bytes().to_vec();
    body.push(world_id);
    body.extend_from_slice(&len.to_le_bytes());
    body.extend_from_slice(&chunks.to_le_bytes());
    body.push(flags);
    packet(0x81, &body)
}

#[test]
fn world_two_welcome_requires_matching_id_and_geometry() {
    let empty = welcome(1, 2, 464, 1, 0);
    assert_eq!(world_info_for(&empty, 2), Some(464));
    assert_eq!(world_info_for(&empty, 1), None);
    assert_eq!(world_info_for(&welcome(1, 1, 16, 1, 0), 2), None);
    assert_eq!(world_info_for(&welcome(1, 2, 0, 0, 0), 2), None);
    assert_eq!(world_info_for(&welcome(1, 2, 0, 1, 0), 2), None);
}

#[test]
fn welcome_failure_distinguishes_old_gallery_server_from_silence() {
    assert!(world_welcome_error(true, false).contains("rebuild and reload CubeSrv"));
    assert!(world_welcome_error(true, true).contains("incompatible world welcome"));
    assert!(world_welcome_error(false, false).contains("no valid gallery or world"));
}

#[test]
fn world_transfer_validates_identity_counts_duplicates_and_partial_tail() {
    let mut welcome = vec![0; 12];
    welcome[4] = 1;
    welcome[5..9].copy_from_slice(&1030u32.to_le_bytes());
    welcome[9..11].copy_from_slice(&2u16.to_le_bytes());
    assert_eq!(world_info_for(&packet(0x81, &welcome), 1), Some(1030));
    welcome[4] = 27;
    assert_eq!(world_info_for(&packet(0x81, &welcome), 1), None);
    let mut encoded = vec![0; 1030];
    let mut received = vec![false; 2];
    let chunk = |id, index: u16, count: u16, size| {
        let mut body = vec![id];
        body.extend_from_slice(&index.to_le_bytes());
        body.extend_from_slice(&count.to_le_bytes());
        body.extend_from_slice(&vec![7; size]);
        packet(0x83, &body)
    };
    assert!(!accept_world_chunk(&chunk(27, 1, 2, 6), 1, &mut encoded, &mut received));
    assert!(!accept_world_chunk(&chunk(2, 1, 2, 6), 1, &mut encoded, &mut received));
    assert!(!accept_world_chunk(&chunk(1, 1, 2, 6), 2, &mut encoded, &mut received));
    assert!(!accept_world_chunk(&chunk(1, 1, 3, 6), 1, &mut encoded, &mut received));
    assert!(!accept_world_chunk(&chunk(1, 1, 2, 5), 1, &mut encoded, &mut received));
    assert!(accept_world_chunk(&chunk(1, 1, 2, 6), 1, &mut encoded, &mut received));
    assert!(!accept_world_chunk(&chunk(1, 1, 2, 6), 1, &mut encoded, &mut received));
    assert!(accept_world_chunk(&chunk(1, 0, 2, 1024), 1, &mut encoded, &mut received));
    assert!(received.iter().all(|v| *v));
    assert!(encoded.iter().all(|v| *v == 7));
}

/// The atlas extent of a gallery layout of one-cell tiers: three tiles
/// across, two tiles and the palette row down.
const TILE: u32 = 32;
const EXTENT: [u32; 2] = [TILE * 3, TILE * 2 + 1];

#[test]
fn atlas_palette_uses_the_same_rgb555_rounding_as_placed_assets() {
    let [width, height] = EXTENT;
    let stride = width * 4;
    let mut rgba = vec![0; (stride * height) as usize];
    let start = ((height - 1) * stride + 4) as usize;
    for (i, color) in [
        [255, 0, 0, 255],
        [0, 255, 0, 255],
        [0, 0, 255, 255],
        [255, 255, 255, 255],
        [252, 150, 17, 255],
    ]
    .iter()
    .enumerate()
    {
        rgba[start + i * 4..start + i * 4 + 4].copy_from_slice(color);
    }
    let palette = palette_from_rgba(EXTENT, width, height, stride, &rgba).unwrap();
    assert_eq!(&palette[..4], &[0x801f, 0x83e0, 0xfc00, 0xffff]);
    assert_eq!(palette[4], 0x8000 | 31 | (18 << 5) | (2 << 10));
    assert!(palette_from_rgba(EXTENT, width, height, stride, &rgba[..start]).is_none());
    assert!(palette_from_rgba(EXTENT, width + 1, height, stride, &rgba).is_none());
}

/// A gallery chunk of `source` for revision `revision`.
fn slide_chunk(revision: u32, chunk: u16, source: &[u8]) -> Option<Vec<u8>> {
    let start = chunk as usize * CHUNK_BYTES;
    if start >= source.len() {
        return None;
    }
    let end = (start + CHUNK_BYTES).min(source.len());
    let mut body = revision.to_le_bytes().to_vec();
    body.extend_from_slice(&chunk.to_le_bytes());
    body.extend_from_slice(&source[start..end]);
    Some(packet(CHUNK, &body))
}

#[test]
fn reordered_duplicate_and_stale_chunks_cannot_mix_slides() {
    let source: Vec<_> = (0..(CHUNK_BYTES * 3 + 17))
        .map(|i| (i % 251) as u8)
        .collect();
    let mut output = vec![0; source.len()];
    let chunks = source.len().div_ceil(CHUNK_BYTES);
    let mut received = vec![false; chunks];
    let old = slide_chunk(8, 0, &source).unwrap();
    assert!(!accept_chunk(&old, 9, &mut output, &mut received));
    for chunk in (0..chunks).rev() {
        let part = slide_chunk(9, chunk as u16, &source).unwrap();
        assert!(part.len() <= 1200);
        assert!(accept_chunk(&part, 9, &mut output, &mut received));
        assert!(!accept_chunk(&part, 9, &mut output, &mut received));
    }
    assert_eq!(output, source);
    assert!(received.iter().all(|v| *v));
}

#[test]
fn exactly_twenty_selectable_cubies() {
    assert_eq!((0..27).filter(|&id| selectable(id)).count(), 20);
}

#[test]
fn post_turn_pause_is_removed_and_flight_is_extended() {
    assert_eq!(WAIT_MS, 0);
    assert_eq!(FLIGHT_MS, 3_500);
}

#[test]
fn chunks_reject_wrong_revision_duplicates_and_bad_length() {
    let mut bytes = [0; 3];
    let mut received = [false];
    let mut b = 7u32.to_le_bytes().to_vec();
    b.extend_from_slice(&[0, 0, 1, 2, 3]);
    let p = packet(0x8a, &b);
    assert!(!cubes::vfx_stream::accept_chunk(&p, 8, &mut bytes, &mut received));
    assert!(cubes::vfx_stream::accept_chunk(&p, 7, &mut bytes, &mut received));
    assert_eq!(bytes, [1, 2, 3]);
    assert!(!cubes::vfx_stream::accept_chunk(&p, 7, &mut bytes, &mut received));
}
